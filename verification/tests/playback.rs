use speedread::pacing::{base_unit_duration_ms, token_duration_ms, DEFAULT_WPM};
use speedread::playback::{is_cancel_key, App, PlaybackState};
use speedread::segment::Mode;
use speedread::tree::{segment_tree, PageTree};

fn one_page_tree(lines: &[&str]) -> PageTree {
    let mut tree = PageTree::new();
    assert!(tree.push_page(1, lines.iter().map(|l| l.to_string()).collect()));
    tree
}

#[test]
fn base_duration_from_default_rate() {
    assert_eq!(base_unit_duration_ms(DEFAULT_WPM), 200);
    assert_eq!(base_unit_duration_ms(60_000), 1);
}

#[test]
fn duration_scales_with_word_count() {
    let base = base_unit_duration_ms(DEFAULT_WPM);
    assert_eq!(token_duration_ms(base, 1), Some(200));
    assert_eq!(token_duration_ms(base, 2), Some(400));
    assert_eq!(token_duration_ms(base, 0), Some(200));
}

#[test]
fn duration_overflow_is_reported() {
    assert_eq!(token_duration_ms(u64::MAX, 2), None);
    assert_eq!(token_duration_ms(u64::MAX, 1), Some(u64::MAX));
}

#[test]
fn cancel_key_is_q_press() {
    assert!(is_cancel_key(true, 'q'));
    assert!(!is_cancel_key(false, 'q'));
    assert!(!is_cancel_key(true, 'x'));
}

#[test]
fn word_mode_scenario() {
    let tree = one_page_tree(&["Hello world."]);
    let base = base_unit_duration_ms(DEFAULT_WPM);
    let pairs = segment_tree(&tree, Mode::Word, 0);
    let words: Vec<String> = pairs.iter().map(|p| p.1.text.clone()).collect();
    assert_eq!(words, vec!["Hello".to_string(), "world.".to_string()]);
    assert!(pairs.iter().all(|p| p.1.word_count == 1));
    let total: u64 = pairs
        .iter()
        .map(|p| token_duration_ms(base, p.1.word_count).unwrap())
        .sum();
    assert_eq!(total, 2 * base);
}

#[test]
fn phrase_mode_scenario() {
    let tree = one_page_tree(&["Hello world."]);
    let base = base_unit_duration_ms(DEFAULT_WPM);
    let pairs = segment_tree(&tree, Mode::Phrase, 0);
    assert_eq!(pairs.len(), 1);
    assert_eq!(pairs[0].1.text, "Hello world.");
    assert_eq!(pairs[0].1.word_count, 2);
    let d = token_duration_ms(base, pairs[0].1.word_count).unwrap();
    assert_eq!(d, 2 * base);
}

#[test]
fn empty_then_one_token_scenario() {
    let mut tree = PageTree::new();
    assert!(tree.push_page(1, vec!["".to_string()]));
    assert!(tree.push_page(2, vec!["One.".to_string()]));
    let mut app = App::new(segment_tree(&tree, Mode::Phrase, 0));

    let mut renders = 0;
    loop {
        match app.next_frame() {
            Some(frame) => {
                renders += 1;
                assert_eq!(frame.page, 2);
                assert_eq!(frame.text, "One.");
                app.finish_frame(false);
            }
            None => break,
        }
    }
    assert_eq!(renders, 1);
    assert_eq!(app.state, PlaybackState::Finished);
}

#[test]
fn playback_walks_tokens_in_order() {
    let tree = one_page_tree(&["a b", "c"]);
    let mut app = App::new(segment_tree(&tree, Mode::Word, 0));
    let mut seen = Vec::new();
    while let Some(frame) = app.next_frame() {
        seen.push(frame.text);
        app.finish_frame(false);
    }
    assert_eq!(
        seen,
        vec!["a".to_string(), "b".to_string(), "c".to_string()]
    );
    assert_eq!(app.state, PlaybackState::Finished);
}

#[test]
fn cancel_stops_playback_at_once() {
    let tree = one_page_tree(&["one two three"]);
    let mut app = App::new(segment_tree(&tree, Mode::Word, 0));

    let frame = app.next_frame().expect("a running session yields a frame");
    assert_eq!(frame.text, "one");
    app.finish_frame(true);

    assert_eq!(app.state, PlaybackState::Cancelled);
    assert!(app.next_frame().is_none());
    assert!(app.next_frame().is_none());
    assert_eq!(app.state, PlaybackState::Cancelled);
    assert_eq!(app.position, 0);
}

#[test]
fn exhausted_stream_finishes_without_a_frame() {
    let tree = one_page_tree(&[""]);
    let mut app = App::new(segment_tree(&tree, Mode::Word, 0));
    assert_eq!(app.state, PlaybackState::Running);
    assert!(app.next_frame().is_none());
    assert_eq!(app.state, PlaybackState::Finished);
    assert!(app.next_frame().is_none());
    assert_eq!(app.state, PlaybackState::Finished);
}
