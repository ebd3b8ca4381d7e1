use speedread::segment::{count_words, is_blank_str, line_tokens, phrase_tokens, word_tokens, Mode};
use speedread::tree::{segment_page, segment_tree, Page, PageTree};

fn texts(ts: &[speedread::segment::Token]) -> Vec<String> {
    ts.iter().map(|t| t.text.clone()).collect()
}

#[test]
fn words_of_simple_line() {
    let ts = word_tokens("Hello world.");
    assert_eq!(texts(&ts), vec!["Hello".to_string(), "world.".to_string()]);
    assert!(ts.iter().all(|t| t.word_count == 1));
}

#[test]
fn words_collapse_whitespace_runs() {
    let ts = word_tokens("  one \t two\nthree  ");
    assert_eq!(
        texts(&ts),
        vec!["one".to_string(), "two".to_string(), "three".to_string()]
    );
}

#[test]
fn words_of_empty_and_blank_lines() {
    assert!(word_tokens("").is_empty());
    assert!(word_tokens(" \t  ").is_empty());
}

#[test]
fn phrases_keep_the_terminator() {
    let ts = phrase_tokens("Hello world.");
    assert_eq!(texts(&ts), vec!["Hello world.".to_string()]);
    assert_eq!(ts[0].word_count, 2);
}

#[test]
fn phrases_split_after_each_dot() {
    let ts = phrase_tokens("One. Two. three");
    assert_eq!(
        texts(&ts),
        vec!["One.".to_string(), " Two.".to_string(), " three".to_string()]
    );
    assert_eq!(ts[0].word_count, 1);
    assert_eq!(ts[1].word_count, 1);
    assert_eq!(ts[2].word_count, 1);
}

#[test]
fn phrases_drop_blank_trailing_fragment() {
    let ts = phrase_tokens("Done.   ");
    assert_eq!(texts(&ts), vec!["Done.".to_string()]);
}

#[test]
fn phrase_without_terminator_is_one_token() {
    let ts = phrase_tokens("no terminator here");
    assert_eq!(texts(&ts), vec!["no terminator here".to_string()]);
    assert_eq!(ts[0].word_count, 3);
}

#[test]
fn blank_line_yields_no_phrases() {
    assert!(phrase_tokens("").is_empty());
    assert!(phrase_tokens("   ").is_empty());
}

#[test]
fn no_token_is_blank_in_either_mode() {
    for line in ["", "  ", "a. b. c", "... ", "x .y. z.", "\t tab. here \t"] {
        for mode in [Mode::Word, Mode::Phrase] {
            for t in line_tokens(line, mode) {
                assert!(!is_blank_str(&t.text));
                assert!(t.word_count >= 1);
            }
        }
    }
}

#[test]
fn word_counts_agree_across_modes() {
    let lines = ["First one. Then another.", "no dot at all", " . "];
    for line in lines {
        let words: usize = word_tokens(line).iter().map(|t| t.word_count).sum();
        let phrases: usize = phrase_tokens(line).iter().map(|t| t.word_count).sum();
        assert_eq!(words, phrases);
    }
}

#[test]
fn count_words_counts() {
    assert_eq!(count_words(""), 0);
    assert_eq!(count_words("one"), 1);
    assert_eq!(count_words("a b  c"), 3);
}

#[test]
fn is_blank_str_checks_every_char() {
    assert!(is_blank_str(""));
    assert!(is_blank_str(" \t\r\n"));
    assert!(!is_blank_str(" x "));
}

fn sample_tree() -> PageTree {
    let mut tree = PageTree::new();
    assert!(tree.push_page(1, vec!["".to_string()]));
    assert!(tree.push_page(2, vec!["One.".to_string()]));
    tree
}

#[test]
fn push_page_rejects_out_of_order_numbers() {
    let mut tree = sample_tree();
    assert!(!tree.push_page(2, vec![]));
    assert!(!tree.push_page(1, vec![]));
    assert!(!tree.push_page(0, vec![]));
    assert!(tree.push_page(3, vec![]));
    assert_eq!(tree.pages.len(), 3);
}

#[test]
fn empty_pages_yield_no_tokens() {
    let tree = sample_tree();
    let pairs = segment_tree(&tree, Mode::Phrase, 0);
    assert_eq!(pairs.len(), 1);
    assert_eq!(pairs[0].0, 2);
    assert_eq!(pairs[0].1.text, "One.");
}

#[test]
fn segment_page_walks_lines_in_order() {
    let page = Page {
        number: 7,
        lines: vec!["a b".to_string(), "c".to_string()],
    };
    let ts = segment_page(&page, Mode::Word);
    assert_eq!(
        texts(&ts),
        vec!["a".to_string(), "b".to_string(), "c".to_string()]
    );
}

#[test]
fn page_numbers_never_decrease() {
    let mut tree = PageTree::new();
    assert!(tree.push_page(1, vec!["a. b.".to_string()]));
    assert!(tree.push_page(4, vec!["c d".to_string()]));
    assert!(tree.push_page(9, vec!["e.".to_string()]));
    let pairs = segment_tree(&tree, Mode::Phrase, 0);
    for w in pairs.windows(2) {
        assert!(w[0].0 <= w[1].0);
    }
}

#[test]
fn offset_skips_leading_pages() {
    let mut tree = PageTree::new();
    assert!(tree.push_page(1, vec!["first.".to_string()]));
    assert!(tree.push_page(2, vec!["second.".to_string()]));
    assert!(tree.push_page(3, vec!["third.".to_string()]));
    let pairs = segment_tree(&tree, Mode::Phrase, 1);
    assert_eq!(pairs.len(), 2);
    assert_eq!(pairs[0].0, 2);
    assert_eq!(pairs[0].1.text, "second.");
    assert!(pairs.iter().all(|p| p.0 != 1));
}

#[test]
fn offset_beyond_last_page_yields_nothing() {
    let tree = sample_tree();
    assert!(segment_tree(&tree, Mode::Word, 2).is_empty());
    assert!(segment_tree(&tree, Mode::Word, 100).is_empty());
}
