//! Splitting lines of text into display tokens.
//!
//! A token is one display unit: in `Word` mode a maximal run of non-space
//! characters, in `Phrase` mode a sentence fragment ending at a `.` (the
//! terminator stays with the fragment), with whitespace-only fragments
//! dropped. Tokens are never empty and never pure whitespace.

use vstd::prelude::*;

verus! {

/// The segmentation policy: one token per word, or one per sentence fragment.
#[derive(Clone, Copy, Debug)]
pub enum Mode {
    Word,
    Phrase,
}

/// One display unit: its text and the number of whitespace-separated words
/// in it (at least 1), which drives pacing.
#[derive(Debug)]
pub struct Token {
    pub text: String,
    pub word_count: usize,
}

/// The characters treated as whitespace when splitting lines into words.
pub open spec fn is_space(c: char) -> bool {
    c == ' ' || c == '\t' || c == '\n' || c == '\r' || c == '\u{b}' || c == '\u{c}'
}

/// A sequence of characters is blank when every character is whitespace
/// (so the empty sequence is blank).
pub open spec fn is_blank(s: Seq<char>) -> bool {
    forall|j: int| 0 <= j < s.len() ==> is_space(s[j])
}

pub fn is_space_char(c: char) -> (r: bool)
    ensures
        r == is_space(c),
{
    c == ' ' || c == '\t' || c == '\n' || c == '\r' || c == '\u{b}' || c == '\u{c}'
}

/// The words of `s` from index `i` on, given that `cur` holds the partial
/// word read so far: maximal non-space runs, in order, empty runs dropped.
pub open spec fn words_from(s: Seq<char>, i: int, cur: Seq<char>) -> Seq<Seq<char>>
    decreases s.len() - i
    when 0 <= i <= s.len()
{
    if i >= s.len() {
        if cur.len() > 0 {
            seq![cur]
        } else {
            Seq::empty()
        }
    } else if is_space(s[i]) {
        if cur.len() > 0 {
            seq![cur] + words_from(s, i + 1, Seq::empty())
        } else {
            words_from(s, i + 1, Seq::empty())
        }
    } else {
        words_from(s, i + 1, cur.push(s[i]))
    }
}

/// The whitespace-separated words of `s`, in order.
pub open spec fn words_of(s: Seq<char>) -> Seq<Seq<char>> {
    words_from(s, 0, Seq::empty())
}

/// How many whitespace-separated words `s` contains.
pub open spec fn num_words(s: Seq<char>) -> nat {
    words_of(s).len()
}

/// The texts of a sequence of tokens.
pub open spec fn token_texts(ts: Seq<Token>) -> Seq<Seq<char>> {
    ts.map_values(|t: Token| t.text@)
}

/// A well-formed token: its text is not blank and its word count is the
/// number of words in the text (hence at least 1).
pub open spec fn token_wf(t: Token) -> bool {
    &&& !is_blank(t.text@)
    &&& t.word_count == num_words(t.text@)
    &&& t.word_count >= 1
}

/// Every character of `w` is a non-whitespace character.
pub open spec fn all_nonspace(w: Seq<char>) -> bool {
    forall|k: int| 0 <= k < w.len() ==> !is_space(w[k])
}

/// Splitting a concatenation from a position inside the right part sees
/// only the right part.
proof fn lemma_words_from_shift(s: Seq<char>, t: Seq<char>, j: int, cur: Seq<char>)
    requires
        0 <= j <= t.len(),
    ensures
        words_from(s + t, s.len() + j, cur) == words_from(t, j, cur),
    decreases t.len() - j,
{
    assert((s + t).len() == s.len() + t.len());
    if j == t.len() {
    } else {
        assert((s + t)[s.len() + j] == t[j]);
        if is_space(t[j]) {
            lemma_words_from_shift(s, t, j + 1, Seq::empty());
        } else {
            lemma_words_from_shift(s, t, j + 1, cur.push(t[j]));
        }
    }
}

/// When the right part of a concatenation is empty or starts with
/// whitespace, no word spans the seam: the words of the whole are the words
/// of the left part followed by the words of the right part.
proof fn lemma_words_from_concat(s: Seq<char>, t: Seq<char>, i: int, cur: Seq<char>)
    requires
        0 <= i <= s.len(),
        t.len() == 0 || is_space(t[0]),
    ensures
        words_from(s + t, i, cur) == words_from(s, i, cur) + words_of(t),
    decreases s.len() - i,
{
    assert((s + t).len() == s.len() + t.len());
    if i == s.len() {
        if t.len() == 0 {
            assert(s + t =~= s);
            assert(words_from(s, i, cur) + words_of(t) =~~= words_from(s, i, cur));
        } else {
            assert((s + t)[s.len() as int] == t[0]);
            lemma_words_from_shift(s, t, 1, Seq::empty());
            if cur.len() > 0 {
                assert(words_from(s + t, i, cur) =~~= seq![cur] + words_from(t, 1, Seq::empty()));
                assert(words_of(t) == words_from(t, 1, Seq::empty()));
                assert(words_from(s, i, cur) + words_of(t) =~~= seq![cur] + words_from(
                    t,
                    1,
                    Seq::empty(),
                ));
            } else {
                assert(words_from(s, i, cur) + words_of(t) =~~= words_of(t));
            }
        }
    } else {
        assert((s + t)[i] == s[i]);
        if is_space(s[i]) {
            lemma_words_from_concat(s, t, i + 1, Seq::empty());
            if cur.len() > 0 {
                assert(seq![cur] + (words_from(s, i + 1, Seq::empty()) + words_of(t)) =~~= (
                seq![cur] + words_from(s, i + 1, Seq::empty())) + words_of(t));
            }
        } else {
            lemma_words_from_concat(s, t, i + 1, cur.push(s[i]));
        }
    }
}

/// As `lemma_words_from_concat`, stated of whole sequences.
pub proof fn lemma_words_concat(s: Seq<char>, t: Seq<char>)
    requires
        t.len() == 0 || is_space(t[0]),
    ensures
        words_of(s + t) == words_of(s) + words_of(t),
{
    lemma_words_from_concat(s, t, 0, Seq::empty());
}

/// A blank tail with no partial word contributes no words.
proof fn lemma_words_from_blank(s: Seq<char>, i: int)
    requires
        0 <= i <= s.len(),
        forall|j: int| i <= j < s.len() ==> is_space(s[j]),
    ensures
        words_from(s, i, Seq::empty()) == Seq::<Seq<char>>::empty(),
    decreases s.len() - i,
{
    if i < s.len() {
        lemma_words_from_blank(s, i + 1);
    }
}

/// A blank sequence contains no words.
pub proof fn lemma_blank_num_words(s: Seq<char>)
    requires
        is_blank(s),
    ensures
        num_words(s) == 0,
{
    lemma_words_from_blank(s, 0);
}

/// A sequence that is not blank contains at least one word.
proof fn lemma_words_from_nonblank(s: Seq<char>, i: int, cur: Seq<char>)
    requires
        0 <= i <= s.len(),
        cur.len() > 0 || exists|j: int| i <= j < s.len() && !is_space(s[j]),
    ensures
        words_from(s, i, cur).len() >= 1,
    decreases s.len() - i,
{
    if i == s.len() {
    } else if is_space(s[i]) {
        if cur.len() > 0 {
        } else {
            let j = choose|j: int| i <= j < s.len() && !is_space(s[j]);
            assert(i + 1 <= j < s.len() && !is_space(s[j]));
            lemma_words_from_nonblank(s, i + 1, Seq::empty());
        }
    } else {
        lemma_words_from_nonblank(s, i + 1, cur.push(s[i]));
    }
}

/// A sequence that is not blank contains at least one word.
pub proof fn lemma_nonblank_num_words(s: Seq<char>)
    requires
        !is_blank(s),
    ensures
        num_words(s) >= 1,
{
    assert(exists|j: int| 0 <= j < s.len() && !is_space(s[j]));
    lemma_words_from_nonblank(s, 0, Seq::empty());
}

/// Every element of `ws` is a non-empty run of non-whitespace characters.
pub open spec fn all_words_solid(ws: Seq<Seq<char>>) -> bool {
    forall|k: int| 0 <= k < ws.len() ==> (#[trigger] ws[k]).len() > 0 && all_nonspace(ws[k])
}

/// Every word produced by `words_from` is non-empty and free of whitespace.
proof fn lemma_words_from_not_blank(s: Seq<char>, i: int, cur: Seq<char>)
    requires
        0 <= i <= s.len(),
        all_nonspace(cur),
    ensures
        all_words_solid(words_from(s, i, cur)),
    decreases s.len() - i,
{
    let res = words_from(s, i, cur);
    if i == s.len() {
        if cur.len() > 0 {
            assert(res[0] == cur);
        }
    } else if is_space(s[i]) {
        lemma_words_from_not_blank(s, i + 1, Seq::empty());
        let rest = words_from(s, i + 1, Seq::empty());
        if cur.len() > 0 {
            assert forall|k: int| 0 <= k < res.len() implies (#[trigger] res[k]).len() > 0
                && all_nonspace(res[k]) by {
                if k == 0 {
                    assert(res[k] == cur);
                } else {
                    assert(res[k] == rest[k - 1]);
                }
            }
        } else {
            assert(res =~~= rest);
        }
    } else {
        assert(all_nonspace(cur.push(s[i])));
        lemma_words_from_not_blank(s, i + 1, cur.push(s[i]));
        assert(res =~~= words_from(s, i + 1, cur.push(s[i])));
    }
}

/// Tokenization totality: every word of a line is non-empty and free of
/// whitespace, so word-mode tokens are never blank.
pub proof fn lemma_words_not_blank(s: Seq<char>)
    ensures
        all_words_solid(words_of(s)),
{
    lemma_words_from_not_blank(s, 0, Seq::empty());
}

/// A run of non-whitespace characters is a single word.
proof fn lemma_single_word_from(s: Seq<char>, i: int, cur: Seq<char>)
    requires
        0 <= i <= s.len(),
        all_nonspace(cur),
        forall|j: int| i <= j < s.len() ==> !is_space(s[j]),
        cur.len() > 0 || i < s.len(),
    ensures
        words_from(s, i, cur) == seq![cur + s.subrange(i, s.len() as int)],
    decreases s.len() - i,
{
    if i == s.len() {
        assert(cur + s.subrange(i, s.len() as int) =~= cur);
        assert(words_from(s, i, cur) =~~= seq![cur + s.subrange(i, s.len() as int)]);
    } else {
        assert(all_nonspace(cur.push(s[i])));
        lemma_single_word_from(s, i + 1, cur.push(s[i]));
        assert(cur.push(s[i]) + s.subrange(i + 1, s.len() as int) =~= cur + s.subrange(
            i,
            s.len() as int,
        ));
    }
}

/// A non-empty sequence with no whitespace is exactly one word.
pub proof fn lemma_single_word(w: Seq<char>)
    requires
        w.len() > 0,
        all_nonspace(w),
    ensures
        num_words(w) == 1,
{
    lemma_single_word_from(w, 0, Seq::empty());
    assert(Seq::<char>::empty() + w.subrange(0, w.len() as int) =~= w);
}

/// The phrase fragments of `s` from index `i` on, given the partial
/// fragment `cur` read so far: `s` is cut after every `.` (the terminator
/// stays with its fragment), and a whitespace-only trailing fragment is
/// dropped.
pub open spec fn phrase_texts_from(s: Seq<char>, i: int, cur: Seq<char>) -> Seq<Seq<char>>
    decreases s.len() - i
    when 0 <= i <= s.len()
{
    if i >= s.len() {
        if is_blank(cur) {
            Seq::empty()
        } else {
            seq![cur]
        }
    } else if s[i] == '.' {
        seq![cur.push('.')] + phrase_texts_from(s, i + 1, Seq::empty())
    } else {
        phrase_texts_from(s, i + 1, cur.push(s[i]))
    }
}

/// The phrase fragments of a whole line.
pub open spec fn phrase_texts(s: Seq<char>) -> Seq<Seq<char>> {
    phrase_texts_from(s, 0, Seq::empty())
}

/// Every element of `ts` is not blank.
pub open spec fn all_not_blank(ts: Seq<Seq<char>>) -> bool {
    forall|k: int| 0 <= k < ts.len() ==> !is_blank(#[trigger] ts[k])
}

/// Every phrase fragment that is kept is not blank.
proof fn lemma_phrase_from_not_blank(s: Seq<char>, i: int, cur: Seq<char>)
    requires
        0 <= i <= s.len(),
    ensures
        all_not_blank(phrase_texts_from(s, i, cur)),
    decreases s.len() - i,
{
    let res = phrase_texts_from(s, i, cur);
    if i == s.len() {
        if !is_blank(cur) {
            assert(res[0] == cur);
        }
    } else if s[i] == '.' {
        lemma_phrase_from_not_blank(s, i + 1, Seq::empty());
        let rest = phrase_texts_from(s, i + 1, Seq::empty());
        let f = cur.push('.');
        assert(!is_space(f[f.len() - 1]));
        assert(!is_blank(f));
        assert forall|k: int| 0 <= k < res.len() implies !is_blank(#[trigger] res[k]) by {
            if k == 0 {
                assert(res[k] == f);
            } else {
                assert(res[k] == rest[k - 1]);
            }
        }
    } else {
        lemma_phrase_from_not_blank(s, i + 1, cur.push(s[i]));
    }
}

/// Tokenization totality for phrase mode: no kept fragment is blank.
pub proof fn lemma_phrases_not_blank(s: Seq<char>)
    ensures
        all_not_blank(phrase_texts(s)),
{
    lemma_phrase_from_not_blank(s, 0, Seq::empty());
}

/// The total number of words across a sequence of fragments.
pub open spec fn sum_words(ts: Seq<Seq<char>>) -> nat
    decreases ts.len(),
{
    if ts.len() == 0 {
        0
    } else {
        num_words(ts[0]) + sum_words(ts.drop_first())
    }
}

/// Word totals add across concatenation.
pub proof fn lemma_sum_words_add(a: Seq<Seq<char>>, b: Seq<Seq<char>>)
    ensures
        sum_words(a + b) == sum_words(a) + sum_words(b),
    decreases a.len(),
{
    if a.len() == 0 {
        assert(a + b =~= b);
    } else {
        assert((a + b).drop_first() =~= a.drop_first() + b);
        assert((a + b)[0] == a[0]);
        lemma_sum_words_add(a.drop_first(), b);
    }
}

/// In a line where every `.` is followed by whitespace or ends the line,
/// no word spans a fragment boundary, so the fragments' words together are
/// exactly the line's words.
proof fn lemma_phrase_sum_from(s: Seq<char>, i: int, cur: Seq<char>)
    requires
        0 <= i <= s.len(),
        forall|j: int|
            i <= j < s.len() && (#[trigger] s[j]) == '.' ==> j == s.len() - 1 || is_space(s[j + 1]),
    ensures
        sum_words(phrase_texts_from(s, i, cur)) == num_words(cur + s.subrange(i, s.len() as int)),
    decreases s.len() - i,
{
    let res = phrase_texts_from(s, i, cur);
    if i == s.len() {
        assert(cur + s.subrange(i, s.len() as int) =~= cur);
        if is_blank(cur) {
            lemma_blank_num_words(cur);
        } else {
            assert(res[0] == cur);
            assert(res.drop_first() =~= Seq::<Seq<char>>::empty());
            assert(sum_words(res.drop_first()) == 0);
            assert(sum_words(res) == num_words(cur));
        }
    } else if s[i] == '.' {
        let f = cur.push('.');
        let rest = s.subrange(i + 1, s.len() as int);
        let p = phrase_texts_from(s, i + 1, Seq::empty());
        lemma_phrase_sum_from(s, i + 1, Seq::empty());
        assert(Seq::<char>::empty() + rest =~= rest);
        assert(res =~~= seq![f] + p);
        assert(res[0] == f);
        assert(res.drop_first() =~= p);
        assert(sum_words(res) == num_words(f) + sum_words(p));
        assert(rest.len() == 0 || is_space(rest[0]));
        lemma_words_concat(f, rest);
        assert(cur + s.subrange(i, s.len() as int) =~= f + rest);
    } else {
        lemma_phrase_sum_from(s, i + 1, cur.push(s[i]));
        assert(cur.push(s[i]) + s.subrange(i + 1, s.len() as int) =~= cur + s.subrange(
            i,
            s.len() as int,
        ));
    }
}

/// Every word-mode token holds exactly one word, so the words of a line sum
/// to the number of word tokens.
proof fn lemma_sum_words_of(s: Seq<char>)
    ensures
        sum_words(words_of(s)) == num_words(s),
{
    lemma_words_not_blank(s);
    lemma_sum_solid_words(words_of(s));
}

/// A sequence of non-empty whitespace-free fragments holds one word each.
proof fn lemma_sum_solid_words(ws: Seq<Seq<char>>)
    requires
        all_words_solid(ws),
    ensures
        sum_words(ws) == ws.len(),
    decreases ws.len(),
{
    if ws.len() > 0 {
        lemma_single_word(ws[0]);
        assert(all_words_solid(ws.drop_first()));
        lemma_sum_solid_words(ws.drop_first());
    }
}

/// Every sentence terminator in `s` either ends the line or is followed by
/// whitespace, so no word straddles a phrase boundary.
pub open spec fn dots_delimit(s: Seq<char>) -> bool {
    forall|j: int|
        0 <= j < s.len() && (#[trigger] s[j]) == '.' ==> j == s.len() - 1 || is_space(s[j + 1])
}

/// Word/phrase equivalence for one line: when every `.` in the line is
/// followed by whitespace or ends the line, the word counts of the phrase
/// fragments sum to the number of word-mode tokens of the same line.
pub proof fn lemma_line_word_count_equiv(s: Seq<char>)
    requires
        dots_delimit(s),
    ensures
        sum_words(phrase_texts(s)) == sum_words(words_of(s)),
        sum_words(words_of(s)) == num_words(s),
{
    lemma_phrase_sum_from(s, 0, Seq::empty());
    assert(Seq::<char>::empty() + s.subrange(0, s.len() as int) =~= s);
    lemma_sum_words_of(s);
}

/// Split a line into word tokens: one token per maximal run of
/// non-whitespace characters, in order, each with word count 1.
pub fn word_tokens(line: &str) -> (r: Vec<Token>)
    ensures
        token_texts(r@) == words_of(line@),
        forall|k: int| 0 <= k < r@.len() ==> token_wf(#[trigger] r@[k]) && r@[k].word_count == 1,
{
    let n = line.unicode_len();
    let mut r: Vec<Token> = Vec::new();
    let mut i: usize = 0;
    let mut start: usize = 0;
    proof {
        assert(line@.subrange(0, 0) =~= Seq::<char>::empty());
        assert(token_texts(r@) + words_of(line@) =~~= words_of(line@));
    }
    while i < n
        invariant
            0 <= start <= i <= n,
            n == line@.len(),
            forall|k: int| start <= k < i ==> !is_space(line@[k]),
            token_texts(r@) + words_from(line@, i as int, line@.subrange(start as int, i as int))
                =~~= words_of(line@),
            forall|k: int|
                0 <= k < r@.len() ==> token_wf(#[trigger] r@[k]) && r@[k].word_count == 1,
        decreases n - i,
    {
        let ghost cur = line@.subrange(start as int, i as int);
        let c = line.get_char(i);
        if is_space_char(c) {
            if start < i {
                let w = line.substring_char(start, i).to_owned();
                proof {
                    assert(w@ == cur);
                    assert(all_nonspace(cur));
                    assert(!is_space(cur[0]));
                    lemma_single_word(cur);
                    assert(token_texts(r@.push(Token { text: w, word_count: 1 })) =~~=
                    token_texts(r@).push(cur));
                }
                r.push(Token { text: w, word_count: 1 });
            }
            start = i + 1;
        }
        i += 1;
        proof {
            if is_space(line@[i - 1]) {
                assert(line@.subrange(start as int, i as int) =~= Seq::<char>::empty());
            } else {
                assert(line@.subrange(start as int, i as int) =~= cur.push(line@[i - 1]));
            }
        }
    }
    if start < n {
        let ghost cur = line@.subrange(start as int, n as int);
        let w = line.substring_char(start, n).to_owned();
        proof {
            assert(w@ == cur);
            assert(all_nonspace(cur));
            lemma_single_word(cur);
            assert(token_texts(r@.push(Token { text: w, word_count: 1 })) =~~= token_texts(
                r@,
            ).push(cur));
        }
        r.push(Token { text: w, word_count: 1 });
    } else {
        proof {
            assert(line@.subrange(start as int, n as int) =~= Seq::<char>::empty());
        }
    }
    proof {
        assert(token_texts(r@) =~~= words_of(line@));
    }
    r
}

/// Whether every character of `s` is whitespace.
pub fn is_blank_str(s: &str) -> (r: bool)
    ensures
        r == is_blank(s@),
{
    let n = s.unicode_len();
    let mut i: usize = 0;
    while i < n
        invariant
            i <= n,
            n == s@.len(),
            forall|k: int| 0 <= k < i ==> is_space(s@[k]),
        decreases n - i,
    {
        if !is_space_char(s.get_char(i)) {
            return false;
        }
        i += 1;
    }
    true
}

/// Count the whitespace-separated words of `s`.
pub fn count_words(s: &str) -> (n: usize)
    ensures
        n == num_words(s@),
{
    word_tokens(s).len()
}

/// Split a line into phrase tokens: the line is cut after every `.`, the
/// terminator stays with its fragment, and a whitespace-only trailing
/// fragment is dropped. Each token carries the number of words in it.
pub fn phrase_tokens(line: &str) -> (r: Vec<Token>)
    ensures
        token_texts(r@) == phrase_texts(line@),
        forall|k: int| 0 <= k < r@.len() ==> token_wf(#[trigger] r@[k]),
{
    let n = line.unicode_len();
    let mut r: Vec<Token> = Vec::new();
    let mut i: usize = 0;
    let mut start: usize = 0;
    proof {
        assert(line@.subrange(0, 0) =~= Seq::<char>::empty());
        assert(token_texts(r@) + phrase_texts(line@) =~~= phrase_texts(line@));
    }
    while i < n
        invariant
            0 <= start <= i <= n,
            n == line@.len(),
            token_texts(r@) + phrase_texts_from(
                line@,
                i as int,
                line@.subrange(start as int, i as int),
            ) =~~= phrase_texts(line@),
            forall|k: int| 0 <= k < r@.len() ==> token_wf(#[trigger] r@[k]),
        decreases n - i,
    {
        let ghost cur = line@.subrange(start as int, i as int);
        let c = line.get_char(i);
        if c == '.' {
            let frag = line.substring_char(start, i + 1);
            let wc = count_words(frag);
            proof {
                assert(frag@ =~= cur.push('.'));
                assert(!is_space(frag@[frag@.len() - 1]));
                assert(!is_blank(frag@));
                lemma_nonblank_num_words(frag@);
            }
            let t = Token { text: frag.to_owned(), word_count: wc };
            proof {
                assert(token_texts(r@.push(t)) =~~= token_texts(r@).push(frag@));
            }
            r.push(t);
            start = i + 1;
        }
        i += 1;
        proof {
            if line@[i - 1] == '.' {
                assert(line@.subrange(start as int, i as int) =~= Seq::<char>::empty());
            } else {
                assert(line@.subrange(start as int, i as int) =~= cur.push(line@[i - 1]));
            }
        }
    }
    let tail = line.substring_char(start, n);
    if !is_blank_str(tail) {
        let wc = count_words(tail);
        proof {
            lemma_nonblank_num_words(tail@);
        }
        let t = Token { text: tail.to_owned(), word_count: wc };
        proof {
            assert(token_texts(r@.push(t)) =~~= token_texts(r@).push(tail@));
        }
        r.push(t);
    }
    proof {
        assert(token_texts(r@) =~~= phrase_texts(line@));
    }
    r
}

/// Split a line into display tokens according to the segmentation mode.
pub fn line_tokens(line: &str, mode: Mode) -> (r: Vec<Token>)
    ensures
        token_texts(r@) == line_texts(line@, mode),
        forall|k: int| 0 <= k < r@.len() ==> token_wf(#[trigger] r@[k]),
{
    match mode {
        Mode::Word => {
            let r = word_tokens(line);
            proof {
                lemma_words_not_blank(line@);
                assert forall|k: int| 0 <= k < r@.len() implies token_wf(#[trigger] r@[k]) by {}
            }
            r
        },
        Mode::Phrase => phrase_tokens(line),
    }
}

/// The texts of the tokens a line yields under `mode`.
pub open spec fn line_texts(s: Seq<char>, mode: Mode) -> Seq<Seq<char>> {
    match mode {
        Mode::Word => words_of(s),
        Mode::Phrase => phrase_texts(s),
    }
}

/// The texts of the tokens that lines `k..` of a page yield under `mode`,
/// in line order.
pub open spec fn lines_texts_from(lines: Seq<Seq<char>>, mode: Mode, k: int) -> Seq<Seq<char>>
    decreases lines.len() - k
    when 0 <= k
{
    if k >= lines.len() {
        Seq::empty()
    } else {
        line_texts(lines[k], mode) + lines_texts_from(lines, mode, k + 1)
    }
}

/// The texts of all tokens a page's lines yield under `mode`.
pub open spec fn page_texts(lines: Seq<Seq<char>>, mode: Mode) -> Seq<Seq<char>> {
    lines_texts_from(lines, mode, 0)
}

proof fn lemma_lines_word_count_equiv(lines: Seq<Seq<char>>, k: int)
    requires
        0 <= k,
        forall|li: int| 0 <= li < lines.len() ==> dots_delimit(#[trigger] lines[li]),
    ensures
        sum_words(lines_texts_from(lines, Mode::Phrase, k)) == sum_words(
            lines_texts_from(lines, Mode::Word, k),
        ),
    decreases lines.len() - k,
{
    if k < lines.len() {
        lemma_lines_word_count_equiv(lines, k + 1);
        lemma_line_word_count_equiv(lines[k]);
        lemma_sum_words_add(
            line_texts(lines[k], Mode::Phrase),
            lines_texts_from(lines, Mode::Phrase, k + 1),
        );
        lemma_sum_words_add(
            line_texts(lines[k], Mode::Word),
            lines_texts_from(lines, Mode::Word, k + 1),
        );
    }
}

/// Word/phrase equivalence of the total word count of a page: summing the
/// word counts of a full phrase-mode traversal of a page's lines gives the
/// same total as a word-mode traversal of the same lines. Segmentation
/// changes granularity, not content.
pub proof fn lemma_page_word_count_equiv(lines: Seq<Seq<char>>)
    requires
        forall|li: int| 0 <= li < lines.len() ==> dots_delimit(#[trigger] lines[li]),
    ensures
        sum_words(page_texts(lines, Mode::Phrase)) == sum_words(page_texts(lines, Mode::Word)),
{
    lemma_lines_word_count_equiv(lines, 0);
}

/// The word counts of well-formed tokens summed.
pub open spec fn sum_counts(ts: Seq<Token>) -> nat
    decreases ts.len(),
{
    if ts.len() == 0 {
        0
    } else {
        ts[0].word_count as nat + sum_counts(ts.drop_first())
    }
}

/// For well-formed tokens, summing the `word_count` fields is summing the
/// word counts of the texts.
pub proof fn lemma_sum_counts_are_sum_words(ts: Seq<Token>)
    requires
        forall|k: int| 0 <= k < ts.len() ==> token_wf(#[trigger] ts[k]),
    ensures
        sum_counts(ts) == sum_words(token_texts(ts)),
    decreases ts.len(),
{
    if ts.len() > 0 {
        assert(token_wf(ts[0]));
        assert(forall|k: int|
            0 <= k < ts.drop_first().len() ==> #[trigger] ts.drop_first()[k] == ts[k + 1]);
        lemma_sum_counts_are_sum_words(ts.drop_first());
        assert(token_texts(ts).drop_first() =~~= token_texts(ts.drop_first()));
        assert(token_texts(ts)[0] == ts[0].text@);
    }
}

/// Tokenization totality: under either mode, no token of a line is blank.
pub proof fn lemma_line_texts_not_blank(s: Seq<char>, mode: Mode)
    ensures
        all_not_blank(line_texts(s, mode)),
{
    match mode {
        Mode::Word => {
            lemma_words_not_blank(s);
            assert forall|k: int|
                0 <= k < line_texts(s, mode).len() implies !is_blank(
                #[trigger] line_texts(s, mode)[k],
            ) by {
                assert(line_texts(s, mode)[k].len() > 0 && all_nonspace(line_texts(s, mode)[k]));
                assert(!is_space(line_texts(s, mode)[k][0]));
            }
        },
        Mode::Phrase => {
            lemma_phrases_not_blank(s);
        },
    }
}

} // verus!
