//! Pacing: how long each token stays on screen.
//!
//! A single-word token is shown for exactly the base unit duration; a
//! token of `n` words is shown `n` times as long, so the effective reading
//! rate stays the same whichever segmentation mode is in use.

use vstd::prelude::*;

verus! {

/// The default reading rate, in words per minute.
pub const DEFAULT_WPM: u64 = 300;

/// The display duration of a token of `words` words, in milliseconds:
/// the base unit duration times the word count, one word at minimum.
pub open spec fn spec_duration_ms(base_ms: u64, words: nat) -> nat {
    (base_ms * (if words >= 1 {
        words
    } else {
        1 as nat
    })) as nat
}

/// The time allotted to one single-word token at `wpm` words per minute.
pub fn base_unit_duration_ms(wpm: u64) -> (d: u64)
    requires
        wpm >= 1,
    ensures
        d == 60_000 as nat / wpm as nat,
{
    60_000 / wpm
}

/// The display duration of a token of `word_count` words, or `None` when
/// the exact value does not fit in 64 bits of milliseconds.
pub fn token_duration_ms(base_ms: u64, word_count: usize) -> (d: Option<u64>)
    ensures
        d matches Some(v) ==> v == spec_duration_ms(base_ms, word_count as nat),
        d is Some <==> spec_duration_ms(base_ms, word_count as nat) <= u64::MAX,
{
    let words: u64 = if word_count == 0 {
        1
    } else {
        word_count as u64
    };
    base_ms.checked_mul(words)
}

/// Pacing monotonicity: the display duration never decreases as the word
/// count grows, and a single-word token gets exactly the base duration.
pub proof fn lemma_pacing_monotonic(base_ms: u64, w1: nat, w2: nat)
    requires
        w1 <= w2,
    ensures
        spec_duration_ms(base_ms, w1) <= spec_duration_ms(base_ms, w2),
        spec_duration_ms(base_ms, 1) == base_ms,
{
    let a: nat = if w1 >= 1 {
        w1
    } else {
        1 as nat
    };
    let b: nat = if w2 >= 1 {
        w2
    } else {
        1 as nat
    };
    let x = base_ms as int;
    assert(x * (a as int) <= x * (b as int)) by (nonlinear_arith)
        requires
            0 <= x,
            0 <= a <= b,
    ;
}

} // verus!
