//! The scoring rule of the word game.

use vstd::prelude::*;

verus! {

/// Points awarded to a word of `len` bytes.
pub open spec fn score_of_len(len: nat) -> nat {
    if len <= 2 {
        0
    } else if len <= 4 {
        1
    } else if len == 5 {
        2
    } else if len == 6 {
        3
    } else if len == 7 {
        5
    } else {
        11
    }
}

/// Length of a word in bytes, as `str::len` counts it.
pub open spec fn byte_len(word: Seq<char>) -> usize {
    vstd::utf8::encode_utf8(word).len() as usize
}

/// Points awarded to `word`.
pub open spec fn word_score(word: Seq<char>) -> nat {
    score_of_len(byte_len(word) as nat)
}

/// A word of ASCII characters is as many bytes long as it has characters, if
/// their number fits a `usize`; so it scores by the number of its characters.
pub proof fn lemma_ascii_word_score(word: Seq<char>)
    requires
        vstd::utf8::is_ascii_chars(word),
        word.len() <= usize::MAX,
    ensures
        byte_len(word) == word.len(),
        word_score(word) == score_of_len(word.len()),
{
    vstd::utf8::is_ascii_chars_encode_utf8(word);
}

} // verus!
