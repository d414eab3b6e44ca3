//! Counting words by score and by length.

use vstd::prelude::*;
use crate::scoring::{byte_len, word_score};

verus! {

/// The score of a word, as the key to count by.
pub open spec fn by_score() -> spec_fn(Seq<char>) -> nat {
    |word: Seq<char>| word_score(word)
}

/// The length of a word in bytes, as the key to count by.
pub open spec fn by_len() -> spec_fn(Seq<char>) -> nat {
    |word: Seq<char>| byte_len(word) as nat
}

/// How many of `words` have the key `k`.
pub open spec fn count_by(words: Seq<Seq<char>>, key: spec_fn(Seq<char>) -> nat, k: nat) -> nat
    decreases words.len(),
{
    if words.len() == 0 {
        0
    } else {
        count_by(words.drop_last(), key, k) + if key(words.last()) == k {
            1nat
        } else {
            0nat
        }
    }
}

/// How many of `words` have a key below `bound`, counted key by key.
pub open spec fn total_below(
    words: Seq<Seq<char>>,
    key: spec_fn(Seq<char>) -> nat,
    bound: nat,
) -> nat
    decreases bound,
{
    if bound == 0 {
        0
    } else {
        total_below(words, key, (bound - 1) as nat) + count_by(words, key, (bound - 1) as nat)
    }
}

/// The score histogram of `words`: for each score from 0 to 11, how many
/// words have it.
pub open spec fn score_histogram(words: Seq<Seq<char>>) -> Seq<u32> {
    Seq::new(12, |score: int| count_by(words, by_score(), score as nat) as u32)
}

/// The length histogram of `words`: for each length that occurs, how many
/// words have it.
pub open spec fn length_histogram(words: Seq<Seq<char>>) -> Map<usize, usize> {
    Map::new(
        |len: usize| count_by(words, by_len(), len as nat) > 0,
        |len: usize| count_by(words, by_len(), len as nat) as usize,
    )
}

/// The sum of the entries of `counts`.
pub open spec fn sum_of(counts: Seq<u32>) -> nat
    decreases counts.len(),
{
    if counts.len() == 0 {
        0
    } else {
        sum_of(counts.drop_last()) + counts.last() as nat
    }
}

/// The sum of the values that `counts` holds for the keys below `bound`.
pub open spec fn sum_below(counts: Map<usize, usize>, bound: nat) -> nat
    decreases bound,
{
    if bound == 0 {
        0
    } else {
        let key = (bound - 1) as usize;
        sum_below(counts, (bound - 1) as nat) + if counts.contains_key(key) {
            counts[key] as nat
        } else {
            0nat
        }
    }
}

/// One more word is one more under its own key and no more under any other.
pub proof fn lemma_count_push(
    words: Seq<Seq<char>>,
    word: Seq<char>,
    key: spec_fn(Seq<char>) -> nat,
    k: nat,
)
    ensures
        count_by(words.push(word), key, k) == count_by(words, key, k) + if key(word) == k {
            1nat
        } else {
            0nat
        },
{
    assert(words.push(word).drop_last() =~= words);
    assert(words.push(word).last() == word);
}

/// No key counts more words than there are.
pub proof fn lemma_count_bounded(words: Seq<Seq<char>>, key: spec_fn(Seq<char>) -> nat, k: nat)
    ensures
        count_by(words, key, k) <= words.len(),
    decreases words.len(),
{
    if words.len() > 0 {
        lemma_count_bounded(words.drop_last(), key, k);
    }
}

/// A key counts at least one word exactly if some word has it.
pub proof fn lemma_count_positive(words: Seq<Seq<char>>, key: spec_fn(Seq<char>) -> nat, k: nat)
    ensures
        count_by(words, key, k) > 0 <==> exists|i: int|
            0 <= i < words.len() && key(#[trigger] words[i]) == k,
    decreases words.len(),
{
    if words.len() > 0 {
        let front = words.drop_last();
        lemma_count_positive(front, key, k);
        if count_by(words, key, k) > 0 {
            if key(words.last()) == k {
                assert(key(words[words.len() - 1]) == k);
            } else {
                let i = choose|i: int| 0 <= i < front.len() && key(#[trigger] front[i]) == k;
                assert(key(words[i]) == k);
            }
        }
        if exists|i: int| 0 <= i < words.len() && key(#[trigger] words[i]) == k {
            let i = choose|i: int| 0 <= i < words.len() && key(#[trigger] words[i]) == k;
            if i < front.len() {
                assert(key(front[i]) == k);
            }
        }
    }
}

/// One more word is one more in the total if its key is below the bound.
pub proof fn lemma_total_push(
    words: Seq<Seq<char>>,
    word: Seq<char>,
    key: spec_fn(Seq<char>) -> nat,
    bound: nat,
)
    ensures
        total_below(words.push(word), key, bound) == total_below(words, key, bound) + if key(word)
            < bound {
            1nat
        } else {
            0nat
        },
    decreases bound,
{
    if bound > 0 {
        lemma_total_push(words, word, key, (bound - 1) as nat);
        lemma_count_push(words, word, key, (bound - 1) as nat);
    }
}

/// Counted key by key, every word is counted once.
pub proof fn lemma_total_is_len(words: Seq<Seq<char>>, key: spec_fn(Seq<char>) -> nat, bound: nat)
    requires
        forall|i: int| 0 <= i < words.len() ==> key(#[trigger] words[i]) < bound,
    ensures
        total_below(words, key, bound) == words.len(),
    decreases words.len(),
{
    if words.len() == 0 {
        assert(words =~= Seq::<Seq<char>>::empty());
        lemma_total_of_none(key, bound);
    } else {
        let front = words.drop_last();
        assert forall|i: int| 0 <= i < front.len() implies key(#[trigger] front[i]) < bound by {
            assert(front[i] == words[i]);
        }
        lemma_total_is_len(front, key, bound);
        lemma_total_push(front, words.last(), key, bound);
        assert(front.push(words.last()) =~= words);
        assert(key(words[words.len() - 1]) < bound);
    }
}

/// Without words every total is zero.
pub proof fn lemma_total_of_none(key: spec_fn(Seq<char>) -> nat, bound: nat)
    ensures
        total_below(Seq::<Seq<char>>::empty(), key, bound) == 0,
    decreases bound,
{
    if bound > 0 {
        lemma_total_of_none(key, (bound - 1) as nat);
    }
}

/// The sum of the first buckets of the score histogram is the total of the
/// words with a score below their number.
pub proof fn lemma_sum_of_scores(words: Seq<Seq<char>>, buckets: nat)
    requires
        buckets <= 12,
        forall|score: nat| score < 12 ==> count_by(words, by_score(), score) <= u32::MAX,
    ensures
        sum_of(score_histogram(words).subrange(0, buckets as int)) == total_below(
            words,
            by_score(),
            buckets,
        ),
    decreases buckets,
{
    let first = score_histogram(words).subrange(0, buckets as int);
    if buckets > 0 {
        let fewer = (buckets - 1) as nat;
        lemma_sum_of_scores(words, fewer);
        assert(first.drop_last() =~= score_histogram(words).subrange(0, fewer as int));
        assert(first.last() == count_by(words, by_score(), fewer) as u32);
    }
}

/// The sum of the length histogram below a bound is the total of the words
/// shorter than the bound.
pub proof fn lemma_sum_of_lengths(words: Seq<Seq<char>>, bound: nat)
    requires
        bound <= usize::MAX + 1,
        words.len() <= usize::MAX,
    ensures
        sum_below(length_histogram(words), bound) == total_below(words, by_len(), bound),
    decreases bound,
{
    if bound > 0 {
        let fewer = (bound - 1) as nat;
        lemma_sum_of_lengths(words, fewer);
        lemma_count_bounded(words, by_len(), fewer);
    }
}

} // verus!
