//! The prefix dictionary, as the search reads it.

use vstd::prelude::*;
use word_trie::trie::{Trie, TrieNode};

verus! {

/// `word_trie::trie::TrieNode`, a node of the dictionary, carried through as
/// it is: what it holds is read by `child_node` and `node_is_word` alone.
#[verifier::external_type_specification]
#[verifier::external_body]
pub struct ExTrieNode(TrieNode);

/// `word_trie::trie::Trie`, the dictionary, carried through as it is: its
/// root is read by `root_node` alone.
#[verifier::external_type_specification]
#[verifier::external_body]
pub struct ExTrie(Trie);

/// The character sequences that lead from `node` to a node marked as a word.
pub uninterp spec fn node_words(node: TrieNode) -> Set<Seq<char>>;

/// The words that `trie` holds.
pub uninterp spec fn trie_words(trie: Trie) -> Set<Seq<char>>;

/// The continuations of `c` in `words`: every `w` such that `c` followed by
/// `w` is in `words`.
pub open spec fn tails(words: Set<Seq<char>>, c: char) -> Set<Seq<char>> {
    Set::new(|w: Seq<char>| words.contains(seq![c] + w))
}

/// The field `root` of `word_trie::trie::Trie`: walking from the root is
/// walking the trie, so the root leads to exactly the trie's words.
#[verifier::external_body]
pub(crate) fn root_node<'a>(trie: &'a Trie) -> (root: &'a TrieNode)
    ensures
        node_words(*root) == trie_words(*trie),
{
    &trie.root
}

/// `HashMap::get` on the field `nodes` of `word_trie::trie::TrieNode`: the
/// child that `c` leads to, if there is one. A child leads to the words of its
/// parent that start with `c`, less that first character; without a child no
/// word under the parent starts with `c`.
#[verifier::external_body]
pub(crate) fn child_node<'a>(node: &'a TrieNode, c: char) -> (child: Option<&'a TrieNode>)
    ensures
        match child {
            Some(next) => node_words(*next) == tails(node_words(*node), c),
            None => tails(node_words(*node), c) == Set::<Seq<char>>::empty(),
        },
{
    node.nodes.get(&c)
}

/// The field `is_word` of `word_trie::trie::TrieNode`: whether the empty
/// sequence leads from `node` to a word, that is whether the path to `node`
/// spells one.
#[verifier::external_body]
pub(crate) fn node_is_word(node: &TrieNode) -> (is_word: bool)
    ensures
        is_word == node_words(*node).contains(Seq::<char>::empty()),
{
    node.is_word
}

} // verus!
