//! The full report of a search: the words found, the cells that spell each
//! occurrence, and the histograms of the words' scores and lengths.

use std::collections::HashMap;
use vstd::hash_set::StringHashSet;
use vstd::prelude::*;
use vstd::std_specs::hash::group_hash_axioms;
use word_trie::trie::Trie;
use crate::boggle_board::Board;
use crate::boggle_dfs::{get_word_score, BoggleDfs, BoggleDfsContext, BoggleError};
use crate::dictionary::trie_words;
use crate::histogram::{
    by_len, by_score, count_by, lemma_count_bounded, lemma_count_push, length_histogram,
    score_histogram,
};
use crate::scoring::word_score;
use crate::search_model::{dims_searchable, lemma_searchable_count, search_events, Grid};
use crate::visitor::{accepts_all, fits_all, lemma_handed_all, tally_after, WordVisitor};

verus! {

broadcast use group_hash_axioms;

/// What a full report has gathered: the distinct words in the order in which
/// they were first found, and the cells of every occurrence in the order of
/// the reports.
#[verifier::ext_equal]
pub struct Findings {
    pub words: Seq<Seq<char>>,
    pub paths: Seq<Seq<u16>>,
}

impl Findings {
    /// Nothing found.
    pub open spec fn none() -> Findings {
        Findings { words: Seq::empty(), paths: Seq::empty() }
    }

    /// The findings after one more report: the path is recorded in any case,
    /// the word only if it is new.
    pub open spec fn with(self, word: Seq<char>, path: Seq<u16>) -> Findings {
        Findings {
            words: if self.words.contains(word) {
                self.words
            } else {
                self.words.push(word)
            },
            paths: self.paths.push(path),
        }
    }

    /// Whether there is room to count `word`: it is known already, or fewer
    /// than `u32::MAX` words have its score.
    pub open spec fn has_room(self, word: Seq<char>) -> bool {
        self.words.contains(word) || count_by(self.words, by_score(), word_score(word)) < u32::MAX
    }
}

/// Boggle board result after a search.
pub struct BoggleBoardResult {
    words: Vec<String>,
    seen: StringHashSet,
    path_tracks: Vec<Vec<u16>>,
    counts: Vec<u32>,
    length_map: HashMap<usize, usize>,
}

impl BoggleBoardResult {
    /// The distinct words found, in the order in which they were first found.
    pub closed spec fn found_words(&self) -> Seq<Seq<char>> {
        Seq::new(self.words@.len(), |i: int| self.words@[i]@)
    }

    /// The cells of every occurrence found, in the order of the reports.
    pub closed spec fn found_paths(&self) -> Seq<Seq<u16>> {
        Seq::new(self.path_tracks@.len(), |i: int| self.path_tracks@[i]@)
    }

    /// The score histogram as stored.
    pub closed spec fn stored_scores(&self) -> Seq<u32> {
        self.counts@
    }

    /// The length histogram as stored.
    pub closed spec fn stored_lengths(&self) -> Map<usize, usize> {
        self.length_map@
    }

    /// What the result has gathered.
    pub open spec fn findings(&self) -> Findings {
        Findings { words: self.found_words(), paths: self.found_paths() }
    }

    /// Whether the result is consistent: no word is held twice, and the two
    /// histograms count exactly the words held.
    pub closed spec fn inv(&self) -> bool {
        &&& self.found_words().no_duplicates()
        &&& self.seen@ =~= self.found_words().to_set()
        &&& forall|score: nat|
            score < 12 ==> #[trigger] count_by(self.found_words(), by_score(), score) <= u32::MAX
        &&& self.counts@ =~= score_histogram(self.found_words())
        &&& self.length_map@ =~= length_histogram(self.found_words())
    }

    /// A consistent result stores the histograms of its words.
    pub proof fn lemma_inv(&self)
        requires
            self.inv(),
        ensures
            self.found_words().no_duplicates(),
            self.stored_scores() == score_histogram(self.found_words()),
            self.stored_lengths() == length_histogram(self.found_words()),
            forall|score: nat|
                score < 12 ==> #[trigger] count_by(self.found_words(), by_score(), score)
                    <= u32::MAX,
            self.found_words().len() <= usize::MAX,
    {
        assert(self.words.len() == self.words@.len());
    }

    /// An empty result.
    pub fn new() -> (result: Self)
        ensures
            result.inv(),
            result.findings() == Findings::none(),
    {
        let result = Self {
            words: Vec::new(),
            seen: StringHashSet::new(),
            path_tracks: Vec::new(),
            counts: vec![0;12],
            length_map: HashMap::new(),
        };
        proof {
            assert(result.found_words() =~= Seq::<Seq<char>>::empty());
            assert(result.found_paths() =~= Seq::<Seq<u16>>::empty());
            assert(result.found_words().to_set() =~= Set::<Seq<char>>::empty());
            assert(result.counts@ =~= score_histogram(result.found_words()));
            assert(result.length_map@ =~= length_histogram(result.found_words()));
        }
        result
    }

    /// How many words with the given score the board holds; none for a score
    /// above 11.
    pub fn how_many(&self, score: usize) -> (count: u32)
        requires
            self.inv(),
        ensures
            count == if score > 11 {
                0
            } else {
                count_by(self.found_words(), by_score(), score as nat)
            },
    {
        if score > 11 {
            0
        } else {
            self.counts[score]
        }
    }

    /// The score histogram: entry `s` is the number of words with score `s`.
    pub fn score_counts(&self) -> (counts: &Vec<u32>)
        requires
            self.inv(),
        ensures
            counts@ == score_histogram(self.found_words()),
            counts@ == self.stored_scores(),
    {
        &self.counts
    }

    /// The length histogram: each length that occurs, with the number of
    /// words of that length.
    pub fn len_counts(&self) -> (counts: &HashMap<usize, usize>)
        requires
            self.inv(),
        ensures
            counts@ == length_histogram(self.found_words()),
            counts@ == self.stored_lengths(),
    {
        &self.length_map
    }

    /// The distinct words found, in the order in which they were first found.
    pub fn words(&self) -> (words: &Vec<String>)
        ensures
            words@.len() == self.found_words().len(),
            forall|i: int| 0 <= i < words@.len() ==> (#[trigger] words@[i])@ == self.found_words()[i],
    {
        &self.words
    }

    /// The cells of every occurrence found, in the order of the reports.
    pub fn path_tracks(&self) -> (paths: &Vec<Vec<u16>>)
        ensures
            paths@.len() == self.found_paths().len(),
            forall|i: int| 0 <= i < paths@.len() ==> (#[trigger] paths@[i])@ == self.found_paths()[i],
    {
        &self.path_tracks
    }

    /// Whether `word` is among the words found.
    pub fn contains(&self, word: &str) -> (known: bool)
        requires
            self.inv(),
        ensures
            known == self.found_words().contains(word@),
    {
        self.seen.contains(word)
    }

    /// Whether there is room to count `word`: it is known already, or fewer
    /// than `u32::MAX` words have its score.
    pub fn has_room(&self, word: &str) -> (yes: bool)
        requires
            self.inv(),
        ensures
            yes == self.findings().has_room(word@),
    {
        if self.seen.contains(word) {
            return true;
        }
        let score: usize = get_word_score(word) as usize;
        self.counts[score] < u32::MAX
    }

    /// Records a word that is not yet held, in the list of words and in both
    /// histograms.
    pub fn add_word(&mut self, word: String)
        requires
            old(self).inv(),
            !old(self).found_words().contains(word@),
            count_by(old(self).found_words(), by_score(), word_score(word@)) < u32::MAX,
        ensures
            final(self).inv(),
            final(self).found_words() == old(self).found_words().push(word@),
            final(self).found_paths() == old(self).found_paths(),
    {
        let ghost before = self.found_words();
        let ghost after = before.push(word@);
        let score: u32 = get_word_score(word.as_str());
        let word_len: usize = word.as_str().len();
        let _ = self.inc_score(score);
        let held: usize = match self.length_map.get(&word_len) {
            Some(held) => *held,
            None => 0,
        };
        self.seen.insert(word.clone());
        self.words.push(word);
        let total: usize = self.words.len();
        proof {
            assert(total == before.len() + 1);
            assert(self.found_words() =~= after);
            assert(self.found_paths() =~= old(self).found_paths());
            lemma_count_bounded(before, by_len(), word_len as nat);
            assert(held == count_by(before, by_len(), word_len as nat));
        }
        self.length_map.insert(word_len, held + 1);
        proof {
            assert(after.to_set() =~= before.to_set().insert(word@)) by {
                assert forall|w: Seq<char>| after.to_set().contains(w) == before.to_set().insert(
                    word@,
                ).contains(w) by {
                    if before.contains(w) {
                        let i = choose|i: int| 0 <= i < before.len() && before[i] == w;
                        assert(after[i] == w);
                    }
                    if after.contains(w) && w != word@ {
                        let i = choose|i: int| 0 <= i < after.len() && after[i] == w;
                        assert(before[i] == w);
                    }
                    assert(after[before.len() as int] == word@);
                }
            }
            assert forall|s: nat| s < 12 implies #[trigger] count_by(after, by_score(), s)
                <= u32::MAX && score_histogram(after)[s as int] == self.counts@[s as int] by {
                lemma_count_push(before, word@, by_score(), s);
                assert(count_by(before, by_score(), s) <= u32::MAX);
            }
            assert(self.counts@ =~= score_histogram(after));
            assert forall|len: usize| #[trigger]
                self.length_map@.dom().contains(len) == length_histogram(after).dom().contains(
                    len,
                ) && (self.length_map@.dom().contains(len) ==> self.length_map@[len]
                    == length_histogram(after)[len]) by {
                lemma_count_push(before, word@, by_len(), len as nat);
                lemma_count_bounded(after, by_len(), len as nat);
                lemma_count_bounded(before, by_len(), len as nat);
            }
            assert(self.length_map@ =~= length_histogram(after));
        }
    }

    /// Records the cells of one occurrence.
    pub fn add_path(&mut self, path: Vec<u16>)
        requires
            old(self).inv(),
        ensures
            final(self).inv(),
            final(self).found_words() == old(self).found_words(),
            final(self).found_paths() == old(self).found_paths().push(path@),
    {
        self.path_tracks.push(path);
        proof {
            assert(self.found_paths() =~= old(self).found_paths().push(path@));
            assert(self.found_words() =~= old(self).found_words());
        }
    }

    /// Counts one more word under `score`. A score without a bucket is
    /// refused and nothing is counted.
    fn inc_score(&mut self, score: u32) -> (counted: Result<(), BoggleError>)
        requires
            old(self).counts@.len() == 12,
            score <= 11 ==> old(self).counts@[score as int] < u32::MAX,
        ensures
            final(self).words == old(self).words,
            final(self).seen == old(self).seen,
            final(self).path_tracks == old(self).path_tracks,
            final(self).length_map == old(self).length_map,
            match counted {
                Ok(_) => score <= 11 && final(self).counts@ == old(self).counts@.update(
                    score as int,
                    (old(self).counts@[score as int] + 1) as u32,
                ),
                Err(e) => score > 11 && final(self).counts@ == old(self).counts@ && e == (
                BoggleError::HistogramOverflow { score }),
            },
    {
        match Self::score_guard(score) {
            Ok(_) => {
                let bucket: usize = score as usize;
                let held: u32 = self.counts[bucket];
                self.counts.set(bucket, held + 1);
                Ok(())
            },
            Err(e) => Err(e),
        }
    }

    /// Checks that `score` has a bucket in the score histogram.
    pub fn score_guard(score: u32) -> (checked: Result<(), BoggleError>)
        ensures
            match checked {
                Ok(_) => score <= 11,
                Err(e) => score > 11 && e == (BoggleError::HistogramOverflow { score }),
            },
    {
        if score > 11 {
            Err(BoggleError::HistogramOverflow { score })
        } else {
            Ok(())
        }
    }
}

/// The visitor that builds the full report.
pub struct BoggleBoardSolverVisitor(pub BoggleBoardResult);

impl WordVisitor for BoggleBoardSolverVisitor {
    type Tally = Findings;

    open spec fn inv(&self) -> bool {
        self.0.inv()
    }

    open spec fn tally(&self) -> Findings {
        self.0.findings()
    }

    open spec fn accepts(tally: Findings, word: Seq<char>, path: Seq<u16>) -> bool {
        tally.has_room(word)
    }

    open spec fn counted(tally: Findings, word: Seq<char>, path: Seq<u16>) -> Findings {
        tally.with(word, path)
    }

    fn has_room(&self, word: &str, path: &Vec<u16>) -> (yes: bool) {
        self.0.has_room(word)
    }

    fn visit(&mut self, word: &str, path: &Vec<u16>) {
        // every occurrence leaves its path, a word is counted once
        self.0.add_path(path.clone());
        if self.0.contains(word) {
            return ;
        }
        self.0.add_word(word.to_owned());
    }
}

/// The report of a search of `grid` against `dict`.
pub open spec fn findings_of(grid: Grid, dict: Set<Seq<char>>) -> Findings {
    tally_after::<BoggleBoardSolverVisitor>(Findings::none(), search_events(grid, dict))
}

/// The boggle board solver: a dictionary, once one is given, to search
/// boards against.
pub struct BoggleBoardSolver(Option<Trie>);

impl Default for BoggleBoardSolver {
    fn default() -> (solver: Self)
        ensures
            solver.words().is_none(),
    {
        BoggleBoardSolver(None)
    }
}

impl BoggleBoardSolver {
    /// The words of the solver's dictionary, if it has one.
    pub closed spec fn words(&self) -> Option<Set<Seq<char>>> {
        match self.0 {
            Some(trie) => Some(trie_words(trie)),
            None => None,
        }
    }

    /// A solver without a dictionary.
    pub fn new() -> (solver: Self)
        ensures
            solver.words().is_none(),
    {
        BoggleBoardSolver(None)
    }

    /// Gives the solver its dictionary.
    pub fn with_trie(self, trie: Trie) -> (solver: Self)
        ensures
            solver.words() == Some(trie_words(trie)),
    {
        BoggleBoardSolver(Some(trie))
    }

    /// Searches the board that `board` holds row by row. There is no result
    /// without a dictionary, nor where the score histogram has no room for
    /// all the words of the board.
    pub fn solve_vec(&self, board: &Vec<char>, width: usize, length: usize) -> (solved: Option<
        BoggleBoardResult,
    >)
        requires
            dims_searchable(width as int, length as int),
            board@.len() == width * length,
        ensures
            match solved {
                Some(result) => self.words() matches Some(dict) && result.inv()
                    && result.findings() == findings_of(
                    Grid { cells: board@, width: width as int, length: length as int },
                    dict,
                ),
                None => true,
            },
            solved.is_some() <==> (self.words() matches Some(dict) && accepts_all::<
                BoggleBoardSolverVisitor,
            >(
                Findings::none(),
                search_events(
                    Grid { cells: board@, width: width as int, length: length as int },
                    dict,
                ),
            )),
    {
        match &self.0 {
            Some(trie) => {
                let context = BoggleDfsContext::new(trie, width, length);
                let visitor = BoggleBoardSolverVisitor(BoggleBoardResult::new());
                let ghost start = seq![visitor];
                let ghost grid = Grid { cells: board@, width: width as int, length: length as int };
                let ghost events = search_events(grid, trie_words(*trie));
                proof {
                    lemma_searchable_count(width as int, length as int);
                }
                match BoggleDfs::new(&context, board) {
                    Ok(mut dfs) => {
                        let ghost unregistered = dfs.registered();
                assert(unregistered.push(visitor) =~= start);
                let done: bool = dfs.with_visitor(visitor).try_search();
                        let mut visitors = dfs.into_visitors();
                        let ghost handed_back = visitors@;
                        proof {
                            assert(fits_all(start, events) == accepts_all::<BoggleBoardSolverVisitor>(
                                start[0].tally(),
                                events,
                            ));
                            if done {
                                lemma_handed_all(start, events);
                            }
                        }
                        if !done {
                            return None;
                        }
                        match visitors.pop() {
                            Some(visitor) => {
                                assert(visitor == handed_back[0]);
                                Some(visitor.0)
                            },
                            None => None,
                        }
                    },
                    Err(_) => None,
                }
            },
            None => None,
        }
    }

    /// Searches `board`. There is no result without a dictionary, nor where
    /// the score histogram has no room for all the words of the board.
    pub fn solve(&self, board: &Board) -> (solved: Option<BoggleBoardResult>)
        requires
            board.grid().searchable(),
        ensures
            match solved {
                Some(result) => self.words() matches Some(dict) && result.inv()
                    && result.findings() == findings_of(board.grid(), dict),
                None => true,
            },
            solved.is_some() <==> (self.words() matches Some(dict) && accepts_all::<
                BoggleBoardSolverVisitor,
            >(Findings::none(), search_events(board.grid(), dict))),
    {
        self.solve_vec(board.value(), board.width(), board.length())
    }
}

} // verus!
