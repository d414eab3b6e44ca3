//! The total score of a board: the sum of the scores of the distinct words
//! that a search finds, however many ways lead to each.

use vstd::hash_set::StringHashSet;
use vstd::prelude::*;
use word_trie::trie::Trie;
use crate::boggle_dfs::{get_word_score, BoggleDfs, BoggleDfsContext};
use crate::dictionary::trie_words;
use crate::scoring::word_score;
use crate::search_model::{lemma_searchable_count, search_events, Grid};
use crate::visitor::{accepts_all, fits_all, lemma_handed_all, tally_after, WordVisitor};

verus! {

/// What a score-only visitor has gathered: the words counted so far and the
/// sum of their scores.
#[verifier::ext_equal]
pub struct ScoreTally {
    pub seen: Set<Seq<char>>,
    pub total: nat,
}

impl ScoreTally {
    /// Nothing counted.
    pub open spec fn none() -> ScoreTally {
        ScoreTally { seen: Set::empty(), total: 0 }
    }

    /// The tally after one more report: a new word adds its score, a known
    /// one changes nothing.
    pub open spec fn with(self, word: Seq<char>) -> ScoreTally {
        if self.seen.contains(word) {
            self
        } else {
            ScoreTally { seen: self.seen.insert(word), total: self.total + word_score(word) }
        }
    }

    /// Whether `word` is known already or its score still fits under `limit`.
    pub open spec fn has_room(self, word: Seq<char>, limit: nat) -> bool {
        self.seen.contains(word) || self.total + word_score(word) <= limit
    }
}

/// The visitor that adds up the scores of the distinct words.
pub struct TotalScoreWordVisitor(StringHashSet, u32);

impl TotalScoreWordVisitor {
    /// A visitor that has counted nothing.
    pub fn new() -> (visitor: Self)
        ensures
            visitor.tally() == ScoreTally::none(),
            visitor.inv(),
    {
        TotalScoreWordVisitor(StringHashSet::new(), 0)
    }

    /// The sum of the scores of the words counted so far.
    pub fn score(&self) -> (score: u32)
        ensures
            score == self.tally().total,
    {
        self.1
    }
}

impl WordVisitor for TotalScoreWordVisitor {
    type Tally = ScoreTally;

    open spec fn inv(&self) -> bool {
        true
    }

    closed spec fn tally(&self) -> ScoreTally {
        ScoreTally { seen: self.0@, total: self.1 as nat }
    }

    open spec fn accepts(tally: ScoreTally, word: Seq<char>, path: Seq<u16>) -> bool {
        tally.has_room(word, u32::MAX as nat)
    }

    open spec fn counted(tally: ScoreTally, word: Seq<char>, path: Seq<u16>) -> ScoreTally {
        tally.with(word)
    }

    fn has_room(&self, word: &str, path: &Vec<u16>) -> (yes: bool) {
        self.0.contains(word) || self.1 <= u32::MAX - get_word_score(word)
    }

    fn visit(&mut self, word: &str, path: &Vec<u16>) {
        if !self.0.contains(word) {
            self.1 += get_word_score(word);
            self.0.insert(word.to_owned());
        }
    }
}

/// The total score that a search of `grid` against `dict` adds up.
pub open spec fn total_score_of(grid: Grid, dict: Set<Seq<char>>) -> nat {
    tally_after::<TotalScoreWordVisitor>(ScoreTally::none(), search_events(grid, dict)).total
}

/// Whether the total score of a search of `grid` against `dict` fits the
/// counter of the score-only visitor.
pub open spec fn total_fits(grid: Grid, dict: Set<Seq<char>>) -> bool {
    accepts_all::<TotalScoreWordVisitor>(ScoreTally::none(), search_events(grid, dict))
}

/// The fitness of `grid` against `dict`: its total score, or `u32::MAX` where
/// the total does not fit the counter.
pub open spec fn fitness_of(grid: Grid, dict: Set<Seq<char>>) -> nat {
    if total_fits(grid, dict) {
        total_score_of(grid, dict)
    } else {
        u32::MAX as nat
    }
}

/// Computes total scores of boards of fixed dimensions against one
/// dictionary.
#[derive(Debug, Clone)]
pub struct TotalBoggleScoreCalculator<'a>(BoggleDfsContext<'a>);

impl<'a> TotalBoggleScoreCalculator<'a> {
    /// The dimensions and the dictionary that boards are scored against.
    pub closed spec fn context(&self) -> BoggleDfsContext<'a> {
        self.0
    }

    /// A calculator for boards of `width` by `length` against `dictionary`.
    pub fn new(dictionary: &'a Trie, width: usize, length: usize) -> (calculator: Self)
        ensures
            calculator.context().width() == width,
            calculator.context().length() == length,
            calculator.context().words() == trie_words(*dictionary),
    {
        Self(BoggleDfsContext::new(dictionary, width, length))
    }

    /// The board of the calculator's dimensions that `board` holds row by
    /// row.
    pub open spec fn grid(&self, board: Seq<char>) -> Grid {
        Grid {
            cells: board,
            width: self.context().width() as int,
            length: self.context().length() as int,
        }
    }

    /// The total score of `board`, which must be a board that can be
    /// searched and whose total fits the counter.
    pub fn score(&mut self, board: &Vec<char>) -> (score: u32)
        requires
            old(self).context().searchable(),
            board@.len() == old(self).context().width() * old(self).context().length(),
            total_fits(old(self).grid(board@), old(self).context().words()),
        ensures
            final(self).context() == old(self).context(),
            score == total_score_of(old(self).grid(board@), old(self).context().words()),
    {
        match self.try_score(board) {
            Some(score) => score,
            None => 0,
        }
    }

    /// The total score of `board`, if it is a board of the calculator's
    /// dimensions that can be searched and its total fits the counter.
    pub fn try_score(&mut self, board: &Vec<char>) -> (score: Option<u32>)
        ensures
            final(self).context() == old(self).context(),
            score.is_some() <==> {
                &&& old(self).context().searchable()
                &&& board@.len() == old(self).context().width() * old(self).context().length()
                &&& total_fits(old(self).grid(board@), old(self).context().words())
            },
            score matches Some(total) ==> total == total_score_of(
                old(self).grid(board@),
                old(self).context().words(),
            ),
    {
        if !self.0.is_searchable() {
            return None;
        }
        let visitor = TotalScoreWordVisitor::new();
        let ghost start = seq![visitor];
        let ghost events = search_events(self.grid(board@), self.0.words());
        proof {
            lemma_searchable_count(self.0.width() as int, self.0.length() as int);
        }
        match BoggleDfs::new(&self.0, board) {
            Ok(mut session) => {
                let ghost unregistered = session.registered();
                assert(unregistered.push(visitor) =~= start);
                let done: bool = session.with_visitor(visitor).try_search();
                let mut visitors = session.into_visitors();
                let ghost handed_back = visitors@;
                proof {
                    assert(fits_all(start, events) == accepts_all::<TotalScoreWordVisitor>(
                        start[0].tally(),
                        events,
                    ));
                    if done {
                        lemma_handed_all(start, events);
                    }
                }
                if !done {
                    return None;
                }
                match visitors.pop() {
                    Some(visitor) => {
                        assert(visitor == handed_back[0]);
                        Some(visitor.score())
                    },
                    None => None,
                }
            },
            Err(_) => None,
        }
    }

    /// The fitness of `board`: its total score, or `u32::MAX` where the total
    /// does not fit the counter.
    pub fn fitness(&mut self, board: &Vec<char>) -> (fitness: u32)
        requires
            old(self).context().searchable(),
            board@.len() == old(self).context().width() * old(self).context().length(),
        ensures
            final(self).context() == old(self).context(),
            fitness == fitness_of(old(self).grid(board@), old(self).context().words()),
    {
        match self.try_score(board) {
            Some(score) => score,
            None => u32::MAX,
        }
    }
}

} // verus!
