//! What the evolutionary board maker asks of a board: its total score as
//! the fitness of the letters that make it up.

use vstd::prelude::*;
use word_trie::trie::Trie;
use crate::dictionary::trie_words;
use crate::scoring::score_of_len;
use crate::search_model::{dims_searchable, Grid};
use crate::total_boggle_score_calculator::{fitness_of, TotalBoggleScoreCalculator};

verus! {

/// The letters that a board is made of: `a` to `z`, in order.
pub fn allele_list() -> (letters: Vec<char>)
    ensures
        letters@.len() == 26,
        forall|i: int| 0 <= i < 26 ==> #[trigger] letters@[i] == (97 + i) as u8 as char,
{
    let mut letters: Vec<char> = Vec::new();
    let mut i: u8 = 0;
    while i < 26
        invariant
            i <= 26,
            letters@.len() == i,
            forall|j: int| 0 <= j < i ==> #[trigger] letters@[j] == (97 + j) as u8 as char,
        decreases 26 - i,
    {
        letters.push((97u8 + i) as char);
        i = i + 1;
    }
    letters
}

/// The fitness of boards of fixed dimensions against one dictionary.
#[derive(Clone, Debug)]
pub struct BoggleFitness<'a> {
    dictionary: &'a Trie,
    x_size: usize,
    y_size: usize,
}

impl<'a> BoggleFitness<'a> {
    /// The words of the dictionary.
    pub closed spec fn words(&self) -> Set<Seq<char>> {
        trie_words(*self.dictionary)
    }

    /// The first dimension of the boards.
    pub closed spec fn x_size(&self) -> usize {
        self.x_size
    }

    /// The second dimension of the boards.
    pub closed spec fn y_size(&self) -> usize {
        self.y_size
    }

    /// The board that `board` holds row by row.
    pub open spec fn grid(&self, board: Seq<char>) -> Grid {
        Grid { cells: board, width: self.x_size() as int, length: self.y_size() as int }
    }

    /// The fitness of boards of `x_size` by `y_size` against `dictionary`.
    pub fn new(dictionary: &'a Trie, x_size: usize, y_size: usize) -> (fitness: Self)
        ensures
            fitness.words() == trie_words(*dictionary),
            fitness.x_size() == x_size,
            fitness.y_size() == y_size,
    {
        Self { dictionary, x_size, y_size }
    }

    /// The fitness of the board that `board` holds row by row: its total
    /// score, or `u32::MAX` where the total does not fit a `u32`.
    pub fn get_board_score(&self, board: &Vec<char>) -> (score: usize)
        requires
            dims_searchable(self.x_size() as int, self.y_size() as int),
            board@.len() == self.x_size() * self.y_size(),
        ensures
            score == fitness_of(self.grid(board@), self.words()),
    {
        let mut calculator = TotalBoggleScoreCalculator::new(
            self.dictionary,
            self.x_size,
            self.y_size,
        );
        let total: u32 = calculator.fitness(board);
        total as usize
    }

    /// The score of a word of `len` bytes.
    pub fn get_score(len: usize) -> (score: usize)
        ensures
            score == score_of_len(len as nat),
    {
        if len <= 2 {
            0
        } else if len <= 4 {
            1
        } else if len == 5 {
            2
        } else if len == 6 {
            3
        } else if len == 7 {
            5
        } else {
            11
        }
    }
}

} // verus!
