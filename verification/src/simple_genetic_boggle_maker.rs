//! A small evolutionary search for a board with a high total score: a
//! population of boards is scored, the better boards are crossed and
//! mutated, and the best board is kept from one generation to the next.

use vstd::hash_set::StringHashSet;
use vstd::prelude::*;
use word_trie::trie::Trie;
use crate::boggle_board::{letter, random_below, Board};
use crate::dictionary::trie_words;
use crate::scoring::score_of_len;
use crate::search_model::{dims_searchable, lemma_searchable_count, place, Grid};
use crate::total_boggle_score_calculator::{fitness_of, TotalBoggleScoreCalculator};

verus! {

/// Where a cell of a crossed board comes from.
#[derive(Debug, Clone, Copy, PartialEq, Eq, Structural)]
pub enum GeneSource {
    /// The cell of the stronger parent stays.
    Kept,
    /// The cell of the weaker parent is taken.
    Crossed,
    /// A letter is drawn at random.
    Mutated,
}

/// How many of the first `j` cells of row `i` hold the same letter in `a`
/// and in `b`.
pub open spec fn same_in_row(a: Grid, b: Grid, i: int, j: nat) -> nat
    decreases j,
{
    if j == 0 {
        0
    } else {
        same_in_row(a, b, i, (j - 1) as nat) + if a.cells[a.index(i, j - 1)] == b.cells[b.index(
            i,
            j - 1,
        )] {
            1nat
        } else {
            0nat
        }
    }
}

/// How many cells of the first `i` rows of `a` hold the same letter in `a`
/// and in `b`.
pub open spec fn same_cells(a: Grid, b: Grid, i: nat) -> nat
    decreases i,
{
    if i == 0 {
        0
    } else {
        same_cells(a, b, (i - 1) as nat) + same_in_row(a, b, i - 1, a.length as nat)
    }
}

/// Whether `cells` are all capital letters from `A` to `Z`.
pub open spec fn capitals(cells: Seq<char>) -> bool {
    forall|i: int| 0 <= i < cells.len() ==> 'A' <= #[trigger] cells[i] <= 'Z'
}

/// No row holds more agreeing cells than cells.
proof fn lemma_same_in_row_bounded(a: Grid, b: Grid, i: int, j: nat)
    ensures
        same_in_row(a, b, i, j) <= j,
    decreases j,
{
    if j > 0 {
        lemma_same_in_row_bounded(a, b, i, (j - 1) as nat);
    }
}

/// No more cells agree than there are.
proof fn lemma_same_cells_bounded(a: Grid, b: Grid, i: nat)
    requires
        a.length >= 0,
    ensures
        same_cells(a, b, i) <= i * a.length,
    decreases i,
{
    if i > 0 {
        lemma_same_cells_bounded(a, b, (i - 1) as nat);
        lemma_same_in_row_bounded(a, b, i - 1, a.length as nat);
        assert(i * a.length == (i - 1) * a.length + a.length) by (nonlinear_arith);
    } else {
        assert(i * a.length == 0) by (nonlinear_arith)
            requires
                i == 0,
        ;
    }
}

/// A board of the population, with the number of generations behind it and
/// its total score.
pub struct GeneticBoard {
    board: Board,
    age: u32,
    score: usize,
}

impl GeneticBoard {
    /// The board.
    pub closed spec fn spec_board(&self) -> &Board {
        &self.board
    }

    /// The number of generations behind the board.
    pub closed spec fn spec_age(&self) -> u32 {
        self.age
    }

    /// The score that the board is ranked by.
    pub closed spec fn spec_score(&self) -> usize {
        self.score
    }

    /// A member of a population: a board, the number of generations behind
    /// it, and the score to rank it by.
    pub fn new(board: Board, age: u32, score: usize) -> (member: Self)
        ensures
            *member.board() == board,
            member.age() == age,
            member.score() == score,
    {
        Self { board, age, score }
    }

    /// The board.
    #[verifier::when_used_as_spec(spec_board)]
    pub fn board(&self) -> (board: &Board)
        ensures
            board == self.board(),
    {
        &self.board
    }

    /// The number of generations behind the board.
    #[verifier::when_used_as_spec(spec_age)]
    pub fn age(&self) -> (age: u32)
        ensures
            age == self.age(),
    {
        self.age
    }

    /// The score that the board is ranked by.
    #[verifier::when_used_as_spec(spec_score)]
    pub fn score(&self) -> (score: usize)
        ensures
            score == self.score(),
    {
        self.score
    }

    /// Whether the board has the given dimensions, holds capital letters only
    /// and no score of its own.
    pub open spec fn shaped(&self, width: usize, length: usize) -> bool {
        &&& self.board().width() == width
        &&& self.board().length() == length
        &&& self.board().cells().len() == width * length
        &&& self.board().score().is_none()
        &&& capitals(self.board().cells())
    }

    /// Whether the board is `shaped` and ranked by its fitness against
    /// `dict`.
    pub open spec fn bred(&self, dict: Set<Seq<char>>, width: usize, length: usize) -> bool {
        &&& self.shaped(width, length)
        &&& self.score() == fitness_of(self.board().grid(), dict)
    }

    /// Whether each of `boards` is bred.
    pub open spec fn all_bred(
        boards: Seq<GeneticBoard>,
        dict: Set<Seq<char>>,
        width: usize,
        length: usize,
    ) -> bool {
        forall|i: int| 0 <= i < boards.len() ==> (#[trigger] boards[i]).bred(dict, width, length)
    }

    /// Whether no board of `boards` is older than `age`.
    pub open spec fn none_older(boards: Seq<GeneticBoard>, age: int) -> bool {
        forall|i: int| 0 <= i < boards.len() ==> (#[trigger] boards[i]).age() <= age
    }

    /// Whether no two of `boards` hold the same letters.
    pub open spec fn all_differ(boards: Seq<GeneticBoard>) -> bool {
        forall|i: int, j: int|
            0 <= i < boards.len() && 0 <= j < boards.len() && i != j ==> (
            #[trigger] boards[i]).board().cells() != (#[trigger] boards[j]).board().cells()
    }

    /// Whether `boards` are in order of score, the highest first.
    pub open spec fn ranked(boards: Seq<GeneticBoard>) -> bool {
        forall|i: int, j: int|
            0 <= i <= j < boards.len() ==> (#[trigger] boards[i]).score() >= (
            #[trigger] boards[j]).score()
    }

    /// Evolves a population of ten boards of `board_x` by `board_y` and
    /// returns the best board of the first generation whose best board scores
    /// above `minimum_score`, or of the twenty-second generation.
    pub fn get_board(
        dictionary: &Trie,
        minimum_score: usize,
        board_x: usize,
        board_y: usize,
    ) -> (board: Board)
        requires
            dims_searchable(board_x as int, board_y as int),
        ensures
            board.width() == board_x,
            board.length() == board_y,
            board.cells().len() == board_x * board_y,
            board.score().is_none(),
            capitals(board.cells()),
    {
        let population_size: usize = 10;
        let ghost dict = trie_words(*dictionary);
        let mut chromosomes: Vec<GeneticBoard> = Self::init_population(
            dictionary,
            population_size,
            board_x,
            board_y,
        );
        let mut generation: u32 = 0;
        loop
            invariant
                generation <= 21,
                population_size == 10,
                1 <= chromosomes@.len() <= 10,
                generation > 0 ==> chromosomes@.len() == 10,
                dict == trie_words(*dictionary),
                dims_searchable(board_x as int, board_y as int),
                Self::all_bred(chromosomes@, dict, board_x, board_y),
                Self::none_older(chromosomes@, generation as int),
            decreases 21 - generation,
        {
            // stop mating once the best board meets the minimum
            let best: &GeneticBoard = &chromosomes[0];
            if best.score > minimum_score || generation > 20 {
                return best.board.copy();
            }
            if chromosomes.len() < population_size {
                // too few distinct boards were drawn to mate them
                return best.board.copy();
            }
            chromosomes = Self::evolve_population(dictionary, population_size, &chromosomes);
            generation += 1;
        }
    }

    /// The next generation: ten times `size` boards, each crossed from two
    /// parents that each won a draw of two among the first `size` boards of
    /// `prev_generation`, are scored and ranked together with the first board
    /// of `prev_generation`, and the best `size` of them are kept.
    pub fn evolve_population(
        dictionary: &Trie,
        size: usize,
        prev_generation: &Vec<GeneticBoard>,
    ) -> (next: Vec<GeneticBoard>)
        requires
            size >= 1,
            size * 10 <= usize::MAX,
            prev_generation@.len() >= size,
            dims_searchable(
                prev_generation@[0].board().width() as int,
                prev_generation@[0].board().length() as int,
            ),
            Self::all_bred(
                prev_generation@,
                trie_words(*dictionary),
                prev_generation@[0].board().width(),
                prev_generation@[0].board().length(),
            ),
            Self::none_older(prev_generation@, u32::MAX - 1),
        ensures
            next@.len() == size,
            Self::ranked(next@),
            next@[0].score() >= prev_generation@[0].score(),
            Self::all_bred(
                next@,
                trie_words(*dictionary),
                prev_generation@[0].board().width(),
                prev_generation@[0].board().length(),
            ),
            forall|age: int|
                Self::none_older(prev_generation@, age) ==> #[trigger] Self::none_older(
                    next@,
                    age + 1,
                ),
    {
        let ghost dict = trie_words(*dictionary);
        let ghost width = prev_generation@[0].board().width();
        let ghost length = prev_generation@[0].board().length();
        let mut chromosomes: Vec<GeneticBoard> = Vec::new();
        while chromosomes.len() < size * 10
            invariant
                size >= 1,
                size * 10 <= usize::MAX,
                prev_generation@.len() >= size,
                chromosomes@.len() <= size * 10,
                dict == trie_words(*dictionary),
                width == prev_generation@[0].board().width(),
                length == prev_generation@[0].board().length(),
                dims_searchable(width as int, length as int),
                Self::all_bred(prev_generation@, dict, width, length),
                Self::none_older(prev_generation@, u32::MAX - 1),
                Self::all_bred(chromosomes@, dict, width, length),
                forall|age: int|
                    Self::none_older(prev_generation@, age) ==> #[trigger] Self::none_older(
                        chromosomes@,
                        age + 1,
                    ),
            decreases size * 10 - chromosomes@.len(),
        {
            let a: usize = Self::draw_parent(size, prev_generation);
            let mut b: usize = a;
            let mut draws: usize = 0;
            while b == a && draws < usize::MAX
                invariant
                    size >= 1,
                    prev_generation@.len() >= size,
                    a < size,
                    b < size,
                decreases usize::MAX - draws,
            {
                b = Self::draw_parent(size, prev_generation);
                draws = draws + 1;
            }
            let mut born: GeneticBoard = prev_generation[a].merge(&prev_generation[b]);
            proof {
                Self::lemma_shaped_is_searchable(born, width, length);
            }
            born.score = Self::get_board_score(dictionary, &born.board);
            let ghost before = chromosomes@;
            chromosomes.push(born);
            proof {
                assert forall|age: int| Self::none_older(prev_generation@, age) implies #[trigger]
                    Self::none_older(chromosomes@, age + 1) by {
                    assert(Self::none_older(before, age + 1));
                    assert(prev_generation@[a as int].age() <= age);
                    assert(prev_generation@[b as int].age() <= age);
                    assert forall|i: int| 0 <= i < chromosomes@.len() implies (
                    #[trigger] chromosomes@[i]).age() <= age + 1 by {
                        if i < before.len() {
                            assert(chromosomes@[i] == before[i]);
                        }
                    }
                }
                assert forall|i: int| 0 <= i < chromosomes@.len() implies (
                #[trigger] chromosomes@[i]).bred(dict, width, length) by {
                    if i < before.len() {
                        assert(chromosomes@[i] == before[i]);
                    }
                }
            }
        }
        // the first board of the generation before lives on
        let elite: &GeneticBoard = &prev_generation[0];
        let ghost before = chromosomes@;
        chromosomes.push(
            GeneticBoard { board: elite.board.copy(), age: elite.age, score: elite.score },
        );
        proof {
            assert(prev_generation@[0].bred(dict, width, length));
            assert forall|i: int| 0 <= i < chromosomes@.len() implies (
            #[trigger] chromosomes@[i]).bred(dict, width, length) by {
                if i < before.len() {
                    assert(chromosomes@[i] == before[i]);
                }
            }
            assert forall|age: int| Self::none_older(prev_generation@, age) implies #[trigger]
                Self::none_older(chromosomes@, age + 1) by {
                assert(Self::none_older(before, age + 1));
                assert(prev_generation@[0].age() <= age);
                assert forall|i: int| 0 <= i < chromosomes@.len() implies (
                #[trigger] chromosomes@[i]).age() <= age + 1 by {
                    if i < before.len() {
                        assert(chromosomes@[i] == before[i]);
                    }
                }
            }
        }
        let ghost unranked = chromosomes@;
        Self::rank(&mut chromosomes);
        proof {
            Self::lemma_ranked_keeps(unranked, chromosomes@);
        }
        let ghost all = chromosomes@;
        chromosomes.truncate(size);
        proof {
            let survivor = unranked[before.len() as int];
            assert(survivor.score() == prev_generation@[0].score());
            assert(all.contains(survivor));
            let at = choose|at: int| 0 <= at < all.len() && all[at] == survivor;
            assert(all[0].score() >= all[at].score());
            assert(chromosomes@[0] == all[0]);
            assert forall|i: int| 0 <= i < chromosomes@.len() implies (
            #[trigger] chromosomes@[i]).bred(dict, width, length) by {
                assert(chromosomes@[i] == all[i]);
                assert(unranked.contains(all[i]));
            }
            assert forall|age: int| Self::none_older(prev_generation@, age) implies #[trigger]
                Self::none_older(chromosomes@, age + 1) by {
                assert(Self::none_older(unranked, age + 1));
                assert forall|i: int| 0 <= i < chromosomes@.len() implies (
                #[trigger] chromosomes@[i]).age() <= age + 1 by {
                    assert(chromosomes@[i] == all[i]);
                    assert(unranked.contains(all[i]));
                }
            }
            assert forall|i: int, j: int| 0 <= i <= j < chromosomes@.len() implies (
            #[trigger] chromosomes@[i]).score() >= (#[trigger] chromosomes@[j]).score() by {
                assert(chromosomes@[i] == all[i]);
                assert(chromosomes@[j] == all[j]);
            }
        }
        chromosomes
    }

    /// Draws two boards of the first `size` of `generation` and gives the
    /// place of the one with the higher score, the first drawn if they tie.
    pub fn draw_parent(size: usize, generation: &Vec<GeneticBoard>) -> (winner: usize)
        requires
            size >= 1,
            generation@.len() >= size,
        ensures
            winner < size,
    {
        let first: usize = random_below(size);
        let second: usize = random_below(size);
        Self::better_of(generation, first, second)
    }

    /// Of two places in `generation`, the second if its board scores higher
    /// than that of the first, else the first.
    pub fn better_of(generation: &Vec<GeneticBoard>, first: usize, second: usize) -> (winner:
        usize)
        requires
            first < generation@.len(),
            second < generation@.len(),
        ensures
            winner == if generation@[second as int].score() > generation@[first as int].score() {
                second
            } else {
                first
            },
    {
        if generation[second].score > generation[first].score {
            second
        } else {
            first
        }
    }

    /// A first generation: boards of `board_x` by `board_y` drawn at random,
    /// no two alike, in order of their total score. There are `size` of them,
    /// or fewer if boards already drawn kept coming up.
    pub fn init_population(
        dictionary: &Trie,
        size: usize,
        board_x: usize,
        board_y: usize,
    ) -> (population: Vec<GeneticBoard>)
        requires
            dims_searchable(board_x as int, board_y as int),
        ensures
            population@.len() <= size,
            size >= 1 ==> population@.len() >= 1,
            Self::ranked(population@),
            Self::all_differ(population@),
            Self::all_bred(population@, trie_words(*dictionary), board_x, board_y),
            Self::none_older(population@, 0),
    {
        let ghost dict = trie_words(*dictionary);
        let mut chromosomes: Vec<GeneticBoard> = Vec::new();
        let mut new_borns = StringHashSet::new();
        let mut draws: usize = 0;
        proof {
            lemma_searchable_count(board_x as int, board_y as int);
        }
        while chromosomes.len() < size && draws < usize::MAX
            invariant
                chromosomes@.len() <= size,
                draws == 0 ==> new_borns@ == Set::<Seq<char>>::empty(),
                draws > 0 ==> chromosomes@.len() >= 1,
                forall|i: int|
                    0 <= i < chromosomes@.len() ==> new_borns@.contains(
                        (#[trigger] chromosomes@[i]).board().cells(),
                    ),
                Self::all_differ(chromosomes@),
                dict == trie_words(*dictionary),
                board_x * board_y <= usize::MAX,
                dims_searchable(board_x as int, board_y as int),
                Self::all_bred(chromosomes@, dict, board_x, board_y),
                Self::none_older(chromosomes@, 0),
            decreases usize::MAX - draws,
        {
            draws = draws + 1;
            let brd: Board = Board::new_random(board_x, board_y);
            let key: String = brd.hash();
            if !new_borns.contains(key.as_str()) {
                let score: usize = Self::get_board_score(dictionary, &brd);
                let gen_board = GeneticBoard { board: brd, age: 0, score: score };
                new_borns.insert(key);
                let ghost before = chromosomes@;
                chromosomes.push(gen_board);
                proof {
                    assert forall|i: int| 0 <= i < chromosomes@.len() implies (
                    #[trigger] chromosomes@[i]).bred(dict, board_x, board_y) && chromosomes@[i].age()
                        <= 0 && new_borns@.contains(chromosomes@[i].board().cells()) by {
                        if i < before.len() {
                            assert(chromosomes@[i] == before[i]);
                        }
                    }
                    assert forall|i: int, j: int|
                        0 <= i < chromosomes@.len() && 0 <= j < chromosomes@.len() && i
                            != j implies (#[trigger] chromosomes@[i]).board().cells() != (
                    #[trigger] chromosomes@[j]).board().cells() by {
                        if i < before.len() {
                            assert(chromosomes@[i] == before[i]);
                        }
                        if j < before.len() {
                            assert(chromosomes@[j] == before[j]);
                        }
                    }
                }
            }
        }
        let ghost unranked = chromosomes@;
        Self::rank(&mut chromosomes);
        proof {
            Self::lemma_ranked_keeps(unranked, chromosomes@);
            assert forall|i: int| 0 <= i < chromosomes@.len() implies (
            #[trigger] chromosomes@[i]).bred(dict, board_x, board_y) && chromosomes@[i].age()
                <= 0 by {
                assert(unranked.contains(chromosomes@[i]));
            }
        }
        chromosomes
    }

    /// `slice::sort_by` with the scores compared the higher first: the
    /// boards are the same boards, in order of score.
    #[verifier::external_body]
    fn rank(boards: &mut Vec<GeneticBoard>)
        ensures
            final(boards)@.to_multiset() == old(boards)@.to_multiset(),
            Self::ranked(final(boards)@),
    {
        boards.sort_by(|a, b| b.score.cmp(&a.score));
    }

    /// Boards put in another order are as many, each of them is one of the
    /// boards before and each of the boards before is one of them, and no two
    /// of them hold the same letters if no two did before.
    proof fn lemma_ranked_keeps(before: Seq<GeneticBoard>, after: Seq<GeneticBoard>)
        requires
            after.to_multiset() == before.to_multiset(),
        ensures
            after.len() == before.len(),
            forall|i: int| 0 <= i < after.len() ==> before.contains(#[trigger] after[i]),
            forall|i: int| 0 <= i < before.len() ==> after.contains(#[trigger] before[i]),
            Self::all_differ(before) ==> Self::all_differ(after),
    {
        broadcast use vstd::seq_lib::group_to_multiset_ensures;

        before.to_multiset_ensures();
        after.to_multiset_ensures();
        assert forall|i: int| 0 <= i < after.len() implies before.contains(#[trigger] after[i]) by {
            assert(after.contains(after[i]));
            assert(after.to_multiset().count(after[i]) > 0);
        }
        assert forall|i: int| 0 <= i < before.len() implies after.contains(#[trigger] before[i]) by {
            assert(before.contains(before[i]));
            assert(before.to_multiset().count(before[i]) > 0);
        }
        if Self::all_differ(before) {
            assert(before.no_duplicates());
            before.lemma_multiset_has_no_duplicates();
            after.lemma_multiset_has_no_duplicates_conv();
            assert forall|i: int, j: int|
                0 <= i < after.len() && 0 <= j < after.len() && i != j implies (
            #[trigger] after[i]).board().cells() != (#[trigger] after[j]).board().cells() by {
                assert(before.contains(after[i]));
                assert(before.contains(after[j]));
                let p = choose|p: int| 0 <= p < before.len() && before[p] == after[i];
                let q = choose|q: int| 0 <= q < before.len() && before[q] == after[j];
                assert(after[i] != after[j]);
                assert(p != q);
            }
        }
    }

    /// A board of searchable dimensions with as many cells can be searched.
    proof fn lemma_shaped_is_searchable(board: GeneticBoard, width: usize, length: usize)
        requires
            board.board().width() == width,
            board.board().length() == length,
            board.board().cells().len() == width * length,
            dims_searchable(width as int, length as int),
        ensures
            board.board().grid().searchable(),
            board.board().complete(),
    {
    }

    /// The child of two boards. It starts as the parent with the higher
    /// score, either if they tie, one generation older. For each cell a
    /// number is drawn that says whether the cell stays, is taken from the
    /// other parent or is drawn anew (see `gene_source`).
    pub fn merge(&self, other: &GeneticBoard) -> (merged: Self)
        requires
            self.age() < u32::MAX,
            other.age() < u32::MAX,
            self.board().width() == other.board().width(),
            self.board().length() == other.board().length(),
            self.board().cells().len() == self.board().width() * self.board().length(),
            other.board().cells().len() == self.board().cells().len(),
            dims_searchable(self.board().width() as int, self.board().length() as int),
        ensures
            merged.score() == 0,
            merged.age() == self.age() + 1 || merged.age() == other.age() + 1,
            self.score() > other.score() ==> merged.age() == self.age() + 1,
            self.score() < other.score() ==> merged.age() == other.age() + 1,
            merged.board().width() == self.board().width(),
            merged.board().length() == self.board().length(),
            merged.board().cells().len() == self.board().cells().len(),
            merged.board().score() == self.board().score() || merged.board().score()
                == other.board().score(),
            forall|p: int|
                0 <= p < merged.board().cells().len() ==> {
                    ||| (#[trigger] merged.board().cells()[p]) == self.board().cells()[p]
                    ||| merged.board().cells()[p] == other.board().cells()[p]
                    ||| 'A' <= merged.board().cells()[p] <= 'Z'
                },
    {
        let boards = Self::order(self, other);
        let strong: &GeneticBoard = boards.0;
        let weak: &GeneticBoard = boards.1;
        let mut merged = Self { board: strong.board.copy(), age: strong.age + 1, score: 0 };
        let width: usize = strong.board.width();
        let length: usize = strong.board.length();
        proof {
            lemma_searchable_count(width as int, length as int);
            Self::lemma_shaped_is_searchable(*strong, width, length);
            Self::lemma_shaped_is_searchable(*weak, width, length);
        }
        let same: usize = Self::similarity(&strong.board, &weak.board);
        let first_share: usize = 70;
        let second_share: usize = Self::second_share(same, width * length);
        let mut i: usize = 0;
        while i < width
            invariant
                i <= width,
                width == strong.board().width(),
                length == strong.board().length(),
                weak.board().width() == width,
                weak.board().length() == length,
                weak.board().complete(),
                first_share == 70,
                second_share == 99 || second_share == 80,
                merged.age == strong.age() + 1,
                merged.score == 0,
                merged.board.width() == width,
                merged.board.length() == length,
                merged.board.score() == strong.board().score(),
                merged.board.complete(),
                merged.board.cells().len() == strong.board().cells().len(),
                weak.board().cells().len() == strong.board().cells().len(),
                forall|p: int|
                    0 <= p < merged.board.cells().len() ==> {
                        ||| (#[trigger] merged.board.cells()[p]) == strong.board().cells()[p]
                        ||| merged.board.cells()[p] == weak.board().cells()[p]
                        ||| 'A' <= merged.board.cells()[p] <= 'Z'
                    },
            decreases width - i,
        {
            let mut j: usize = 0;
            while j < length
                invariant
                    i < width,
                    j <= length,
                    width == strong.board().width(),
                    length == strong.board().length(),
                    weak.board().width() == width,
                    weak.board().length() == length,
                    weak.board().complete(),
                    first_share == 70,
                    second_share == 99 || second_share == 80,
                    merged.age == strong.age() + 1,
                    merged.score == 0,
                    merged.board.width() == width,
                    merged.board.length() == length,
                    merged.board.score() == strong.board().score(),
                    merged.board.complete(),
                    merged.board.cells().len() == strong.board().cells().len(),
                    weak.board().cells().len() == strong.board().cells().len(),
                    forall|p: int|
                        0 <= p < merged.board.cells().len() ==> {
                            ||| (#[trigger] merged.board.cells()[p]) == strong.board().cells()[p]
                            ||| merged.board.cells()[p] == weak.board().cells()[p]
                            ||| 'A' <= merged.board.cells()[p] <= 'Z'
                        },
                decreases length - j,
            {
                let rand: usize = random_below(101);
                let ghost at = place(width as int, i as int, j as int);
                proof {
                    assert(0 <= at < merged.board.cells().len());
                }
                match Self::gene_source(rand, second_share) {
                    GeneSource::Kept => {},
                    GeneSource::Crossed => {
                        // the cell of the second board
                        match weak.board.get(i, j) {
                            Some(ch) => {
                                merged.board.set(i, j, ch);
                            },
                            None => {},
                        }
                    },
                    GeneSource::Mutated => {
                        let rnd: usize = random_below(26);
                        let random_char: char = letter(rnd);
                        merged.board.set(i, j, random_char);
                    },
                }
                j = j + 1;
            }
            i = i + 1;
        }
        merged
    }

    /// Where a cell comes from, by a number drawn below 101: kept below 70,
    /// crossed from there up to `second_share`, mutated from there on.
    pub fn gene_source(drawn: usize, second_share: usize) -> (source: GeneSource)
        ensures
            source == if drawn < 70 {
                GeneSource::Kept
            } else if drawn < second_share {
                GeneSource::Crossed
            } else {
                GeneSource::Mutated
            },
    {
        if drawn < 70 {
            GeneSource::Kept
        } else if drawn < second_share {
            GeneSource::Crossed
        } else {
            GeneSource::Mutated
        }
    }

    /// Up to where cells are crossed: up to 99 for parents that agree in
    /// fewer than four of five cells, up to 80 for parents more alike.
    pub fn second_share(same: usize, total: usize) -> (share: usize)
        ensures
            share == if same * 5 < total * 4 {
                99usize
            } else {
                80usize
            },
    {
        let same_wide: u128 = same as u128;
        let total_wide: u128 = total as u128;
        if same_wide * 5 < total_wide * 4 {
            99
        } else {
            80
        }
    }

    /// The two boards with the higher score first; in either order if they
    /// tie.
    pub fn order<'a>(this: &'a GeneticBoard, that: &'a GeneticBoard) -> (ordered: (
        &'a GeneticBoard,
        &'a GeneticBoard,
    ))
        ensures
            (*ordered.0 == *this && *ordered.1 == *that) || (*ordered.0 == *that && *ordered.1
                == *this),
            this.score() > that.score() ==> *ordered.0 == *this,
            this.score() < that.score() ==> *ordered.0 == *that,
    {
        if this.score > that.score {
            return (this, that);
        }
        if this.score < that.score {
            return (that, this);
        }
        let rnd: usize = random_below(2);
        Self::order_tied(this, that, rnd)
    }

    /// Two boards in the order that a coin gives: as they came for 0, the
    /// other way round else.
    pub fn order_tied<'a>(this: &'a GeneticBoard, that: &'a GeneticBoard, coin: usize) -> (ordered:
        (&'a GeneticBoard, &'a GeneticBoard))
        ensures
            coin == 0 ==> *ordered.0 == *this && *ordered.1 == *that,
            coin != 0 ==> *ordered.0 == *that && *ordered.1 == *this,
    {
        if coin == 0 {
            return (this, that);
        }
        (that, this)
    }

    /// In how many cells `this` and `that` hold the same letter.
    pub fn similarity(this: &Board, that: &Board) -> (same: usize)
        requires
            this.complete(),
            that.complete(),
            this.width() <= that.width(),
            this.length() <= that.length(),
            this.width() * this.length() <= usize::MAX,
        ensures
            same == same_cells(this.grid(), that.grid(), this.width() as nat),
    {
        let width: usize = this.width();
        let length: usize = this.length();
        let mut same: usize = 0;
        let mut i: usize = 0;
        while i < width
            invariant
                i <= width,
                width == this.width(),
                length == this.length(),
                this.complete(),
                that.complete(),
                width <= that.width(),
                length <= that.length(),
                width * length <= usize::MAX,
                same == same_cells(this.grid(), that.grid(), i as nat),
            decreases width - i,
        {
            let ghost rows = same;
            let mut j: usize = 0;
            proof {
                lemma_same_cells_bounded(this.grid(), that.grid(), i as nat);
                assert((i + 1) * length <= width * length) by (nonlinear_arith)
                    requires
                        i + 1 <= width,
                        0 <= length,
                ;
                assert((i + 1) * length == i * length + length) by (nonlinear_arith);
            }
            while j < length
                invariant
                    i < width,
                    j <= length,
                    width == this.width(),
                    length == this.length(),
                    this.complete(),
                    that.complete(),
                    width <= that.width(),
                    length <= that.length(),
                    rows == same_cells(this.grid(), that.grid(), i as nat),
                    rows + length <= usize::MAX,
                    same == rows + same_in_row(this.grid(), that.grid(), i as int, j as nat),
                decreases length - j,
            {
                proof {
                    lemma_same_in_row_bounded(this.grid(), that.grid(), i as int, j as nat);
                }
                let ch1 = this.get(i, j);
                let ch2 = that.get(i, j);
                match (ch1, ch2) {
                    (Some(ch1), Some(ch2)) => {
                        if ch1 == ch2 {
                            same = same + 1;
                        }
                    },
                    _ => {},
                }
                j = j + 1;
            }
            i = i + 1;
        }
        same
    }

    /// The score that a board is ranked by: its total score against the
    /// dictionary, or `u32::MAX` where the total does not fit a `u32`.
    pub fn get_board_score(dictionary: &Trie, brd: &Board) -> (score: usize)
        requires
            brd.grid().searchable(),
        ensures
            score == fitness_of(brd.grid(), trie_words(*dictionary)),
    {
        let mut calculator = TotalBoggleScoreCalculator::new(dictionary, brd.width(), brd.length());
        let total: u32 = calculator.fitness(brd.value());
        total as usize
    }

    /// The score of a word of `len` bytes.
    pub fn get_score(len: usize) -> (score: usize)
        ensures
            score == score_of_len(len as nat),
    {
        if len <= 2 {
            0
        } else if len <= 4 {
            1
        } else if len == 5 {
            2
        } else if len == 6 {
            3
        } else if len == 7 {
            5
        } else {
            11
        }
    }
}

} // verus!
