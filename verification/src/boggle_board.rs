//! The board: a rectangle of letters with its dimensions and, once known,
//! its total score.

use rand::distr::{Distribution, Uniform};
use vstd::prelude::*;
use crate::search_model::{place, Grid};

verus! {

/// `Uniform::try_from` on the range from 0 to `bound`, and one `sample` of it
/// with the generator of `rand::rng`: some number below `bound`. Which one
/// is left open.
#[verifier::external_body]
pub(crate) fn random_below(bound: usize) -> (drawn: usize)
    requires
        bound > 0,
    ensures
        drawn < bound,
{
    let uniform = Uniform::try_from(0..bound).unwrap();
    uniform.sample(&mut rand::rng())
}

/// The capital letter with the given number, counted from `A`.
pub open spec fn capital(number: int) -> char {
    (65 + number) as u8 as char
}

/// The capital letter with the given number, counted from `A`.
pub fn letter(number: usize) -> (letter: char)
    requires
        number < 26,
    ensures
        letter == capital(number as int),
        'A' <= letter <= 'Z',
{
    (65u8 + number as u8) as char
}

/// The text of `cells` in rows of `width`: the letters in order, with a line
/// break before every letter that starts a row but the first.
pub open spec fn rows_text(cells: Seq<char>, width: int) -> Seq<char>
    decreases cells.len(),
{
    if cells.len() == 0 {
        Seq::empty()
    } else {
        let i = cells.len() - 1;
        let front = rows_text(cells.drop_last(), width);
        if i > 0 && i % width == 0 {
            front.push('\n').push(cells.last())
        } else {
            front.push(cells.last())
        }
    }
}

/// The board struct.
pub struct Board {
    width: usize,
    length: usize,
    value: Vec<char>,
    score: Option<isize>,
}

impl Board {
    /// The board's first dimension.
    pub closed spec fn spec_width(&self) -> usize {
        self.width
    }

    /// The board's second dimension.
    pub closed spec fn spec_length(&self) -> usize {
        self.length
    }

    /// The board's score, if it is known.
    pub closed spec fn spec_score(&self) -> Option<isize> {
        self.score
    }

    /// The board's letters.
    pub closed spec fn cells(&self) -> Seq<char> {
        self.value@
    }

    /// The board as a grid.
    pub open spec fn grid(&self) -> Grid {
        Grid { cells: self.cells(), width: self.width() as int, length: self.length() as int }
    }

    /// Whether every coordinate of the board is kept at a place that holds a
    /// letter.
    pub open spec fn complete(&self) -> bool {
        forall|i: int, j: int|
            0 <= i < self.width() && 0 <= j < self.length() ==> 0 <= #[trigger] place(
                self.width() as int,
                i,
                j,
            ) < self.cells().len()
    }

    /// A board of the given letters, dimensions and score.
    pub fn new(value: Vec<char>, width: usize, length: usize, score: Option<isize>) -> (board: Self)
        ensures
            board.cells() == value@,
            board.width() == width,
            board.length() == length,
            board.score() == score,
    {
        Self { width: width, length: length, value: value, score: score }
    }

    /// The board's width.
    #[verifier::when_used_as_spec(spec_width)]
    pub fn width(&self) -> (width: usize)
        ensures
            width == self.width(),
    {
        self.width
    }

    /// The board's length.
    #[verifier::when_used_as_spec(spec_length)]
    pub fn length(&self) -> (length: usize)
        ensures
            length == self.length(),
    {
        self.length
    }

    /// The board's score.
    #[verifier::when_used_as_spec(spec_score)]
    pub fn score(&self) -> (score: Option<isize>)
        ensures
            score == self.score(),
    {
        self.score
    }

    /// The board's letters, row by row.
    pub fn value(&self) -> (value: &Vec<char>)
        ensures
            value@ == self.cells(),
    {
        &self.value
    }

    /// A board of the given dimensions whose letters are capitals drawn at
    /// random. Its score is not known.
    pub fn new_random(width: usize, length: usize) -> (board: Self)
        requires
            width * length <= usize::MAX,
        ensures
            board.width() == width,
            board.length() == length,
            board.score().is_none(),
            board.cells().len() == width * length,
            forall|i: int| 0 <= i < board.cells().len() ==> 'A' <= #[trigger] board.cells()[i] <= 'Z',
    {
        let count: usize = width * length;
        let mut brd = Self { width: width, length: length, value: vec![' ';count], score: None };
        let mut i: usize = 0;
        while i < count
            invariant
                i <= count,
                brd.width == width,
                brd.length == length,
                brd.score.is_none(),
                brd.value@.len() == count,
                forall|j: int| 0 <= j < i ==> 'A' <= #[trigger] brd.value@[j] <= 'Z',
            decreases count - i,
        {
            let rnd: usize = random_below(26);
            let random_char: char = letter(rnd);
            brd.value.set(i, random_char);
            i = i + 1;
        }
        brd
    }

    /// A board with the same letters, dimensions and score.
    pub fn copy(&self) -> (copy: Self)
        ensures
            copy.cells() == self.cells(),
            copy.width() == self.width(),
            copy.length() == self.length(),
            copy.score() == self.score(),
    {
        let value = self.value.clone();
        assert(value@ =~= self.value@);
        Self { width: self.width, length: self.length, value: value, score: self.score }
    }

    /// The board as text, one row of `width` letters to a line.
    pub fn to_string(&self) -> (text: String)
        requires
            self.width() > 0 || self.cells().len() <= 1,
        ensures
            text@ == rows_text(self.cells(), self.width() as int),
    {
        let mut s = String::new();
        let n: usize = self.value.len();
        let mut i: usize = 0;
        while i < n
            invariant
                i <= n,
                n == self.value@.len(),
                self.width > 0 || n <= 1,
                s@ == rows_text(self.value@.subrange(0, i as int), self.width as int),
            decreases n - i,
        {
            proof {
                let upto = self.value@.subrange(0, i + 1);
                assert(upto.drop_last() =~= self.value@.subrange(0, i as int));
                assert(upto.last() == self.value@[i as int]);
            }
            if i > 0 && i % self.width == 0 {
                s.push('\n');
            }
            s.push(self.value[i]);
            i = i + 1;
        }
        assert(self.value@.subrange(0, n as int) =~= self.value@);
        s
    }

    /// The board's letters as one string, by which boards are told apart.
    pub fn hash(&self) -> (text: String)
        ensures
            text@ == self.cells(),
    {
        let mut s = String::new();
        let n: usize = self.value.len();
        let mut i: usize = 0;
        while i < n
            invariant
                i <= n,
                n == self.value@.len(),
                s@ == self.value@.subrange(0, i as int),
            decreases n - i,
        {
            s.push(self.value[i]);
            assert(self.value@.subrange(0, i + 1) =~= self.value@.subrange(0, i as int).push(
                self.value@[i as int],
            ));
            i = i + 1;
        }
        assert(self.value@.subrange(0, n as int) =~= self.value@);
        s
    }

    /// The letter at `(i, j)`; `None` off the board.
    pub fn get(&self, i: usize, j: usize) -> (letter: Option<char>)
        requires
            self.complete(),
        ensures
            letter == if i < self.width() && j < self.length() {
                Some(self.cells()[place(self.width() as int, i as int, j as int)])
            } else {
                None
            },
    {
        if i >= self.width || j >= self.length {
            return None;
        }
        let held: usize = self.value.len();
        proof {
            assert(0 <= place(self.width as int, i as int, j as int) < held);
            assert(0 <= i * self.width) by (nonlinear_arith)
                requires
                    0 <= i,
                    0 <= self.width,
            ;
        }
        Some(self.value[i * self.width + j])
    }

    /// Puts `ch` at `(i, j)`; off the board nothing changes.
    pub fn set(&mut self, i: usize, j: usize, ch: char)
        requires
            old(self).complete(),
        ensures
            final(self).width() == old(self).width(),
            final(self).length() == old(self).length(),
            final(self).score() == old(self).score(),
            final(self).cells() == if i < old(self).width() && j < old(self).length() {
                old(self).cells().update(place(old(self).width() as int, i as int, j as int), ch)
            } else {
                old(self).cells()
            },
    {
        if !(i >= self.width || j >= self.length) {
            let held: usize = self.value.len();
            proof {
                assert(0 <= place(self.width as int, i as int, j as int) < held);
                assert(0 <= i * self.width) by (nonlinear_arith)
                    requires
                        0 <= i,
                        0 <= self.width,
                ;
            }
            let at: usize = i * self.width + j;
            self.value.set(at, ch);
        }
    }
}

} // verus!
