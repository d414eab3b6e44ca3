//! The search engine: a depth-first walk of the board that the dictionary
//! prunes, reporting every word it reaches to the registered visitors.

use vstd::prelude::*;
use word_trie::trie::{Trie, TrieNode};
pub use crate::visitor::WordVisitor;
use crate::dictionary::{child_node, node_is_word, node_words, root_node, tails, trie_words};
use crate::scoring::{lemma_ascii_word_score, score_of_len, word_score};
use crate::search_model::{
    around_events, ascii_lower, cell_events, col_step, dims_searchable, found,
    lemma_around_grows, lemma_row_grows, lemma_rows_grow, lemma_searchable_count,
    lemma_visit_shrinks, lower_word, place, row_events, row_step, rows_events, search_events,
    unvisited, Grid, WordEvent,
};
use crate::visitor::{
    accepts_all, all_counted, all_inv, fits_all, handed, lemma_counted_chain,
    lemma_counted_nothing, lemma_fits_next, lemma_handed_after, lemma_handed_all,
    lemma_handed_none, lemma_tally_single, tally_after,
};

verus! {

/// `char::to_ascii_lowercase`: the capitals `A` to `Z` become `a` to `z`, every
/// other character is returned as it is.
pub assume_specification[ char::to_ascii_lowercase ](c: &char) -> (lower: char)
    ensures
        lower == ascii_lower(*c),
;

/// `String::push`: the character is appended.
pub assume_specification[ String::push ](s: &mut String, c: char)
    ensures
        final(s)@ == old(s)@.push(c),
;

/// `String::pop`: the last character is removed and returned; an empty
/// string stays empty and gives `None`.
pub assume_specification[ String::pop ](s: &mut String) -> (last: Option<char>)
    ensures
        old(s)@.len() > 0 ==> last == Some(old(s)@.last()) && final(s)@ == old(s)@.drop_last(),
        old(s)@.len() == 0 ==> last.is_none() && final(s)@ == old(s)@,
;

/// Why a search could not be set up or a histogram not be updated.
#[derive(Debug, Clone, Copy, PartialEq, Eq, Structural)]
pub enum BoggleError {
    /// The board does not have as many cells as its dimensions say.
    SizeMismatch { expected: usize, actual: usize },
    /// A score has no bucket in the score histogram.
    HistogramOverflow { score: u32 },
}

/// The score of `word`: 0 below three bytes, 1 for three and four, 2 for
/// five, 3 for six, 5 for seven and 11 from eight on. A word of ASCII
/// characters has as many bytes as characters.
pub fn get_word_score(word: &str) -> (score: u32)
    ensures
        score == word_score(word@),
        score <= 11,
        vstd::utf8::is_ascii_chars(word@) && word@.len() <= usize::MAX ==> score == score_of_len(
            word@.len(),
        ),
{
    proof {
        if vstd::utf8::is_ascii_chars(word@) && word@.len() <= usize::MAX {
            lemma_ascii_word_score(word@);
        }
    }
    let len: usize = word.len();
    if len <= 2 {
        0
    } else if len <= 4 {
        1
    } else if len == 5 {
        2
    } else if len == 6 {
        3
    } else if len == 7 {
        5
    } else {
        11
    }
}

/// What a search is run against: a dictionary and the board's dimensions.
#[derive(Debug, Clone)]
pub struct BoggleDfsContext<'a> {
    dictionary: &'a Trie,
    length: usize,
    width: usize,
}

impl<'a> BoggleDfsContext<'a> {
    /// The board's first dimension.
    pub closed spec fn spec_width(&self) -> usize {
        self.width
    }

    /// The board's second dimension.
    pub closed spec fn spec_length(&self) -> usize {
        self.length
    }

    /// The words of the dictionary.
    pub closed spec fn words(&self) -> Set<Seq<char>> {
        trie_words(*self.dictionary)
    }

    /// Whether a board of these dimensions can be searched.
    pub open spec fn searchable(&self) -> bool {
        dims_searchable(self.width() as int, self.length() as int)
    }

    /// Binds a dictionary to the dimensions of a board.
    pub fn new(dictionary: &'a Trie, width: usize, length: usize) -> (context: Self)
        ensures
            context.width() == width,
            context.length() == length,
            context.words() == trie_words(*dictionary),
    {
        Self { dictionary, length, width }
    }

    /// The board's first dimension.
    #[verifier::when_used_as_spec(spec_width)]
    pub fn width(&self) -> (width: usize)
        ensures
            width == self.width(),
    {
        self.width
    }

    /// The board's second dimension.
    #[verifier::when_used_as_spec(spec_length)]
    pub fn length(&self) -> (length: usize)
        ensures
            length == self.length(),
    {
        self.length
    }

    /// The dictionary.
    pub fn dictionary(&self) -> (trie: &'a Trie)
        ensures
            trie_words(*trie) == self.words(),
    {
        self.dictionary
    }

    /// The number of cells of the board.
    pub fn count(&self) -> (count: usize)
        requires
            self.width() * self.length() <= usize::MAX,
        ensures
            count == self.width() * self.length(),
    {
        self.width * self.length
    }

    /// Decides whether a board of these dimensions can be searched.
    pub fn is_searchable(&self) -> (yes: bool)
        ensures
            yes == self.searchable(),
    {
        let w: usize = self.width;
        let l: usize = self.length;
        proof {
            if self.searchable() {
                lemma_searchable_count(w as int, l as int);
            }
        }
        if w == 0 || l == 0 {
            assert(w * l == 0) by (nonlinear_arith)
                requires
                    w == 0 || l == 0,
            ;
            return true;
        }
        // the cell kept furthest back is the last of the last row
        if w > 256 || l > 65536 {
            proof {
                let x = (w - 1) as int;
                let y = (l - 1) as int;
                assert(place(w as int, x, y) > u16::MAX) by (nonlinear_arith)
                    requires
                        x == w - 1,
                        y == l - 1,
                        w > 256 || l > 65536,
                        w >= 1,
                        l >= 1,
                ;
            }
            return false;
        }
        assert((w - 1) * w <= 255 * 256) by (nonlinear_arith)
            requires
                1 <= w <= 256,
        ;
        let last: usize = (w - 1) * w + (l - 1);
        assert(w * l <= 256 * 65536) by (nonlinear_arith)
            requires
                w <= 256,
                l <= 65536,
        ;
        let count: usize = w * l;
        proof {
            assert forall|x: int, y: int| 0 <= x < w && 0 <= y < l implies 0 <= #[trigger] place(
                w as int,
                x,
                y,
            ) <= last by {
                assert(0 <= x * w <= (w - 1) * w) by (nonlinear_arith)
                    requires
                        0 <= x <= w - 1,
                        w >= 0,
                ;
            }
            assert(place(w as int, w - 1, l - 1) == last);
        }
        last < count && last <= 65535
    }
}

/// Row and column of the `k`-th neighbour of `(x, y)`, if the board holds it.
fn neighbour(x: usize, y: usize, k: usize, width: usize, length: usize) -> (next: Option<
    (usize, usize),
>)
    requires
        k < 8,
        x < width,
        y < length,
    ensures
        match next {
            Some((nx, ny)) => nx == x + row_step(k as int) && ny == y + col_step(k as int) && nx
                < width && ny < length,
            None => !(0 <= x + row_step(k as int) < width && 0 <= y + col_step(k as int) < length),
        },
{
    let nx: usize = if k < 3 {
        if x == 0 {
            return None;
        }
        x - 1
    } else if k < 5 {
        x
    } else {
        if x + 1 >= width {
            return None;
        }
        x + 1
    };
    let ny: usize = if k == 0 || k == 3 || k == 5 {
        if y == 0 {
            return None;
        }
        y - 1
    } else if k == 1 || k == 6 {
        y
    } else {
        if y + 1 >= length {
            return None;
        }
        y + 1
    };
    Some((nx, ny))
}

/// One search of one board. It owns the marks of the cells that the walk in
/// progress holds, the letters and the cells of that walk, and the visitors
/// that are told of every word found.
pub struct BoggleDfs<'a, V: WordVisitor> {
    context: &'a BoggleDfsContext<'a>,
    visitors: Vec<V>,
    visited: Vec<bool>,
    current: String,
    board: &'a Vec<char>,
    path: Vec<u16>,
}

impl<'a, V: WordVisitor> BoggleDfs<'a, V> {
    /// The board under search.
    pub closed spec fn grid(&self) -> Grid {
        Grid {
            cells: self.board@,
            width: self.context.width() as int,
            length: self.context.length() as int,
        }
    }

    /// The words searched for.
    pub closed spec fn words(&self) -> Set<Seq<char>> {
        self.context.words()
    }

    /// The registered visitors, in registration order.
    pub closed spec fn registered(&self) -> Seq<V> {
        self.visitors@
    }

    /// Whether the marks agree with the walk in progress: a cell is marked
    /// exactly while the walk holds it.
    spec fn marks_agree(&self) -> bool {
        &&& self.grid().searchable()
        &&& self.visited@.len() == self.board@.len()
        &&& forall|i: int|
            0 <= i < self.visited@.len() ==> #[trigger] self.visited@[i] == (i <= u16::MAX
                && self.path@.contains(i as u16))
    }

    /// Whether the engine is at rest: it has a mark for every cell, no cell is
    /// marked, no walk is in progress, and every visitor is consistent.
    pub closed spec fn inv(&self) -> bool {
        &&& self.visited@.len() == self.board@.len()
        &&& forall|i: int| 0 <= i < self.visited@.len() ==> !#[trigger] self.visited@[i]
        &&& self.current@.len() == 0
        &&& self.path@.len() == 0
        &&& all_inv(self.visitors@)
    }

    /// Sets up a search of `board`, which must have as many cells as the
    /// context's dimensions say.
    pub fn new(context: &'a BoggleDfsContext<'a>, board: &'a Vec<char>) -> (made: Result<
        Self,
        BoggleError,
    >)
        requires
            context.width() * context.length() <= usize::MAX,
        ensures
            match made {
                Ok(dfs) => {
                    &&& board@.len() == context.width() * context.length()
                    &&& dfs.inv()
                    &&& dfs.grid() == (Grid {
                        cells: board@,
                        width: context.width() as int,
                        length: context.length() as int,
                    })
                    &&& dfs.words() == context.words()
                    &&& dfs.registered().len() == 0
                },
                Err(e) => {
                    &&& board@.len() != context.width() * context.length()
                    &&& e == (BoggleError::SizeMismatch {
                        expected: (context.width() * context.length()) as usize,
                        actual: board@.len() as usize,
                    })
                },
            },
    {
        let count: usize = context.count();
        if board.len() != count {
            return Err(BoggleError::SizeMismatch { expected: count, actual: board.len() });
        }
        let visited: Vec<bool> = vec![false; count];
        let current = String::new();
        let path: Vec<u16> = Vec::new();
        Ok(Self { context, visitors: Vec::new(), visited, current, board, path })
    }

    /// Registers a visitor. Visitors are told of each word in the order in
    /// which they were registered.
    pub fn with_visitor(&mut self, visitor: V) -> (engine: &mut Self)
        requires
            old(self).inv(),
            visitor.inv(),
        ensures
            engine.inv(),
            engine.grid() == old(self).grid(),
            engine.words() == old(self).words(),
            engine.registered() == old(self).registered().push(visitor),
            *final(self) == *final(engine),
    {
        self.visitors.push(visitor);
        self
    }

    /// The registered visitors, in registration order.
    pub fn visitors(&self) -> (visitors: &Vec<V>)
        ensures
            visitors@ == self.registered(),
    {
        &self.visitors
    }

    /// Ends the search and hands the visitors back.
    pub fn into_visitors(self) -> (visitors: Vec<V>)
        ensures
            visitors@ == self.registered(),
    {
        self.visitors
    }

    /// Runs the search of a board that can be searched, with visitors that
    /// have room for every report: each visitor is handed the reports of
    /// `search_events`, in that order.
    pub fn search(&mut self)
        requires
            old(self).inv(),
            old(self).grid().searchable(),
            fits_all(old(self).registered(), search_events(old(self).grid(), old(self).words())),
        ensures
            final(self).inv(),
            final(self).grid() == old(self).grid(),
            final(self).words() == old(self).words(),
            all_counted(
                old(self).registered(),
                final(self).registered(),
                search_events(old(self).grid(), old(self).words()),
            ),
    {
        proof {
            lemma_handed_all(self.visitors@, search_events(self.grid(), self.words()));
        }
        let _ = self.try_search();
    }

    /// Runs the search of a board that can be searched for as long as every
    /// visitor has room: each visitor is handed the reports of
    /// `search_events` in order, up to the first for which some visitor has no
    /// room. Says whether all were handed over.
    pub fn try_search(&mut self) -> (done: bool)
        requires
            old(self).inv(),
            old(self).grid().searchable(),
        ensures
            final(self).inv(),
            final(self).grid() == old(self).grid(),
            final(self).words() == old(self).words(),
            done == fits_all(
                old(self).registered(),
                search_events(old(self).grid(), old(self).words()),
            ),
            all_counted(
                old(self).registered(),
                final(self).registered(),
                handed(old(self).registered(), search_events(old(self).grid(), old(self).words())),
            ),
    {
        let ghost grid = self.grid();
        let ghost dict = self.words();
        let ghost before = self.visitors@;
        let ghost none = Seq::<char>::empty();
        let ghost nowhere = Seq::<u16>::empty();
        let ghost all = search_events(grid, dict);
        let width: usize = self.context.width();
        let length: usize = self.context.length();
        let trie: &Trie = self.context.dictionary();
        let root: &TrieNode = root_node(trie);
        proof {
            lemma_counted_nothing(before);
            lemma_residual_of_nothing(dict);
            assert(lower_word(none) =~= none);
        }
        let mut i: usize = 0;
        while i < width
            invariant
                i <= width,
                width == self.context.width(),
                length == self.context.length(),
                self.inv(),
                self.grid() == grid,
                self.words() == dict,
                grid.searchable(),
                grid.width == width,
                grid.length == length,
                all == search_events(grid, dict),
                grid == old(self).grid(),
                dict == old(self).words(),
                before == old(self).registered(),
                none == Seq::<char>::empty(),
                nowhere == Seq::<u16>::empty(),
                node_words(*root) == residual(dict, lower_word(none)),
                fits_all(before, rows_events(grid, dict, i as nat)),
                all_counted(before, self.visitors@, rows_events(grid, dict, i as nat)),
            decreases width - i,
        {
            let mut j: usize = 0;
            let ghost rows = rows_events(grid, dict, i as nat);
            proof {
                assert(rows + row_events(grid, dict, i as int, 0) =~= rows);
            }
            while j < length
                invariant
                    i < width,
                    j <= length,
                    width == self.context.width(),
                    length == self.context.length(),
                    self.inv(),
                    self.grid() == grid,
                    self.words() == dict,
                    grid.searchable(),
                    grid.width == width,
                    grid.length == length,
                    all == search_events(grid, dict),
                    grid == old(self).grid(),
                    dict == old(self).words(),
                    before == old(self).registered(),
                    rows == rows_events(grid, dict, i as nat),
                    none == Seq::<char>::empty(),
                    nowhere == Seq::<u16>::empty(),
                    node_words(*root) == residual(dict, lower_word(none)),
                    fits_all(before, rows + row_events(grid, dict, i as int, j as nat)),
                    all_counted(
                        before,
                        self.visitors@,
                        rows + row_events(grid, dict, i as int, j as nat),
                    ),
                decreases length - j,
            {
                let ghost cell_start = self.visitors@;
                let ghost done_so_far = rows + row_events(grid, dict, i as int, j as nat);
                let ghost next = cell_events(grid, dict, none, nowhere, i as int, j as int);
                proof {
                    assert(self.current@ =~= none);
                    assert(self.path@ =~= nowhere);
                    assert(rows + row_events(grid, dict, i as int, j as nat + 1) =~= done_so_far
                        + next);
                    lemma_row_grows(grid, dict, i as int, j as nat + 1, length as nat);
                    lemma_rows_grow(grid, dict, i as nat + 1, width as nat);
                    assert((done_so_far + next).is_prefix_of(all));
                }
                let walked: bool = self.dfs(root, i, j);
                proof {
                    lemma_fits_next(before, cell_start, done_so_far, next);
                }
                if !walked {
                    proof {
                        lemma_handed_after(before, cell_start, done_so_far, next, all);
                        lemma_counted_chain(
                            before,
                            cell_start,
                            self.visitors@,
                            done_so_far,
                            handed(cell_start, next),
                        );
                    }
                    self.rest();
                    return false;
                }
                proof {
                    lemma_handed_all(cell_start, next);
                    lemma_counted_chain(before, cell_start, self.visitors@, done_so_far, next);
                }
                j = j + 1;
            }
            i = i + 1;
        }
        proof {
            lemma_handed_all(before, all);
        }
        true
    }

    /// Brings the engine to rest: unmarks every cell and forgets the walk in
    /// progress.
    fn rest(&mut self)
        requires
            old(self).visited@.len() == old(self).board@.len(),
            all_inv(old(self).visitors@),
        ensures
            final(self).inv(),
            final(self).grid() == old(self).grid(),
            final(self).words() == old(self).words(),
            final(self).visitors == old(self).visitors,
    {
        let count: usize = self.visited.len();
        self.visited = vec![false; count];
        self.current = String::new();
        self.path = Vec::new();
    }

    /// Continues the walk in progress into `(x, y)`, and from there into
    /// every cell that can follow, telling the visitors of each word reached
    /// on the way, for as long as every visitor has room. `node` is where the
    /// walk in progress has led in the dictionary. Says whether all was told;
    /// if so, the walk in progress is the same afterwards.
    fn dfs(&mut self, node: &TrieNode, x: usize, y: usize) -> (done: bool)
        requires
            old(self).marks_agree(),
            old(self).grid().holds(x as int, y as int),
            node_words(*node) == residual(old(self).words(), lower_word(old(self).current@)),
            all_inv(old(self).visitors@),
        ensures
            final(self).grid() == old(self).grid(),
            final(self).words() == old(self).words(),
            final(self).context == old(self).context,
            final(self).visited@.len() == old(self).visited@.len(),
            done ==> final(self).visited@ == old(self).visited@ && final(self).current@ == old(
                self,
            ).current@ && final(self).path@ == old(self).path@,
            done == fits_all(
                old(self).visitors@,
                cell_events(
                    old(self).grid(),
                    old(self).words(),
                    old(self).current@,
                    old(self).path@,
                    x as int,
                    y as int,
                ),
            ),
            all_counted(
                old(self).visitors@,
                final(self).visitors@,
                handed(
                    old(self).visitors@,
                    cell_events(
                        old(self).grid(),
                        old(self).words(),
                        old(self).current@,
                        old(self).path@,
                        x as int,
                        y as int,
                    ),
                ),
            ),
        decreases unvisited(old(self).path@).len(),
    {
        let ghost grid = self.grid();
        let ghost dict = self.words();
        let ghost before = self.visitors@;
        let ghost word = self.current@;
        let ghost trail = self.path@;
        let ghost marks = self.visited@;
        let ghost all = cell_events(grid, dict, word, trail, x as int, y as int);
        let width: usize = self.context.width();
        let length: usize = self.context.length();
        proof {
            assert(0 <= grid.index(x as int, y as int) < grid.cells.len());
            assert(0 <= x * width) by (nonlinear_arith)
                requires
                    0 <= x,
                    0 <= width,
            ;
            lemma_counted_nothing(before);
        }
        let cell_index: usize = x * width + y;
        // a walk may not enter a cell twice
        if self.visited[cell_index] {
            return true;
        }
        self.visited.set(cell_index, true);
        let ch: char = self.cell_value(cell_index);
        let ch_index: char = ch.to_ascii_lowercase();
        let ghost longer_word = word.push(ch);
        let ghost longer_trail = trail.push(cell_index as u16);
        let ghost here = found(dict, longer_word, longer_trail);
        proof {
            lemma_visit_shrinks(trail, cell_index as int);
            lemma_residual_step(dict, lower_word(word), ch_index);
            assert(lower_word(longer_word) =~= lower_word(word).push(ch_index));
        }
        let next_node: &TrieNode = match child_node(node, ch_index) {
            Some(next_node) => next_node,
            None => {
                // no word of the dictionary starts as this walk does
                self.visited.set(cell_index, false);
                proof {
                    lemma_barren_around(grid, dict, longer_word, longer_trail, x as int, y as int, 8);
                    assert(self.visited@ =~= marks);
                    assert(all =~= Seq::<WordEvent>::empty());
                }
                return true;
            },
        };
        self.current.push(ch);
        self.path.push(cell_index as u16);
        proof {
            assert forall|i: int| 0 <= i < self.visited@.len() implies #[trigger] self.visited@[i]
                == (i <= u16::MAX && self.path@.contains(i as u16)) by {
                if i <= u16::MAX {
                    lemma_trail_push(trail, cell_index as int, i);
                }
            }
            assert(here.is_prefix_of(all));
            assert(Seq::<WordEvent>::empty() + here =~= here);
        }
        if node_is_word(next_node) {
            assert(here == seq![WordEvent { word: longer_word, path: longer_trail }]);
            let told: bool = self.visit();
            if !told {
                proof {
                    lemma_handed_after(before, before, Seq::<WordEvent>::empty(), here, all);
                    lemma_handed_none(before, WordEvent { word: longer_word, path: longer_trail });
                    assert(handed(before, all) =~= Seq::<WordEvent>::empty());
                }
                return false;
            }
        }
        let mut k: usize = 0;
        proof {
            assert(here + around_events(grid, dict, longer_word, longer_trail, x as int, y as int, 0)
                =~= here);
        }
        while k < 8
            invariant
                k <= 8,
                x < width,
                y < length,
                width == self.context.width(),
                length == self.context.length(),
                self.marks_agree(),
                self.grid() == grid,
                self.words() == dict,
                self.context == old(self).context,
                self.visited@.len() == marks.len(),
                grid.width == width,
                grid.length == length,
                grid.searchable(),
                self.current@ == longer_word,
                self.path@ == longer_trail,
                unvisited(longer_trail).len() < unvisited(trail).len(),
                trail == old(self).path@,
                word == old(self).current@,
                grid == old(self).grid(),
                dict == old(self).words(),
                before == old(self).visitors@,
                marks.len() == old(self).visited@.len(),
                all == cell_events(grid, dict, word, trail, x as int, y as int),
                node_words(*next_node) == residual(dict, lower_word(longer_word)),
                all == here + around_events(
                    grid,
                    dict,
                    longer_word,
                    longer_trail,
                    x as int,
                    y as int,
                    8,
                ),
                fits_all(
                    before,
                    here + around_events(
                        grid,
                        dict,
                        longer_word,
                        longer_trail,
                        x as int,
                        y as int,
                        k as nat,
                    ),
                ),
                all_counted(
                    before,
                    self.visitors@,
                    here + around_events(
                        grid,
                        dict,
                        longer_word,
                        longer_trail,
                        x as int,
                        y as int,
                        k as nat,
                    ),
                ),
            decreases 8 - k,
        {
            let ghost step_start = self.visitors@;
            let ghost told = here + around_events(
                grid,
                dict,
                longer_word,
                longer_trail,
                x as int,
                y as int,
                k as nat,
            );
            let ghost next = cell_events(
                grid,
                dict,
                longer_word,
                longer_trail,
                x + row_step(k as int),
                y + col_step(k as int),
            );
            proof {
                lemma_around_grows(
                    grid,
                    dict,
                    longer_word,
                    longer_trail,
                    x as int,
                    y as int,
                    k as nat + 1,
                    8,
                );
                assert(here + around_events(
                    grid,
                    dict,
                    longer_word,
                    longer_trail,
                    x as int,
                    y as int,
                    k as nat + 1,
                ) =~= told + next);
                assert((told + next).is_prefix_of(all));
                lemma_counted_nothing(step_start);
            }
            let walked: bool = match neighbour(x, y, k, width, length) {
                Some((nx, ny)) => self.dfs(next_node, nx, ny),
                None => {
                    proof {
                        assert(next =~= Seq::<WordEvent>::empty());
                    }
                    true
                },
            };
            proof {
                lemma_fits_next(before, step_start, told, next);
            }
            if !walked {
                proof {
                    lemma_handed_after(before, step_start, told, next, all);
                    lemma_counted_chain(
                        before,
                        step_start,
                        self.visitors@,
                        told,
                        handed(step_start, next),
                    );
                }
                return false;
            }
            proof {
                lemma_handed_all(step_start, next);
                lemma_counted_chain(before, step_start, self.visitors@, told, next);
            }
            k = k + 1;
        }
        self.current.pop();
        self.path.pop();
        self.visited.set(cell_index, false);
        proof {
            assert(self.current@ =~= word);
            assert(self.path@ =~= trail);
            assert(self.visited@ =~= marks);
            lemma_handed_all(before, all);
        }
        true
    }

    /// Tells every visitor, in registration order, of the word that the walk
    /// in progress spells, if every visitor has room for it; else no visitor
    /// is told. Says whether the visitors were told.
    fn visit(&mut self) -> (told: bool)
        requires
            all_inv(old(self).visitors@),
        ensures
            final(self).context == old(self).context,
            final(self).board == old(self).board,
            final(self).visited == old(self).visited,
            final(self).current == old(self).current,
            final(self).path == old(self).path,
            told == fits_all(
                old(self).visitors@,
                seq![WordEvent { word: old(self).current@, path: old(self).path@ }],
            ),
            told ==> all_counted(
                old(self).visitors@,
                final(self).visitors@,
                seq![WordEvent { word: old(self).current@, path: old(self).path@ }],
            ),
            !told ==> final(self).visitors@ == old(self).visitors@,
    {
        let ghost before = self.visitors@;
        let ghost event = WordEvent { word: self.current@, path: self.path@ };
        let n: usize = self.visitors.len();
        let mut i: usize = 0;
        while i < n
            invariant
                i <= n,
                n == before.len(),
                self.visitors@ == before,
                all_inv(before),
                self.context == old(self).context,
                self.board == old(self).board,
                self.visited == old(self).visited,
                self.current == old(self).current,
                self.path == old(self).path,
                event == (WordEvent { word: self.current@, path: self.path@ }),
                forall|j: int|
                    0 <= j < i ==> accepts_all::<V>((#[trigger] before[j]).tally(), seq![event]),
            decreases n - i,
        {
            proof {
                assert(before[i as int].inv());
                lemma_tally_single::<V>(before[i as int].tally(), event);
            }
            if !self.visitors[i].has_room(self.current.as_str(), &self.path) {
                return false;
            }
            i = i + 1;
        }
        let mut i: usize = 0;
        while i < n
            invariant
                i <= n,
                n == before.len(),
                self.visitors@.len() == n,
                self.context == old(self).context,
                self.board == old(self).board,
                self.visited == old(self).visited,
                self.current == old(self).current,
                self.path == old(self).path,
                event == (WordEvent { word: self.current@, path: self.path@ }),
                all_inv(before),
                fits_all(before, seq![event]),
                forall|j: int| i <= j < n ==> self.visitors@[j] == before[j],
                forall|j: int|
                    0 <= j < i ==> (#[trigger] self.visitors@[j]).inv() && self.visitors@[j].tally()
                        == tally_after::<V>(before[j].tally(), seq![event]),
            decreases n - i,
        {
            proof {
                assert(before[i as int].inv());
                lemma_tally_single::<V>(before[i as int].tally(), event);
            }
            self.visitors[i].visit(self.current.as_str(), &self.path);
            i = i + 1;
        }
        true
    }

    /// The letter of the cell kept at `index`.
    fn cell_value(&self, index: usize) -> (letter: char)
        requires
            index < self.board@.len(),
        ensures
            letter == self.board@[index as int],
    {
        self.board[index]
    }
}

/// What is left of the words of `dict` that start with `prefix`, once that
/// start is taken off.
pub open spec fn residual(dict: Set<Seq<char>>, prefix: Seq<char>) -> Set<Seq<char>> {
    Set::new(|rest: Seq<char>| dict.contains(prefix + rest))
}

/// Nothing taken off, the whole dictionary is left.
pub proof fn lemma_residual_of_nothing(dict: Set<Seq<char>>)
    ensures
        residual(dict, Seq::empty()) == dict,
{
    assert forall|w: Seq<char>| residual(dict, Seq::empty()).contains(w) == dict.contains(w) by {
        assert(Seq::<char>::empty() + w =~= w);
    }
    assert(residual(dict, Seq::empty()) =~= dict);
}

/// Taking one more character off is following that character in what is left.
pub proof fn lemma_residual_step(dict: Set<Seq<char>>, prefix: Seq<char>, c: char)
    ensures
        residual(dict, prefix.push(c)) == tails(residual(dict, prefix), c),
{
    assert forall|w: Seq<char>| residual(dict, prefix.push(c)).contains(w) == tails(
        residual(dict, prefix),
        c,
    ).contains(w) by {
        assert(prefix.push(c) + w =~= prefix + (seq![c] + w));
    }
    assert(residual(dict, prefix.push(c)) =~= tails(residual(dict, prefix), c));
}

/// A place is on the lengthened trail if it was on the trail or is the place
/// just entered.
proof fn lemma_trail_push(trail: Seq<u16>, place: int, i: int)
    requires
        0 <= place <= u16::MAX,
        0 <= i <= u16::MAX,
    ensures
        trail.push(place as u16).contains(i as u16) == (trail.contains(i as u16) || i == place),
{
    let longer = trail.push(place as u16);
    assert(longer[trail.len() as int] == place as u16);
    if trail.contains(i as u16) {
        let at = choose|at: int| 0 <= at < trail.len() && trail[at] == i as u16;
        assert(longer[at] == i as u16);
    }
    if longer.contains(i as u16) && i != place {
        let at = choose|at: int| 0 <= at < longer.len() && longer[at] == i as u16;
        assert(trail[at] == i as u16);
    }
}

/// Where no word of the dictionary starts as `word` does, no walk that
/// continues `word` is reported: the search loses nothing by turning back.
pub proof fn lemma_barren_around(
    grid: Grid,
    dict: Set<Seq<char>>,
    word: Seq<char>,
    path: Seq<u16>,
    x: int,
    y: int,
    k: nat,
)
    requires
        grid.searchable(),
        residual(dict, lower_word(word)) == Set::<Seq<char>>::empty(),
    ensures
        found(dict, word, path) == Seq::<WordEvent>::empty(),
        around_events(grid, dict, word, path, x, y, k) == Seq::<WordEvent>::empty(),
    decreases unvisited(path).len(), k,
{
    let lower = lower_word(word);
    assert(!dict.contains(lower)) by {
        assert(lower + Seq::<char>::empty() =~= lower);
        assert(!residual(dict, lower).contains(Seq::<char>::empty()));
    }
    if k > 0 {
        let j = (k - 1) as nat;
        lemma_barren_around(grid, dict, word, path, x, y, j);
        let nx = x + row_step(j as int);
        let ny = y + col_step(j as int);
        if grid.holds(nx, ny) && !path.contains(grid.index(nx, ny) as u16) {
            let place = grid.index(nx, ny);
            let longer_word = word.push(grid.cells[place]);
            let longer_path = path.push(place as u16);
            let c = ascii_lower(grid.cells[place]);
            lemma_visit_shrinks(path, place);
            assert(lower_word(longer_word) =~= lower.push(c));
            assert forall|w: Seq<char>| !residual(dict, lower.push(c)).contains(w) by {
                assert(lower.push(c) + w =~= lower + (seq![c] + w));
                assert(!residual(dict, lower).contains(seq![c] + w));
            }
            assert(residual(dict, lower_word(longer_word)) =~= Set::<Seq<char>>::empty());
            lemma_barren_around(grid, dict, longer_word, longer_path, nx, ny, 8);
        }
        assert(cell_events(grid, dict, word, path, nx, ny) =~= Seq::<WordEvent>::empty());
        assert(around_events(grid, dict, word, path, x, y, k) =~= Seq::<WordEvent>::empty());
    }
}

} // verus!
