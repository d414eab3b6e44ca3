//! What a search of a grid reports, as a mathematical value.
//!
//! A search walks the grid from every cell, stepping to the eight
//! neighbours of a cell and never entering a cell that the walk already
//! holds. Each walk whose letters spell a word of the dictionary is reported
//! as a [`WordEvent`]. The functions here define the sequence of reports for a
//! grid and a dictionary, in the order in which they are made.

use vstd::prelude::*;
use vstd::set_lib::*;

verus! {

/// A rectangular arrangement of letters. The cell at `(x, y)` is kept at
/// `x * width + y` in `cells`, for `x` below `width` and `y` below `length`.
pub struct Grid {
    pub cells: Seq<char>,
    pub width: int,
    pub length: int,
}

/// A word found in the grid, with the cells that spell it in order.
pub struct WordEvent {
    pub word: Seq<char>,
    pub path: Seq<u16>,
}

/// Where the cell `(x, y)` of a grid of the given width is kept.
pub open spec fn place(width: int, x: int, y: int) -> int {
    x * width + y
}

/// Whether a grid of these dimensions can be searched: every coordinate is
/// kept at a place below the number of cells that a `u16` can name.
pub open spec fn dims_searchable(width: int, length: int) -> bool {
    &&& 0 <= width
    &&& 0 <= length
    &&& forall|x: int, y: int|
        0 <= x < width && 0 <= y < length ==> 0 <= #[trigger] place(width, x, y) < width * length
            && place(width, x, y) <= u16::MAX
}

/// A grid that can be searched has at most 2^24 cells.
pub proof fn lemma_searchable_count(width: int, length: int)
    requires
        dims_searchable(width, length),
    ensures
        0 <= width * length <= 0x100_0000,
{
    if width == 0 || length == 0 {
        assert(width * length == 0) by (nonlinear_arith)
            requires
                width == 0 || length == 0,
        ;
    } else {
        let last = place(width, width - 1, length - 1);
        assert(last <= u16::MAX);
        assert(width <= 256 && length <= 65536) by (nonlinear_arith)
            requires
                (width - 1) * width + (length - 1) <= 65535,
                width >= 1,
                length >= 1,
        ;
        assert(0 <= width * length <= 256 * 65536) by (nonlinear_arith)
            requires
                1 <= width <= 256,
                1 <= length <= 65536,
        ;
    }
}

impl Grid {
    /// Whether `(x, y)` is a coordinate of the grid.
    pub open spec fn holds(self, x: int, y: int) -> bool {
        0 <= x < self.width && 0 <= y < self.length
    }

    /// Where the cell `(x, y)` is kept in `cells`.
    pub open spec fn index(self, x: int, y: int) -> int {
        place(self.width, x, y)
    }

    /// Whether the grid can be searched: it has as many cells as its
    /// dimensions say, and they are dimensions that can be searched.
    pub open spec fn searchable(self) -> bool {
        &&& self.cells.len() == self.width * self.length
        &&& dims_searchable(self.width, self.length)
    }
}

/// The lower-case form of an ASCII capital; any other character unchanged.
pub open spec fn ascii_lower(c: char) -> char {
    if 'A' <= c && c <= 'Z' {
        ((c as u8) + 32) as u8 as char
    } else {
        c
    }
}

/// `word` with each character in lower case.
pub open spec fn lower_word(word: Seq<char>) -> Seq<char> {
    Seq::new(word.len(), |i: int| ascii_lower(word[i]))
}

/// Row offset of the `k`-th neighbour, for `k` from 0 to 7.
pub open spec fn row_step(k: int) -> int {
    if k < 3 {
        -1
    } else if k < 5 {
        0
    } else {
        1
    }
}

/// Column offset of the `k`-th neighbour, for `k` from 0 to 7.
pub open spec fn col_step(k: int) -> int {
    if k == 0 || k == 3 || k == 5 {
        -1
    } else if k == 1 || k == 6 {
        0
    } else {
        1
    }
}

/// The places that `path` has not entered.
pub open spec fn unvisited(path: Seq<u16>) -> Set<int> {
    Set::new(|i: int| 0 <= i <= u16::MAX && !path.contains(i as u16))
}

/// Entering a place that the path does not hold leaves fewer places to enter.
pub proof fn lemma_visit_shrinks(path: Seq<u16>, place: int)
    requires
        0 <= place <= u16::MAX,
        !path.contains(place as u16),
    ensures
        unvisited(path).finite(),
        unvisited(path.push(place as u16)).len() < unvisited(path).len(),
{
    let all = set_int_range(0, u16::MAX + 1);
    lemma_int_range(0, u16::MAX + 1);
    assert(unvisited(path).subset_of(all));
    lemma_set_subset_finite(all, unvisited(path));
    let longer = path.push(place as u16);
    assert(longer[path.len() as int] == place as u16);
    assert forall|i: int| unvisited(path).remove(place).contains(i) == unvisited(longer).contains(
        i,
    ) by {
        if 0 <= i <= u16::MAX {
            if path.contains(i as u16) {
                let at = choose|at: int| 0 <= at < path.len() && path[at] == i as u16;
                assert(longer[at] == i as u16);
            }
            if longer.contains(i as u16) && i != place {
                let at = choose|at: int| 0 <= at < longer.len() && longer[at] == i as u16;
                assert(path[at] == i as u16);
            }
        }
    }
    assert(unvisited(path).remove(place) =~= unvisited(longer));
    assert(unvisited(path).contains(place));
}

/// The report made on reaching `word` by `path`: one event if the dictionary
/// holds the word in lower case, none otherwise.
pub open spec fn found(dict: Set<Seq<char>>, word: Seq<char>, path: Seq<u16>) -> Seq<WordEvent> {
    if dict.contains(lower_word(word)) {
        seq![WordEvent { word, path }]
    } else {
        Seq::empty()
    }
}

/// The reports of the walks that continue `path`, which spells `word`, by
/// entering `(x, y)`. There are none if `(x, y)` is off the grid or if the
/// path already holds that cell.
pub open spec fn cell_events(
    grid: Grid,
    dict: Set<Seq<char>>,
    word: Seq<char>,
    path: Seq<u16>,
    x: int,
    y: int,
) -> Seq<WordEvent>
    decreases unvisited(path).len(), 0nat,
    when grid.searchable()
{
    if !grid.holds(x, y) || path.contains(grid.index(x, y) as u16) {
        Seq::empty()
    } else {
        let place = grid.index(x, y);
        let longer_word = word.push(grid.cells[place]);
        let longer_path = path.push(place as u16);
        proof {
            lemma_visit_shrinks(path, place);
        }
        found(dict, longer_word, longer_path) + around_events(
            grid,
            dict,
            longer_word,
            longer_path,
            x,
            y,
            8,
        )
    }
}

/// The reports of the walks that continue `path`, which ends at `(x, y)`,
/// into one of the first `k` neighbours of `(x, y)`.
pub open spec fn around_events(
    grid: Grid,
    dict: Set<Seq<char>>,
    word: Seq<char>,
    path: Seq<u16>,
    x: int,
    y: int,
    k: nat,
) -> Seq<WordEvent>
    decreases unvisited(path).len(), k + 1,
    when grid.searchable()
{
    if k == 0 {
        Seq::empty()
    } else {
        let j = (k - 1) as nat;
        around_events(grid, dict, word, path, x, y, j) + cell_events(
            grid,
            dict,
            word,
            path,
            x + row_step(j as int),
            y + col_step(j as int),
        )
    }
}

/// The reports of the walks that start in row `x` at a column below `y`.
pub open spec fn row_events(grid: Grid, dict: Set<Seq<char>>, x: int, y: nat) -> Seq<WordEvent>
    decreases y,
{
    if y == 0 {
        Seq::empty()
    } else {
        row_events(grid, dict, x, (y - 1) as nat) + cell_events(
            grid,
            dict,
            Seq::empty(),
            Seq::empty(),
            x,
            y - 1,
        )
    }
}

/// The reports of the walks that start in a row below `x`.
pub open spec fn rows_events(grid: Grid, dict: Set<Seq<char>>, x: nat) -> Seq<WordEvent>
    decreases x,
{
    if x == 0 {
        Seq::empty()
    } else {
        rows_events(grid, dict, (x - 1) as nat) + row_events(
            grid,
            dict,
            x - 1,
            grid.length as nat,
        )
    }
}

/// Every report of a search of `grid` against `dict`, in the order in which
/// the search makes them: starting cells row by row, and from each cell the
/// neighbours in their fixed order, depth first.
pub open spec fn search_events(grid: Grid, dict: Set<Seq<char>>) -> Seq<WordEvent> {
    rows_events(grid, dict, grid.width as nat)
}

/// The reports for the first neighbours are the start of the reports for
/// more of them.
pub proof fn lemma_around_grows(
    grid: Grid,
    dict: Set<Seq<char>>,
    word: Seq<char>,
    path: Seq<u16>,
    x: int,
    y: int,
    few: nat,
    many: nat,
)
    requires
        grid.searchable(),
        few <= many,
    ensures
        around_events(grid, dict, word, path, x, y, few).is_prefix_of(
            around_events(grid, dict, word, path, x, y, many),
        ),
    decreases many,
{
    if few < many {
        lemma_around_grows(grid, dict, word, path, x, y, few, (many - 1) as nat);
    }
}

/// The reports for the first columns of a row are the start of the reports
/// for more of them.
pub proof fn lemma_row_grows(grid: Grid, dict: Set<Seq<char>>, x: int, few: nat, many: nat)
    requires
        few <= many,
    ensures
        row_events(grid, dict, x, few).is_prefix_of(row_events(grid, dict, x, many)),
    decreases many,
{
    if few < many {
        lemma_row_grows(grid, dict, x, few, (many - 1) as nat);
    }
}

/// The reports for the first rows are the start of the reports for more of
/// them.
pub proof fn lemma_rows_grow(grid: Grid, dict: Set<Seq<char>>, few: nat, many: nat)
    requires
        few <= many,
    ensures
        rows_events(grid, dict, few).is_prefix_of(rows_events(grid, dict, many)),
    decreases many,
{
    if few < many {
        lemma_rows_grow(grid, dict, few, (many - 1) as nat);
    }
}

/// The letters of the cells that `path` names, in order.
pub open spec fn spelled(grid: Grid, path: Seq<u16>) -> Seq<char> {
    Seq::new(path.len(), |k: int| grid.cells[path[k] as int])
}

/// Whether `b` is one of the eight neighbours of `a`.
pub open spec fn adjacent(a: (int, int), b: (int, int)) -> bool {
    a != b && -1 <= b.0 - a.0 <= 1 && -1 <= b.1 - a.1 <= 1
}

/// Whether `steps` are coordinates of the grid, each a neighbour of the one
/// before, that are kept at the places that `path` names.
pub open spec fn traced_by(grid: Grid, path: Seq<u16>, steps: Seq<(int, int)>) -> bool {
    &&& steps.len() == path.len()
    &&& forall|k: int|
        0 <= k < steps.len() ==> grid.holds((#[trigger] steps[k]).0, steps[k].1) && grid.index(
            steps[k].0,
            steps[k].1,
        ) == path[k]
    &&& forall|k: int| 0 < k < steps.len() ==> adjacent(steps[k - 1], #[trigger] steps[k])
}

/// Whether `path` can be walked on the grid from neighbour to neighbour.
pub open spec fn is_walk(grid: Grid, path: Seq<u16>) -> bool {
    exists|steps: Seq<(int, int)>| traced_by(grid, path, steps)
}

/// Whether `event` reports a word of the dictionary that the grid holds:
/// its path is a walk that enters no cell twice, and its word is what the
/// cells of the path spell.
pub open spec fn valid_event(grid: Grid, dict: Set<Seq<char>>, event: WordEvent) -> bool {
    &&& event.path.len() > 0
    &&& event.path.no_duplicates()
    &&& is_walk(grid, event.path)
    &&& event.word == spelled(grid, event.path)
    &&& dict.contains(lower_word(event.word))
}

/// Whether every one of `events` is valid.
pub open spec fn all_valid(grid: Grid, dict: Set<Seq<char>>, events: Seq<WordEvent>) -> bool {
    forall|i: int| 0 <= i < events.len() ==> valid_event(grid, dict, #[trigger] events[i])
}

/// Every report of the walks that continue a walk into `(x, y)` is valid.
pub proof fn lemma_cell_events_valid(
    grid: Grid,
    dict: Set<Seq<char>>,
    word: Seq<char>,
    path: Seq<u16>,
    steps: Seq<(int, int)>,
    x: int,
    y: int,
)
    requires
        grid.searchable(),
        path.no_duplicates(),
        word == spelled(grid, path),
        traced_by(grid, path, steps),
        path.len() > 0 ==> adjacent(steps.last(), (x, y)),
    ensures
        all_valid(grid, dict, cell_events(grid, dict, word, path, x, y)),
    decreases unvisited(path).len(), 0nat,
{
    if grid.holds(x, y) && !path.contains(grid.index(x, y) as u16) {
        let place = grid.index(x, y);
        let longer_word = word.push(grid.cells[place]);
        let longer_path = path.push(place as u16);
        let longer_steps = steps.push((x, y));
        lemma_visit_shrinks(path, place);
        assert(longer_word =~= spelled(grid, longer_path));
        assert(longer_path.no_duplicates()) by {
            assert forall|i: int, j: int|
                0 <= i < longer_path.len() && 0 <= j < longer_path.len() && i != j implies longer_path[i]
                != longer_path[j] by {
                if i < path.len() && j < path.len() {
                } else if i < path.len() {
                    assert(path[i] == longer_path[i]);
                } else {
                    assert(path[j] == longer_path[j]);
                }
            }
        }
        assert(traced_by(grid, longer_path, longer_steps)) by {
            assert forall|k: int| 0 <= k < longer_steps.len() implies grid.holds(
                (#[trigger] longer_steps[k]).0,
                longer_steps[k].1,
            ) && grid.index(longer_steps[k].0, longer_steps[k].1) == longer_path[k] by {
                if k < steps.len() {
                    assert(longer_steps[k] == steps[k]);
                }
            }
            assert forall|k: int| 0 < k < longer_steps.len() implies adjacent(
                longer_steps[k - 1],
                #[trigger] longer_steps[k],
            ) by {
                if k < steps.len() {
                    assert(longer_steps[k] == steps[k]);
                    assert(longer_steps[k - 1] == steps[k - 1]);
                } else {
                    assert(longer_steps[k - 1] == steps.last());
                }
            }
        }
        assert(is_walk(grid, longer_path));
        lemma_around_events_valid(grid, dict, longer_word, longer_path, longer_steps, x, y, 8);
    }
}

/// Every report of the walks that continue a walk into a neighbour of its
/// last cell is valid.
pub proof fn lemma_around_events_valid(
    grid: Grid,
    dict: Set<Seq<char>>,
    word: Seq<char>,
    path: Seq<u16>,
    steps: Seq<(int, int)>,
    x: int,
    y: int,
    k: nat,
)
    requires
        grid.searchable(),
        path.no_duplicates(),
        word == spelled(grid, path),
        traced_by(grid, path, steps),
        path.len() > 0,
        steps.last() == (x, y),
        k <= 8,
    ensures
        all_valid(grid, dict, around_events(grid, dict, word, path, x, y, k)),
    decreases unvisited(path).len(), k + 1,
{
    if k > 0 {
        let j = (k - 1) as nat;
        lemma_around_events_valid(grid, dict, word, path, steps, x, y, j);
        lemma_cell_events_valid(
            grid,
            dict,
            word,
            path,
            steps,
            x + row_step(j as int),
            y + col_step(j as int),
        );
    }
}

/// Every report of the walks that start in the first columns of a row is
/// valid.
pub proof fn lemma_row_events_valid(grid: Grid, dict: Set<Seq<char>>, x: int, y: nat)
    requires
        grid.searchable(),
    ensures
        all_valid(grid, dict, row_events(grid, dict, x, y)),
    decreases y,
{
    if y > 0 {
        lemma_row_events_valid(grid, dict, x, (y - 1) as nat);
        let nowhere = Seq::<u16>::empty();
        assert(spelled(grid, nowhere) =~= Seq::<char>::empty());
        lemma_cell_events_valid(
            grid,
            dict,
            Seq::empty(),
            nowhere,
            Seq::<(int, int)>::empty(),
            x,
            y - 1,
        );
    }
}

/// Every report of the walks that start in the first rows is valid.
pub proof fn lemma_rows_events_valid(grid: Grid, dict: Set<Seq<char>>, x: nat)
    requires
        grid.searchable(),
    ensures
        all_valid(grid, dict, rows_events(grid, dict, x)),
    decreases x,
{
    if x > 0 {
        lemma_rows_events_valid(grid, dict, (x - 1) as nat);
        lemma_row_events_valid(grid, dict, x - 1, grid.length as nat);
    }
}

} // verus!
