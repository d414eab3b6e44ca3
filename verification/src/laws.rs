//! What holds of every search and of every report.

use vstd::prelude::*;
use crate::boggle_board_solver::{
    findings_of, BoggleBoardResult, BoggleBoardSolverVisitor, Findings,
};
use crate::histogram::{
    by_len, by_score, count_by, lemma_count_positive, lemma_count_push, lemma_sum_of_lengths,
    lemma_sum_of_scores, lemma_total_is_len, score_histogram, sum_below, sum_of,
};
use crate::scoring::word_score;
use crate::search_model::{
    adjacent, all_valid, around_events, cell_events, col_step, found, is_walk, lemma_around_grows,
    lemma_row_grows, lemma_rows_events_valid, lemma_rows_grow, lemma_visit_shrinks, lower_word,
    place, row_events, row_step, rows_events, search_events, spelled, traced_by, unvisited,
    valid_event, Grid, WordEvent,
};
use crate::total_boggle_score_calculator::{total_score_of, ScoreTally, TotalScoreWordVisitor};
use crate::visitor::{accepts_all, tally_after};

verus! {

/// The words of `events`, in order.
pub open spec fn words_of(events: Seq<WordEvent>) -> Seq<Seq<char>> {
    Seq::new(events.len(), |k: int| events[k].word)
}

/// The paths of `events`, in order.
pub open spec fn paths_of(events: Seq<WordEvent>) -> Seq<Seq<u16>> {
    Seq::new(events.len(), |k: int| events[k].path)
}

/// The full report of `events`.
pub open spec fn report_of(events: Seq<WordEvent>) -> Findings {
    tally_after::<BoggleBoardSolverVisitor>(Findings::none(), events)
}

/// The sum of the scores of `words`.
pub open spec fn score_sum(words: Seq<Seq<char>>) -> nat
    decreases words.len(),
{
    if words.len() == 0 {
        0
    } else {
        score_sum(words.drop_last()) + word_score(words.last())
    }
}

/// The number of the neighbour that lies `dx` rows and `dy` columns away.
pub open spec fn step_number(dx: int, dy: int) -> int {
    if dx == -1 {
        dy + 1
    } else if dx == 0 {
        if dy == -1 {
            3
        } else {
            4
        }
    } else {
        dy + 6
    }
}

/// What a part of a sequence holds, the whole holds.
proof fn lemma_contains_add<A>(first: Seq<A>, rest: Seq<A>, a: A)
    requires
        first.contains(a) || rest.contains(a),
    ensures
        (first + rest).contains(a),
{
    if first.contains(a) {
        let i = choose|i: int| 0 <= i < first.len() && first[i] == a;
        assert((first + rest)[i] == a);
    } else {
        let i = choose|i: int| 0 <= i < rest.len() && rest[i] == a;
        assert((first + rest)[first.len() + i] == a);
    }
}

/// What the start of a sequence holds, the whole holds.
proof fn lemma_contains_prefix<A>(start: Seq<A>, whole: Seq<A>, a: A)
    requires
        start.is_prefix_of(whole),
        start.contains(a),
    ensures
        whole.contains(a),
{
    let i = choose|i: int| 0 <= i < start.len() && start[i] == a;
    assert(whole[i] == a);
}

/// A sequence with one more element holds that element and what it held.
proof fn lemma_push_to_set<A>(s: Seq<A>, a: A)
    ensures
        s.push(a).to_set() == s.to_set().insert(a),
        s.push(a).no_duplicates() <==> s.no_duplicates() && !s.contains(a),
{
    let longer = s.push(a);
    assert(longer[s.len() as int] == a);
    assert forall|x: A| longer.to_set().contains(x) == s.to_set().insert(a).contains(x) by {
        if s.contains(x) {
            let i = choose|i: int| 0 <= i < s.len() && s[i] == x;
            assert(longer[i] == x);
        }
        if longer.contains(x) && x != a {
            let i = choose|i: int| 0 <= i < longer.len() && longer[i] == x;
            assert(s[i] == x);
        }
    }
    assert(longer.to_set() =~= s.to_set().insert(a));
    if longer.no_duplicates() {
        assert forall|i: int, j: int| 0 <= i < s.len() && 0 <= j < s.len() && i != j implies s[i]
            != s[j] by {
            assert(longer[i] == s[i] && longer[j] == s[j]);
        }
        if s.contains(a) {
            let i = choose|i: int| 0 <= i < s.len() && s[i] == a;
            assert(longer[i] == longer[s.len() as int]);
        }
    }
    if s.no_duplicates() && !s.contains(a) {
        assert forall|i: int, j: int|
            0 <= i < longer.len() && 0 <= j < longer.len() && i != j implies longer[i]
            != longer[j] by {
            if i < s.len() {
                assert(longer[i] == s[i]);
            }
            if j < s.len() {
                assert(longer[j] == s[j]);
            }
        }
    }
}

/// A walk on the grid that enters no cell twice and spells a word of the
/// dictionary is reported by the walks that continue its first `m - 1`
/// steps into its `m`-th.
proof fn lemma_walk_reported_from(
    grid: Grid,
    dict: Set<Seq<char>>,
    path: Seq<u16>,
    steps: Seq<(int, int)>,
    m: int,
)
    requires
        grid.searchable(),
        traced_by(grid, path, steps),
        path.no_duplicates(),
        dict.contains(lower_word(spelled(grid, path))),
        1 <= m <= path.len(),
    ensures
        cell_events(
            grid,
            dict,
            spelled(grid, path.take(m - 1)),
            path.take(m - 1),
            steps[m - 1].0,
            steps[m - 1].1,
        ).contains(WordEvent { word: spelled(grid, path), path }),
    decreases path.len() - m,
{
    let event = WordEvent { word: spelled(grid, path), path };
    let before = path.take(m - 1);
    let (x, y) = steps[m - 1];
    let place = grid.index(x, y);
    assert(grid.holds(x, y) && place == path[m - 1]);
    assert(!before.contains(place as u16)) by {
        if before.contains(place as u16) {
            let i = choose|i: int| 0 <= i < before.len() && before[i] == place as u16;
            assert(path[i] == path[m - 1]);
        }
    }
    let longer_word = spelled(grid, before).push(grid.cells[place]);
    let longer_path = before.push(place as u16);
    assert(longer_path =~= path.take(m));
    assert(longer_word =~= spelled(grid, path.take(m)));
    let here = found(dict, longer_word, longer_path);
    let around = around_events(grid, dict, longer_word, longer_path, x, y, 8);
    lemma_visit_shrinks(before, place);
    assert(cell_events(grid, dict, spelled(grid, before), before, x, y) == here + around);
    if m == path.len() {
        assert(path.take(m) =~= path);
        assert(here[0] == event);
    } else {
        let (nx, ny) = steps[m];
        assert(adjacent(steps[m - 1], steps[m]));
        let j = step_number(nx - x, ny - y);
        assert(0 <= j < 8 && nx == x + row_step(j) && ny == y + col_step(j));
        lemma_walk_reported_from(grid, dict, path, steps, m + 1);
        let upto = around_events(grid, dict, longer_word, longer_path, x, y, (j + 1) as nat);
        lemma_contains_add(
            around_events(grid, dict, longer_word, longer_path, x, y, j as nat),
            cell_events(grid, dict, longer_word, longer_path, nx, ny),
            event,
        );
        lemma_around_grows(grid, dict, longer_word, longer_path, x, y, (j + 1) as nat, 8);
        lemma_contains_prefix(upto, around, event);
    }
    lemma_contains_add(here, around, event);
}

/// The search misses nothing: every walk on the grid that enters no cell
/// twice and spells a word of the dictionary is among the reports.
pub proof fn lemma_walk_is_reported(
    grid: Grid,
    dict: Set<Seq<char>>,
    path: Seq<u16>,
    steps: Seq<(int, int)>,
)
    requires
        grid.searchable(),
        path.len() > 0,
        traced_by(grid, path, steps),
        path.no_duplicates(),
        dict.contains(lower_word(spelled(grid, path))),
    ensures
        search_events(grid, dict).contains(WordEvent { word: spelled(grid, path), path }),
{
    let event = WordEvent { word: spelled(grid, path), path };
    let (x, y) = steps[0];
    assert(grid.holds(x, y));
    lemma_walk_reported_from(grid, dict, path, steps, 1);
    assert(path.take(0) =~= Seq::<u16>::empty());
    assert(spelled(grid, path.take(0)) =~= Seq::<char>::empty());
    let from_start = cell_events(grid, dict, Seq::empty(), Seq::empty(), x, y);
    assert(from_start.contains(event));
    lemma_contains_add(row_events(grid, dict, x, y as nat), from_start, event);
    assert(row_events(grid, dict, x, (y + 1) as nat) == row_events(grid, dict, x, y as nat)
        + from_start);
    lemma_row_grows(grid, dict, x, (y + 1) as nat, grid.length as nat);
    let row = row_events(grid, dict, x, grid.length as nat);
    lemma_contains_prefix(row_events(grid, dict, x, (y + 1) as nat), row, event);
    lemma_contains_add(rows_events(grid, dict, x as nat), row, event);
    assert(rows_events(grid, dict, (x + 1) as nat) == rows_events(grid, dict, x as nat) + row);
    lemma_rows_grow(grid, dict, (x + 1) as nat, grid.width as nat);
    lemma_contains_prefix(
        rows_events(grid, dict, (x + 1) as nat),
        search_events(grid, dict),
        event,
    );
}

/// The search reports nothing wrong: every report is a walk on the grid
/// that enters no cell twice, with the word that its cells spell, and the
/// dictionary holds that word in lower case.
pub proof fn lemma_reports_are_walks(grid: Grid, dict: Set<Seq<char>>)
    requires
        grid.searchable(),
    ensures
        all_valid(grid, dict, search_events(grid, dict)),
{
    lemma_rows_events_valid(grid, dict, grid.width as nat);
}

/// A full report holds the path of every event in order, and each word of
/// the events once, in the order of first occurrence. It holds as many
/// words as paths exactly if no word was reported twice.
pub proof fn lemma_report(events: Seq<WordEvent>)
    ensures
        report_of(events).paths == paths_of(events),
        report_of(events).words.no_duplicates(),
        report_of(events).words.to_set() == words_of(events).to_set(),
        report_of(events).words.len() <= events.len(),
        report_of(events).words.len() == events.len() <==> words_of(events).no_duplicates(),
    decreases events.len(),
{
    let report = report_of(events);
    if events.len() == 0 {
        assert(report.paths =~= paths_of(events));
        assert(report.words.to_set() =~= words_of(events).to_set());
    } else {
        let front = events.drop_last();
        let last = events.last();
        let so_far = report_of(front);
        lemma_report(front);
        assert(report == so_far.with(last.word, last.path));
        assert(paths_of(events) =~= paths_of(front).push(last.path));
        assert(words_of(events) =~= words_of(front).push(last.word));
        lemma_push_to_set(words_of(front), last.word);
        lemma_push_to_set(so_far.words, last.word);
        assert(so_far.words.contains(last.word) == words_of(front).contains(last.word)) by {
            assert(so_far.words.to_set().contains(last.word) == words_of(front).to_set().contains(
                last.word,
            ));
        }
        if so_far.words.contains(last.word) {
            assert(report.words.to_set() =~= words_of(events).to_set());
        }
    }
}

/// Round trip: every word of a search's full report has an entry among the
/// report's paths that is a walk on the grid, enters no cell twice and spells
/// the word; and the dictionary holds the word in lower case.
pub proof fn lemma_every_word_has_a_path(grid: Grid, dict: Set<Seq<char>>)
    requires
        grid.searchable(),
    ensures
        forall|word: Seq<char>| #[trigger]
            findings_of(grid, dict).words.contains(word) ==> dict.contains(lower_word(word))
                && exists|i: int|
                0 <= i < findings_of(grid, dict).paths.len() && spelled(
                    grid,
                    #[trigger] findings_of(grid, dict).paths[i],
                ) == word && findings_of(grid, dict).paths[i].no_duplicates() && is_walk(
                    grid,
                    findings_of(grid, dict).paths[i],
                ),
{
    let events = search_events(grid, dict);
    let report = findings_of(grid, dict);
    lemma_report(events);
    lemma_reports_are_walks(grid, dict);
    assert forall|word: Seq<char>| #[trigger] report.words.contains(word) implies dict.contains(
        lower_word(word),
    ) && exists|i: int|
        0 <= i < report.paths.len() && spelled(grid, #[trigger] report.paths[i]) == word
            && report.paths[i].no_duplicates() && is_walk(grid, report.paths[i]) by {
        assert(report.words.to_set().contains(word));
        assert(words_of(events).contains(word));
        let k = choose|k: int| 0 <= k < events.len() && words_of(events)[k] == word;
        assert(valid_event(grid, dict, events[k]));
        assert(report.paths[k] == events[k].path);
    }
}

/// Path multiplicity: a search's full report never holds fewer paths than
/// words, and as many exactly if no word was reached by two walks.
pub proof fn lemma_paths_outnumber_words(grid: Grid, dict: Set<Seq<char>>)
    ensures
        findings_of(grid, dict).paths.len() >= findings_of(grid, dict).words.len(),
        findings_of(grid, dict).paths.len() == findings_of(grid, dict).words.len() <==> words_of(
            search_events(grid, dict),
        ).no_duplicates(),
{
    lemma_report(search_events(grid, dict));
}

/// Histogram consistency: in a consistent result the score histogram and
/// the length histogram each add up to the number of words, and the bucket
/// of every word's score counts at least that word.
pub proof fn lemma_histograms_add_up(result: &BoggleBoardResult)
    requires
        result.inv(),
    ensures
        sum_of(result.stored_scores()) == result.found_words().len(),
        sum_below(result.stored_lengths(), (usize::MAX + 1) as nat) == result.found_words().len(),
        forall|i: int|
            0 <= i < result.found_words().len() ==> result.stored_scores()[word_score(
                #[trigger] result.found_words()[i],
            ) as int] >= 1,
{
    let words = result.found_words();
    result.lemma_inv();
    lemma_sum_of_scores(words, 12);
    assert(score_histogram(words).subrange(0, 12) =~= score_histogram(words));
    assert forall|i: int| 0 <= i < words.len() implies by_score()(#[trigger] words[i]) < 12 by {}
    lemma_total_is_len(words, by_score(), 12);
    lemma_sum_of_lengths(words, (usize::MAX + 1) as nat);
    assert forall|i: int| 0 <= i < words.len() implies by_len()(#[trigger] words[i]) < usize::MAX
        + 1 by {}
    lemma_total_is_len(words, by_len(), (usize::MAX + 1) as nat);
    assert forall|i: int| 0 <= i < words.len() implies result.stored_scores()[word_score(
        #[trigger] words[i],
    ) as int] >= 1 by {
        let score = word_score(words[i]);
        lemma_count_positive(words, by_score(), score);
        assert(by_score()(words[i]) == score);
        assert(count_by(words, by_score(), score) <= u32::MAX);
    }
}

/// Determinism: two consistent results of searching the same grid against
/// the same dictionary hold the same words in the same order, the same paths
/// in the same order, and the same histograms.
pub proof fn lemma_same_search_same_report(
    first: &BoggleBoardResult,
    second: &BoggleBoardResult,
    grid: Grid,
    dict: Set<Seq<char>>,
)
    requires
        first.inv(),
        second.inv(),
        first.findings() == findings_of(grid, dict),
        second.findings() == findings_of(grid, dict),
    ensures
        first.found_words() == second.found_words(),
        first.found_paths() == second.found_paths(),
        first.stored_scores() == second.stored_scores(),
        first.stored_lengths() == second.stored_lengths(),
{
    first.lemma_inv();
    second.lemma_inv();
}

/// A row of a grid without columns gives no report.
proof fn lemma_rows_without_cells(grid: Grid, dict: Set<Seq<char>>, x: nat)
    requires
        grid.length == 0,
    ensures
        rows_events(grid, dict, x) == Seq::<WordEvent>::empty(),
    decreases x,
{
    if x > 0 {
        lemma_rows_without_cells(grid, dict, (x - 1) as nat);
        assert(row_events(grid, dict, x - 1, 0) == Seq::<WordEvent>::empty());
        assert(Seq::<WordEvent>::empty() + Seq::<WordEvent>::empty() =~= Seq::<WordEvent>::empty());
    }
}

/// Empty grid: a grid without cells gives no report, so its full report is
/// empty and its total score is zero.
pub proof fn lemma_empty_grid(grid: Grid, dict: Set<Seq<char>>)
    requires
        grid.width == 0 || grid.length == 0,
        grid.width >= 0,
        grid.length >= 0,
    ensures
        search_events(grid, dict) == Seq::<WordEvent>::empty(),
        findings_of(grid, dict) == Findings::none(),
        total_score_of(grid, dict) == 0,
{
    if grid.width != 0 {
        lemma_rows_without_cells(grid, dict, grid.width as nat);
    }
}

/// The total score of a run of events is the sum of the scores of the words
/// of its full report: each distinct word counts once.
pub proof fn lemma_total_counts_each_word_once(events: Seq<WordEvent>)
    ensures
        tally_after::<TotalScoreWordVisitor>(ScoreTally::none(), events) == (ScoreTally {
            seen: report_of(events).words.to_set(),
            total: score_sum(report_of(events).words),
        }),
    decreases events.len(),
{
    let tally = tally_after::<TotalScoreWordVisitor>(ScoreTally::none(), events);
    let report = report_of(events);
    if events.len() == 0 {
        assert(report.words.to_set() =~= Set::<Seq<char>>::empty());
    } else {
        let front = events.drop_last();
        let last = events.last();
        lemma_total_counts_each_word_once(front);
        let so_far = report_of(front);
        assert(report == so_far.with(last.word, last.path));
        lemma_push_to_set(so_far.words, last.word);
        if !so_far.words.contains(last.word) {
            assert(so_far.words.push(last.word).drop_last() =~= so_far.words);
        }
        assert(tally.seen =~= report.words.to_set());
    }
}

/// Whether no two coordinates of the grid are kept at the same place.
pub open spec fn places_differ(grid: Grid) -> bool {
    forall|x: int, y: int, u: int, v: int|
        grid.holds(x, y) && grid.holds(u, v) && (x != u || y != v) ==> #[trigger] place(
            grid.width,
            x,
            y,
        ) != #[trigger] place(grid.width, u, v)
}

/// Whether no two of `events` have the same path.
pub open spec fn paths_differ(events: Seq<WordEvent>) -> bool {
    forall|i: int, j: int|
        0 <= i < events.len() && 0 <= j < events.len() && i != j ==> (#[trigger] events[i]).path
            != (#[trigger] events[j]).path
}

/// Whether `event` continues `path` into one of the first `k` neighbours of
/// `(x, y)`.
spec fn steps_on(
    event: WordEvent,
    path: Seq<u16>,
    grid: Grid,
    x: int,
    y: int,
    k: int,
) -> bool {
    &&& event.path.len() > path.len()
    &&& exists|j: int|
        0 <= j < k && grid.holds(x + row_step(j), y + col_step(j)) && event.path[path.len() as int]
            == #[trigger] place(grid.width, x + row_step(j), y + col_step(j)) as u16
}

/// Whether `event` starts at a cell of row `x` in a column below `y`.
spec fn starts_in_row(event: WordEvent, grid: Grid, x: int, y: int) -> bool {
    &&& event.path.len() > 0
    &&& exists|j: int|
        0 <= j < y && grid.holds(x, j) && event.path[0] == #[trigger] place(grid.width, x, j) as u16
}

/// Whether `event` starts at a cell of a row below `x`.
spec fn starts_above(event: WordEvent, grid: Grid, x: int) -> bool {
    &&& event.path.len() > 0
    &&& exists|r: int, j: int|
        0 <= r < x && grid.holds(r, j) && event.path[0] == #[trigger] place(grid.width, r, j) as u16
}

/// Two runs of events whose paths differ, and differ from one run to the
/// other, make one run of events whose paths differ.
proof fn lemma_paths_differ_add(first: Seq<WordEvent>, rest: Seq<WordEvent>)
    requires
        paths_differ(first),
        paths_differ(rest),
        forall|i: int, j: int|
            0 <= i < first.len() && 0 <= j < rest.len() ==> (#[trigger] first[i]).path != (
            #[trigger] rest[j]).path,
    ensures
        paths_differ(first + rest),
{
    let all = first + rest;
    assert forall|i: int, j: int| 0 <= i < all.len() && 0 <= j < all.len() && i != j implies (
    #[trigger] all[i]).path != (#[trigger] all[j]).path by {
        if i < first.len() {
            assert(all[i] == first[i]);
        } else {
            assert(all[i] == rest[i - first.len()]);
        }
        if j < first.len() {
            assert(all[j] == first[j]);
        } else {
            assert(all[j] == rest[j - first.len()]);
        }
    }
}

/// On a grid whose places differ, the walks that continue a walk into
/// `(x, y)` are reported with paths that differ, and each path goes on from
/// the walk through that cell.
proof fn lemma_cell_paths_differ(
    grid: Grid,
    dict: Set<Seq<char>>,
    word: Seq<char>,
    path: Seq<u16>,
    x: int,
    y: int,
)
    requires
        grid.searchable(),
        places_differ(grid),
    ensures
        paths_differ(cell_events(grid, dict, word, path, x, y)),
        forall|i: int|
            0 <= i < cell_events(grid, dict, word, path, x, y).len() ==> grid.holds(x, y) && (
            #[trigger] cell_events(grid, dict, word, path, x, y)[i]).path.len() > path.len()
                && cell_events(grid, dict, word, path, x, y)[i].path[path.len() as int] == place(
                grid.width,
                x,
                y,
            ) as u16,
    decreases unvisited(path).len(), 0nat,
{
    if grid.holds(x, y) && !path.contains(grid.index(x, y) as u16) {
        let at = grid.index(x, y);
        let longer_word = word.push(grid.cells[at]);
        let longer_path = path.push(at as u16);
        let here = found(dict, longer_word, longer_path);
        let around = around_events(grid, dict, longer_word, longer_path, x, y, 8);
        lemma_visit_shrinks(path, at);
        lemma_around_paths_differ(grid, dict, longer_word, longer_path, x, y, 8);
        assert forall|i: int, j: int| 0 <= i < here.len() && 0 <= j < around.len() implies (
        #[trigger] here[i]).path != (#[trigger] around[j]).path by {
            assert(steps_on(around[j], longer_path, grid, x, y, 8));
        }
        lemma_paths_differ_add(here, around);
        let all = here + around;
        assert forall|i: int| 0 <= i < all.len() implies (#[trigger] all[i]).path.len() > path.len()
            && all[i].path[path.len() as int] == place(grid.width, x, y) as u16 by {
            if i < here.len() {
                assert(all[i] == here[i]);
            } else {
                let e = around[i - here.len()];
                assert(all[i] == e);
                assert(steps_on(e, longer_path, grid, x, y, 8));
                assert(longer_path.is_prefix_of(e.path));
                assert(e.path[path.len() as int] == longer_path[path.len() as int]);
            }
        }
    }
}

/// On a grid whose places differ, the walks that continue a walk into the
/// neighbours of its last cell are reported with paths that differ, and each
/// path goes on from the walk into one of those neighbours.
proof fn lemma_around_paths_differ(
    grid: Grid,
    dict: Set<Seq<char>>,
    word: Seq<char>,
    path: Seq<u16>,
    x: int,
    y: int,
    k: nat,
)
    requires
        grid.searchable(),
        places_differ(grid),
        k <= 8,
    ensures
        paths_differ(around_events(grid, dict, word, path, x, y, k)),
        forall|i: int|
            0 <= i < around_events(grid, dict, word, path, x, y, k).len() ==> steps_on(
                #[trigger] around_events(grid, dict, word, path, x, y, k)[i],
                path,
                grid,
                x,
                y,
                k as int,
            ) && path.is_prefix_of(around_events(grid, dict, word, path, x, y, k)[i].path),
    decreases unvisited(path).len(), k + 1,
{
    if k > 0 {
        let j = (k - 1) as nat;
        let nx = x + row_step(j as int);
        let ny = y + col_step(j as int);
        let before = around_events(grid, dict, word, path, x, y, j);
        let next = cell_events(grid, dict, word, path, nx, ny);
        lemma_around_paths_differ(grid, dict, word, path, x, y, j);
        lemma_cell_paths_differ(grid, dict, word, path, nx, ny);
        lemma_cell_events_start(grid, dict, word, path, nx, ny);
        assert forall|a: int, b: int| 0 <= a < before.len() && 0 <= b < next.len() implies (
        #[trigger] before[a]).path != (#[trigger] next[b]).path by {
            assert(steps_on(before[a], path, grid, x, y, j as int));
            let other = choose|other: int|
                0 <= other < j && grid.holds(x + row_step(other), y + col_step(other))
                    && before[a].path[path.len() as int] == #[trigger] place(
                    grid.width,
                    x + row_step(other),
                    y + col_step(other),
                ) as u16;
            let far = place(grid.width, x + row_step(other), y + col_step(other));
            let near = place(grid.width, nx, ny);
            assert(grid.holds(nx, ny));
            assert(grid.index(nx, ny) == near);
            assert(grid.index(x + row_step(other), y + col_step(other)) == far);
            assert(far != near);
            assert(next[b].path[path.len() as int] == near as u16);
        }
        lemma_paths_differ_add(before, next);
        let all = before + next;
        assert forall|i: int| 0 <= i < all.len() implies steps_on(
            #[trigger] all[i],
            path,
            grid,
            x,
            y,
            k as int,
        ) && path.is_prefix_of(all[i].path) by {
            if i < before.len() {
                assert(all[i] == before[i]);
                assert(steps_on(before[i], path, grid, x, y, j as int));
                let other = choose|other: int|
                    0 <= other < j && grid.holds(x + row_step(other), y + col_step(other))
                        && before[i].path[path.len() as int] == #[trigger] place(
                        grid.width,
                        x + row_step(other),
                        y + col_step(other),
                    ) as u16;
                assert(0 <= other < k);
            } else {
                let e = next[i - before.len()];
                assert(all[i] == e);
                assert(e.path[path.len() as int] == place(
                    grid.width,
                    x + row_step(j as int),
                    y + col_step(j as int),
                ) as u16);
            }
        }
    }
}

/// Every path reported by the walks that continue a walk starts as that
/// walk does.
proof fn lemma_cell_events_start(
    grid: Grid,
    dict: Set<Seq<char>>,
    word: Seq<char>,
    path: Seq<u16>,
    x: int,
    y: int,
)
    requires
        grid.searchable(),
    ensures
        forall|i: int|
            0 <= i < cell_events(grid, dict, word, path, x, y).len() ==> path.is_prefix_of(
                (#[trigger] cell_events(grid, dict, word, path, x, y)[i]).path,
            ),
    decreases unvisited(path).len(), 0nat,
{
    if grid.holds(x, y) && !path.contains(grid.index(x, y) as u16) {
        let at = grid.index(x, y);
        let longer_word = word.push(grid.cells[at]);
        let longer_path = path.push(at as u16);
        let here = found(dict, longer_word, longer_path);
        let around = around_events(grid, dict, longer_word, longer_path, x, y, 8);
        lemma_visit_shrinks(path, at);
        lemma_around_events_start(grid, dict, longer_word, longer_path, x, y, 8);
        let all = here + around;
        assert forall|i: int| 0 <= i < all.len() implies path.is_prefix_of((#[trigger] all[i]).path) by {
            if i < here.len() {
                assert(all[i] == here[i]);
            } else {
                assert(all[i] == around[i - here.len()]);
                assert(longer_path.is_prefix_of(all[i].path));
            }
            assert(path.is_prefix_of(longer_path));
        }
    }
}

/// Every path reported by the walks that continue a walk into a neighbour
/// of its last cell starts as that walk does.
proof fn lemma_around_events_start(
    grid: Grid,
    dict: Set<Seq<char>>,
    word: Seq<char>,
    path: Seq<u16>,
    x: int,
    y: int,
    k: nat,
)
    requires
        grid.searchable(),
    ensures
        forall|i: int|
            0 <= i < around_events(grid, dict, word, path, x, y, k).len() ==> path.is_prefix_of(
                (#[trigger] around_events(grid, dict, word, path, x, y, k)[i]).path,
            ),
    decreases unvisited(path).len(), k + 1,
{
    if k > 0 {
        let j = (k - 1) as nat;
        let before = around_events(grid, dict, word, path, x, y, j);
        let next = cell_events(
            grid,
            dict,
            word,
            path,
            x + row_step(j as int),
            y + col_step(j as int),
        );
        lemma_around_events_start(grid, dict, word, path, x, y, j);
        lemma_cell_events_start(
            grid,
            dict,
            word,
            path,
            x + row_step(j as int),
            y + col_step(j as int),
        );
        let all = before + next;
        assert forall|i: int| 0 <= i < all.len() implies path.is_prefix_of((#[trigger] all[i]).path) by {
            if i < before.len() {
                assert(all[i] == before[i]);
            } else {
                assert(all[i] == next[i - before.len()]);
            }
        }
    }
}

/// On a grid whose places differ, the walks that start in a row are reported
/// with paths that differ.
proof fn lemma_row_paths_differ(grid: Grid, dict: Set<Seq<char>>, x: int, y: nat)
    requires
        grid.searchable(),
        places_differ(grid),
    ensures
        paths_differ(row_events(grid, dict, x, y)),
        forall|i: int|
            0 <= i < row_events(grid, dict, x, y).len() ==> starts_in_row(
                #[trigger] row_events(grid, dict, x, y)[i],
                grid,
                x,
                y as int,
            ),
    decreases y,
{
    if y > 0 {
        let j = (y - 1) as nat;
        let before = row_events(grid, dict, x, j);
        let next = cell_events(grid, dict, Seq::empty(), Seq::empty(), x, j as int);
        lemma_row_paths_differ(grid, dict, x, j);
        lemma_cell_paths_differ(grid, dict, Seq::empty(), Seq::empty(), x, j as int);
        assert forall|a: int, b: int| 0 <= a < before.len() && 0 <= b < next.len() implies (
        #[trigger] before[a]).path != (#[trigger] next[b]).path by {
            assert(starts_in_row(before[a], grid, x, j as int));
            let other = choose|other: int|
                0 <= other < j && grid.holds(x, other) && before[a].path[0] == #[trigger] place(
                    grid.width,
                    x,
                    other,
                ) as u16;
            let far = place(grid.width, x, other);
            let near = place(grid.width, x, j as int);
            assert(grid.holds(x, j as int));
            assert(grid.index(x, j as int) == near);
            assert(grid.index(x, other) == far);
            assert(far != near);
            assert(next[b].path[0] == near as u16);
        }
        lemma_paths_differ_add(before, next);
        let all = before + next;
        assert forall|i: int| 0 <= i < all.len() implies starts_in_row(
            #[trigger] all[i],
            grid,
            x,
            y as int,
        ) by {
            if i < before.len() {
                assert(all[i] == before[i]);
                assert(starts_in_row(before[i], grid, x, j as int));
                let other = choose|other: int|
                    0 <= other < j && grid.holds(x, other) && before[i].path[0] == #[trigger] place(
                        grid.width,
                        x,
                        other,
                    ) as u16;
                assert(0 <= other < y);
            } else {
                let e = next[i - before.len()];
                assert(all[i] == e);
                assert(e.path[0] == place(grid.width, x, j as int) as u16);
            }
        }
    }
}

/// On a grid whose places differ, the walks that start in the first rows
/// are reported with paths that differ.
proof fn lemma_rows_paths_differ(grid: Grid, dict: Set<Seq<char>>, x: nat)
    requires
        grid.searchable(),
        places_differ(grid),
    ensures
        paths_differ(rows_events(grid, dict, x)),
        forall|i: int|
            0 <= i < rows_events(grid, dict, x).len() ==> starts_above(
                #[trigger] rows_events(grid, dict, x)[i],
                grid,
                x as int,
            ),
    decreases x,
{
    if x > 0 {
        let r = (x - 1) as nat;
        let before = rows_events(grid, dict, r);
        let next = row_events(grid, dict, r as int, grid.length as nat);
        lemma_rows_paths_differ(grid, dict, r);
        lemma_row_paths_differ(grid, dict, r as int, grid.length as nat);
        assert forall|a: int, b: int| 0 <= a < before.len() && 0 <= b < next.len() implies (
        #[trigger] before[a]).path != (#[trigger] next[b]).path by {
            assert(starts_above(before[a], grid, r as int));
            assert(starts_in_row(next[b], grid, r as int, grid.length));
            let (u, v) = choose|u: int, v: int|
                0 <= u < r && grid.holds(u, v) && before[a].path[0] == #[trigger] place(
                    grid.width,
                    u,
                    v,
                ) as u16;
            let j = choose|j: int|
                0 <= j < grid.length && grid.holds(r as int, j) && next[b].path[0]
                    == #[trigger] place(grid.width, r as int, j) as u16;
            let far = place(grid.width, u, v);
            let near = place(grid.width, r as int, j);
            assert(grid.index(r as int, j) == near);
            assert(grid.index(u, v) == far);
            assert(far != near);
        }
        lemma_paths_differ_add(before, next);
        let all = before + next;
        assert forall|i: int| 0 <= i < all.len() implies starts_above(
            #[trigger] all[i],
            grid,
            x as int,
        ) by {
            if i < before.len() {
                assert(all[i] == before[i]);
                assert(starts_above(before[i], grid, r as int));
                let (u, v) = choose|u: int, v: int|
                    0 <= u < r && grid.holds(u, v) && before[i].path[0] == #[trigger] place(
                        grid.width,
                        u,
                        v,
                    ) as u16;
                assert(0 <= u < x);
            } else {
                let e = next[i - before.len()];
                assert(all[i] == e);
                assert(starts_in_row(e, grid, r as int, grid.length));
                let j = choose|j: int|
                    0 <= j < grid.length && grid.holds(r as int, j) && e.path[0]
                        == #[trigger] place(grid.width, r as int, j) as u16;
                assert(0 <= r < x);
            }
        }
    }
}

/// On a grid whose places differ, as on every square grid, no walk is
/// reported twice.
pub proof fn lemma_no_walk_is_reported_twice(grid: Grid, dict: Set<Seq<char>>)
    requires
        grid.searchable(),
        places_differ(grid),
    ensures
        paths_differ(search_events(grid, dict)),
{
    lemma_rows_paths_differ(grid, dict, grid.width as nat);
}

/// The places of a square grid differ.
pub proof fn lemma_square_places_differ(grid: Grid)
    requires
        grid.width == grid.length,
    ensures
        places_differ(grid),
{
    assert forall|x: int, y: int, u: int, v: int|
        grid.holds(x, y) && grid.holds(u, v) && (x != u || y != v) implies #[trigger] place(
        grid.width,
        x,
        y,
    ) != #[trigger] place(grid.width, u, v) by {
        if x != u {
            assert(x * grid.width + y != u * grid.width + v) by (nonlinear_arith)
                requires
                    x != u,
                    0 <= y < grid.width,
                    0 <= v < grid.width,
            ;
        }
    }
}

/// Path multiplicity on a grid whose places differ: the paths of a full
/// report are the walks that spell a word of the dictionary, each once, and
/// there are as many paths as words exactly if no two of them spell the same
/// word, that is if every word is reached by exactly one walk.
pub proof fn lemma_one_walk_to_each_word(grid: Grid, dict: Set<Seq<char>>)
    requires
        grid.searchable(),
        places_differ(grid),
    ensures
        findings_of(grid, dict).paths.no_duplicates(),
        findings_of(grid, dict).paths.len() == findings_of(grid, dict).words.len() <==> forall|
            i: int,
            j: int,
        |
            0 <= i < findings_of(grid, dict).paths.len() && 0 <= j < findings_of(
                grid,
                dict,
            ).paths.len() && i != j ==> spelled(grid, #[trigger] findings_of(grid, dict).paths[i])
                != spelled(grid, #[trigger] findings_of(grid, dict).paths[j]),
{
    let events = search_events(grid, dict);
    let report = findings_of(grid, dict);
    lemma_report(events);
    lemma_reports_are_walks(grid, dict);
    lemma_no_walk_is_reported_twice(grid, dict);
    let words = words_of(events);
    assert forall|i: int| 0 <= i < events.len() implies #[trigger] words[i] == spelled(
        grid,
        report.paths[i],
    ) by {
        assert(valid_event(grid, dict, events[i]));
    }
    assert(report.paths.no_duplicates()) by {
        assert forall|i: int, j: int|
            0 <= i < report.paths.len() && 0 <= j < report.paths.len() && i != j implies report.paths[i]
            != report.paths[j] by {
            assert(events[i].path != events[j].path);
        }
    }
    if words.no_duplicates() {
        assert forall|i: int, j: int|
            0 <= i < report.paths.len() && 0 <= j < report.paths.len() && i != j implies spelled(
            grid,
            #[trigger] report.paths[i],
        ) != spelled(grid, #[trigger] report.paths[j]) by {
            assert(words[i] != words[j]);
        }
    }
    if forall|i: int, j: int|
        0 <= i < report.paths.len() && 0 <= j < report.paths.len() && i != j ==> spelled(
            grid,
            #[trigger] report.paths[i],
        ) != spelled(grid, #[trigger] report.paths[j]) {
        assert forall|i: int, j: int|
            0 <= i < words.len() && 0 <= j < words.len() && i != j implies words[i] != words[j] by {
            assert(spelled(grid, report.paths[i]) != spelled(grid, report.paths[j]));
        }
    }
}

/// The score-only visitor has room for a run of events exactly if the sum of
/// the scores of its distinct words fits a `u32`.
pub proof fn lemma_total_fits(events: Seq<WordEvent>)
    ensures
        accepts_all::<TotalScoreWordVisitor>(ScoreTally::none(), events) <==> score_sum(
            report_of(events).words,
        ) <= u32::MAX,
    decreases events.len(),
{
    if events.len() > 0 {
        let front = events.drop_last();
        let last = events.last();
        lemma_total_fits(front);
        lemma_total_counts_each_word_once(front);
        let so_far = report_of(front);
        assert(report_of(events) == so_far.with(last.word, last.path));
        if !so_far.words.contains(last.word) {
            assert(so_far.words.push(last.word).drop_last() =~= so_far.words);
        }
    }
}

/// The full report has room for a run of events exactly if no score is
/// that of more than `u32::MAX` of its distinct words.
pub proof fn lemma_report_fits(events: Seq<WordEvent>)
    ensures
        accepts_all::<BoggleBoardSolverVisitor>(Findings::none(), events) <==> forall|score: nat|
            #[trigger] count_by(report_of(events).words, by_score(), score) <= u32::MAX,
    decreases events.len(),
{
    let words = report_of(events).words;
    if events.len() == 0 {
        assert forall|score: nat| #[trigger] count_by(words, by_score(), score) <= u32::MAX by {}
    } else {
        let front = events.drop_last();
        let last = events.last();
        lemma_report_fits(front);
        let so_far = report_of(front);
        assert(report_of(events) == so_far.with(last.word, last.path));
        if !so_far.words.contains(last.word) {
            let own = word_score(last.word);
            assert forall|score: nat|
                #[trigger] count_by(words, by_score(), score) == count_by(
                    so_far.words,
                    by_score(),
                    score,
                ) + if score == own {
                    1nat
                } else {
                    0nat
                } by {
                lemma_count_push(so_far.words, last.word, by_score(), score);
            }
            if accepts_all::<BoggleBoardSolverVisitor>(Findings::none(), events) {
                assert forall|score: nat| #[trigger]
                    count_by(words, by_score(), score) <= u32::MAX by {
                    assert(count_by(so_far.words, by_score(), score) <= u32::MAX);
                }
            }
            if forall|score: nat| #[trigger] count_by(words, by_score(), score) <= u32::MAX {
                assert forall|score: nat| #[trigger]
                    count_by(so_far.words, by_score(), score) <= u32::MAX by {
                    assert(count_by(words, by_score(), score) <= u32::MAX);
                }
                assert(count_by(words, by_score(), own) <= u32::MAX);
            }
        }
    }
}

} // verus!
