use boggle_maker::boggle_board_solver::{BoggleBoardResult, BoggleBoardSolverVisitor};
use boggle_maker::boggle_dfs::{get_word_score, BoggleDfs, BoggleDfsContext, BoggleError};
use boggle_maker::total_boggle_score_calculator::{
    TotalBoggleScoreCalculator, TotalScoreWordVisitor,
};
use boggle_maker::WordVisitor;
use word_trie::trie::{Dictionary, Trie};

fn trie_of(words: &[&str]) -> Trie {
    let mut trie = Trie::default();
    for word in words {
        trie.add_word(word);
    }
    trie
}

fn cells(board: &str) -> Vec<char> {
    board.chars().collect()
}

#[test]
fn the_score_table_is_fixed() {
    assert_eq!(get_word_score(""), 0);
    assert_eq!(get_word_score("a"), 0);
    assert_eq!(get_word_score("at"), 0);
    assert_eq!(get_word_score("cat"), 1);
    assert_eq!(get_word_score("cats"), 1);
    assert_eq!(get_word_score("stare"), 2);
    assert_eq!(get_word_score("kettle"), 3);
    assert_eq!(get_word_score("kettles"), 5);
    assert_eq!(get_word_score("seatings"), 11);
    assert_eq!(get_word_score("teakettles"), 11);
    assert_eq!(get_word_score("été"), 2);
}

#[test]
fn a_context_keeps_its_dimensions() {
    let trie = trie_of(&["cat"]);
    let context = BoggleDfsContext::new(&trie, 3, 5);
    assert_eq!(context.width(), 3);
    assert_eq!(context.length(), 5);
    assert_eq!(context.count(), 15);
    assert!(context.dictionary().is_word("cat"));
    assert!(!context.dictionary().is_word("ca"));
}

#[test]
fn dimensions_are_searchable_when_every_cell_has_a_place() {
    let trie = trie_of(&[]);
    assert!(BoggleDfsContext::new(&trie, 0, 0).is_searchable());
    assert!(BoggleDfsContext::new(&trie, 4, 4).is_searchable());
    assert!(BoggleDfsContext::new(&trie, 2, 3).is_searchable());
    assert!(BoggleDfsContext::new(&trie, 1, 10).is_searchable());
    assert!(BoggleDfsContext::new(&trie, 10, 0).is_searchable());
    assert!(BoggleDfsContext::new(&trie, 0, 10).is_searchable());
    assert!(BoggleDfsContext::new(&trie, 256, 256).is_searchable());
    // the last cell of the last row would be kept past the end
    assert!(!BoggleDfsContext::new(&trie, 3, 2).is_searchable());
    assert!(!BoggleDfsContext::new(&trie, 2, 1).is_searchable());
    // a place that a u16 cannot name
    assert!(!BoggleDfsContext::new(&trie, 257, 257).is_searchable());
    assert!(!BoggleDfsContext::new(&trie, 1, 65537).is_searchable());
    assert!(BoggleDfsContext::new(&trie, 1, 65536).is_searchable());
    assert!(!BoggleDfsContext::new(&trie, usize::MAX, usize::MAX).is_searchable());
}

#[test]
fn a_board_with_one_cell_too_many_is_a_size_mismatch() {
    let trie = trie_of(&["cat"]);
    let context = BoggleDfsContext::new(&trie, 4, 4);
    let board = vec!['A'; 17];
    let made: Result<BoggleDfs<TotalScoreWordVisitor>, BoggleError> =
        BoggleDfs::new(&context, &board);
    assert_eq!(made.err(), Some(BoggleError::SizeMismatch { expected: 16, actual: 17 }));
}

#[test]
fn a_board_with_one_cell_too_few_is_a_size_mismatch() {
    let trie = trie_of(&["cat"]);
    let context = BoggleDfsContext::new(&trie, 2, 2);
    let board = vec!['A'; 3];
    let made: Result<BoggleDfs<TotalScoreWordVisitor>, BoggleError> =
        BoggleDfs::new(&context, &board);
    assert_eq!(made.err(), Some(BoggleError::SizeMismatch { expected: 4, actual: 3 }));
}

#[test]
fn a_size_mismatch_is_told_whatever_the_dimensions() {
    let trie = trie_of(&["cat"]);
    let context = BoggleDfsContext::new(&trie, 3, 2);
    let board = vec!['A'; 7];
    let made: Result<BoggleDfs<TotalScoreWordVisitor>, BoggleError> =
        BoggleDfs::new(&context, &board);
    assert_eq!(made.err(), Some(BoggleError::SizeMismatch { expected: 6, actual: 7 }));
    let empty = BoggleDfsContext::new(&trie, 0, 0);
    let made: Result<BoggleDfs<TotalScoreWordVisitor>, BoggleError> =
        BoggleDfs::new(&empty, &board);
    assert_eq!(made.err(), Some(BoggleError::SizeMismatch { expected: 0, actual: 7 }));
}

#[test]
fn a_board_of_the_right_size_is_accepted() {
    let trie = trie_of(&["cat"]);
    let context = BoggleDfsContext::new(&trie, 2, 2);
    let board = cells("CATS");
    let made: Result<BoggleDfs<TotalScoreWordVisitor>, BoggleError> =
        BoggleDfs::new(&context, &board);
    assert!(made.is_ok());
    assert!(made.unwrap().visitors().is_empty());
}

#[test]
fn visitors_are_told_in_registration_order_and_keep_what_they_held() {
    let trie = trie_of(&["ab", "ba", "abba", "abb"]);
    let context = BoggleDfsContext::new(&trie, 2, 2);
    let board = cells("ABBA");
    let mut primed = BoggleBoardResult::new();
    primed.add_word("OLD".to_string());
    let mut dfs = BoggleDfs::new(&context, &board).unwrap();
    dfs.with_visitor(BoggleBoardSolverVisitor(BoggleBoardResult::new()))
        .with_visitor(BoggleBoardSolverVisitor(primed))
        .search();
    assert_eq!(dfs.visitors().len(), 2);
    let visitors = dfs.into_visitors();
    assert_eq!(visitors[0].0.words(), &vec!["AB", "ABB", "ABBA", "BA"]);
    assert_eq!(visitors[1].0.words(), &vec!["OLD", "AB", "ABB", "ABBA", "BA"]);
    assert_eq!(visitors[0].0.path_tracks(), visitors[1].0.path_tracks());
    assert_eq!(visitors[0].0.path_tracks().len(), 16);
}

#[test]
fn a_search_without_visitors_changes_nothing() {
    let trie = trie_of(&["cat"]);
    let context = BoggleDfsContext::new(&trie, 2, 2);
    let board = cells("CATS");
    let mut dfs: BoggleDfs<TotalScoreWordVisitor> = BoggleDfs::new(&context, &board).unwrap();
    dfs.search();
    assert!(dfs.into_visitors().is_empty());
}

#[test]
fn a_second_run_adds_to_what_the_visitors_hold() {
    let trie = trie_of(&["cat", "cats"]);
    let context = BoggleDfsContext::new(&trie, 2, 2);
    let board = cells("CATS");
    let mut dfs = BoggleDfs::new(&context, &board).unwrap();
    dfs.with_visitor(BoggleBoardSolverVisitor(BoggleBoardResult::new()));
    dfs.search();
    dfs.search();
    let visitors = dfs.into_visitors();
    assert_eq!(visitors[0].0.words(), &vec!["CAT", "CATS"]);
    assert_eq!(
        visitors[0].0.path_tracks(),
        &vec![vec![0u16, 1, 2], vec![0, 1, 2, 3], vec![0, 1, 2], vec![0, 1, 2, 3]]
    );
}

#[test]
fn the_score_visitor_counts_each_word_once() {
    let mut visitor = TotalScoreWordVisitor::new();
    assert_eq!(visitor.score(), 0);
    visitor.visit("kettles", &vec![0, 1]);
    assert_eq!(visitor.score(), 5);
    visitor.visit("kettles", &vec![2, 3]);
    assert_eq!(visitor.score(), 5);
    visitor.visit("at", &vec![4]);
    assert_eq!(visitor.score(), 5);
    visitor.visit("teakettles", &vec![]);
    assert_eq!(visitor.score(), 16);
}

#[test]
fn the_full_visitor_tracks_every_path() {
    let mut visitor = BoggleBoardSolverVisitor(BoggleBoardResult::new());
    visitor.visit("tea", &vec![0, 1, 2]);
    visitor.visit("tea", &vec![2, 1, 0]);
    visitor.visit("kettle", &vec![3]);
    assert_eq!(visitor.0.words(), &vec!["tea", "kettle"]);
    assert_eq!(visitor.0.path_tracks(), &vec![vec![0u16, 1, 2], vec![2, 1, 0], vec![3]]);
    assert_eq!(visitor.0.how_many(1), 1);
    assert_eq!(visitor.0.how_many(3), 1);
}

#[test]
fn the_total_score_is_the_sum_over_distinct_words() {
    let trie = trie_of(&["ab", "ba", "abba", "abb"]);
    let mut calculator = TotalBoggleScoreCalculator::new(&trie, 2, 2);
    assert_eq!(calculator.score(&cells("ABBA")), 2);
    assert_eq!(calculator.score(&cells("ABBA")), 2);
    assert_eq!(calculator.score(&cells("QQQQ")), 0);
    let long = trie_of(&["teakettle", "teakettles", "tea", "kettle", "kettles", "let", "settle"]);
    let mut row = TotalBoggleScoreCalculator::new(&long, 1, 10);
    assert_eq!(row.score(&cells("TEAKETTLES")), 31);
}

#[test]
fn the_total_score_of_the_sample_board() {
    let trie = trie_of(&[
        "serail", "serais", "serang", "sepals", "seater", "sealer", "spears", "sparge", "spates",
        "splats", "splits", "splint", "spline", "spinal", "spinet", "seating", "sealing",
        "spaniel", "splints", "seatings", "spaniels", "sea", "seat", "pat", "tin", "line", "at",
        "zebra", "quiz", "tea",
    ]);
    let mut calculator = TotalBoggleScoreCalculator::new(&trie, 4, 4);
    assert_eq!(calculator.score(&cells("SERSPATGLINESERS")), 93);
}

#[test]
fn the_total_score_of_an_empty_board_is_zero() {
    let trie = trie_of(&["cat"]);
    let mut calculator = TotalBoggleScoreCalculator::new(&trie, 0, 0);
    assert_eq!(calculator.score(&Vec::new()), 0);
}
