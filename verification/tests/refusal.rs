use boggle_maker::boggle_board_solver::{BoggleBoardResult, BoggleBoardSolverVisitor};
use boggle_maker::boggle_dfs::{BoggleDfs, BoggleDfsContext};
use boggle_maker::total_boggle_score_calculator::{
    TotalBoggleScoreCalculator, TotalScoreWordVisitor,
};
use boggle_maker::WordVisitor;
use word_trie::trie::{Dictionary, Trie};

/// A visitor with room for a fixed number of words.
struct Limited {
    room: usize,
    words: Vec<String>,
    paths: Vec<Vec<u16>>,
}

impl Limited {
    fn new(room: usize) -> Self {
        Limited { room, words: Vec::new(), paths: Vec::new() }
    }
}

impl WordVisitor for Limited {
    type Tally = ();

    fn has_room(&self, _word: &str, _path: &Vec<u16>) -> bool {
        self.words.len() < self.room
    }

    fn visit(&mut self, word: &str, path: &Vec<u16>) {
        self.words.push(word.to_string());
        self.paths.push(path.clone());
    }
}

fn trie_of(words: &[&str]) -> Trie {
    let mut trie = Trie::default();
    for word in words {
        trie.add_word(word);
    }
    trie
}

fn cells(board: &str) -> Vec<char> {
    board.chars().collect()
}

fn four_letter_words() -> Trie {
    trie_of(&["cat", "cats", "act", "acts", "at", "cast", "scat", "tacs", "dog", "ca"])
}

#[test]
fn a_search_with_room_for_everything_runs_to_the_end() {
    let trie = four_letter_words();
    let context = BoggleDfsContext::new(&trie, 2, 2);
    let board = cells("CATS");
    let mut dfs = BoggleDfs::new(&context, &board).unwrap();
    dfs.with_visitor(Limited::new(9));
    assert!(dfs.try_search());
    let visitors = dfs.into_visitors();
    assert_eq!(
        visitors[0].words,
        vec!["CA", "CAT", "CATS", "CAST", "ACT", "ACTS", "AT", "TACS", "SCAT"]
    );
    assert_eq!(visitors[0].paths[3], vec![0, 1, 3, 2]);
    assert_eq!(visitors[0].paths[8], vec![3, 0, 1, 2]);
}

#[test]
fn a_search_stops_at_the_first_word_without_room() {
    let trie = four_letter_words();
    let context = BoggleDfsContext::new(&trie, 2, 2);
    let board = cells("CATS");
    let mut dfs = BoggleDfs::new(&context, &board).unwrap();
    dfs.with_visitor(Limited::new(8));
    assert!(!dfs.try_search());
    let visitors = dfs.into_visitors();
    assert_eq!(visitors[0].words, vec!["CA", "CAT", "CATS", "CAST", "ACT", "ACTS", "AT", "TACS"]);
}

#[test]
fn no_visitor_is_told_of_a_word_that_one_has_no_room_for() {
    let trie = four_letter_words();
    let context = BoggleDfsContext::new(&trie, 2, 2);
    let board = cells("CATS");
    let mut dfs = BoggleDfs::new(&context, &board).unwrap();
    dfs.with_visitor(Limited::new(100)).with_visitor(Limited::new(3)).with_visitor(Limited::new(5));
    assert!(!dfs.try_search());
    let visitors = dfs.into_visitors();
    for visitor in &visitors {
        assert_eq!(visitor.words, vec!["CA", "CAT", "CATS"]);
        assert_eq!(visitor.paths, vec![vec![0u16, 1], vec![0, 1, 2], vec![0, 1, 2, 3]]);
    }
}

#[test]
fn a_stopped_search_leaves_the_engine_ready_for_another() {
    let trie = four_letter_words();
    let context = BoggleDfsContext::new(&trie, 2, 2);
    let board = cells("CATS");
    let mut dfs = BoggleDfs::new(&context, &board).unwrap();
    dfs.with_visitor(Limited::new(4));
    assert!(!dfs.try_search());
    assert!(!dfs.try_search());
    let mut visitors = dfs.into_visitors();
    assert_eq!(visitors[0].words, vec!["CA", "CAT", "CATS", "CAST"]);
    let mut visitor = visitors.pop().unwrap();
    visitor.room = 13;
    let mut dfs = BoggleDfs::new(&context, &board).unwrap();
    dfs.with_visitor(visitor);
    assert!(dfs.try_search());
    assert_eq!(dfs.visitors()[0].words.len(), 13);
    assert_eq!(dfs.visitors()[0].words[4], "CA");
    assert_eq!(dfs.visitors()[0].paths[12], vec![3, 0, 1, 2]);
}

#[test]
fn a_visitor_without_room_stops_a_search_before_its_first_word() {
    let trie = four_letter_words();
    let context = BoggleDfsContext::new(&trie, 2, 2);
    let board = cells("CATS");
    let mut dfs = BoggleDfs::new(&context, &board).unwrap();
    dfs.with_visitor(Limited::new(0));
    assert!(!dfs.try_search());
    assert!(dfs.visitors()[0].words.is_empty());
    let wordless = cells("QQQQ");
    let mut dfs = BoggleDfs::new(&context, &wordless).unwrap();
    dfs.with_visitor(Limited::new(0));
    assert!(dfs.try_search());
}

#[test]
fn the_visitors_of_the_library_have_room() {
    let mut result = BoggleBoardResult::new();
    assert!(result.has_room("kettle"));
    result.add_word("kettle".to_string());
    assert!(result.has_room("kettle"));
    assert!(result.has_room("settle"));
    let full = BoggleBoardSolverVisitor(result);
    assert!(full.has_room("teas", &vec![1, 2]));
    let mut total = TotalScoreWordVisitor::new();
    assert!(total.has_room("teakettles", &vec![]));
    total.visit("teakettles", &vec![]);
    assert!(total.has_room("teakettles", &vec![]));
    assert!(total.has_room("kettles", &vec![]));
}

#[test]
fn a_total_is_given_only_for_a_board_of_the_calculators_dimensions() {
    let trie = four_letter_words();
    let mut calculator = TotalBoggleScoreCalculator::new(&trie, 2, 2);
    assert_eq!(calculator.try_score(&cells("CATS")), Some(7));
    assert_eq!(calculator.try_score(&cells("CAT")), None);
    assert_eq!(calculator.try_score(&cells("CATSS")), None);
    assert_eq!(calculator.fitness(&cells("CATS")), 7);
    assert_eq!(calculator.score(&cells("CATS")), 7);
    let mut tall = TotalBoggleScoreCalculator::new(&trie, 3, 2);
    assert_eq!(tall.try_score(&cells("CATSCA")), None);
    let mut wide = TotalBoggleScoreCalculator::new(&trie, 2, 3);
    assert_eq!(wide.try_score(&cells("CATSCA")), Some(7));
}
