use boggle_maker::boggle_board::{letter, Board};
use boggle_maker::builder::{BoggleBuilder, BuildPlan};

fn sample() -> Board {
    Board::new("ABCDEFGHI".chars().collect(), 3, 3, Some(12))
}

#[test]
fn a_board_keeps_what_it_was_made_of() {
    let board = sample();
    assert_eq!(board.width(), 3);
    assert_eq!(board.length(), 3);
    assert_eq!(board.score(), Some(12));
    assert_eq!(board.value(), &vec!['A', 'B', 'C', 'D', 'E', 'F', 'G', 'H', 'I']);
}

#[test]
fn letters_are_read_by_row_and_column() {
    let board = sample();
    assert_eq!(board.get(0, 0), Some('A'));
    assert_eq!(board.get(0, 2), Some('C'));
    assert_eq!(board.get(1, 0), Some('D'));
    assert_eq!(board.get(2, 2), Some('I'));
    assert_eq!(board.get(3, 0), None);
    assert_eq!(board.get(0, 3), None);
    assert_eq!(board.get(usize::MAX, usize::MAX), None);
}

#[test]
fn letters_are_written_by_row_and_column() {
    let mut board = sample();
    board.set(1, 2, 'z');
    board.set(3, 0, 'y');
    board.set(0, 3, 'x');
    assert_eq!(board.hash(), "ABCDEzGHI");
    assert_eq!(board.get(1, 2), Some('z'));
    assert_eq!(board.score(), Some(12));
}

#[test]
fn a_board_prints_row_by_row() {
    assert_eq!(sample().to_string(), "ABC\nDEF\nGHI");
    assert_eq!(Board::new("ABCDEF".chars().collect(), 2, 3, None).to_string(), "AB\nCD\nEF");
    assert_eq!(Board::new("A".chars().collect(), 1, 1, None).to_string(), "A");
    assert_eq!(Board::new(Vec::new(), 0, 0, None).to_string(), "");
    assert_eq!(Board::new(vec!['Q'], 0, 0, None).to_string(), "Q");
}

#[test]
fn a_board_is_told_apart_by_its_letters() {
    assert_eq!(sample().hash(), "ABCDEFGHI");
    assert_eq!(Board::new(Vec::new(), 0, 0, None).hash(), "");
}

#[test]
fn a_copy_is_a_board_of_its_own() {
    let board = sample();
    let mut copy = board.copy();
    assert_eq!(copy.value(), board.value());
    assert_eq!(copy.width(), 3);
    assert_eq!(copy.length(), 3);
    assert_eq!(copy.score(), Some(12));
    copy.set(0, 0, 'q');
    assert_eq!(board.get(0, 0), Some('A'));
    assert_eq!(copy.get(0, 0), Some('q'));
}

#[test]
fn a_random_board_holds_capitals_only() {
    let board = Board::new_random(5, 7);
    assert_eq!(board.width(), 5);
    assert_eq!(board.length(), 7);
    assert_eq!(board.score(), None);
    assert_eq!(board.value().len(), 35);
    assert!(board.value().iter().all(|letter| ('A'..='Z').contains(letter)));
    assert!(Board::new_random(0, 9).value().is_empty());
}

#[test]
fn random_boards_differ() {
    let first = Board::new_random(8, 8);
    let others = (0..8).map(|_| Board::new_random(8, 8).hash());
    assert!(others.into_iter().any(|hash| hash != first.hash()));
}

#[test]
fn capitals_are_numbered_from_a() {
    assert_eq!(letter(0), 'A');
    assert_eq!(letter(1), 'B');
    assert_eq!(letter(25), 'Z');
}

#[test]
fn a_builder_without_a_dictionary_plans_nothing() {
    assert_eq!(BoggleBuilder::new().plan(), None);
    assert_eq!(BoggleBuilder::new().with_width(3).with_target_score(9).plan(), None);
    assert_eq!(BoggleBuilder::default().with_length(3).plan(), None);
}

#[test]
fn a_builder_fills_in_what_was_not_set() {
    assert_eq!(
        BoggleBuilder::new().with_dictionary_path("words.txt").plan(),
        Some(BuildPlan {
            width: 4,
            length: 4,
            target_score: 0,
            dictionary_path: "words.txt".to_string(),
        })
    );
}

#[test]
fn a_builder_keeps_what_was_set() {
    let plan = BoggleBuilder::new()
        .with_dictionary_path("first.txt")
        .with_target_score(3000)
        .with_length(5)
        .with_width(6)
        .with_dictionary_path("words.txt")
        .plan();
    assert_eq!(
        plan,
        Some(BuildPlan {
            width: 6,
            length: 5,
            target_score: 3000,
            dictionary_path: "words.txt".to_string(),
        })
    );
}
