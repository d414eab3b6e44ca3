use boggle_maker::boggle_board::Board;
use boggle_maker::boggle_board_solver::{BoggleBoardResult, BoggleBoardSolver};
use boggle_maker::boggle_dfs::{get_word_score, BoggleError};
use word_trie::trie::{Dictionary, Trie};

fn trie_of(words: &[&str]) -> Trie {
    let mut trie = Trie::default();
    for word in words {
        trie.add_word(word);
    }
    trie
}

fn english() -> Vec<&'static str> {
    vec![
        "serail", "serais", "serang", "sepals", "seater", "sealer", "spears", "sparge", "spates",
        "splats", "splits", "splint", "spline", "spinal", "spinet", "seating", "sealing",
        "spaniel", "splints", "seatings", "spaniels", "sea", "seat", "pat", "tin", "line", "at",
        "zebra", "quiz", "tea",
    ]
}

fn get_sample_solver() -> BoggleBoardSolver {
    BoggleBoardSolver::new().with_trie(trie_of(&english()))
}

fn get_sample_board() -> Vec<char> {
    vec!['S', 'E', 'R', 'S', 'P', 'A', 'T', 'G', 'L', 'I', 'N', 'E', 'S', 'E', 'R', 'S']
}

fn solve_sample_board() -> BoggleBoardResult {
    let solver = get_sample_solver();
    let board = get_sample_board();

    let result = solver.solve_vec(&board, 4, 4);
    assert!(result.is_some(), "the result does not have value");

    result.unwrap()
}

fn solve(words: &[&str], board: &str, width: usize, length: usize) -> BoggleBoardResult {
    let solver = BoggleBoardSolver::new().with_trie(trie_of(words));
    let cells: Vec<char> = board.chars().collect();
    solver.solve_vec(&cells, width, length).unwrap()
}

fn strings(words: &[&str]) -> Vec<String> {
    words.iter().map(|word| word.to_string()).collect()
}

fn spell(board: &[char], path: &[u16]) -> String {
    path.iter().map(|place| board[*place as usize]).collect()
}

#[test]
fn can_solve_sample_board() {
    let _ = solve_sample_board();
}

#[test]
fn there_should_be_atleast_10_words_with_score_3() {
    let result = solve_sample_board();
    let three_count = result.how_many(3);
    assert!(three_count > 10);
    println!("There are {three_count} words with score equal to 3");
}

#[test]
fn there_should_be_no_words_with_score_4() {
    let result = solve_sample_board();
    let four_count = result.how_many(4);
    assert_eq!(four_count, 0);
    println!("There are {four_count} words with score equal to 4");
}

#[test]
fn there_should_a_word_with_length_7() {
    let result = solve_sample_board();
    let key = 7;
    assert!(result.len_counts().contains_key(&key));
    println!("There are {} words with length equal to 7", result.len_counts()[&key]);
}

#[test]
fn sample_board_is_reported_in_full() {
    let result = solve_sample_board();
    assert_eq!(
        result.words(),
        &strings(&[
            "SERAIL", "SERAIS", "SERANG", "SEPALS", "SEA", "SEAT", "SEATING", "SEATINGS",
            "SEATER", "SEALING", "SEALER", "SPEARS", "SPARGE", "SPATES", "SPANIEL", "SPANIELS",
            "SPLATS", "SPLITS", "SPLINT", "SPLINTS", "SPLINE", "SPINAL", "SPINET", "PAT", "AT",
            "TEA", "TIN", "LINE",
        ])
    );
    assert_eq!(result.path_tracks().len(), 30);
    assert_eq!(result.score_counts(), &vec![1, 6, 0, 15, 0, 4, 0, 0, 0, 0, 0, 2]);
    let mut lengths: Vec<(usize, usize)> =
        result.len_counts().iter().map(|(len, count)| (*len, *count)).collect();
    lengths.sort();
    assert_eq!(lengths, vec![(2, 1), (3, 4), (4, 2), (6, 15), (7, 4), (8, 2)]);
    assert!(result.path_tracks().contains(&vec![0, 1, 5, 6]));
}

#[test]
fn every_walk_that_spells_a_word_is_reported_in_search_order() {
    let result = solve(
        &["cat", "cats", "act", "acts", "at", "cast", "scat", "tacs", "dog", "ca"],
        "CATS",
        2,
        2,
    );
    assert_eq!(
        result.words(),
        &strings(&["CA", "CAT", "CATS", "CAST", "ACT", "ACTS", "AT", "TACS", "SCAT"])
    );
    let paths: Vec<Vec<u16>> = vec![
        vec![0, 1],
        vec![0, 1, 2],
        vec![0, 1, 2, 3],
        vec![0, 1, 3, 2],
        vec![1, 0, 2],
        vec![1, 0, 2, 3],
        vec![1, 2],
        vec![2, 1, 0, 3],
        vec![3, 0, 1, 2],
    ];
    assert_eq!(result.path_tracks(), &paths);
    assert_eq!(result.score_counts(), &vec![2, 7, 0, 0, 0, 0, 0, 0, 0, 0, 0, 0]);
    assert_eq!(result.how_many(0), 2);
    assert_eq!(result.how_many(1), 7);
    assert_eq!(result.how_many(11), 0);
    assert_eq!(result.how_many(12), 0);
    assert_eq!(result.how_many(usize::MAX), 0);
    assert_eq!(result.len_counts().len(), 3);
    assert_eq!(result.len_counts()[&2], 2);
    assert_eq!(result.len_counts()[&3], 2);
    assert_eq!(result.len_counts()[&4], 5);
    assert!(result.contains("SCAT"));
    assert!(!result.contains("scat"));
    assert!(!result.contains("DOG"));
}

#[test]
fn a_word_reached_by_several_walks_is_counted_once_and_tracked_each_time() {
    let result = solve(&["ab", "ba", "abba", "abb"], "ABBA", 2, 2);
    assert_eq!(result.words(), &strings(&["AB", "ABB", "ABBA", "BA"]));
    let paths: Vec<Vec<u16>> = vec![
        vec![0, 1],
        vec![0, 1, 2],
        vec![0, 1, 2, 3],
        vec![0, 2],
        vec![0, 2, 1],
        vec![0, 2, 1, 3],
        vec![1, 0],
        vec![1, 3],
        vec![2, 0],
        vec![2, 3],
        vec![3, 1],
        vec![3, 1, 2],
        vec![3, 1, 2, 0],
        vec![3, 2],
        vec![3, 2, 1],
        vec![3, 2, 1, 0],
    ];
    assert_eq!(result.path_tracks(), &paths);
    assert_eq!(result.score_counts(), &vec![2, 2, 0, 0, 0, 0, 0, 0, 0, 0, 0, 0]);
    assert!(result.path_tracks().len() > result.words().len());
}

#[test]
fn every_word_has_a_path_that_spells_it_without_entering_a_cell_twice() {
    let board = get_sample_board();
    let result = solve_sample_board();
    for word in result.words() {
        let spelt = result.path_tracks().iter().any(|path| {
            let mut seen = path.clone();
            seen.sort();
            seen.dedup();
            seen.len() == path.len() && spell(&board, path) == *word
        });
        assert!(spelt, "no path spells {word}");
    }
    for path in result.path_tracks() {
        assert!(result.contains(&spell(&board, path)));
        for pair in path.windows(2) {
            let (x, y) = (pair[0] as i32 / 4, pair[0] as i32 % 4);
            let (nx, ny) = (pair[1] as i32 / 4, pair[1] as i32 % 4);
            assert!((x - nx).abs() <= 1 && (y - ny).abs() <= 1);
        }
    }
}

#[test]
fn histograms_add_up_to_the_number_of_words() {
    let result = solve_sample_board();
    let words = result.words().len();
    assert_eq!(words, 28);
    assert_eq!(result.score_counts().iter().sum::<u32>() as usize, words);
    assert_eq!(result.len_counts().values().sum::<usize>(), words);
    for word in result.words() {
        assert!(result.score_counts()[get_word_score(word) as usize] >= 1);
        assert!(result.len_counts()[&word.len()] >= 1);
    }
}

#[test]
fn paths_outnumber_words_unless_each_word_has_one_walk() {
    let twice = solve_sample_board();
    assert_eq!(twice.path_tracks().len(), twice.words().len() + 2);
    let once = solve(&["cat", "cats", "act"], "CATS", 2, 2);
    assert_eq!(once.path_tracks().len(), 3);
    assert_eq!(once.words().len(), 3);
}

#[test]
fn two_searches_of_one_board_agree() {
    let first = solve_sample_board();
    let second = solve_sample_board();
    assert_eq!(first.words(), second.words());
    assert_eq!(first.path_tracks(), second.path_tracks());
    assert_eq!(first.score_counts(), second.score_counts());
    assert_eq!(first.len_counts(), second.len_counts());
}

#[test]
fn an_empty_grid_gives_an_empty_result() {
    let result = solve(&english(), "", 0, 0);
    assert!(result.words().is_empty());
    assert!(result.path_tracks().is_empty());
    assert_eq!(result.score_counts(), &vec![0; 12]);
    assert!(result.len_counts().is_empty());
    assert_eq!(result.how_many(0), 0);
}

#[test]
fn a_new_result_is_empty() {
    let result = BoggleBoardResult::new();
    assert!(result.words().is_empty());
    assert!(result.path_tracks().is_empty());
    assert_eq!(result.score_counts(), &vec![0; 12]);
    assert!(result.len_counts().is_empty());
    assert!(!result.contains(""));
}

#[test]
fn words_and_paths_are_added_one_by_one() {
    let mut result = BoggleBoardResult::new();
    result.add_path(vec![3, 4]);
    result.add_word("kettles".to_string());
    result.add_path(vec![5]);
    result.add_word("tea".to_string());
    result.add_word("teas".to_string());
    assert_eq!(result.words(), &strings(&["kettles", "tea", "teas"]));
    assert_eq!(result.path_tracks(), &vec![vec![3u16, 4], vec![5]]);
    assert_eq!(result.how_many(5), 1);
    assert_eq!(result.how_many(1), 2);
    assert_eq!(result.len_counts()[&7], 1);
    assert_eq!(result.len_counts()[&3], 1);
    assert_eq!(result.len_counts()[&4], 1);
}

#[test]
fn a_score_without_a_bucket_is_refused() {
    assert_eq!(BoggleBoardResult::score_guard(0), Ok(()));
    assert_eq!(BoggleBoardResult::score_guard(11), Ok(()));
    assert_eq!(
        BoggleBoardResult::score_guard(12),
        Err(BoggleError::HistogramOverflow { score: 12 })
    );
    assert_eq!(
        BoggleBoardResult::score_guard(u32::MAX),
        Err(BoggleError::HistogramOverflow { score: u32::MAX })
    );
}

#[test]
fn letters_are_looked_up_in_lower_case_and_reported_as_they_stand() {
    let result = solve(&["cat", "cats", "CAT"], "cAtS", 2, 2);
    assert_eq!(result.words(), &strings(&["cAt", "cAtS"]));
    assert_eq!(result.path_tracks(), &vec![vec![0u16, 1, 2], vec![0, 1, 2, 3]]);
}

#[test]
fn words_are_scored_by_their_length_in_bytes() {
    let result = solve(&["été", "té"], "étéX", 2, 2);
    assert_eq!(result.words(), &strings(&["été", "té"]));
    assert_eq!(
        result.path_tracks(),
        &vec![vec![0u16, 1, 2], vec![1, 0], vec![1, 2], vec![2, 1, 0]]
    );
    assert_eq!(result.score_counts(), &vec![0, 1, 1, 0, 0, 0, 0, 0, 0, 0, 0, 0]);
    assert_eq!(result.len_counts()[&3], 1);
    assert_eq!(result.len_counts()[&5], 1);
}

#[test]
fn a_grid_wider_than_long_keeps_cells_at_shared_places() {
    let result = solve(
        &["abc", "cd", "ace", "bad", "cab", "abcde", "f", "ef", "de"],
        "ABCDEF",
        2,
        3,
    );
    assert_eq!(result.words(), &strings(&["ABC", "ABCDE", "BAD", "CD", "CAB", "DE"]));
    let paths: Vec<Vec<u16>> = vec![
        vec![0, 1, 2],
        vec![0, 1, 2, 3, 4],
        vec![0, 1, 2],
        vec![0, 1, 2, 3, 4],
        vec![1, 0, 3],
        vec![2, 3],
        vec![2, 0, 1],
        vec![2, 3],
        vec![3, 4],
    ];
    assert_eq!(result.path_tracks(), &paths);
    assert_eq!(result.score_counts(), &vec![2, 3, 1, 0, 0, 0, 0, 0, 0, 0, 0, 0]);
}

#[test]
fn a_single_row_is_walked_in_both_directions() {
    let result = solve(
        &["teakettle", "teakettles", "tea", "kettle", "kettles", "let", "settle"],
        "TEAKETTLES",
        1,
        10,
    );
    assert_eq!(
        result.words(),
        &strings(&["TEA", "TEAKETTLE", "TEAKETTLES", "KETTLE", "KETTLES"])
    );
    assert_eq!(result.score_counts(), &vec![0, 1, 0, 1, 0, 1, 0, 0, 0, 0, 0, 2]);
    assert_eq!(result.len_counts()[&9], 1);
    assert_eq!(result.len_counts()[&10], 1);
}

#[test]
fn a_solver_without_a_dictionary_solves_nothing() {
    let solver = BoggleBoardSolver::new();
    assert!(solver.solve_vec(&get_sample_board(), 4, 4).is_none());
    let board = Board::new(get_sample_board(), 4, 4, None);
    assert!(solver.solve(&board).is_none());
    assert!(BoggleBoardSolver::default().solve(&board).is_none());
}

#[test]
fn a_board_is_solved_as_its_letters_are() {
    let solver = get_sample_solver();
    let board = Board::new(get_sample_board(), 4, 4, None);
    let by_board = solver.solve(&board).unwrap();
    let by_letters = solve_sample_board();
    assert_eq!(by_board.words(), by_letters.words());
    assert_eq!(by_board.path_tracks(), by_letters.path_tracks());
}
