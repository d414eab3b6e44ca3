use boggle_maker::boggle_board::Board;
use boggle_maker::genetic_boggle_maker::{allele_list, BoggleFitness};
use boggle_maker::simple_genetic_boggle_maker::{GeneSource, GeneticBoard};
use word_trie::trie::{Dictionary, Trie};

fn trie_of(words: &[&str]) -> Trie {
    let mut trie = Trie::default();
    for word in words {
        trie.add_word(word);
    }
    trie
}

fn short_words() -> Trie {
    trie_of(&[
        "cat", "cats", "act", "acts", "tea", "teas", "eat", "eats", "ate", "sea", "seat", "set",
        "tes", "eta", "sat", "ace", "aces", "case", "cast", "caste", "east", "taces", "cesta",
    ])
}

fn member(letters: &str, width: usize, length: usize, age: u32, score: usize) -> GeneticBoard {
    GeneticBoard::new(Board::new(letters.chars().collect(), width, length, None), age, score)
}

#[test]
fn lengths_score_by_the_table() {
    let expected = [0, 0, 0, 1, 1, 2, 3, 5, 11, 11, 11];
    for (len, score) in expected.iter().enumerate() {
        assert_eq!(GeneticBoard::get_score(len), *score);
        assert_eq!(BoggleFitness::get_score(len), *score);
    }
    assert_eq!(GeneticBoard::get_score(usize::MAX), 11);
    assert_eq!(BoggleFitness::get_score(usize::MAX), 11);
}

#[test]
fn the_alleles_are_the_lower_case_letters() {
    let letters: String = allele_list().into_iter().collect();
    assert_eq!(letters, "abcdefghijklmnopqrstuvwxyz");
}

#[test]
fn fitness_is_the_total_score() {
    let trie = trie_of(&["ab", "ba", "abba", "abb"]);
    let fitness = BoggleFitness::new(&trie, 2, 2);
    assert_eq!(fitness.get_board_score(&"abba".chars().collect()), 2);
    assert_eq!(fitness.get_board_score(&"zzzz".chars().collect()), 0);
    let long = trie_of(&["teakettle", "teakettles", "tea", "kettle", "kettles"]);
    let row = BoggleFitness::new(&long, 1, 10);
    assert_eq!(row.get_board_score(&"teakettles".chars().collect()), 31);
}

#[test]
fn a_board_scores_its_distinct_words() {
    let trie = trie_of(&["cat", "cats", "act", "acts", "at", "cast", "scat", "tacs", "dog", "ca"]);
    let board = Board::new("CATS".chars().collect(), 2, 2, None);
    assert_eq!(GeneticBoard::get_board_score(&trie, &board), 7);
}

#[test]
fn a_member_keeps_what_it_was_made_of() {
    let made = member("ABCD", 2, 2, 3, 17);
    assert_eq!(made.board().hash(), "ABCD");
    assert_eq!(made.age(), 3);
    assert_eq!(made.score(), 17);
}

#[test]
fn a_cell_is_kept_crossed_or_mutated_by_what_was_drawn() {
    assert_eq!(GeneticBoard::gene_source(0, 99), GeneSource::Kept);
    assert_eq!(GeneticBoard::gene_source(69, 99), GeneSource::Kept);
    assert_eq!(GeneticBoard::gene_source(70, 99), GeneSource::Crossed);
    assert_eq!(GeneticBoard::gene_source(98, 99), GeneSource::Crossed);
    assert_eq!(GeneticBoard::gene_source(99, 99), GeneSource::Mutated);
    assert_eq!(GeneticBoard::gene_source(100, 99), GeneSource::Mutated);
    assert_eq!(GeneticBoard::gene_source(79, 80), GeneSource::Crossed);
    assert_eq!(GeneticBoard::gene_source(80, 80), GeneSource::Mutated);
    assert_eq!(GeneticBoard::gene_source(69, 80), GeneSource::Kept);
}

#[test]
fn parents_that_agree_in_four_of_five_cells_are_crossed_less() {
    assert_eq!(GeneticBoard::second_share(0, 16), 99);
    assert_eq!(GeneticBoard::second_share(12, 16), 99);
    assert_eq!(GeneticBoard::second_share(13, 16), 80);
    assert_eq!(GeneticBoard::second_share(16, 16), 80);
    assert_eq!(GeneticBoard::second_share(3, 5), 99);
    assert_eq!(GeneticBoard::second_share(4, 5), 80);
    assert_eq!(GeneticBoard::second_share(0, 0), 80);
    assert_eq!(GeneticBoard::second_share(usize::MAX, usize::MAX), 80);
    assert_eq!(GeneticBoard::second_share(usize::MAX / 2, usize::MAX), 99);
}

#[test]
fn similarity_counts_the_cells_that_agree() {
    let this = Board::new("ABCDEFGHI".chars().collect(), 3, 3, None);
    assert_eq!(GeneticBoard::similarity(&this, &this.copy()), 9);
    let that = Board::new("ABxDEFxHx".chars().collect(), 3, 3, None);
    assert_eq!(GeneticBoard::similarity(&this, &that), 6);
    let none = Board::new("zzzzzzzzz".chars().collect(), 3, 3, None);
    assert_eq!(GeneticBoard::similarity(&this, &none), 0);
    let empty = Board::new(Vec::new(), 0, 0, None);
    assert_eq!(GeneticBoard::similarity(&empty, &this), 0);
}

#[test]
fn the_higher_score_comes_first() {
    let low = member("AAAA", 2, 2, 1, 5);
    let high = member("BBBB", 2, 2, 2, 9);
    let ordered = GeneticBoard::order(&low, &high);
    assert_eq!(ordered.0.score(), 9);
    assert_eq!(ordered.1.score(), 5);
    let ordered = GeneticBoard::order(&high, &low);
    assert_eq!(ordered.0.score(), 9);
    assert_eq!(ordered.1.score(), 5);
}

#[test]
fn a_tie_is_settled_by_the_coin() {
    let this = member("AAAA", 2, 2, 1, 5);
    let that = member("BBBB", 2, 2, 2, 5);
    let ordered = GeneticBoard::order_tied(&this, &that, 0);
    assert_eq!((ordered.0.age(), ordered.1.age()), (1, 2));
    let ordered = GeneticBoard::order_tied(&this, &that, 1);
    assert_eq!((ordered.0.age(), ordered.1.age()), (2, 1));
    let ordered = GeneticBoard::order(&this, &that);
    assert_eq!(ordered.0.age() + ordered.1.age(), 3);
}

#[test]
fn the_better_of_two_places_wins_and_the_first_wins_a_tie() {
    let generation =
        vec![member("AAAA", 2, 2, 0, 5), member("BBBB", 2, 2, 0, 9), member("CCCC", 2, 2, 0, 5)];
    assert_eq!(GeneticBoard::better_of(&generation, 0, 1), 1);
    assert_eq!(GeneticBoard::better_of(&generation, 1, 0), 1);
    assert_eq!(GeneticBoard::better_of(&generation, 0, 2), 0);
    assert_eq!(GeneticBoard::better_of(&generation, 2, 0), 2);
    assert_eq!(GeneticBoard::better_of(&generation, 1, 1), 1);
    for _ in 0..20 {
        assert!(GeneticBoard::draw_parent(2, &generation) < 2);
    }
}

#[test]
fn a_child_takes_after_its_parents() {
    let strong = member("AAAAAAAAAAAAAAAA", 4, 4, 4, 20);
    let weak = member("bbbbbbbbbbbbbbbb", 4, 4, 7, 10);
    for _ in 0..20 {
        let child = strong.merge(&weak);
        assert_eq!(child.age(), 5);
        assert_eq!(child.score(), 0);
        assert_eq!(child.board().width(), 4);
        assert_eq!(child.board().length(), 4);
        assert_eq!(child.board().score(), None);
        assert_eq!(child.board().value().len(), 16);
        assert!(child.board().value().iter().all(|c| *c == 'b' || ('A'..='Z').contains(c)));
        let child = weak.merge(&strong);
        assert_eq!(child.age(), 5);
    }
    let kept: usize = (0..50)
        .map(|_| strong.merge(&weak).board().value().iter().filter(|c| **c == 'A').count())
        .sum();
    assert!(kept > 400);
}

#[test]
fn a_first_generation_is_ranked_and_scored() {
    let trie = short_words();
    let population = GeneticBoard::init_population(&trie, 6, 3, 3);
    assert_eq!(population.len(), 6);
    for pair in population.windows(2) {
        assert!(pair[0].score() >= pair[1].score());
        assert!(pair[0].board().hash() != pair[1].board().hash());
    }
    for member in &population {
        assert_eq!(member.age(), 0);
        assert_eq!(member.board().width(), 3);
        assert_eq!(member.board().length(), 3);
        assert_eq!(member.board().value().len(), 9);
        assert_eq!(member.score(), GeneticBoard::get_board_score(&trie, member.board()));
    }
    assert!(GeneticBoard::init_population(&trie, 0, 3, 3).is_empty());
}

#[test]
fn a_generation_keeps_its_best_board_and_its_size() {
    let trie = short_words();
    let first = GeneticBoard::init_population(&trie, 5, 3, 3);
    let best = first[0].score();
    let next = GeneticBoard::evolve_population(&trie, 5, &first);
    assert_eq!(next.len(), 5);
    assert!(next[0].score() >= best);
    for pair in next.windows(2) {
        assert!(pair[0].score() >= pair[1].score());
    }
    for member in &next {
        assert!(member.age() <= 1);
        assert_eq!(member.board().value().len(), 9);
        assert!(member.board().value().iter().all(|c| ('A'..='Z').contains(c)));
        assert_eq!(member.score(), GeneticBoard::get_board_score(&trie, member.board()));
    }
}

#[test]
fn the_maker_gives_a_board_of_the_dimensions_asked_for() {
    let trie = short_words();
    let board = GeneticBoard::get_board(&trie, 3, 3, 3);
    assert_eq!(board.width(), 3);
    assert_eq!(board.length(), 3);
    assert_eq!(board.score(), None);
    assert_eq!(board.value().len(), 9);
    assert!(board.value().iter().all(|c| ('A'..='Z').contains(c)));
}

#[test]
fn the_maker_stops_at_once_when_the_minimum_is_met() {
    let trie = trie_of(&["a", "b"]);
    let board = GeneticBoard::get_board(&trie, usize::MAX, 2, 2);
    assert_eq!(board.value().len(), 4);
}

#[test]
fn a_first_generation_comes_out_in_order_of_score() {
    // every word of three letters that starts in the first half of the alphabet
    let mut trie = Trie::default();
    for first in 'a'..='m' {
        for second in 'a'..='z' {
            for third in 'a'..='z' {
                let word: String = [first, second, third].iter().collect();
                trie.add_word(&word);
            }
        }
    }
    let population = GeneticBoard::init_population(&trie, 40, 1, 3);
    assert_eq!(population.len(), 40);
    for pair in population.windows(2) {
        assert!(pair[0].score() >= pair[1].score());
    }
    for member in &population {
        let letters = member.board().value();
        let forward = letters[0] <= 'M';
        let backward = letters[2] <= 'M' && letters[0] != letters[2];
        assert_eq!(member.score(), forward as usize + backward as usize);
    }
    assert!(population[0].score() > population[39].score());
}
