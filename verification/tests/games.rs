use std::collections::VecDeque;

use puzzle_kit::cards;
use puzzle_kit::joltage;
use puzzle_kit::memory;
use puzzle_kit::trees;

fn chars(s: &str) -> Vec<char> {
    s.chars().collect()
}

fn deck(cards: &[u32]) -> VecDeque<u32> {
    cards.iter().copied().collect()
}

#[test]
fn sum_hand_weighs_positions() {
    let hand = deck(&[3, 2, 10, 6, 8, 5, 9, 4, 7, 1]);
    assert_eq!(cards::sum_hand(&hand), 306);
    assert_eq!(cards::sum_hand(&deck(&[])), 0);
    assert_eq!(cards::sum_hand(&deck(&[5])), 5);
}

#[test]
fn calculate_hash_is_deterministic() {
    let hand = deck(&[9, 2, 6, 3, 1]);
    let again = deck(&[9, 2, 6, 3, 1]);
    assert_eq!(cards::calculate_hash(&hand), cards::calculate_hash(&again));
    let other = deck(&[9, 2, 6, 3, 2]);
    assert_ne!(cards::calculate_hash(&hand), cards::calculate_hash(&other));
}

#[test]
fn simple_game_scores_the_winner() {
    let p1 = deck(&[9, 2, 6, 3, 1]);
    let p2 = deck(&[5, 8, 4, 7, 10]);
    assert_eq!(cards::part_1_simple_game(&p1, &p2), 306);
}

#[test]
fn simple_game_empty_opponent() {
    let p1 = deck(&[2, 1]);
    let p2 = deck(&[]);
    assert_eq!(cards::part_1_simple_game(&p1, &p2), 5);
}

#[test]
fn recursive_game_scores_the_winner() {
    let p1 = deck(&[9, 2, 6, 3, 1]);
    let p2 = deck(&[5, 8, 4, 7, 10]);
    let (p1_wins, score) = cards::part_2_rec_game(&p1, &p2);
    assert!(!p1_wins);
    assert_eq!(score, 291);
}

#[test]
fn recursive_game_repeat_goes_to_first_player() {
    let p1 = deck(&[43, 19]);
    let p2 = deck(&[2, 29, 14]);
    let (p1_wins, _) = cards::part_2_rec_game(&p1, &p2);
    assert!(p1_wins);
}

#[test]
fn starting_map_keeps_latest_turn() {
    let m = memory::generate_starting_map(&vec![0, 3, 6]);
    assert_eq!(m.get(&0), Some(&1));
    assert_eq!(m.get(&3), Some(&2));
    assert_eq!(m.get(&6), Some(&3));
    assert_eq!(m.get(&5), None);
    let again = memory::generate_starting_map(&vec![7, 7]);
    assert_eq!(again.get(&7), Some(&2));
}

#[test]
fn spoken_numbers_small_rounds() {
    // The opening rounds speak 0, 3, 6 and then 0, 3, 3, 1, 0, 4, 0.
    assert_eq!(memory::speak_numbers(&vec![0, 3, 6], 4), 0);
    assert_eq!(memory::speak_numbers(&vec![0, 3, 6], 5), 3);
    assert_eq!(memory::speak_numbers(&vec![0, 3, 6], 9), 4);
    assert_eq!(memory::speak_numbers(&vec![0, 3, 6], 10), 0);
    assert_eq!(memory::speak_numbers(&vec![0, 3, 6], 2020), 436);
    assert_eq!(memory::speak_numbers(&vec![1, 3, 2], 2020), 1);
    assert_eq!(memory::speak_numbers(&vec![2, 1, 3], 2020), 10);
}

#[test]
fn joltage_gap_counts() {
    let bag = vec![16, 10, 15, 5, 1, 11, 7, 19, 6, 12, 4];
    assert_eq!(joltage::count_jumps(&bag), (7, 5));
}

#[test]
fn joltage_empty_bag() {
    assert_eq!(joltage::count_jumps(&vec![]), (0, 1));
}

#[test]
fn tree_lookup_checks_bounds() {
    let row = chars("..#");
    assert!(trees::check_tree_at_index(2, &row));
    assert!(!trees::check_tree_at_index(0, &row));
    assert!(!trees::check_tree_at_index(9, &row));
}

#[test]
fn slope_products() {
    let rows: Vec<Vec<char>> = [
        "..##.......",
        "#...#...#..",
        ".#....#..#.",
        "..#.#...#.#",
        ".#...##..#.",
        "..#.##.....",
        ".#.#.#....#",
        ".#........#",
        "#.##...#...",
        "#...##....#",
        ".#..#...#.#",
    ]
        .iter()
        .map(|s| s.chars().collect())
        .collect();
    assert_eq!(trees::count_trees(&rows), 336);
}
