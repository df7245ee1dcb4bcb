use puzzle_kit::answers;
use puzzle_kit::bags;
use puzzle_kit::instructions;
use puzzle_kit::instructions::OP;
use puzzle_kit::navigation;
use puzzle_kit::navigation::{Direction, Loc, Nav, Waypoint};
use puzzle_kit::passports;

fn chars(s: &str) -> Vec<char> {
    s.chars().collect()
}

#[test]
fn passport_year_fields() {
    assert!(passports::is_valid_passport_value(&chars("byr"), &chars("2002")));
    assert!(!passports::is_valid_passport_value(&chars("byr"), &chars("2003")));
    assert!(passports::is_valid_passport_value(&chars("iyr"), &chars("2015")));
    assert!(!passports::is_valid_passport_value(&chars("eyr"), &chars("2031")));
}

#[test]
fn passport_height_field() {
    assert!(passports::is_valid_passport_value(&chars("hgt"), &chars("60in")));
    assert!(passports::is_valid_passport_value(&chars("hgt"), &chars("190cm")));
    assert!(!passports::is_valid_passport_value(&chars("hgt"), &chars("190in")));
    assert!(!passports::is_valid_passport_value(&chars("hgt"), &chars("190")));
    assert!(!passports::is_valid_passport_value(&chars("hgt"), &chars("x")));
}

#[test]
fn passport_color_and_id_fields() {
    assert!(passports::is_valid_passport_value(&chars("hcl"), &chars("#123abc")));
    assert!(!passports::is_valid_passport_value(&chars("hcl"), &chars("#123abz")));
    assert!(!passports::is_valid_passport_value(&chars("hcl"), &chars("123abc")));
    assert!(passports::is_valid_passport_value(&chars("ecl"), &chars("brn")));
    assert!(!passports::is_valid_passport_value(&chars("ecl"), &chars("wat")));
    assert!(passports::is_valid_passport_value(&chars("pid"), &chars("087499704")));
    assert!(!passports::is_valid_passport_value(&chars("pid"), &chars("0123456789")));
    assert!(!passports::is_valid_passport_value(&chars("cid"), &chars("100")));
}

#[test]
fn read_passports_counts_complete_records() {
    let good = "byr:1980 iyr:2012 eyr:2030 hgt:74in hcl:#623a2f ecl:grn pid:087499704\n\n";
    assert_eq!(passports::read_passports(&chars(good)), 1);
    let missing_field = "byr:1980 iyr:2012 eyr:2030 hgt:74in hcl:#623a2f ecl:grn\n\n";
    assert_eq!(passports::read_passports(&chars(missing_field)), 0);
    let two = format!("{}{}", good, good);
    assert_eq!(passports::read_passports(&two.chars().collect::<Vec<char>>()), 2);
}

#[test]
fn unique_answers_dedup() {
    assert_eq!(answers::count_unique_answers(&chars("abcabc")), 3);
    assert_eq!(answers::count_unique_answers(&chars("")), 0);
    assert_eq!(answers::count_unique_answers(&chars("aaaa")), 1);
}

#[test]
fn groups_split_on_blank_lines() {
    let raw = chars("ab\ncd\n\nef");
    let flattened = answers::format_groups_flattened(&raw);
    assert_eq!(flattened, vec![chars("abcd"), chars("ef")]);
    let groups = answers::format_groups(&raw);
    assert_eq!(groups, vec![vec![chars("ab"), chars("cd")], vec![chars("ef")]]);
}

#[test]
fn unanimous_answers_intersect() {
    // Both members agree on a and b only; a wrapper that handed its input
    // back unchanged would report three.
    let group = vec![chars("abc"), chars("ab")];
    assert_eq!(answers::count_unanimous_answers(&group), 2);
    let disjoint = vec![chars("ab"), chars("cd")];
    assert_eq!(answers::count_unanimous_answers(&disjoint), 0);
    assert_eq!(answers::count_unanimous_answers(&vec![]), 0);
    let duplicates = vec![chars("aab"), chars("ba")];
    assert_eq!(answers::count_unanimous_answers(&duplicates), 2);
}

#[test]
fn traverse_collects_ancestors() {
    // Bag 0 may sit in 1 or 2, bag 1 in 2, bag 2 in nothing.
    let graph = vec![vec![1, 2], vec![2], vec![]];
    let mut reachable = bags::traverse(0, &graph);
    reachable.sort();
    assert_eq!(reachable, vec![0, 1, 2]);
    assert_eq!(bags::traverse(2, &graph), vec![2]);
}

#[test]
fn traverse_handles_cycles() {
    let graph = vec![vec![1], vec![0]];
    let mut reachable = bags::traverse(0, &graph);
    reachable.sort();
    assert_eq!(reachable, vec![0, 1]);
}

#[test]
fn rotations() {
    assert_eq!(navigation::rotate_direction(90, Direction::E, false), Direction::S);
    assert_eq!(navigation::rotate_direction(90, Direction::E, true), Direction::N);
    assert_eq!(navigation::rotate_direction(270, Direction::N, false), Direction::W);
    assert_eq!(navigation::rotate_direction(360, Direction::W, false), Direction::W);
    let w = navigation::rotate_waypoint(90, Waypoint(10, 4), false);
    assert_eq!((w.0, w.1), (4, -10));
    let w = navigation::rotate_waypoint(90, Waypoint(10, 4), true);
    assert_eq!((w.0, w.1), (-4, 10));
}

#[test]
fn navigation_scenario() {
    let route = vec![Nav::F(10), Nav::N(3), Nav::F(7), Nav::R(90), Nav::F(11)];
    let (loc, dir) = navigation::process_part_1(&route);
    assert_eq!((loc.0, loc.1), (17, -8));
    assert_eq!(dir, Direction::S);
    assert_eq!(navigation::calc_manhattan_distance(&loc), 25);
    let (loc2, _) = navigation::process_part_2(&route);
    assert_eq!((loc2.0, loc2.1), (214, -72));
    assert_eq!(navigation::calc_manhattan_distance(&loc2), 286);
}

#[test]
fn manhattan_distance_uses_magnitudes() {
    assert_eq!(navigation::calc_manhattan_distance(&Loc(-3, 4)), 7);
    assert_eq!(navigation::calc_manhattan_distance(&Loc(0, 0)), 0);
}

#[test]
fn signed_to_int() {
    assert_eq!(instructions::to_int(&chars("-5")), -5);
    assert_eq!(instructions::to_int(&chars("+3")), 3);
    assert_eq!(instructions::to_int(&chars("12")), 12);
    assert_eq!(instructions::to_int(&chars("")), 0);
    assert_eq!(instructions::to_int(&chars("-")), 0);
    assert_eq!(instructions::to_int(&chars("9223372036854775807")), i64::MAX);
    assert_eq!(instructions::to_int(&chars("-9223372036854775808")), i64::MIN);
    assert_eq!(instructions::to_int(&chars("9223372036854775808")), 0);
}

#[test]
fn safely_change_index_floors_at_zero() {
    assert_eq!(instructions::safely_change_index(5, -2), 3);
    assert_eq!(instructions::safely_change_index(5, -9), 0);
    assert_eq!(instructions::safely_change_index(5, 4), 9);
}

fn sample_program() -> Vec<OP> {
    vec![
        OP::Nop(0),
        OP::Acc(1),
        OP::Jmp(4),
        OP::Acc(3),
        OP::Jmp(-3),
        OP::Acc(-99),
        OP::Acc(1),
        OP::Jmp(-4),
        OP::Acc(6),
    ]
}

#[test]
fn accumulator_stops_before_looping() {
    let (acc, looped_at, visited) = instructions::accumulate_from_instructions(
        &sample_program(),
        None,
    );
    assert_eq!(acc, 5);
    assert!(looped_at.is_some());
    assert_eq!(visited.get(&0), Some(&1));
}

#[test]
fn accumulator_fix_finds_the_swap() {
    assert_eq!(
        instructions::accumulate_and_fix_broken_instruction(&sample_program()),
        Some(8),
    );
}

#[test]
fn accumulator_normal_run_needs_no_fix() {
    let program = vec![OP::Acc(2), OP::Acc(3)];
    assert_eq!(instructions::accumulate_and_fix_broken_instruction(&program), Some(5));
}

#[test]
fn accumulator_unfixable_program() {
    // The run loops at the first instruction; swapping it for a no-op
    // still loops at the second, so no repair is found.
    let program = vec![OP::Jmp(0), OP::Jmp(0)];
    assert_eq!(instructions::accumulate_and_fix_broken_instruction(&program), None);
}
