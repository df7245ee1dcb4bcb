use puzzle_kit::cubes;
use puzzle_kit::parse;
use puzzle_kit::seating;
use puzzle_kit::seating::Seat;

fn chars(s: &str) -> Vec<char> {
    s.chars().collect()
}

#[test]
fn split_lines_basic() {
    let lines = parse::split_lines(&chars("ab\ncd"));
    assert_eq!(lines, vec![chars("ab"), chars("cd")]);
}

#[test]
fn split_lines_trailing_newline() {
    let lines = parse::split_lines(&chars("ab\n"));
    assert_eq!(lines, vec![chars("ab"), chars("")]);
}

#[test]
fn to_int_plain() {
    assert_eq!(parse::to_int(&chars("123")), 123);
    assert_eq!(parse::to_int(&chars("+7")), 7);
    assert_eq!(parse::to_int(&chars("0")), 0);
}

#[test]
fn to_int_rejects() {
    assert_eq!(parse::to_int(&chars("")), 0);
    assert_eq!(parse::to_int(&chars("12a")), 0);
    assert_eq!(parse::to_int(&chars("99999999999")), 0);
    assert_eq!(parse::to_int(&chars("4294967295")), u32::MAX);
    assert_eq!(parse::to_int(&chars("4294967296")), 0);
}

#[test]
fn to_seat_markers() {
    assert_eq!(seating::to_seat('#'), Seat::Occ);
    assert_eq!(seating::to_seat('L'), Seat::Empty);
    assert_eq!(seating::to_seat('.'), Seat::Floor);
    assert_eq!(seating::to_seat('x'), Seat::Floor);
}

#[test]
fn map_to_counts_tallies() {
    let seats = vec![Seat::Occ, Seat::Empty, Seat::Occ, Seat::Floor];
    let counts = seating::map_to_counts(&seats);
    assert_eq!(counts.occ, 2);
    assert_eq!(counts.empty, 1);
    assert_eq!(counts.floor, 1);
}

#[test]
fn parse_chart_maps_markers() {
    let lines = vec![chars("L.#")];
    let grid = seating::parse_chart(&lines);
    assert_eq!(grid, vec![vec![Seat::Empty, Seat::Floor, Seat::Occ]]);
}

// Counting a state right after parsing equals counting its marker
// characters in the raw lines.
#[test]
fn parse_then_count_matches_markers() {
    let lines = parse::split_lines(&chars("L.LL\n#.#."));
    let grid = seating::parse_chart(&lines);
    assert_eq!(seating::count_state(&grid, Seat::Occ), 2);
    assert_eq!(seating::count_state(&grid, Seat::Empty), 3);
    assert_eq!(seating::count_state(&grid, Seat::Floor), 3);
}

#[test]
fn adjacent_counts_center() {
    let grid = seating::parse_chart(&vec![chars("###"), chars("#L#"), chars("###")]);
    let counts = seating::find_adj_seat_counts(&grid, 1, 1);
    assert_eq!(counts.occ, 8);
    assert_eq!(counts.empty, 0);
}

#[test]
fn adjacent_counts_corner() {
    let grid = seating::parse_chart(&vec![chars("L#"), chars("##")]);
    let counts = seating::find_adj_seat_counts(&grid, 0, 0);
    assert_eq!(counts.occ, 3);
}

#[test]
fn nearest_seat_sees_past_floor() {
    // In visible mode the first seat past the floor is taken; in adjacent
    // mode the floor cell itself is.
    let grid = seating::parse_chart(&vec![chars("L.#")]);
    let visible = seating::get_nearest_seat_in_direction(&grid, 0, 0, (0, 1), false);
    assert_eq!(visible, Some(Seat::Occ));
    let adjacent = seating::get_nearest_seat_in_direction(&grid, 0, 0, (0, 1), true);
    assert_eq!(adjacent, Some(Seat::Floor));
    let off_chart = seating::get_nearest_seat_in_direction(&grid, 0, 0, (0, -1), true);
    assert_eq!(off_chart, None);
}

#[test]
fn directional_counts_modes() {
    let grid = seating::parse_chart(&vec![chars("L.#")]);
    let visible = seating::find_directional_seat_counts(&grid, 0, 0, false);
    assert_eq!(visible.occ, 1);
    let adjacent = seating::find_directional_seat_counts(&grid, 0, 0, true);
    assert_eq!(adjacent.occ, 0);
    assert_eq!(adjacent.floor, 1);
}

// A 1-by-1 chart has no neighbors in any direction, and the rule still
// answers: the lone empty seat occupies.
#[test]
fn single_cell_chart() {
    let grid = vec![vec![Seat::Empty]];
    let counts = seating::find_directional_seat_counts(&grid, 0, 0, true);
    assert_eq!(counts.occ + counts.empty + counts.floor, 0);
    let settled = seating::decide_seating(&grid);
    assert_eq!(settled, vec![vec![Seat::Occ]]);
}

// The small two-row scenario: every empty seat here already sees one
// occupied neighbor, so no seat changes — the chart is its own fixed
// point, with the two occupied seats it started with.
#[test]
fn seating_scenario_is_already_settled() {
    let lines = parse::split_lines(&chars("L.LL\n#.#."));
    let grid = seating::parse_chart(&lines);
    let (_, changed) = seating::step(&grid);
    assert!(!changed);
    let settled = seating::decide_seating(&grid);
    assert_eq!(seating::count_state(&settled, Seat::Occ), 2);
    assert_eq!(settled, grid);
}

// A chart whose empty seats see no occupied neighbor fills up entirely.
#[test]
fn lonely_seats_all_occupy() {
    let lines = parse::split_lines(&chars("L.L\n...\nL.L"));
    let grid = seating::parse_chart(&lines);
    let settled = seating::decide_seating(&grid);
    assert_eq!(seating::count_state(&settled, Seat::Occ), 4);
}

// At a fixed point one more step changes nothing and returns the same
// chart.
#[test]
fn step_is_stable_at_fixed_point() {
    let lines = parse::split_lines(&chars("L.LL\n#.#."));
    let grid = seating::parse_chart(&lines);
    let settled = seating::decide_seating(&grid);
    let (next, changed) = seating::step(&settled);
    assert!(!changed);
    assert_eq!(next, settled);
}

// Every cell's next state is a function of the previous snapshot alone:
// recomputing any cell from the untouched old chart, in any order, gives
// exactly the cell the full step produced.
#[test]
fn step_reads_only_the_previous_snapshot() {
    let lines = parse::split_lines(&chars("LL#\n.#L\n##."));
    let grid = seating::parse_chart(&lines);
    let (next, _) = seating::step(&grid);
    for r in 0..3usize {
        for c in 0..3usize {
            let counts = seating::find_directional_seat_counts(&grid, r, c, true);
            let expected = match grid[r][c] {
                Seat::Occ => {
                    if counts.occ >= 4 {
                        Seat::Empty
                    } else {
                        Seat::Occ
                    }
                }
                Seat::Empty => {
                    if counts.occ == 0 {
                        Seat::Occ
                    } else {
                        Seat::Empty
                    }
                }
                Seat::Floor => Seat::Floor,
            };
            assert_eq!(next[r][c], expected);
        }
    }
}

#[test]
fn run_with_budget_steps_exactly() {
    let lines = parse::split_lines(&chars("L.LL\n#.#."));
    let grid = seating::parse_chart(&lines);
    let (after_one, _) = seating::step(&grid);
    let run_one = seating::run(&grid, Some(1));
    assert_eq!(after_one, run_one);
    assert_eq!(seating::run(&grid, Some(0)), grid);
}

#[test]
fn empty_plane_is_inactive() {
    let plane = cubes::create_empty_plane(&[2, 3, 4]);
    assert_eq!(plane.len(), 2);
    assert_eq!(plane[0].len(), 3);
    assert_eq!(plane[0][0].len(), 4);
    assert_eq!(cubes::count_state(&plane, cubes::Cube::A), 0);
    assert_eq!(cubes::count_state(&plane, cubes::Cube::I), 24);
}

#[test]
fn cube_map_to_counts_tallies() {
    let row = vec![cubes::Cube::A, cubes::Cube::I, cubes::Cube::A];
    let counts = cubes::map_to_counts(&row);
    assert_eq!(counts.active, 2);
    assert_eq!(counts.inactive, 1);
}

#[test]
fn nearest_cube_checks_walls() {
    let dims = [3, 3, 3];
    let plane = cubes::initial_plane(&vec![chars("#")], 1, &dims);
    let center = cubes::get_nearest_cube_in_direction(&plane, &dims, (0, 1, 1), &(1, 0, 0));
    assert_eq!(center, Some(cubes::Cube::A));
    let outside = cubes::get_nearest_cube_in_direction(&plane, &dims, (0, 0, 0), &(-1, 0, 0));
    assert_eq!(outside, None);
}

// The finite-horizon scenario: a single active cube dies after one step
// (fewer than two active neighbors) and nothing activates, so the count is
// zero after one step and still zero after two.
#[test]
fn lone_cube_dies_and_stays_dead() {
    let dims = [3, 3, 3];
    let plane = cubes::initial_plane(&vec![chars("#")], 1, &dims);
    assert_eq!(cubes::count_state(&plane, cubes::Cube::A), 1);
    let after_one = cubes::run(&plane, &dims, Some(1));
    assert_eq!(cubes::count_state(&after_one, cubes::Cube::A), 0);
    let after_two = cubes::run(&plane, &dims, Some(2));
    assert_eq!(cubes::count_state(&after_two, cubes::Cube::A), 0);
}

// A small three-row sheet grows to 112 active cubes after six steps in a
// sufficiently padded box.
#[test]
fn cube_life_small_sheet() {
    let cycles = 6;
    let lines = vec![chars(".#."), chars("..#"), chars("###")];
    let size = 3 + 2 * cycles;
    let dims = [1 + 2 * cycles, size, size];
    let plane = cubes::initial_plane(&lines, cycles, &dims);
    let final_plane = cubes::run(&plane, &dims, Some(cycles as u32));
    assert_eq!(cubes::count_state(&final_plane, cubes::Cube::A), 112);
}
