//! Ship navigation by instruction list.
//!
//! One reading moves the ship itself and turns its heading in quarter
//! turns; the other moves a waypoint relative to the ship and lets `F`
//! advance the ship toward it a given number of times. Both end with the
//! taxicab distance from the origin.

use vstd::prelude::*;

verus! {

/// One navigation instruction: a compass move, a turn, or forward.
#[derive(Clone, Copy, Debug, PartialEq, Eq, Structural)]
pub enum Nav {
    N(u32),
    S(u32),
    E(u32),
    W(u32),
    L(u32),
    R(u32),
    F(u32),
}

/// A compass heading.
#[derive(Clone, Copy, Debug, PartialEq, Eq, Structural)]
pub enum Direction {
    N,
    E,
    S,
    W,
}

/// A ship position, east and north of the origin.
#[derive(Clone, Copy, Debug, PartialEq, Eq, Structural)]
pub struct Loc(pub i64, pub i64);

/// A waypoint offset, east and north of the ship.
#[derive(Clone, Copy, Debug, PartialEq, Eq, Structural)]
pub struct Waypoint(pub i64, pub i64);

/// The quarter-turn count of a heading, clockwise from north.
pub open spec fn dir_index(d: Direction) -> int {
    match d {
        Direction::N => 0,
        Direction::E => 1,
        Direction::S => 2,
        Direction::W => 3,
    }
}

/// The remainder of `a` by 360 with the sign of `a`, as machine signed
/// remainder gives it.
pub open spec fn trunc_mod_360(a: int) -> int {
    if a >= 0 {
        a % 360
    } else {
        -((-a) % 360)
    }
}

/// The heading after turning `degrees` from `direction`; degrees that are
/// no multiple of a quarter turn fall back to north, as the matching does.
pub open spec fn spec_rotate_direction(degrees: u32, direction: Direction, ccw: bool) -> Direction {
    let d = if ccw {
        -(degrees as int)
    } else {
        degrees as int
    };
    let m = trunc_mod_360(d + 90 * dir_index(direction));
    if m == 90 || m == -270 {
        Direction::E
    } else if m == 180 || m == -180 {
        Direction::S
    } else if m == 270 || m == -90 {
        Direction::W
    } else {
        Direction::N
    }
}

/// Turns a heading by the given degrees.
pub fn rotate_direction(degrees: u32, direction: Direction, counterclockwise: bool) -> (r:
    Direction)
    ensures
        r == spec_rotate_direction(degrees, direction, counterclockwise),
{
    let base: i64 = 90 * match direction {
        Direction::N => 0i64,
        Direction::E => 1i64,
        Direction::S => 2i64,
        Direction::W => 3i64,
    };
    let d: i64 = if counterclockwise {
        -(degrees as i64)
    } else {
        degrees as i64
    };
    let total = d + base;
    let m: i64 = if total >= 0 {
        ((total as u64) % 360) as i64
    } else {
        -((((-total) as u64) % 360) as i64)
    };
    proof {
        assert(m == trunc_mod_360(d + 90 * dir_index(direction)));
    }
    if m == 90 || m == -270 {
        Direction::E
    } else if m == 180 || m == -180 {
        Direction::S
    } else if m == 270 || m == -90 {
        Direction::W
    } else {
        Direction::N
    }
}

/// The waypoint after turning it `degrees` about the ship; degrees that
/// are no multiple of a quarter turn leave it unchanged.
pub open spec fn spec_rotate_wp(degrees: u32, wx: int, wy: int, ccw: bool) -> (int, int) {
    let d = if ccw {
        -(degrees as int)
    } else {
        degrees as int
    };
    let m = trunc_mod_360(d);
    if m == 90 || m == -270 {
        (wy, -wx)
    } else if m == 180 || m == -180 {
        (-wx, -wy)
    } else if m == 270 || m == -90 {
        (-wy, wx)
    } else {
        (wx, wy)
    }
}

/// Turns the waypoint by the given degrees about the ship.
pub fn rotate_waypoint(degrees: u32, waypoint: Waypoint, counterclockwise: bool) -> (r: Waypoint)
    requires
        -0x7fffffffffffffff <= waypoint.0 <= 0x7fffffffffffffff,
        -0x7fffffffffffffff <= waypoint.1 <= 0x7fffffffffffffff,
    ensures
        (r.0 as int, r.1 as int) == spec_rotate_wp(
            degrees,
            waypoint.0 as int,
            waypoint.1 as int,
            counterclockwise,
        ),
{
    let d: i64 = if counterclockwise {
        -(degrees as i64)
    } else {
        degrees as i64
    };
    let m: i64 = if d >= 0 {
        ((d as u64) % 360) as i64
    } else {
        -((((-d) as u64) % 360) as i64)
    };
    proof {
        assert(m == trunc_mod_360(d as int));
    }
    if m == 90 || m == -270 {
        Waypoint(waypoint.1, -waypoint.0)
    } else if m == 180 || m == -180 {
        Waypoint(-waypoint.0, -waypoint.1)
    } else if m == 270 || m == -90 {
        Waypoint(-waypoint.1, waypoint.0)
    } else {
        waypoint
    }
}

/// Every instruction's amount at most `bound`.
pub open spec fn navs_bounded(instrs: Seq<Nav>, bound: int) -> bool {
    forall|i: int|
        0 <= i < instrs.len() ==> match #[trigger] instrs[i] {
            Nav::N(a) => a <= bound,
            Nav::S(a) => a <= bound,
            Nav::E(a) => a <= bound,
            Nav::W(a) => a <= bound,
            Nav::L(a) => a <= bound,
            Nav::R(a) => a <= bound,
            Nav::F(a) => a <= bound,
        }
}

/// One step of the heading-based reading: compass moves and `F` move the
/// ship, turns move the heading.
pub open spec fn p1_step(st: (int, int, Direction), nav: Nav) -> (int, int, Direction) {
    let x = st.0;
    let y = st.1;
    let dir = st.2;
    let moved: (int, int) = match nav {
        Nav::N(a) => (x, y + a),
        Nav::S(a) => (x, y - a),
        Nav::E(a) => (x + a, y),
        Nav::W(a) => (x - a, y),
        Nav::F(a) => match dir {
            Direction::N => (x, y + a),
            Direction::S => (x, y - a),
            Direction::E => (x + a, y),
            Direction::W => (x - a, y),
        },
        _ => (x, y),
    };
    let new_dir = match nav {
        Nav::L(deg) => spec_rotate_direction(deg, dir, true),
        Nav::R(deg) => spec_rotate_direction(deg, dir, false),
        _ => dir,
    };
    (moved.0, moved.1, new_dir)
}

/// The ship's position and heading after the first `n` instructions of
/// the heading-based reading, from the origin facing east.
pub open spec fn p1_at(instrs: Seq<Nav>, n: nat) -> (int, int, Direction)
    decreases n,
{
    if n == 0 {
        (0, 0, Direction::E)
    } else {
        p1_step(p1_at(instrs, (n - 1) as nat), instrs[n - 1])
    }
}

/// Follows the instructions in the heading-based reading.
pub fn process_part_1(nav_instructions: &Vec<Nav>) -> (r: (Loc, Direction))
    requires
        nav_instructions@.len() <= 1000,
        navs_bounded(nav_instructions@, 1000),
    ensures
        ({
            let fin = p1_at(nav_instructions@, nav_instructions@.len() as nat);
            r.0.0 == fin.0 && r.0.1 == fin.1 && r.1 == fin.2
        }),
{
    let ghost instrs = nav_instructions@;
    let mut x: i64 = 0;
    let mut y: i64 = 0;
    let mut dir = Direction::E;
    let mut i: usize = 0;
    while i < nav_instructions.len()
        invariant
            instrs == nav_instructions@,
            instrs.len() <= 1000,
            navs_bounded(instrs, 1000),
            i <= instrs.len(),
            (x as int, y as int, dir) == p1_at(instrs, i as nat),
            -1000 * (i as int) <= x <= 1000 * (i as int),
            -1000 * (i as int) <= y <= 1000 * (i as int),
        decreases instrs.len() - i,
    {
        let nav = nav_instructions[i];
        match nav {
            Nav::N(a) => y = y + a as i64,
            Nav::S(a) => y = y - a as i64,
            Nav::E(a) => x = x + a as i64,
            Nav::W(a) => x = x - a as i64,
            Nav::F(a) => match dir {
                Direction::N => y = y + a as i64,
                Direction::S => y = y - a as i64,
                Direction::E => x = x + a as i64,
                Direction::W => x = x - a as i64,
            },
            Nav::L(deg) => dir = rotate_direction(deg, dir, true),
            Nav::R(deg) => dir = rotate_direction(deg, dir, false),
        }
        i = i + 1;
    }
    (Loc(x, y), dir)
}

/// One step of the waypoint-based reading: compass moves and turns act on
/// the waypoint, `F` advances the ship toward it that many times.
pub open spec fn p2_step(st: (int, int, int, int), nav: Nav) -> (int, int, int, int) {
    let lx = st.0;
    let ly = st.1;
    let wx = st.2;
    let wy = st.3;
    match nav {
        Nav::F(mult) => (lx + wx * mult, ly + wy * mult, wx, wy),
        Nav::N(a) => (lx, ly, wx, wy + a),
        Nav::S(a) => (lx, ly, wx, wy - a),
        Nav::E(a) => (lx, ly, wx + a, wy),
        Nav::W(a) => (lx, ly, wx - a, wy),
        Nav::L(deg) => {
            let w = spec_rotate_wp(deg, wx, wy, true);
            (lx, ly, w.0, w.1)
        },
        Nav::R(deg) => {
            let w = spec_rotate_wp(deg, wx, wy, false);
            (lx, ly, w.0, w.1)
        },
    }
}

/// The ship's position and waypoint after the first `n` instructions of
/// the waypoint-based reading, from the origin with the waypoint ten east
/// and one north.
pub open spec fn p2_at(instrs: Seq<Nav>, n: nat) -> (int, int, int, int)
    decreases n,
{
    if n == 0 {
        (0, 0, 10, 1)
    } else {
        p2_step(p2_at(instrs, (n - 1) as nat), instrs[n - 1])
    }
}

/// Follows the instructions in the waypoint-based reading.
pub fn process_part_2(nav_instructions: &Vec<Nav>) -> (r: (Loc, Waypoint))
    requires
        nav_instructions@.len() <= 1000,
        navs_bounded(nav_instructions@, 1000),
    ensures
        ({
            let fin = p2_at(nav_instructions@, nav_instructions@.len() as nat);
            r.0.0 == fin.0 && r.0.1 == fin.1 && r.1.0 == fin.2 && r.1.1 == fin.3
        }),
{
    let ghost instrs = nav_instructions@;
    let mut lx: i64 = 0;
    let mut ly: i64 = 0;
    let mut wp = Waypoint(10, 1);
    let mut i: usize = 0;
    while i < nav_instructions.len()
        invariant
            instrs == nav_instructions@,
            instrs.len() <= 1000,
            navs_bounded(instrs, 1000),
            i <= instrs.len(),
            (lx as int, ly as int, wp.0 as int, wp.1 as int) == p2_at(instrs, i as nat),
            -(10 + 1000 * (i as int)) <= wp.0 <= 10 + 1000 * (i as int),
            -(10 + 1000 * (i as int)) <= wp.1 <= 10 + 1000 * (i as int),
            -1000010000 * (i as int) <= lx <= 1000010000 * (i as int),
            -1000010000 * (i as int) <= ly <= 1000010000 * (i as int),
        decreases instrs.len() - i,
    {
        let nav = nav_instructions[i];
        match nav {
            Nav::F(mult) => {
                proof {
                    assert(wp.0 * mult <= 1000010000 && -1000010000 <= wp.0 * mult)
                        by (nonlinear_arith)
                        requires
                            -1000010 <= wp.0 <= 1000010,
                            0 <= mult <= 1000,
                    ;
                    assert(wp.1 * mult <= 1000010000 && -1000010000 <= wp.1 * mult)
                        by (nonlinear_arith)
                        requires
                            -1000010 <= wp.1 <= 1000010,
                            0 <= mult <= 1000,
                    ;
                }
                lx = lx + wp.0 * mult as i64;
                ly = ly + wp.1 * mult as i64;
            },
            Nav::N(a) => wp = Waypoint(wp.0, wp.1 + a as i64),
            Nav::S(a) => wp = Waypoint(wp.0, wp.1 - a as i64),
            Nav::E(a) => wp = Waypoint(wp.0 + a as i64, wp.1),
            Nav::W(a) => wp = Waypoint(wp.0 - a as i64, wp.1),
            Nav::L(deg) => wp = rotate_waypoint(deg, wp, true),
            Nav::R(deg) => wp = rotate_waypoint(deg, wp, false),
        }
        i = i + 1;
    }
    (Loc(lx, ly), wp)
}

/// The absolute value of an integer.
pub open spec fn abs1(x: int) -> int {
    if x < 0 {
        -x
    } else {
        x
    }
}

/// The taxicab distance of a position from the origin.
pub fn calc_manhattan_distance(loc: &Loc) -> (r: u32)
    requires
        -0x7fffffffffffffff <= loc.0,
        -0x7fffffffffffffff <= loc.1,
        abs1(loc.0 as int) + abs1(loc.1 as int) <= u32::MAX,
    ensures
        r == abs1(loc.0 as int) + abs1(loc.1 as int),
{
    let ax: i64 = if loc.0 < 0 {
        -loc.0
    } else {
        loc.0
    };
    let ay: i64 = if loc.1 < 0 {
        -loc.1
    } else {
        loc.1
    };
    (ax + ay) as u32
}

} // verus!
