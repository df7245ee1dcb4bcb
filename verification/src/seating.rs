//! Two-dimensional seat-occupancy automaton.
//!
//! A rectangular chart of seats steps under a local rule: an empty seat
//! with no occupied neighbors becomes occupied, and an occupied seat with
//! four or more occupied neighbors empties. Neighbors are found either by
//! looking only at the eight adjacent cells, or by looking outward along
//! the eight directions until a seat (not floor) or the boundary is found.

use vstd::prelude::*;

verus! {

/// One cell of the seating chart.
#[derive(Clone, Copy, Debug, PartialEq, Eq, Structural)]
pub enum Seat {
    Empty,
    Occ,
    Floor,
}

impl View for Seat {
    type V = Seat;

    open spec fn view(&self) -> Seat {
        *self
    }
}

impl DeepView for Seat {
    type V = Seat;

    open spec fn deep_view(&self) -> Seat {
        *self
    }
}

/// The cell state a marker character denotes: `#` occupied, `L` empty,
/// anything else floor.
pub open spec fn spec_to_seat(c: char) -> Seat {
    if c == '#' {
        Seat::Occ
    } else if c == 'L' {
        Seat::Empty
    } else {
        Seat::Floor
    }
}

/// Maps one marker character to its cell state.
pub fn to_seat(c: char) -> (s: Seat)
    ensures
        s == spec_to_seat(c),
{
    match c {
        '#' => Seat::Occ,
        'L' => Seat::Empty,
        _ => Seat::Floor,
    }
}

/// How many cells of a row hold a given state.
pub open spec fn count_seat(s: Seq<Seat>, t: Seat) -> int
    decreases s.len(),
{
    if s.len() == 0 {
        0
    } else {
        count_seat(s.drop_last(), t) + if s.last() == t {
            1int
        } else {
            0int
        }
    }
}

/// A count never exceeds the row's length.
pub proof fn lemma_count_seat_bound(s: Seq<Seat>, t: Seat)
    ensures
        0 <= count_seat(s, t) <= s.len(),
    decreases s.len(),
{
    if s.len() > 0 {
        lemma_count_seat_bound(s.drop_last(), t);
    }
}

/// How many seats of a list hold each state.
#[derive(Clone, Copy, Debug, PartialEq, Eq, Structural)]
pub struct SeatCounts {
    pub empty: u32,
    pub occ: u32,
    pub floor: u32,
}

/// Tallies a list of seats by state.
pub fn map_to_counts(seats: &Vec<Seat>) -> (counts: SeatCounts)
    requires
        seats@.len() <= u32::MAX,
    ensures
        counts.empty == count_seat(seats@, Seat::Empty),
        counts.occ == count_seat(seats@, Seat::Occ),
        counts.floor == count_seat(seats@, Seat::Floor),
{
    let mut counts = SeatCounts { empty: 0, occ: 0, floor: 0 };
    let mut i: usize = 0;
    proof {
        assert(seats@.take(0) =~= Seq::<Seat>::empty());
    }
    while i < seats.len()
        invariant
            i <= seats@.len() <= u32::MAX,
            counts.empty == count_seat(seats@.take(i as int), Seat::Empty),
            counts.occ == count_seat(seats@.take(i as int), Seat::Occ),
            counts.floor == count_seat(seats@.take(i as int), Seat::Floor),
        decreases seats@.len() - i,
    {
        proof {
            assert(seats@.take(i + 1).drop_last() =~= seats@.take(i as int));
            lemma_count_seat_bound(seats@.take(i as int), Seat::Empty);
            lemma_count_seat_bound(seats@.take(i as int), Seat::Occ);
            lemma_count_seat_bound(seats@.take(i as int), Seat::Floor);
        }
        match seats[i] {
            Seat::Empty => counts.empty = counts.empty + 1,
            Seat::Occ => counts.occ = counts.occ + 1,
            Seat::Floor => counts.floor = counts.floor + 1,
        }
        i = i + 1;
    }
    proof {
        assert(seats@.take(seats@.len() as int) =~= seats@);
    }
    counts
}

/// Every chart row, seen through the chart's element views, is the row of
/// the chart's deep view.
pub proof fn lemma_rows_view(v: &Vec<Vec<Seat>>)
    ensures
        forall|i: int| 0 <= i < v@.len() ==> (#[trigger] v@[i]@) == v.deep_view()[i],
{
    assert forall|i: int| 0 <= i < v@.len() implies (#[trigger] v@[i]@) == v.deep_view()[i] by {
        assert(v@[i].deep_view() =~= v@[i]@);
    }
}

/// A well-formed chart: at least one row, at least one column, and every
/// row of the same length.
pub open spec fn chart_wf(g: Seq<Seq<Seat>>) -> bool {
    &&& g.len() > 0
    &&& g[0].len() > 0
    &&& forall|i: int| 0 <= i < g.len() ==> (#[trigger] g[i]).len() == g[0].len()
}

/// Both chart extents stay below the signed 32-bit limit, so coordinate
/// arithmetic cannot overflow.
pub open spec fn chart_sized(g: Seq<Seq<Seat>>) -> bool {
    g.len() <= i32::MAX && g[0].len() <= i32::MAX
}

/// A coordinate that lies on the chart.
pub open spec fn in_chart(g: Seq<Seq<Seat>>, r: int, c: int) -> bool {
    0 <= r < g.len() && 0 <= c < g[0].len()
}

/// How far a walk along `(dr, dc)` can go before leaving the chart; only
/// used to ground the recursion of [`spec_nearest`].
pub open spec fn walk_measure(g: Seq<Seq<Seat>>, r: int, c: int, dr: int, dc: int) -> int {
    if dr > 0 {
        g.len() - r
    } else if dr < 0 {
        r + 1
    } else if dc > 0 {
        g[0].len() - c
    } else {
        c + 1
    }
}

/// The seat a cell sees along one direction: with `take_adjacent`, the
/// immediate neighbor cell whatever it holds; otherwise the first cell
/// along the direction that is not floor. `None` when the walk leaves the
/// chart first.
pub open spec fn spec_nearest(
    g: Seq<Seq<Seat>>,
    r: int,
    c: int,
    dr: int,
    dc: int,
    take_adjacent: bool,
) -> Option<Seat>
    decreases walk_measure(g, r, c, dr, dc),
{
    if dr == 0 && dc == 0 {
        None
    } else if !in_chart(g, r + dr, c + dc) {
        None
    } else if take_adjacent || g[r + dr][c + dc] != Seat::Floor {
        Some(g[r + dr][c + dc])
    } else {
        spec_nearest(g, r + dr, c + dc, dr, dc, take_adjacent)
    }
}

/// Whether the seat seen along one direction holds state `t`.
pub open spec fn dir_ind(
    g: Seq<Seq<Seat>>,
    r: int,
    c: int,
    dr: int,
    dc: int,
    adj: bool,
    t: Seat,
) -> int {
    if spec_nearest(g, r, c, dr, dc, adj) == Some(t) {
        1
    } else {
        0
    }
}

/// How many of the eight directions see state `t` from cell `(r, c)`.
pub open spec fn dir_count(g: Seq<Seq<Seat>>, r: int, c: int, adj: bool, t: Seat) -> int {
    dir_ind(g, r, c, -1, -1, adj, t) + dir_ind(g, r, c, -1, 0, adj, t) + dir_ind(
        g,
        r,
        c,
        -1,
        1,
        adj,
        t,
    ) + dir_ind(g, r, c, 0, -1, adj, t) + dir_ind(g, r, c, 0, 1, adj, t) + dir_ind(
        g,
        r,
        c,
        1,
        -1,
        adj,
        t,
    ) + dir_ind(g, r, c, 1, 0, adj, t) + dir_ind(g, r, c, 1, 1, adj, t)
}

/// The eight direction offsets, in the order they are scanned.
pub open spec fn spec_directions() -> Seq<(i32, i32)> {
    seq![
        (-1i32, -1i32),
        (-1i32, 0i32),
        (-1i32, 1i32),
        (0i32, -1i32),
        (0i32, 1i32),
        (1i32, -1i32),
        (1i32, 0i32),
        (1i32, 1i32),
    ]
}

/// The directional tally over the first `k` of the eight directions.
pub open spec fn dir_count_upto(g: Seq<Seq<Seat>>, r: int, c: int, adj: bool, t: Seat, k: int) -> int
    decreases k,
{
    if k <= 0 {
        0
    } else {
        dir_count_upto(g, r, c, adj, t, k - 1) + dir_ind(
            g,
            r,
            c,
            spec_directions()[k - 1].0 as int,
            spec_directions()[k - 1].1 as int,
            adj,
            t,
        )
    }
}

/// Every scanned direction offset is one step long and not the zero offset.
pub proof fn lemma_directions_facts()
    ensures
        spec_directions().len() == 8,
        forall|j: int|
            0 <= j < 8 ==> {
                &&& -1 <= (#[trigger] spec_directions()[j]).0 <= 1
                &&& -1 <= spec_directions()[j].1 <= 1
                &&& !(spec_directions()[j].0 == 0 && spec_directions()[j].1 == 0)
            },
{
    assert(spec_directions()[0] == (-1i32, -1i32));
    assert(spec_directions()[1] == (-1i32, 0i32));
    assert(spec_directions()[2] == (-1i32, 1i32));
    assert(spec_directions()[3] == (0i32, -1i32));
    assert(spec_directions()[4] == (0i32, 1i32));
    assert(spec_directions()[5] == (1i32, -1i32));
    assert(spec_directions()[6] == (1i32, 0i32));
    assert(spec_directions()[7] == (1i32, 1i32));
}

/// Scanning all eight directions gives the directional tally.
pub proof fn lemma_dir_count_full(g: Seq<Seq<Seat>>, r: int, c: int, adj: bool, t: Seat)
    ensures
        dir_count_upto(g, r, c, adj, t, 8) == dir_count(g, r, c, adj, t),
{
    lemma_directions_facts();
    assert(dir_count_upto(g, r, c, adj, t, 0) == 0);
    assert(dir_count_upto(g, r, c, adj, t, 1) == dir_ind(g, r, c, -1, -1, adj, t));
    assert(dir_count_upto(g, r, c, adj, t, 2) == dir_count_upto(g, r, c, adj, t, 1) + dir_ind(
        g, r, c, -1, 0, adj, t));
    assert(dir_count_upto(g, r, c, adj, t, 3) == dir_count_upto(g, r, c, adj, t, 2) + dir_ind(
        g, r, c, -1, 1, adj, t));
    assert(dir_count_upto(g, r, c, adj, t, 4) == dir_count_upto(g, r, c, adj, t, 3) + dir_ind(
        g, r, c, 0, -1, adj, t));
    assert(dir_count_upto(g, r, c, adj, t, 5) == dir_count_upto(g, r, c, adj, t, 4) + dir_ind(
        g, r, c, 0, 1, adj, t));
    assert(dir_count_upto(g, r, c, adj, t, 6) == dir_count_upto(g, r, c, adj, t, 5) + dir_ind(
        g, r, c, 1, -1, adj, t));
    assert(dir_count_upto(g, r, c, adj, t, 7) == dir_count_upto(g, r, c, adj, t, 6) + dir_ind(
        g, r, c, 1, 0, adj, t));
    assert(dir_count_upto(g, r, c, adj, t, 8) == dir_count_upto(g, r, c, adj, t, 7) + dir_ind(
        g, r, c, 1, 1, adj, t));
}

/// Whether the adjacent cell at offset `(dr, dc)` holds state `t`.
pub open spec fn nb(g: Seq<Seq<Seat>>, r: int, c: int, t: Seat) -> int {
    if in_chart(g, r, c) && g[r][c] == t {
        1
    } else {
        0
    }
}

/// How many of the eight cells around `(r, c)` hold state `t`.
pub open spec fn adj_count(g: Seq<Seq<Seat>>, r: int, c: int, t: Seat) -> int {
    nb(g, r - 1, c, t) + nb(g, r - 1, c - 1, t) + nb(g, r - 1, c + 1, t) + nb(g, r + 1, c, t) + nb(
        g,
        r + 1,
        c - 1,
        t,
    ) + nb(g, r + 1, c + 1, t) + nb(g, r, c - 1, t) + nb(g, r, c + 1, t)
}

/// Raises the tally of one seat state by one.
fn tally(counts: SeatCounts, s: Seat) -> (r: SeatCounts)
    requires
        counts.empty < u32::MAX,
        counts.occ < u32::MAX,
        counts.floor < u32::MAX,
    ensures
        r.empty == counts.empty + if s == Seat::Empty { 1int } else { 0int },
        r.occ == counts.occ + if s == Seat::Occ { 1int } else { 0int },
        r.floor == counts.floor + if s == Seat::Floor { 1int } else { 0int },
{
    match s {
        Seat::Empty => SeatCounts { empty: counts.empty + 1, ..counts },
        Seat::Occ => SeatCounts { occ: counts.occ + 1, ..counts },
        Seat::Floor => SeatCounts { floor: counts.floor + 1, ..counts },
    }
}

/// In adjacent mode, the seat seen along a one-step direction is exactly
/// the adjacent cell.
pub proof fn lemma_adjacent_tally(g: Seq<Seq<Seat>>, r: int, c: int, t: Seat)
    ensures
        adj_count(g, r, c, t) == dir_count(g, r, c, true, t),
{
    assert(dir_ind(g, r, c, -1, 0, true, t) == nb(g, r - 1, c, t));
    assert(dir_ind(g, r, c, -1, -1, true, t) == nb(g, r - 1, c - 1, t));
    assert(dir_ind(g, r, c, -1, 1, true, t) == nb(g, r - 1, c + 1, t));
    assert(dir_ind(g, r, c, 1, 0, true, t) == nb(g, r + 1, c, t));
    assert(dir_ind(g, r, c, 1, -1, true, t) == nb(g, r + 1, c - 1, t));
    assert(dir_ind(g, r, c, 1, 1, true, t) == nb(g, r + 1, c + 1, t));
    assert(dir_ind(g, r, c, 0, -1, true, t) == nb(g, r, c - 1, t));
    assert(dir_ind(g, r, c, 0, 1, true, t) == nb(g, r, c + 1, t));
}

/// Tallies the up-to-eight cells adjacent to `(row, seat)`.
pub fn find_adj_seat_counts(seating_chart: &Vec<Vec<Seat>>, row: usize, seat: usize) -> (counts:
    SeatCounts)
    requires
        chart_wf(seating_chart.deep_view()),
        chart_sized(seating_chart.deep_view()),
        row < seating_chart.deep_view().len(),
        seat < seating_chart.deep_view()[0].len(),
    ensures
        counts.empty == adj_count(seating_chart.deep_view(), row as int, seat as int, Seat::Empty),
        counts.occ == adj_count(seating_chart.deep_view(), row as int, seat as int, Seat::Occ),
        counts.floor == adj_count(seating_chart.deep_view(), row as int, seat as int, Seat::Floor),
{
    let counts = find_directional_seat_counts(seating_chart, row, seat, true);
    proof {
        lemma_adjacent_tally(seating_chart.deep_view(), row as int, seat as int, Seat::Empty);
        lemma_adjacent_tally(seating_chart.deep_view(), row as int, seat as int, Seat::Occ);
        lemma_adjacent_tally(seating_chart.deep_view(), row as int, seat as int, Seat::Floor);
    }
    counts
}

/// Walks outward from `(row, seat)` along `direction`, mirroring
/// [`spec_nearest`].
pub fn get_nearest_seat_in_direction(
    seating_chart: &Vec<Vec<Seat>>,
    row: usize,
    seat: usize,
    direction: (i32, i32),
    take_adjacent: bool,
) -> (found: Option<Seat>)
    requires
        chart_wf(seating_chart.deep_view()),
        chart_sized(seating_chart.deep_view()),
        row < seating_chart.deep_view().len(),
        seat < seating_chart.deep_view()[0].len(),
        -1 <= direction.0 <= 1,
        -1 <= direction.1 <= 1,
        !(direction.0 == 0 && direction.1 == 0),
    ensures
        found == spec_nearest(
            seating_chart.deep_view(),
            row as int,
            seat as int,
            direction.0 as int,
            direction.1 as int,
            take_adjacent,
        ),
{
    proof {
        lemma_rows_view(seating_chart);
    }
    let ghost g = seating_chart.deep_view();
    let mut nearest_row = row as i32;
    let mut nearest_seat = seat as i32;
    let row_len = (seating_chart[0].len() - 1) as i32;
    let chart_len = (seating_chart.len() - 1) as i32;
    loop
        invariant
            chart_wf(g),
            chart_sized(g),
            g == seating_chart.deep_view(),
            row_len == g[0].len() - 1,
            chart_len == g.len() - 1,
            -1 <= direction.0 <= 1,
            -1 <= direction.1 <= 1,
            !(direction.0 == 0 && direction.1 == 0),
            in_chart(g, nearest_row as int, nearest_seat as int),
            spec_nearest(
                g,
                row as int,
                seat as int,
                direction.0 as int,
                direction.1 as int,
                take_adjacent,
            ) == spec_nearest(
                g,
                nearest_row as int,
                nearest_seat as int,
                direction.0 as int,
                direction.1 as int,
                take_adjacent,
            ),
        decreases walk_measure(
            g,
            nearest_row as int,
            nearest_seat as int,
            direction.0 as int,
            direction.1 as int,
        ),
    {
        proof {
            lemma_rows_view(seating_chart);
        }
        nearest_row = nearest_row + direction.0;
        nearest_seat = nearest_seat + direction.1;
        if nearest_row < 0 || nearest_row > chart_len || nearest_seat < 0 || nearest_seat > row_len
        {
            return None;
        }
        let found_seat = seating_chart[nearest_row as usize][nearest_seat as usize];
        if take_adjacent || found_seat == Seat::Occ || found_seat == Seat::Empty {
            return Some(found_seat);
        }
    }
}

/// Tallies, for each of the eight directions, the seat that `(row, seat)`
/// sees there.
pub fn find_directional_seat_counts(
    seating_chart: &Vec<Vec<Seat>>,
    row: usize,
    seat: usize,
    take_adjacent: bool,
) -> (counts: SeatCounts)
    requires
        chart_wf(seating_chart.deep_view()),
        chart_sized(seating_chart.deep_view()),
        row < seating_chart.deep_view().len(),
        seat < seating_chart.deep_view()[0].len(),
    ensures
        counts.empty == dir_count(
            seating_chart.deep_view(),
            row as int,
            seat as int,
            take_adjacent,
            Seat::Empty,
        ),
        counts.occ == dir_count(
            seating_chart.deep_view(),
            row as int,
            seat as int,
            take_adjacent,
            Seat::Occ,
        ),
        counts.floor == dir_count(
            seating_chart.deep_view(),
            row as int,
            seat as int,
            take_adjacent,
            Seat::Floor,
        ),
{
    let ghost g = seating_chart.deep_view();
    let ghost r = row as int;
    let ghost c = seat as int;
    let mut directions: Vec<(i32, i32)> = Vec::new();
    directions.push((-1, -1));
    directions.push((-1, 0));
    directions.push((-1, 1));
    directions.push((0, -1));
    directions.push((0, 1));
    directions.push((1, -1));
    directions.push((1, 0));
    directions.push((1, 1));
    proof {
        assert(directions@ =~= spec_directions());
        lemma_directions_facts();
    }
    let mut counts = SeatCounts { empty: 0, occ: 0, floor: 0 };
    let mut k: usize = 0;
    while k < 8
        invariant
            0 <= k <= 8,
            g == seating_chart.deep_view(),
            r == row as int,
            c == seat as int,
            chart_wf(g),
            chart_sized(g),
            row < g.len(),
            seat < g[0].len(),
            directions@ == spec_directions(),
            counts.empty == dir_count_upto(g, r, c, take_adjacent, Seat::Empty, k as int),
            counts.occ == dir_count_upto(g, r, c, take_adjacent, Seat::Occ, k as int),
            counts.floor == dir_count_upto(g, r, c, take_adjacent, Seat::Floor, k as int),
            counts.empty <= k,
            counts.occ <= k,
            counts.floor <= k,
        decreases 8 - k,
    {
        proof {
            lemma_directions_facts();
        }
        let direction = directions[k];
        let found = get_nearest_seat_in_direction(seating_chart, row, seat, direction, take_adjacent);
        if let Some(s) = found {
            counts = tally(counts, s);
        }
        k = k + 1;
    }
    proof {
        lemma_dir_count_full(g, r, c, take_adjacent, Seat::Empty);
        lemma_dir_count_full(g, r, c, take_adjacent, Seat::Occ);
        lemma_dir_count_full(g, r, c, take_adjacent, Seat::Floor);
    }
    counts
}

/// The state a cell takes in the next snapshot: an empty seat occupies
/// when it sees no occupied seat, an occupied seat empties when it sees
/// four or more, and floor stays floor. Neighbors are the eight adjacent
/// cells.
pub open spec fn spec_next_seat(g: Seq<Seq<Seat>>, r: int, c: int) -> Seat {
    let occ = dir_count(g, r, c, true, Seat::Occ);
    match g[r][c] {
        Seat::Occ => if occ >= 4 {
            Seat::Empty
        } else {
            Seat::Occ
        },
        Seat::Empty => if occ == 0 {
            Seat::Occ
        } else {
            Seat::Empty
        },
        Seat::Floor => Seat::Floor,
    }
}

/// The whole next snapshot.
pub open spec fn spec_step(g: Seq<Seq<Seat>>) -> Seq<Seq<Seat>> {
    Seq::new(g.len(), |r: int| Seq::new(g[0].len(), |c: int| spec_next_seat(g, r, c)))
}

/// Whether one step changes any cell.
pub open spec fn spec_changed(g: Seq<Seq<Seat>>) -> bool {
    exists|r: int, c: int| in_chart(g, r, c) && #[trigger] spec_next_seat(g, r, c) != g[r][c]
}

/// Computes one transition step: a fresh snapshot in which every cell took
/// its next state, and whether anything changed. The next state of every
/// cell is read off the given chart alone.
pub fn step(seating_chart: &Vec<Vec<Seat>>) -> (res: (Vec<Vec<Seat>>, bool))
    requires
        chart_wf(seating_chart.deep_view()),
        chart_sized(seating_chart.deep_view()),
    ensures
        res.0.deep_view() == spec_step(seating_chart.deep_view()),
        res.1 == spec_changed(seating_chart.deep_view()),
        chart_wf(res.0.deep_view()),
        chart_sized(res.0.deep_view()),
{
    let ghost g = seating_chart.deep_view();
    let ghost cols = g[0].len() as int;
    let mut revised_seating: Vec<Vec<Seat>> = Vec::new();
    let mut something_was_revised = false;
    let mut row_index: usize = 0;
    while row_index < seating_chart.len()
        invariant
            chart_wf(g),
            chart_sized(g),
            g == seating_chart.deep_view(),
            cols == g[0].len(),
            row_index <= g.len(),
            revised_seating.deep_view().len() == row_index,
            forall|a: int|
                0 <= a < row_index ==> (#[trigger] revised_seating.deep_view()[a]).len() == cols,
            forall|a: int, b: int|
                0 <= a < row_index && 0 <= b < cols ==> revised_seating.deep_view()[a][b]
                    == #[trigger] spec_next_seat(g, a, b),
            something_was_revised ==> spec_changed(g),
            !something_was_revised ==> forall|a: int, b: int|
                0 <= a < row_index && 0 <= b < cols ==> #[trigger] spec_next_seat(g, a, b)
                    == g[a][b],
        decreases g.len() - row_index,
    {
        let mut new_row: Vec<Seat> = Vec::new();
        let mut seat_index: usize = 0;
        let row_len = seating_chart[0].len();
        while seat_index < row_len
            invariant
                chart_wf(g),
                chart_sized(g),
                g == seating_chart.deep_view(),
                cols == g[0].len(),
                row_len == cols,
                row_index < g.len(),
                seat_index <= cols,
                new_row@.len() == seat_index,
                forall|b: int|
                    0 <= b < seat_index ==> new_row@[b] == #[trigger] spec_next_seat(
                        g,
                        row_index as int,
                        b,
                    ),
                something_was_revised ==> spec_changed(g),
                !something_was_revised ==> forall|a: int, b: int|
                    0 <= a < row_index && 0 <= b < cols ==> #[trigger] spec_next_seat(g, a, b)
                        == g[a][b],
                !something_was_revised ==> forall|b: int|
                    0 <= b < seat_index ==> #[trigger] spec_next_seat(g, row_index as int, b)
                        == g[row_index as int][b],
            decreases cols - seat_index,
        {
            proof {
                lemma_rows_view(seating_chart);
            }
            let current = seating_chart[row_index][seat_index];
            let revised_seat = match current {
                Seat::Occ => {
                    let counts = find_directional_seat_counts(
                        seating_chart,
                        row_index,
                        seat_index,
                        true,
                    );
                    if counts.occ >= 4 {
                        something_was_revised = true;
                        Seat::Empty
                    } else {
                        Seat::Occ
                    }
                },
                Seat::Empty => {
                    let counts = find_directional_seat_counts(
                        seating_chart,
                        row_index,
                        seat_index,
                        true,
                    );
                    if counts.occ == 0 {
                        something_was_revised = true;
                        Seat::Occ
                    } else {
                        Seat::Empty
                    }
                },
                Seat::Floor => Seat::Floor,
            };
            proof {
                if revised_seat != current {
                    assert(in_chart(g, row_index as int, seat_index as int));
                    assert(spec_next_seat(g, row_index as int, seat_index as int) != g[
                        row_index as int
                    ][seat_index as int]);
                }
            }
            new_row.push(revised_seat);
            seat_index = seat_index + 1;
        }
        let ghost rows_before = revised_seating.deep_view();
        revised_seating.push(new_row);
        proof {
            assert(revised_seating.deep_view() =~~= rows_before.push(new_row@));
        }
        row_index = row_index + 1;
    }
    proof {
        assert(revised_seating.deep_view() =~~= spec_step(g));
        if !something_was_revised {
            assert(!spec_changed(g));
        }
    }
    (revised_seating, something_was_revised)
}

/// The snapshot after `n` steps.
pub open spec fn spec_iterate(g: Seq<Seq<Seat>>, n: nat) -> Seq<Seq<Seat>>
    decreases n,
{
    if n == 0 {
        g
    } else {
        spec_step(spec_iterate(g, (n - 1) as nat))
    }
}

/// Copies a chart cell by cell.
fn copy_chart(seating_chart: &Vec<Vec<Seat>>) -> (copy: Vec<Vec<Seat>>)
    ensures
        copy.deep_view() == seating_chart.deep_view(),
{
    let mut copy: Vec<Vec<Seat>> = Vec::new();
    let mut i: usize = 0;
    while i < seating_chart.len()
        invariant
            i <= seating_chart@.len(),
            copy.deep_view().len() == i,
            forall|a: int| 0 <= a < i ==> #[trigger] copy.deep_view()[a]
                == seating_chart.deep_view()[a],
        decreases seating_chart@.len() - i,
    {
        proof {
            lemma_rows_view(seating_chart);
        }
        let row = &seating_chart[i];
        let mut new_row: Vec<Seat> = Vec::new();
        let mut j: usize = 0;
        while j < row.len()
            invariant
                j <= row@.len(),
                new_row@ == row@.take(j as int),
            decreases row@.len() - j,
        {
            new_row.push(row[j]);
            proof {
                assert(row@.take(j + 1) =~= row@.take(j as int).push(row@[j as int]));
            }
            j = j + 1;
        }
        proof {
            assert(row@.take(row@.len() as int) =~= row@);
        }
        let ghost rows_before = copy.deep_view();
        copy.push(new_row);
        proof {
            assert(copy.deep_view() =~~= rows_before.push(new_row@));
        }
        i = i + 1;
    }
    proof {
        assert(copy.deep_view() =~~= seating_chart.deep_view());
    }
    copy
}

/// Drives the automaton: with a step budget, exactly that many steps; with
/// none, steps until a step changes nothing. Convergence is assumed, not
/// proven, so the unbounded mode carries a step ceiling far beyond any
/// practical run: only a chart still changing after `u32::MAX` steps is
/// handed back unsettled.
pub fn run(initial_grid: &Vec<Vec<Seat>>, max_steps: Option<u32>) -> (final_grid: Vec<Vec<Seat>>)
    requires
        chart_wf(initial_grid.deep_view()),
        chart_sized(initial_grid.deep_view()),
    ensures
        match max_steps {
            Some(n) => final_grid.deep_view() == spec_iterate(initial_grid.deep_view(), n as nat),
            None => exists|k: nat|
                {
                    &&& k <= u32::MAX
                    &&& final_grid.deep_view() == spec_iterate(initial_grid.deep_view(), k)
                    &&& (!spec_changed(final_grid.deep_view()) || k == u32::MAX)
                },
        },
        chart_wf(final_grid.deep_view()),
        chart_sized(final_grid.deep_view()),
{
    let ghost g0 = initial_grid.deep_view();
    let mut current = copy_chart(initial_grid);
    match max_steps {
        Some(n) => {
            let mut i: u32 = 0;
            while i < n
                invariant
                    i <= n,
                    g0 == initial_grid.deep_view(),
                    chart_wf(current.deep_view()),
                    chart_sized(current.deep_view()),
                    current.deep_view() == spec_iterate(g0, i as nat),
                decreases n - i,
            {
                let (next, _) = step(&current);
                current = next;
                i = i + 1;
            }
            current
        },
        None => {
            let mut i: u32 = 0;
            while i < u32::MAX
                invariant
                    max_steps is None,
                    i <= u32::MAX,
                    g0 == initial_grid.deep_view(),
                    chart_wf(current.deep_view()),
                    chart_sized(current.deep_view()),
                    current.deep_view() == spec_iterate(g0, i as nat),
                decreases u32::MAX - i,
            {
                let (next, changed) = step(&current);
                i = i + 1;
                if !changed {
                    proof {
                        lemma_fixed_point(current.deep_view());
                        assert(next.deep_view() == spec_iterate(
                            initial_grid.deep_view(),
                            i as nat,
                        ));
                        assert(!spec_changed(next.deep_view()));
                        assert(i as nat <= u32::MAX);
                    }
                    return next;
                }
                current = next;
            }
            current
        },
    }
}

/// Runs the chart to its fixed point (subject to the step ceiling of
/// [`run`]).
pub fn decide_seating(seating_chart: &Vec<Vec<Seat>>) -> (settled: Vec<Vec<Seat>>)
    requires
        chart_wf(seating_chart.deep_view()),
        chart_sized(seating_chart.deep_view()),
    ensures
        exists|k: nat|
            {
                &&& k <= u32::MAX
                &&& settled.deep_view() == spec_iterate(seating_chart.deep_view(), k)
                &&& (!spec_changed(settled.deep_view()) || k == u32::MAX)
            },
        chart_wf(settled.deep_view()),
{
    run(seating_chart, None)
}

/// How many cells of a chart hold state `t`.
pub open spec fn spec_count_state(g: Seq<Seq<Seat>>, t: Seat) -> int
    decreases g.len(),
{
    if g.len() == 0 {
        0
    } else {
        spec_count_state(g.drop_last(), t) + count_seat(g.last(), t)
    }
}

/// A chart count never exceeds rows times columns.
pub proof fn lemma_count_state_bound(g: Seq<Seq<Seat>>, t: Seat, cols: int)
    requires
        forall|i: int| 0 <= i < g.len() ==> (#[trigger] g[i]).len() <= cols,
        cols >= 0,
    ensures
        0 <= spec_count_state(g, t) <= g.len() * cols,
    decreases g.len(),
{
    if g.len() == 0 {
    } else {
        lemma_count_state_bound(g.drop_last(), t, cols);
        lemma_count_seat_bound(g.last(), t);
        assert(g.len() * cols == (g.len() - 1) * cols + cols) by (nonlinear_arith);
    }
}

/// Counts the cells of the chart that hold the target state.
pub fn count_state(grid: &Vec<Vec<Seat>>, target_state: Seat) -> (count: u64)
    requires
        grid.deep_view().len() <= u32::MAX,
        forall|i: int| 0 <= i < grid.deep_view().len() ==> (#[trigger] grid.deep_view()[i]).len()
            <= u32::MAX,
    ensures
        count == spec_count_state(grid.deep_view(), target_state),
{
    let ghost g = grid.deep_view();
    let mut count: u64 = 0;
    let mut i: usize = 0;
    proof {
        assert(g.take(0) =~= Seq::<Seq<Seat>>::empty());
        lemma_count_state_bound(g.take(0), target_state, u32::MAX as int);
    }
    while i < grid.len()
        invariant
            i <= g.len() <= u32::MAX,
            g == grid.deep_view(),
            forall|a: int| 0 <= a < g.len() ==> (#[trigger] g[a]).len() <= u32::MAX,
            count == spec_count_state(g.take(i as int), target_state),
            count <= (i as int) * (u32::MAX as int),
        decreases g.len() - i,
    {
        proof {
            lemma_rows_view(grid);
        }
        let row = &grid[i];
        let mut j: usize = 0;
        let mut row_count: u64 = 0;
        while j < row.len()
            invariant
                j <= row@.len() <= u32::MAX,
                row@ == g[i as int],
                i < g.len(),
                g == grid.deep_view(),
                row_count == count_seat(row@.take(j as int), target_state),
                row_count <= j,
            decreases row@.len() - j,
        {
            proof {
                assert(row@.take(j + 1).drop_last() =~= row@.take(j as int));
            }
            if row[j] == target_state {
                row_count = row_count + 1;
            }
            j = j + 1;
        }
        proof {
            assert(row@.take(row@.len() as int) =~= row@);
            assert(g.take(i + 1).drop_last() =~= g.take(i as int));
            assert(g.take(i + 1).last() == g[i as int]);
            lemma_count_seat_bound(g[i as int], target_state);
            assert((i + 1) * (u32::MAX as int) == (i as int) * (u32::MAX as int) + u32::MAX)
                by (nonlinear_arith);
            assert((i as int) * (u32::MAX as int) <= (u32::MAX as int) * (u32::MAX as int))
                by (nonlinear_arith)
                requires i <= u32::MAX;
            assert((u32::MAX as int) * (u32::MAX as int) + u32::MAX <= u64::MAX);
        }
        count = count + row_count;
        i = i + 1;
    }
    proof {
        assert(g.take(g.len() as int) =~= g);
    }
    count
}

/// The cell states a block of marker lines denotes.
pub open spec fn spec_parse_chart(lines: Seq<Seq<char>>) -> Seq<Seq<Seat>> {
    Seq::new(lines.len(), |i: int| lines[i].map(|_j: int, c: char| spec_to_seat(c)))
}

/// Builds the initial chart from marker lines.
pub fn parse_chart(lines: &Vec<Vec<char>>) -> (grid: Vec<Vec<Seat>>)
    ensures
        grid.deep_view() == spec_parse_chart(lines.deep_view()),
{
    let mut grid: Vec<Vec<Seat>> = Vec::new();
    let mut i: usize = 0;
    while i < lines.len()
        invariant
            i <= lines@.len(),
            grid.deep_view().len() == i,
            forall|a: int| 0 <= a < i ==> #[trigger] grid.deep_view()[a] == spec_parse_chart(
                lines.deep_view(),
            )[a],
        decreases lines@.len() - i,
    {
        let row = &lines[i];
        let mut new_row: Vec<Seat> = Vec::new();
        let mut j: usize = 0;
        while j < row.len()
            invariant
                j <= row@.len(),
                new_row@.len() == j,
                forall|b: int| 0 <= b < j ==> #[trigger] new_row@[b] == spec_to_seat(row@[b]),
            decreases row@.len() - j,
        {
            new_row.push(to_seat(row[j]));
            j = j + 1;
        }
        proof {
            assert(lines@[i as int].deep_view() =~= row@);
            assert(lines.deep_view()[i as int] == row@);
            assert(new_row.deep_view() =~= spec_parse_chart(lines.deep_view())[i as int]);
        }
        let ghost rows_before = grid.deep_view();
        grid.push(new_row);
        proof {
            assert(grid.deep_view() =~~= rows_before.push(new_row@));
            assert(new_row.deep_view() =~= new_row@);
        }
        i = i + 1;
    }
    proof {
        assert(grid.deep_view() =~~= spec_parse_chart(lines.deep_view()));
    }
    grid
}

/// LAW: a chart that one step leaves unchanged is a true fixed point — the
/// stepped snapshot is the chart itself, so every later step leaves it
/// unchanged too.
pub proof fn lemma_fixed_point(g: Seq<Seq<Seat>>)
    requires
        chart_wf(g),
        !spec_changed(g),
    ensures
        spec_step(g) == g,
        !spec_changed(spec_step(g)),
{
    assert forall|r: int| 0 <= r < g.len() implies spec_step(g)[r] == g[r] by {
        assert forall|c: int| 0 <= c < g[0].len() implies spec_step(g)[r][c] == g[r][c] by {
            assert(in_chart(g, r, c));
            assert(spec_next_seat(g, r, c) == g[r][c]);
        }
        assert(spec_step(g)[r] =~= g[r]);
    }
    assert(spec_step(g) =~~= g);
}

/// LAW: a cell's next state is a function of the previous snapshot around
/// it alone — two charts of the same shape that agree on the three-by-three
/// block around a cell give that cell the same next state.
pub proof fn lemma_next_seat_local(g1: Seq<Seq<Seat>>, g2: Seq<Seq<Seat>>, r: int, c: int)
    requires
        chart_wf(g1),
        chart_wf(g2),
        g1.len() == g2.len(),
        g1[0].len() == g2[0].len(),
        in_chart(g1, r, c),
        forall|a: int, b: int|
            r - 1 <= a <= r + 1 && c - 1 <= b <= c + 1 && in_chart(g1, a, b) ==> g1[a][b]
                == #[trigger] g2[a][b],
    ensures
        spec_next_seat(g1, r, c) == spec_next_seat(g2, r, c),
{
    assert forall|dr: int, dc: int|
        -1 <= dr <= 1 && -1 <= dc <= 1 && !(dr == 0 && dc == 0) implies #[trigger] spec_nearest(
        g1,
        r,
        c,
        dr,
        dc,
        true,
    ) == spec_nearest(g2, r, c, dr, dc, true) by {
        if in_chart(g1, r + dr, c + dc) {
            assert(g1[r + dr][c + dc] == g2[r + dr][c + dc]);
        }
    }
    assert(g1[r][c] == g2[r][c]);
}

/// No direction sees anything from the single cell of a one-by-one chart.
pub proof fn lemma_single_cell_sees_nothing(g: Seq<Seq<Seat>>, dr: int, dc: int, adj: bool)
    requires
        g.len() == 1,
        g[0].len() == 1,
        !(dr == 0 && dc == 0),
    ensures
        spec_nearest(g, 0, 0, dr, dc, adj) == None::<Seat>,
{
    assert(!in_chart(g, dr, dc));
}

/// LAW: on a one-by-one chart the neighbor tally is empty, and the rule
/// still answers: the lone seat occupies when empty, and stays occupied
/// when occupied.
pub proof fn lemma_single_cell(g: Seq<Seq<Seat>>, adj: bool, t: Seat)
    requires
        g.len() == 1,
        g[0].len() == 1,
    ensures
        dir_count(g, 0, 0, adj, t) == 0,
        g[0][0] == Seat::Empty ==> spec_next_seat(g, 0, 0) == Seat::Occ,
        g[0][0] == Seat::Occ ==> spec_next_seat(g, 0, 0) == Seat::Occ,
        g[0][0] == Seat::Floor ==> spec_next_seat(g, 0, 0) == Seat::Floor,
{
    lemma_single_cell_sees_nothing(g, -1, -1, adj);
    lemma_single_cell_sees_nothing(g, -1, 0, adj);
    lemma_single_cell_sees_nothing(g, -1, 1, adj);
    lemma_single_cell_sees_nothing(g, 0, -1, adj);
    lemma_single_cell_sees_nothing(g, 0, 1, adj);
    lemma_single_cell_sees_nothing(g, 1, -1, adj);
    lemma_single_cell_sees_nothing(g, 1, 0, adj);
    lemma_single_cell_sees_nothing(g, 1, 1, adj);
    lemma_single_cell_sees_nothing(g, -1, -1, true);
    lemma_single_cell_sees_nothing(g, -1, 0, true);
    lemma_single_cell_sees_nothing(g, -1, 1, true);
    lemma_single_cell_sees_nothing(g, 0, -1, true);
    lemma_single_cell_sees_nothing(g, 0, 1, true);
    lemma_single_cell_sees_nothing(g, 1, -1, true);
    lemma_single_cell_sees_nothing(g, 1, 0, true);
    lemma_single_cell_sees_nothing(g, 1, 1, true);
}

/// How many characters of a marker line denote state `t`.
pub open spec fn count_marker(row: Seq<char>, t: Seat) -> int
    decreases row.len(),
{
    if row.len() == 0 {
        0
    } else {
        count_marker(row.drop_last(), t) + if spec_to_seat(row.last()) == t {
            1int
        } else {
            0int
        }
    }
}

/// How many characters of a block of marker lines denote state `t`.
pub open spec fn count_marker_lines(lines: Seq<Seq<char>>, t: Seat) -> int
    decreases lines.len(),
{
    if lines.len() == 0 {
        0
    } else {
        count_marker_lines(lines.drop_last(), t) + count_marker(lines.last(), t)
    }
}

/// One parsed row holds a state exactly as often as the raw row holds a
/// marker for it.
pub proof fn lemma_row_marker_count(row: Seq<char>, t: Seat)
    ensures
        count_seat(row.map(|_j: int, c: char| spec_to_seat(c)), t) == count_marker(row, t),
    decreases row.len(),
{
    let mapped = row.map(|_j: int, c: char| spec_to_seat(c));
    if row.len() == 0 {
        assert(mapped =~= Seq::<Seat>::empty());
    } else {
        lemma_row_marker_count(row.drop_last(), t);
        assert(mapped.drop_last() =~= row.drop_last().map(|_j: int, c: char| spec_to_seat(c)));
        assert(mapped.last() == spec_to_seat(row.last()));
    }
}

/// LAW: counting a state on the freshly parsed chart gives the same number
/// as counting that state's marker characters in the raw lines.
pub proof fn lemma_parse_count(lines: Seq<Seq<char>>, t: Seat)
    ensures
        spec_count_state(spec_parse_chart(lines), t) == count_marker_lines(lines, t),
    decreases lines.len(),
{
    let parsed = spec_parse_chart(lines);
    if lines.len() == 0 {
        assert(parsed =~= Seq::<Seq<Seat>>::empty());
    } else {
        lemma_parse_count(lines.drop_last(), t);
        assert(parsed.drop_last() =~~= spec_parse_chart(lines.drop_last()));
        assert(parsed.last() == lines.last().map(|_j: int, c: char| spec_to_seat(c)));
        lemma_row_marker_count(lines.last(), t);
    }
}

} // verus!
