//! Three-dimensional cube-life automaton.
//!
//! A box of cubes steps under a local rule over the twenty-six adjacent
//! cells: an active cube stays active with two or three active neighbors,
//! an inactive cube activates with exactly three, and every other cube is
//! inactive in the next snapshot. The box is padded ahead of time so that
//! activity cannot grow past its walls within the planned number of steps.

use vstd::prelude::*;

verus! {

/// One cell of the box: active or inactive.
#[derive(Clone, Copy, Debug, PartialEq, Eq, Structural)]
pub enum Cube {
    A,
    I,
}

impl View for Cube {
    type V = Cube;

    open spec fn view(&self) -> Cube {
        *self
    }
}

impl DeepView for Cube {
    type V = Cube;

    open spec fn deep_view(&self) -> Cube {
        *self
    }
}

/// How many cubes of a row hold a given state.
pub open spec fn count_cube(s: Seq<Cube>, t: Cube) -> int
    decreases s.len(),
{
    if s.len() == 0 {
        0
    } else {
        count_cube(s.drop_last(), t) + if s.last() == t {
            1int
        } else {
            0int
        }
    }
}

/// A count never exceeds the row's length.
pub proof fn lemma_count_cube_bound(s: Seq<Cube>, t: Cube)
    ensures
        0 <= count_cube(s, t) <= s.len(),
    decreases s.len(),
{
    if s.len() > 0 {
        lemma_count_cube_bound(s.drop_last(), t);
    }
}

/// How many cubes of a list hold each state.
#[derive(Clone, Copy, Debug, PartialEq, Eq, Structural)]
pub struct CubeCounts {
    pub active: u32,
    pub inactive: u32,
}

/// Tallies a list of cubes by state.
pub fn map_to_counts(cubes: &Vec<Cube>) -> (counts: CubeCounts)
    requires
        cubes@.len() <= u32::MAX,
    ensures
        counts.active == count_cube(cubes@, Cube::A),
        counts.inactive == count_cube(cubes@, Cube::I),
{
    let mut counts = CubeCounts { active: 0, inactive: 0 };
    let mut i: usize = 0;
    proof {
        assert(cubes@.take(0) =~= Seq::<Cube>::empty());
    }
    while i < cubes.len()
        invariant
            i <= cubes@.len() <= u32::MAX,
            counts.active == count_cube(cubes@.take(i as int), Cube::A),
            counts.inactive == count_cube(cubes@.take(i as int), Cube::I),
        decreases cubes@.len() - i,
    {
        proof {
            assert(cubes@.take(i + 1).drop_last() =~= cubes@.take(i as int));
            lemma_count_cube_bound(cubes@.take(i as int), Cube::A);
            lemma_count_cube_bound(cubes@.take(i as int), Cube::I);
        }
        match cubes[i] {
            Cube::A => counts.active = counts.active + 1,
            Cube::I => counts.inactive = counts.inactive + 1,
        }
        i = i + 1;
    }
    proof {
        assert(cubes@.take(cubes@.len() as int) =~= cubes@);
    }
    counts
}

/// Every plane and row of the box, seen through element views, matches the
/// box's deep view.
pub proof fn lemma_box_view(v: &Vec<Vec<Vec<Cube>>>)
    ensures
        forall|i: int| 0 <= i < v@.len() ==> (#[trigger] v@[i].deep_view()) == v.deep_view()[i],
        forall|i: int, j: int|
            0 <= i < v@.len() && 0 <= j < v@[i]@.len() ==> (#[trigger] v@[i]@[j]@)
                == v.deep_view()[i][j],
        forall|i: int| 0 <= i < v@.len() ==> (#[trigger] v@[i]@).len() == v.deep_view()[i].len(),
{
    assert forall|i: int| 0 <= i < v@.len() implies (#[trigger] v@[i].deep_view())
        == v.deep_view()[i] by {}
    assert forall|i: int| 0 <= i < v@.len() implies (#[trigger] v@[i]@).len()
        == v.deep_view()[i].len() by {
        assert(v.deep_view()[i] == v@[i].deep_view());
    }
    assert forall|i: int, j: int|
        0 <= i < v@.len() && 0 <= j < v@[i]@.len() implies (#[trigger] v@[i]@[j]@)
        == v.deep_view()[i][j] by {
        assert(v@[i].deep_view()[j] == v@[i]@[j].deep_view());
        assert(v@[i]@[j].deep_view() =~= v@[i]@[j]@);
    }
}

/// A well-formed box: every extent positive and every plane and row of the
/// same size.
pub open spec fn box_wf(p: Seq<Seq<Seq<Cube>>>) -> bool {
    &&& p.len() > 0
    &&& p[0].len() > 0
    &&& p[0][0].len() > 0
    &&& forall|i: int| 0 <= i < p.len() ==> (#[trigger] p[i]).len() == p[0].len()
    &&& forall|i: int, j: int|
        0 <= i < p.len() && 0 <= j < p[0].len() ==> (#[trigger] p[i][j]).len() == p[0][0].len()
}

/// Every extent stays small enough that coordinate arithmetic and cell
/// counting cannot overflow.
pub open spec fn box_sized(p: Seq<Seq<Seq<Cube>>>) -> bool {
    p.len() <= 0xFFFF && p[0].len() <= 0xFFFF && p[0][0].len() <= 0xFFFF
}

/// A coordinate that lies in the box.
pub open spec fn in_box(p: Seq<Seq<Seq<Cube>>>, x: int, y: int, z: int) -> bool {
    0 <= x < p.len() && 0 <= y < p[0].len() && 0 <= z < p[0][0].len()
}

/// Whether the cell at `(x, y, z)` holds state `t`; absent cells count for
/// nothing.
pub open spec fn nb3(p: Seq<Seq<Seq<Cube>>>, x: int, y: int, z: int, t: Cube) -> int {
    if in_box(p, x, y, z) && p[x][y][z] == t {
        1
    } else {
        0
    }
}

/// The twenty-six neighbor offsets, in the order they are scanned.
pub open spec fn spec_offsets() -> Seq<(i32, i32, i32)> {
    seq![
        (-1i32, -1i32, -1i32),
        (0i32, -1i32, -1i32),
        (1i32, -1i32, -1i32),
        (-1i32, 0i32, -1i32),
        (0i32, 0i32, -1i32),
        (1i32, 0i32, -1i32),
        (-1i32, 1i32, -1i32),
        (0i32, 1i32, -1i32),
        (1i32, 1i32, -1i32),
        (-1i32, -1i32, 0i32),
        (0i32, -1i32, 0i32),
        (1i32, -1i32, 0i32),
        (-1i32, 0i32, 0i32),
        (1i32, 0i32, 0i32),
        (-1i32, 1i32, 0i32),
        (0i32, 1i32, 0i32),
        (1i32, 1i32, 0i32),
        (-1i32, -1i32, 1i32),
        (0i32, -1i32, 1i32),
        (1i32, -1i32, 1i32),
        (-1i32, 0i32, 1i32),
        (0i32, 0i32, 1i32),
        (1i32, 0i32, 1i32),
        (-1i32, 1i32, 1i32),
        (0i32, 1i32, 1i32),
        (1i32, 1i32, 1i32),
    ]
}

/// The neighbor tally over the first `k` of the twenty-six offsets.
pub open spec fn nb3_upto(p: Seq<Seq<Seq<Cube>>>, x: int, y: int, z: int, t: Cube, k: int) -> int
    decreases k,
{
    if k <= 0 {
        0
    } else {
        nb3_upto(p, x, y, z, t, k - 1) + nb3(
            p,
            x + spec_offsets()[k - 1].0 as int,
            y + spec_offsets()[k - 1].1 as int,
            z + spec_offsets()[k - 1].2 as int,
            t,
        )
    }
}

/// How many of the twenty-six cells around `(x, y, z)` hold state `t`.
pub open spec fn neighbor_count(p: Seq<Seq<Seq<Cube>>>, x: int, y: int, z: int, t: Cube) -> int {
    nb3_upto(p, x, y, z, t, 26)
}

/// The offset list is twenty-six long, and every offset is one step long
/// and not the zero offset.
pub proof fn lemma_offsets_facts()
    ensures
        spec_offsets().len() == 26,
        forall|j: int|
            0 <= j < 26 ==> {
                &&& -1 <= (#[trigger] spec_offsets()[j]).0 <= 1
                &&& -1 <= spec_offsets()[j].1 <= 1
                &&& -1 <= spec_offsets()[j].2 <= 1
                &&& !(spec_offsets()[j].0 == 0 && spec_offsets()[j].1 == 0 && spec_offsets()[j].2
                    == 0)
            },
{
}

/// Builds a box of the given extents with every cube inactive.
pub fn create_empty_plane(dimensions: &[usize; 3]) -> (plane: Vec<Vec<Vec<Cube>>>)
    ensures
        plane.deep_view().len() == dimensions[0],
        forall|i: int|
            0 <= i < dimensions[0] ==> (#[trigger] plane.deep_view()[i]).len() == dimensions[1],
        forall|i: int, j: int|
            0 <= i < dimensions[0] && 0 <= j < dimensions[1] ==> (#[trigger] plane.deep_view(
            )[i][j]).len() == dimensions[2],
        forall|i: int, j: int, k: int|
            0 <= i < dimensions[0] && 0 <= j < dimensions[1] && 0 <= k < dimensions[2]
                ==> #[trigger] plane.deep_view()[i][j][k] == Cube::I,
{
    let d0 = dimensions[0];
    let d1 = dimensions[1];
    let d2 = dimensions[2];
    let mut plane: Vec<Vec<Vec<Cube>>> = Vec::new();
    let mut i: usize = 0;
    while i < d0
        invariant
            i <= d0,
            plane.deep_view().len() == i,
            forall|a: int| 0 <= a < i ==> (#[trigger] plane.deep_view()[a]).len() == d1,
            forall|a: int, b: int|
                0 <= a < i && 0 <= b < d1 ==> (#[trigger] plane.deep_view()[a][b]).len() == d2,
            forall|a: int, b: int, e: int|
                0 <= a < i && 0 <= b < d1 && 0 <= e < d2 ==> #[trigger] plane.deep_view()[a][b][e]
                    == Cube::I,
        decreases d0 - i,
    {
        let mut grid: Vec<Vec<Cube>> = Vec::new();
        let mut j: usize = 0;
        while j < d1
            invariant
                j <= d1,
                grid.deep_view().len() == j,
                forall|b: int| 0 <= b < j ==> (#[trigger] grid.deep_view()[b]).len() == d2,
                forall|b: int, e: int|
                    0 <= b < j && 0 <= e < d2 ==> #[trigger] grid.deep_view()[b][e] == Cube::I,
            decreases d1 - j,
        {
            let mut row: Vec<Cube> = Vec::new();
            let mut k: usize = 0;
            while k < d2
                invariant
                    k <= d2,
                    row@.len() == k,
                    forall|e: int| 0 <= e < k ==> #[trigger] row@[e] == Cube::I,
                decreases d2 - k,
            {
                row.push(Cube::I);
                k = k + 1;
            }
            let ghost rows_before = grid.deep_view();
            grid.push(row);
            proof {
                assert(grid.deep_view() =~~= rows_before.push(row@));
            }
            j = j + 1;
        }
        let ghost grids_before = plane.deep_view();
        plane.push(grid);
        proof {
            assert(plane.deep_view() =~~= grids_before.push(grid.deep_view()));
        }
        i = i + 1;
    }
    plane
}

/// The adjacent cell one offset away, or nothing at the wall.
pub fn get_nearest_cube_in_direction(
    plane: &Vec<Vec<Vec<Cube>>>,
    plane_dimensions: &[usize; 3],
    curr_cube: (usize, usize, usize),
    direction: &(i32, i32, i32),
) -> (found: Option<Cube>)
    requires
        box_wf(plane.deep_view()),
        box_sized(plane.deep_view()),
        plane_dimensions[0] == plane.deep_view().len(),
        plane_dimensions[1] == plane.deep_view()[0].len(),
        plane_dimensions[2] == plane.deep_view()[0][0].len(),
        curr_cube.0 < plane.deep_view().len(),
        curr_cube.1 < plane.deep_view()[0].len(),
        curr_cube.2 < plane.deep_view()[0][0].len(),
        -1 <= direction.0 <= 1,
        -1 <= direction.1 <= 1,
        -1 <= direction.2 <= 1,
    ensures
        found == {
            let p = plane.deep_view();
            let x = curr_cube.0 + direction.0 as int;
            let y = curr_cube.1 + direction.1 as int;
            let z = curr_cube.2 + direction.2 as int;
            if in_box(p, x, y, z) {
                Some(p[x][y][z])
            } else {
                None::<Cube>
            }
        },
{
    proof {
        lemma_box_view(plane);
    }
    let x = curr_cube.0 as i32 + direction.0;
    let y = curr_cube.1 as i32 + direction.1;
    let z = curr_cube.2 as i32 + direction.2;
    if x < 0 || x >= plane_dimensions[0] as i32 {
        return None;
    }
    if y < 0 || y >= plane_dimensions[1] as i32 {
        return None;
    }
    if z < 0 || z >= plane_dimensions[2] as i32 {
        return None;
    }
    Some(plane[x as usize][y as usize][z as usize])
}

/// The state a cube takes in the next snapshot: active stays active with
/// two or three active neighbors, inactive activates with exactly three,
/// and every other cube is inactive.
pub open spec fn spec_next_cube(p: Seq<Seq<Seq<Cube>>>, x: int, y: int, z: int) -> Cube {
    let a = neighbor_count(p, x, y, z, Cube::A);
    match p[x][y][z] {
        Cube::A => if a == 2 || a == 3 {
            Cube::A
        } else {
            Cube::I
        },
        Cube::I => if a == 3 {
            Cube::A
        } else {
            Cube::I
        },
    }
}

/// The whole next snapshot.
pub open spec fn spec_step(p: Seq<Seq<Seq<Cube>>>) -> Seq<Seq<Seq<Cube>>> {
    Seq::new(
        p.len(),
        |x: int|
            Seq::new(p[0].len(), |y: int| Seq::new(p[0][0].len(), |z: int| spec_next_cube(p, x, y, z))),
    )
}

/// Whether one step changes any cube.
pub open spec fn spec_changed(p: Seq<Seq<Seq<Cube>>>) -> bool {
    exists|x: int, y: int, z: int|
        in_box(p, x, y, z) && #[trigger] spec_next_cube(p, x, y, z) != p[x][y][z]
}

/// Counts the active cells among the twenty-six neighbors of one cube.
fn count_active_neighbors(
    plane: &Vec<Vec<Vec<Cube>>>,
    plane_dimensions: &[usize; 3],
    curr_cube: (usize, usize, usize),
) -> (count: u32)
    requires
        box_wf(plane.deep_view()),
        box_sized(plane.deep_view()),
        plane_dimensions[0] == plane.deep_view().len(),
        plane_dimensions[1] == plane.deep_view()[0].len(),
        plane_dimensions[2] == plane.deep_view()[0][0].len(),
        curr_cube.0 < plane.deep_view().len(),
        curr_cube.1 < plane.deep_view()[0].len(),
        curr_cube.2 < plane.deep_view()[0][0].len(),
    ensures
        count == neighbor_count(
            plane.deep_view(),
            curr_cube.0 as int,
            curr_cube.1 as int,
            curr_cube.2 as int,
            Cube::A,
        ),
{
    let ghost p = plane.deep_view();
    let ghost x = curr_cube.0 as int;
    let ghost y = curr_cube.1 as int;
    let ghost z = curr_cube.2 as int;
    let mut directions: Vec<(i32, i32, i32)> = Vec::new();
    directions.push((-1, -1, -1));
    directions.push((0, -1, -1));
    directions.push((1, -1, -1));
    directions.push((-1, 0, -1));
    directions.push((0, 0, -1));
    directions.push((1, 0, -1));
    directions.push((-1, 1, -1));
    directions.push((0, 1, -1));
    directions.push((1, 1, -1));
    directions.push((-1, -1, 0));
    directions.push((0, -1, 0));
    directions.push((1, -1, 0));
    directions.push((-1, 0, 0));
    directions.push((1, 0, 0));
    directions.push((-1, 1, 0));
    directions.push((0, 1, 0));
    directions.push((1, 1, 0));
    directions.push((-1, -1, 1));
    directions.push((0, -1, 1));
    directions.push((1, -1, 1));
    directions.push((-1, 0, 1));
    directions.push((0, 0, 1));
    directions.push((1, 0, 1));
    directions.push((-1, 1, 1));
    directions.push((0, 1, 1));
    directions.push((1, 1, 1));
    proof {
        assert(directions@ =~= spec_offsets());
        lemma_offsets_facts();
    }
    let mut count: u32 = 0;
    let mut k: usize = 0;
    while k < 26
        invariant
            0 <= k <= 26,
            p == plane.deep_view(),
            x == curr_cube.0 as int,
            y == curr_cube.1 as int,
            z == curr_cube.2 as int,
            box_wf(p),
            box_sized(p),
            plane_dimensions[0] == p.len(),
            plane_dimensions[1] == p[0].len(),
            plane_dimensions[2] == p[0][0].len(),
            curr_cube.0 < p.len(),
            curr_cube.1 < p[0].len(),
            curr_cube.2 < p[0][0].len(),
            directions@ == spec_offsets(),
            count == nb3_upto(p, x, y, z, Cube::A, k as int),
            count <= k,
        decreases 26 - k,
    {
        proof {
            lemma_offsets_facts();
        }
        let direction = directions[k];
        let found = get_nearest_cube_in_direction(plane, plane_dimensions, curr_cube, &direction);
        if let Some(s) = found {
            if s == Cube::A {
                count = count + 1;
            }
        }
        k = k + 1;
    }
    count
}


/// Computes one transition step: a fresh snapshot in which every cube took
/// its next state, and whether anything changed. The next state of every
/// cube is read off the given box alone.
pub fn step(plane: &Vec<Vec<Vec<Cube>>>, plane_dimensions: &[usize; 3]) -> (res: (
    Vec<Vec<Vec<Cube>>>,
    bool,
))
    requires
        box_wf(plane.deep_view()),
        box_sized(plane.deep_view()),
        plane_dimensions[0] == plane.deep_view().len(),
        plane_dimensions[1] == plane.deep_view()[0].len(),
        plane_dimensions[2] == plane.deep_view()[0][0].len(),
    ensures
        res.0.deep_view() == spec_step(plane.deep_view()),
        res.1 == spec_changed(plane.deep_view()),
        box_wf(res.0.deep_view()),
        box_sized(res.0.deep_view()),
{
    let ghost p = plane.deep_view();
    let ghost d1 = p[0].len() as int;
    let ghost d2 = p[0][0].len() as int;
    let mut new_plane: Vec<Vec<Vec<Cube>>> = Vec::new();
    let mut changed = false;
    let mut x: usize = 0;
    while x < plane_dimensions[0]
        invariant
            p == plane.deep_view(),
            box_wf(p),
            box_sized(p),
            plane_dimensions[0] == p.len(),
            plane_dimensions[1] == d1,
            plane_dimensions[2] == d2,
            d1 == p[0].len(),
            d2 == p[0][0].len(),
            x <= p.len(),
            new_plane.deep_view().len() == x,
            forall|a: int| 0 <= a < x ==> (#[trigger] new_plane.deep_view()[a]).len() == d1,
            forall|a: int, b: int|
                0 <= a < x && 0 <= b < d1 ==> (#[trigger] new_plane.deep_view()[a][b]).len() == d2,
            forall|a: int, b: int, e: int|
                0 <= a < x && 0 <= b < d1 && 0 <= e < d2 ==> new_plane.deep_view()[a][b][e]
                    == #[trigger] spec_next_cube(p, a, b, e),
            changed ==> spec_changed(p),
            !changed ==> forall|a: int, b: int, e: int|
                0 <= a < x && 0 <= b < d1 && 0 <= e < d2 ==> #[trigger] spec_next_cube(p, a, b, e)
                    == p[a][b][e],
        decreases p.len() - x,
    {
        let mut new_grid: Vec<Vec<Cube>> = Vec::new();
        let mut y: usize = 0;
        while y < plane_dimensions[1]
            invariant
                p == plane.deep_view(),
                box_wf(p),
                box_sized(p),
                plane_dimensions[0] == p.len(),
                plane_dimensions[1] == d1,
                plane_dimensions[2] == d2,
                d1 == p[0].len(),
                d2 == p[0][0].len(),
                x < p.len(),
                y <= d1,
                new_grid.deep_view().len() == y,
                forall|b: int| 0 <= b < y ==> (#[trigger] new_grid.deep_view()[b]).len() == d2,
                forall|b: int, e: int|
                    0 <= b < y && 0 <= e < d2 ==> new_grid.deep_view()[b][e]
                        == #[trigger] spec_next_cube(p, x as int, b, e),
                changed ==> spec_changed(p),
                !changed ==> forall|a: int, b: int, e: int|
                    0 <= a < x && 0 <= b < d1 && 0 <= e < d2 ==> #[trigger] spec_next_cube(
                        p,
                        a,
                        b,
                        e,
                    ) == p[a][b][e],
                !changed ==> forall|b: int, e: int|
                    0 <= b < y && 0 <= e < d2 ==> #[trigger] spec_next_cube(p, x as int, b, e)
                        == p[x as int][b][e],
            decreases d1 - y,
        {
            let mut new_row: Vec<Cube> = Vec::new();
            let mut z: usize = 0;
            while z < plane_dimensions[2]
                invariant
                    p == plane.deep_view(),
                    box_wf(p),
                    box_sized(p),
                    plane_dimensions[0] == p.len(),
                    plane_dimensions[1] == d1,
                    plane_dimensions[2] == d2,
                    d1 == p[0].len(),
                    d2 == p[0][0].len(),
                    x < p.len(),
                    y < d1,
                    z <= d2,
                    new_row@.len() == z,
                    forall|e: int|
                        0 <= e < z ==> new_row@[e] == #[trigger] spec_next_cube(
                            p,
                            x as int,
                            y as int,
                            e,
                        ),
                    changed ==> spec_changed(p),
                    !changed ==> forall|a: int, b: int, e: int|
                        0 <= a < x && 0 <= b < d1 && 0 <= e < d2 ==> #[trigger] spec_next_cube(
                            p,
                            a,
                            b,
                            e,
                        ) == p[a][b][e],
                    !changed ==> forall|b: int, e: int|
                        0 <= b < y && 0 <= e < d2 ==> #[trigger] spec_next_cube(p, x as int, b, e)
                            == p[x as int][b][e],
                    !changed ==> forall|e: int|
                        0 <= e < z ==> #[trigger] spec_next_cube(p, x as int, y as int, e)
                            == p[x as int][y as int][e],
                decreases d2 - z,
            {
                proof {
                    lemma_box_view(plane);
                }
                let current = plane[x][y][z];
                let active_cnt = count_active_neighbors(plane, plane_dimensions, (x, y, z));
                let next = match current {
                    Cube::A => {
                        if active_cnt == 2 || active_cnt == 3 {
                            Cube::A
                        } else {
                            Cube::I
                        }
                    },
                    Cube::I => {
                        if active_cnt == 3 {
                            Cube::A
                        } else {
                            Cube::I
                        }
                    },
                };
                if next != current {
                    changed = true;
                    proof {
                        assert(in_box(p, x as int, y as int, z as int));
                        assert(spec_next_cube(p, x as int, y as int, z as int) != p[x as int][
                            y as int
                        ][z as int]);
                    }
                }
                new_row.push(next);
                z = z + 1;
            }
            let ghost rows_before = new_grid.deep_view();
            new_grid.push(new_row);
            proof {
                assert(new_grid.deep_view() =~~= rows_before.push(new_row@));
            }
            y = y + 1;
        }
        let ghost grids_before = new_plane.deep_view();
        new_plane.push(new_grid);
        proof {
            assert(new_plane.deep_view() =~~= grids_before.push(new_grid.deep_view()));
        }
        x = x + 1;
    }
    proof {
        assert(new_plane.deep_view() =~~= spec_step(p));
        if !changed {
            assert(!spec_changed(p));
        }
    }
    (new_plane, changed)
}

/// The snapshot after `n` steps.
pub open spec fn spec_iterate(p: Seq<Seq<Seq<Cube>>>, n: nat) -> Seq<Seq<Seq<Cube>>>
    decreases n,
{
    if n == 0 {
        p
    } else {
        spec_step(spec_iterate(p, (n - 1) as nat))
    }
}

/// LAW: a box that one step leaves unchanged is a true fixed point — the
/// stepped snapshot is the box itself.
pub proof fn lemma_fixed_point(p: Seq<Seq<Seq<Cube>>>)
    requires
        box_wf(p),
        !spec_changed(p),
    ensures
        spec_step(p) == p,
        !spec_changed(spec_step(p)),
{
    assert forall|x: int| 0 <= x < p.len() implies spec_step(p)[x] == p[x] by {
        assert forall|y: int| 0 <= y < p[0].len() implies spec_step(p)[x][y] == p[x][y] by {
            assert forall|z: int| 0 <= z < p[0][0].len() implies spec_step(p)[x][y][z]
                == p[x][y][z] by {
                assert(in_box(p, x, y, z));
                assert(spec_next_cube(p, x, y, z) == p[x][y][z]);
            }
            assert(spec_step(p)[x][y] =~= p[x][y]);
        }
        assert(spec_step(p)[x] =~= p[x]);
    }
    assert(spec_step(p) =~~= p);
}

/// Drives the automaton for exactly the given number of steps (the
/// finite-horizon variant), or until a step changes nothing, under the
/// same step ceiling as the seating engine.
pub fn run(
    initial_grid: &Vec<Vec<Vec<Cube>>>,
    plane_dimensions: &[usize; 3],
    max_steps: Option<u32>,
) -> (final_grid: Vec<Vec<Vec<Cube>>>)
    requires
        box_wf(initial_grid.deep_view()),
        box_sized(initial_grid.deep_view()),
        plane_dimensions[0] == initial_grid.deep_view().len(),
        plane_dimensions[1] == initial_grid.deep_view()[0].len(),
        plane_dimensions[2] == initial_grid.deep_view()[0][0].len(),
    ensures
        match max_steps {
            Some(n) => final_grid.deep_view() == spec_iterate(initial_grid.deep_view(), n as nat),
            None => exists|k: nat|
                {
                    &&& k <= u32::MAX
                    &&& final_grid.deep_view() == spec_iterate(initial_grid.deep_view(), k)
                    &&& (!spec_changed(final_grid.deep_view()) || k == u32::MAX)
                },
        },
        box_wf(final_grid.deep_view()),
        box_sized(final_grid.deep_view()),
{
    let ghost p0 = initial_grid.deep_view();
    let mut current = copy_plane(initial_grid);
    match max_steps {
        Some(n) => {
            let mut i: u32 = 0;
            while i < n
                invariant
                    i <= n,
                    p0 == initial_grid.deep_view(),
                    box_wf(current.deep_view()),
                    box_sized(current.deep_view()),
                    current.deep_view() == spec_iterate(p0, i as nat),
                    plane_dimensions[0] == current.deep_view().len(),
                    plane_dimensions[1] == current.deep_view()[0].len(),
                    plane_dimensions[2] == current.deep_view()[0][0].len(),
                decreases n - i,
            {
                let (next, _) = step(&current, plane_dimensions);
                current = next;
                i = i + 1;
            }
            current
        },
        None => {
            let mut i: u32 = 0;
            while i < u32::MAX
                invariant
                    max_steps is None,
                    i <= u32::MAX,
                    p0 == initial_grid.deep_view(),
                    box_wf(current.deep_view()),
                    box_sized(current.deep_view()),
                    current.deep_view() == spec_iterate(p0, i as nat),
                    plane_dimensions[0] == current.deep_view().len(),
                    plane_dimensions[1] == current.deep_view()[0].len(),
                    plane_dimensions[2] == current.deep_view()[0][0].len(),
                decreases u32::MAX - i,
            {
                let (next, changed) = step(&current, plane_dimensions);
                i = i + 1;
                if !changed {
                    proof {
                        lemma_fixed_point(current.deep_view());
                        assert(next.deep_view() == spec_iterate(
                            initial_grid.deep_view(),
                            i as nat,
                        ));
                        assert(!spec_changed(next.deep_view()));
                        assert(i as nat <= u32::MAX);
                    }
                    return next;
                }
                current = next;
            }
            current
        },
    }
}

/// Copies a box cell by cell.
fn copy_plane(plane: &Vec<Vec<Vec<Cube>>>) -> (copy: Vec<Vec<Vec<Cube>>>)
    ensures
        copy.deep_view() == plane.deep_view(),
{
    let mut copy: Vec<Vec<Vec<Cube>>> = Vec::new();
    let mut i: usize = 0;
    while i < plane.len()
        invariant
            i <= plane@.len(),
            copy.deep_view().len() == i,
            forall|a: int| 0 <= a < i ==> #[trigger] copy.deep_view()[a] == plane.deep_view()[a],
        decreases plane@.len() - i,
    {
        proof {
            lemma_box_view(plane);
        }
        let grid = &plane[i];
        let mut new_grid: Vec<Vec<Cube>> = Vec::new();
        let mut j: usize = 0;
        while j < grid.len()
            invariant
                j <= grid@.len(),
                new_grid.deep_view().len() == j,
                forall|b: int| 0 <= b < j ==> #[trigger] new_grid.deep_view()[b]
                    == grid.deep_view()[b],
            decreases grid@.len() - j,
        {
            let row = &grid[j];
            let mut new_row: Vec<Cube> = Vec::new();
            let mut k: usize = 0;
            while k < row.len()
                invariant
                    k <= row@.len(),
                    new_row@ == row@.take(k as int),
                decreases row@.len() - k,
            {
                new_row.push(row[k]);
                proof {
                    assert(row@.take(k + 1) =~= row@.take(k as int).push(row@[k as int]));
                }
                k = k + 1;
            }
            proof {
                assert(row@.take(row@.len() as int) =~= row@);
            }
            let ghost rows_before = new_grid.deep_view();
            new_grid.push(new_row);
            proof {
                assert(new_grid.deep_view() =~~= rows_before.push(new_row@));
                assert(grid.deep_view()[j as int] == grid@[j as int].deep_view());
                assert(grid@[j as int].deep_view() =~= grid@[j as int]@);
                assert(new_row@ =~= grid@[j as int]@);
            }
            j = j + 1;
        }
        let ghost grids_before = copy.deep_view();
        copy.push(new_grid);
        proof {
            assert(copy.deep_view() =~~= grids_before.push(new_grid.deep_view()));
            assert(new_grid.deep_view() =~~= plane.deep_view()[i as int]);
        }
        i = i + 1;
    }
    proof {
        assert(copy.deep_view() =~~= plane.deep_view());
    }
    copy
}

/// How many cubes of one plane hold state `t`.
pub open spec fn spec_count_plane(gr: Seq<Seq<Cube>>, t: Cube) -> int
    decreases gr.len(),
{
    if gr.len() == 0 {
        0
    } else {
        spec_count_plane(gr.drop_last(), t) + count_cube(gr.last(), t)
    }
}

/// How many cubes of the whole box hold state `t`.
pub open spec fn spec_count_state(p: Seq<Seq<Seq<Cube>>>, t: Cube) -> int
    decreases p.len(),
{
    if p.len() == 0 {
        0
    } else {
        spec_count_state(p.drop_last(), t) + spec_count_plane(p.last(), t)
    }
}

/// A plane count never exceeds rows times columns.
pub proof fn lemma_count_plane_bound(gr: Seq<Seq<Cube>>, t: Cube, cols: int)
    requires
        forall|i: int| 0 <= i < gr.len() ==> (#[trigger] gr[i]).len() <= cols,
        cols >= 0,
    ensures
        0 <= spec_count_plane(gr, t) <= gr.len() * cols,
    decreases gr.len(),
{
    if gr.len() > 0 {
        lemma_count_plane_bound(gr.drop_last(), t, cols);
        lemma_count_cube_bound(gr.last(), t);
        assert(gr.len() * cols == (gr.len() - 1) * cols + cols) by (nonlinear_arith);
    }
}

/// Counts the cubes of the box that hold the target state.
pub fn count_state(grid: &Vec<Vec<Vec<Cube>>>, target_state: Cube) -> (count: u64)
    requires
        box_wf(grid.deep_view()),
        box_sized(grid.deep_view()),
    ensures
        count == spec_count_state(grid.deep_view(), target_state),
{
    let ghost p = grid.deep_view();
    let mut count: u64 = 0;
    let mut i: usize = 0;
    proof {
        assert(p.take(0) =~= Seq::<Seq<Seq<Cube>>>::empty());
    }
    while i < grid.len()
        invariant
            p == grid.deep_view(),
            box_wf(p),
            box_sized(p),
            i <= p.len(),
            count == spec_count_state(p.take(i as int), target_state),
            count <= (i as int) * 0xFFFF * 0xFFFF,
        decreases p.len() - i,
    {
        proof {
            lemma_box_view(grid);
        }
        let grid_i = &grid[i];
        let mut j: usize = 0;
        let mut plane_count: u64 = 0;
        proof {
            assert(p[i as int].take(0) =~= Seq::<Seq<Cube>>::empty());
        }
        while j < grid_i.len()
            invariant
                p == grid.deep_view(),
                box_wf(p),
                box_sized(p),
                i < p.len(),
                grid_i.deep_view() == p[i as int],
                grid_i@.len() == p[i as int].len(),
                j <= p[i as int].len(),
                plane_count == spec_count_plane(p[i as int].take(j as int), target_state),
                plane_count <= (j as int) * 0xFFFF,
            decreases p[i as int].len() - j,
        {
            proof {
                lemma_box_view(grid);
            }
            let row = &grid_i[j];
            let mut k: usize = 0;
            let mut row_count: u64 = 0;
            while k < row.len()
                invariant
                    row@ == grid.deep_view()[i as int][j as int],
                    p == grid.deep_view(),
                    box_wf(p),
                    box_sized(p),
                    i < p.len(),
                    j < p[i as int].len(),
                    k <= row@.len(),
                    row_count == count_cube(row@.take(k as int), target_state),
                    row_count <= k,
                decreases row@.len() - k,
            {
                proof {
                    assert(row@.take(k + 1).drop_last() =~= row@.take(k as int));
                }
                if row[k] == target_state {
                    row_count = row_count + 1;
                }
                k = k + 1;
            }
            proof {
                assert(row@.take(row@.len() as int) =~= row@);
                assert(p[i as int].take(j + 1).drop_last() =~= p[i as int].take(j as int));
                assert(p[i as int].take(j + 1).last() == p[i as int][j as int]);
                lemma_count_cube_bound(p[i as int][j as int], target_state);
                assert(row@.len() == p[i as int][j as int].len());
                assert(p[i as int][j as int].len() <= 0xFFFF);
                assert((j + 1) * 0xFFFF == (j as int) * 0xFFFF + 0xFFFF) by (nonlinear_arith);
            }
            plane_count = plane_count + row_count;
            j = j + 1;
        }
        proof {
            assert(p[i as int].take(p[i as int].len() as int) =~= p[i as int]);
            assert(p.take(i + 1).drop_last() =~= p.take(i as int));
            assert(p.take(i + 1).last() == p[i as int]);
            assert((i + 1) * 0xFFFF * 0xFFFF == (i as int) * 0xFFFF * 0xFFFF + 0xFFFF * 0xFFFF)
                by (nonlinear_arith);
            assert((i as int) * 0xFFFF * 0xFFFF <= 0xFFFF * 0xFFFF * 0xFFFF) by (nonlinear_arith)
                requires i <= 0xFFFF;
        }
        count = count + plane_count;
        i = i + 1;
    }
    proof {
        assert(p.take(p.len() as int) =~= p);
    }
    count
}

/// The padded starting box a block of marker lines denotes: the parsed
/// sheet sits at height `offset`, shifted by `offset` in both remaining
/// axes; a cube is active exactly where its marker is `#`.
pub open spec fn spec_initial_cube(
    lines: Seq<Seq<char>>,
    offset: int,
    x: int,
    y: int,
    z: int,
) -> Cube {
    if x == offset && offset <= y < offset + lines.len() && offset <= z < offset + lines[y
        - offset].len() && lines[y - offset][z - offset] == '#' {
        Cube::A
    } else {
        Cube::I
    }
}

/// Builds the padded starting box from marker lines.
pub fn initial_plane(lines: &Vec<Vec<char>>, offset: usize, dimensions: &[usize; 3]) -> (plane: Vec<
    Vec<Vec<Cube>>,
>)
    requires
        offset + lines@.len() <= dimensions[1],
        offset < dimensions[0],
        forall|i: int| 0 <= i < lines@.len() ==> offset + (#[trigger] lines@[i])@.len()
            <= dimensions[2],
        dimensions[0] <= 0xFFFF,
        dimensions[1] <= 0xFFFF,
        dimensions[2] <= 0xFFFF,
    ensures
        plane.deep_view().len() == dimensions[0],
        forall|a: int|
            0 <= a < dimensions[0] ==> (#[trigger] plane.deep_view()[a]).len() == dimensions[1],
        forall|a: int, b: int|
            0 <= a < dimensions[0] && 0 <= b < dimensions[1] ==> (#[trigger] plane.deep_view(
            )[a][b]).len() == dimensions[2],
        forall|a: int, b: int, e: int|
            0 <= a < dimensions[0] && 0 <= b < dimensions[1] && 0 <= e < dimensions[2]
                ==> #[trigger] plane.deep_view()[a][b][e] == spec_initial_cube(
                lines.deep_view(),
                offset as int,
                a,
                b,
                e,
            ),
{
    let d0 = dimensions[0];
    let d1 = dimensions[1];
    let d2 = dimensions[2];
    let ghost ls = lines.deep_view();
    let mut plane: Vec<Vec<Vec<Cube>>> = Vec::new();
    let mut x: usize = 0;
    while x < d0
        invariant
            ls == lines.deep_view(),
            x <= d0,
            offset + lines@.len() <= d1,
            offset < d0,
            forall|i: int| 0 <= i < lines@.len() ==> offset + (#[trigger] lines@[i])@.len() <= d2,
            plane.deep_view().len() == x,
            forall|a: int| 0 <= a < x ==> (#[trigger] plane.deep_view()[a]).len() == d1,
            forall|a: int, b: int|
                0 <= a < x && 0 <= b < d1 ==> (#[trigger] plane.deep_view()[a][b]).len() == d2,
            forall|a: int, b: int, e: int|
                0 <= a < x && 0 <= b < d1 && 0 <= e < d2 ==> #[trigger] plane.deep_view()[a][b][e]
                    == spec_initial_cube(ls, offset as int, a, b, e),
        decreases d0 - x,
    {
        let mut grid: Vec<Vec<Cube>> = Vec::new();
        let mut y: usize = 0;
        while y < d1
            invariant
                ls == lines.deep_view(),
                x < d0,
                y <= d1,
                offset + lines@.len() <= d1,
                offset < d0,
                forall|i: int| 0 <= i < lines@.len() ==> offset + (#[trigger] lines@[i])@.len()
                    <= d2,
                grid.deep_view().len() == y,
                forall|b: int| 0 <= b < y ==> (#[trigger] grid.deep_view()[b]).len() == d2,
                forall|b: int, e: int|
                    0 <= b < y && 0 <= e < d2 ==> #[trigger] grid.deep_view()[b][e]
                        == spec_initial_cube(ls, offset as int, x as int, b, e),
            decreases d1 - y,
        {
            let mut row: Vec<Cube> = Vec::new();
            let mut z: usize = 0;
            while z < d2
                invariant
                    ls == lines.deep_view(),
                    x < d0,
                    y < d1,
                    z <= d2,
                    offset + lines@.len() <= d1,
                    offset < d0,
                    forall|i: int| 0 <= i < lines@.len() ==> offset + (#[trigger] lines@[i])@.len()
                        <= d2,
                    row@.len() == z,
                    forall|e: int|
                        0 <= e < z ==> #[trigger] row@[e] == spec_initial_cube(
                            ls,
                            offset as int,
                            x as int,
                            y as int,
                            e,
                        ),
                decreases d2 - z,
            {
                let mut cube = Cube::I;
                if x == offset && y >= offset && y - offset < lines.len() {
                    let line = &lines[y - offset];
                    if z >= offset && z - offset < line.len() {
                        if line[z - offset] == '#' {
                            cube = Cube::A;
                        }
                    }
                    proof {
                        assert(lines@[y - offset].deep_view() =~= lines@[y - offset]@);
                        assert(ls[y - offset] == lines@[y - offset]@);
                    }
                }
                row.push(cube);
                z = z + 1;
            }
            let ghost rows_before = grid.deep_view();
            grid.push(row);
            proof {
                assert(grid.deep_view() =~~= rows_before.push(row@));
            }
            y = y + 1;
        }
        let ghost grids_before = plane.deep_view();
        plane.push(grid);
        proof {
            assert(plane.deep_view() =~~= grids_before.push(grid.deep_view()));
        }
        x = x + 1;
    }
    plane
}

} // verus!

