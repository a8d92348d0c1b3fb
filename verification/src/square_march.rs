use vstd::prelude::*;

verus! {

// Corners of a square, in the order the case index reads them: 0 is (0, 0), 1 is (1, 0),
// 2 is (1, 1) and 3 is (0, 1). Edge points: 0 (north) lies between corners 0 and 1,
// 1 (east) between 1 and 2, 2 (south) between 3 and 2, 3 (west) between 0 and 3.
// Fill vertices 0..3 are those edge points, 4..7 the corners 0..3.

/// The marching-squares case of a square whose corners are above the threshold as `above`
/// says: corner 0 weighs 8, corner 1 weighs 4, corner 2 weighs 2 and corner 3 weighs 1.
pub open spec fn spec_square_case(above: Seq<bool>) -> int {
    (if above[0] { 8int } else { 0int }) + (if above[1] { 4int } else { 0int }) + (if above[2] {
        2int
    } else {
        0int
    }) + (if above[3] { 1int } else { 0int })
}

/// Whether corner `c` of a square of case `case` is above the threshold.
pub open spec fn corner_above(case: int, c: int) -> bool {
    if c == 0 {
        case >= 8
    } else if c == 1 {
        case % 8 >= 4
    } else if c == 2 {
        case % 4 >= 2
    } else {
        case % 2 == 1
    }
}

/// The two corners that edge `e` joins.
pub open spec fn edge_corners(e: int) -> (int, int) {
    if e == 0 {
        (0, 1)
    } else if e == 1 {
        (1, 2)
    } else if e == 2 {
        (3, 2)
    } else {
        (0, 3)
    }
}

/// Whether the contour crosses edge `e` of a square of case `case`: its two corners lie
/// on different sides of the threshold.
pub open spec fn edge_crossed(case: int, e: int) -> bool {
    corner_above(case, edge_corners(e).0) != corner_above(case, edge_corners(e).1)
}

/// The edge points that `get_lines` joins for each case, two by two.
pub open spec fn spec_contour_edges(case: int) -> Seq<usize> {
    if case == 0 {
        seq![]
    } else if case == 1 {
        seq![3, 2]
    } else if case == 2 {
        seq![2, 1]
    } else if case == 3 {
        seq![3, 1]
    } else if case == 4 {
        seq![0, 1]
    } else if case == 5 {
        seq![3, 0, 2, 1]
    } else if case == 6 {
        seq![0, 2]
    } else if case == 7 {
        seq![3, 0]
    } else if case == 8 {
        seq![3, 0]
    } else if case == 9 {
        seq![0, 2]
    } else if case == 10 {
        seq![3, 2, 0, 1]
    } else if case == 11 {
        seq![0, 1]
    } else if case == 12 {
        seq![3, 1]
    } else if case == 13 {
        seq![2, 1]
    } else if case == 14 {
        seq![3, 2]
    } else {
        seq![3, 0, 0, 1, 1, 2, 2, 3]
    }
}

/// The vertices of the triangles that `march` emits for each case, three by three.
pub open spec fn spec_fill_vertices(case: int) -> Seq<usize> {
    if case == 0 {
        seq![]
    } else if case == 1 {
        seq![7, 3, 2]
    } else if case == 2 {
        seq![6, 2, 1]
    } else if case == 3 {
        seq![3, 1, 6, 7, 6, 3]
    } else if case == 4 {
        seq![0, 5, 1]
    } else if case == 5 {
        seq![0, 5, 1, 7, 3, 2, 3, 0, 1, 3, 2, 1]
    } else if case == 6 {
        seq![0, 5, 6, 0, 2, 6]
    } else if case == 7 {
        seq![3, 7, 6, 3, 0, 6, 0, 5, 6]
    } else if case == 8 {
        seq![4, 3, 0]
    } else if case == 9 {
        seq![4, 0, 2, 7, 4, 2]
    } else if case == 10 {
        seq![4, 3, 0, 6, 2, 1, 3, 0, 1, 3, 2, 1]
    } else if case == 11 {
        seq![4, 0, 7, 0, 1, 7, 7, 1, 6]
    } else if case == 12 {
        seq![4, 5, 3, 3, 1, 5]
    } else if case == 13 {
        seq![4, 5, 1, 4, 2, 1, 4, 7, 2]
    } else if case == 14 {
        seq![5, 4, 3, 5, 3, 2, 5, 2, 6]
    } else {
        seq![4, 5, 7, 5, 7, 6]
    }
}

/// The marching-squares case of a square from whether each corner is above the threshold.
pub fn square_case(above: [bool; 4]) -> (case: usize)
    ensures
        case == spec_square_case(above@),
        case < 16,
        forall|c: int| 0 <= c < 4 ==> corner_above(case as int, c) == above@[c],
{
    (if above[0] { 8 } else { 0 }) + (if above[1] { 4 } else { 0 }) + (if above[2] { 2 } else { 0 })
        + (if above[3] { 1 } else { 0 })
}

/// The contour table joins, for every mixed case, exactly the crossed edges, each once.
pub proof fn lemma_contour_edges(case: int)
    requires
        0 <= case < 16,
    ensures
        spec_contour_edges(case).len() % 2 == 0,
        forall|k: int|
            0 <= k < spec_contour_edges(case).len() ==> #[trigger] spec_contour_edges(case)[k] < 4,
        0 < case < 15 ==> forall|e: int|
            0 <= e < 4 ==> (edge_crossed(case, e) <==> spec_contour_edges(case).contains(
                e as usize,
            )),
        0 < case < 15 ==> spec_contour_edges(case).no_duplicates(),
{
    let s = spec_contour_edges(case);
    assert forall|e: int| 0 <= e < 4 && 0 < case < 15 implies (edge_crossed(case, e) <==> s.contains(
        e as usize,
    )) by {
        if s.contains(e as usize) {
            let k = choose|k: int| 0 <= k < s.len() && s[k] == e as usize;
        }
        if edge_crossed(case, e) {
            if case == 1 { assert(s[0] == 3 && s[1] == 2); }
            else if case == 2 { assert(s[0] == 2 && s[1] == 1); }
            else if case == 3 { assert(s[0] == 3 && s[1] == 1); }
            else if case == 4 { assert(s[0] == 0 && s[1] == 1); }
            else if case == 5 { assert(s[0] == 3 && s[1] == 0 && s[2] == 2 && s[3] == 1); }
            else if case == 6 { assert(s[0] == 0 && s[1] == 2); }
            else if case == 7 { assert(s[0] == 3 && s[1] == 0); }
            else if case == 8 { assert(s[0] == 3 && s[1] == 0); }
            else if case == 9 { assert(s[0] == 0 && s[1] == 2); }
            else if case == 10 { assert(s[0] == 3 && s[1] == 2 && s[2] == 0 && s[3] == 1); }
            else if case == 11 { assert(s[0] == 0 && s[1] == 1); }
            else if case == 12 { assert(s[0] == 3 && s[1] == 1); }
            else if case == 13 { assert(s[0] == 2 && s[1] == 1); }
            else { assert(s[0] == 3 && s[1] == 2); }
        }
    }
}

/// The fill table uses only solid corners and crossed edges, and every solid corner.
pub proof fn lemma_fill_vertices(case: int)
    requires
        0 <= case < 16,
    ensures
        spec_fill_vertices(case).len() % 3 == 0,
        forall|k: int|
            0 <= k < spec_fill_vertices(case).len() ==> #[trigger] spec_fill_vertices(case)[k] < 8,
        forall|k: int|
            0 <= k < spec_fill_vertices(case).len() && #[trigger] spec_fill_vertices(case)[k] >= 4
                ==> corner_above(case, spec_fill_vertices(case)[k] - 4),
        forall|c: int|
            0 <= c < 4 && corner_above(case, c) ==> spec_fill_vertices(case).contains(
                (c + 4) as usize,
            ),
        forall|k: int|
            0 <= k < spec_fill_vertices(case).len() && #[trigger] spec_fill_vertices(case)[k] < 4
                ==> edge_crossed(case, spec_fill_vertices(case)[k] as int),
{
    let s = spec_fill_vertices(case);
    assert forall|c: int| 0 <= c < 4 && corner_above(case, c) implies s.contains((c + 4) as usize) by {
        let v = (c + 4) as usize;
        let k: int = if case == 1 { 0 }
            else if case == 2 { 0 }
            else if case == 3 { if v == 6 { 2 } else { 3 } }
            else if case == 4 { 1 }
            else if case == 5 { if v == 5 { 1 } else { 3 } }
            else if case == 6 { if v == 5 { 1 } else { 2 } }
            else if case == 7 { if v == 7 { 1 } else if v == 6 { 2 } else { 7 } }
            else if case == 8 { 0 }
            else if case == 9 { if v == 4 { 0 } else { 3 } }
            else if case == 10 { if v == 4 { 0 } else { 3 } }
            else if case == 11 { if v == 4 { 0 } else if v == 7 { 2 } else { 8 } }
            else if case == 12 { if v == 4 { 0 } else { 1 } }
            else if case == 13 { if v == 4 { 0 } else if v == 5 { 1 } else { 7 } }
            else if case == 14 { if v == 5 { 0 } else if v == 4 { 1 } else { 8 } }
            else { if v == 4 { 0 } else if v == 5 { 1 } else if v == 7 { 2 } else { 5 } };
        assert(s[k] == v);
    }
}

/// Where fill vertex `v` lies, in half units of the square (x along the first index, y along
/// the second): corners at 0 and 2, each edge point at the middle of its edge. Wherever the
/// contour crosses an edge, the points round the square keep their order, so the shape of the
/// fill is the same as with these midpoints.
pub open spec fn vertex_pos(v: int) -> (int, int) {
    if v == 0 {
        (1, 0)
    } else if v == 1 {
        (2, 1)
    } else if v == 2 {
        (1, 2)
    } else if v == 3 {
        (0, 1)
    } else if v == 4 {
        (0, 0)
    } else if v == 5 {
        (2, 0)
    } else if v == 6 {
        (2, 2)
    } else {
        (0, 2)
    }
}

/// Twice the signed area of the triangle through fill vertices `a`, `b` and `c`; positive
/// when they turn the way the walk round the square does.
pub open spec fn area2(a: int, b: int, c: int) -> int {
    let p = vertex_pos(a);
    let q = vertex_pos(b);
    let r = vertex_pos(c);
    (q.0 - p.0) * (r.1 - p.1) - (q.1 - p.1) * (r.0 - p.0)
}

/// The fill vertex at step `i` of the walk round the square: corner 0, north, corner 1,
/// east, corner 2, south, corner 3, west.
pub open spec fn boundary_vertex(i: int) -> int {
    if i == 0 {
        4
    } else if i == 1 {
        0
    } else if i == 2 {
        5
    } else if i == 3 {
        1
    } else if i == 4 {
        6
    } else if i == 5 {
        2
    } else if i == 6 {
        7
    } else {
        3
    }
}

/// The step of the walk round the square at which fill vertex `v` lies.
pub open spec fn boundary_step(v: int) -> int {
    if v == 4 {
        0
    } else if v == 0 {
        1
    } else if v == 5 {
        2
    } else if v == 1 {
        3
    } else if v == 6 {
        4
    } else if v == 2 {
        5
    } else if v == 7 {
        6
    } else {
        7
    }
}

/// Whether fill vertex `v` belongs to the solid part of a square of case `case`: a corner
/// above the threshold, or the point where the contour crosses an edge.
pub open spec fn solid_vertex(case: int, v: int) -> bool {
    if v >= 4 {
        corner_above(case, v - 4)
    } else {
        edge_crossed(case, v)
    }
}

/// The step of the first solid point at least `d` steps after step `i` of the walk round the
/// square; `i` itself when there is none.
pub open spec fn next_solid_step(case: int, i: int, d: int) -> int
    decreases 8 - d,
{
    let j = if i + d < 8 { i + d } else { i + d - 8 };
    if d >= 8 {
        i
    } else if solid_vertex(case, boundary_vertex(j)) {
        j
    } else {
        next_solid_step(case, i, d + 1)
    }
}

/// Whether `a -> b` is a side of the solid part of a square of case `case`: the polygon
/// through its solid points in their order round the square.
pub open spec fn solid_side(case: int, a: int, b: int) -> bool {
    &&& solid_vertex(case, a)
    &&& solid_vertex(case, b)
    &&& a != b
    &&& boundary_vertex(next_solid_step(case, boundary_step(a), 1)) == b
}

/// Triangle `t` of a list of fill vertices, its corners ordered to turn the way the walk
/// round the square does.
pub open spec fn fill_triangle(tris: Seq<usize>, t: int) -> (int, int, int) {
    let a = tris[3 * t] as int;
    let b = tris[3 * t + 1] as int;
    let c = tris[3 * t + 2] as int;
    if area2(a, b, c) >= 0 {
        (a, b, c)
    } else {
        (a, c, b)
    }
}

/// How many times the triangle `tri` has the side `a -> b`.
pub open spec fn side_count(tri: (int, int, int), a: int, b: int) -> int {
    (if tri.0 == a && tri.1 == b { 1int } else { 0int }) + (if tri.1 == a && tri.2 == b {
        1int
    } else {
        0int
    }) + (if tri.2 == a && tri.0 == b { 1int } else { 0int })
}

/// How many of the triangles from `t` on have the side `a -> b`.
pub open spec fn sides_from(tris: Seq<usize>, a: int, b: int, t: int) -> int
    decreases tris.len() / 3 - t,
{
    if t >= tris.len() / 3 {
        0
    } else {
        side_count(fill_triangle(tris, t), a, b) + sides_from(tris, a, b, t + 1)
    }
}

/// Whether the triangles in `tris` exactly tile the solid part of a square of case `case`:
/// none is flat, and their sides, all turning the same way, cancel in pairs down to the
/// sides of the solid polygon. Then every point of that polygon lies in exactly one triangle
/// and every point outside it in none.
pub open spec fn tiles_solid_part(case: int, tris: Seq<usize>) -> bool {
    &&& tris.len() % 3 == 0
    &&& forall|t: int|
        0 <= t < tris.len() / 3 ==> #[trigger] area2(
            fill_triangle(tris, t).0,
            fill_triangle(tris, t).1,
            fill_triangle(tris, t).2,
        ) != 0
    &&& forall|a: int, b: int|
        0 <= a < 8 && 0 <= b < 8 ==> #[trigger] sides_from(tris, a, b, 0) - sides_from(tris, b, a, 0)
            == (if solid_side(case, a, b) { 1int } else { 0int }) - (if solid_side(case, b, a) {
            1int
        } else {
            0int
        })
}

spec fn tiling_side_holds(case: int, a: int, b: int) -> bool {
    sides_from(spec_fill_vertices(case), a, b, 0) - sides_from(spec_fill_vertices(case), b, a, 0)
        == (if solid_side(case, a, b) { 1int } else { 0int }) - (if solid_side(case, b, a) {
        1int
    } else {
        0int
    })
}

/// Swapping two corners of a triangle turns its signed area round.
proof fn lemma_area2_swap(a: int, b: int, c: int)
    ensures
        area2(a, c, b) == -area2(a, b, c),
{
    let p = vertex_pos(a);
    let q = vertex_pos(b);
    let r = vertex_pos(c);
    assert((r.0 - p.0) * (q.1 - p.1) - (r.1 - p.1) * (q.0 - p.0) == -((q.0 - p.0) * (r.1 - p.1) - (
    q.1 - p.1) * (r.0 - p.0))) by (nonlinear_arith);
}

/// No triangle of any case's fill is flat.
proof fn lemma_fill_areas(case: int)
    requires
        0 <= case < 16,
    ensures
        forall|t: int|
            0 <= t < spec_fill_vertices(case).len() / 3 ==> #[trigger] area2(
                spec_fill_vertices(case)[3 * t] as int,
                spec_fill_vertices(case)[3 * t + 1] as int,
                spec_fill_vertices(case)[3 * t + 2] as int,
            ) != 0,
{
    if case == 1 {
        assert(area2(7, 3, 2) == 1) by (nonlinear_arith);
    }
    if case == 2 {
        assert(area2(6, 2, 1) == 1) by (nonlinear_arith);
    }
    if case == 3 {
        assert(area2(3, 1, 6) == 2) by (nonlinear_arith);
        assert(area2(7, 6, 3) == -2) by (nonlinear_arith);
    }
    if case == 4 {
        assert(area2(0, 5, 1) == 1) by (nonlinear_arith);
    }
    if case == 5 {
        assert(area2(0, 5, 1) == 1) by (nonlinear_arith);
        assert(area2(7, 3, 2) == 1) by (nonlinear_arith);
        assert(area2(3, 0, 1) == 2) by (nonlinear_arith);
        assert(area2(3, 2, 1) == -2) by (nonlinear_arith);
    }
    if case == 6 {
        assert(area2(0, 5, 6) == 2) by (nonlinear_arith);
        assert(area2(0, 2, 6) == -2) by (nonlinear_arith);
    }
    if case == 7 {
        assert(area2(3, 7, 6) == -2) by (nonlinear_arith);
        assert(area2(3, 0, 6) == 3) by (nonlinear_arith);
        assert(area2(0, 5, 6) == 2) by (nonlinear_arith);
    }
    if case == 8 {
        assert(area2(4, 3, 0) == -1) by (nonlinear_arith);
    }
    if case == 9 {
        assert(area2(4, 0, 2) == 2) by (nonlinear_arith);
        assert(area2(7, 4, 2) == 2) by (nonlinear_arith);
    }
    if case == 10 {
        assert(area2(4, 3, 0) == -1) by (nonlinear_arith);
        assert(area2(6, 2, 1) == 1) by (nonlinear_arith);
        assert(area2(3, 0, 1) == 2) by (nonlinear_arith);
        assert(area2(3, 2, 1) == -2) by (nonlinear_arith);
    }
    if case == 11 {
        assert(area2(4, 0, 7) == 2) by (nonlinear_arith);
        assert(area2(0, 1, 7) == 3) by (nonlinear_arith);
        assert(area2(7, 1, 6) == 2) by (nonlinear_arith);
    }
    if case == 12 {
        assert(area2(4, 5, 3) == 2) by (nonlinear_arith);
        assert(area2(3, 1, 5) == -2) by (nonlinear_arith);
    }
    if case == 13 {
        assert(area2(4, 5, 1) == 2) by (nonlinear_arith);
        assert(area2(4, 2, 1) == -3) by (nonlinear_arith);
        assert(area2(4, 7, 2) == -2) by (nonlinear_arith);
    }
    if case == 14 {
        assert(area2(5, 4, 3) == -2) by (nonlinear_arith);
        assert(area2(5, 3, 2) == -3) by (nonlinear_arith);
        assert(area2(5, 2, 6) == -2) by (nonlinear_arith);
    }
    if case == 15 {
        assert(area2(4, 5, 7) == 4) by (nonlinear_arith);
        assert(area2(5, 7, 6) == -4) by (nonlinear_arith);
    }
}

/// One side pair of the tiling of one case.
#[verifier::rlimit(100)]
#[verifier::spinoff_prover]
proof fn lemma_tiling_sides(case: int, a: int, b: int)
    requires
        0 <= case < 16,
        0 <= a < 8,
        0 <= b < 8,
    ensures
        sides_from(spec_fill_vertices(case), a, b, 0) - sides_from(spec_fill_vertices(case), b, a, 0)
            == (if solid_side(case, a, b) { 1int } else { 0int }) - (if solid_side(case, b, a) {
            1int
        } else {
            0int
        }),
{
    if case == 0 {
        assert(tiling_side_holds(0, a, b)) by {
            reveal_with_fuel(sides_from, 5);
            reveal_with_fuel(next_solid_step, 9);
        }
    }
    if case == 1 {
        assert(tiling_side_holds(1, a, b)) by {
            assert(area2(7, 3, 2) == 1) by (nonlinear_arith);
            reveal_with_fuel(sides_from, 5);
            reveal_with_fuel(next_solid_step, 9);
        }
    }
    if case == 2 {
        assert(tiling_side_holds(2, a, b)) by {
            assert(area2(6, 2, 1) == 1) by (nonlinear_arith);
            reveal_with_fuel(sides_from, 5);
            reveal_with_fuel(next_solid_step, 9);
        }
    }
    if case == 3 {
        assert(tiling_side_holds(3, a, b)) by {
            assert(area2(3, 1, 6) == 2) by (nonlinear_arith);
            assert(area2(7, 6, 3) == -2) by (nonlinear_arith);
            reveal_with_fuel(sides_from, 5);
            reveal_with_fuel(next_solid_step, 9);
        }
    }
    if case == 4 {
        assert(tiling_side_holds(4, a, b)) by {
            assert(area2(0, 5, 1) == 1) by (nonlinear_arith);
            reveal_with_fuel(sides_from, 5);
            reveal_with_fuel(next_solid_step, 9);
        }
    }
    if case == 5 {
        assert(tiling_side_holds(5, a, b)) by {
            assert(area2(0, 5, 1) == 1) by (nonlinear_arith);
            assert(area2(7, 3, 2) == 1) by (nonlinear_arith);
            assert(area2(3, 0, 1) == 2) by (nonlinear_arith);
            assert(area2(3, 2, 1) == -2) by (nonlinear_arith);
            reveal_with_fuel(sides_from, 5);
            reveal_with_fuel(next_solid_step, 9);
        }
    }
    if case == 6 {
        assert(tiling_side_holds(6, a, b)) by {
            assert(area2(0, 5, 6) == 2) by (nonlinear_arith);
            assert(area2(0, 2, 6) == -2) by (nonlinear_arith);
            reveal_with_fuel(sides_from, 5);
            reveal_with_fuel(next_solid_step, 9);
        }
    }
    if case == 7 {
        assert(tiling_side_holds(7, a, b)) by {
            assert(area2(3, 7, 6) == -2) by (nonlinear_arith);
            assert(area2(3, 0, 6) == 3) by (nonlinear_arith);
            assert(area2(0, 5, 6) == 2) by (nonlinear_arith);
            reveal_with_fuel(sides_from, 5);
            reveal_with_fuel(next_solid_step, 9);
        }
    }
    if case == 8 {
        assert(tiling_side_holds(8, a, b)) by {
            assert(area2(4, 3, 0) == -1) by (nonlinear_arith);
            reveal_with_fuel(sides_from, 5);
            reveal_with_fuel(next_solid_step, 9);
        }
    }
    if case == 9 {
        assert(tiling_side_holds(9, a, b)) by {
            assert(area2(4, 0, 2) == 2) by (nonlinear_arith);
            assert(area2(7, 4, 2) == 2) by (nonlinear_arith);
            reveal_with_fuel(sides_from, 5);
            reveal_with_fuel(next_solid_step, 9);
        }
    }
    if case == 10 {
        assert(tiling_side_holds(10, a, b)) by {
            assert(area2(4, 3, 0) == -1) by (nonlinear_arith);
            assert(area2(6, 2, 1) == 1) by (nonlinear_arith);
            assert(area2(3, 0, 1) == 2) by (nonlinear_arith);
            assert(area2(3, 2, 1) == -2) by (nonlinear_arith);
            reveal_with_fuel(sides_from, 5);
            reveal_with_fuel(next_solid_step, 9);
        }
    }
    if case == 11 {
        assert(tiling_side_holds(11, a, b)) by {
            assert(area2(4, 0, 7) == 2) by (nonlinear_arith);
            assert(area2(0, 1, 7) == 3) by (nonlinear_arith);
            assert(area2(7, 1, 6) == 2) by (nonlinear_arith);
            reveal_with_fuel(sides_from, 5);
            reveal_with_fuel(next_solid_step, 9);
        }
    }
    if case == 12 {
        assert(tiling_side_holds(12, a, b)) by {
            assert(area2(4, 5, 3) == 2) by (nonlinear_arith);
            assert(area2(3, 1, 5) == -2) by (nonlinear_arith);
            reveal_with_fuel(sides_from, 5);
            reveal_with_fuel(next_solid_step, 9);
        }
    }
    if case == 13 {
        assert(tiling_side_holds(13, a, b)) by {
            assert(area2(4, 5, 1) == 2) by (nonlinear_arith);
            assert(area2(4, 2, 1) == -3) by (nonlinear_arith);
            assert(area2(4, 7, 2) == -2) by (nonlinear_arith);
            reveal_with_fuel(sides_from, 5);
            reveal_with_fuel(next_solid_step, 9);
        }
    }
    if case == 14 {
        assert(tiling_side_holds(14, a, b)) by {
            assert(area2(5, 4, 3) == -2) by (nonlinear_arith);
            assert(area2(5, 3, 2) == -3) by (nonlinear_arith);
            assert(area2(5, 2, 6) == -2) by (nonlinear_arith);
            reveal_with_fuel(sides_from, 5);
            reveal_with_fuel(next_solid_step, 9);
        }
    }
    if case == 15 {
        assert(tiling_side_holds(15, a, b)) by {
            assert(area2(4, 5, 7) == 4) by (nonlinear_arith);
            assert(area2(5, 7, 6) == -4) by (nonlinear_arith);
            reveal_with_fuel(sides_from, 5);
            reveal_with_fuel(next_solid_step, 9);
        }
    }
}

/// The fill triangles of every case exactly tile the solid part of the square: the polygon
/// through the corners above the threshold and the points where the contour crosses an
/// edge, in their order round the square.
pub proof fn lemma_fill_tiles_solid_part(case: int)
    requires
        0 <= case < 16,
    ensures
        tiles_solid_part(case, spec_fill_vertices(case)),
{
    let tris = spec_fill_vertices(case);
    assert forall|t: int| 0 <= t < tris.len() / 3 implies #[trigger] area2(
        fill_triangle(tris, t).0,
        fill_triangle(tris, t).1,
        fill_triangle(tris, t).2,
    ) != 0 by {
        lemma_fill_areas(case);
        lemma_area2_swap(tris[3 * t] as int, tris[3 * t + 1] as int, tris[3 * t + 2] as int);
    }
    assert forall|a: int, b: int| 0 <= a < 8 && 0 <= b < 8 implies #[trigger] sides_from(
        tris,
        a,
        b,
        0,
    ) - sides_from(tris, b, a, 0) == (if solid_side(case, a, b) { 1int } else { 0int }) - (
    if solid_side(case, b, a) {
        1int
    } else {
        0int
    }) by {
        lemma_tiling_sides(case, a, b);
    }
}

/// The edge points that the contour of a square of case `case` passes through, listed two
/// by two: each pair is one segment of the contour. Where the corners are mixed
/// (`0 < case < 15`) the points are exactly the edges that the contour crosses, each once;
/// a fully solid square (`case == 15`) yields its four sides.
pub fn contour_edges(case: usize) -> (edges: Vec<usize>)
    requires
        case < 16,
    ensures
        edges@ == spec_contour_edges(case as int),
        edges.len() % 2 == 0,
        forall|k: int| 0 <= k < edges.len() ==> edges@[k] < 4,
        0 < case < 15 ==> forall|e: int|
            0 <= e < 4 ==> (edge_crossed(case as int, e) <==> edges@.contains(e as usize)),
        0 < case < 15 ==> edges@.no_duplicates(),
{
    proof {
        lemma_contour_edges(case as int);
    }
    match case {
        0 => vec![],
        1 => vec![3, 2],
        2 => vec![2, 1],
        3 => vec![3, 1],
        4 => vec![0, 1],
        5 => vec![3, 0, 2, 1],
        6 => vec![0, 2],
        7 => vec![3, 0],
        8 => vec![3, 0],
        9 => vec![0, 2],
        10 => vec![3, 2, 0, 1],
        11 => vec![0, 1],
        12 => vec![3, 1],
        13 => vec![2, 1],
        14 => vec![3, 2],
        _ => vec![3, 0, 0, 1, 1, 2, 2, 3],
    }
}

/// The vertices of the triangles that fill the solid part of a square of case `case`,
/// three by three. Every corner used is above the threshold, every above corner is used,
/// every edge point used is one that the contour crosses, and the triangles exactly tile the
/// solid part of the square.
pub fn fill_vertices(case: usize) -> (verts: Vec<usize>)
    requires
        case < 16,
    ensures
        verts@ == spec_fill_vertices(case as int),
        verts.len() % 3 == 0,
        forall|k: int| 0 <= k < verts.len() ==> verts@[k] < 8,
        forall|k: int|
            0 <= k < verts.len() && verts@[k] >= 4 ==> corner_above(case as int, verts@[k] - 4),
        forall|c: int| 0 <= c < 4 && corner_above(case as int, c) ==> verts@.contains((c + 4) as usize),
        forall|k: int|
            0 <= k < verts.len() && verts@[k] < 4 ==> edge_crossed(case as int, verts@[k] as int),
        tiles_solid_part(case as int, verts@),
{
    proof {
        lemma_fill_vertices(case as int);
        lemma_fill_tiles_solid_part(case as int);
    }
    match case {
        0 => vec![],
        1 => vec![7, 3, 2],
        2 => vec![6, 2, 1],
        3 => vec![3, 1, 6, 7, 6, 3],
        4 => vec![0, 5, 1],
        5 => vec![0, 5, 1, 7, 3, 2, 3, 0, 1, 3, 2, 1],
        6 => vec![0, 5, 6, 0, 2, 6],
        7 => vec![3, 7, 6, 3, 0, 6, 0, 5, 6],
        8 => vec![4, 3, 0],
        9 => vec![4, 0, 2, 7, 4, 2],
        10 => vec![4, 3, 0, 6, 2, 1, 3, 0, 1, 3, 2, 1],
        11 => vec![4, 0, 7, 0, 1, 7, 7, 1, 6],
        12 => vec![4, 5, 3, 3, 1, 5],
        13 => vec![4, 5, 1, 4, 2, 1, 4, 7, 2],
        14 => vec![5, 4, 3, 5, 3, 2, 5, 2, 6],
        _ => vec![4, 5, 7, 5, 7, 6],
    }
}

/// Pairs up a list of contour points into segments: the `k`-th segment joins point
/// `2k + 1` to point `2k`. A trailing unpaired point is dropped.
pub fn segments<T: Copy>(points: &Vec<T>) -> (lines: Vec<(T, T)>)
    ensures
        lines.len() == points.len() / 2,
        forall|k: int|
            0 <= k < lines.len() ==> #[trigger] lines@[k] == (points@[2 * k + 1], points@[2 * k]),
{
    let mut lines: Vec<(T, T)> = Vec::new();
    let mut i: usize = 1;
    while i < points.len()
        invariant
            i % 2 == 1,
            1 <= i <= points.len() + 1,
            lines.len() == (i - 1) / 2,
            forall|k: int|
                0 <= k < lines.len() ==> #[trigger] lines@[k] == (points@[2 * k + 1], points@[2 * k]),
        decreases points.len() + 1 - i,
    {
        lines.push((points[i], points[i - 1]));
        i += 2;
    }
    lines
}

/// Whether the sample at `(x, y)` of a `width`-by-`height` grid of flags, stored with
/// `(x, y)` at `x * height + y`, is above the threshold.
pub open spec fn flag_at(above: Seq<bool>, height: int, x: int, y: int) -> bool {
    above[x * height + y]
}

/// The case of the grid square whose first corner is `(x, y)`.
pub open spec fn square_case_at(above: Seq<bool>, height: int, x: int, y: int) -> int {
    spec_square_case(
        seq![
            flag_at(above, height, x, y),
            flag_at(above, height, x + 1, y),
            flag_at(above, height, x + 1, y + 1),
            flag_at(above, height, x, y + 1),
        ],
    )
}

/// The fill vertices of square `(x, y)`, each tagged with the square.
pub open spec fn square_points(above: Seq<bool>, height: int, x: int, y: int) -> Seq<
    (usize, usize, usize),
> {
    spec_fill_vertices(square_case_at(above, height, x, y)).map_values(
        |v: usize| (x as usize, y as usize, v),
    )
}

/// The fill vertices of the first `n` squares of row `y`, in order of `x`.
pub open spec fn row_points(above: Seq<bool>, height: int, y: int, n: int) -> Seq<
    (usize, usize, usize),
>
    decreases n,
{
    if n <= 0 {
        seq![]
    } else {
        row_points(above, height, y, n - 1) + square_points(above, height, n - 1, y)
    }
}

/// The fill vertices of the first `n` rows of a grid `width` samples wide, row after row.
pub open spec fn grid_points(above: Seq<bool>, width: int, height: int, n: int) -> Seq<
    (usize, usize, usize),
>
    decreases n,
{
    if n <= 0 {
        seq![]
    } else {
        grid_points(above, width, height, n - 1) + row_points(above, height, n - 1, width - 1)
    }
}

/// Every vertex that marching over the first `n` rows lists lies in a square of the grid
/// (`x < width - 1`, `y < n`) and is one of the eight vertex kinds.
pub proof fn lemma_points_in_grid(above: Seq<bool>, width: int, height: int, n: int)
    requires
        1 <= width <= usize::MAX,
        1 <= height <= usize::MAX,
        0 <= n < height,
        above.len() == width * height,
    ensures
        forall|k: int|
            0 <= k < grid_points(above, width, height, n).len() ==> {
                let p = #[trigger] grid_points(above, width, height, n)[k];
                p.0 < width - 1 && p.1 < n && p.2 < 8
            },
    decreases n,
{
    if n > 0 {
        lemma_points_in_grid(above, width, height, n - 1);
        lemma_row_points_in_row(above, width, height, n - 1, width - 1);
        let a = grid_points(above, width, height, n - 1);
        let b = row_points(above, height, n - 1, width - 1);
        assert forall|k: int| 0 <= k < (a + b).len() implies {
            let p = #[trigger] (a + b)[k];
            p.0 < width - 1 && p.1 < n && p.2 < 8
        } by {
            if k >= a.len() {
                assert((a + b)[k] == b[k - a.len()]);
            }
        }
    }
}

proof fn lemma_row_points_in_row(above: Seq<bool>, width: int, height: int, y: int, m: int)
    requires
        1 <= width <= usize::MAX,
        1 <= height <= usize::MAX,
        0 <= y < height - 1,
        0 <= m <= width - 1,
        above.len() == width * height,
    ensures
        forall|k: int|
            0 <= k < row_points(above, height, y, m).len() ==> {
                let p = #[trigger] row_points(above, height, y, m)[k];
                p.0 < m && p.1 == y && p.2 < 8
            },
    decreases m,
{
    if m > 0 {
        lemma_row_points_in_row(above, width, height, y, m - 1);
        let a = row_points(above, height, y, m - 1);
        let b = square_points(above, height, m - 1, y);
        let case = square_case_at(above, height, m - 1, y);
        assert(0 <= case < 16);
        lemma_fill_vertices(case);
        assert forall|k: int| 0 <= k < (a + b).len() implies {
            let p = #[trigger] (a + b)[k];
            p.0 < m && p.1 == y && p.2 < 8
        } by {
            if k >= a.len() {
                let j = k - a.len();
                assert((a + b)[k] == b[j]);
                assert(b[j] == ((m - 1) as usize, y as usize, spec_fill_vertices(case)[j]));
                assert(spec_fill_vertices(case)[j] < 8);
            }
        }
    }
}

proof fn lemma_sample_in_grid(x: int, y: int, width: int, height: int)
    by (nonlinear_arith)
    requires
        0 <= x,
        x + 1 < width,
        0 <= y,
        y + 1 < height,
    ensures
        0 <= x * height + y,
        (x + 1) * height + (y + 1) < width * height,
        x * height + (y + 1) < width * height,
        (x + 1) * height + y < width * height,
{
}

/// Marching squares over a `width`-by-`height` grid of samples, given whether each sample
/// is above the threshold (`(x, y)` at `x * height + y`). For every square, row by row
/// (`y` outer, `x` inner), it lists the fill vertices of the square's case as
/// `(x, y, vertex)`; the caller places each vertex inside its square.
pub fn mesh_points(above: &Vec<bool>, width: usize, height: usize) -> (points: Vec<
    (usize, usize, usize),
>)
    requires
        width >= 1,
        height >= 1,
        above.len() == width * height,
    ensures
        points@ == grid_points(above@, width as int, height as int, height - 1),
{
    let mut points: Vec<(usize, usize, usize)> = Vec::new();
    let mut y: usize = 0;
    while y < height - 1
        invariant
            width >= 1,
            height >= 1,
            above.len() == width * height,
            y <= height - 1,
            points@ == grid_points(above@, width as int, height as int, y as int),
        decreases height - 1 - y,
    {
        let mut x: usize = 0;
        while x < width - 1
            invariant
                width >= 1,
                height >= 1,
                above.len() == width * height,
                y < height - 1,
                x <= width - 1,
                points@ == grid_points(above@, width as int, height as int, y as int) + row_points(
                    above@,
                    height as int,
                    y as int,
                    x as int,
                ),
            decreases width - 1 - x,
        {
            proof {
                lemma_sample_in_grid(x as int, y as int, width as int, height as int);
            }
            let case = square_case(
                [
                    above[x * height + y],
                    above[(x + 1) * height + y],
                    above[(x + 1) * height + y + 1],
                    above[x * height + y + 1],
                ],
            );
            let verts = fill_vertices(case);
            assert(case == square_case_at(above@, height as int, x as int, y as int));
            let ghost base = points@;
            let mut k: usize = 0;
            while k < verts.len()
                invariant
                    k <= verts.len(),
                    points@ == base + verts@.take(k as int).map_values(
                        |v: usize| (x, y, v),
                    ),
                decreases verts.len() - k,
            {
                points.push((x, y, verts[k]));
                assert(verts@.take(k + 1) == verts@.take(k as int).push(verts@[k as int]));
                assert(points@ =~= base + verts@.take(k + 1).map_values(|v: usize| (x, y, v)));
                k += 1;
            }
            assert(verts@.take(verts.len() as int) == verts@);
            assert(points@ =~= grid_points(above@, width as int, height as int, y as int)
                + row_points(above@, height as int, y as int, x + 1));
            x += 1;
        }
        y += 1;
    }
    points
}

} // verus!
