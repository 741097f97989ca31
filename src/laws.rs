use crate::grid::{lemma_offset_in_bounds, Grid};
use crate::chains::Edge;
use crate::marching_squares::{
    Contour, case_index, segment_points, lemma_mul_bit, cell_vertices, contour_vertices, contours, corner_values, corner_x, corner_y,
    edge_point, grid_vertices, lookup_spec, row_vertices, Point,
};
use vstd::prelude::*;

verus! {

/// Every cell of the first `rows` rows lies entirely below the level or entirely at or above it.
pub open spec fn no_cell_crossed(g: Grid<i32>, level: i32, rows: int) -> bool {
    forall|x: int, y: int|
        0 <= x < g.spec_width() - 1 && 0 <= y < rows ==> #[trigger] case_index(corner_values(g, x, y), level)
            == 0 || case_index(corner_values(g, x, y), level) == 15
}

proof fn lemma_row_empty(g: Grid<i32>, level: i32, y: int, x: int)
    requires
        no_cell_crossed(g, level, y + 1),
        0 <= y,
        x <= g.spec_width() - 1,
    ensures
        row_vertices(g, level, y, x).len() == 0,
    decreases x,
{
    if x > 0 {
        lemma_row_empty(g, level, y, x - 1);
        assert(case_index(corner_values(g, x - 1, y), level) == 0 || case_index(corner_values(g, x - 1, y), level) == 15);
    }
}

proof fn lemma_grid_empty(g: Grid<i32>, level: i32, y: int)
    requires
        no_cell_crossed(g, level, y),
    ensures
        grid_vertices(g, level, y).len() == 0,
    decreases y,
{
    if y > 0 {
        lemma_grid_empty(g, level, y - 1);
        lemma_row_empty(g, level, y - 1, g.spec_width() - 1);
    }
}

/// A grid none of whose cells the level crosses has no contours.
proof fn lemma_uncrossed_grid_is_empty(g: Grid<i32>, level: i32)
    requires
        no_cell_crossed(g, level, g.spec_height() - 1),
    ensures
        contours(g, level).len() == 0,
{
    lemma_grid_empty(g, level, g.spec_height() - 1);
}

/// Every sample of a grid lies on the same side of the level: all strictly below, or all at
/// or above. Such a grid has no contours.
pub proof fn lemma_one_sided_grid_has_no_contours(g: Grid<i32>, level: i32)
    requires
        g.wf(),
        (forall|i: int| 0 <= i < g.cells().len() ==> #[trigger] g.cells()[i] < level) || (forall|i: int|
            0 <= i < g.cells().len() ==> #[trigger] g.cells()[i] >= level),
    ensures
        contours(g, level).len() == 0,
{
    let w = g.spec_width() as int;
    let h = g.spec_height() as int;
    assert forall|x: int, y: int| 0 <= x < w - 1 && 0 <= y < h - 1 implies #[trigger] case_index(
        corner_values(g, x, y),
        level,
    ) == 0 || case_index(corner_values(g, x, y), level) == 15 by {
        lemma_offset_in_bounds(x, y, w, h);
        lemma_offset_in_bounds(x + 1, y, w, h);
        lemma_offset_in_bounds(x, y + 1, w, h);
        lemma_offset_in_bounds(x + 1, y + 1, w, h);
    }
    lemma_uncrossed_grid_is_empty(g, level);
}

/// A flat grid, every sample equal, has no contours at any level.
pub proof fn lemma_flat_grid_has_no_contours(g: Grid<i32>, value: i32, level: i32)
    requires
        g.wf(),
        forall|i: int| 0 <= i < g.cells().len() ==> #[trigger] g.cells()[i] == value,
    ensures
        contours(g, level).len() == 0,
{
    lemma_one_sided_grid_has_no_contours(g, level);
}

/// The four edges of a cell, each in either direction.
pub open spec fn is_cell_edge(e: Edge) -> bool {
    ||| e == (0usize, 1usize) || e == (1usize, 0usize)
    ||| e == (0usize, 2usize) || e == (2usize, 0usize)
    ||| e == (1usize, 3usize) || e == (3usize, 1usize)
    ||| e == (2usize, 3usize) || e == (3usize, 2usize)
}

/// How far along the edge from corner `i0` toward corner `i1` the point lies, times `p.den`.
pub open spec fn edge_parameter(p: Point, i0: int, i1: int) -> int {
    (p.x - corner_x(i0) * p.den) * (corner_x(i1) - corner_x(i0)) + (p.y - corner_y(i0) * p.den) * (
    corner_y(i1) - corner_y(i0))
}

proof fn lemma_lerp_identity(a: int, b: int, level: int)
    ensures
        a * (b - a) + (b - a) * (level - a) == level * (b - a),
        a * (a - b) + (b - a) * (a - level) == level * (a - b),
{
    assert(a * (b - a) + (b - a) * (level - a) == level * (b - a)) by (nonlinear_arith);
    assert(a * (a - b) + (b - a) * (a - level) == level * (a - b)) by (nonlinear_arith);
}

proof fn lemma_mul_unit(a: int, b: int)
    requires
        -1 <= b <= 1,
    ensures
        a * b == if b == 1 {
            a
        } else if b == -1 {
            -a
        } else {
            0
        },
{
    assert(a * b == if b == 1 {
        a
    } else if b == -1 {
        -a
    } else {
        0
    }) by (nonlinear_arith)
        requires
            -1 <= b <= 1,
    ;
}

/// The crossing point with each coordinate written without products.
proof fn lemma_edge_point_linear(values: Seq<i32>, e: Edge, level: i32)
    requires
        values.len() == 4,
        e.0 < 4,
        e.1 < 4,
    ensures
        ({
            let p = edge_point(values, e, level);
            let (lo, hi) = if values[e.0 as int] > values[e.1 as int] {
                (e.1 as int, e.0 as int)
            } else {
                (e.0 as int, e.1 as int)
            };
            let d = values[hi] - values[lo];
            let t = level - values[lo];
            &&& p.den == d
            &&& p.x == (if corner_x(lo) == 1 { d - t } else { 0 }) + (if corner_x(hi) == 1 { t } else { 0 })
            &&& p.y == (if corner_y(lo) == 1 { d - t } else { 0 }) + (if corner_y(hi) == 1 { t } else { 0 })
        }),
{
    let (lo, hi) = if values[e.0 as int] > values[e.1 as int] {
        (e.1 as int, e.0 as int)
    } else {
        (e.0 as int, e.1 as int)
    };
    let d = values[hi] - values[lo];
    let t = level - values[lo];
    lemma_mul_bit(d - t, corner_x(lo));
    lemma_mul_bit(t, corner_x(hi));
    lemma_mul_bit(d - t, corner_y(lo));
    lemma_mul_bit(t, corner_y(hi));
}

/// Where the level lies strictly between the values `a` and `b` at the two ends of a cell
/// edge, the crossing point lies on that edge, at a parameter `t` with `0 < t < 1` from its
/// first corner, and the linear model `a + (b - a) * t` of the values along the edge equals the
/// level there, exactly.
pub proof fn lemma_interpolation_exact(values: Seq<i32>, e: Edge, level: i32)
    requires
        values.len() == 4,
        is_cell_edge(e),
        (values[e.0 as int] < level < values[e.1 as int]) || (values[e.1 as int] < level
            < values[e.0 as int]),
    ensures
        ({
            let p = edge_point(values, e, level);
            let (i0, i1) = (e.0 as int, e.1 as int);
            let t = edge_parameter(p, i0, i1);
            let (a, b) = (values[i0] as int, values[i1] as int);
            &&& p.den > 0
            &&& 0 < t < p.den
            &&& corner_x(i0) == corner_x(i1) ==> p.x == corner_x(i0) * p.den
            &&& corner_y(i0) == corner_y(i1) ==> p.y == corner_y(i0) * p.den
            &&& a * p.den + (b - a) * t == level * p.den
        }),
{
    lemma_lerp_identity(values[e.0 as int] as int, values[e.1 as int] as int, level as int);
    lemma_edge_point_linear(values, e, level);
    let p = edge_point(values, e, level);
    let (i0, i1) = (e.0 as int, e.1 as int);
    let a = values[i0] as int;
    let b = values[i1] as int;
    let t = edge_parameter(p, i0, i1);
    lemma_mul_bit(p.den as int, corner_x(i0));
    lemma_mul_bit(p.den as int, corner_y(i0));
    lemma_mul_unit(p.x - corner_x(i0) * p.den, corner_x(i1) - corner_x(i0));
    lemma_mul_unit(p.y - corner_y(i0) * p.den, corner_y(i1) - corner_y(i0));
    assert(t == if a < b {
        level - a
    } else {
        a - level
    }) by {
        if e.0 == 0 && e.1 == 1 {
        } else if e.0 == 1 && e.1 == 0 {
        } else if e.0 == 0 && e.1 == 2 {
        } else if e.0 == 2 && e.1 == 0 {
        } else if e.0 == 1 && e.1 == 3 {
        } else if e.0 == 3 && e.1 == 1 {
        } else if e.0 == 2 && e.1 == 3 {
        } else {
        }
    }
    if a < b {
        assert(p.den == b - a);
        assert(a * p.den + (b - a) * t == level * p.den);
    } else {
        assert(p.den == a - b);
        assert(a * p.den + (b - a) * t == level * p.den);
    }
}

/// The corner beside corner `c` in the same row.
pub open spec fn row_neighbour(c: int) -> int {
    if c % 2 == 0 {
        c + 1
    } else {
        c - 1
    }
}

/// The corner beside corner `c` in the same column.
pub open spec fn column_neighbour(c: int) -> int {
    if c < 2 {
        c + 2
    } else {
        c - 2
    }
}

/// `p` lies on the closed cell edge between corners `i0` and `i1` of the cell at the origin.
pub open spec fn on_edge(p: Point, i0: int, i1: int) -> bool {
    &&& p.den > 0
    &&& if corner_y(i0) == corner_y(i1) {
        p.y == corner_y(i0) * p.den && 0 <= p.x <= p.den
    } else {
        p.x == corner_x(i0) * p.den && 0 <= p.y <= p.den
    }
}

/// A grid of a single cell with exactly one corner `c` strictly below the level has exactly one
/// contour, of two points: one on each of the two edges that meet at `c`.
pub proof fn lemma_single_corner_below(g: Grid<i32>, level: i32, c: int)
    requires
        g.wf(),
        g.spec_width() == 2,
        g.spec_height() == 2,
        0 <= c < 4,
        g.cells()[c] < level,
        forall|i: int| 0 <= i < 4 && i != c ==> #[trigger] g.cells()[i] >= level,
    ensures
        contours(g, level).len() == 1,
        contours(g, level)[0].len() == 2,
        ({
            let p = contours(g, level)[0];
            (on_edge(p[0], c, row_neighbour(c)) && on_edge(p[1], c, column_neighbour(c))) || (on_edge(
                p[0],
                c,
                column_neighbour(c),
            ) && on_edge(p[1], c, row_neighbour(c)))
        }),
{
    let vals = corner_values(g, 0, 0);
    assert(vals =~= seq![g.cells()[0], g.cells()[1], g.cells()[2], g.cells()[3]]);
    assert(g.cells()[0] >= level || c == 0);
    assert(g.cells()[1] >= level || c == 1);
    assert(g.cells()[2] >= level || c == 2);
    assert(g.cells()[3] >= level || c == 3);
    assert(row_vertices(g, level, 0, 0) =~= seq![]);
    assert(grid_vertices(g, level, 0) =~= seq![]);
    let cv = cell_vertices(vals, level, 0, 0);
    assert(row_vertices(g, level, 0, 1) =~= cv);
    assert(contour_vertices(g, level) =~= cv);
    let (s0, s1) = lookup_spec(case_index(vals, level));
    assert(s1 is None);
    assert(cv =~= segment_points(vals, s0, level, 0, 0));
    if c == 0 {
        assert(case_index(vals, level) == 1);
        lemma_edge_point_linear(vals, (0, 2), level);
        lemma_edge_point_linear(vals, (0, 1), level);
    } else if c == 1 {
        assert(case_index(vals, level) == 2);
        lemma_edge_point_linear(vals, (0, 1), level);
        lemma_edge_point_linear(vals, (1, 3), level);
    } else if c == 2 {
        assert(case_index(vals, level) == 4);
        lemma_edge_point_linear(vals, (0, 2), level);
        lemma_edge_point_linear(vals, (2, 3), level);
    } else {
        assert(case_index(vals, level) == 8);
        lemma_edge_point_linear(vals, (1, 3), level);
        lemma_edge_point_linear(vals, (2, 3), level);
    }
}

/// Total number of points over a list of contours.
pub open spec fn total_points(c: Seq<Seq<Point>>) -> nat
    decreases c.len(),
{
    if c.len() == 0 {
        0
    } else {
        total_points(c.drop_last()) + c.last().len()
    }
}

/// The number of segments that the case of a cell lists.
pub open spec fn cell_segment_count(values: Seq<i32>, level: i32) -> nat {
    let (s0, s1) = lookup_spec(case_index(values, level));
    (if s0 is Some { 1nat } else { 0nat }) + (if s1 is Some { 1nat } else { 0nat })
}

/// The number of segments of the first `x` cells of row `y`.
pub open spec fn row_segment_count(g: Grid<i32>, level: i32, y: int, x: int) -> nat
    decreases x,
{
    if x <= 0 {
        0
    } else {
        row_segment_count(g, level, y, x - 1) + cell_segment_count(corner_values(g, x - 1, y), level)
    }
}

/// The number of segments of the first `y` rows of cells.
pub open spec fn grid_segment_count(g: Grid<i32>, level: i32, y: int) -> nat
    decreases y,
{
    if y <= 0 {
        0
    } else {
        grid_segment_count(g, level, y - 1) + row_segment_count(g, level, y - 1, g.spec_width() - 1)
    }
}

proof fn lemma_cell_count(values: Seq<i32>, level: i32, x: int, y: int)
    ensures
        cell_vertices(values, level, x, y).len() == 2 * cell_segment_count(values, level),
{
}

proof fn lemma_row_count(g: Grid<i32>, level: i32, y: int, x: int)
    ensures
        row_vertices(g, level, y, x).len() == 2 * row_segment_count(g, level, y, x),
    decreases x,
{
    if x > 0 {
        lemma_row_count(g, level, y, x - 1);
        lemma_cell_count(corner_values(g, x - 1, y), level, x - 1, y);
    }
}

proof fn lemma_grid_count(g: Grid<i32>, level: i32, y: int)
    ensures
        grid_vertices(g, level, y).len() == 2 * grid_segment_count(g, level, y),
    decreases y,
{
    if y > 0 {
        lemma_grid_count(g, level, y - 1);
        lemma_row_count(g, level, y - 1, g.spec_width() - 1);
    }
}

proof fn lemma_pairs_total(c: Seq<Seq<Point>>)
    requires
        forall|k: int| 0 <= k < c.len() ==> (#[trigger] c[k]).len() == 2,
    ensures
        total_points(c) == 2 * c.len(),
    decreases c.len(),
{
    if c.len() > 0 {
        lemma_pairs_total(c.drop_last());
    }
}

/// Each contour holds exactly the two vertices of one segment, and together the contours
/// hold every vertex that the cells produced, two for each segment that the cells' cases list:
/// none is merged with a coincident vertex of a neighbouring cell, and none is lost.
pub proof fn lemma_every_vertex_in_one_contour(g: Grid<i32>, level: i32)
    ensures
        forall|k: int| 0 <= k < contours(g, level).len() ==> (#[trigger] contours(g, level)[k]).len() == 2,
        total_points(contours(g, level)) == contour_vertices(g, level).len(),
        contour_vertices(g, level).len() == 2 * grid_segment_count(g, level, g.spec_height() - 1),
{
    lemma_grid_count(g, level, g.spec_height() - 1);
    lemma_pairs_total(contours(g, level));
}

/// The contours of a grid at a level are determined by the grid and the level: two results
/// that each meet what `find_contours` ensures hold the same points in the same order.
pub proof fn lemma_contours_deterministic(g: Grid<i32>, level: i32, r1: Seq<Contour>, r2: Seq<Contour>)
    requires
        r1.len() == contours(g, level).len(),
        forall|k: int| 0 <= k < r1.len() ==> #[trigger] r1[k]@ == contours(g, level)[k],
        r2.len() == contours(g, level).len(),
        forall|k: int| 0 <= k < r2.len() ==> #[trigger] r2[k]@ == contours(g, level)[k],
    ensures
        r1.len() == r2.len(),
        forall|k: int| 0 <= k < r1.len() ==> #[trigger] r1[k]@ == r2[k]@,
{
    assert forall|k: int| 0 <= k < r1.len() implies #[trigger] r1[k]@ == r2[k]@ by {
        assert(r1[k]@ == contours(g, level)[k]);
        assert(r2[k]@ == contours(g, level)[k]);
    }
}

} // verus!
