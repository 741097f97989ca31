//! The cell case table, the crossing points on cell edges, and the scan of a grid into
//! contours.

use crate::chains::{
    chains_of, find_chains, has_link, is_path, lists, is_segment, pairwise_fresh, segments_ok, some_chain_has_link, Edge,
};
use crate::grid::Grid;
use vstd::prelude::*;

verus! {

/// A point of grid space with rational coordinates `(x / den, y / den)`.
#[derive(Clone, Copy, Debug, PartialEq, Eq, Structural)]
pub struct Point {
    pub x: i128,
    pub y: i128,
    pub den: i128,
}

/// One contour polyline.
pub type Contour = Vec<Point>;

/// Column of corner `i` of a cell: corners are ordered (0,0), (1,0), (0,1), (1,1).
pub open spec fn corner_x(i: int) -> int {
    i % 2
}

/// Row of corner `i` of a cell.
pub open spec fn corner_y(i: int) -> int {
    i / 2
}

/// The segment definitions of each case, as pairs of crossed edges; an edge is a pair of corners.
pub open spec fn lookup_spec(case: int) -> (Option<(Edge, Edge)>, Option<(Edge, Edge)>) {
    if case == 1 {
        (Some(((0, 2), (0, 1))), None)
    } else if case == 2 {
        (Some(((0, 1), (1, 3))), None)
    } else if case == 3 {
        (Some(((0, 2), (1, 3))), None)
    } else if case == 4 {
        (Some(((0, 2), (2, 3))), None)
    } else if case == 5 {
        (Some(((0, 1), (2, 3))), None)
    } else if case == 6 {
        (Some(((0, 2), (2, 3))), Some(((0, 1), (1, 3))))
    } else if case == 7 {
        (Some(((2, 3), (1, 3))), None)
    } else if case == 8 {
        (Some(((1, 3), (2, 3))), None)
    } else if case == 9 {
        (Some(((0, 2), (0, 1))), Some(((2, 3), (1, 3))))
    } else if case == 10 {
        (Some(((2, 3), (0, 1))), None)
    } else if case == 11 {
        (Some(((2, 3), (0, 2))), None)
    } else if case == 12 {
        (Some(((1, 3), (0, 2))), None)
    } else if case == 13 {
        (Some(((1, 3), (0, 1))), None)
    } else if case == 14 {
        (Some(((0, 1), (0, 2))), None)
    } else {
        (None, None)
    }
}

/// The segment definitions of a case.
fn lookup(case: usize) -> (r: [Option<(Edge, Edge)>; 2])
    ensures
        r[0] == lookup_spec(case as int).0,
        r[1] == lookup_spec(case as int).1,
{
    match case {
        1 => [Some(((0, 2), (0, 1))), None],
        2 => [Some(((0, 1), (1, 3))), None],
        3 => [Some(((0, 2), (1, 3))), None],
        4 => [Some(((0, 2), (2, 3))), None],
        5 => [Some(((0, 1), (2, 3))), None],
        6 => [Some(((0, 2), (2, 3))), Some(((0, 1), (1, 3)))],
        7 => [Some(((2, 3), (1, 3))), None],
        8 => [Some(((1, 3), (2, 3))), None],
        9 => [Some(((0, 2), (0, 1))), Some(((2, 3), (1, 3)))],
        10 => [Some(((2, 3), (0, 1))), None],
        11 => [Some(((2, 3), (0, 2))), None],
        12 => [Some(((1, 3), (0, 2))), None],
        13 => [Some(((1, 3), (0, 1))), None],
        14 => [Some(((0, 1), (0, 2))), None],
        _ => [None, None],
    }
}

/// Bit `i` of the case index is set when corner `i` lies strictly below the level.
pub open spec fn case_index(values: Seq<i32>, level: i32) -> int {
    (if values[0] < level { 1int } else { 0int }) + (if values[1] < level { 2int } else { 0int }) + (
    if values[2] < level {
        4int
    } else {
        0int
    }) + (if values[3] < level { 8int } else { 0int })
}

/// The level separates the two corners of edge `e`: one lies below it, the other does not.
pub open spec fn crosses(values: Seq<i32>, e: Edge, level: i32) -> bool {
    &&& e.0 < 4
    &&& e.1 < 4
    &&& (values[e.0 as int] < level) != (values[e.1 as int] < level)
}

/// Every segment of the case of a cell runs between two edges that the level crosses.
pub proof fn lemma_table_edges_cross(values: Seq<i32>, level: i32)
    requires
        values.len() == 4,
    ensures
        ({
            let (s0, s1) = lookup_spec(case_index(values, level));
            &&& s0 matches Some(s) ==> crosses(values, s.0, level) && crosses(values, s.1, level)
            &&& s1 matches Some(s) ==> crosses(values, s.0, level) && crosses(values, s.1, level)
        }),
{
}

/// Where the level crosses edge `e`, in cell coordinates: with `lo` the corner of the lesser
/// value and `hi` the other, the point `(1 - t) * lo + t * hi` for
/// `t = (level - v_lo) / (v_hi - v_lo)`, over the denominator `v_hi - v_lo`.
pub open spec fn edge_point(values: Seq<i32>, e: Edge, level: i32) -> Point {
    let (lo, hi) = if values[e.0 as int] > values[e.1 as int] {
        (e.1 as int, e.0 as int)
    } else {
        (e.0 as int, e.1 as int)
    };
    let d = values[hi] - values[lo];
    let t = level - values[lo];
    Point {
        x: ((d - t) * corner_x(lo) + t * corner_x(hi)) as i128,
        y: ((d - t) * corner_y(lo) + t * corner_y(hi)) as i128,
        den: d as i128,
    }
}

/// A point moved by the whole cell offset `(x, y)`.
pub open spec fn shift(p: Point, x: int, y: int) -> Point {
    Point { x: (p.x + x * p.den) as i128, y: (p.y + y * p.den) as i128, den: p.den }
}

/// The two end points of a segment definition of the cell at `(x, y)`.
pub open spec fn segment_points(values: Seq<i32>, seg: Option<(Edge, Edge)>, level: i32, x: int, y: int) -> Seq<Point> {
    match seg {
        Some(s) => seq![
            shift(edge_point(values, s.0, level), x, y),
            shift(edge_point(values, s.1, level), x, y),
        ],
        None => seq![],
    }
}

/// The vertices that the cell at `(x, y)` with corner values `values` contributes.
pub open spec fn cell_vertices(values: Seq<i32>, level: i32, x: int, y: int) -> Seq<Point> {
    let (s0, s1) = lookup_spec(case_index(values, level));
    segment_points(values, s0, level, x, y) + segment_points(values, s1, level, x, y)
}

/// The corner values of the cell at `(x, y)`, in corner order.
pub open spec fn corner_values(g: Grid<i32>, x: int, y: int) -> Seq<i32> {
    seq![g.at(x, y), g.at(x + 1, y), g.at(x, y + 1), g.at(x + 1, y + 1)]
}

/// The vertices of the first `x` cells of row `y`.
pub open spec fn row_vertices(g: Grid<i32>, level: i32, y: int, x: int) -> Seq<Point>
    decreases x,
{
    if x <= 0 {
        seq![]
    } else {
        row_vertices(g, level, y, x - 1) + cell_vertices(corner_values(g, x - 1, y), level, x - 1, y)
    }
}

/// The vertices of the first `y` rows of cells.
pub open spec fn grid_vertices(g: Grid<i32>, level: i32, y: int) -> Seq<Point>
    decreases y,
{
    if y <= 0 {
        seq![]
    } else {
        grid_vertices(g, level, y - 1) + row_vertices(g, level, y - 1, g.spec_width() - 1)
    }
}

/// Every vertex of the grid at `level`, cells in row-major order.
pub open spec fn contour_vertices(g: Grid<i32>, level: i32) -> Seq<Point> {
    grid_vertices(g, level, g.spec_height() - 1)
}

/// The contours: consecutive vertices `2k` and `2k + 1` form chain `k`.
pub open spec fn contours(g: Grid<i32>, level: i32) -> Seq<Seq<Point>> {
    let v = contour_vertices(g, level);
    Seq::new(v.len() / 2, |k: int| seq![v[2 * k], v[2 * k + 1]])
}

pub(crate) proof fn lemma_mul_bit(a: int, b: int)
    requires
        b == 0 || b == 1,
    ensures
        a * b == if b == 1 {
            a
        } else {
            0
        },
{
}

/// The two samples of edge `e` differ and the level lies between them, ends included.
pub open spec fn spans(values: Seq<i32>, e: Edge, level: i32) -> bool {
    &&& e.0 < 4
    &&& e.1 < 4
    &&& values[e.0 as int] != values[e.1 as int]
    &&& (values[e.0 as int] <= level <= values[e.1 as int] || values[e.1 as int] <= level <= values[e.0 as int])
}

/// The point where the level crosses the edge of the cell whose corner values are `values`.
pub fn interpolate_edge(values: &[i32; 4], edge: Edge, level: i32) -> (r: Point)
    requires
        spans(values@, edge, level),
    ensures
        r == edge_point(values@, edge, level),
        0 < r.den <= 0xffff_ffff,
        0 <= r.x <= r.den,
        0 <= r.y <= r.den,
{
    let (i0, i1) = edge;
    // order the corners so that `lo` holds the lesser value
    let (lo, hi) = if values[i0] > values[i1] {
        (i1, i0)
    } else {
        (i0, i1)
    };
    let v0 = values[lo] as i128;
    let v1 = values[hi] as i128;
    let d = v1 - v0;
    let t = level as i128 - v0;
    // lerp x & y; every corner coordinate is 0 or 1
    let x0 = if lo % 2 == 1 { d - t } else { 0 };
    let x1 = if hi % 2 == 1 { t } else { 0 };
    let y0 = if lo / 2 == 1 { d - t } else { 0 };
    let y1 = if hi / 2 == 1 { t } else { 0 };
    proof {
        lemma_mul_bit(d - t, corner_x(lo as int));
        lemma_mul_bit(t as int, corner_x(hi as int));
        lemma_mul_bit(d - t, corner_y(lo as int));
        lemma_mul_bit(t as int, corner_y(hi as int));
    }
    Point { x: x0 + x1, y: y0 + y1, den: d }
}

proof fn lemma_offset_fits(p: i128, x: usize, den: i128)
    requires
        0 <= p <= den <= 0xffff_ffff,
    ensures
        0 <= p + x * den <= 0x1_0000_0000_0000_0000_0000_0000,
{
    assert(0 <= x * den <= 0xffff_ffff_ffff_ffff * 0xffff_ffff) by (nonlinear_arith)
        requires
            0 <= den <= 0xffff_ffff,
            0 <= x <= 0xffff_ffff_ffff_ffff,
    ;
}

/// The end points of one segment definition of the cell at `(x, y)`, appended to the vertex
/// list, and the segment between their fresh ids appended to the segment list.
fn push_segment(
    vertices: &mut Vec<Point>,
    lines: &mut Vec<Edge>,
    values: &[i32; 4],
    seg: Option<(Edge, Edge)>,
    level: i32,
    x: usize,
    y: usize,
)
    requires
        seg matches Some(s) ==> crosses(values@, s.0, level) && crosses(values@, s.1, level),
        old(vertices).len() == 2 * old(lines).len(),
        pairwise_fresh(old(lines)@),
        old(vertices).len() + 2 <= usize::MAX,
    ensures
        final(vertices)@ == old(vertices)@ + segment_points(values@, seg, level, x as int, y as int),
        final(vertices).len() == 2 * final(lines).len(),
        pairwise_fresh(final(lines)@),
{
    if let Some((e0, e1)) = seg {
        let a = interpolate_edge(values, e0, level);
        let b = interpolate_edge(values, e1, level);
        let ghost l0 = lines@;
        lines.push((vertices.len(), vertices.len() + 1));
        proof {
            lemma_offset_fits(a.x, x, a.den);
            lemma_offset_fits(a.y, y, a.den);
            lemma_offset_fits(b.x, x, b.den);
            lemma_offset_fits(b.y, y, b.den);
            assert(lines@ == l0.push((vertices.len(), (vertices.len() + 1) as usize)));
            assert forall|k: int| 0 <= k < lines@.len() implies #[trigger] lines@[k].0 == 2 * k && lines@[k].1
                == 2 * k + 1 by {
                if k < l0.len() {
                    assert(lines@[k] == l0[k]);
                    assert(l0[k].0 == 2 * k);
                } else {
                    assert(k == l0.len());
                }
            }
            assert(pairwise_fresh(lines@));
        }
        let ghost v0 = vertices@;
        vertices.push(Point { x: a.x + x as i128 * a.den, y: a.y + y as i128 * a.den, den: a.den });
        vertices.push(Point { x: b.x + x as i128 * b.den, y: b.y + y as i128 * b.den, den: b.den });
        assert(vertices@ =~= v0 + segment_points(values@, seg, level, x as int, y as int));
    } else {
        assert(vertices@ =~= vertices@ + segment_points(values@, seg, level, x as int, y as int));
    }
}

proof fn lemma_cells_bound(x: int, y: int, w: int, h: int)
    requires
        0 <= x,
        x + 1 < w,
        0 <= y,
        y + 1 < h,
    ensures
        y * w + x + 1 <= w * h,
{
    assert(y * w + x + 1 <= w * h) by (nonlinear_arith)
        requires
            0 <= x,
            x + 1 < w,
            0 <= y,
            y + 1 < h,
    ;
}

/// Fresh segments over a vertex list that `usize` can index are well formed.
proof fn lemma_fresh_segments_ok(lines: Seq<Edge>)
    requires
        pairwise_fresh(lines),
        2 * lines.len() <= usize::MAX,
    ensures
        segments_ok(lines),
{
    assert forall|j: int| 0 <= j < lines.len() implies #[trigger] lines[j].0 != lines[j].1 && lines[j].0
        < usize::MAX && lines[j].1 < usize::MAX by {
        assert(lines[j].0 == 2 * j);
    }
}

/// Appends the vertices and segments of the cell at `(x, y)`.
fn scan_cell(grid: &Grid<i32>, level: i32, x: usize, y: usize, vertices: &mut Vec<Point>, lines: &mut Vec<Edge>)
    requires
        grid.wf(),
        x + 1 < grid.spec_width(),
        y + 1 < grid.spec_height(),
        old(vertices).len() == 2 * old(lines).len(),
        pairwise_fresh(old(lines)@),
        old(vertices).len() + 4 <= usize::MAX,
    ensures
        final(vertices)@ == old(vertices)@ + cell_vertices(corner_values(*grid, x as int, y as int), level, x as int, y as int),
        final(vertices).len() <= old(vertices).len() + 4,
        final(vertices).len() == 2 * final(lines).len(),
        pairwise_fresh(final(lines)@),
{
    proof {
        grid.lemma_dimensions_fit();
    }
    // find grid values at the corner of the square
    let values: [i32; 4] = [
        *grid.get(x, y),
        *grid.get(x + 1, y),
        *grid.get(x, y + 1),
        *grid.get(x + 1, y + 1),
    ];
    assert(values@ =~= corner_values(*grid, x as int, y as int));
    // find table index
    let mut table_index: usize = 0;
    if values[0] < level {
        table_index += 1;
    }
    if values[1] < level {
        table_index += 2;
    }
    if values[2] < level {
        table_index += 4;
    }
    if values[3] < level {
        table_index += 8;
    }
    let segments = lookup(table_index);
    proof {
        lemma_table_edges_cross(values@, level);
    }
    let ghost v0 = vertices@;
    push_segment(vertices, lines, &values, segments[0], level, x, y);
    push_segment(vertices, lines, &values, segments[1], level, x, y);
    assert(vertices@ =~= v0 + cell_vertices(values@, level, x as int, y as int));
}

/// Scans every cell, rows outer and columns inner. Every cell of four neighbouring samples is
/// classified by which corners lie strictly below the level; each segment of its case runs
/// between the points where the level crosses two of its edges. Every cell appends fresh
/// vertices, so segment `k` joins vertices `2k` and `2k + 1`.
fn extract_segments(grid: &Grid<i32>, level: i32) -> (r: (Vec<Point>, Vec<Edge>))
    requires
        grid.wf(),
        4 * (grid.spec_width() * grid.spec_height()) <= usize::MAX,
    ensures
        r.0@ == contour_vertices(*grid, level),
        r.0.len() == 2 * r.1.len(),
        pairwise_fresh(r.1@),
{
    let mut vertices: Vec<Point> = Vec::new();
    let mut lines: Vec<Edge> = Vec::new();
    let w = grid.width();
    let h = grid.height();
    let ghost g = *grid;
    let mut y: usize = 0;
    while y + 1 < h
        invariant
            grid.wf(),
            w == grid.spec_width(),
            h == grid.spec_height(),
            4 * (w * h) <= usize::MAX,
            y == 0 || y + 1 <= h,
            vertices@ == grid_vertices(*grid, level, y as int),
            vertices.len() == 2 * lines.len(),
            pairwise_fresh(lines@),
            vertices.len() <= 4 * (y * w),
        decreases h - y,
    {
        let mut x: usize = 0;
        while x + 1 < w
            invariant
                grid.wf(),
                w == grid.spec_width(),
                h == grid.spec_height(),
                4 * (w * h) <= usize::MAX,
                y + 1 < h,
                x == 0 || x + 1 <= w,
                vertices@ == grid_vertices(*grid, level, y as int) + row_vertices(*grid, level, y as int, x as int),
                vertices.len() == 2 * lines.len(),
                pairwise_fresh(lines@),
                vertices.len() <= 4 * (y * w + x),
            decreases w - x,
        {
            proof {
                lemma_cells_bound(x as int, y as int, w as int, h as int);
            }
            let ghost v_row = vertices@;
            scan_cell(grid, level, x, y, &mut vertices, &mut lines);
            assert(vertices@ =~= grid_vertices(*grid, level, y as int) + row_vertices(
                *grid,
                level,
                y as int,
                x + 1,
            ));
            x += 1;
        }
        proof {
            assert(row_vertices(*grid, level, y as int, x as int) == row_vertices(*grid, level, y as int, w - 1));
            assert(grid_vertices(*grid, level, y + 1) == grid_vertices(*grid, level, y as int) + row_vertices(*grid, level, y as int, w - 1));
            assert(y * w + x <= (y + 1) * w) by (nonlinear_arith)
                requires
                    x == 0 || x + 1 <= w,
            ;
        }
        y += 1;
    }
    assert(contour_vertices(*grid, level) == grid_vertices(*grid, level, y as int));
    (vertices, lines)
}

/// The contours of the grid at `level`, one for each segment that a cell contributes, in
/// the order of the cells (rows outer, columns inner): contour `k` runs from vertex `2k` to
/// vertex `2k + 1` of the scan. Neighbouring cells never share a vertex, so no two segments
/// are joined; `find_contours_joined` joins them. A grid narrower or lower than two samples has
/// no cell and no contour. No crossing point divides by zero: the level separates the two
/// samples of every edge that it crosses, so they differ.
pub fn find_contours(grid: &Grid<i32>, level: i32) -> (r: Vec<Contour>)
    requires
        grid.wf(),
        4 * (grid.spec_width() * grid.spec_height()) <= usize::MAX,
    ensures
        r@.len() == contours(*grid, level).len(),
        forall|k: int| 0 <= k < r@.len() ==> #[trigger] r@[k]@ == contours(*grid, level)[k],
{
    let (vertices, lines) = extract_segments(grid, level);
    proof {
        lemma_fresh_segments_ok(lines@);
    }
    // find chains and convert vertex ids to coordinates
    let chains = find_chains(&lines);
    let ghost verts = vertices@;
    let mut result: Vec<Contour> = Vec::new();
    let mut k: usize = 0;
    while k < chains.len()
        invariant
            verts == vertices@,
            verts == contour_vertices(*grid, level),
            verts.len() == 2 * lines.len(),
            chains.len() == lines.len(),
            forall|c: int| 0 <= c < chains.len() ==> #[trigger] chains@[c]@ == seq![(2 * c) as usize, (2 * c + 1) as usize],
            k <= chains.len(),
            result.len() == k,
            forall|c: int| 0 <= c < k ==> #[trigger] result@[c]@ == seq![verts[2 * c], verts[2 * c + 1]],
        decreases chains.len() - k,
    {
        let chain = &chains[k];
        assert(chain@ == seq![(2 * k) as usize, (2 * k + 1) as usize]);
        let mut contour: Contour = Vec::new();
        let mut j: usize = 0;
        while j < chain.len()
            invariant
                verts == vertices@,
                verts.len() == 2 * lines.len(),
                k < lines.len(),
                chain@ == seq![(2 * k) as usize, (2 * k + 1) as usize],
                j <= chain.len(),
                contour.len() == j,
                forall|i: int| 0 <= i < j ==> #[trigger] contour@[i] == verts[chain@[i] as int],
            decreases chain.len() - j,
        {
            contour.push(vertices[chain[j]]);
            j += 1;
        }
        assert(contour@[0] == verts[chain@[0] as int]);
        assert(contour@[1] == verts[chain@[1] as int]);
        assert(contour@ =~= seq![verts[2 * k as int], verts[2 * k + 1]]);
        result.push(contour);
        k += 1;
    }
    result
}

/// Segment `k` of the scan `v` joins `p` and `q`, in either direction.
pub open spec fn is_cell_segment(v: Seq<Point>, p: Point, q: Point) -> bool {
    exists|k: int|
        0 <= k < v.len() / 2 && ((#[trigger] v[2 * k] == p && v[2 * k + 1] == q) || (v[2 * k] == q && v[2
            * k + 1] == p))
}

/// Consecutive points of `c` are `p` and `q`, in either order.
pub open spec fn has_point_link(c: Seq<Point>, p: Point, q: Point) -> bool {
    exists|i: int| 0 <= i < c.len() - 1 && ((#[trigger] c[i] == p && c[i + 1] == q) || (c[i] == q && c[i + 1] == p))
}

/// The distinct points of `v` in order of first appearance, and for each vertex of `v` the
/// position of its point among them.
pub open spec fn merged(v: Seq<Point>) -> (Seq<Point>, Seq<usize>)
    decreases v.len(),
{
    if v.len() == 0 {
        (seq![], seq![])
    } else {
        let m = merged(v.drop_last());
        let p = v.last();
        if m.0.contains(p) {
            (m.0, m.1.push(m.0.index_of(p) as usize))
        } else {
            (m.0.push(p), m.1.push(m.0.len() as usize))
        }
    }
}

/// The segments between merged vertices of the first `k` scanned segments, those whose two
/// ends merged into one left out.
pub open spec fn joined_segments(ids: Seq<usize>, k: int) -> Seq<Edge>
    decreases k,
{
    if k <= 0 {
        seq![]
    } else {
        let s = joined_segments(ids, k - 1);
        let (a, b) = (ids[2 * (k - 1)], ids[2 * (k - 1) + 1]);
        if a != b {
            s.push((a, b))
        } else {
            s
        }
    }
}

/// The position of `p` in `points`, if it is there.
fn index_of(points: &Vec<Point>, p: Point) -> (r: Option<usize>)
    ensures
        match r {
            Some(i) => i < points.len() && points@[i as int] == p,
            None => !points@.contains(p),
        },
{
    let mut i: usize = 0;
    while i < points.len()
        invariant
            i <= points.len(),
            forall|j: int| 0 <= j < i ==> points@[j] != p,
        decreases points.len() - i,
    {
        if points[i] == p {
            return Some(i);
        }
        i += 1;
    }
    None
}

/// The distinct points of `vertices` in order of first appearance, and for each vertex the
/// index of its point among them.
fn merge_vertices(vertices: &Vec<Point>) -> (r: (Vec<Point>, Vec<usize>))
    ensures
        r.0@.no_duplicates(),
        r.1.len() == vertices.len(),
        forall|t: int| 0 <= t < vertices.len() ==> #[trigger] r.1@[t] < r.0.len() && r.0@[r.1@[t] as int] == vertices@[t],
        (r.0@, r.1@) == merged(vertices@),
{
    let mut unique: Vec<Point> = Vec::new();
    let mut ids: Vec<usize> = Vec::new();
    let mut i: usize = 0;
    while i < vertices.len()
        invariant
            i <= vertices.len(),
            ids.len() == i,
            unique@.no_duplicates(),
            forall|t: int| 0 <= t < i ==> #[trigger] ids@[t] < unique.len() && unique@[ids@[t] as int] == vertices@[t],
            (unique@, ids@) == merged(vertices@.subrange(0, i as int)),
        decreases vertices.len() - i,
    {
        let p = vertices[i];
        proof {
            assert(vertices@.subrange(0, i + 1).drop_last() =~= vertices@.subrange(0, i as int));
            assert(vertices@.subrange(0, i + 1).last() == p);
        }
        match index_of(&unique, p) {
            Some(j) => {
                proof {
                    assert(unique@.contains(p));
                    let c = unique@.index_of(p);
                    assert(0 <= c < unique@.len() && unique@[c] == p);
                    assert(c == j);
                }
                ids.push(j);
            },
            None => {
                ids.push(unique.len());
                unique.push(p);
            },
        }
        i += 1;
    }
    assert(vertices@.subrange(0, vertices.len() as int) =~= vertices@);
    (unique, ids)
}

/// The points of a chain of ids.
pub open spec fn chain_points(unique: Seq<Point>, chain: Seq<usize>) -> Seq<Point> {
    Seq::new(chain.len(), |i: int| unique[chain[i] as int])
}

proof fn lemma_chain_points(v: Seq<Point>, unique: Seq<Point>, segs: Seq<Edge>, chain: Seq<usize>)
    requires
        unique.no_duplicates(),
        is_path(segs, chain),
        forall|s: int|
            0 <= s < segs.len() ==> (#[trigger] segs[s]).0 < unique.len() && segs[s].1 < unique.len()
                && is_cell_segment(v, unique[segs[s].0 as int], unique[segs[s].1 as int]),
    ensures
        ({
            let c = chain_points(unique, chain);
            &&& forall|i: int| 0 <= i < chain.len() ==> #[trigger] chain[i] < unique.len()
            &&& c.len() >= 2
            &&& c.no_duplicates()
            &&& forall|i: int| 0 <= i < c.len() - 1 ==> is_cell_segment(v, #[trigger] c[i], c[i + 1])
            &&& forall|a: usize, b: usize| #[trigger] has_link(chain, a, b) ==> has_point_link(c, unique[a as int], unique[b as int])
        }),
{
    let c = chain_points(unique, chain);
    assert forall|i: int| 0 <= i < chain.len() implies #[trigger] chain[i] < unique.len() by {
        let i0 = if i < chain.len() - 1 { i } else { i - 1 };
        assert(is_segment(segs, chain[i0], chain[i0 + 1]));
        let s = choose|s: int| 0 <= s < segs.len() && (segs[s] == (chain[i0], chain[i0 + 1]) || segs[s] == (chain[i0 + 1], chain[i0]));
        assert(segs[s].0 < unique.len());
    }
    assert forall|i: int| 0 <= i < c.len() - 1 implies is_cell_segment(v, #[trigger] c[i], c[i + 1]) by {
        assert(is_segment(segs, chain[i], chain[i + 1]));
        let s = choose|s: int| 0 <= s < segs.len() && (segs[s] == (chain[i], chain[i + 1]) || segs[s] == (chain[i + 1], chain[i]));
        assert(segs[s].0 < unique.len());
        let k = choose|k: int|
            0 <= k < v.len() / 2 && ((#[trigger] v[2 * k] == unique[segs[s].0 as int] && v[2 * k + 1] == unique[segs[s].1 as int])
                || (v[2 * k] == unique[segs[s].1 as int] && v[2 * k + 1] == unique[segs[s].0 as int]));
        assert(v[2 * k] == c[i] || v[2 * k] == c[i + 1]);
    }
    assert forall|i: int, j: int| 0 <= i < c.len() && 0 <= j < c.len() && i != j implies c[i] != c[j] by {
        assert(chain[i] != chain[j]);
        assert(chain[i] < unique.len());
        assert(chain[j] < unique.len());
    }
    assert forall|a: usize, b: usize| #[trigger] has_link(chain, a, b) implies has_point_link(c, unique[a as int], unique[b as int]) by {
        let i = choose|i: int|
            0 <= i < chain.len() - 1 && ((#[trigger] chain[i] == a && chain[i + 1] == b) || (chain[i] == b && chain[i + 1] == a));
        assert(c[i] == unique[chain[i] as int]);
        assert(c[i + 1] == unique[chain[i + 1] as int]);
    }
}

/// The contours of the grid at `level` with coincident vertices joined: vertices that the
/// cells write alike (same numerators and denominator) become one, and the segments are then
/// stitched into chains through the shared vertices. A crossing on an edge between two cells is
/// written alike by both, as both compute it from the same two samples. A segment whose two
/// ends coincide (the level equal to a corner between two lower ones) has no length and is
/// left out. Every contour is a path of distinct points, each consecutive pair the two ends of
/// a cell segment, and every segment of positive length joins consecutive points of some
/// contour.
pub fn find_contours_joined(grid: &Grid<i32>, level: i32) -> (r: Vec<Contour>)
    requires
        grid.wf(),
        4 * (grid.spec_width() * grid.spec_height()) <= usize::MAX,
    ensures
        forall|c: int|
            0 <= c < r.len() ==> (#[trigger] r@[c])@.len() >= 2 && r@[c]@.no_duplicates() && forall|i: int|
                0 <= i < r@[c]@.len() - 1 ==> is_cell_segment(contour_vertices(*grid, level), #[trigger] r@[c]@[i], r@[c]@[i + 1]),
        forall|k: int|
            0 <= k < contour_vertices(*grid, level).len() / 2 && #[trigger] contour_vertices(*grid, level)[2 * k]
                != contour_vertices(*grid, level)[2 * k + 1] ==> exists|c: int|
                0 <= c < r.len() && has_point_link(
                    #[trigger] r@[c]@,
                    contour_vertices(*grid, level)[2 * k],
                    contour_vertices(*grid, level)[2 * k + 1],
                ),
        ({
            let v = contour_vertices(*grid, level);
            let m = merged(v);
            let cs = chains_of(joined_segments(m.1, (v.len() / 2) as int));
            r.len() == cs.len() && forall|c: int| 0 <= c < r.len() ==> #[trigger] r@[c]@ == chain_points(m.0, cs[c])
        }),
{
    let (vertices, lines) = extract_segments(grid, level);
    let ghost v = vertices@;
    let (unique, ids) = merge_vertices(&vertices);
    let mut segs: Vec<Edge> = Vec::new();
    let mut k: usize = 0;
    while k < lines.len()
        invariant
            v == vertices@,
            vertices.len() == 2 * lines.len(),
            ids.len() == vertices.len(),
            unique@.no_duplicates(),
            forall|t: int| 0 <= t < vertices.len() ==> #[trigger] ids@[t] < unique.len() && unique@[ids@[t] as int] == vertices@[t],
            k <= lines.len(),
            forall|s: int|
                0 <= s < segs.len() ==> (#[trigger] segs@[s]).0 != segs@[s].1 && segs@[s].0 < unique.len() && segs@[s].1
                    < unique.len() && is_cell_segment(v, unique@[segs@[s].0 as int], unique@[segs@[s].1 as int]),
            forall|j: int|
                0 <= j < k && #[trigger] v[2 * j] != v[2 * j + 1] ==> is_segment(segs@, ids@[2 * j], ids@[2 * j + 1]),
            segs@ == joined_segments(ids@, k as int),
        decreases lines.len() - k,
    {
        let a = ids[2 * k];
        let b = ids[2 * k + 1];
        let ghost s0 = segs@;
        proof {
            assert(unique@[a as int] == v[2 * k as int]);
            assert(unique@[b as int] == v[2 * k + 1]);
        }
        if a != b {
            segs.push((a, b));
            proof {
                assert(is_cell_segment(v, unique@[a as int], unique@[b as int])) by {
                    assert(v[2 * (k as int)] == unique@[a as int]);
                }
                assert forall|s: int|
                    0 <= s < segs.len() implies (#[trigger] segs@[s]).0 != segs@[s].1 && segs@[s].0 < unique.len()
                        && segs@[s].1 < unique.len() && is_cell_segment(v, unique@[segs@[s].0 as int], unique@[segs@[s].1 as int]) by {
                    if s < s0.len() {
                        assert(segs@[s] == s0[s]);
                    }
                }
                assert forall|j: int| 0 <= j < k + 1 && #[trigger] v[2 * j] != v[2 * j + 1] implies is_segment(segs@, ids@[2 * j], ids@[2 * j + 1]) by {
                    if j < k {
                        let s = choose|s: int| 0 <= s < s0.len() && (s0[s] == (ids@[2 * j], ids@[2 * j + 1]) || s0[s] == (ids@[2 * j + 1], ids@[2 * j]));
                        assert(segs@[s] == s0[s]);
                    } else {
                        assert(segs@[s0.len() as int] == (a, b));
                    }
                }
            }
        } else {
            proof {
                assert(v[2 * k as int] == v[2 * k + 1]);
            }
        }
        k += 1;
    }
    proof {
        assert forall|j: int| 0 <= j < segs.len() implies #[trigger] segs@[j].0 != segs@[j].1 && segs@[j].0 < usize::MAX
            && segs@[j].1 < usize::MAX by {
            assert(segs@[j].0 < unique.len());
            assert(segs@[j].1 < unique.len());
        }
    }
    let chains = find_chains(&segs);
    let mut result: Vec<Contour> = Vec::new();
    let mut c: usize = 0;
    while c < chains.len()
        invariant
            c <= chains.len(),
            result.len() == c,
            unique@.no_duplicates(),
            forall|i: int| 0 <= i < chains.len() ==> is_path(segs@, #[trigger] chains@[i]@),
            forall|s: int|
                0 <= s < segs.len() ==> (#[trigger] segs@[s]).0 < unique.len() && segs@[s].1 < unique.len()
                    && is_cell_segment(v, unique@[segs@[s].0 as int], unique@[segs@[s].1 as int]),
            forall|i: int| 0 <= i < c ==> #[trigger] result@[i]@ == chain_points(unique@, chains@[i]@),
        decreases chains.len() - c,
    {
        let chain = &chains[c];
        proof {
            lemma_chain_points(v, unique@, segs@, chain@);
        }
        let mut contour: Contour = Vec::new();
        let mut i: usize = 0;
        while i < chain.len()
            invariant
                i <= chain.len(),
                contour.len() == i,
                forall|t: int| 0 <= t < chain.len() ==> #[trigger] chain@[t] < unique.len(),
                forall|t: int| 0 <= t < i ==> #[trigger] contour@[t] == unique@[chain@[t] as int],
            decreases chain.len() - i,
        {
            contour.push(unique[chain[i]]);
            i += 1;
        }
        assert(contour@ =~= chain_points(unique@, chain@));
        result.push(contour);
        c += 1;
    }
    proof {
        assert forall|i: int| 0 <= i < result.len() implies (#[trigger] result@[i])@.len() >= 2 && result@[i]@.no_duplicates()
            && forall|t: int| 0 <= t < result@[i]@.len() - 1 ==> is_cell_segment(v, #[trigger] result@[i]@[t], result@[i]@[t + 1]) by {
            lemma_chain_points(v, unique@, segs@, chains@[i]@);
        }
        assert forall|j: int| 0 <= j < v.len() / 2 && #[trigger] v[2 * j] != v[2 * j + 1] implies exists|i: int|
            0 <= i < result.len() && has_point_link(#[trigger] result@[i]@, v[2 * j], v[2 * j + 1]) by {
            assert(is_segment(segs@, ids@[2 * j], ids@[2 * j + 1]));
            let s = choose|s: int| 0 <= s < segs@.len() && (segs@[s] == (ids@[2 * j], ids@[2 * j + 1]) || segs@[s] == (ids@[2 * j + 1], ids@[2 * j]));
            assert(some_chain_has_link(chains@, segs@[s].0, segs@[s].1));
            let i = choose|i: int| 0 <= i < chains@.len() && has_link(#[trigger] chains@[i]@, segs@[s].0, segs@[s].1);
            lemma_chain_points(v, unique@, segs@, chains@[i]@);
            let (a, b) = (ids@[2 * j], ids@[2 * j + 1]);
            if segs@[s] == (b, a) {
                assert(has_link(chains@[i]@, a, b)) by {
                    let t = choose|t: int| 0 <= t < chains@[i]@.len() - 1 && ((#[trigger] chains@[i]@[t] == b && chains@[i]@[t + 1] == a) || (chains@[i]@[t] == a && chains@[i]@[t + 1] == b));
                    assert(chains@[i]@[t] == a || chains@[i]@[t] == b);
                }
            }
            assert(has_link(chains@[i]@, a, b));
            assert(has_point_link(result@[i]@, unique@[a as int], unique@[b as int]));
        }
    }
    proof {
        let cs = chains_of(joined_segments(ids@, (v.len() / 2) as int));
        assert(v.len() / 2 == lines.len());
        assert(segs@ == joined_segments(ids@, (v.len() / 2) as int));
        assert(lists(chains@) == cs);
        assert forall|i: int| 0 <= i < result.len() implies #[trigger] result@[i]@ == chain_points(unique@, cs[i]) by {
            assert(lists(chains@)[i] == chains@[i]@);
        }
    }
    result
}

} // verus!
