use vstd::prelude::*;
use crate::grid::{Cell, cell_index, lemma_index_in_range};

verus! {

/// Distance between two coordinates on one axis.
pub open spec fn gap(a: usize, b: usize) -> int {
    if a <= b {
        b - a
    } else {
        a - b
    }
}

/// `p` lies between `a` and `b`, both included.
pub open spec fn between(a: usize, p: usize, b: usize) -> bool {
    (a <= p <= b) || (b <= p <= a)
}

/// The error term a segment starts with: half the longer axis' length, negated when the
/// vertical axis is at least as long.
pub open spec fn initial_error(dx: int, dy: int) -> int {
    if dx > dy {
        dx / 2
    } else {
        -(dy / 2)
    }
}

/// The range that the error term stays in along the segment.
pub open spec fn in_band(e: int, dx: int, dy: int) -> bool {
    if dx > dy {
        0 <= e < dx
    } else if dy > 0 {
        -dy < e <= 0
    } else {
        e == 0
    }
}

/// The error term at `(px, py)` on the way from `(x0, y0)` to `(x1, y1)`: the initial error,
/// plus the vertical length for each column still to go, minus the horizontal length for
/// each row still to go.
pub open spec fn line_error(x0: usize, y0: usize, x1: usize, y1: usize, px: usize, py: usize) -> int {
    let dx = gap(x0, x1);
    let dy = gap(y0, y1);
    initial_error(dx, dy) + gap(px, x1) * dy - gap(py, y1) * dx
}

/// `(px, py)` is a point of the digital segment from `(x0, y0)` to `(x1, y1)`: it lies in the
/// segment's bounding box and its error term is within the band.
pub open spec fn on_segment(x0: usize, y0: usize, x1: usize, y1: usize, px: usize, py: usize) -> bool {
    &&& between(x0, px, x1)
    &&& between(y0, py, y1)
    &&& in_band(line_error(x0, y0, x1, y1, px, py), gap(x0, x1), gap(y0, y1))
}

/// How far `p` is from the start along the longer axis (the horizontal one on a tie of
/// lengths goes to the vertical).
pub open spec fn major_steps(x0: usize, y0: usize, x1: usize, y1: usize, p: (usize, usize)) -> int {
    if gap(x0, x1) > gap(y0, y1) {
        gap(x0, p.0)
    } else {
        gap(y0, p.1)
    }
}

/// Two points differ by at most one on each axis.
pub open spec fn touching(p: (usize, usize), q: (usize, usize)) -> bool {
    gap(p.0, q.0) <= 1 && gap(p.1, q.1) <= 1
}

/// The number of points of the segment: one more than the longer axis' length.
pub open spec fn segment_len(x0: usize, y0: usize, x1: usize, y1: usize) -> int {
    if gap(x0, x1) > gap(y0, y1) {
        gap(x0, x1) + 1
    } else {
        gap(y0, y1) + 1
    }
}

/// One iteration of the error accumulator: with `a` columns and `b` rows still to go and error
/// `e`, the horizontal step is taken when `e > -dx` and the vertical one when `e < dy`.
/// Neither step overshoots, the longer axis always steps, and the band is kept.
proof fn lemma_step(dx: int, dy: int, a: int, b: int, e: int)
    requires
        dx >= 0,
        dy >= 0,
        0 <= a <= dx,
        0 <= b <= dy,
        e == initial_error(dx, dy) + a * dy - b * dx,
        in_band(e, dx, dy),
        a > 0 || b > 0,
    ensures
        e > -dx ==> a > 0,
        e < dy ==> b > 0,
        dx > dy ==> e > -dx,
        dx <= dy ==> e < dy,
        ({
            let a2 = if e > -dx { a - 1 } else { a };
            let b2 = if e < dy { b - 1 } else { b };
            let e2 = e - (if e > -dx { dy } else { 0 }) + (if e < dy { dx } else { 0 });
            &&& e2 == initial_error(dx, dy) + a2 * dy - b2 * dx
            &&& in_band(e2, dx, dy)
        }),
{
    let e0 = initial_error(dx, dy);
    assert((a - 1) * dy == a * dy - dy) by (nonlinear_arith);
    assert((b - 1) * dx == b * dx - dx) by (nonlinear_arith);
    if dx > dy {
        assert(0 <= e0 < dx);
        if a == 0 {
            assert(b >= 1 ==> b * dx >= dx) by (nonlinear_arith)
                requires
                    dx >= 0,
            ;
        }
        if b == 0 {
            assert(a * dy >= dy) by (nonlinear_arith)
                requires
                    a >= 1,
                    dy >= 0,
            ;
        }
    } else if dy > 0 {
        assert(-dy < e0 <= 0);
        if b == 0 {
            assert(a >= 1 ==> a * dy >= dy) by (nonlinear_arith)
                requires
                    dy >= 0,
            ;
        }
        if a == 0 {
            assert(b * dx >= dx) by (nonlinear_arith)
                requires
                    b >= 1,
                    dx >= 0,
            ;
        }
    } else {
        assert(dx == 0 && dy == 0);
        assert(a == 0 && b == 0);
    }
}

/// The digital straight segment from `(x0, y0)` to `(x1, y1)`, by the integer error
/// accumulator: it starts with `initial_error`, loses the vertical length with each
/// horizontal step and gains the horizontal length with each vertical one, and both axes
/// are tested on every iteration, so a step may be diagonal.
pub fn trace(x0: usize, y0: usize, x1: usize, y1: usize) -> (r: Vec<(usize, usize)>)
    ensures
        r@.len() == segment_len(x0, y0, x1, y1),
        r@[0] == (x0, y0),
        r@[r@.len() - 1] == (x1, y1),
        forall|i: int| 0 <= i < r@.len() - 1 ==> touching(#[trigger] r@[i], r@[i + 1]),
        forall|i: int|
            0 <= i < r@.len() ==> on_segment(x0, y0, x1, y1, (#[trigger] r@[i]).0, r@[i].1)
                && major_steps(x0, y0, x1, y1, r@[i]) == i,
{
    let dx: i128 = if x1 > x0 {
        (x1 - x0) as i128
    } else {
        (x0 - x1) as i128
    };
    let dy: i128 = if y1 > y0 {
        (y1 - y0) as i128
    } else {
        (y0 - y1) as i128
    };
    let x_up = x0 < x1;
    let y_up = y0 < y1;
    let mut err: i128 = if dx > dy {
        dx / 2
    } else {
        -(dy / 2)
    };
    let mut x = x0;
    let mut y = y0;
    let mut points: Vec<(usize, usize)> = Vec::new();
    loop
        invariant_except_break
            dx == gap(x0, x1),
            dy == gap(y0, y1),
            x_up == (x0 < x1),
            y_up == (y0 < y1),
            between(x0, x, x1),
            between(y0, y, y1),
            err == line_error(x0, y0, x1, y1, x, y),
            in_band(err as int, dx as int, dy as int),
            points@.len() == major_steps(x0, y0, x1, y1, (x, y)),
            points@.len() == 0 ==> x == x0 && y == y0,
            points@.len() > 0 ==> points@[0] == (x0, y0),
            points@.len() > 0 ==> touching(points@[points@.len() - 1], (x, y)),
            forall|i: int| 0 <= i < points@.len() - 1 ==> touching(#[trigger] points@[i], points@[i + 1]),
            forall|i: int|
                0 <= i < points@.len() ==> on_segment(x0, y0, x1, y1, (#[trigger] points@[i]).0, points@[i].1)
                    && major_steps(x0, y0, x1, y1, points@[i]) == i,
        ensures
            points@.len() == segment_len(x0, y0, x1, y1),
            points@[0] == (x0, y0),
            points@[points@.len() - 1] == (x1, y1),
            forall|i: int| 0 <= i < points@.len() - 1 ==> touching(#[trigger] points@[i], points@[i + 1]),
            forall|i: int|
                0 <= i < points@.len() ==> on_segment(x0, y0, x1, y1, (#[trigger] points@[i]).0, points@[i].1)
                    && major_steps(x0, y0, x1, y1, points@[i]) == i,
        decreases gap(x, x1) + gap(y, y1),
    {
        let ghost before = points@;
        points.push((x, y));
        assert(forall|i: int| 0 <= i < before.len() ==> points@[i] == before[i]);
        if x == x1 && y == y1 {
            break;
        }
        proof {
            lemma_step(dx as int, dy as int, gap(x, x1), gap(y, y1), err as int);
        }
        let e2 = err;
        if e2 > -dx {
            err = err - dy;
            x = if x_up {
                x + 1
            } else {
                x - 1
            };
        }
        if e2 < dy {
            err = err + dx;
            y = if y_up {
                y + 1
            } else {
                y - 1
            };
        }
    }
    points
}

/// Two error values in a band of width `d` that differ by a multiple of `d` are equal.
proof fn lemma_band_unique(d: int, u: int, v: int)
    requires
        d > 0,
        -d < (u - v) * d < d,
    ensures
        u == v,
{
    assert(u - v >= 1 ==> (u - v) * d >= d) by (nonlinear_arith)
        requires
            d > 0,
    ;
    assert(u - v <= -1 ==> (u - v) * d <= -d) by (nonlinear_arith)
        requires
            d > 0,
    ;
}

/// Two coordinates at the same distance from an end of a range they both lie in are equal.
proof fn lemma_same_gap(a: usize, p: usize, q: usize, b: usize)
    requires
        between(a, p, b),
        between(a, q, b),
        gap(a, p) == gap(a, q) || gap(p, b) == gap(q, b),
    ensures
        p == q,
{
}

/// Every point of the segment is one of the points that `trace` yields.
proof fn lemma_segment_traced(
    x0: usize,
    y0: usize,
    x1: usize,
    y1: usize,
    pts: Seq<(usize, usize)>,
    px: usize,
    py: usize,
)
    requires
        pts.len() == segment_len(x0, y0, x1, y1),
        pts[0] == (x0, y0),
        forall|i: int|
            0 <= i < pts.len() ==> on_segment(x0, y0, x1, y1, (#[trigger] pts[i]).0, pts[i].1)
                && major_steps(x0, y0, x1, y1, pts[i]) == i,
        on_segment(x0, y0, x1, y1, px, py),
    ensures
        exists|i: int| 0 <= i < pts.len() && pts[i] == (px, py),
{
    let dx = gap(x0, x1);
    let dy = gap(y0, y1);
    let e0 = initial_error(dx, dy);
    if dx > dy {
        let i = gap(x0, px);
        let q = pts[i];
        lemma_same_gap(x0, q.0, px, x1);
        let bp = gap(py, y1);
        let bq = gap(q.1, y1);
        assert(line_error(x0, y0, x1, y1, q.0, q.1) - line_error(x0, y0, x1, y1, px, py) == (bp
            - bq) * dx) by (nonlinear_arith)
            requires
                line_error(x0, y0, x1, y1, q.0, q.1) == e0 + gap(px, x1) * dy - bq * dx,
                line_error(x0, y0, x1, y1, px, py) == e0 + gap(px, x1) * dy - bp * dx,
        ;
        lemma_band_unique(dx, bp, bq);
        lemma_same_gap(y0, q.1, py, y1);
        assert(pts[i] == (px, py));
    } else if dy > 0 {
        let i = gap(y0, py);
        let q = pts[i];
        lemma_same_gap(y0, q.1, py, y1);
        let ap = gap(px, x1);
        let aq = gap(q.0, x1);
        assert(line_error(x0, y0, x1, y1, q.0, q.1) - line_error(x0, y0, x1, y1, px, py) == (aq
            - ap) * dy) by (nonlinear_arith)
            requires
                line_error(x0, y0, x1, y1, q.0, q.1) == e0 + aq * dy - gap(py, y1) * dx,
                line_error(x0, y0, x1, y1, px, py) == e0 + ap * dy - gap(py, y1) * dx,
        ;
        lemma_band_unique(dy, aq, ap);
        lemma_same_gap(x0, q.0, px, x1);
        assert(pts[i] == (px, py));
    } else {
        assert(pts[0] == (px, py));
    }
}

/// Distinct cells of a grid `w` columns wide have distinct indices.
proof fn lemma_index_unique(w: int, r1: int, c1: int, r2: int, c2: int)
    requires
        0 <= r1,
        0 <= r2,
        0 <= c1 < w,
        0 <= c2 < w,
        cell_index(w, r1, c1) == cell_index(w, r2, c2),
    ensures
        r1 == r2,
        c1 == c2,
{
    assert(r1 == r2) by (nonlinear_arith)
        requires
            0 <= r1,
            0 <= r2,
            0 <= c1 < w,
            0 <= c2 < w,
            r1 * w + c1 == r2 * w + c2,
    ;
}

/// Some of the first `k` points of `pts` is `(c, r)`.
pub open spec fn traced_before(pts: Seq<(usize, usize)>, k: int, c: int, r: int) -> bool {
    exists|t: int| 0 <= t < k && pts[t].0 == c && pts[t].1 == r
}

/// Puts material on every cell of the segment from `(x0, y0)` to `(x1, y1)` that lies inside
/// the `width` by `height` grid; points outside it are skipped.
pub fn draw_line(
    grid: &mut Vec<Cell>,
    width: usize,
    height: usize,
    x0: usize,
    y0: usize,
    x1: usize,
    y1: usize,
)
    requires
        old(grid)@.len() == width * height,
    ensures
        final(grid)@.len() == old(grid)@.len(),
        forall|r: int, c: int|
            0 <= r < height && 0 <= c < width ==> #[trigger] final(grid)@[cell_index(
                width as int,
                r,
                c,
            )] == if on_segment(x0, y0, x1, y1, c as usize, r as usize) {
                Cell::Material
            } else {
                old(grid)@[cell_index(width as int, r, c)]
            },
{
    let pts = trace(x0, y0, x1, y1);
    let ghost g0 = grid@;
    let len = grid.len();
    let mut i: usize = 0;
    while i < pts.len()
        invariant
            g0 == old(grid)@,
            grid@.len() == width * height,
            grid@.len() == len,
            i <= pts@.len(),
            forall|r: int, c: int|
                0 <= r < height && 0 <= c < width ==> #[trigger] grid@[cell_index(
                    width as int,
                    r,
                    c,
                )] == if traced_before(pts@, i as int, c, r) {
                    Cell::Material
                } else {
                    g0[cell_index(width as int, r, c)]
                },
        decreases pts@.len() - i,
    {
        let (px, py) = pts[i];
        let ghost prev = grid@;
        if px < width && py < height {
            proof {
                lemma_index_in_range(width as int, height as int, py as int, px as int);
            }
            grid.set(py * width + px, Cell::Material);
        }
        assert forall|r: int, c: int| 0 <= r < height && 0 <= c < width implies #[trigger] grid@[cell_index(
            width as int,
            r,
            c,
        )] == if traced_before(pts@, i + 1, c, r) {
            Cell::Material
        } else {
            g0[cell_index(width as int, r, c)]
        } by {
            lemma_index_in_range(width as int, height as int, r, c);
            if r == py && c == px {
                assert(traced_before(pts@, i + 1, c, r));
            } else {
                if px < width && py < height {
                    if cell_index(width as int, r, c) == cell_index(width as int, py as int, px as int) {
                        lemma_index_unique(width as int, r, c, py as int, px as int);
                    }
                }
                assert(prev[cell_index(width as int, r, c)] == grid@[cell_index(width as int, r, c)]);
                if traced_before(pts@, i + 1, c, r) {
                    let t = choose|t: int| 0 <= t < i + 1 && pts@[t].0 == c && pts@[t].1 == r;
                    assert(traced_before(pts@, i as int, c, r));
                }
            }
        }
        i = i + 1;
    }
    assert forall|r: int, c: int| 0 <= r < height && 0 <= c < width implies #[trigger] grid@[cell_index(
        width as int,
        r,
        c,
    )] == if on_segment(x0, y0, x1, y1, c as usize, r as usize) {
        Cell::Material
    } else {
        g0[cell_index(width as int, r, c)]
    } by {
        if on_segment(x0, y0, x1, y1, c as usize, r as usize) {
            lemma_segment_traced(x0, y0, x1, y1, pts@, c as usize, r as usize);
            let t = choose|t: int| 0 <= t < pts@.len() && pts@[t] == (c as usize, r as usize);
            assert(traced_before(pts@, pts@.len() as int, c, r));
        } else if traced_before(pts@, pts@.len() as int, c, r) {
            let t = choose|t: int| 0 <= t < pts@.len() && pts@[t].0 == c && pts@[t].1 == r;
            assert(on_segment(x0, y0, x1, y1, pts@[t].0, pts@[t].1));
        }
    }
}

} // verus!
