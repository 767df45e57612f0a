use vstd::prelude::*;
use vstd::arithmetic::div_mod::lemma_fundamental_div_mod_converse;
use crate::point::Point2d;

verus! {

pub open spec fn abs(v: int) -> int {
    if v < 0 {
        -v
    } else {
        v
    }
}

/// A segment is steep when it moves further vertically than horizontally;
/// it is then walked along y instead of x.
pub open spec fn is_steep(a: Point2d, b: Point2d) -> bool {
    abs(b.y - a.y) > abs(b.x - a.x)
}

/// The coordinate that advances by one at each step of the walk.
pub open spec fn drive(p: Point2d, steep: bool) -> int {
    if steep {
        p.y as int
    } else {
        p.x as int
    }
}

/// The coordinate that follows the driving one.
pub open spec fn dep(p: Point2d, steep: bool) -> int {
    if steep {
        p.x as int
    } else {
        p.y as int
    }
}

/// The point whose driving coordinate is `u` and whose other coordinate is `v`.
pub open spec fn emit(steep: bool, u: int, v: int) -> Point2d {
    if steep {
        Point2d { x: v as u32, y: u as u32 }
    } else {
        Point2d { x: u as u32, y: v as u32 }
    }
}

/// Whether the walk runs from `b` to `a` and its output must be reversed.
pub open spec fn is_reversed(a: Point2d, b: Point2d) -> bool {
    drive(a, is_steep(a, b)) > drive(b, is_steep(a, b))
}

/// The endpoint where the walk starts: the one with the smaller driving coordinate.
pub open spec fn walk_start(a: Point2d, b: Point2d) -> Point2d {
    if is_reversed(a, b) {
        b
    } else {
        a
    }
}

pub open spec fn walk_end(a: Point2d, b: Point2d) -> Point2d {
    if is_reversed(a, b) {
        a
    } else {
        b
    }
}

/// How many unit steps the dependent coordinate has taken after `i` steps of
/// the walk: the error term starts at half the driving delta, loses `dy` per
/// step and gains `dx` per dependent step, and stays within `[0, dx)`.
pub open spec fn rise(i: int, dx: int, dy: int) -> int {
    if dx == 0 {
        0
    } else {
        (i * dy + dx - dx / 2 - 1) / dx
    }
}

/// The error term before point `i` is emitted.
pub open spec fn err_at(i: int, dx: int, dy: int) -> int {
    dx / 2 - i * dy + rise(i, dx, dy) * dx
}

pub open spec fn walk_dx(a: Point2d, b: Point2d) -> int {
    let st = is_steep(a, b);
    drive(walk_end(a, b), st) - drive(walk_start(a, b), st)
}

pub open spec fn walk_dy(a: Point2d, b: Point2d) -> int {
    let st = is_steep(a, b);
    abs(dep(walk_end(a, b), st) - dep(walk_start(a, b), st))
}

pub open spec fn walk_step(a: Point2d, b: Point2d) -> int {
    let st = is_steep(a, b);
    if dep(walk_start(a, b), st) < dep(walk_end(a, b), st) {
        1
    } else {
        -1
    }
}

/// Point `i` of the walk from the start endpoint to the end endpoint.
pub open spec fn walk_point(a: Point2d, b: Point2d, i: int) -> Point2d {
    emit(
        is_steep(a, b),
        drive(walk_start(a, b), is_steep(a, b)) + i,
        dep(walk_start(a, b), is_steep(a, b)) + walk_step(a, b) * rise(
            i,
            walk_dx(a, b),
            walk_dy(a, b),
        ),
    )
}

/// The rasterized segment from `a` to `b`, in order from `a`.
pub open spec fn line_of(a: Point2d, b: Point2d) -> Seq<Point2d> {
    let n = walk_dx(a, b) + 1;
    if is_reversed(a, b) {
        Seq::new(n as nat, |i: int| walk_point(a, b, n - 1 - i))
    } else {
        Seq::new(n as nat, |i: int| walk_point(a, b, i))
    }
}

proof fn lemma_rise(i: int, dx: int, dy: int)
    requires
        0 <= dy <= dx,
        0 < dx,
        0 <= i,
    ensures
        0 <= err_at(i, dx, dy) < dx,
        rise(i + 1, dx, dy) == if err_at(i, dx, dy) - dy < 0 {
            rise(i, dx, dy) + 1
        } else {
            rise(i, dx, dy)
        },
{
    let n = i * dy + dx - dx / 2 - 1;
    let q = n / dx;
    let r = n % dx;
    assert(n == q * dx + r && 0 <= r < dx) by {
        vstd::arithmetic::div_mod::lemma_fundamental_div_mod(n, dx);
    }
    assert(err_at(i, dx, dy) == dx - 1 - r);
    let n2 = (i + 1) * dy + dx - dx / 2 - 1;
    assert(n2 == n + dy) by (nonlinear_arith)
        requires n2 == (i + 1) * dy + dx - dx / 2 - 1, n == i * dy + dx - dx / 2 - 1;
    if r + dy < dx {
        lemma_fundamental_div_mod_converse(n2, dx, q, r + dy);
    } else {
        assert(n2 == (q + 1) * dx + (r + dy - dx)) by (nonlinear_arith)
            requires n2 == n + dy, n == q * dx + r;
        lemma_fundamental_div_mod_converse(n2, dx, q + 1, r + dy - dx);
    }
}

proof fn lemma_rise_bounds(i: int, dx: int, dy: int)
    requires
        0 <= dy <= dx,
        0 <= i <= dx,
    ensures
        0 <= rise(i, dx, dy) <= dy,
        rise(0, dx, dy) == 0,
        rise(dx, dx, dy) == dy,
{
    if dx > 0 {
        let n = i * dy + dx - dx / 2 - 1;
        let k = rise(i, dx, dy);
        vstd::arithmetic::div_mod::lemma_fundamental_div_mod(n, dx);
        assert(k * dx <= n && n < k * dx + dx);
        assert(i * dy <= dx * dy) by (nonlinear_arith)
            requires 0 <= i <= dx, 0 <= dy;
        assert(0 <= k) by (nonlinear_arith)
            requires k * dx + dx > n, n >= -1 + dx - dx / 2, dx > 0, i * dy >= 0, n == i * dy + dx - dx / 2 - 1;
        assert(k <= dy) by (nonlinear_arith)
            requires k * dx <= n, n <= dx * dy + dx - dx / 2 - 1, dx > 0;
        lemma_fundamental_div_mod_converse(dx - dx / 2 - 1, dx, 0, dx - dx / 2 - 1);
        assert(dx * dy + dx - dx / 2 - 1 == dy * dx + (dx - dx / 2 - 1)) by (nonlinear_arith);
        lemma_fundamental_div_mod_converse(dx * dy + dx - dx / 2 - 1, dx, dy, dx - dx / 2 - 1);
    }
}

fn abs_diff(p: i64, q: i64) -> (r: i64)
    requires
        0 <= p <= u32::MAX,
        0 <= q <= u32::MAX,
    ensures
        r == abs(q - p),
{
    if q >= p {
        q - p
    } else {
        p - q
    }
}

/// Rasterizes the segment from `a` to `b` with integer arithmetic only.
pub fn get_line_bres(a: Point2d, b: Point2d) -> (points: Vec<Point2d>)
    ensures
        points@ == line_of(a, b),
{
    let ghost st = is_steep(a, b);
    let steep = abs_diff(a.y as i64, b.y as i64) > abs_diff(a.x as i64, b.x as i64);
    let (mut x1, mut y1, mut x2, mut y2): (i64, i64, i64, i64) = if steep {
        (a.y as i64, a.x as i64, b.y as i64, b.x as i64)
    } else {
        (a.x as i64, a.y as i64, b.x as i64, b.y as i64)
    };
    let reversed = x1 > x2;
    if reversed {
        let (tx, ty) = (x1, y1);
        x1 = x2;
        y1 = y2;
        x2 = tx;
        y2 = ty;
    }
    assert(reversed == is_reversed(a, b));
    assert(x1 == drive(walk_start(a, b), st) && y1 == dep(walk_start(a, b), st));
    assert(x2 == drive(walk_end(a, b), st) && y2 == dep(walk_end(a, b), st));
    let dx = x2 - x1;
    let dy = abs_diff(y1, y2);
    assert(dy <= dx);
    let mut err: i64 = dx / 2;
    let mut y: i64 = y1;
    let ystep: i64 = if y1 < y2 {
        1
    } else {
        -1
    };
    let mut raw: Vec<Point2d> = Vec::new();
    let mut x: i64 = x1;
    proof {
        lemma_rise_bounds(0, dx as int, dy as int);
        assert(ystep * rise(0, dx as int, dy as int) == 0);
    }
    while x <= x2
        invariant
            dx == walk_dx(a, b),
            dy == walk_dy(a, b),
            ystep == walk_step(a, b),
            st == steep,
            st == is_steep(a, b),
            x1 == drive(walk_start(a, b), st),
            y1 == dep(walk_start(a, b), st),
            x2 == drive(walk_end(a, b), st),
            y2 == dep(walk_end(a, b), st),
            dx == x2 - x1,
            0 <= x1 <= x2 <= u32::MAX,
            0 <= y1 <= u32::MAX,
            0 <= y2 <= u32::MAX,
            0 <= dy <= dx,
            x1 <= x <= x2 + 1,
            raw.len() == x - x1,
            y == y1 + ystep * rise(x - x1, dx as int, dy as int),
            x <= x2 ==> err == err_at(x - x1, dx as int, dy as int),
            forall|j: int| 0 <= j < raw.len() ==> raw@[j] == walk_point(a, b, j),
        decreases x2 + 1 - x,
    {
        let ghost i = x - x1;
        proof {
            lemma_rise_bounds(i, dx as int, dy as int);
        }
        assert(0 <= y <= u32::MAX);
        if steep {
            raw.push(Point2d { x: y as u32, y: x as u32 });
        } else {
            raw.push(Point2d { x: x as u32, y: y as u32 });
        }
        assert(raw@[i] == walk_point(a, b, i)) by {
            let s = walk_start(a, b);
            assert(drive(s, st) + i == x);
            assert(dep(s, st) + walk_step(a, b) * rise(i, walk_dx(a, b), walk_dy(a, b)) == y);
            assert(raw@[i] == emit(st, x as int, y as int));
        }
        if dx > 0 {
            proof {
                lemma_rise(i, dx as int, dy as int);
            }
            let ghost r0 = rise(i, dx as int, dy as int);
            let ghost r1 = rise(i + 1, dx as int, dy as int);
            let ghost y0 = y;
            let ghost e0 = err;
            err = err - dy;
            if err < 0 {
                y = y + ystep;
                err = err + dx;
            }
            assert(y == y1 + ystep * r1) by (nonlinear_arith)
                requires
                    y0 == y1 + ystep * r0,
                    (r1 == r0 + 1 && y == y0 + ystep) || (r1 == r0 && y == y0),
            ;
            assert(err == dx / 2 - (i + 1) * dy + r1 * dx) by (nonlinear_arith)
                requires
                    e0 == dx / 2 - i * dy + r0 * dx,
                    (r1 == r0 + 1 && err == e0 - dy + dx) || (r1 == r0 && err == e0 - dy),
            ;
        }
        x = x + 1;
        proof {
            if x <= x2 {
                lemma_rise_bounds(i + 1, dx as int, dy as int);
            }
        }
    }
    if !reversed {
        assert(raw@ =~= line_of(a, b));
        return raw;
    }
    let mut points: Vec<Point2d> = Vec::new();
    let mut k: usize = raw.len();
    while k > 0
        invariant
            0 <= k <= raw.len(),
            raw.len() == dx + 1,
            points.len() == raw.len() - k,
            forall|j: int| 0 <= j < raw.len() ==> raw@[j] == walk_point(a, b, j),
            forall|j: int| 0 <= j < points.len() ==> points@[j] == raw@[raw.len() - 1 - j],
        decreases k,
    {
        k = k - 1;
        points.push(raw[k]);
    }
    assert(points@ =~= line_of(a, b));
    points
}

} // verus!

verus! {

proof fn lemma_walk_point(a: Point2d, b: Point2d, i: int)
    requires
        0 <= i <= walk_dx(a, b),
    ensures
        drive(walk_point(a, b, i), is_steep(a, b)) == drive(walk_start(a, b), is_steep(a, b)) + i,
        dep(walk_point(a, b, i), is_steep(a, b)) == dep(walk_start(a, b), is_steep(a, b))
            + walk_step(a, b) * rise(i, walk_dx(a, b), walk_dy(a, b)),
        i == 0 ==> walk_point(a, b, i) == walk_start(a, b),
        i == walk_dx(a, b) ==> walk_point(a, b, i) == walk_end(a, b),
        0 < i ==> abs(dep(walk_point(a, b, i), is_steep(a, b)) - dep(
            walk_point(a, b, i - 1),
            is_steep(a, b),
        )) <= 1,
{
    let st = is_steep(a, b);
    let dx = walk_dx(a, b);
    let dy = walk_dy(a, b);
    lemma_rise_bounds(i, dx, dy);
    if i > 0 {
        lemma_rise_bounds(i - 1, dx, dy);
        lemma_rise(i - 1, dx, dy);
    }
}

/// A rasterized segment starts at `a`, ends at `b`, and has one pixel per
/// unit of its longer extent, plus one.
pub proof fn lemma_line_endpoints(a: Point2d, b: Point2d)
    ensures
        line_of(a, b).len() == if abs(a.x - b.x) >= abs(a.y - b.y) {
            abs(a.x - b.x) + 1
        } else {
            abs(a.y - b.y) + 1
        },
        line_of(a, b)[0] == a,
        line_of(a, b).last() == b,
{
    lemma_walk_point(a, b, 0);
    lemma_walk_point(a, b, walk_dx(a, b));
}

/// Rasterizing from `b` to `a` gives the pixels of `a` to `b` in reverse order.
pub proof fn lemma_line_symmetric(a: Point2d, b: Point2d)
    ensures
        line_of(a, b).reverse() == line_of(b, a),
{
    assert(is_steep(a, b) == is_steep(b, a));
    if a == b {
        assert(line_of(a, b).reverse() =~= line_of(b, a));
    } else {
        assert(drive(a, is_steep(a, b)) != drive(b, is_steep(a, b)));
        assert(walk_start(a, b) == walk_start(b, a));
        assert(walk_end(a, b) == walk_end(b, a));
        assert(line_of(a, b).reverse() =~= line_of(b, a));
    }
}

/// Along the driving axis each pixel is one further from `a` toward `b` than
/// the one before it, and the other coordinate moves by at most one.
pub proof fn lemma_line_steps(a: Point2d, b: Point2d, i: int)
    requires
        0 <= i < line_of(a, b).len() - 1,
    ensures
        drive(line_of(a, b)[i + 1], is_steep(a, b)) == drive(line_of(a, b)[i], is_steep(a, b))
            + if is_reversed(a, b) {
            -1int
        } else {
            1int
        },
        abs(dep(line_of(a, b)[i + 1], is_steep(a, b)) - dep(line_of(a, b)[i], is_steep(a, b)))
            <= 1,
{
    let n = walk_dx(a, b) + 1;
    if is_reversed(a, b) {
        lemma_walk_point(a, b, n - 1 - i);
        lemma_walk_point(a, b, n - 2 - i);
    } else {
        lemma_walk_point(a, b, i);
        lemma_walk_point(a, b, i + 1);
    }
}

} // verus!

verus! {

/// A vertical segment downward is every pixel of its column between the two
/// endpoints, top first.
pub proof fn lemma_line_vertical(x: u32, y0: u32, y1: u32)
    requires
        y0 <= y1,
    ensures
        line_of(Point2d { x, y: y0 }, Point2d { x, y: y1 }) == Seq::new(
            (y1 - y0 + 1) as nat,
            |i: int| Point2d { x, y: (y0 + i) as u32 },
        ),
{
    let a = Point2d { x, y: y0 };
    let b = Point2d { x, y: y1 };
    let dx = walk_dx(a, b);
    assert forall|i: int| 0 <= i <= dx implies walk_point(a, b, i) == Point2d {
        x,
        y: (y0 + i) as u32,
    } by {
        lemma_rise_bounds(i, dx, walk_dy(a, b));
        lemma_walk_point(a, b, i);
    }
    assert(line_of(a, b) =~= Seq::new(
        (y1 - y0 + 1) as nat,
        |i: int| Point2d { x, y: (y0 + i) as u32 },
    ));
}

} // verus!
