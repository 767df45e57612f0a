use vstd::prelude::*;
use crate::point::Point2d;

verus! {

/// Reflection `t` (0 to 7) of the offset `(x, y)` into one of the eight octants.
pub open spec fn reflect(t: int, x: int, y: int) -> (int, int) {
    if t == 0 {
        (x, y)
    } else if t == 1 {
        (y, x)
    } else if t == 2 {
        (-y, x)
    } else if t == 3 {
        (-x, y)
    } else if t == 4 {
        (-x, -y)
    } else if t == 5 {
        (-y, -x)
    } else if t == 6 {
        (y, -x)
    } else {
        (x, -y)
    }
}

/// The offsets of one octant of the midpoint circle, walked from state
/// `(x, y, err)` while `x >= y`.
pub open spec fn arc_from(x: int, y: int, err: int) -> Seq<(int, int)>
    decreases x - y + 1,
{
    if x < y {
        Seq::empty()
    } else if err <= 0 {
        seq![(x, y)] + arc_from(x, y + 1, err + 2 * (y + 1) + 1)
    } else {
        seq![(x, y)] + arc_from(x - 1, y, err - 2 * (x - 1) - 1)
    }
}

/// All eight reflections of each octant offset, in the order they are emitted.
pub open spec fn spread(arc: Seq<(int, int)>) -> Seq<(int, int)> {
    Seq::new(8 * arc.len(), |i: int| reflect(i % 8, arc[i / 8].0, arc[i / 8].1))
}

pub open spec fn circle_offsets(radius: int) -> Seq<(int, int)> {
    spread(arc_from(radius, 0, 0))
}

/// `c + o` in the wrapping arithmetic of `u32`.
pub open spec fn place(c: u32, o: int) -> u32 {
    if c + o < 0 {
        (c + o + 0x1_0000_0000) as u32
    } else if c + o > u32::MAX {
        (c + o - 0x1_0000_0000) as u32
    } else {
        (c + o) as u32
    }
}

pub open spec fn placed(center: Point2d, o: (int, int)) -> Point2d {
    Point2d { x: place(center.x, o.0), y: place(center.y, o.1) }
}

/// The outline of radius `radius` around `center`; radius 0 is the center alone.
pub open spec fn circle_of(center: Point2d, radius: int) -> Seq<Point2d> {
    if radius == 0 {
        seq![center]
    } else {
        circle_offsets(radius).map_values(|o: (int, int)| placed(center, o))
    }
}

fn place_exec(c: u32, o: i64) -> (r: u32)
    requires
        -0x1_0000_0000 < o < 0x1_0000_0000,
    ensures
        r == place(c, o as int),
{
    let v: i64 = c as i64 + o;
    if v < 0 {
        (v + 0x1_0000_0000) as u32
    } else if v > 0xffff_ffff {
        (v - 0x1_0000_0000) as u32
    } else {
        v as u32
    }
}

/// Rasterizes the circle of `radius` around `center` with the midpoint
/// algorithm; coordinates left of or above the origin wrap around as `u32` does.
pub fn get_circle_points(center: Point2d, radius: i32) -> (points: Vec<Point2d>)
    requires
        radius >= 0,
    ensures
        points@ == circle_of(center, radius as int),
{
    if radius == 0 {
        return vec![center];
    }
    let r: i128 = radius as i128;
    let mut x: i128 = r;
    let mut y: i128 = 0;
    let mut err: i128 = 0;
    let mut points: Vec<Point2d> = Vec::new();
    let ghost mut done: Seq<(int, int)> = Seq::empty();
    assert(done + arc_from(r as int, 0, 0) =~= arc_from(r as int, 0, 0));
    while x >= y
        invariant
            0 < r <= i32::MAX,
            -1 <= x <= r,
            0 <= y <= r + 1,
            y <= x + 1,
            err == x * x + y * y + 2 * y - r * r,
            done + arc_from(x as int, y as int, err as int) == arc_from(r as int, 0, 0),
            points@ == spread(done).map_values(|o: (int, int)| placed(center, o)),
        decreases x - y + 1,
    {
        assert(0 <= x * x <= r * r && 0 <= y * y <= r * r) by (nonlinear_arith)
            requires 0 <= y <= x <= r;
        let ghost old_done = done;
        let ghost old_pts = points@;
        let xs = x as i64;
        let ys = y as i64;
        points.push(Point2d { x: place_exec(center.x, xs), y: place_exec(center.y, ys) });
        points.push(Point2d { x: place_exec(center.x, ys), y: place_exec(center.y, xs) });
        points.push(Point2d { x: place_exec(center.x, -ys), y: place_exec(center.y, xs) });
        points.push(Point2d { x: place_exec(center.x, -xs), y: place_exec(center.y, ys) });
        points.push(Point2d { x: place_exec(center.x, -xs), y: place_exec(center.y, -ys) });
        points.push(Point2d { x: place_exec(center.x, -ys), y: place_exec(center.y, -xs) });
        points.push(Point2d { x: place_exec(center.x, ys), y: place_exec(center.y, -xs) });
        points.push(Point2d { x: place_exec(center.x, xs), y: place_exec(center.y, -ys) });
        proof {
            done = done.push((x as int, y as int));
            let rest = arc_from(x as int, y as int, err as int);
            assert(rest == seq![(x as int, y as int)] + rest.skip(1));
            assert(done + rest.skip(1) =~= old_done + rest);
            assert(points@ =~= spread(done).map_values(|o: (int, int)| placed(center, o))) by {
                let n = old_done.len();
                assert forall|i: int| 0 <= i < 8 * n implies #[trigger] (i / 8) < n && done[i / 8]
                    == old_done[i / 8] by {}
            }
        }
        if err <= 0 {
            y = y + 1;
            err = err + 2 * y + 1;
            assert(err == x * x + y * y + 2 * y - r * r) by (nonlinear_arith)
                requires err == x * x + (y - 1) * (y - 1) + 2 * (y - 1) - r * r + 2 * y + 1;
        } else {
            x = x - 1;
            err = err - 2 * x - 1;
            assert(err == x * x + y * y + 2 * y - r * r) by (nonlinear_arith)
                requires err == (x + 1) * (x + 1) + y * y + 2 * y - r * r - 2 * x - 1;
        }
        proof {
            assert(done + arc_from(x as int, y as int, err as int) == arc_from(r as int, 0, 0));
        }
    }
    assert(arc_from(x as int, y as int, err as int) =~= Seq::empty());
    assert(done =~= done + arc_from(x as int, y as int, err as int));
    points
}

} // verus!

verus! {

proof fn lemma_reflect_closed(t: int, s: int, x: int, y: int)
    requires
        0 <= t < 8,
        0 <= s < 8,
    ensures
        exists|u: int|
            0 <= u < 8 && #[trigger] reflect(u, x, y) == reflect(
                s,
                reflect(t, x, y).0,
                reflect(t, x, y).1,
            ),
{
    let _r = (
        reflect(0, x, y),
        reflect(1, x, y),
        reflect(2, x, y),
        reflect(3, x, y),
        reflect(4, x, y),
        reflect(5, x, y),
        reflect(6, x, y),
        reflect(7, x, y),
    );
}

/// Each of the eight octant reflections of every offset on a circle of
/// positive radius is itself on the circle, and so is the pixel it places.
pub proof fn lemma_circle_symmetric(center: Point2d, radius: int, i: int, s: int)
    requires
        radius > 0,
        0 <= i < circle_offsets(radius).len(),
        0 <= s < 8,
    ensures
        circle_offsets(radius).contains(
            reflect(s, circle_offsets(radius)[i].0, circle_offsets(radius)[i].1),
        ),
        circle_of(center, radius).contains(
            placed(
                center,
                reflect(s, circle_offsets(radius)[i].0, circle_offsets(radius)[i].1),
            ),
        ),
{
    let offs = circle_offsets(radius);
    let arc = arc_from(radius, 0, 0);
    let j = i / 8;
    let t = i % 8;
    let base = arc[j];
    assert(offs[i] == reflect(t, base.0, base.1));
    lemma_reflect_closed(t, s, base.0, base.1);
    let u = choose|u: int|
        0 <= u < 8 && #[trigger] reflect(u, base.0, base.1) == reflect(
            s,
            reflect(t, base.0, base.1).0,
            reflect(t, base.0, base.1).1,
        );
    let k = 8 * j + u;
    assert(k / 8 == j && k % 8 == u);
    assert(offs[k] == reflect(s, offs[i].0, offs[i].1));
    let pts = circle_of(center, radius);
    assert(pts[k] == placed(center, offs[k]));
}

/// A circle of radius 0 is the single pixel at its center.
pub proof fn lemma_circle_degenerate(center: Point2d)
    ensures
        circle_of(center, 0) == seq![center],
{
}

} // verus!
