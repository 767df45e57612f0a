use vstd::prelude::*;
use crate::point::Point2d;
use crate::line::{get_line_bres, line_of, lemma_line_vertical};
use crate::circle::{get_circle_points, circle_of};
use crate::canvas::{Canvas, canvas_pixels, canvas_size, canvas_wf, rect};
use crate::ridge::{midpoint_displacement, ridge_of, draws_view, draws_fit};

verus! {

pub type Pixels = Map<(int, int), [u8; 4]>;

/// Every pixel of `m` set to `color`.
pub open spec fn filled(m: Pixels, color: [u8; 4]) -> Pixels {
    Map::new(|p: (int, int)| m.dom().contains(p), |p: (int, int)| color)
}

/// Whether one of `pts` is the pixel `p`.
pub open spec fn hits(pts: Seq<Point2d>, p: (int, int)) -> bool {
    exists|i: int| 0 <= i < pts.len() && pts[i].x == p.0 && pts[i].y == p.1
}

/// The pixels of `m` that `pts` hits set to `color`, the others kept.
pub open spec fn stamped(m: Pixels, pts: Seq<Point2d>, color: [u8; 4]) -> Pixels {
    Map::new(
        |p: (int, int)| m.dom().contains(p),
        |p: (int, int)|
            if hits(pts, p) {
                color
            } else {
                m[p]
            },
    )
}

/// Whether `p` lies on an outline of radius `0` to `radius` around `center`.
pub open spec fn on_marker(center: Point2d, radius: int, p: (int, int)) -> bool {
    exists|k: int| 0 <= k <= radius && #[trigger] hits(circle_of(center, k), p)
}

pub open spec fn marked(m: Pixels, center: Point2d, radius: int, color: [u8; 4]) -> Pixels {
    Map::new(
        |p: (int, int)| m.dom().contains(p),
        |p: (int, int)|
            if on_marker(center, radius, p) {
                color
            } else {
                m[p]
            },
    )
}

/// Whether `p` is one of `pts` or lies straight below one of them.
pub open spec fn under(pts: Seq<Point2d>, p: (int, int)) -> bool {
    exists|i: int| 0 <= i < pts.len() && pts[i].x == p.0 && pts[i].y <= p.1
}

/// `m` with every pixel on or below one of `pts` set to `color`.
pub open spec fn covered(m: Pixels, pts: Seq<Point2d>, color: [u8; 4]) -> Pixels {
    Map::new(
        |p: (int, int)| m.dom().contains(p),
        |p: (int, int)|
            if under(pts, p) {
                color
            } else {
                m[p]
            },
    )
}

/// The pixels of the segments joining consecutive points of `ridge`, in order.
pub open spec fn ridge_pixels(ridge: Seq<Point2d>) -> Seq<Point2d>
    decreases ridge.len(),
{
    if ridge.len() < 2 {
        Seq::empty()
    } else {
        ridge_pixels(ridge.drop_last()) + line_of(
            ridge[ridge.len() - 2],
            ridge[ridge.len() - 1],
        )
    }
}

proof fn lemma_hits_push(s: Seq<Point2d>, q: Point2d, p: (int, int))
    ensures
        hits(s.push(q), p) == (hits(s, p) || (q.x == p.0 && q.y == p.1)),
{
    if q.x == p.0 && q.y == p.1 {
        assert(s.push(q)[s.len() as int] == q);
    }
    if hits(s, p) {
        let j = choose|j: int| 0 <= j < s.len() && (#[trigger] s[j]).x == p.0 && s[j].y == p.1;
        assert(s.push(q)[j] == s[j]);
    }
    if hits(s.push(q), p) {
        let t = s.push(q);
        let j = choose|j: int| 0 <= j < t.len() && (#[trigger] t[j]).x == p.0 && t[j].y == p.1;
        if j < s.len() {
            assert(t[j] == s[j]);
        }
    }
}

proof fn lemma_under_push(s: Seq<Point2d>, q: Point2d, p: (int, int))
    ensures
        under(s.push(q), p) == (under(s, p) || (q.x == p.0 && q.y <= p.1)),
{
    if q.x == p.0 && q.y <= p.1 {
        assert(s.push(q)[s.len() as int] == q);
    }
    if under(s, p) {
        let j = choose|j: int| 0 <= j < s.len() && (#[trigger] s[j]).x == p.0 && s[j].y <= p.1;
        assert(s.push(q)[j] == s[j]);
    }
    if under(s.push(q), p) {
        let t = s.push(q);
        let j = choose|j: int| 0 <= j < t.len() && (#[trigger] t[j]).x == p.0 && t[j].y <= p.1;
        if j < s.len() {
            assert(t[j] == s[j]);
        }
    }
}

/// Fills the whole canvas with `color`.
pub fn fill_background(canvas: &mut Canvas, color: [u8; 4])
    requires
        canvas_wf(*old(canvas)),
    ensures
        canvas_wf(*final(canvas)),
        canvas_size(*final(canvas)) == canvas_size(*old(canvas)),
        canvas_pixels(*final(canvas)) == filled(canvas_pixels(*old(canvas)), color),
{
    let ghost m = canvas_pixels(*canvas);
    let w = canvas.width();
    let h = canvas.height();
    let mut y: u32 = 0;
    while y < h
        invariant
            canvas_wf(*canvas),
            canvas_size(*canvas) == canvas_size(*old(canvas)),
            m == canvas_pixels(*old(canvas)),
            w == canvas_size(*canvas).0,
            h == canvas_size(*canvas).1,
            y <= h,
            canvas_pixels(*canvas) == Map::new(
                |p: (int, int)| m.dom().contains(p),
                |p: (int, int)|
                    if p.1 < y {
                        color
                    } else {
                        m[p]
                    },
            ),
        decreases h - y,
    {
        let mut x: u32 = 0;
        while x < w
            invariant
                canvas_wf(*canvas),
                canvas_size(*canvas) == canvas_size(*old(canvas)),
                m == canvas_pixels(*old(canvas)),
                w == canvas_size(*canvas).0,
                h == canvas_size(*canvas).1,
                y < h,
                x <= w,
                canvas_pixels(*canvas) == Map::new(
                    |p: (int, int)| m.dom().contains(p),
                    |p: (int, int)|
                        if p.1 < y || (p.1 == y && p.0 < x) {
                            color
                        } else {
                            m[p]
                        },
                ),
            decreases w - x,
        {
            canvas.put(x, y, color);
            x = x + 1;
            assert(canvas_pixels(*canvas) =~= Map::new(
                |p: (int, int)| m.dom().contains(p),
                |p: (int, int)|
                    if p.1 < y || (p.1 == y && p.0 < x) {
                        color
                    } else {
                        m[p]
                    },
            ));
        }
        y = y + 1;
        assert(canvas_pixels(*canvas) =~= Map::new(
            |p: (int, int)| m.dom().contains(p),
            |p: (int, int)|
                if p.1 < y {
                    color
                } else {
                    m[p]
                },
        ));
    }
    assert(canvas_pixels(*canvas) =~= filled(m, color));
}

/// Sets every in-bounds pixel of `pts` to `color`.
pub fn stamp_points(canvas: &mut Canvas, pts: &Vec<Point2d>, color: [u8; 4])
    requires
        canvas_wf(*old(canvas)),
    ensures
        canvas_wf(*final(canvas)),
        canvas_size(*final(canvas)) == canvas_size(*old(canvas)),
        canvas_pixels(*final(canvas)) == stamped(canvas_pixels(*old(canvas)), pts@, color),
{
    let ghost m = canvas_pixels(*canvas);
    let mut i: usize = 0;
    assert(canvas_pixels(*canvas) =~= stamped(m, pts@.take(0), color));
    while i < pts.len()
        invariant
            canvas_wf(*canvas),
            canvas_size(*canvas) == canvas_size(*old(canvas)),
            m == canvas_pixels(*old(canvas)),
            i <= pts.len(),
            canvas_pixels(*canvas) == stamped(m, pts@.take(i as int), color),
        decreases pts.len() - i,
    {
        let q = pts[i];
        canvas.put(q.x, q.y, color);
        i = i + 1;
        assert(pts@.take(i as int) =~= pts@.take(i - 1).push(q));
        assert forall|p: (int, int)| #[trigger]
            hits(pts@.take(i as int), p) == (hits(pts@.take(i - 1), p) || (q.x == p.0 && q.y
                == p.1)) by {
            lemma_hits_push(pts@.take(i - 1), q, p);
        }
        assert(canvas_pixels(*canvas) =~= stamped(m, pts@.take(i as int), color));
    }
    assert(pts@.take(i as int) =~= pts@);
}

/// `m` with the pixels of `q`'s column from `q` down set to `color`.
pub open spec fn column(m: Pixels, q: Point2d, color: [u8; 4]) -> Pixels {
    Map::new(
        |p: (int, int)| m.dom().contains(p),
        |p: (int, int)|
            if p.0 == q.x && q.y <= p.1 {
                color
            } else {
                m[p]
            },
    )
}

/// Draws the marker: the outlines of every radius from 0 to `max_radius`
/// around `center`, which together make a disc.
pub fn draw_marker(canvas: &mut Canvas, center: Point2d, max_radius: i32, color: [u8; 4])
    requires
        canvas_wf(*old(canvas)),
        max_radius >= 0,
    ensures
        canvas_wf(*final(canvas)),
        canvas_size(*final(canvas)) == canvas_size(*old(canvas)),
        canvas_pixels(*final(canvas)) == marked(
            canvas_pixels(*old(canvas)),
            center,
            max_radius as int,
            color,
        ),
{
    let ghost m = canvas_pixels(*canvas);
    let mut k: i64 = 0;
    assert(canvas_pixels(*canvas) =~= marked(m, center, -1, color));
    while k <= max_radius as i64
        invariant
            canvas_wf(*canvas),
            canvas_size(*canvas) == canvas_size(*old(canvas)),
            m == canvas_pixels(*old(canvas)),
            0 <= k <= max_radius + 1,
            max_radius >= 0,
            canvas_pixels(*canvas) == marked(m, center, k - 1, color),
        decreases max_radius + 1 - k,
    {
        let pts = get_circle_points(center, k as i32);
        stamp_points(canvas, &pts, color);
        assert forall|p: (int, int)|
            on_marker(center, k as int, p) == (on_marker(center, k - 1, p) || hits(
                circle_of(center, k as int),
                p,
            )) by {
            if hits(circle_of(center, k as int), p) {
                assert(0 <= k <= k && hits(circle_of(center, k as int), p));
            }
            if on_marker(center, k - 1, p) {
                let k2 = choose|k2: int| 0 <= k2 <= k - 1 && #[trigger] hits(circle_of(center, k2), p);
                assert(0 <= k2 <= k && hits(circle_of(center, k2), p));
            }
        }
        k = k + 1;
        assert(canvas_pixels(*canvas) =~= marked(m, center, k - 1, color));
    }
}

/// Sets `q` and every pixel straight below it to `color`, down to the bottom row.
pub fn fill_below(canvas: &mut Canvas, q: Point2d, color: [u8; 4])
    requires
        canvas_wf(*old(canvas)),
    ensures
        canvas_wf(*final(canvas)),
        canvas_size(*final(canvas)) == canvas_size(*old(canvas)),
        canvas_pixels(*final(canvas)) == column(canvas_pixels(*old(canvas)), q, color),
{
    let ghost m = canvas_pixels(*canvas);
    canvas.put(q.x, q.y, color);
    let h = canvas.height();
    if h > 0 && q.y < h - 1 {
        let seg = get_line_bres(Point2d { x: q.x, y: q.y + 1 }, Point2d { x: q.x, y: h - 1 });
        proof {
            lemma_line_vertical(q.x, (q.y + 1) as u32, (h - 1) as u32);
        }
        let mut i: usize = 0;
        assert(canvas_pixels(*canvas) =~= Map::new(
            |p: (int, int)| m.dom().contains(p),
            |p: (int, int)|
                if p.0 == q.x && q.y <= p.1 && p.1 <= q.y + i {
                    color
                } else {
                    m[p]
                },
        ));
        while i < seg.len()
            invariant
                canvas_wf(*canvas),
                canvas_size(*canvas) == canvas_size(*old(canvas)),
                m == canvas_pixels(*old(canvas)),
                h == canvas_size(*canvas).1,
                q.y < h - 1,
                seg@ == Seq::new(
                    (h - 1 - (q.y + 1) + 1) as nat,
                    |j: int| Point2d { x: q.x, y: (q.y + 1 + j) as u32 },
                ),
                i <= seg.len(),
                canvas_pixels(*canvas) == Map::new(
                    |p: (int, int)| m.dom().contains(p),
                    |p: (int, int)|
                        if p.0 == q.x && q.y <= p.1 && p.1 <= q.y + i {
                            color
                        } else {
                            m[p]
                        },
                ),
            decreases seg.len() - i,
        {
            let v = seg[i];
            canvas.put(v.x, v.y, color);
            i = i + 1;
            assert(canvas_pixels(*canvas) =~= Map::new(
                |p: (int, int)| m.dom().contains(p),
                |p: (int, int)|
                    if p.0 == q.x && q.y <= p.1 && p.1 <= q.y + i {
                        color
                    } else {
                        m[p]
                    },
            ));
        }
    }
    assert(canvas_pixels(*canvas) =~= column(m, q, color));
}

/// Draws a ridge: each segment between consecutive points of `ridge` is
/// rasterized, and each of its pixels filled down to the bottom row.
pub fn draw_layer(canvas: &mut Canvas, ridge: &Vec<Point2d>, color: [u8; 4])
    requires
        canvas_wf(*old(canvas)),
    ensures
        canvas_wf(*final(canvas)),
        canvas_size(*final(canvas)) == canvas_size(*old(canvas)),
        canvas_pixels(*final(canvas)) == covered(
            canvas_pixels(*old(canvas)),
            ridge_pixels(ridge@),
            color,
        ),
{
    let ghost m = canvas_pixels(*canvas);
    if ridge.len() < 2 {
        assert(canvas_pixels(*canvas) =~= covered(m, ridge_pixels(ridge@), color));
        return;
    }
    let ghost mut done: Seq<Point2d> = Seq::empty();
    assert(ridge_pixels(ridge@.take(1)) =~= done);
    assert(canvas_pixels(*canvas) =~= covered(m, done, color));
    let mut j: usize = 0;
    while j + 1 < ridge.len()
        invariant
            canvas_wf(*canvas),
            canvas_size(*canvas) == canvas_size(*old(canvas)),
            m == canvas_pixels(*old(canvas)),
            j + 1 <= ridge.len(),
            done == ridge_pixels(ridge@.take(j + 1)),
            canvas_pixels(*canvas) == covered(m, done, color),
        decreases ridge.len() - j,
    {
        let seg = get_line_bres(ridge[j], ridge[j + 1]);
        let mut k: usize = 0;
        assert(done + seg@.take(0) =~= done);
        while k < seg.len()
            invariant
                canvas_wf(*canvas),
                canvas_size(*canvas) == canvas_size(*old(canvas)),
                m == canvas_pixels(*old(canvas)),
                k <= seg.len(),
                canvas_pixels(*canvas) == covered(m, done + seg@.take(k as int), color),
            decreases seg.len() - k,
        {
            let q = seg[k];
            fill_below(canvas, q, color);
            let ghost before = done + seg@.take(k as int);
            k = k + 1;
            assert(done + seg@.take(k as int) =~= before.push(q));
            assert forall|p: (int, int)| #[trigger]
                under(before.push(q), p) == (under(before, p) || (q.x == p.0 && q.y <= p.1)) by {
                lemma_under_push(before, q, p);
            }
            assert(canvas_pixels(*canvas) =~= covered(m, done + seg@.take(k as int), color));
        }
        proof {
            assert(seg@.take(k as int) =~= seg@);
            let t = ridge@.take(j + 2);
            assert(t.drop_last() =~= ridge@.take(j + 1));
            assert(t[t.len() - 2] == ridge@[j as int]);
            assert(t[t.len() - 1] == ridge@[j + 1]);
            done = done + seg@;
        }
        j = j + 1;
    }
    assert(ridge@.take(j + 1) =~= ridge@);
}

/// One terrain layer: its ridge runs from `start` to `end`, pass `p` of the
/// displacement takes its offsets from `draws[p]`, and it is filled with `color`.
pub struct Layer {
    pub start: Point2d,
    pub end: Point2d,
    pub draws: Vec<Vec<i64>>,
    pub color: [u8; 4],
}

pub open spec fn layer_ridge(l: Layer) -> Seq<Point2d> {
    ridge_of(l.start, l.end, draws_view(&l.draws))
}

/// `m` after the layers are drawn in order, each over the ones before it.
pub open spec fn layered(m: Pixels, layers: Seq<Layer>) -> Pixels
    decreases layers.len(),
{
    if layers.len() == 0 {
        m
    } else {
        covered(
            layered(m, layers.drop_last()),
            ridge_pixels(layer_ridge(layers.last())),
            layers.last().color,
        )
    }
}

pub open spec fn background(width: int, height: int, color: [u8; 4]) -> Pixels {
    Map::new(|p: (int, int)| rect(width, height).contains(p), |p: (int, int)| color)
}

/// The whole picture: sky, then the marker, then the layers from back to front.
pub open spec fn scene(
    width: int,
    height: int,
    sky: [u8; 4],
    marker_center: Point2d,
    marker_radius: int,
    marker_color: [u8; 4],
    layers: Seq<Layer>,
) -> Pixels {
    layered(
        marked(background(width, height, sky), marker_center, marker_radius, marker_color),
        layers,
    )
}

/// Paints the picture on a new canvas of `width` by `height`.
pub fn render(
    width: u32,
    height: u32,
    sky: [u8; 4],
    marker_center: Point2d,
    marker_radius: i32,
    marker_color: [u8; 4],
    layers: &Vec<Layer>,
) -> (r: Canvas)
    requires
        4 * (width as int) <= usize::MAX,
        4 * (width as int) * (height as int) <= usize::MAX,
        marker_radius >= 0,
        forall|i: int| 0 <= i < layers.len() ==> draws_fit(draws_view(&(#[trigger] layers[i]).draws)),
    ensures
        canvas_wf(r),
        canvas_size(r) == (width as int, height as int),
        canvas_pixels(r) == scene(
            width as int,
            height as int,
            sky,
            marker_center,
            marker_radius as int,
            marker_color,
            layers@,
        ),
{
    let mut canvas = Canvas::new(width, height);
    fill_background(&mut canvas, sky);
    assert(canvas_pixels(canvas) =~= background(width as int, height as int, sky));
    draw_marker(&mut canvas, marker_center, marker_radius, marker_color);
    let ghost base = canvas_pixels(canvas);
    let mut i: usize = 0;
    assert(layers@.take(0) =~= Seq::<Layer>::empty());
    while i < layers.len()
        invariant
            canvas_wf(canvas),
            canvas_size(canvas) == (width as int, height as int),
            base == marked(background(width as int, height as int, sky), marker_center, marker_radius as int, marker_color),
            forall|i: int| 0 <= i < layers.len() ==> draws_fit(draws_view(&(#[trigger] layers[i]).draws)),
            i <= layers.len(),
            canvas_pixels(canvas) == layered(base, layers@.take(i as int)),
        decreases layers.len() - i,
    {
        let layer = &layers[i];
        assert(draws_fit(draws_view(&layers[i as int].draws)));
        let ridge = midpoint_displacement(layer.start, layer.end, &layer.draws);
        draw_layer(&mut canvas, &ridge, layer.color);
        proof {
            let t = layers@.take(i + 1);
            assert(t.drop_last() =~= layers@.take(i as int));
            assert(t.last() == layers@[i as int]);
        }
        i = i + 1;
    }
    assert(layers@.take(i as int) =~= layers@);
    canvas
}

/// Where a farther and a nearer layer overlap, the nearer one, drawn later,
/// gives the pixel its color.
pub proof fn lemma_nearer_layer_wins(
    m: Pixels,
    back: Seq<Point2d>,
    back_color: [u8; 4],
    front: Seq<Point2d>,
    front_color: [u8; 4],
    p: (int, int),
)
    requires
        m.dom().contains(p),
        under(back, p),
        under(front, p),
    ensures
        covered(covered(m, back, back_color), front, front_color)[p] == front_color,
{
}

proof fn lemma_layered_dom(m: Pixels, layers: Seq<Layer>)
    ensures
        layered(m, layers).dom() == m.dom(),
    decreases layers.len(),
{
    if layers.len() > 0 {
        lemma_layered_dom(m, layers.drop_last());
        assert(layered(m, layers).dom() =~= m.dom());
    }
}

/// In a stack of layers drawn back to front, a pixel takes the color of the
/// last layer that covers it.
pub proof fn lemma_last_cover_wins(m: Pixels, layers: Seq<Layer>, k: int, p: (int, int))
    requires
        m.dom().contains(p),
        0 <= k < layers.len(),
        under(ridge_pixels(layer_ridge(layers[k])), p),
        forall|j: int|
            k < j < layers.len() ==> !under(ridge_pixels(layer_ridge(#[trigger] layers[j])), p),
    ensures
        layered(m, layers)[p] == layers[k].color,
    decreases layers.len(),
{
    let rest = layers.drop_last();
    lemma_layered_dom(m, rest);
    if k < layers.len() - 1 {
        assert forall|j: int| k < j < rest.len() implies !under(
            ridge_pixels(layer_ridge(#[trigger] rest[j])),
            p,
        ) by {
            assert(rest[j] == layers[j]);
        }
        assert(rest[k] == layers[k]);
        lemma_last_cover_wins(m, rest, k, p);
        assert(!under(ridge_pixels(layer_ridge(layers[layers.len() - 1])), p));
    }
}

} // verus!
