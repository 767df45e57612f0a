use vstd::prelude::*;
use vstd::arithmetic::power2::{pow2, lemma_pow2_unfold, lemma_pow2_adds};
use crate::point::Point2d;

verus! {

/// `v` clamped into the range of `u32`.
pub open spec fn clamp_u32(v: int) -> u32 {
    if v < 0 {
        0
    } else if v > u32::MAX {
        u32::MAX
    } else {
        v as u32
    }
}

/// The truncating midpoint of `p` and `q`, moved vertically by `offset`;
/// a result above the top row is pulled back onto it.
pub open spec fn displaced_mid(p: Point2d, q: Point2d, offset: int) -> Point2d {
    Point2d { x: ((p.x + q.x) / 2) as u32, y: clamp_u32((p.y + q.y) / 2 + offset) }
}

/// One pass: a displaced midpoint is inserted between each adjacent pair,
/// the pair at `k` taking `offsets[k]`.
pub open spec fn refine(points: Seq<Point2d>, offsets: Seq<i64>) -> Seq<Point2d> {
    Seq::new(
        (2 * points.len() - 1) as nat,
        |i: int|
            if i % 2 == 0 {
                points[i / 2]
            } else {
                displaced_mid(points[i / 2], points[i / 2 + 1], offsets[i / 2] as int)
            },
    )
}

/// The ridge from `a` to `b` after one pass per entry of `draws`.
pub open spec fn ridge_of(a: Point2d, b: Point2d, draws: Seq<Seq<i64>>) -> Seq<Point2d>
    decreases draws.len(),
{
    if draws.len() == 0 {
        seq![a, b]
    } else {
        refine(ridge_of(a, b, draws.drop_last()), draws.last())
    }
}

/// Pass `p` displaces one midpoint per segment of the ridge so far: `2^p` of them.
pub open spec fn draws_fit(draws: Seq<Seq<i64>>) -> bool {
    forall|p: int| 0 <= p < draws.len() ==> (#[trigger] draws[p]).len() == pow2(p as nat)
}

pub open spec fn draws_view(draws: &Vec<Vec<i64>>) -> Seq<Seq<i64>> {
    draws@.map_values(|v: Vec<i64>| v@)
}

fn midpoint_of(p: Point2d, q: Point2d, offset: i64) -> (r: Point2d)
    ensures
        r == displaced_mid(p, q, offset as int),
{
    let mx: u64 = (p.x as u64 + q.x as u64) / 2;
    let v: i128 = ((p.y as i128 + q.y as i128) / 2) + offset as i128;
    let y: u32 = if v < 0 {
        0
    } else if v > 0xffff_ffff {
        0xffff_ffff
    } else {
        v as u32
    };
    Point2d { x: mx as u32, y }
}

/// Inserts between each adjacent pair of `points` its midpoint, moved
/// vertically by the matching entry of `offsets` and kept at or below the top row.
pub fn displace_pass(points: &Vec<Point2d>, offsets: &Vec<i64>) -> (r: Vec<Point2d>)
    requires
        points.len() == offsets.len() + 1,
    ensures
        r@ == refine(points@, offsets@),
{
    let mut out: Vec<Point2d> = Vec::new();
    let mut i: usize = 0;
    while i < offsets.len()
        invariant
            points.len() == offsets.len() + 1,
            0 <= i <= offsets.len(),
            out.len() == 2 * i,
            forall|j: int| 0 <= j < 2 * i ==> out@[j] == refine(points@, offsets@)[j],
        decreases offsets.len() - i,
    {
        out.push(points[i]);
        out.push(midpoint_of(points[i], points[i + 1], offsets[i]));
        i = i + 1;
    }
    out.push(points[i]);
    assert(out@ =~= refine(points@, offsets@));
    out
}

/// After the passes of `draws` (one fewer than the iterations) a ridge holds
/// `2^passes + 1` points.
pub proof fn lemma_ridge_len(a: Point2d, b: Point2d, draws: Seq<Seq<i64>>)
    requires
        draws_fit(draws),
    ensures
        ridge_of(a, b, draws).len() == pow2(draws.len()) + 1,
    decreases draws.len(),
{
    if draws.len() == 0 {
        vstd::arithmetic::power2::lemma2_to64();
    } else {
        let rest = draws.drop_last();
        assert(draws_fit(rest)) by {
            assert forall|p: int| 0 <= p < rest.len() implies (#[trigger] rest[p]).len() == pow2(
                p as nat,
            ) by {
                assert(rest[p] == draws[p]);
            }
        }
        lemma_ridge_len(a, b, rest);
        lemma_pow2_unfold(draws.len());
    }
}

/// Builds a ridge from `a` to `b` by one pass of midpoint displacement per
/// entry of `draws` (one fewer than the iterations, counting the straight
/// start); pass `p` takes its vertical offsets from `draws[p]`.
pub fn midpoint_displacement(a: Point2d, b: Point2d, draws: &Vec<Vec<i64>>) -> (r: Vec<Point2d>)
    requires
        draws_fit(draws_view(draws)),
    ensures
        r@ == ridge_of(a, b, draws_view(draws)),
{
    let ghost dv = draws_view(draws);
    let mut points: Vec<Point2d> = vec![a, b];
    let mut p: usize = 0;
    assert(dv.take(0) =~= Seq::<Seq<i64>>::empty());
    assert(points@ =~= seq![a, b]);
    while p < draws.len()
        invariant
            dv == draws_view(draws),
            draws_fit(dv),
            0 <= p <= draws.len(),
            points@ == ridge_of(a, b, dv.take(p as int)),
        decreases draws.len() - p,
    {
        proof {
            assert(draws_fit(dv.take(p as int))) by {
                assert forall|k: int| 0 <= k < p implies (#[trigger] dv.take(p as int)[k]).len()
                    == pow2(k as nat) by {
                    assert(dv.take(p as int)[k] == dv[k]);
                }
            }
            lemma_ridge_len(a, b, dv.take(p as int));
            assert(dv[p as int] == draws[p as int]@);
        }
        points = displace_pass(&points, &draws[p]);
        proof {
            assert(dv.take(p + 1).drop_last() =~= dv.take(p as int));
            assert(dv.take(p + 1).last() == dv[p as int]);
        }
        p = p + 1;
    }
    assert(dv.take(p as int) =~= dv);
    points
}

/// A ridge always begins at `a` and ends at `b`, whatever the draws.
pub proof fn lemma_ridge_endpoints(a: Point2d, b: Point2d, draws: Seq<Seq<i64>>)
    requires
        draws_fit(draws),
    ensures
        ridge_of(a, b, draws)[0] == a,
        ridge_of(a, b, draws).last() == b,
    decreases draws.len(),
{
    lemma_ridge_len(a, b, draws);
    if draws.len() > 0 {
        let rest = draws.drop_last();
        assert(draws_fit(rest)) by {
            assert forall|p: int| 0 <= p < rest.len() implies (#[trigger] rest[p]).len() == pow2(
                p as nat,
            ) by {
                assert(rest[p] == draws[p]);
            }
        }
        lemma_ridge_endpoints(a, b, rest);
        lemma_ridge_len(a, b, rest);
        let prev = ridge_of(a, b, rest);
        let n = prev.len();
        assert(ridge_of(a, b, draws)[2 * n - 2] == prev[n - 1]);
    }
}

/// A displaced midpoint never goes above the top row: however far up its
/// draw pushes it, its y is the clamped value, which is 0 where the midpoint
/// plus the draw is negative.
pub proof fn lemma_displace_floor(points: Seq<Point2d>, offsets: Seq<i64>, k: int)
    requires
        points.len() == offsets.len() + 1,
        0 <= k < offsets.len(),
    ensures
        refine(points, offsets)[2 * k + 1].y as int >= 0,
        refine(points, offsets)[2 * k + 1].y == clamp_u32(
            (points[k].y + points[k + 1].y) / 2 + offsets[k],
        ),
        (points[k].y + points[k + 1].y) / 2 + offsets[k] <= 0 ==> refine(points, offsets)[2 * k
            + 1].y == 0,
{
    assert((2 * k + 1) / 2 == k);
    assert((2 * k + 1) % 2 == 1);
}

proof fn lemma_fit_take(draws: Seq<Seq<i64>>, k: int)
    requires
        draws_fit(draws),
        0 <= k <= draws.len(),
    ensures
        draws_fit(draws.take(k)),
{
    assert forall|p: int| 0 <= p < k implies (#[trigger] draws.take(k)[p]).len() == pow2(
        p as nat,
    ) by {
        assert(draws.take(k)[p] == draws[p]);
    }
}

/// Later passes only insert points: point `i` of the ridge after `k` passes
/// is point `i * 2^(passes - k)` of the final ridge.
pub proof fn lemma_ridge_keeps(a: Point2d, b: Point2d, draws: Seq<Seq<i64>>, k: int, i: int)
    requires
        draws_fit(draws),
        0 <= k <= draws.len(),
        0 <= i < ridge_of(a, b, draws.take(k)).len(),
    ensures
        i * pow2((draws.len() - k) as nat) < ridge_of(a, b, draws).len(),
        ridge_of(a, b, draws)[i * pow2((draws.len() - k) as nat)] == ridge_of(a, b, draws.take(k))[i],
    decreases draws.len(),
{
    let n = draws.len();
    lemma_fit_take(draws, k);
    lemma_ridge_len(a, b, draws.take(k));
    lemma_ridge_len(a, b, draws);
    if k == n {
        assert(draws.take(k) =~= draws);
        vstd::arithmetic::power2::lemma2_to64();
        assert(pow2((n - k) as nat) == 1);
        assert(i * pow2((n - k) as nat) == i);
    } else {
        let rest = draws.drop_last();
        lemma_fit_take(draws, n - 1);
        assert(rest =~= draws.take(n - 1));
        assert(rest.take(k) =~= draws.take(k));
        lemma_ridge_keeps(a, b, rest, k, i);
        lemma_ridge_len(a, b, rest);
        let e = (n - 1 - k) as nat;
        let j = i * pow2(e);
        lemma_pow2_unfold((n - k) as nat);
        assert(pow2((n - k) as nat) == 2 * pow2(e));
        assert(i * pow2((n - k) as nat) == 2 * j) by (nonlinear_arith)
            requires pow2((n - k) as nat) == 2 * pow2(e), j == i * pow2(e);
        let prev = ridge_of(a, b, rest);
        assert(j < prev.len());
        assert(prev[j] == ridge_of(a, b, draws.take(k))[i]);
        let cur = ridge_of(a, b, draws);
        assert(cur == refine(prev, draws.last()));
        assert(cur.len() == 2 * prev.len() - 1);
        assert(2 * j < cur.len());
        assert((2 * j) / 2 == j && (2 * j) % 2 == 0);
        assert(cur[2 * j] == prev[j]);
        assert(i * pow2((n - k) as nat) == 2 * j);
    }
}

/// A midpoint that some pass pulls back onto the top row is still there, at
/// row 0, in the final ridge: no later pass moves or wraps it.
pub proof fn lemma_ridge_floor(a: Point2d, b: Point2d, draws: Seq<Seq<i64>>, k: int, m: int)
    requires
        draws_fit(draws),
        0 <= k < draws.len(),
        0 <= m < pow2(k as nat),
        (ridge_of(a, b, draws.take(k))[m].y + ridge_of(a, b, draws.take(k))[m + 1].y) / 2
            + draws[k][m] <= 0,
    ensures
        (2 * m + 1) * pow2((draws.len() - k - 1) as nat) < ridge_of(a, b, draws).len(),
        ridge_of(a, b, draws)[(2 * m + 1) * pow2((draws.len() - k - 1) as nat)].y == 0,
{
    let prev = ridge_of(a, b, draws.take(k));
    let next = draws.take(k + 1);
    lemma_fit_take(draws, k);
    lemma_fit_take(draws, k + 1);
    lemma_ridge_len(a, b, draws.take(k));
    lemma_ridge_len(a, b, next);
    assert(next.drop_last() =~= draws.take(k));
    assert(next.last() == draws[k]);
    assert(ridge_of(a, b, next) == refine(prev, draws[k]));
    lemma_displace_floor(prev, draws[k], m);
    lemma_ridge_keeps(a, b, draws, k + 1, 2 * m + 1);
}

} // verus!
