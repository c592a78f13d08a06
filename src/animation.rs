//! The per-frame update of the displayed point set toward its target.
//!
//! Displayed points are fixed-point vectors (see `fixed`). Each frame moves
//! every displayed point a fraction of the way toward its target and puts it
//! back on the unit sphere.
use vstd::prelude::*;
use crate::fixed::{abs, div_trunc, norm_sq, normalize, normalized, on_sphere, within, UNIT};

verus! {

/// Step fractions are counted in billionths of the remaining distance.
pub const STEP_SCALE: u64 = 1000000000;

/// The fraction gained per nanosecond of elapsed time, in billionths.
pub const STEP_RATE: u64 = 7;

/// The largest fraction of one frame, in billionths: three hundredths.
pub const STEP_CAP: u64 = 30000000;

/// The fraction of the remaining distance covered in a frame that lasted
/// `dt_ns` nanoseconds.
pub open spec fn step_for(dt_ns: int) -> int {
    if STEP_RATE * dt_ns < STEP_CAP {
        STEP_RATE * dt_ns
    } else {
        STEP_CAP as int
    }
}

/// Coordinate `c` moved the fraction `step` of the way toward `d`.
pub open spec fn lerp(c: int, d: int, step: int) -> int {
    c + div_trunc((d - c) * step, STEP_SCALE as int)
}

/// Point `p` moved the fraction `step` of the way toward `q`.
pub open spec fn moved(p: [i64; 3], q: [i64; 3], step: int) -> [i64; 3] {
    [
        lerp(p[0] as int, q[0] as int, step) as i64,
        lerp(p[1] as int, q[1] as int, step) as i64,
        lerp(p[2] as int, q[2] as int, step) as i64,
    ]
}

/// Point `p` moved the fraction `step` of the way toward `q`, then put back
/// on the unit sphere.
pub open spec fn interpolated(p: [i64; 3], q: [i64; 3], step: int) -> [i64; 3] {
    normalized(moved(p, q, step))
}

proof fn lemma_lerp_within_unit(c: int, d: int, step: int)
    requires
        -UNIT <= c <= UNIT,
        -UNIT <= d <= UNIT,
        0 <= step <= STEP_SCALE,
    ensures
        -UNIT <= lerp(c, d, step) <= UNIT,
{
    let m = abs(d - c);
    let b = STEP_SCALE as int;
    assert(0 <= m * step <= m * b) by (nonlinear_arith)
        requires
            0 <= step <= b,
            0 <= m,
    ;
    assert((m * step) / b <= m) by (nonlinear_arith)
        requires
            0 <= m * step <= m * b,
            0 < b,
    ;
    assert(abs((d - c) * step) == m * step) by (nonlinear_arith)
        requires
            m == abs(d - c),
            0 <= step,
    ;
    assert(0 <= (m * step) / b) by (nonlinear_arith)
        requires
            0 <= m * step,
            0 < b,
    ;
    let x = (d - c) * step;
    if x >= 0 {
        assert(x == m * step);
        assert(div_trunc(x, b) == (m * step) / b);
        if d < c {
            assert(x <= 0) by (nonlinear_arith)
                requires
                    d < c,
                    0 <= step,
                    x == (d - c) * step,
            ;
            assert(m * step == 0);
        }
    } else {
        assert(-x == m * step);
        assert(div_trunc(x, b) == -((m * step) / b));
        if d >= c {
            assert(x >= 0) by (nonlinear_arith)
                requires
                    d >= c,
                    0 <= step,
                    x == (d - c) * step,
            ;
        }
    }
}

/// `p` has its coordinates within one unit and its length at least
/// `UNIT - 5`: a unit vector up to rounding.
pub open spec fn near_sphere(p: [i64; 3]) -> bool {
    within(p, UNIT as int) && (UNIT - 5) * (UNIT - 5) <= norm_sq(p)
}

/// Every point of `s` is a unit vector up to rounding.
pub open spec fn all_near_sphere(s: Seq<[i64; 3]>) -> bool {
    forall|i: int| 0 <= i < s.len() ==> near_sphere(#[trigger] s[i])
}

/// Every point of `s` lies on the sphere of radius `UNIT`, up to rounding.
pub open spec fn all_on_sphere(s: Seq<[i64; 3]>) -> bool {
    forall|i: int| 0 <= i < s.len() ==> on_sphere(#[trigger] s[i])
}

/// One frame moves a coordinate by at most three hundredths of two units.
proof fn lemma_step_small(c: int, d: int, step: int)
    requires
        -UNIT <= c <= UNIT,
        -UNIT <= d <= UNIT,
        0 <= step <= STEP_CAP,
    ensures
        abs(lerp(c, d, step) - c) <= 62914,
{
    let x = (d - c) * step;
    let b = STEP_SCALE as int;
    assert(abs(x) == abs(d - c) * step) by (nonlinear_arith)
        requires
            x == (d - c) * step,
            0 <= step,
    ;
    assert(abs(d - c) * step <= 2097152 * 30000000) by (nonlinear_arith)
        requires
            abs(d - c) <= 2097152,
            0 <= step <= 30000000,
    ;
    assert(abs(x) / b <= 62914) by (nonlinear_arith)
        requires
            0 <= abs(x) <= 62914560000000,
            b == 1000000000,
    ;
    assert(abs(div_trunc(x, b)) == abs(x) / b);
}

/// A frame never moves a point that is a unit vector up to rounding to the
/// origin: the moved point still points to the same side as the old one.
proof fn lemma_moved_nonzero(p: [i64; 3], q: [i64; 3], step: int)
    requires
        near_sphere(p),
        within(q, UNIT as int),
        0 <= step <= STEP_CAP,
    ensures
        norm_sq(moved(p, q, step)) > 0,
{
    let m = moved(p, q, step);
    lemma_step_small(p[0] as int, q[0] as int, step);
    lemma_step_small(p[1] as int, q[1] as int, step);
    lemma_step_small(p[2] as int, q[2] as int, step);
    lemma_lerp_within_unit(p[0] as int, q[0] as int, step);
    lemma_lerp_within_unit(p[1] as int, q[1] as int, step);
    lemma_lerp_within_unit(p[2] as int, q[2] as int, step);
    let d0 = m[0] - p[0];
    let d1 = m[1] - p[1];
    let d2 = m[2] - p[2];
    assert(abs(d0) <= 62914 && abs(d1) <= 62914 && abs(d2) <= 62914);
    let u = UNIT as int;
    assert(p[0] * d0 + p[1] * d1 + p[2] * d2 >= -3 * u * 62914) by (nonlinear_arith)
        requires
            -u <= p[0] <= u,
            -u <= p[1] <= u,
            -u <= p[2] <= u,
            abs(d0) <= 62914,
            abs(d1) <= 62914,
            abs(d2) <= 62914,
            0 < u,
    ;
    let dot = p[0] * m[0] + p[1] * m[1] + p[2] * m[2];
    assert(dot == norm_sq(p) + (p[0] * d0 + p[1] * d1 + p[2] * d2)) by (nonlinear_arith)
        requires
            dot == p[0] * m[0] + p[1] * m[1] + p[2] * m[2],
            m[0] == p[0] + d0,
            m[1] == p[1] + d1,
            m[2] == p[2] + d2,
    ;
    assert(dot > 0);
    if norm_sq(m) <= 0 {
        assert(m[0] == 0 && m[1] == 0 && m[2] == 0) by (nonlinear_arith)
            requires
                m[0] * m[0] + m[1] * m[1] + m[2] * m[2] <= 0,
        ;
    }
}

/// The displayed set after one frame of `dt_ns` nanoseconds toward `target`.
pub open spec fn advanced(points: Seq<[i64; 3]>, target: Seq<[i64; 3]>, dt_ns: int) -> Seq<
    [i64; 3],
> {
    let r = reconciled(points, target);
    Seq::new(target.len(), |i: int| interpolated(r[i], target[i], step_for(dt_ns)))
}

/// The fraction of the remaining distance covered in a frame of `dt_ns`
/// nanoseconds: `STEP_RATE` billionths per nanosecond, at most `STEP_CAP`.
pub fn step_fraction(dt_ns: u64) -> (r: u64)
    ensures
        r == step_for(dt_ns as int),
        r <= STEP_CAP,
{
    if dt_ns < STEP_CAP / STEP_RATE + 1 {
        let s: u64 = dt_ns * STEP_RATE;
        if s < STEP_CAP {
            s
        } else {
            STEP_CAP
        }
    } else {
        STEP_CAP
    }
}

/// Coordinate `c` moved the fraction `step` of the way toward `d`.
fn lerp_coord(c: i64, d: i64, step: u64) -> (r: i64)
    requires
        -UNIT <= c <= UNIT,
        -UNIT <= d <= UNIT,
        step <= STEP_CAP,
    ensures
        r == lerp(c as int, d as int, step as int),
        -UNIT <= r <= UNIT,
{
    let diff: i64 = d - c;
    let m: u64 = if diff >= 0 { diff as u64 } else { (-diff) as u64 };
    assert(m * step <= m * STEP_SCALE) by (nonlinear_arith)
        requires
            step <= STEP_CAP,
    ;
    assert(m * STEP_SCALE <= 2097152 * 1000000000) by (nonlinear_arith)
        requires
            m <= 2097152,
    ;
    assert(diff >= 0 ==> diff * step == m * step && diff * step >= 0) by (nonlinear_arith)
        requires
            diff >= 0 ==> m == diff,
            step >= 0,
    ;
    assert(diff < 0 ==> -(diff * step) == m * step) by (nonlinear_arith)
        requires
            diff < 0 ==> m == -diff,
    ;
    let q: u64 = m * step / STEP_SCALE;
    assert(q <= m) by (nonlinear_arith)
        requires
            q == (m * step) as int / 1000000000int,
            m * step <= m * 1000000000,
    ;
    if diff >= 0 {
        c + q as i64
    } else {
        c - q as i64
    }
}

/// Moves every displayed point the fraction `step` of the way toward its
/// target and puts it back on the unit sphere.
pub fn interpolate(points: &mut Vec<[i64; 3]>, target: &[[i64; 3]], step: u64)
    requires
        old(points)@.len() == target@.len(),
        all_near_sphere(old(points)@),
        all_near_sphere(target@),
        step <= STEP_CAP,
    ensures
        final(points)@.len() == target@.len(),
        forall|i: int|
            0 <= i < target@.len() ==> #[trigger] final(points)@[i] == interpolated(
                old(points)@[i],
                target@[i],
                step as int,
            ),
        all_on_sphere(final(points)@),
        all_near_sphere(final(points)@),
{
    let n: usize = points.len();
    let mut i: usize = 0;
    while i < n
        invariant
            n == target@.len(),
            points@.len() == n,
            i <= n,
            step <= STEP_CAP,
            all_near_sphere(target@),
            all_near_sphere(old(points)@),
            forall|j: int| i <= j < n ==> #[trigger] points@[j] == old(points)@[j],
            forall|j: int|
                0 <= j < i ==> #[trigger] points@[j] == interpolated(
                    old(points)@[j],
                    target@[j],
                    step as int,
                ),
            forall|j: int| 0 <= j < i ==> on_sphere(#[trigger] points@[j]),
            all_near_sphere(points@),
        decreases n - i,
    {
        let p: [i64; 3] = points[i];
        let q: [i64; 3] = target[i];
        assert(near_sphere(p));
        assert(near_sphere(q));
        let moved_point: [i64; 3] = [
            lerp_coord(p[0], q[0], step),
            lerp_coord(p[1], q[1], step),
            lerp_coord(p[2], q[2], step),
        ];
        proof {
            lemma_moved_nonzero(p, q, step as int);
            assert(moved_point == moved(p, q, step as int));
        }
        let r: [i64; 3] = normalize(&moved_point);
        points.set(i, r);
        i = i + 1;
    }
}

/// One frame of the animation: matches the length of the displayed set to
/// the target's, then moves every point toward its target by the fraction
/// that `dt_ns` elapsed nanoseconds give. Every displayed point ends on the
/// sphere of radius `UNIT`, up to rounding.
pub fn advance_frame(points: &mut Vec<[i64; 3]>, target: &[[i64; 3]], dt_ns: u64)
    requires
        all_near_sphere(old(points)@),
        all_near_sphere(target@),
    ensures
        final(points)@ == advanced(old(points)@, target@, dt_ns as int),
        all_on_sphere(final(points)@),
        all_near_sphere(final(points)@),
{
    let ghost start = points@;
    reconcile_lengths(points, target);
    assert(all_near_sphere(points@)) by {
        assert forall|i: int| 0 <= i < points@.len() implies near_sphere(#[trigger] points@[i]) by {
            if i < start.len() {
                assert(near_sphere(start[i]));
            } else {
                assert(near_sphere(target@[i]));
            }
        }
    }
    let step: u64 = step_fraction(dt_ns);
    interpolate(points, target, step);
    assert(points@ =~= advanced(start, target@, dt_ns as int));
}

/// The displayed set after its length is matched to the target's: the points
/// it shares with the target keep their place, new ones start at their target.
pub open spec fn reconciled<T>(points: Seq<T>, target: Seq<T>) -> Seq<T> {
    Seq::new(target.len(), |i: int| if i < points.len() { points[i] } else { target[i] })
}

/// Matches the length of the displayed set to the target's: a longer target
/// appends its own tail, a shorter one truncates the displayed set.
pub fn reconcile_lengths<T: Copy>(points: &mut Vec<T>, target: &[T])
    ensures
        final(points)@ == reconciled(old(points)@, target@),
{
    let n: usize = target.len();
    if points.len() < n {
        let mut i: usize = points.len();
        while i < n
            invariant
                n == target@.len(),
                i <= n,
                old(points)@.len() <= i,
                points@ =~= reconciled(old(points)@, target@).take(i as int),
            decreases n - i,
        {
            points.push(target[i]);
            i = i + 1;
            assert(points@ =~= reconciled(old(points)@, target@).take(i as int));
        }
        assert(points@ =~= reconciled(old(points)@, target@));
    } else {
        points.truncate(n);
        assert(points@ =~= reconciled(old(points)@, target@));
    }
}

/// Growing the displayed set keeps every displayed point where it was and puts
/// each new point at its target; shrinking keeps the leading points.
pub proof fn lemma_reconcile_keeps_trajectories<T>(points: Seq<T>, target: Seq<T>)
    ensures
        reconciled(points, target).len() == target.len(),
        forall|i: int|
            0 <= i < points.len() && i < target.len() ==> #[trigger] reconciled(points, target)[i]
                == points[i],
        forall|i: int|
            points.len() <= i < target.len() ==> #[trigger] reconciled(points, target)[i]
                == target[i],
{
}

} // verus!
