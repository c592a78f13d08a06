//! Fixed-point vectors: a coordinate `c` stands for the real number
//! `c / UNIT`, so a unit vector has squared length close to `UNIT * UNIT`.
use vstd::prelude::*;

verus! {

/// The fixed-point representation of one.
pub const UNIT: i64 = 1048576;

/// The largest coordinate magnitude that `normalize` accepts.
pub const MAX_MAGNITUDE: i64 = 1073741824;

/// The squared Euclidean length of `p`.
pub open spec fn norm_sq(p: [i64; 3]) -> int {
    p[0] * p[0] + p[1] * p[1] + p[2] * p[2]
}

/// The absolute value.
pub open spec fn abs(c: int) -> int {
    if c < 0 {
        -c
    } else {
        c
    }
}

/// Every coordinate of `p` lies within `m`.
pub open spec fn within(p: [i64; 3], m: int) -> bool {
    -m <= p[0] <= m && -m <= p[1] <= m && -m <= p[2] <= m
}

/// `p` lies on the sphere of radius `UNIT`, up to five units of rounding:
/// `UNIT - 5 <= |p| <= UNIT`.
pub open spec fn on_sphere(p: [i64; 3]) -> bool {
    (UNIT - 5) * (UNIT - 5) <= norm_sq(p) <= UNIT * UNIT
}

/// `r` is the square root of the positive integer `x`, rounded up.
pub open spec fn is_ceil_sqrt(r: int, x: int) -> bool {
    0 < r && (r - 1) * (r - 1) < x <= r * r
}

/// The square root of the positive integer `x`, rounded up.
pub open spec fn ceil_sqrt(x: int) -> int {
    choose|r: int| is_ceil_sqrt(r, x)
}

/// The length of `p` in units of `1 / UNIT`, rounded up.
pub open spec fn fixed_length(p: [i64; 3]) -> int {
    ceil_sqrt(norm_sq(p) * (UNIT * UNIT))
}

/// Division rounded toward zero, as integer division does in Rust.
pub open spec fn div_trunc(a: int, b: int) -> int {
    if a >= 0 {
        a / b
    } else {
        -((-a) / b)
    }
}

/// Coordinate `c` of a vector whose length is `len / UNIT`, rescaled to length
/// `UNIT`: `c * UNIT / (len / UNIT)`, rounded toward zero.
pub open spec fn rescale(c: int, len: int) -> int {
    div_trunc(c * (UNIT * UNIT), len)
}

/// `p` divided by its length, in fixed point; the zero vector stays zero.
pub open spec fn normalized(p: [i64; 3]) -> [i64; 3] {
    let len = fixed_length(p);
    if norm_sq(p) == 0 {
        [0, 0, 0]
    } else {
        [
            rescale(p[0] as int, len) as i64,
            rescale(p[1] as int, len) as i64,
            rescale(p[2] as int, len) as i64,
        ]
    }
}

proof fn lemma_ceil_sqrt_unique(r: int, x: int)
    requires
        is_ceil_sqrt(r, x),
    ensures
        ceil_sqrt(x) == r,
{
    let s = ceil_sqrt(x);
    assert(is_ceil_sqrt(s, x));
    if s < r {
        assert(s * s <= (r - 1) * (r - 1)) by (nonlinear_arith)
            requires
                0 < s <= r - 1,
        ;
    } else if r < s {
        assert(r * r <= (s - 1) * (s - 1)) by (nonlinear_arith)
            requires
                0 < r <= s - 1,
        ;
    }
}

/// The square root of `x`, rounded up.
fn ceil_sqrt_u128(x: u128) -> (r: u128)
    requires
        0 < x <= 5070602400912917605986812821504,
    ensures
        is_ceil_sqrt(r as int, x as int),
        r <= 2251799813685248,
{
    let mut lo: u128 = 0;
    let mut hi: u128 = 2251799813685248;
    assert(2251799813685248u128 * 2251799813685248u128 == 5070602400912917605986812821504u128);
    while hi - lo > 1
        invariant
            lo < hi <= 2251799813685248,
            lo * lo < x,
            x <= hi * hi,
        decreases hi - lo,
    {
        let mid: u128 = lo + (hi - lo) / 2;
        assert(mid * mid <= 2251799813685248u128 * 2251799813685248u128) by (nonlinear_arith)
            requires
                mid <= 2251799813685248u128,
        ;
        if mid * mid < x {
            lo = mid;
        } else {
            hi = mid;
        }
    }
    assert(hi == lo + 1);
    hi
}

proof fn lemma_coord_below_root(c: int, l: int, y: int)
    requires
        c * c * (UNIT * UNIT) <= y,
        y <= l * l,
        0 < l,
    ensures
        abs(c) * UNIT <= l,
{
    let a = abs(c) * UNIT;
    assert(a * a == c * c * (UNIT * UNIT)) by (nonlinear_arith)
        requires
            a == abs(c) * UNIT,
    ;
    if a > l {
        assert(l * l < a * a) by (nonlinear_arith)
            requires
                0 < l < a,
        ;
    }
}

/// `a * UNIT * UNIT / len` rounded toward zero, for `|a| * UNIT <= len`.
fn rescale_coord(a: i64, len: u128) -> (r: i64)
    requires
        0 < len <= 2251799813685248,
        -MAX_MAGNITUDE <= a <= MAX_MAGNITUDE,
        abs(a as int) * UNIT <= len,
    ensures
        r == rescale(a as int, len as int),
        abs(r as int) * len <= abs(a as int) * (UNIT * UNIT) < (abs(r as int) + 1) * len,
        -UNIT <= r <= UNIT,
{
    let m: u128 = if a >= 0 { a as u128 } else { (-a) as u128 };
    let uu: u128 = (UNIT as u128) * (UNIT as u128);
    assert(m * uu <= 1073741824u128 * 1099511627776u128) by (nonlinear_arith)
        requires
            m <= 1073741824u128,
            uu == 1099511627776u128,
    ;
    let q: u128 = m * uu / len;
    proof {
        let mi = m as int;
        let li = len as int;
        let n = mi * 1099511627776;
        vstd::arithmetic::div_mod::lemma_fundamental_div_mod(n, li);
        assert(q * li <= n < (q + 1) * li) by (nonlinear_arith)
            requires
                n == li * (n / li) + n % li,
                0 <= n % li < li,
                q == n / li,
        ;
        assert(q <= UNIT) by (nonlinear_arith)
            requires
                q * li <= n,
                n == mi * (1048576 * 1048576),
                mi * 1048576 <= li,
                0 < li,
        ;
        assert(mi * (UNIT * UNIT) == abs(a * (UNIT * UNIT))) by (nonlinear_arith)
            requires
                mi == abs(a as int),
        ;
    }
    if a >= 0 {
        q as i64
    } else {
        -(q as i64)
    }
}

proof fn lemma_square_scaled(c: int, k: int)
    requires
        0 <= k,
    ensures
        (abs(c) * k) * (abs(c) * k) == (c * c) * (k * k),
{
    assert((abs(c) * k) * (abs(c) * k) == (abs(c) * abs(c)) * (k * k)) by (nonlinear_arith);
    assert(abs(c) * abs(c) == c * c) by (nonlinear_arith);
}

proof fn lemma_sum_scaled(e0: int, e1: int, e2: int, k: int)
    ensures
        e0 * k + e1 * k + e2 * k == (e0 + e1 + e2) * k,
        k * (e0 + e1 + e2) == (e0 + e1 + e2) * k,
{
    assert(e0 * k + e1 * k + e2 * k == (e0 + e1 + e2) * k) by (nonlinear_arith);
    assert(k * (e0 + e1 + e2) == (e0 + e1 + e2) * k) by (nonlinear_arith);
}

/// `q * l <= a < (q + 1) * l` carried over to squares.
proof fn lemma_square_between(q: int, l: int, a: int)
    requires
        0 <= q,
        0 < l,
        q * l <= a < (q + 1) * l,
    ensures
        (q * q) * (l * l) <= a * a,
        a * a < ((q + 1) * (q + 1)) * (l * l),
{
    let lo = q * l;
    let hi = (q + 1) * l;
    assert(0 <= lo) by (nonlinear_arith)
        requires
            0 <= q,
            0 < l,
            lo == q * l,
    ;
    assert(lo * lo <= a * a) by (nonlinear_arith)
        requires
            0 <= lo <= a,
    ;
    assert(a * a < hi * hi) by (nonlinear_arith)
        requires
            0 <= a < hi,
    ;
    assert(lo * lo == (q * q) * (l * l)) by (nonlinear_arith)
        requires
            lo == q * l,
    ;
    assert(hi * hi == ((q + 1) * (q + 1)) * (l * l)) by (nonlinear_arith)
        requires
            hi == (q + 1) * l,
    ;
}

/// From the rounding of each coordinate, the rescaled point lies on the sphere.
proof fn lemma_rescaled_on_sphere(q: Seq<int>, c: Seq<int>, len: int, x: int)
    requires
        q.len() == 3,
        c.len() == 3,
        x == c[0] * c[0] + c[1] * c[1] + c[2] * c[2],
        1 <= x,
        is_ceil_sqrt(len, x * (UNIT * UNIT)),
        forall|k: int|
            0 <= k < 3 ==> 0 <= #[trigger] q[k] && q[k] * len <= abs(c[k]) * (UNIT * UNIT) < (q[k]
                + 1) * len,
    ensures
        (UNIT - 5) * (UNIT - 5) <= q[0] * q[0] + q[1] * q[1] + q[2] * q[2] <= UNIT * UNIT,
{
    let u = UNIT as int;
    let uu = u * u;
    let l = len;
    let y = x * uu;
    let s = q[0] * q[0] + q[1] * q[1] + q[2] * q[2];
    let t = (q[0] + 1) * (q[0] + 1) + (q[1] + 1) * (q[1] + 1) + (q[2] + 1) * (q[2] + 1);
    assert(0 <= q[0] && 0 <= q[1] && 0 <= q[2]);
    let a0 = abs(c[0]) * uu;
    let a1 = abs(c[1]) * uu;
    let a2 = abs(c[2]) * uu;
    lemma_square_scaled(c[0], uu);
    lemma_square_scaled(c[1], uu);
    lemma_square_scaled(c[2], uu);
    lemma_sum_scaled(c[0] * c[0], c[1] * c[1], c[2] * c[2], uu * uu);
    assert(uu * y == x * (uu * uu)) by (nonlinear_arith)
        requires
            y == x * uu,
    ;
    assert(a0 * a0 + a1 * a1 + a2 * a2 == uu * y);
    assert(q[0] * l <= a0 < (q[0] + 1) * l);
    assert(q[1] * l <= a1 < (q[1] + 1) * l);
    assert(q[2] * l <= a2 < (q[2] + 1) * l);
    // Upper bound: len * len * s <= uu * y <= uu * len * len.
    lemma_square_between(q[0], l, a0);
    lemma_square_between(q[1], l, a1);
    lemma_square_between(q[2], l, a2);
    lemma_sum_scaled(q[0] * q[0], q[1] * q[1], q[2] * q[2], l * l);
    lemma_sum_scaled((q[0] + 1) * (q[0] + 1), (q[1] + 1) * (q[1] + 1), (q[2] + 1) * (q[2] + 1), l * l);
    assert(l * l * s <= a0 * a0 + a1 * a1 + a2 * a2);
    assert(uu * y <= uu * (l * l)) by (nonlinear_arith)
        requires
            y <= l * l,
            0 < uu,
    ;
    assert(s <= uu) by (nonlinear_arith)
        requires
            l * l * s <= uu * (l * l),
            0 < l,
    ;
    // Each coordinate is then at most UNIT.
    assert(q[0] <= u && q[1] <= u && q[2] <= u) by (nonlinear_arith)
        requires
            s == q[0] * q[0] + q[1] * q[1] + q[2] * q[2],
            s <= u * u,
            0 <= q[0],
            0 <= q[1],
            0 <= q[2],
            0 < u,
    ;
    // Lower bound: len * len * t > uu * y > uu * (len - 1)^2 >= (u - 1)^2 * len * len.
    assert(a0 * a0 + a1 * a1 + a2 * a2 < l * l * t);
    assert(uu <= y) by (nonlinear_arith)
        requires
            y == x * uu,
            1 <= x,
            0 < uu,
    ;
    assert(u <= l) by (nonlinear_arith)
        requires
            u * u <= y,
            y <= l * l,
            0 < u,
            0 < l,
    ;
    assert(uu * ((l - 1) * (l - 1)) <= uu * y) by (nonlinear_arith)
        requires
            (l - 1) * (l - 1) < y,
            0 < uu,
    ;
    assert((u - 1) * (u - 1) * (l * l) <= uu * ((l - 1) * (l - 1))) by (nonlinear_arith)
        requires
            u <= l,
            1 < u,
            uu == u * u,
    ;
    assert((u - 1) * (u - 1) < t) by (nonlinear_arith)
        requires
            (u - 1) * (u - 1) * (l * l) < l * l * t,
            0 < l,
    ;
    assert(t <= s + 6 * u + 3) by (nonlinear_arith)
        requires
            t == (q[0] + 1) * (q[0] + 1) + (q[1] + 1) * (q[1] + 1) + (q[2] + 1) * (q[2] + 1),
            s == q[0] * q[0] + q[1] * q[1] + q[2] * q[2],
            q[0] <= u,
            q[1] <= u,
            q[2] <= u,
    ;
    assert((u - 5) * (u - 5) <= s) by (nonlinear_arith)
        requires
            (u - 1) * (u - 1) < t,
            t <= s + 6 * u + 3,
            u == 1048576,
    ;
}

/// Scales `p` to length `UNIT`, in the direction of `p`. Each coordinate `c`
/// becomes `c * UNIT / |p|` rounded toward zero, with `|p|` computed to a
/// precision of `1 / UNIT`; every non-zero input gives a point on the sphere
/// of radius `UNIT`, up to rounding. The zero vector is returned unchanged.
pub fn normalize(p: &[i64; 3]) -> (r: [i64; 3])
    requires
        within(*p, MAX_MAGNITUDE as int),
    ensures
        r == normalized(*p),
        within(r, UNIT as int),
        norm_sq(*p) > 0 ==> on_sphere(r),
        norm_sq(*p) == 0 ==> r == [0i64, 0i64, 0i64],
{
    proof {
        let m = MAX_MAGNITUDE as int;
        assert(p[0] * p[0] <= m * m && p[1] * p[1] <= m * m && p[2] * p[2] <= m * m)
            by (nonlinear_arith)
            requires
                within(*p, m),
        ;
        assert(m * m == 1152921504606846976int);
        assert(0 <= p[0] * p[0] && 0 <= p[1] * p[1] && 0 <= p[2] * p[2]) by (nonlinear_arith);
    }
    let x: u64 = (p[0] * p[0] + p[1] * p[1] + p[2] * p[2]) as u64;
    if x == 0 {
        return [0, 0, 0];
    }
    let uu: u128 = (UNIT as u128) * (UNIT as u128);
    assert(x * uu <= 3458764513820540928u128 * 1099511627776u128) by (nonlinear_arith)
        requires
            x <= 3458764513820540928u128,
            uu == 1099511627776u128,
    ;
    let big: u128 = (x as u128) * uu;
    let len: u128 = ceil_sqrt_u128(big);
    proof {
        lemma_ceil_sqrt_unique(len as int, big as int);
        let xi = x as int;
        let y = big as int;
        let l = len as int;
        assert(p[0] * p[0] * (UNIT * UNIT) <= y && p[1] * p[1] * (UNIT * UNIT) <= y && p[2] * p[2]
            * (UNIT * UNIT) <= y) by (nonlinear_arith)
            requires
                y == xi * (UNIT * UNIT),
                xi == p[0] * p[0] + p[1] * p[1] + p[2] * p[2],
                0 <= p[0] * p[0],
                0 <= p[1] * p[1],
                0 <= p[2] * p[2],
        ;
        lemma_coord_below_root(p[0] as int, l, y);
        lemma_coord_below_root(p[1] as int, l, y);
        lemma_coord_below_root(p[2] as int, l, y);
    }
    let r0: i64 = rescale_coord(p[0], len);
    let r1: i64 = rescale_coord(p[1], len);
    let r2: i64 = rescale_coord(p[2], len);
    proof {
        let q = seq![abs(r0 as int), abs(r1 as int), abs(r2 as int)];
        let c = seq![p[0] as int, p[1] as int, p[2] as int];
        assert forall|k: int|
            0 <= k < 3 implies 0 <= #[trigger] q[k] && q[k] * len <= abs(c[k]) * (UNIT * UNIT) < (
            q[k] + 1) * len by {
            if k == 0 {
            } else if k == 1 {
            } else {
            }
        }
        lemma_rescaled_on_sphere(q, c, len as int, x as int);
        assert(r0 * r0 == q[0] * q[0] && r1 * r1 == q[1] * q[1] && r2 * r2 == q[2] * q[2])
            by (nonlinear_arith)
            requires
                q[0] == abs(r0 as int),
                q[1] == abs(r1 as int),
                q[2] == abs(r2 as int),
        ;
    }
    [r0, r1, r2]
}

} // verus!
