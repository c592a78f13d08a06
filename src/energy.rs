//! The pairwise repulsion energy of a point set.
//!
//! Points are given by integer coordinates, all on the sphere of squared
//! radius `norm_sq`; with `norm_sq == 1` they are unit vectors. The energy is
//! `E(P) = sum over all ordered pairs (i, j), i == j included, of
//! (<p_i, p_j> + norm_sq)^6`, which is `norm_sq^6` times the energy of the
//! same points scaled to the unit sphere, and is computed exactly.
use vstd::prelude::*;

verus! {

broadcast use vstd::seq_lib::group_seq_properties;

/// The sum of `f` over the elements of `s`.
pub open spec fn sum_of<A>(s: Seq<A>, f: spec_fn(A) -> int) -> int
    decreases s.len(),
{
    if s.len() == 0 {
        0
    } else {
        sum_of(s.drop_last(), f) + f(s.last())
    }
}

/// The inner product of two points.
pub open spec fn dot(p: [i64; 3], q: [i64; 3]) -> int {
    p[0] * q[0] + p[1] * q[1] + p[2] * q[2]
}

/// The sixth power.
pub open spec fn pow6(c: int) -> int {
    (c * c) * (c * c) * (c * c)
}

/// The potential of one ordered pair of points.
pub open spec fn pair_term(p: [i64; 3], q: [i64; 3], norm_sq: int) -> int {
    pow6(dot(p, q) + norm_sq)
}

/// The potential between `p` and every point of `s`.
pub open spec fn row_energy(p: [i64; 3], s: Seq<[i64; 3]>, norm_sq: int) -> int {
    sum_of(s, |q: [i64; 3]| pair_term(p, q, norm_sq))
}

/// The potential between every point of `s` and every point of `t`.
pub open spec fn cross_energy(s: Seq<[i64; 3]>, t: Seq<[i64; 3]>, norm_sq: int) -> int {
    sum_of(s, |p: [i64; 3]| row_energy(p, t, norm_sq))
}

/// The energy of the point set `s`: the potential summed over all ordered pairs.
pub open spec fn total_energy(s: Seq<[i64; 3]>, norm_sq: int) -> int {
    cross_energy(s, s, norm_sq)
}

/// The largest magnitude of a coordinate that `energy` accepts.
pub const MAX_COORD: i64 = 128;

/// The largest squared radius that `energy` accepts: that of `[128, 128, 128]`.
pub const MAX_NORM_SQ: i64 = 49152;

/// The largest number of points that `energy` accepts.
pub const MAX_POINTS: usize = 4096;

/// The largest value of `<p, q> + norm_sq` within those bounds.
pub open spec fn max_shifted() -> int {
    2 * MAX_NORM_SQ
}

/// The largest potential of one pair within those bounds.
pub open spec fn max_term() -> int {
    pow6(max_shifted())
}

/// Every coordinate of `p` lies within `MAX_COORD`.
pub open spec fn coord_in_range(p: [i64; 3]) -> bool {
    -MAX_COORD <= p[0] <= MAX_COORD && -MAX_COORD <= p[1] <= MAX_COORD && -MAX_COORD <= p[2]
        <= MAX_COORD
}

/// Every point of `s` has its coordinates within `MAX_COORD`.
pub open spec fn all_in_range(s: Seq<[i64; 3]>) -> bool {
    forall|i: int| 0 <= i < s.len() ==> coord_in_range(#[trigger] s[i])
}

/// The part of the energy that comes from pairing each point with itself.
pub open spec fn diagonal_energy(s: Seq<[i64; 3]>, norm_sq: int) -> int {
    sum_of(s, |p: [i64; 3]| pair_term(p, p, norm_sq))
}

/// Removing element `k` takes exactly its term out of the sum.
pub proof fn lemma_sum_remove<A>(s: Seq<A>, f: spec_fn(A) -> int, k: int)
    requires
        0 <= k < s.len(),
    ensures
        sum_of(s, f) == sum_of(s.remove(k), f) + f(s[k]),
    decreases s.len(),
{
    if k == s.len() - 1 {
        assert(s.remove(k) =~= s.drop_last());
    } else {
        let d = s.drop_last();
        lemma_sum_remove(d, f, k);
        assert(d.remove(k) =~= s.remove(k).drop_last());
        assert(s.remove(k).last() == s.last());
    }
}

/// A sum does not depend on the order of the summed elements.
pub proof fn lemma_sum_reorder<A>(s: Seq<A>, t: Seq<A>, f: spec_fn(A) -> int)
    requires
        s.to_multiset() == t.to_multiset(),
    ensures
        sum_of(s, f) == sum_of(t, f),
    decreases s.len(),
{
    broadcast use vstd::multiset::group_multiset_axioms;

    if s.len() == 0 {
        assert(t.len() == t.to_multiset().len());
        assert(s.to_multiset().len() == 0);
    } else {
        let x = s.last();
        let d = s.drop_last();
        assert(d.push(x) =~= s);
        assert(s.to_multiset() =~= d.to_multiset().insert(x));
        assert(t.to_multiset().count(x) > 0);
        assert(t.contains(x));
        let k = choose|k: int| 0 <= k < t.len() && t[k] == x;
        assert(t.remove(k).to_multiset() =~= t.to_multiset().remove(x));
        assert(d.to_multiset() =~= t.remove(k).to_multiset());
        lemma_sum_reorder(d, t.remove(k), f);
        lemma_sum_remove(t, f, k);
    }
}

/// Sums of two functions that agree everywhere are equal.
pub proof fn lemma_sum_congruent<A>(s: Seq<A>, f: spec_fn(A) -> int, g: spec_fn(A) -> int)
    requires
        forall|x: A| #[trigger] f(x) == g(x),
    ensures
        sum_of(s, f) == sum_of(s, g),
    decreases s.len(),
{
    if s.len() > 0 {
        lemma_sum_congruent(s.drop_last(), f, g);
    }
}

/// The energy is unchanged by any reordering of the points.
pub proof fn lemma_energy_reorder(s: Seq<[i64; 3]>, t: Seq<[i64; 3]>, norm_sq: int)
    requires
        s.to_multiset() == t.to_multiset(),
    ensures
        total_energy(s, norm_sq) == total_energy(t, norm_sq),
{
    let rs = |p: [i64; 3]| row_energy(p, s, norm_sq);
    let rt = |p: [i64; 3]| row_energy(p, t, norm_sq);
    assert forall|p: [i64; 3]| #[trigger] rt(p) == rs(p) by {
        lemma_sum_reorder(t, s, |q: [i64; 3]| pair_term(p, q, norm_sq));
    }
    lemma_sum_congruent(t, rt, rs);
    lemma_sum_reorder(t, s, rs);
}

proof fn lemma_max_term_value()
    ensures
        max_shifted() * max_shifted() == 9663676416,
        max_term() == 902458288639042220401461559296,
        MAX_POINTS * (MAX_POINTS * max_term()) == 15140737639487557364794927296005799936,
{
    assert(max_shifted() == 98304);
    assert(98304 * 98304 == 9663676416int);
    assert(9663676416int * 9663676416int == 93386641873154605056int);
    assert(93386641873154605056int * 9663676416int == 902458288639042220401461559296int);
    assert(4096 * 902458288639042220401461559296int == 3696469150265516934764386546876416int);
    assert(4096 * 3696469150265516934764386546876416int
        == 15140737639487557364794927296005799936int);
}

proof fn lemma_pow6_bound(c: int)
    requires
        -max_shifted() <= c <= max_shifted(),
    ensures
        0 <= pow6(c) <= max_term(),
{
    let m = max_shifted();
    assert(0 <= c * c <= m * m) by (nonlinear_arith)
        requires
            -m <= c <= m,
    ;
    let c2 = c * c;
    let m2 = m * m;
    assert(0 <= c2 * c2 <= m2 * m2) by (nonlinear_arith)
        requires
            0 <= c2 <= m2,
    ;
    assert(0 <= (c2 * c2) * c2 <= (m2 * m2) * m2) by (nonlinear_arith)
        requires
            0 <= c2 <= m2,
            0 <= c2 * c2 <= m2 * m2,
    ;
}

proof fn lemma_coord_product(a: i64, b: i64)
    requires
        -MAX_COORD <= a <= MAX_COORD,
        -MAX_COORD <= b <= MAX_COORD,
    ensures
        -MAX_COORD * MAX_COORD <= a * b <= MAX_COORD * MAX_COORD,
{
    assert(-128 * 128 <= a * b <= 128 * 128) by (nonlinear_arith)
        requires
            -128 <= a <= 128,
            -128 <= b <= 128,
    ;
}

/// The potential of the pair `(p, q)`.
fn pair_potential(p: &[i64; 3], q: &[i64; 3], norm_sq: i64) -> (r: i128)
    requires
        coord_in_range(*p),
        coord_in_range(*q),
        0 <= norm_sq <= MAX_NORM_SQ,
    ensures
        r == pair_term(*p, *q, norm_sq as int),
        0 <= r <= max_term(),
{
    proof {
        lemma_coord_product(p[0], q[0]);
        lemma_coord_product(p[1], q[1]);
        lemma_coord_product(p[2], q[2]);
    }
    let d: i64 = p[0] * q[0] + p[1] * q[1] + p[2] * q[2];
    let c: i128 = (d + norm_sq) as i128;
    proof {
        lemma_pow6_bound(c as int);
        lemma_max_term_value();
        let m2 = max_shifted() * max_shifted();
        assert(0 <= c * c <= m2) by (nonlinear_arith)
            requires
                -max_shifted() <= c <= max_shifted(),
                m2 == max_shifted() * max_shifted(),
        ;
        assert(0 <= (c * c) * (c * c) <= m2 * m2) by (nonlinear_arith)
            requires
                0 <= c * c <= m2,
        ;
        assert(m2 * m2 == 93386641873154605056int);
    }
    let c2: i128 = c * c;
    let c4: i128 = c2 * c2;
    c4 * c2
}

/// The potential between `p` and every point of `points`.
fn row_potential(p: &[i64; 3], points: &[[i64; 3]], norm_sq: i64) -> (r: i128)
    requires
        coord_in_range(*p),
        all_in_range(points@),
        points@.len() <= MAX_POINTS,
        0 <= norm_sq <= MAX_NORM_SQ,
    ensures
        r == row_energy(*p, points@, norm_sq as int),
        0 <= r <= points@.len() * max_term(),
{
    let n: usize = points.len();
    let mut acc: i128 = 0;
    let mut j: usize = 0;
    while j < n
        invariant
            n == points@.len(),
            n <= MAX_POINTS,
            j <= n,
            coord_in_range(*p),
            all_in_range(points@),
            0 <= norm_sq <= MAX_NORM_SQ,
            acc == row_energy(*p, points@.take(j as int), norm_sq as int),
            0 <= acc <= j * max_term(),
        decreases n - j,
    {
        let t: i128 = pair_potential(p, &points[j], norm_sq);
        proof {
            lemma_max_term_value();
            let s = points@.take(j + 1);
            assert(s.drop_last() =~= points@.take(j as int));
            assert(row_energy(*p, s, norm_sq as int) == row_energy(
                *p,
                points@.take(j as int),
                norm_sq as int,
            ) + pair_term(*p, points@[j as int], norm_sq as int));
            assert(acc + t <= (j + 1) * max_term()) by (nonlinear_arith)
                requires
                    acc <= j * max_term(),
                    t <= max_term(),
            ;
            assert((j + 1) * max_term() <= MAX_POINTS * max_term()) by (nonlinear_arith)
                requires
                    j + 1 <= MAX_POINTS,
                    0 <= max_term(),
            ;
        }
        acc = acc + t;
        j = j + 1;
    }
    assert(points@.take(n as int) =~= points@);
    acc
}

/// The energy of `points`, all on the sphere of squared radius `norm_sq`:
/// `(<p_i, p_j> + norm_sq)^6` summed over every ordered pair, `i == j`
/// included. The bounds keep the exact value within 128 bits.
pub fn energy(points: &[[i64; 3]], norm_sq: i64) -> (r: i128)
    requires
        all_in_range(points@),
        points@.len() <= MAX_POINTS,
        0 <= norm_sq <= MAX_NORM_SQ,
    ensures
        r == total_energy(points@, norm_sq as int),
{
    let n: usize = points.len();
    let mut total: i128 = 0;
    let mut i: usize = 0;
    while i < n
        invariant
            n == points@.len(),
            n <= MAX_POINTS,
            i <= n,
            all_in_range(points@),
            0 <= norm_sq <= MAX_NORM_SQ,
            total == cross_energy(points@.take(i as int), points@, norm_sq as int),
            0 <= total <= i * (n * max_term()),
        decreases n - i,
    {
        let row: i128 = row_potential(&points[i], points, norm_sq);
        proof {
            lemma_max_term_value();
            let s = points@.take(i + 1);
            assert(s.drop_last() =~= points@.take(i as int));
            assert(cross_energy(s, points@, norm_sq as int) == cross_energy(
                points@.take(i as int),
                points@,
                norm_sq as int,
            ) + row_energy(points@[i as int], points@, norm_sq as int));
            let rowmax = n * max_term();
            assert(total + row <= (i + 1) * rowmax) by (nonlinear_arith)
                requires
                    total <= i * rowmax,
                    row <= rowmax,
            ;
            assert((i + 1) * rowmax <= MAX_POINTS * (MAX_POINTS * max_term())) by (nonlinear_arith)
                requires
                    i + 1 <= MAX_POINTS,
                    n <= MAX_POINTS,
                    rowmax == n * max_term(),
                    0 <= max_term(),
            ;
        }
        total = total + row;
        i = i + 1;
    }
    assert(points@.take(n as int) =~= points@);
    total
}

/// When every point lies on the sphere of squared radius `norm_sq`, each point
/// paired with itself contributes `(2 * norm_sq)^6 = 64 * norm_sq^6`, so the
/// diagonal part of the energy of `n` points is `64 * n * norm_sq^6`
/// whatever their positions; for unit vectors, `64 * n`.
pub proof fn lemma_diagonal_offset(s: Seq<[i64; 3]>, norm_sq: int)
    requires
        forall|i: int| 0 <= i < s.len() ==> dot(#[trigger] s[i], s[i]) == norm_sq,
    ensures
        diagonal_energy(s, norm_sq) == 64 * s.len() * pow6(norm_sq),
    decreases s.len(),
{
    if s.len() == 0 {
        assert(64 * s.len() * pow6(norm_sq) == 0) by (nonlinear_arith)
            requires
                s.len() == 0,
        ;
    } else {
        let d = s.drop_last();
        assert forall|i: int| 0 <= i < d.len() implies dot(#[trigger] d[i], d[i]) == norm_sq by {
            assert(0 <= i < s.len());
            assert(d[i] == s[i]);
        }
        lemma_diagonal_offset(d, norm_sq);
        assert(dot(s.last(), s.last()) == norm_sq);
        assert(pow6(norm_sq + norm_sq) == 64 * pow6(norm_sq)) by (nonlinear_arith);
        assert(pair_term(s.last(), s.last(), norm_sq) == 64 * pow6(norm_sq));
        assert(diagonal_energy(s, norm_sq) == diagonal_energy(d, norm_sq) + pair_term(
            s.last(),
            s.last(),
            norm_sq,
        ));
        assert(64 * s.len() * pow6(norm_sq) == 64 * d.len() * pow6(norm_sq) + 64 * pow6(norm_sq))
            by (nonlinear_arith)
            requires
                s.len() == d.len() + 1,
        ;
    }
}

} // verus!
