//! Packing of coordinate pairs into a flat variable vector and back.
use vstd::prelude::*;

verus! {

/// The flat sequence `[x0, y0, x1, y1, ...]` of a sequence of pairs.
pub open spec fn flatten_pairs<T>(x: Seq<[T; 2]>) -> Seq<T>
    decreases x.len(),
{
    if x.len() == 0 {
        Seq::empty()
    } else {
        flatten_pairs(x.drop_last()) + seq![x.last()[0], x.last()[1]]
    }
}

/// Groups a flat sequence into consecutive pairs; a trailing odd element is dropped.
pub open spec fn group_pairs<T>(x: Seq<T>) -> Seq<[T; 2]> {
    Seq::new((x.len() / 2) as nat, |i: int| [x[2 * i], x[2 * i + 1]])
}

/// Element `k` of the flattened sequence.
pub proof fn lemma_flatten_pairs_index<T>(x: Seq<[T; 2]>)
    ensures
        flatten_pairs(x).len() == 2 * x.len(),
        forall|i: int|
            0 <= i < x.len() ==> flatten_pairs(x)[2 * i] == #[trigger] x[i][0]
                && flatten_pairs(x)[2 * i + 1] == x[i][1],
    decreases x.len(),
{
    if x.len() > 0 {
        let y = x.drop_last();
        lemma_flatten_pairs_index(y);
        assert forall|i: int| 0 <= i < x.len() implies flatten_pairs(x)[2 * i] == #[trigger] x[i][0]
            && flatten_pairs(x)[2 * i + 1] == x[i][1] by {
            if i < y.len() {
                assert(x[i] == y[i]);
            }
        }
    }
}

/// Groups the slice `[x0, y0, x1, y1, ...]` into the pairs `[x0, y0], [x1, y1], ...`.
pub fn zip<T: Copy>(x: &[T]) -> (r: Vec<[T; 2]>)
    ensures
        r@ == group_pairs(x@),
{
    let mut result: Vec<[T; 2]> = Vec::new();
    let len: usize = x.len();
    let n: usize = len / 2;
    let mut i: usize = 0;
    while i < n
        invariant
            len == x@.len(),
            n == x@.len() / 2,
            i <= n,
            result@ == group_pairs(x@).take(i as int),
        decreases n - i,
    {
        assert(i * 2 + 1 < x@.len()) by (nonlinear_arith)
            requires
                i < n,
                n == x@.len() / 2,
        ;
        let j: usize = i * 2;
        result.push([x[j], x[j + 1]]);
        i = i + 1;
        assert(result@ =~= group_pairs(x@).take(i as int));
    }
    assert(result@ =~= group_pairs(x@));
    result
}

/// Flattens the pairs `[x0, y0], [x1, y1], ...` into `[x0, y0, x1, y1, ...]`.
pub fn extract<T: Copy>(x: &[[T; 2]]) -> (r: Vec<T>)
    ensures
        r@ == flatten_pairs(x@),
{
    let mut result: Vec<T> = Vec::new();
    let mut i: usize = 0;
    while i < x.len()
        invariant
            i <= x@.len(),
            result@ == flatten_pairs(x@.take(i as int)),
        decreases x@.len() - i,
    {
        let p = x[i];
        result.push(p[0]);
        result.push(p[1]);
        proof {
            assert(x@.take(i + 1).drop_last() =~= x@.take(i as int));
        }
        i = i + 1;
    }
    assert(x@.take(x@.len() as int) =~= x@);
    result
}

/// Grouping a flattened sequence gives the pairs back.
pub proof fn lemma_group_flatten<T>(x: Seq<[T; 2]>)
    ensures
        group_pairs(flatten_pairs(x)) == x,
{
    lemma_flatten_pairs_index(x);
    let g = group_pairs(flatten_pairs(x));
    assert forall|i: int| 0 <= i < x.len() implies #[trigger] g[i] == x[i] by {
        assert(g[i][0] == x[i][0]);
        assert(g[i][1] == x[i][1]);
    }
    assert(g =~= x);
}

} // verus!
