//! Row-major layout of N-dimensional arrays stored as flat sequences.
use vstd::prelude::*;

verus! {

/// Number of elements of an array with the given axis lengths.
pub open spec fn shape_size(shape: Seq<usize>) -> nat
    decreases shape.len(),
{
    if shape.len() == 0 {
        1
    } else {
        shape_size(shape.drop_last()) * (shape.last() as nat)
    }
}

/// Whether `idx` addresses an element of an array with axis lengths `shape`.
pub open spec fn index_in_bounds(shape: Seq<usize>, idx: Seq<int>) -> bool {
    &&& idx.len() == shape.len()
    &&& forall|a: int| 0 <= a < idx.len() ==> 0 <= #[trigger] idx[a] < shape[a]
}

/// Position in the flat, row-major storage of the element with multi-index `idx`.
pub open spec fn flat_index(shape: Seq<usize>, idx: Seq<int>) -> int
    decreases idx.len(),
{
    if idx.len() == 0 || shape.len() == 0 {
        0
    } else {
        flat_index(shape.drop_last(), idx.drop_last()) * shape.last() + idx.last()
    }
}

/// An in-bounds multi-index lands inside the flat storage.
pub proof fn lemma_flat_index_bounds(shape: Seq<usize>, idx: Seq<int>)
    requires
        index_in_bounds(shape, idx),
    ensures
        0 <= flat_index(shape, idx) < shape_size(shape),
    decreases idx.len(),
{
    if idx.len() > 0 {
        let (s0, i0) = (shape.drop_last(), idx.drop_last());
        assert(index_in_bounds(s0, i0)) by {
            assert forall|a: int| 0 <= a < i0.len() implies 0 <= #[trigger] i0[a] < s0[a] by {
                assert(i0[a] == idx[a] && s0[a] == shape[a]);
            }
        }
        lemma_flat_index_bounds(s0, i0);
        let f = flat_index(s0, i0);
        let n = shape_size(s0) as int;
        let last = shape.last() as int;
        let il = idx.last();
        assert(0 <= il < last) by {
            assert(il == idx[idx.len() - 1]);
        }
        assert(0 <= f * last + il < n * last) by (nonlinear_arith)
            requires
                0 <= f < n,
                0 <= il < last,
        {
            assert(f * last <= (n - 1) * last);
        }
    }
}

/// Extending a prefix of the axes by one more axis multiplies the size by its length.
pub proof fn lemma_size_take_step(shape: Seq<usize>, i: int)
    requires
        0 <= i < shape.len(),
    ensures
        shape_size(shape.take(i + 1)) == shape_size(shape.take(i)) * (shape[i] as nat),
{
    assert(shape.take(i + 1).drop_last() =~= shape.take(i));
}

/// An axis of length zero empties the whole array.
pub proof fn lemma_size_zero(shape: Seq<usize>, a: int)
    requires
        0 <= a < shape.len(),
        shape[a] == 0,
    ensures
        shape_size(shape) == 0,
    decreases shape.len(),
{
    let rest = shape_size(shape.drop_last());
    let last = shape.last() as nat;
    if a < shape.len() - 1 {
        assert(shape.drop_last()[a] == shape[a]);
        lemma_size_zero(shape.drop_last(), a);
        assert(rest * last == 0) by (nonlinear_arith)
            requires
                rest == 0,
        ;
    } else {
        assert(rest * last == 0) by (nonlinear_arith)
            requires
                last == 0,
        ;
    }
}

/// When no axis is empty, the size of a prefix of the axes bounds the whole size from below.
pub proof fn lemma_size_take_le(shape: Seq<usize>, i: int)
    requires
        0 <= i <= shape.len(),
        forall|a: int| 0 <= a < shape.len() ==> #[trigger] shape[a] >= 1,
    ensures
        shape_size(shape.take(i)) <= shape_size(shape),
    decreases shape.len() - i,
{
    if i == shape.len() {
        assert(shape.take(i) =~= shape);
    } else {
        lemma_size_take_step(shape, i);
        lemma_size_take_le(shape, i + 1);
        let n = shape_size(shape.take(i));
        let m = shape[i] as nat;
        assert(n <= n * m) by (nonlinear_arith)
            requires
                m >= 1,
        ;
    }
}

/// The size of the array with the given axis lengths, or `None` where it exceeds `usize`.
pub fn checked_size(shape: &Vec<usize>) -> (r: Option<usize>)
    ensures
        match r {
            Some(n) => n as nat == shape_size(shape@),
            None => shape_size(shape@) > usize::MAX,
        },
{
    let mut a: usize = 0;
    while a < shape.len()
        invariant
            a <= shape.len(),
            forall|b: int| 0 <= b < a ==> #[trigger] shape@[b] >= 1,
        decreases shape.len() - a,
    {
        if shape[a] == 0 {
            proof {
                lemma_size_zero(shape@, a as int);
            }
            return Some(0);
        }
        a += 1;
    }
    let mut n: usize = 1;
    let mut i: usize = 0;
    assert(shape@.take(0) =~= Seq::<usize>::empty());
    while i < shape.len()
        invariant
            i <= shape.len(),
            n as nat == shape_size(shape@.take(i as int)),
            forall|b: int| 0 <= b < shape.len() ==> #[trigger] shape@[b] >= 1,
        decreases shape.len() - i,
    {
        proof {
            lemma_size_take_step(shape@, i as int);
        }
        match n.checked_mul(shape[i]) {
            Some(m) => {
                n = m;
            },
            None => {
                proof {
                    lemma_size_take_le(shape@, i + 1);
                }
                return None;
            },
        }
        i += 1;
    }
    assert(shape@.take(shape.len() as int) =~= shape@);
    Some(n)
}

/// The size of a 4- or 5-axis array splits into the leading three axes and the rest.
pub proof fn lemma_size_split(shape: Seq<usize>)
    requires
        shape.len() == 4 || shape.len() == 5,
    ensures
        shape.len() == 4 ==> shape_size(shape) == shape_size(shape.take(3)) * shape[3],
        shape.len() == 5 ==> shape_size(shape) == shape_size(shape.take(3)) * shape[3] * shape[4],
{
    lemma_size_take_step(shape, 3);
    if shape.len() == 5 {
        lemma_size_take_step(shape, 4);
        assert(shape.take(5) =~= shape);
    } else {
        assert(shape.take(4) =~= shape);
    }
}

/// The size is the length of the first axis times the size of the others.
pub proof fn lemma_size_first(shape: Seq<usize>)
    requires
        shape.len() >= 1,
    ensures
        shape_size(shape) == shape[0] * shape_size(shape.skip(1)),
    decreases shape.len(),
{
    let rest = shape.skip(1);
    if shape.len() == 1 {
        assert(shape.drop_last() =~= Seq::<usize>::empty());
        assert(rest =~= Seq::<usize>::empty());
        assert(shape_size(shape.drop_last()) == 1);
        assert(shape_size(rest) == 1);
        assert(shape_size(shape) == shape_size(shape.drop_last()) * (shape.last() as nat));
        assert(shape.last() == shape[0]);
        assert(shape_size(shape) == shape[0] as nat);
        assert(shape[0] * shape_size(rest) == shape[0] * 1);
        assert(shape.last() == shape[0]);
    } else {
        let dl = shape.drop_last();
        lemma_size_first(dl);
        assert(dl.skip(1) =~= rest.drop_last());
        assert(rest.last() == shape.last());
        assert(dl[0] == shape[0]);
        assert(shape.last() == shape[shape.len() - 1]);
        let a = shape[0] as int;
        let m = shape_size(rest.drop_last()) as int;
        let z = shape.last() as int;
        assert(shape_size(dl) == a * m);
        assert(shape_size(shape) == shape_size(dl) * z);
        assert(shape_size(rest) == m * z);
        assert(a * m * z == a * (m * z)) by (nonlinear_arith);
        assert(shape_size(shape) == shape[0] * shape_size(rest));
    }
}

/// Setting the first axis to 1 leaves the size of the others; with two
/// channels on the first axis the size is twice that.
pub proof fn lemma_size_first_axis_one(shape: Seq<usize>)
    requires
        shape.len() >= 1,
    ensures
        shape_size(shape.update(0, 1)) == shape_size(shape.skip(1)),
        shape[0] == 2 ==> shape_size(shape) == 2 * shape_size(shape.skip(1)),
{
    let one = shape.update(0, 1);
    lemma_size_first(shape);
    lemma_size_first(one);
    assert(one.skip(1) =~= shape.skip(1));
    let x = shape_size(shape.skip(1)) as int;
    let a = one[0] as int;
    let b = shape[0] as int;
    assert(a == 1);
    assert(a * x == x) by (nonlinear_arith)
        requires
            a == 1,
    ;
    assert(b == 2 ==> b * x == 2 * x) by (nonlinear_arith);
}

} // verus!
