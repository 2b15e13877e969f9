//! Shapes: extents, chunk sizes and row-major offsets.

use vstd::arithmetic::div_mod::{lemma_fundamental_div_mod, lemma_mod_multiples_basic};
use vstd::prelude::*;

verus! {

/// Number of elements of an array of shape `shape`: the product of its
/// extents, 1 for the empty shape.
pub open spec fn extent_product(shape: Seq<usize>) -> nat
    decreases shape.len(),
{
    if shape.len() == 0 {
        1
    } else {
        (shape[0] as nat) * extent_product(shape.drop_first())
    }
}

/// Chunk size of axis `k`: the number of elements that one step along axis
/// `k` spans, the product of the extents of all axes nested inside it.
pub open spec fn chunk_size(shape: Seq<usize>, k: int) -> nat {
    extent_product(shape.skip(k + 1))
}

/// Number of elements after which a row ends: the only extent of a
/// one-dimensional shape, else the chunk size of the outermost axis.
pub open spec fn row_size(shape: Seq<usize>) -> nat {
    if shape.len() == 1 {
        shape[0] as nat
    } else {
        chunk_size(shape, 0)
    }
}

/// Row-major offset contributed by the axes from `from` on:
/// the sum of `indices[d] * chunk_size(shape, d)` over `d >= from`.
pub open spec fn offset_from(shape: Seq<usize>, indices: Seq<usize>, from: int) -> nat
    decreases shape.len() - from,
{
    if from < 0 || from >= shape.len() {
        0
    } else {
        (indices[from] as nat) * chunk_size(shape, from) + offset_from(shape, indices, from + 1)
    }
}

/// Row-major offset contributed by the axes before `upto`:
/// the sum of `indices[d] * chunk_size(shape, d)` over `d < upto`.
pub open spec fn offset_upto(shape: Seq<usize>, indices: Seq<usize>, upto: int) -> nat
    decreases upto,
{
    if upto <= 0 {
        0
    } else {
        offset_upto(shape, indices, upto - 1) + (indices[upto - 1] as nat) * chunk_size(
            shape,
            upto - 1,
        )
    }
}

/// Row-major flat index of the element at `indices`.
pub open spec fn flat_index(shape: Seq<usize>, indices: Seq<usize>) -> nat {
    offset_from(shape, indices, 0)
}

/// The product from axis `k` on is the extent of axis `k` times the product
/// from axis `k + 1` on.
pub proof fn lemma_product_step(shape: Seq<usize>, k: int)
    requires
        0 <= k < shape.len(),
    ensures
        extent_product(shape.skip(k)) == (shape[k] as nat) * extent_product(shape.skip(k + 1)),
        extent_product(shape.skip(k)) == (shape[k] as nat) * chunk_size(shape, k),
{
    assert(shape.skip(k).drop_first() =~= shape.skip(k + 1));
}

/// The innermost axis has chunk size 1, and the whole shape is the product
/// from axis 0 on.
pub proof fn lemma_product_ends(shape: Seq<usize>)
    ensures
        extent_product(shape.skip(shape.len() as int)) == 1,
        extent_product(shape.skip(0)) == extent_product(shape),
        shape.len() > 0 ==> chunk_size(shape, shape.len() - 1) == 1,
{
    assert(shape.skip(shape.len() as int) =~= Seq::<usize>::empty());
    assert(shape.skip(0) =~= shape);
}

/// A shape with a non-zero product has no zero extent, and none of its
/// trailing products is zero or exceeds the whole product.
pub proof fn lemma_positive_product(shape: Seq<usize>, k: int)
    requires
        extent_product(shape) > 0,
        0 <= k <= shape.len(),
    ensures
        0 < extent_product(shape.skip(k)) <= extent_product(shape),
        k < shape.len() ==> shape[k] > 0,
    decreases k,
{
    lemma_product_ends(shape);
    if k > 0 {
        lemma_positive_product(shape, k - 1);
        lemma_product_step(shape, k - 1);
        let a = shape[k - 1] as nat;
        let b = extent_product(shape.skip(k));
        let c = extent_product(shape.skip(k - 1));
        assert(0 < b <= c) by (nonlinear_arith)
            requires
                c == a * b,
                0 < c,
        ;
    }
    if k < shape.len() {
        lemma_product_step(shape, k);
        let a = shape[k] as nat;
        let b = extent_product(shape.skip(k + 1));
        assert(a > 0) by (nonlinear_arith)
            requires
                0 < a * b,
        ;
    }
}

/// A trailing product of a shape with a non-zero product divides every
/// trailing product that starts further out.
pub proof fn lemma_chunks_nest(shape: Seq<usize>, j: int, k: int)
    requires
        extent_product(shape) > 0,
        0 <= j <= k <= shape.len(),
    ensures
        extent_product(shape.skip(k)) > 0,
        extent_product(shape.skip(j)) % extent_product(shape.skip(k)) == 0,
    decreases k - j,
{
    lemma_positive_product(shape, k);
    let inner = extent_product(shape.skip(k));
    if j == k {
        assert(inner % inner == 0) by (nonlinear_arith)
            requires
                inner > 0,
        ;
    } else {
        lemma_chunks_nest(shape, j + 1, k);
        lemma_product_step(shape, j);
        let a = shape[j] as nat;
        let mid = extent_product(shape.skip(j + 1));
        let q = mid / inner;
        lemma_fundamental_div_mod(mid as int, inner as int);
        assert(a * mid == (a * q) * inner) by (nonlinear_arith)
            requires
                mid == inner * q,
        ;
        lemma_mod_multiples_basic((a * q) as int, inner as int);
    }
}

/// Indices that lie inside the shape from axis `from` on address an offset
/// below the product from that axis on.
pub proof fn lemma_offset_in_range(shape: Seq<usize>, indices: Seq<usize>, from: int)
    requires
        indices.len() == shape.len(),
        0 <= from <= shape.len(),
        forall|d: int| from <= d < shape.len() ==> indices[d] < shape[d],
    ensures
        from < shape.len() ==> offset_from(shape, indices, from) < extent_product(shape.skip(from)),
        from == shape.len() ==> offset_from(shape, indices, from) == 0,
    decreases shape.len() - from,
{
    if from < shape.len() {
        lemma_offset_in_range(shape, indices, from + 1);
        lemma_product_step(shape, from);
        lemma_product_ends(shape);
        let i = indices[from] as nat;
        let n = shape[from] as nat;
        let c = chunk_size(shape, from);
        let rest = offset_from(shape, indices, from + 1);
        assert(rest < c || (from + 1 == shape.len() && rest == 0 && c == 1));
        assert(i * c + rest < n * c) by (nonlinear_arith)
            requires
                i < n,
                rest < c,
        ;
    }
}

/// The flat index is the offset of the outer axes plus the offset of the
/// inner ones, wherever the two are split.
pub proof fn lemma_offset_split(shape: Seq<usize>, indices: Seq<usize>, at: int)
    requires
        0 <= at <= shape.len(),
    ensures
        flat_index(shape, indices) == offset_upto(shape, indices, at) + offset_from(
            shape,
            indices,
            at,
        ),
    decreases at,
{
    if at > 0 {
        lemma_offset_split(shape, indices, at - 1);
    }
}

/// Computes the chunk size of every axis but the innermost, outermost first.
pub fn chunk_sizes(shape: &Vec<usize>) -> (sizes: Vec<usize>)
    requires
        forall|k: int| 0 <= k < shape.len() - 1 ==> chunk_size(shape@, k) <= usize::MAX,
    ensures
        shape.len() == 0 ==> sizes.len() == 0,
        shape.len() > 0 ==> sizes.len() == shape.len() - 1,
        forall|k: int| 0 <= k < sizes.len() ==> sizes[k] as nat == chunk_size(shape@, k),
{
    let ndim = shape.len();
    if ndim < 2 {
        return Vec::new();
    }
    let mut sizes: Vec<usize> = vec![1; ndim - 1];
    let mut k: usize = ndim - 1;
    let mut inner: usize = 1;
    proof {
        lemma_product_ends(shape@);
    }
    while k > 0
        invariant
            0 <= k < ndim,
            ndim == shape.len(),
            sizes.len() == ndim - 1,
            forall|j: int| 0 <= j < shape.len() - 1 ==> chunk_size(shape@, j) <= usize::MAX,
            inner as nat == chunk_size(shape@, k as int),
            forall|j: int| k <= j < sizes.len() ==> sizes[j] as nat == chunk_size(shape@, j),
        decreases k,
    {
        proof {
            lemma_product_step(shape@, k as int);
            assert(chunk_size(shape@, k - 1) == (shape[k as int] as nat) * (inner as nat));
        }
        inner = shape[k] * inner;
        k = k - 1;
        sizes.set(k, inner);
    }
    sizes
}

/// Offsets of the outer axes agree where the indices of those axes agree.
pub proof fn lemma_offset_upto_agrees(
    shape: Seq<usize>,
    a: Seq<usize>,
    b: Seq<usize>,
    upto: int,
)
    requires
        forall|d: int| 0 <= d < upto ==> a[d] == b[d],
    ensures
        offset_upto(shape, a, upto) == offset_upto(shape, b, upto),
    decreases upto,
{
    if upto > 0 {
        lemma_offset_upto_agrees(shape, a, b, upto - 1);
    }
}

/// Computes the row-major flat index of the element at `indices`: the last
/// axis counts single elements, every other axis counts chunks.
pub fn flat_index_of(shape: &Vec<usize>, indices: &Vec<usize>) -> (flat: usize)
    requires
        indices.len() == shape.len(),
        forall|d: int| 0 <= d < shape.len() ==> indices[d] < shape[d],
        extent_product(shape@) <= usize::MAX,
    ensures
        flat as nat == flat_index(shape@, indices@),
        flat < extent_product(shape@),
{
    let ndim = shape.len();
    let mut flat: usize = 0;
    let mut multiplier: usize = 1;
    let mut d: usize = ndim;
    proof {
        lemma_product_ends(shape@);
        lemma_offset_in_range(shape@, indices@, 0);
    }
    while d > 0
        invariant
            d <= ndim,
            ndim == shape.len(),
            indices.len() == shape.len(),
            forall|e: int| 0 <= e < shape.len() ==> indices[e] < shape[e],
            0 < extent_product(shape@) <= usize::MAX,
            multiplier as nat == extent_product(shape@.skip(d as int)),
            flat as nat == offset_from(shape@, indices@, d as int),
        decreases d,
    {
        d = d - 1;
        proof {
            lemma_product_step(shape@, d as int);
            lemma_positive_product(shape@, d as int);
            lemma_offset_in_range(shape@, indices@, d as int);
            let step = (indices[d as int] as nat) * (multiplier as nat);
            assert(step + flat == offset_from(shape@, indices@, d as int));
            assert(step <= usize::MAX);
            assert((multiplier as nat) * (shape[d as int] as nat) == extent_product(
                shape@.skip(d as int),
            )) by (nonlinear_arith)
                requires
                    extent_product(shape@.skip(d as int)) == (shape[d as int] as nat) * (
                    multiplier as nat),
            ;
        }
        flat = flat + indices[d] * multiplier;
        multiplier = multiplier * shape[d];
    }
    flat
}

/// Whether two shapes are the same.
pub fn same_shape(a: &Vec<usize>, b: &Vec<usize>) -> (same: bool)
    ensures
        same == (a@ == b@),
{
    if a.len() != b.len() {
        return false;
    }
    let mut i: usize = 0;
    while i < a.len()
        invariant
            i <= a.len(),
            a.len() == b.len(),
            forall|j: int| 0 <= j < i ==> a[j] == b[j],
        decreases a.len() - i,
    {
        if a[i] != b[i] {
            return false;
        }
        i = i + 1;
    }
    assert(a@ =~= b@);
    true
}

} // verus!
