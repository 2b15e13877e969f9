//! Arrays of element texts, stored by `ndarray`.

use crate::shape::extent_product;
use crate::text::texts;
use vstd::prelude::*;

verus! {

/// An N-dimensional array whose elements are texts, held as an
/// `ndarray::ArrayD<String>`.
///
/// The field is hidden from the verifier: what is known of a value comes
/// from [`array_shape`] and [`array_cells`], through the contracts of the
/// functions of this module that call into `ndarray`. Those contracts are
/// stated from `ndarray`'s source and are not proved.
#[verifier::external_body]
pub struct TextArray {
    inner: ndarray::ArrayD<String>,
}

/// The extents of the array, outermost axis first: what
/// `ndarray::ArrayBase::shape` returns for it.
pub uninterp spec fn array_shape(a: TextArray) -> Seq<usize>;

/// The texts of the array's elements in logical order, the last index
/// varying fastest: what `ndarray::ArrayBase::iter` visits.
pub uninterp spec fn array_cells(a: TextArray) -> Seq<Seq<char>>;

/// Product of the extents of `shape` that are not zero.
pub open spec fn nonzero_extent_product(shape: Seq<usize>) -> nat
    decreases shape.len(),
{
    if shape.len() == 0 {
        1
    } else if shape[0] == 0 {
        nonzero_extent_product(shape.drop_first())
    } else {
        (shape[0] as nat) * nonzero_extent_product(shape.drop_first())
    }
}

/// Whether an array of shape `shape` can be built from `count` elements: the
/// non-zero extents multiply to at most `isize::MAX`, and all extents
/// multiply to `count`.
pub open spec fn shape_holds(shape: Seq<usize>, count: nat) -> bool {
    &&& nonzero_extent_product(shape) <= isize::MAX as nat
    &&& extent_product(shape) == count
}

/// Calls `ndarray::ArrayBase::from_shape_vec` with the dynamic dimension
/// `ndarray::IxDyn(shape)`, which stands for the standard, row-major layout.
///
/// Assumed, not proved: the call succeeds exactly when the product of the non-zero
/// extents does not exceed `isize::MAX` and the product of all extents is the
/// number of elements handed over; the array then has `shape` as its shape
/// and `cells` as its elements in logical order.
#[verifier::external_body]
fn array_from_shape_vec(shape: &Vec<usize>, cells: Vec<String>) -> (r: Option<TextArray>)
    ensures
        r is Some <==> shape_holds(shape@, cells@.len()),
        r matches Some(a) ==> array_shape(a) == shape@ && array_cells(a) == texts(cells@),
{
    match ndarray::ArrayD::from_shape_vec(ndarray::IxDyn(shape.as_slice()), cells) {
        Ok(inner) => Some(TextArray { inner }),
        Err(_) => None,
    }
}

impl TextArray {
    /// Builds the array of shape `shape` whose elements, in row-major order,
    /// are `cells`. `None` where the shape does not hold that many elements.
    pub fn from_shape_vec(shape: &Vec<usize>, cells: Vec<String>) -> (r: Option<TextArray>)
        ensures
            r is Some <==> shape_holds(shape@, cells@.len()),
            r matches Some(a) ==> array_shape(a) == shape@ && array_cells(a) == texts(cells@),
    {
        array_from_shape_vec(shape, cells)
    }

    /// Calls `ndarray::ArrayBase::shape` and copies the slice it returns.
    ///
    /// Assumed, not proved: the result is the array's shape.
    #[verifier::external_body]
    pub(crate) fn shape(&self) -> (r: Vec<usize>)
        ensures
            r@ == array_shape(*self),
    {
        self.inner.shape().to_vec()
    }

    /// Calls `ndarray::ArrayBase::iter` and copies every element it visits.
    ///
    /// Assumed, not proved: the iterator visits each element once, in logical order, so
    /// the result holds the array's cells and has as many entries as the
    /// product of the extents.
    #[verifier::external_body]
    pub(crate) fn cells(&self) -> (r: Vec<String>)
        ensures
            texts(r@) == array_cells(*self),
            r@.len() == extent_product(array_shape(*self)),
    {
        self.inner.iter().cloned().collect()
    }
}

} // verus!
