//! The `display` convenience method on arrays and on lists of arrays.

use crate::display_array::DisplayArray;
use crate::display_method::DisplayMethod;
use crate::text_array::TextArray;
use vstd::prelude::*;

verus! {

/// Common trait for displayable arrays.
pub trait DisplayExt {
    /// The arrays that are displayed together, in order.
    spec fn displayed(&self) -> Seq<&TextArray>;

    /// Construct a `DisplayArray` type for the given data.
    fn display<M: DisplayMethod>(&self) -> (r: DisplayArray<'_, M>)
        ensures
            r.arrays@ == self.displayed(),
    ;
}

impl DisplayExt for TextArray {
    open spec fn displayed(&self) -> Seq<&TextArray> {
        seq![self]
    }

    #[inline]
    fn display<M: DisplayMethod>(&self) -> (r: DisplayArray<'_, M>) {
        let mut arrays: Vec<&TextArray> = Vec::new();
        arrays.push(self);
        assert(arrays@ =~= seq![self]);
        DisplayArray::new(arrays)
    }
}

impl<const N: usize> DisplayExt for [&TextArray; N] {
    open spec fn displayed(&self) -> Seq<&TextArray> {
        self@
    }

    #[inline]
    fn display<M: DisplayMethod>(&self) -> (r: DisplayArray<'_, M>) {
        let mut arrays: Vec<&TextArray> = Vec::with_capacity(N);
        let mut i: usize = 0;
        while i < N
            invariant
                i <= N,
                arrays@ == self@.take(i as int),
            decreases N - i,
        {
            arrays.push(self[i]);
            i = i + 1;
            assert(arrays@ =~= self@.take(i as int));
        }
        assert(arrays@ =~= self@);
        DisplayArray::new(arrays)
    }
}

impl DisplayExt for &[&TextArray] {
    open spec fn displayed(&self) -> Seq<&TextArray> {
        self@
    }

    #[inline]
    fn display<M: DisplayMethod>(&self) -> (r: DisplayArray<'_, M>) {
        let mut arrays: Vec<&TextArray> = Vec::with_capacity(self.len());
        let mut i: usize = 0;
        while i < self.len()
            invariant
                i <= self.len(),
                arrays@ == self@.take(i as int),
            decreases self.len() - i,
        {
            arrays.push(self[i]);
            i = i + 1;
            assert(arrays@ =~= self@.take(i as int));
        }
        assert(arrays@ =~= self@);
        DisplayArray::new(arrays)
    }
}

} // verus!
