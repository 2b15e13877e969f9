//! The display wrapper: the arrays to show together, tagged with the
//! display method that shows them.

use crate::display_method::common::{array_cell_texts, array_shapes, multi_text};
use crate::display_method::formatter::ElementFormatter;
use crate::display_method::DisplayMethod;
use crate::text_array::TextArray;
use std::marker::PhantomData;
use vstd::prelude::*;

verus! {

/// Display wrapper with a phantom type for the display method.
#[non_exhaustive]
pub struct DisplayArray<'a, M: DisplayMethod> {
    /// The arrays to be displayed.
    pub arrays: Vec<&'a TextArray>,
    /// Marker to hold the display method type.
    pub _phantom: PhantomData<M>,
}

impl<'a, M: DisplayMethod> DisplayArray<'a, M> {
    /// Construct a new `DisplayArray` instance referring to the given arrays.
    #[inline]
    pub fn new(arrays: Vec<&'a TextArray>) -> (r: Self)
        ensures
            r.arrays@ == arrays@,
    {
        DisplayArray { arrays, _phantom: PhantomData }
    }

    /// The text of the wrapped arrays under the formatter `fmt`.
    pub open spec fn text<F: ElementFormatter>(&self, fmt: F) -> Seq<char> {
        multi_text(fmt, array_shapes(self.arrays@), array_cell_texts(self.arrays@))
    }
}

} // verus!
