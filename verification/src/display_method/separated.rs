//! The `Separated` display method.

use crate::display_array::DisplayArray;
use crate::display_method::common::display_impl;
use crate::display_method::formatter::{write_default_separator, ElementFormatter};
use crate::display_method::DisplayMethod;
use crate::text::{pad_left, spaces, write_padded, write_spaces};
use vstd::prelude::*;

verus! {

/// Display method that aligns each element to its column and puts one space
/// between the elements of a row.
#[derive(Debug, Copy, Clone)]
pub struct Separated;

impl DisplayMethod for Separated {

}

impl ElementFormatter for Separated {
    open spec fn element_text(&self, elem: Seq<char>, width: nat, is_last_in_row: bool) -> Seq<
        char,
    > {
        if is_last_in_row {
            pad_left(elem, width)
        } else {
            pad_left(elem, width) + spaces(1)
        }
    }

    fn format_element(&self, f: &mut String, elem: &str, width: usize, is_last_in_row: bool) {
        write_padded(f, elem, width);
        // space unless end of row
        if !is_last_in_row {
            write_spaces(f, 1);
        }
        assert(f@ =~= old(f)@ + self.element_text(elem@, width as nat, is_last_in_row));
    }

    fn write_array_separator(&self, f: &mut String) {
        write_default_separator(f);
    }
}

impl DisplayArray<'_, Separated> {
    /// Appends the text of the arrays to `f`.
    #[inline]
    pub fn fmt(&self, f: &mut String)
        ensures
            final(f)@ == old(f)@ + self.text(Separated),
    {
        display_impl(self, f, &Separated)
    }

    /// The text of the arrays.
    pub fn to_string(&self) -> (s: String)
        ensures
            s@ == self.text(Separated),
    {
        let mut s = String::new();
        self.fmt(&mut s);
        assert(s@ =~= self.text(Separated));
        s
    }
}

} // verus!
