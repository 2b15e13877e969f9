//! The `DoubleJoined` display method.

use crate::display_array::DisplayArray;
use crate::display_method::common::display_impl;
use crate::display_method::formatter::{write_default_separator, ElementFormatter};
use crate::display_method::DisplayMethod;
use vstd::prelude::*;
use vstd::string::StringExecFns;

verus! {

/// Display method that writes each element twice, with nothing between the
/// two copies or between the elements of a row.
#[derive(Debug, Copy, Clone)]
pub struct DoubleJoined;

impl DisplayMethod for DoubleJoined {

}

impl ElementFormatter for DoubleJoined {
    open spec fn element_text(&self, elem: Seq<char>, width: nat, is_last_in_row: bool) -> Seq<
        char,
    > {
        elem + elem
    }

    fn format_element(&self, f: &mut String, elem: &str, _width: usize, _is_last_in_row: bool) {
        // each element doubled
        f.append(elem);
        f.append(elem);
        assert(f@ =~= old(f)@ + (elem@ + elem@));
    }

    fn write_array_separator(&self, f: &mut String) {
        write_default_separator(f);
    }
}

impl DisplayArray<'_, DoubleJoined> {
    /// Appends the text of the arrays to `f`.
    #[inline]
    pub fn fmt(&self, f: &mut String)
        ensures
            final(f)@ == old(f)@ + self.text(DoubleJoined),
    {
        display_impl(self, f, &DoubleJoined)
    }

    /// The text of the arrays.
    pub fn to_string(&self) -> (s: String)
        ensures
            s@ == self.text(DoubleJoined),
    {
        let mut s = String::new();
        self.fmt(&mut s);
        assert(s@ =~= self.text(DoubleJoined));
        s
    }
}

} // verus!
