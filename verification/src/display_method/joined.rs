//! The `Joined` display method.

use crate::display_array::DisplayArray;
use crate::display_method::common::display_impl;
use crate::display_method::formatter::{write_default_separator, ElementFormatter};
use crate::display_method::DisplayMethod;
use vstd::prelude::*;
use vstd::string::StringExecFns;

verus! {

/// Display method that writes each element as it is, with nothing between
/// the elements of a row.
#[derive(Debug, Copy, Clone)]
pub struct Joined;

impl DisplayMethod for Joined {

}

impl ElementFormatter for Joined {
    open spec fn element_text(&self, elem: Seq<char>, width: nat, is_last_in_row: bool) -> Seq<
        char,
    > {
        elem
    }

    fn format_element(&self, f: &mut String, elem: &str, _width: usize, _is_last_in_row: bool) {
        f.append(elem);
    }

    fn write_array_separator(&self, f: &mut String) {
        write_default_separator(f);
    }
}

impl DisplayArray<'_, Joined> {
    /// Appends the text of the arrays to `f`.
    #[inline]
    pub fn fmt(&self, f: &mut String)
        ensures
            final(f)@ == old(f)@ + self.text(Joined),
    {
        display_impl(self, f, &Joined)
    }

    /// The text of the arrays.
    pub fn to_string(&self) -> (s: String)
        ensures
            s@ == self.text(Joined),
    {
        let mut s = String::new();
        self.fmt(&mut s);
        assert(s@ =~= self.text(Joined));
        s
    }
}

} // verus!
