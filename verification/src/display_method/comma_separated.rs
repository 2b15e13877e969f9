//! The `CommaSeparated` display method.

use crate::display_array::DisplayArray;
use crate::display_method::common::display_impl;
use crate::display_method::formatter::{write_default_separator, ElementFormatter};
use crate::display_method::DisplayMethod;
use crate::text::{pad_left, write_padded};
use vstd::prelude::*;
use vstd::string::StringExecFns;

verus! {

/// Display method that aligns each element to its column and puts a comma
/// and a space between the elements of a row.
#[derive(Debug, Copy, Clone)]
pub struct CommaSeparated;

impl DisplayMethod for CommaSeparated {

}

impl ElementFormatter for CommaSeparated {
    open spec fn element_text(&self, elem: Seq<char>, width: nat, is_last_in_row: bool) -> Seq<
        char,
    > {
        if is_last_in_row {
            pad_left(elem, width)
        } else {
            pad_left(elem, width) + seq![',', ' ']
        }
    }

    fn format_element(&self, f: &mut String, elem: &str, width: usize, is_last_in_row: bool) {
        write_padded(f, elem, width);
        // comma-space unless end of row
        if !is_last_in_row {
            proof {
                reveal_strlit(", ");
            }
            f.append(", ");
        }
        assert(f@ =~= old(f)@ + self.element_text(elem@, width as nat, is_last_in_row));
    }

    fn write_array_separator(&self, f: &mut String) {
        write_default_separator(f);
    }
}

impl DisplayArray<'_, CommaSeparated> {
    /// Appends the text of the arrays to `f`.
    #[inline]
    pub fn fmt(&self, f: &mut String)
        ensures
            final(f)@ == old(f)@ + self.text(CommaSeparated),
    {
        display_impl(self, f, &CommaSeparated)
    }

    /// The text of the arrays.
    pub fn to_string(&self) -> (s: String)
        ensures
            s@ == self.text(CommaSeparated),
    {
        let mut s = String::new();
        self.fmt(&mut s);
        assert(s@ =~= self.text(CommaSeparated));
        s
    }
}

} // verus!
