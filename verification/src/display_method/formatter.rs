//! The interface between the renderers and a display method.

use crate::text::spaces;
use vstd::prelude::*;
use vstd::string::StringExecFns;

verus! {

/// How a display method writes one element, and what it puts between two
/// arrays that stand side by side.
pub trait ElementFormatter {
    /// The text written for an element whose own text is `elem`, in a column
    /// of `width` characters, at the end of its row or not.
    spec fn element_text(&self, elem: Seq<char>, width: nat, is_last_in_row: bool) -> Seq<char>;

    /// The text between two arrays side by side: two spaces, unless the
    /// method says otherwise.
    open spec fn array_separator(&self) -> Seq<char> {
        spaces(2)
    }

    /// Appends the text of one element to `f`.
    fn format_element(&self, f: &mut String, elem: &str, width: usize, is_last_in_row: bool)
        ensures
            final(f)@ == old(f)@ + self.element_text(elem@, width as nat, is_last_in_row),
    ;

    /// Appends the text between two arrays to `f`.
    fn write_array_separator(&self, f: &mut String)
        ensures
            final(f)@ == old(f)@ + self.array_separator(),
    ;
}

/// Appends the separator that a method has when it names no other: two spaces.
pub fn write_default_separator(f: &mut String)
    ensures
        final(f)@ == old(f)@ + spaces(2),
{
    proof {
        reveal_strlit("  ");
    }
    f.append("  ");
    assert(f@ =~= old(f)@ + spaces(2));
}

} // verus!
