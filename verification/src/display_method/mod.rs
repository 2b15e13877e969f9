//! Display methods: how the elements of an array are laid out as text.

pub mod comma_separated;
pub mod common;
pub mod double_joined;
pub mod formatter;
pub mod joined;
pub mod separated;

pub use comma_separated::CommaSeparated;
pub use double_joined::DoubleJoined;
pub use joined::Joined;
pub use separated::Separated;

use vstd::prelude::*;

verus! {

/// Marks a type as a display method.
pub trait DisplayMethod {

}

} // verus!
