//! Text rendering of N-dimensional arrays of element texts.
//!
//! One array, or several arrays of one shape side by side, is written as text
//! by a display method: separated by spaces, separated by commas, joined, or
//! joined with every element doubled. Separated methods align every column of
//! an array to that array's widest element.

pub mod display_array;
pub mod display_ext;
pub mod display_method;
pub mod laws;
pub mod shape;
pub mod text;
pub mod text_array;

pub use display_array::DisplayArray;
pub use display_ext::DisplayExt;
pub use display_method::{CommaSeparated, DisplayMethod, DoubleJoined, Joined, Separated};
pub use text_array::TextArray;
