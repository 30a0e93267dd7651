//! Sorting of text by the Unicode Collation Algorithm.
//!
//! Strings, or records that give out a string when asked, are put into the
//! order that a reader expects: base letters decide first, accents second,
//! case third, and the raw code points settle whatever is still tied.
//!
//! The weights come from the `feruca` collator. What is proved here is what
//! the library makes of its answers: a comparator that never ties on different
//! strings and mirrors when its arguments are swapped, a merge sort that only
//! rearranges, and an extraction step that fails as a whole.

pub mod code_point;
pub mod collation;
pub mod extract;
pub mod sort;

pub use crate::collation::compare;
pub use crate::extract::uca_complex_sort;
pub use crate::extract::ExtractionError;
pub use crate::sort::uca_simple_sort;
