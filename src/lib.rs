//! Iterate over the positions of the bits set in a fixed-width integer.
//!
//! A `BitIter` is made from any of the standard integer types and yields the
//! positions (0 = least significant) of its `1` bits in ascending order, or in
//! descending order from the other end.
pub mod bits;
pub mod iter;
pub mod laws;
pub mod word;

pub use iter::{BitIter, Rev};
pub use word::Word;
