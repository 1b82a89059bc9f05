//! Fractional indices: keys that order the items of a list, where a new key
//! can always be made before, after or between existing ones, so that no
//! existing key ever has to change.
pub mod fract_index;
pub mod hex;
pub mod laws;
pub mod order;

pub use fract_index::{DecodeError, FractionalIndex};
