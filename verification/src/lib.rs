//! Segregated witness data: a stack of byte strings kept in one buffer.
//!
//! - [`witness`]: the stack itself, [`Witness`]
//! - [`iter`]: going through its elements one by one
//! - [`layout`]: what stands where in the buffer
//! - [`cursor`]: the positions in the index area of the buffer
//! - [`compact_size`]: the lengths in front of the elements
//! - [`hex`]: elements as hexadecimal text
//! - [`debug`]: the text of a witness for debugging
//! - [`bytes`]: byte strings and changes of a byte buffer
//! - [`order`]: the order of byte strings

pub mod bytes;
pub mod compact_size;
pub mod cursor;
pub mod debug;
pub mod hex;
pub mod iter;
pub mod layout;
pub mod order;
pub mod witness;

pub use crate::bytes::AsBytes;
pub use crate::hex::InvalidElement;
pub use crate::iter::Iter;
pub use crate::witness::Witness;
