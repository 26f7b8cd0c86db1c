//! Bit-level field access over byte buffers.
//!
//! Fields are addressed by a range of bit indices under MSB-first, big-endian
//! numbering: bit 0 is the most-significant bit of byte 0, bit 7 its
//! least-significant bit, bit 8 the most-significant bit of byte 1, and so on.
//! A field is read or written as an unsigned integer whose most-significant
//! bit is the first bit of the range.

pub mod access;
pub mod laws;
pub mod mask;
pub mod model;
pub mod range;
pub mod value;

pub use access::read_field;
pub use access::try_read_field;
pub use access::try_write_field;
pub use access::write_field;
pub use access::BitfieldAccess;
pub use access::BitfieldError;
pub use mask::bitmask;
pub use range::BitBound;
pub use range::BitRange;
pub use value::UnsignedInteger;
