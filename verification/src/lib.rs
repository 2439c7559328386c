//! Packed bit-field buffers.
//!
//! A `Bitfield` packs an ordered list of fields, each a fixed number of bits
//! wide, gap-free into a byte buffer: the first field occupies the least
//! significant bits of the first byte, and every later field continues exactly
//! where the previous one left off, even when its bits straddle byte
//! boundaries. The layout is planned once at construction into a table of
//! byte-sized slots; `get` and `set` then move a field's value between the
//! buffer and a `u64` with mask arithmetic.

pub mod buffer;
pub mod checks;
pub mod layout;
pub mod masks;
pub mod specifier;
