//! Field width descriptors.
//!
//! A `Specifier` names one field of a packed buffer at the type level: how
//! many bits the field occupies and which integer type its value is handed
//! out as. `FixedBits<N>` is the ready-made descriptor for an `N`-bit field.

use vstd::prelude::*;

verus! {

/// A field descriptor: the field's bit width and the integer type wide
/// enough to carry its value.
pub trait Specifier {
    const BITS: usize;

    type Ty;
}

/// Descriptor of a field exactly `N` bits wide.
pub struct FixedBits<const N: usize>();

impl Specifier for FixedBits<1> {
    const BITS: usize = 1;

    type Ty = u8;
}

impl Specifier for FixedBits<4> {
    const BITS: usize = 4;

    type Ty = u8;
}

impl Specifier for FixedBits<6> {
    const BITS: usize = 6;

    type Ty = u8;
}

impl Specifier for FixedBits<9> {
    const BITS: usize = 9;

    type Ty = u16;
}

impl Specifier for FixedBits<13> {
    const BITS: usize = 13;

    type Ty = u16;
}

} // verus!
