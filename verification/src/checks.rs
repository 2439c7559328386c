//! Type-level construction gate.
//!
//! A buffer type generated over a fixed list of widths can assert at compile
//! time that the widths sum to a whole number of bytes: the residue of the
//! total modulo 8 is mapped to a marker type, and only the residue-zero
//! marker satisfies `TotalSizeIsMultipleOfEightBits`.

use vstd::prelude::*;

verus! {

/// Marker: the total width leaves residue 0 modulo 8.
pub enum ZeroMod8 {
    Marker,
}

/// Marker: the total width leaves residue 1 modulo 8.
pub enum OneMod8 {
    Marker,
}

/// Marker: the total width leaves residue 2 modulo 8.
pub enum TwoMod8 {
    Marker,
}

/// Marker: the total width leaves residue 3 modulo 8.
pub enum ThreeMod8 {
    Marker,
}

/// Marker: the total width leaves residue 4 modulo 8.
pub enum FourMod8 {
    Marker,
}

/// Marker: the total width leaves residue 5 modulo 8.
pub enum FiveMod8 {
    Marker,
}

/// Marker: the total width leaves residue 6 modulo 8.
pub enum SixMod8 {
    Marker,
}

/// Marker: the total width leaves residue 7 modulo 8.
pub enum SevenMod8 {
    Marker,
}

/// Satisfied only by the residue marker of a byte-aligned total width.
pub trait TotalSizeIsMultipleOfEightBits {
    type Check;
}

/// Maps an array length, used as a residue modulo 8, to its marker type.
pub trait Markers {
    type Marker;
}

impl Markers for [(); 0] {
    type Marker = ZeroMod8;
}

impl Markers for [(); 1] {
    type Marker = OneMod8;
}

impl Markers for [(); 2] {
    type Marker = TwoMod8;
}

impl Markers for [(); 3] {
    type Marker = ThreeMod8;
}

impl Markers for [(); 4] {
    type Marker = FourMod8;
}

impl Markers for [(); 5] {
    type Marker = FiveMod8;
}

impl Markers for [(); 6] {
    type Marker = SixMod8;
}

impl Markers for [(); 7] {
    type Marker = SevenMod8;
}

impl TotalSizeIsMultipleOfEightBits for ZeroMod8 {
    type Check = ();
}

/// Resolves only when the residue encoded in `T`'s length is zero.
pub type MultipleOfEight<T> = <<T as Markers>::Marker as TotalSizeIsMultipleOfEightBits>::Check;

} // verus!
