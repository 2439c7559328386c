//! Bit predicates and mask construction.
//!
//! The two mask builders operate on bit offsets within a single byte: a byte
//! mask that isolates the bits `start..=end` for reading, and a width mask,
//! aligned at bit 0, that selects exactly the bits one slot receives from a
//! value being written. Each mask is pinned both as a closed-form shift
//! expression and bit by bit.

use vstd::prelude::*;

verus! {

/// True when bit `j` of `v` is set. Positions 64 and above read as false.
pub open spec fn bit64(v: u64, j: u64) -> bool {
    (v >> j) & 1 == 1
}

/// True when bit `i` of the byte `b` is set. Positions 8 and above read as false.
pub open spec fn bit8(b: u8, i: u64) -> bool {
    bit64(b as u64, i)
}

/// The byte mask with exactly the bits `start..=end` set.
pub open spec fn get_mask_spec(start: u8, end: u8) -> u8 {
    (0xFFu8 << start) & (0xFFu8 >> ((7 - end) as u8))
}

/// The mask with exactly the low `end - start + 1` bits set.
pub open spec fn set_width_mask_spec(start: u8, end: u8) -> u64 {
    u64::MAX >> ((63 - (end - start)) as u64)
}

/// Byte mask with exactly the bits `start..=end` set.
pub fn create_get_bit_mask(start: u8, end: u8) -> (mask: u8)
    requires
        start <= end,
        end < 8,
    ensures
        mask == get_mask_spec(start, end),
        forall|k: u64| k < 8 ==> (bit8(mask, k) <==> start <= k <= end),
{
    let mut mask: u8 = 0b00000000;
    proof {
        assert(0u8 == (0xFFu8 << start) & (0xFFu8 >> ((8 - start) as u8))) by (bit_vector)
            requires
                start < 8,
        ;
    }
    let mut i: u8 = start;
    while i <= end
        invariant
            start <= i <= end + 1,
            end < 8,
            mask == (0xFFu8 << start) & (0xFFu8 >> ((8 - i) as u8)),
        decreases 8 - i,
    {
        let new_mask: u8 = mask | (1u8 << i);
        proof {
            assert(new_mask == (0xFFu8 << start) & (0xFFu8 >> ((8 - (i + 1)) as u8)))
                by (bit_vector)
                requires
                    new_mask == mask | (1u8 << i),
                    mask == (0xFFu8 << start) & (0xFFu8 >> ((8 - i) as u8)),
                    start <= i,
                    i < 8,
            ;
        }
        mask = new_mask;
        i = i + 1;
    }
    proof {
        assert(forall|k: u64| k < 8 ==> (bit8(mask, k) <==> start <= k <= end)) by (bit_vector)
            requires
                mask == (0xFFu8 << start) & (0xFFu8 >> ((7 - end) as u8)),
                start <= end,
                end < 8,
        ;
    }
    mask
}

/// Mask with exactly the low `end - start + 1` bits set, aligned at bit 0.
pub fn create_set_width_bit_mask(start: u8, end: u8) -> (mask: u64)
    requires
        start <= end,
        end - start < 64,
    ensures
        mask == set_width_mask_spec(start, end),
        forall|k: u64| k < 64 ==> (bit64(mask, k) <==> k <= end - start),
{
    let top: u8 = end - start;
    let mut mask: u64 = 0b0;
    proof {
        assert(0u64 == u64::MAX >> 64u64) by (bit_vector);
    }
    let mut i: u8 = 0;
    while i <= top
        invariant
            i <= top + 1,
            top < 64,
            mask == u64::MAX >> ((64 - i) as u64),
        decreases 64 - i,
    {
        let new_mask: u64 = mask | (1u64 << (i as u64));
        proof {
            assert(new_mask == u64::MAX >> ((64 - (i + 1)) as u64)) by (bit_vector)
                requires
                    new_mask == mask | (1u64 << (i as u64)),
                    mask == u64::MAX >> ((64 - i) as u64),
                    i < 64,
            ;
        }
        mask = new_mask;
        i = i + 1;
    }
    proof {
        assert(forall|k: u64| k < 64 ==> (bit64(mask, k) <==> k <= top)) by (bit_vector)
            requires
                mask == u64::MAX >> ((63 - top) as u64),
                top < 64,
        ;
    }
    mask
}

} // verus!
