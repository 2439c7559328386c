//! The packed buffer: construction, `get` and `set`.
//!
//! A `Bitfield` owns a byte buffer and the slot table computed once at
//! construction. Field `i` occupies the bit positions
//! `offset_of(i)..offset_of(i) + width_of(i)`, counting from bit 0 of byte 0,
//! least significant bit first. `get` assembles a field's value from its
//! slots; `set` rewrites exactly the field's bits and nothing else. A value
//! wider than its field is silently truncated to the field's width.

use vstd::prelude::*;
use vstd::arithmetic::power2::pow2;
use vstd::bits::{lemma_u64_pow2_no_overflow, lemma_u64_shl_is_mul};
use crate::layout::{
    field_wf, field_width, fields_offset, fields_wf, lemma_bit_pos, lemma_byte_in_range,
    lemma_fields_offset_mono, lemma_fields_offset_push_all, lemma_offsets_from_widths,
    lemma_slots_prefix_mono, lemma_slots_prefix_push_all, lemma_widths_prefix_mono, slot_wf,
    slot_width, slots_width_prefix, total_bits, valid_widths, widths_prefix, widths_total, Field,
    Slot,
};
use crate::masks::{bit64, bit8, create_get_bit_mask, create_set_width_bit_mask};

verus! {

/// The ways construction and access can fail.
#[derive(Clone, Copy, Debug, PartialEq, Eq, Structural)]
pub enum BitfieldError {
    /// The declared widths admit no layout: a field is 0 or more than 64 bits
    /// wide, or the widths do not sum to a whole number of bytes.
    InvalidLayout,
    /// `get` or `set` addressed a field index that does not exist.
    IndexOutOfBounds,
}

/// Bit `k` of the buffer: bit `k % 8` of byte `k / 8`.
pub open spec fn bufbit(data: Seq<u8>, k: int) -> bool {
    bit8(data[k / 8], (k % 8) as u64)
}

/// The value stored in the `w` bits at bit offset `off` of the buffer, read
/// least significant bit first.
pub open spec fn field_value(data: Seq<u8>, off: int, w: nat) -> nat
    decreases w,
{
    if w == 0 {
        0
    } else {
        field_value(data, off, (w - 1) as nat) + if bufbit(data, off + w - 1) {
            pow2((w - 1) as nat)
        } else {
            0
        }
    }
}

/// A `u64` with no bit set at position `i` or above shifts to zero.
proof fn lemma_u64_shr_all_zero(v: u64, i: u64)
    requires
        i <= 64,
        forall|j: u64| i <= j < 64 ==> !bit64(v, j),
    ensures
        v >> i == 0,
    decreases 64 - i,
{
    if i == 64 {
        assert(v >> 64u64 == 0) by (bit_vector);
    } else {
        let i1: u64 = (i + 1) as u64;
        lemma_u64_shr_all_zero(v, i1);
        assert(!bit64(v, i));
        assert(v >> i == 0) by (bit_vector)
            requires
                i < 64,
                i1 == i + 1,
                v >> i1 == 0,
                !bit64(v, i),
        ;
    }
}

/// A `u64` whose low `w` bits mirror the buffer bits at `off` and whose
/// remaining bits are clear holds exactly the value of those buffer bits.
proof fn lemma_value_from_bits(v: u64, data: Seq<u8>, off: int, w: nat)
    requires
        w <= 64,
        forall|j: u64| j < w ==> (bit64(v, j) <==> bufbit(data, off + j)),
        forall|j: u64| w <= j < 64 ==> !bit64(v, j),
    ensures
        v == field_value(data, off, w),
    decreases w,
{
    if w == 0 {
        lemma_u64_shr_all_zero(v, 0);
        assert(v >> 0u64 == v) by (bit_vector);
    } else {
        let wk: u64 = (w - 1) as u64;
        let v1: u64 = v & !(1u64 << wk);
        assert(forall|j: u64| j < 64 ==> (bit64(v1, j) <==> (bit64(v, j) && j != wk)))
            by (bit_vector)
            requires
                v1 == v & !(1u64 << wk),
                wk < 64,
        ;
        lemma_value_from_bits(v1, data, off, (w - 1) as nat);
        lemma_u64_pow2_no_overflow(wk as nat);
        lemma_u64_shl_is_mul(1u64, wk);
        if bit64(v, wk) {
            assert(v == v1 + (1u64 << wk)) by (bit_vector)
                requires
                    v1 == v & !(1u64 << wk),
                    wk < 64,
                    bit64(v, wk),
            ;
            assert(bufbit(data, off + w - 1));
        } else {
            assert(v == v1) by (bit_vector)
                requires
                    v1 == v & !(1u64 << wk),
                    wk < 64,
                    !bit64(v, wk),
            ;
            assert(!bufbit(data, off + w - 1));
        }
    }
}

/// The value of `w` buffer bits that mirror the low `w` bits of `v` is `v`
/// reduced modulo `2^w`.
proof fn lemma_field_value_mod(post: Seq<u8>, off: int, w: nat, v: u64)
    requires
        w <= 64,
        forall|j: u64| j < w ==> (bufbit(post, off + j) <==> bit64(v, j)),
    ensures
        field_value(post, off, w) == (v as nat) % pow2(w),
    decreases w,
{
    if w == 0 {
        vstd::arithmetic::power2::lemma2_to64();
    } else {
        lemma_field_value_mod(post, off, (w - 1) as nat, v);
        let wk: u64 = (w - 1) as u64;
        vstd::bits::lemma_u64_shr_is_div(v, wk);
        assert((v >> wk) & 1 == (v >> wk) % 2) by (bit_vector);
        vstd::arithmetic::power2::lemma_pow2_unfold(w);
        vstd::arithmetic::power2::lemma_pow2_pos((w - 1) as nat);
        vstd::arithmetic::div_mod::lemma_mod_breakdown(
            v as int,
            pow2((w - 1) as nat) as int,
            2,
        );
        assert(bufbit(post, off + w - 1) <==> bit64(v, wk));
        let p = pow2((w - 1) as nat) as int;
        assert(pow2(w) == 2 * p);
        assert((v as int) % (p * 2) == p * (((v as int) / p) % 2) + (v as int) % p);
        assert((v >> wk) == (v as int) / p);
        assert(field_value(post, off, w) == field_value(post, off, (w - 1) as nat) + if bufbit(
            post,
            off + w - 1,
        ) {
            p
        } else {
            0
        });
        if bit64(v, wk) {
            assert((v >> wk) % 2 == 1);
            assert(((v as int) / p) % 2 == 1);
            assert((v as int) % (pow2(w) as int) == p + (v as int) % p);
        } else {
            assert((v >> wk) % 2 == 0);
            assert(((v as int) / p) % 2 == 0);
            assert((v as int) % (pow2(w) as int) == (v as int) % p);
        }
    }
}

/// Two buffers that agree on `w` bits at offset `off` store the same value
/// there.
proof fn lemma_field_value_congruence(a: Seq<u8>, b: Seq<u8>, off: int, w: nat)
    requires
        forall|k: int| off <= k < off + w ==> (#[trigger] bufbit(a, k) <==> bufbit(b, k)),
    ensures
        field_value(a, off, w) == field_value(b, off, w),
    decreases w,
{
    if w > 0 {
        lemma_field_value_congruence(a, b, off, (w - 1) as nat);
        assert(bufbit(a, off + w - 1) <==> bufbit(b, off + w - 1));
    }
}

/// Reading one slot's byte appends the slot's bits, shifted into place, to
/// the value assembled from the slots before it.
proof fn lemma_get_step(
    data: Seq<u8>,
    off: int,
    pb: u64,
    slot: Slot,
    value: u64,
    b: u8,
    new_value: u64,
)
    requires
        slot_wf(slot, off + pb),
        0 <= off,
        off + pb + slot_width(slot) <= 8 * data.len(),
        pb + slot_width(slot) <= 64,
        b == data[(off + pb) / 8],
        new_value == value | ((((b & slot.get_bit_mask) as u64) >> (slot.start as u64)) << pb),
        forall|j: u64| j < pb ==> (bit64(value, j) <==> bufbit(data, off + j)),
        forall|j: u64| pb <= j < 64 ==> !bit64(value, j),
    ensures
        forall|j: u64|
            j < pb + slot_width(slot) ==> (bit64(new_value, j) <==> bufbit(data, off + j)),
        forall|j: u64| pb + slot_width(slot) <= j < 64 ==> !bit64(new_value, j),
{
    let boff = off + pb;
    let take = slot_width(slot);
    let st: u64 = slot.start as u64;
    let en: u64 = slot.end as u64;
    let gm = slot.get_bit_mask;
    let piece: u64 = (((b & gm) as u64) >> st) << pb;
    lemma_byte_in_range(boff, data.len() as int);
    assert(forall|j: u64|
        j < 64 ==> (bit64(piece, j) <==> (pb <= j < pb + (en - st + 1) && bit8(
            b,
            (st + (j - pb)) as u64,
        )))) by (bit_vector)
        requires
            piece == (((b & gm) as u64) >> st) << pb,
            st <= en < 8,
            pb + (en - st + 1) <= 64,
            gm == crate::masks::get_mask_spec(st as u8, en as u8),
    ;
    assert(forall|j: u64| j < 64 ==> (bit64(new_value, j) <==> (bit64(value, j) || bit64(piece, j))))
        by (bit_vector)
        requires
            new_value == value | piece,
    ;
    assert forall|j: u64| j < pb + take implies (bit64(new_value, j) <==> bufbit(data, off + j)) by {
        if j < pb {
            assert(bit64(new_value, j) <==> bit64(value, j));
        } else {
            let t: int = j - pb;
            lemma_bit_pos(boff, t);
            assert(bufbit(data, off + j) == bit8(data[boff / 8], (boff % 8 + t) as u64));
            assert(bit64(new_value, j) <==> bit8(b, (st + (j - pb)) as u64));
        }
    }
    assert forall|j: u64| pb + take <= j < 64 implies !bit64(new_value, j) by {
        assert(!bit64(value, j));
    }
}

/// Rewriting one slot's byte moves the next `slot_width` bits of `value`
/// into place and leaves every other bit of the buffer as it was.
proof fn lemma_set_step(
    pre: Seq<u8>,
    cur: Seq<u8>,
    next: Seq<u8>,
    off: int,
    nbs: u64,
    slot: Slot,
    value: u64,
    b: u8,
    new_b: u8,
)
    requires
        cur.len() == pre.len(),
        slot_wf(slot, off + nbs),
        0 <= off,
        off + nbs + slot_width(slot) <= 8 * pre.len(),
        nbs + slot_width(slot) <= 64,
        b == cur[(off + nbs) / 8],
        new_b == (b & !slot.get_bit_mask) | ((((value >> nbs) & slot.set_width_bit_mask) << (
        slot.start as u64)) as u8),
        next == cur.update((off + nbs) / 8, new_b),
        forall|k: int|
            0 <= k < 8 * pre.len() ==> (#[trigger] bufbit(cur, k) <==> (if off <= k < off + nbs {
                bit64(value, (k - off) as u64)
            } else {
                bufbit(pre, k)
            })),
    ensures
        forall|k: int|
            0 <= k < 8 * pre.len() ==> (#[trigger] bufbit(next, k) <==> (if off <= k < off + nbs
                + slot_width(slot) {
                bit64(value, (k - off) as u64)
            } else {
                bufbit(pre, k)
            })),
{
    let boff = off + nbs;
    let take = slot_width(slot);
    let st: u64 = slot.start as u64;
    let en: u64 = slot.end as u64;
    let gm = slot.get_bit_mask;
    let swm = slot.set_width_bit_mask;
    lemma_byte_in_range(boff, pre.len() as int);
    vstd::arithmetic::div_mod::lemma_fundamental_div_mod(boff, 8);
    assert(forall|k: u64|
        k < 8 ==> (bit8(new_b, k) <==> (if st <= k <= en {
            bit64(value, (nbs + (k - st)) as u64)
        } else {
            bit8(b, k)
        }))) by (bit_vector)
        requires
            new_b == (b & !gm) | ((((value >> nbs) & swm) << st) as u8),
            st <= en < 8,
            nbs + (en - st + 1) <= 64,
            gm == crate::masks::get_mask_spec(st as u8, en as u8),
            swm == crate::masks::set_width_mask_spec(st as u8, en as u8),
    ;
    assert forall|k: int| 0 <= k < 8 * pre.len() implies (#[trigger] bufbit(next, k) <==> (if off
        <= k < off + nbs + take {
        bit64(value, (k - off) as u64)
    } else {
        bufbit(pre, k)
    })) by {
        vstd::arithmetic::div_mod::lemma_fundamental_div_mod(k, 8);
        if k / 8 == boff / 8 {
            assert(next[k / 8] == new_b);
            if boff <= k < boff + take {
                let t: int = k - boff;
                lemma_bit_pos(boff, t);
                assert(bit8(new_b, (k % 8) as u64) <==> bit64(value, (nbs + ((k % 8) - st)) as u64));
            } else {
                assert((k % 8) < st || (k % 8) > en);
                assert(bit8(new_b, (k % 8) as u64) <==> bit8(b, (k % 8) as u64));
                assert(bufbit(next, k) <==> bufbit(cur, k));
            }
        } else {
            assert(next[k / 8] == cur[k / 8]);
            assert(bufbit(next, k) <==> bufbit(cur, k));
        }
    }
}

/// How `set` changes the buffer: the `w` bits at offset `off` now hold the
/// low `w` bits of `v`, and every other bit of the buffer is unchanged.
pub open spec fn set_bits(pre: Seq<u8>, post: Seq<u8>, off: int, w: int, v: u64) -> bool {
    &&& post.len() == pre.len()
    &&& forall|k: int|
        0 <= k < 8 * post.len() ==> (bufbit(post, k) <==> (if off <= k < off + w {
            bit64(v, (k - off) as u64)
        } else {
            bufbit(pre, k)
        }))
}

/// A packed buffer: the bytes, and the slot table fixed at construction.
pub struct Bitfield {
    pub data: Vec<u8>,
    pub fields: Vec<Field>,
}

impl View for Bitfield {
    type V = Seq<u8>;

    open spec fn view(&self) -> Seq<u8> {
        self.data@
    }
}

impl Bitfield {
    /// The slot table is well formed and the buffer holds exactly its bits.
    pub open spec fn wf(&self) -> bool {
        &&& fields_wf(self.fields@)
        &&& total_bits(self.fields@) == 8 * self.data@.len()
    }

    /// Number of fields.
    pub open spec fn num_fields(&self) -> int {
        self.fields@.len() as int
    }

    /// Bit offset of field `i` in the buffer.
    pub open spec fn offset_of(&self, i: int) -> int {
        fields_offset(self.fields@, i)
    }

    /// Width in bits of field `i`.
    pub open spec fn width_of(&self, i: int) -> int {
        field_width(self.fields@[i])
    }

    /// The buffer's bytes: the complete external representation.
    pub fn bytes(&self) -> (r: &Vec<u8>)
        ensures
            r@ == self@,
    {
        &self.data
    }

    /// Number of fields.
    pub fn field_count(&self) -> (n: usize)
        ensures
            n == self.num_fields(),
    {
        self.fields.len()
    }

    /// Plan the slot table for the declared widths: one running bit cursor
    /// over all fields, each field split at byte boundaries. Rejects a field
    /// 0 or more than 64 bits wide.
    #[verifier::rlimit(100)]
    pub fn calculate_layout(field_sizes: &[u8]) -> (r: Result<Vec<Field>, BitfieldError>)
        requires
            widths_total(field_sizes@) <= usize::MAX,
        ensures
            match r {
                Ok(fields) => {
                    &&& forall|i: int|
                        0 <= i < field_sizes@.len() ==> 1 <= #[trigger] field_sizes@[i] <= 64
                    &&& fields_wf(fields@)
                    &&& fields@.len() == field_sizes@.len()
                    &&& forall|i: int|
                        0 <= i < fields@.len() ==> field_width(#[trigger] fields@[i])
                            == field_sizes@[i]
                    &&& forall|i: int|
                        0 <= i <= fields@.len() ==> #[trigger] fields_offset(fields@, i)
                            == widths_prefix(field_sizes@, i)
                },
                Err(e) => {
                    &&& e == BitfieldError::InvalidLayout
                    &&& !(forall|i: int|
                        0 <= i < field_sizes@.len() ==> 1 <= #[trigger] field_sizes@[i] <= 64)
                },
            },
    {
        let mut fields: Vec<Field> = Vec::new();
        let mut bit_offset: usize = 0;
        let mut fi: usize = 0;
        while fi < field_sizes.len()
            invariant
                fi <= field_sizes@.len(),
                fields@.len() == fi,
                widths_total(field_sizes@) <= usize::MAX,
                forall|i: int| 0 <= i < fi ==> 1 <= #[trigger] field_sizes@[i] <= 64,
                fields_wf(fields@),
                forall|i: int|
                    0 <= i < fi ==> field_width(#[trigger] fields@[i]) == field_sizes@[i],
                bit_offset == widths_prefix(field_sizes@, fi as int),
                bit_offset == total_bits(fields@),
            decreases field_sizes@.len() - fi,
        {
            let w = field_sizes[fi];
            if w == 0 || w > 64 {
                return Err(BitfieldError::InvalidLayout);
            }
            proof {
                lemma_widths_prefix_mono(field_sizes@, fi + 1, field_sizes@.len() as int);
            }
            let ghost off0: int = bit_offset as int;
            let mut remaining: u8 = w;
            let mut slots: Vec<Slot> = Vec::new();
            while remaining > 0
                invariant
                    1 <= w <= 64,
                    remaining <= w,
                    bit_offset == off0 + (w - remaining),
                    off0 >= 0,
                    off0 + w <= usize::MAX,
                    slots_width_prefix(slots@, slots@.len() as int) == w - remaining,
                    forall|j: int|
                        0 <= j < slots@.len() ==> slot_wf(
                            #[trigger] slots@[j],
                            off0 + slots_width_prefix(slots@, j),
                        ),
                    forall|j: int|
                        0 <= j < slots@.len() && (remaining > 0 || j < slots@.len() - 1)
                            ==> (#[trigger] slots@[j]).end == 7,
                decreases remaining,
            {
                let byte: usize = bit_offset / 8;
                let start: u8 = (bit_offset % 8) as u8;
                let vacancy: u8 = 8 - start;
                let take: u8 = if remaining < vacancy {
                    remaining
                } else {
                    vacancy
                };
                let end: u8 = start + take - 1;
                let gm: u8 = create_get_bit_mask(start, end);
                let swm: u64 = create_set_width_bit_mask(start, end);
                let slot = Slot {
                    number: byte,
                    start,
                    end,
                    get_bit_mask: gm,
                    set_width_bit_mask: swm,
                };
                proof {
                    assert(slot_wf(slot, bit_offset as int));
                    lemma_slots_prefix_push_all(slots@, slot);
                }
                slots.push(slot);
                bit_offset = bit_offset + take as usize;
                remaining = remaining - take;
            }
            let field = Field { slots };
            proof {
                assert(field_width(field) == w);
                assert(field_wf(field, off0));
                lemma_fields_offset_push_all(fields@, field);
            }
            fields.push(field);
            fi = fi + 1;
        }
        proof {
            assert forall|i: int| 0 <= i <= fields@.len() implies #[trigger] fields_offset(
                fields@,
                i,
            ) == widths_prefix(field_sizes@, i) by {
                lemma_offsets_from_widths(fields@, field_sizes@, i);
            }
        }
        Ok(fields)
    }

    /// Build a zeroed buffer for the declared widths. Succeeds exactly when
    /// every width is 1 to 64 bits and the widths sum to a whole number of
    /// bytes; nothing is built otherwise.
    pub fn new(field_sizes: &[u8]) -> (r: Result<Bitfield, BitfieldError>)
        requires
            widths_total(field_sizes@) <= usize::MAX,
        ensures
            match r {
                Ok(bf) => {
                    &&& valid_widths(field_sizes@)
                    &&& bf.wf()
                    &&& bf.num_fields() == field_sizes@.len()
                    &&& forall|i: int|
                        0 <= i < field_sizes@.len() ==> bf.width_of(i) == field_sizes@[i]
                    &&& forall|i: int|
                        0 <= i <= field_sizes@.len() ==> bf.offset_of(i) == widths_prefix(
                            field_sizes@,
                            i,
                        )
                    &&& bf@.len() == widths_total(field_sizes@) / 8
                    &&& forall|b: int| 0 <= b < bf@.len() ==> bf@[b] == 0
                },
                Err(e) => {
                    &&& e == BitfieldError::InvalidLayout
                    &&& !valid_widths(field_sizes@)
                },
            },
    {
        let mut sum_bits: usize = 0;
        let mut i: usize = 0;
        while i < field_sizes.len()
            invariant
                i <= field_sizes@.len(),
                sum_bits == widths_prefix(field_sizes@, i as int),
                widths_total(field_sizes@) <= usize::MAX,
            decreases field_sizes@.len() - i,
        {
            proof {
                lemma_widths_prefix_mono(field_sizes@, i + 1, field_sizes@.len() as int);
            }
            sum_bits = sum_bits + field_sizes[i] as usize;
            i = i + 1;
        }
        if sum_bits % 8 != 0 {
            return Err(BitfieldError::InvalidLayout);
        }
        let fields = match Self::calculate_layout(field_sizes) {
            Ok(fields) => fields,
            Err(e) => {
                return Err(e);
            },
        };
        let n = sum_bits / 8;
        let mut data: Vec<u8> = Vec::new();
        while data.len() < n
            invariant
                data@.len() <= n,
                forall|b: int| 0 <= b < data@.len() ==> data@[b] == 0,
            decreases n - data@.len(),
        {
            data.push(0u8);
        }
        proof {
            lemma_offsets_from_widths(fields@, field_sizes@, fields@.len() as int);
        }
        Ok(Bitfield { data, fields })
    }

    /// Read the addressed field: its bits, assembled least significant bit
    /// first, widened to a `u64`.
    pub fn get(&self, field_index: usize) -> (r: Result<u64, BitfieldError>)
        requires
            self.wf(),
        ensures
            match r {
                Ok(v) => {
                    &&& field_index < self.num_fields()
                    &&& v == field_value(
                        self@,
                        self.offset_of(field_index as int),
                        self.width_of(field_index as int) as nat,
                    )
                },
                Err(e) => {
                    &&& e == BitfieldError::IndexOutOfBounds
                    &&& field_index >= self.num_fields()
                },
            },
    {
        if field_index >= self.fields.len() {
            return Err(BitfieldError::IndexOutOfBounds);
        }
        let ghost fi: int = field_index as int;
        let ghost slots: Seq<Slot> = self.fields@[fi].slots@;
        let ghost off: int = self.offset_of(fi);
        let ghost w: int = self.width_of(fi);
        proof {
            assert(field_wf(self.fields@[fi], off));
            lemma_fields_offset_mono(self.fields@, fi + 1, self.fields@.len() as int);
            lemma_fields_offset_mono(self.fields@, 0, fi);
            assert(off + w <= 8 * self@.len());
        }
        let num_slots: usize = self.fields[field_index].slots.len();
        let mut value: u64 = 0;
        let mut previous_bits: u64 = 0;
        let mut s: usize = 0;
        proof {
            assert(forall|j: u64| !bit64(0u64, j)) by (bit_vector);
        }
        while s < num_slots
            invariant
                self.wf(),
                0 <= fi < self.fields@.len(),
                field_index == fi,
                slots == self.fields@[fi].slots@,
                num_slots == slots.len(),
                field_wf(self.fields@[fi], off),
                off == self.offset_of(fi),
                w == field_width(self.fields@[fi]),
                1 <= w <= 64,
                0 <= off,
                off + w <= 8 * self@.len(),
                s <= num_slots,
                previous_bits == slots_width_prefix(slots, s as int),
                previous_bits <= w,
                forall|j: u64| j < previous_bits ==> (bit64(value, j) <==> bufbit(self@, off + j)),
                forall|j: u64| previous_bits <= j < 64 ==> !bit64(value, j),
            decreases num_slots - s,
        {
            let slot: Slot = self.fields[field_index].slots[s];
            let ghost boff: int = off + previous_bits;
            proof {
                assert(slot_wf(slot, off + slots_width_prefix(slots, s as int)));
                lemma_slots_prefix_mono(self.fields@[fi], off, s as int + 1, slots.len() as int);
                assert(previous_bits + slot_width(slot) <= w);
                lemma_byte_in_range(boff, self@.len() as int);
                assert(slot.number < self@.len());
            }
            let b: u8 = self.data[slot.number];
            let extracted: u64 = ((b & slot.get_bit_mask) as u64) >> (slot.start as u64);
            let piece: u64 = extracted << previous_bits;
            let new_value: u64 = value | piece;
            proof {
                assert(slot.number == boff / 8);
                assert(b == self@[boff / 8]);
                lemma_get_step(self@, off, previous_bits, slot, value, b, new_value);
            }
            value = new_value;
            previous_bits = previous_bits + (slot.end - slot.start + 1) as u64;
            s = s + 1;
        }
        proof {
            assert(previous_bits == w);
            lemma_value_from_bits(value, self@, off, w as nat);
        }
        Ok(value)
    }

    /// Write `value` into the addressed field: exactly the field's bits
    /// change. A value wider than the field is silently truncated to the
    /// field's width. On an invalid index nothing is changed.
    #[verifier::rlimit(100)]
    pub fn set(&mut self, field_index: usize, value: u64) -> (r: Result<(), BitfieldError>)
        requires
            old(self).wf(),
        ensures
            final(self).wf(),
            final(self).fields@ == old(self).fields@,
            match r {
                Ok(()) => {
                    &&& field_index < old(self).num_fields()
                    &&& set_bits(
                        old(self)@,
                        final(self)@,
                        old(self).offset_of(field_index as int),
                        old(self).width_of(field_index as int),
                        value,
                    )
                },
                Err(e) => {
                    &&& e == BitfieldError::IndexOutOfBounds
                    &&& field_index >= old(self).num_fields()
                    &&& final(self)@ == old(self)@
                },
            },
    {
        if field_index >= self.fields.len() {
            return Err(BitfieldError::IndexOutOfBounds);
        }
        let ghost fi: int = field_index as int;
        let ghost pre: Seq<u8> = self.data@;
        let ghost flds: Seq<Field> = self.fields@;
        let ghost slots: Seq<Slot> = self.fields@[fi].slots@;
        let ghost off: int = self.offset_of(fi);
        let ghost w: int = self.width_of(fi);
        proof {
            assert(field_wf(flds[fi], off));
            lemma_fields_offset_mono(flds, fi + 1, flds.len() as int);
            lemma_fields_offset_mono(flds, 0, fi);
            assert(off + w <= 8 * pre.len());
        }
        let num_slots: usize = self.fields[field_index].slots.len();
        let mut num_bits_set: u64 = 0;
        let mut s: usize = 0;
        while s < num_slots
            invariant
                0 <= fi < flds.len(),
                field_index == fi,
                self.fields@ == flds,
                self.data@.len() == pre.len(),
                slots == flds[fi].slots@,
                num_slots == slots.len(),
                fields_wf(flds),
                total_bits(flds) == 8 * pre.len(),
                field_wf(flds[fi], off),
                off == fields_offset(flds, fi),
                w == field_width(flds[fi]),
                1 <= w <= 64,
                0 <= off,
                off + w <= 8 * pre.len(),
                s <= num_slots,
                num_bits_set == slots_width_prefix(slots, s as int),
                num_bits_set <= w,
                forall|k: int|
                    0 <= k < 8 * pre.len() ==> (bufbit(self.data@, k) <==> (if off <= k < off
                        + num_bits_set {
                        bit64(value, (k - off) as u64)
                    } else {
                        bufbit(pre, k)
                    })),
            decreases num_slots - s,
        {
            let slot: Slot = self.fields[field_index].slots[s];
            let ghost boff: int = off + num_bits_set;
            let ghost take: int = slot_width(slot);
            proof {
                assert(slot_wf(slot, off + slots_width_prefix(slots, s as int)));
                lemma_slots_prefix_mono(flds[fi], off, s as int, slots.len() as int);
                lemma_slots_prefix_mono(flds[fi], off, s as int + 1, slots.len() as int);
                assert(num_bits_set < w);
                assert(num_bits_set + take <= w);
                lemma_byte_in_range(boff, pre.len() as int);
                assert(slot.number < self.data@.len());
            }
            let b: u8 = self.data[slot.number];
            let cleared: u8 = b & !slot.get_bit_mask;
            let slot_bits: u64 = ((value >> num_bits_set) & slot.set_width_bit_mask) << (
            slot.start as u64);
            let new_b: u8 = cleared | (#[verifier::truncate] (slot_bits as u8));
            let ghost nbs: u64 = num_bits_set;
            let ghost data_before: Seq<u8> = self.data@;
            self.data.set(slot.number, new_b);
            proof {
                assert(slot.number == boff / 8);
                assert(b == data_before[boff / 8]);
                assert(self.data@ == data_before.update(boff / 8, new_b));
                lemma_set_step(pre, data_before, self.data@, off, nbs, slot, value, b, new_b);
            }
            num_bits_set = num_bits_set + (slot.end - slot.start + 1) as u64;
            s = s + 1;
        }
        proof {
            assert(num_bits_set == w);
        }
        Ok(())
    }

    /// Write the first field.
    pub fn set_a(&mut self, value: u64) -> (r: Result<(), BitfieldError>)
        requires
            old(self).wf(),
        ensures
            final(self).wf(),
            final(self).fields@ == old(self).fields@,
            match r {
                Ok(()) => {
                    &&& 0 < old(self).num_fields()
                    &&& set_bits(
                        old(self)@,
                        final(self)@,
                        old(self).offset_of(0),
                        old(self).width_of(0),
                        value,
                    )
                },
                Err(e) => {
                    &&& e == BitfieldError::IndexOutOfBounds
                    &&& old(self).num_fields() == 0
                    &&& final(self)@ == old(self)@
                },
            },
    {
        self.set(0, value)
    }

    /// Write the second field.
    pub fn set_b(&mut self, value: u64) -> (r: Result<(), BitfieldError>)
        requires
            old(self).wf(),
        ensures
            final(self).wf(),
            final(self).fields@ == old(self).fields@,
            match r {
                Ok(()) => {
                    &&& 1 < old(self).num_fields()
                    &&& set_bits(
                        old(self)@,
                        final(self)@,
                        old(self).offset_of(1),
                        old(self).width_of(1),
                        value,
                    )
                },
                Err(e) => {
                    &&& e == BitfieldError::IndexOutOfBounds
                    &&& old(self).num_fields() <= 1
                    &&& final(self)@ == old(self)@
                },
            },
    {
        self.set(1, value)
    }

    /// Write the third field.
    pub fn set_c(&mut self, value: u64) -> (r: Result<(), BitfieldError>)
        requires
            old(self).wf(),
        ensures
            final(self).wf(),
            final(self).fields@ == old(self).fields@,
            match r {
                Ok(()) => {
                    &&& 2 < old(self).num_fields()
                    &&& set_bits(
                        old(self)@,
                        final(self)@,
                        old(self).offset_of(2),
                        old(self).width_of(2),
                        value,
                    )
                },
                Err(e) => {
                    &&& e == BitfieldError::IndexOutOfBounds
                    &&& old(self).num_fields() <= 2
                    &&& final(self)@ == old(self)@
                },
            },
    {
        self.set(2, value)
    }

    /// Write the fourth field.
    pub fn set_d(&mut self, value: u64) -> (r: Result<(), BitfieldError>)
        requires
            old(self).wf(),
        ensures
            final(self).wf(),
            final(self).fields@ == old(self).fields@,
            match r {
                Ok(()) => {
                    &&& 3 < old(self).num_fields()
                    &&& set_bits(
                        old(self)@,
                        final(self)@,
                        old(self).offset_of(3),
                        old(self).width_of(3),
                        value,
                    )
                },
                Err(e) => {
                    &&& e == BitfieldError::IndexOutOfBounds
                    &&& old(self).num_fields() <= 3
                    &&& final(self)@ == old(self)@
                },
            },
    {
        self.set(3, value)
    }

    /// Read the first field, handed out as a `u16` the way a 16-bit-or-less
    /// field is: wider values are truncated.
    pub fn get_a(&self) -> (r: Result<u16, BitfieldError>)
        requires
            self.wf(),
        ensures
            match r {
                Ok(v) => {
                    &&& 0 < self.num_fields()
                    &&& v as nat == field_value(self@, self.offset_of(0), self.width_of(0) as nat)
                        % 0x10000
                },
                Err(e) => {
                    &&& e == BitfieldError::IndexOutOfBounds
                    &&& self.num_fields() == 0
                },
            },
    {
        match self.get(0) {
            Ok(v) => {
                proof {
                    assert((v as u16) as u64 == v % 0x10000) by (bit_vector);
                }
                Ok(#[verifier::truncate] (v as u16))
            },
            Err(e) => Err(e),
        }
    }

    /// Read the second field, handed out as a `u8`: wider values are
    /// truncated.
    pub fn get_b(&self) -> (r: Result<u8, BitfieldError>)
        requires
            self.wf(),
        ensures
            match r {
                Ok(v) => {
                    &&& 1 < self.num_fields()
                    &&& v as nat == field_value(self@, self.offset_of(1), self.width_of(1) as nat)
                        % 0x100
                },
                Err(e) => {
                    &&& e == BitfieldError::IndexOutOfBounds
                    &&& self.num_fields() <= 1
                },
            },
    {
        match self.get(1) {
            Ok(v) => {
                proof {
                    assert((v as u8) as u64 == v % 0x100) by (bit_vector);
                }
                Ok(#[verifier::truncate] (v as u8))
            },
            Err(e) => Err(e),
        }
    }

    /// Read the third field, handed out as a `u16`: wider values are
    /// truncated.
    pub fn get_c(&self) -> (r: Result<u16, BitfieldError>)
        requires
            self.wf(),
        ensures
            match r {
                Ok(v) => {
                    &&& 2 < self.num_fields()
                    &&& v as nat == field_value(self@, self.offset_of(2), self.width_of(2) as nat)
                        % 0x10000
                },
                Err(e) => {
                    &&& e == BitfieldError::IndexOutOfBounds
                    &&& self.num_fields() <= 2
                },
            },
    {
        match self.get(2) {
            Ok(v) => {
                proof {
                    assert((v as u16) as u64 == v % 0x10000) by (bit_vector);
                }
                Ok(#[verifier::truncate] (v as u16))
            },
            Err(e) => Err(e),
        }
    }

    /// Read the fourth field, handed out as a `u8`: wider values are
    /// truncated.
    pub fn get_d(&self) -> (r: Result<u8, BitfieldError>)
        requires
            self.wf(),
        ensures
            match r {
                Ok(v) => {
                    &&& 3 < self.num_fields()
                    &&& v as nat == field_value(self@, self.offset_of(3), self.width_of(3) as nat)
                        % 0x100
                },
                Err(e) => {
                    &&& e == BitfieldError::IndexOutOfBounds
                    &&& self.num_fields() <= 3
                },
            },
    {
        match self.get(3) {
            Ok(v) => {
                proof {
                    assert((v as u8) as u64 == v % 0x100) by (bit_vector);
                }
                Ok(#[verifier::truncate] (v as u8))
            },
            Err(e) => Err(e),
        }
    }
}

/// Round trip: once `set` has written `v` into a field of width `w`, the
/// field reads back as `v` truncated to `w` bits, that is `v % 2^w`.
pub proof fn lemma_set_get_roundtrip(pre: Seq<u8>, post: Seq<u8>, off: int, w: int, v: u64)
    requires
        0 <= off,
        1 <= w <= 64,
        off + w <= 8 * pre.len(),
        set_bits(pre, post, off, w, v),
    ensures
        field_value(post, off, w as nat) == (v as nat) % pow2(w as nat),
{
    assert forall|j: u64| j < w implies (bufbit(post, off + j) <==> bit64(v, j)) by {
        assert(0 <= off + j < 8 * post.len());
        assert(bufbit(post, off + j) <==> bit64(v, ((off + j) - off) as u64));
    }
    lemma_field_value_mod(post, off, w as nat, v);
}

/// Non-interference: writing field `i` leaves the value of every other field
/// `j` unchanged.
pub proof fn lemma_set_preserves_other_fields(
    pre: Seq<u8>,
    post: Seq<u8>,
    fields: Seq<Field>,
    i: int,
    j: int,
    v: u64,
)
    requires
        fields_wf(fields),
        total_bits(fields) == 8 * pre.len(),
        0 <= i < fields.len(),
        0 <= j < fields.len(),
        i != j,
        set_bits(pre, post, fields_offset(fields, i), field_width(fields[i]), v),
    ensures
        field_value(post, fields_offset(fields, j), field_width(fields[j]) as nat) == field_value(
            pre,
            fields_offset(fields, j),
            field_width(fields[j]) as nat,
        ),
{
    let off_i = fields_offset(fields, i);
    let w_i = field_width(fields[i]);
    let off_j = fields_offset(fields, j);
    let w_j = field_width(fields[j]);
    lemma_fields_offset_mono(fields, 0, j);
    lemma_fields_offset_mono(fields, j + 1, fields.len() as int);
    if i < j {
        lemma_fields_offset_mono(fields, i + 1, j);
        assert(off_i + w_i <= off_j);
    } else {
        lemma_fields_offset_mono(fields, j + 1, i);
        assert(off_j + w_j <= off_i);
    }
    assert forall|k: int| off_j <= k < off_j + w_j implies (#[trigger] bufbit(post, k) <==> bufbit(
        pre,
        k,
    )) by {
        assert(0 <= k < 8 * post.len());
        assert(!(off_i <= k < off_i + w_i));
    }
    lemma_field_value_congruence(post, pre, off_j, w_j as nat);
}

} // verus!
