//! Layout structure: slots, fields, and their well-formedness.
//!
//! A field's bits are stored gap-free in the buffer, split into slots, one per
//! byte touched. A slot records which byte it lives in, which bits of that
//! byte it occupies, and the two masks used to read and write those bits.
//! Fields are packed in declaration order, least-significant bits first,
//! starting at bit 0 of byte 0, with a single running bit cursor across all
//! fields.

use vstd::prelude::*;
use crate::masks::{get_mask_spec, set_width_mask_spec};

verus! {

/// The portion of a field's bits that lives in a single byte of the buffer:
/// bits `start..=end` of byte `number`.
#[derive(Clone, Copy)]
pub struct Slot {
    /// Index of the byte this slot occupies.
    pub number: usize,
    /// First (least significant) bit of the byte belonging to the slot.
    pub start: u8,
    /// Last bit of the byte belonging to the slot.
    pub end: u8,
    /// Byte mask with exactly the bits `start..=end` set.
    pub get_bit_mask: u8,
    /// Mask with the low `end - start + 1` bits set.
    pub set_width_bit_mask: u64,
}

/// The layout of one field: its slots, ordered from the field's least
/// significant bits to its most significant bits.
pub struct Field {
    pub slots: Vec<Slot>,
}

/// Number of bits a slot occupies.
pub open spec fn slot_width(s: Slot) -> int {
    s.end - s.start + 1
}

/// Total bits of the first `j` slots.
pub open spec fn slots_width_prefix(slots: Seq<Slot>, j: int) -> int
    decreases j,
{
    if j <= 0 {
        0
    } else {
        slots_width_prefix(slots, j - 1) + slot_width(slots[j - 1])
    }
}

/// Number of bits a field occupies: the sum of its slots' widths.
pub open spec fn field_width(f: Field) -> int {
    slots_width_prefix(f.slots@, f.slots@.len() as int)
}

/// Bit offset of field `i` in the buffer: total bits of the fields before it.
pub open spec fn fields_offset(fields: Seq<Field>, i: int) -> int
    decreases i,
{
    if i <= 0 {
        0
    } else {
        fields_offset(fields, i - 1) + field_width(fields[i - 1])
    }
}

/// Total bits of all fields.
pub open spec fn total_bits(fields: Seq<Field>) -> int {
    fields_offset(fields, fields.len() as int)
}

/// A slot is well formed for buffer bit offset `boff` when it addresses
/// exactly the bits `boff..boff + slot_width` of the buffer, all within one
/// byte, and carries the matching masks.
pub open spec fn slot_wf(s: Slot, boff: int) -> bool {
    &&& s.number == boff / 8
    &&& s.start == boff % 8
    &&& s.start <= s.end < 8
    &&& s.get_bit_mask == get_mask_spec(s.start, s.end)
    &&& s.set_width_bit_mask == set_width_mask_spec(s.start, s.end)
}

/// A field is well formed for bit offset `off` when its slots cover the bit
/// range `off..off + field_width` consecutively, and every slot but the last
/// runs to the end of its byte.
pub open spec fn field_wf(f: Field, off: int) -> bool {
    &&& f.slots@.len() > 0
    &&& forall|j: int|
        0 <= j < f.slots@.len() ==> slot_wf(
            #[trigger] f.slots@[j],
            off + slots_width_prefix(f.slots@, j),
        )
    &&& forall|j: int| 0 <= j < f.slots@.len() - 1 ==> (#[trigger] f.slots@[j]).end == 7
}

/// All fields are well formed at their offsets, each 1 to 64 bits wide.
pub open spec fn fields_wf(fields: Seq<Field>) -> bool {
    forall|i: int|
        0 <= i < fields.len() ==> {
            &&& field_wf(#[trigger] fields[i], fields_offset(fields, i))
            &&& 1 <= field_width(fields[i]) <= 64
        }
}

/// Total bits of the first `i` declared widths.
pub open spec fn widths_prefix(ws: Seq<u8>, i: int) -> int
    decreases i,
{
    if i <= 0 {
        0
    } else {
        widths_prefix(ws, i - 1) + ws[i - 1]
    }
}

/// Total bits of all declared widths.
pub open spec fn widths_total(ws: Seq<u8>) -> int {
    widths_prefix(ws, ws.len() as int)
}

/// The width sequences a buffer can be built from: each field 1 to 64 bits
/// wide, and a whole number of bytes in total.
pub open spec fn valid_widths(ws: Seq<u8>) -> bool {
    &&& forall|i: int| 0 <= i < ws.len() ==> 1 <= #[trigger] ws[i] <= 64
    &&& widths_total(ws) % 8 == 0
}

/// Prefix sums of widths grow with the prefix length.
pub proof fn lemma_widths_prefix_mono(ws: Seq<u8>, i: int, j: int)
    requires
        0 <= i <= j,
    ensures
        widths_prefix(ws, i) <= widths_prefix(ws, j),
    decreases j,
{
    if i < j {
        lemma_widths_prefix_mono(ws, i, j - 1);
    }
}

/// Appending to the slot sequence leaves earlier prefix sums unchanged.
pub proof fn lemma_slots_prefix_push(slots: Seq<Slot>, x: Slot, j: int)
    requires
        0 <= j <= slots.len(),
    ensures
        slots_width_prefix(slots.push(x), j) == slots_width_prefix(slots, j),
    decreases j,
{
    if j > 0 {
        lemma_slots_prefix_push(slots, x, j - 1);
    }
}

/// Appending to the field sequence leaves earlier offsets unchanged.
pub proof fn lemma_fields_offset_push(fields: Seq<Field>, x: Field, i: int)
    requires
        0 <= i <= fields.len(),
    ensures
        fields_offset(fields.push(x), i) == fields_offset(fields, i),
    decreases i,
{
    if i > 0 {
        lemma_fields_offset_push(fields, x, i - 1);
    }
}

/// Slot prefix sums grow with the prefix length when every slot is well
/// formed (and hence at least one bit wide).
pub proof fn lemma_slots_prefix_mono(f: Field, off: int, i: int, j: int)
    requires
        field_wf(f, off),
        0 <= i <= j <= f.slots@.len(),
    ensures
        slots_width_prefix(f.slots@, i) + (j - i) <= slots_width_prefix(f.slots@, j),
    decreases j,
{
    if i < j {
        lemma_slots_prefix_mono(f, off, i, j - 1);
        assert(slot_wf(f.slots@[j - 1], off + slots_width_prefix(f.slots@, j - 1)));
    }
}

/// Field offsets grow with the field index when all fields are well formed.
pub proof fn lemma_fields_offset_mono(fields: Seq<Field>, i: int, j: int)
    requires
        fields_wf(fields),
        0 <= i <= j <= fields.len(),
    ensures
        fields_offset(fields, i) + (j - i) <= fields_offset(fields, j),
    decreases j,
{
    if i < j {
        lemma_fields_offset_mono(fields, i, j - 1);
        assert(fields_wf(fields));
        assert(1 <= field_width(fields[j - 1]));
    }
}

/// Effect of appending a slot on all prefix sums at once.
pub proof fn lemma_slots_prefix_push_all(slots: Seq<Slot>, x: Slot)
    ensures
        forall|j: int|
            0 <= j <= slots.len() ==> slots_width_prefix(slots.push(x), j) == slots_width_prefix(
                slots,
                j,
            ),
        slots_width_prefix(slots.push(x), slots.len() as int + 1) == slots_width_prefix(
            slots,
            slots.len() as int,
        ) + slot_width(x),
{
    assert forall|j: int| 0 <= j <= slots.len() implies slots_width_prefix(slots.push(x), j)
        == slots_width_prefix(slots, j) by {
        lemma_slots_prefix_push(slots, x, j);
    }
    assert(slots.push(x)[slots.len() as int] == x);
}

/// Effect of appending a field on all offsets at once.
pub proof fn lemma_fields_offset_push_all(fields: Seq<Field>, x: Field)
    ensures
        forall|i: int|
            0 <= i <= fields.len() ==> fields_offset(fields.push(x), i) == fields_offset(
                fields,
                i,
            ),
        fields_offset(fields.push(x), fields.len() as int + 1) == fields_offset(
            fields,
            fields.len() as int,
        ) + field_width(x),
{
    assert forall|i: int| 0 <= i <= fields.len() implies fields_offset(fields.push(x), i)
        == fields_offset(fields, i) by {
        lemma_fields_offset_push(fields, x, i);
    }
    assert(fields.push(x)[fields.len() as int] == x);
}

/// When each field is as wide as its declared width, field offsets equal the
/// prefix sums of the declared widths.
pub proof fn lemma_offsets_from_widths(fields: Seq<Field>, ws: Seq<u8>, i: int)
    requires
        fields.len() == ws.len(),
        forall|t: int| 0 <= t < fields.len() ==> field_width(#[trigger] fields[t]) == ws[t],
        0 <= i <= fields.len(),
    ensures
        fields_offset(fields, i) == widths_prefix(ws, i),
    decreases i,
{
    if i > 0 {
        lemma_offsets_from_widths(fields, ws, i - 1);
    }
}

/// Moving `t` bits forward from `boff` stays in the same byte as long as the
/// bit position within the byte does not pass 7.
pub proof fn lemma_bit_pos(boff: int, t: int)
    requires
        boff >= 0,
        0 <= t,
        boff % 8 + t < 8,
    ensures
        (boff + t) / 8 == boff / 8,
        (boff + t) % 8 == boff % 8 + t,
{
    vstd::arithmetic::div_mod::lemma_fundamental_div_mod(boff, 8);
    vstd::arithmetic::div_mod::lemma_fundamental_div_mod_converse(
        boff + t,
        8,
        boff / 8,
        boff % 8 + t,
    );
}

/// A bit offset inside the buffer lies in a byte inside the buffer.
pub proof fn lemma_byte_in_range(boff: int, len: int)
    requires
        0 <= boff < 8 * len,
    ensures
        0 <= boff / 8 < len,
{
    vstd::arithmetic::div_mod::lemma_fundamental_div_mod(boff, 8);
}

/// Buffer bit `k`, as the byte and bit pair `(k / 8, k % 8)`, falls on a bit
/// that slot `j` of field `i` occupies.
pub open spec fn slot_covers(fields: Seq<Field>, i: int, j: int, k: int) -> bool {
    &&& 0 <= i < fields.len()
    &&& 0 <= j < fields[i].slots@.len()
    &&& fields[i].slots@[j].number == k / 8
    &&& fields[i].slots@[j].start <= k % 8 <= fields[i].slots@[j].end
}

/// Global bit offset at which slot `j` of field `i` begins.
pub open spec fn slot_offset(fields: Seq<Field>, i: int, j: int) -> int {
    fields_offset(fields, i) + slots_width_prefix(fields[i].slots@, j)
}

/// A slot covers bit `k` exactly when `k` lies in the slot's global bit
/// range.
pub proof fn lemma_slot_covers_iff(fields: Seq<Field>, i: int, j: int, k: int)
    requires
        fields_wf(fields),
        0 <= i < fields.len(),
        0 <= j < fields[i].slots@.len(),
        0 <= k,
    ensures
        slot_covers(fields, i, j, k) <==> (slot_offset(fields, i, j) <= k < slot_offset(
            fields,
            i,
            j,
        ) + slot_width(fields[i].slots@[j])),
{
    let f = fields[i];
    let off = fields_offset(fields, i);
    let boff = slot_offset(fields, i, j);
    let s = f.slots@[j];
    assert(field_wf(f, off));
    assert(slot_wf(s, boff));
    lemma_fields_offset_mono(fields, 0, i);
    lemma_slots_prefix_mono(f, off, 0, j);
    vstd::arithmetic::div_mod::lemma_fundamental_div_mod(boff, 8);
    vstd::arithmetic::div_mod::lemma_fundamental_div_mod(k, 8);
    if boff <= k < boff + slot_width(s) {
        lemma_bit_pos(boff, k - boff);
    }
}

/// There is a field whose bit range holds `k`; the search may start at any
/// index `i` whose offset has not yet passed `k`.
proof fn lemma_field_cover_exists(fields: Seq<Field>, k: int, i: int) -> (t: int)
    requires
        fields_wf(fields),
        0 <= i <= fields.len(),
        fields_offset(fields, i) <= k < total_bits(fields),
    ensures
        i <= t < fields.len(),
        fields_offset(fields, t) <= k < fields_offset(fields, t) + field_width(fields[t]),
    decreases fields.len() - i,
{
    assert(i < fields.len());
    if k < fields_offset(fields, i) + field_width(fields[i]) {
        i
    } else {
        assert(fields_offset(fields, i + 1) == fields_offset(fields, i) + field_width(fields[i]));
        lemma_field_cover_exists(fields, k, i + 1)
    }
}

/// Within a field, there is a slot whose bit range holds `k`.
proof fn lemma_slot_cover_exists(f: Field, off: int, k: int, j: int) -> (u: int)
    requires
        field_wf(f, off),
        0 <= j <= f.slots@.len(),
        off + slots_width_prefix(f.slots@, j) <= k < off + field_width(f),
    ensures
        j <= u < f.slots@.len(),
        off + slots_width_prefix(f.slots@, u) <= k < off + slots_width_prefix(f.slots@, u)
            + slot_width(f.slots@[u]),
    decreases f.slots@.len() - j,
{
    assert(j < f.slots@.len());
    if k < off + slots_width_prefix(f.slots@, j) + slot_width(f.slots@[j]) {
        j
    } else {
        assert(slots_width_prefix(f.slots@, j + 1) == slots_width_prefix(f.slots@, j) + slot_width(
            f.slots@[j],
        ));
        lemma_slot_cover_exists(f, off, k, j + 1)
    }
}

/// Slots that come earlier in the layout end no later than a later slot
/// begins.
proof fn lemma_slot_intervals_ordered(fields: Seq<Field>, i1: int, j1: int, i2: int, j2: int)
    requires
        fields_wf(fields),
        0 <= i1 < fields.len(),
        0 <= i2 < fields.len(),
        0 <= j1 < fields[i1].slots@.len(),
        0 <= j2 < fields[i2].slots@.len(),
        i1 < i2 || (i1 == i2 && j1 < j2),
    ensures
        slot_offset(fields, i1, j1) + slot_width(fields[i1].slots@[j1]) <= slot_offset(
            fields,
            i2,
            j2,
        ),
{
    let off1 = fields_offset(fields, i1);
    let off2 = fields_offset(fields, i2);
    assert(field_wf(fields[i1], off1));
    assert(field_wf(fields[i2], off2));
    assert(slots_width_prefix(fields[i1].slots@, j1 + 1) == slots_width_prefix(
        fields[i1].slots@,
        j1,
    ) + slot_width(fields[i1].slots@[j1]));
    if i1 == i2 {
        lemma_slots_prefix_mono(fields[i1], off1, j1 + 1, j2);
    } else {
        lemma_slots_prefix_mono(
            fields[i1],
            off1,
            j1 + 1,
            fields[i1].slots@.len() as int,
        );
        assert(fields_offset(fields, i1 + 1) == off1 + field_width(fields[i1]));
        lemma_fields_offset_mono(fields, i1 + 1, i2);
        lemma_slots_prefix_mono(fields[i2], off2, 0, j2);
    }
}

/// The slots of all fields tile the buffer bit for bit: every bit position of
/// the buffer is occupied by the slot of exactly one field, with no gap and
/// no overlap.
pub proof fn lemma_layout_partition(fields: Seq<Field>, k: int)
    requires
        fields_wf(fields),
        0 <= k < total_bits(fields),
    ensures
        exists|i: int, j: int| #[trigger] slot_covers(fields, i, j, k),
        forall|i1: int, j1: int, i2: int, j2: int|
            (#[trigger] slot_covers(fields, i1, j1, k) && #[trigger] slot_covers(fields, i2, j2, k))
                ==> i1 == i2 && j1 == j2,
{
    let i = lemma_field_cover_exists(fields, k, 0);
    let off = fields_offset(fields, i);
    assert(field_wf(fields[i], off));
    let j = lemma_slot_cover_exists(fields[i], off, k, 0);
    lemma_slot_covers_iff(fields, i, j, k);
    assert(slot_covers(fields, i, j, k));
    assert forall|i1: int, j1: int, i2: int, j2: int|
        (#[trigger] slot_covers(fields, i1, j1, k) && #[trigger] slot_covers(
            fields,
            i2,
            j2,
            k,
        )) implies i1 == i2 && j1 == j2 by {
        lemma_slot_covers_iff(fields, i1, j1, k);
        lemma_slot_covers_iff(fields, i2, j2, k);
        if i1 < i2 || (i1 == i2 && j1 < j2) {
            lemma_slot_intervals_ordered(fields, i1, j1, i2, j2);
        } else if i2 < i1 || (i2 == i1 && j2 < j1) {
            lemma_slot_intervals_ordered(fields, i2, j2, i1, j1);
        }
    }
}

/// Number of whole bytes the declared widths occupy. The widths are assumed
/// by the caller to sum to a multiple of 8.
pub fn calculate_data_size(field_sizes: &[u8]) -> (n: usize)
    requires
        widths_total(field_sizes@) <= usize::MAX,
    ensures
        n == widths_total(field_sizes@) / 8,
{
    let mut sum: usize = 0;
    let mut i: usize = 0;
    while i < field_sizes.len()
        invariant
            i <= field_sizes@.len(),
            sum == widths_prefix(field_sizes@, i as int),
            widths_total(field_sizes@) <= usize::MAX,
        decreases field_sizes@.len() - i,
    {
        proof {
            lemma_widths_prefix_mono(field_sizes@, i + 1, field_sizes@.len() as int);
        }
        sum = sum + field_sizes[i] as usize;
        i = i + 1;
    }
    sum / 8
}

} // verus!
