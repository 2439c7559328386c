use bitfield::buffer::{Bitfield, BitfieldError};
use bitfield::layout::calculate_data_size;
use bitfield::masks::{create_get_bit_mask, create_set_width_bit_mask};

#[test]
fn rejects_sum_not_multiple_of_eight() {
    let r = Bitfield::new(&[9, 6, 13, 3]);
    assert!(matches!(r, Err(BitfieldError::InvalidLayout)));
}

#[test]
fn accepts_sum_multiple_of_eight() {
    let bf = Bitfield::new(&[9, 6, 13, 4]).unwrap();
    assert_eq!(bf.bytes().len(), 4);
    assert_eq!(bf.field_count(), 4);
}

#[test]
fn rejects_zero_width_field() {
    let r = Bitfield::new(&[0, 8]);
    assert!(matches!(r, Err(BitfieldError::InvalidLayout)));
}

#[test]
fn rejects_width_over_sixty_four() {
    let r = Bitfield::new(&[65, 7]);
    assert!(matches!(r, Err(BitfieldError::InvalidLayout)));
}

#[test]
fn empty_width_list_gives_empty_buffer() {
    let bf = Bitfield::new(&[]).unwrap();
    assert_eq!(bf.bytes().len(), 0);
    assert_eq!(bf.field_count(), 0);
}

#[test]
fn new_buffer_is_zeroed() {
    let bf = Bitfield::new(&[9, 6, 13, 4]).unwrap();
    assert_eq!(bf.bytes().as_slice(), &[0u8, 0, 0, 0]);
    for i in 0..4 {
        assert_eq!(bf.get(i).unwrap(), 0);
    }
}

#[test]
fn concrete_scenario_bytes_and_values() {
    let mut bf = Bitfield::new(&[9, 6, 13, 4]).unwrap();
    bf.set(0, 0b1_1000_0111).unwrap();
    bf.set(1, 0b10_1010).unwrap();
    bf.set(2, 0x1675).unwrap();
    bf.set(3, 0b1110).unwrap();
    assert_eq!(bf.get(0).unwrap(), 0b1_1000_0111);
    assert_eq!(bf.get(1).unwrap(), 0b10_1010);
    assert_eq!(bf.get(2).unwrap(), 0x1675 & 0x1FFF);
    assert_eq!(bf.get(3).unwrap(), 0b1110);
    assert_eq!(bf.bytes().as_slice(), &[0x87, 0xD5, 0x3A, 0xEB]);
}

#[test]
fn named_accessors_round_trip() {
    let mut bf = Bitfield::new(&[9, 6, 13, 4]).unwrap();
    bf.set_a(0b1100_0011_1).unwrap();
    bf.set_b(0b101_010).unwrap();
    bf.set_c(0x1675).unwrap();
    bf.set_d(0b1110).unwrap();
    assert_eq!(bf.get_a().unwrap(), 0b1100_0011_1u16);
    assert_eq!(bf.get_b().unwrap(), 0b101_010u8);
    assert_eq!(bf.get_c().unwrap(), 0x1675u16);
    assert_eq!(bf.get_d().unwrap(), 0b1110u8);
}

#[test]
fn named_accessors_on_short_layout_fail() {
    let mut bf = Bitfield::new(&[8]).unwrap();
    assert!(matches!(bf.set_b(1), Err(BitfieldError::IndexOutOfBounds)));
    assert!(matches!(bf.get_b(), Err(BitfieldError::IndexOutOfBounds)));
    assert!(matches!(bf.set_c(1), Err(BitfieldError::IndexOutOfBounds)));
    assert!(matches!(bf.get_c(), Err(BitfieldError::IndexOutOfBounds)));
    assert!(matches!(bf.set_d(1), Err(BitfieldError::IndexOutOfBounds)));
    assert!(matches!(bf.get_d(), Err(BitfieldError::IndexOutOfBounds)));
    bf.set_a(0xAB).unwrap();
    assert_eq!(bf.get_a().unwrap(), 0xAB);
}

#[test]
fn overwide_value_is_truncated() {
    let mut bf = Bitfield::new(&[9, 6, 13, 4]).unwrap();
    bf.set(1, 0xFFFF).unwrap();
    assert_eq!(bf.get(1).unwrap(), 0x3F);
    bf.set(0, 0x3FF).unwrap();
    assert_eq!(bf.get(0).unwrap(), 0x1FF);
    assert_eq!(bf.get(1).unwrap(), 0x3F);
}

#[test]
fn full_width_field_round_trip() {
    let mut bf = Bitfield::new(&[64]).unwrap();
    bf.set(0, u64::MAX).unwrap();
    assert_eq!(bf.get(0).unwrap(), u64::MAX);
    bf.set(0, 0x0123_4567_89AB_CDEF).unwrap();
    assert_eq!(bf.get(0).unwrap(), 0x0123_4567_89AB_CDEF);
    assert_eq!(bf.bytes().as_slice(), &[0xEF, 0xCD, 0xAB, 0x89, 0x67, 0x45, 0x23, 0x01]);
}

#[test]
fn set_does_not_disturb_other_fields() {
    let mut bf = Bitfield::new(&[9, 6, 13, 4]).unwrap();
    bf.set(0, 0x155).unwrap();
    bf.set(1, 0x2A).unwrap();
    bf.set(2, 0x1FFF).unwrap();
    bf.set(3, 0x9).unwrap();
    bf.set(1, 0x15).unwrap();
    assert_eq!(bf.get(0).unwrap(), 0x155);
    assert_eq!(bf.get(1).unwrap(), 0x15);
    assert_eq!(bf.get(2).unwrap(), 0x1FFF);
    assert_eq!(bf.get(3).unwrap(), 0x9);
}

#[test]
fn repeating_a_set_changes_nothing() {
    let mut bf = Bitfield::new(&[9, 6, 13, 4]).unwrap();
    bf.set(2, 0x1234).unwrap();
    let once = bf.bytes().clone();
    bf.set(2, 0x1234).unwrap();
    assert_eq!(bf.bytes().as_slice(), once.as_slice());
}

#[test]
fn out_of_range_index_fails_and_leaves_buffer_unchanged() {
    let mut bf = Bitfield::new(&[9, 6, 13, 4]).unwrap();
    bf.set(0, 0x1FF).unwrap();
    bf.set(3, 0xF).unwrap();
    let before = bf.bytes().clone();
    assert!(matches!(bf.get(4), Err(BitfieldError::IndexOutOfBounds)));
    assert!(matches!(bf.set(4, 1), Err(BitfieldError::IndexOutOfBounds)));
    assert_eq!(bf.bytes().as_slice(), before.as_slice());
}

#[test]
fn field_straddling_a_byte_boundary() {
    let mut bf = Bitfield::new(&[4, 8, 4]).unwrap();
    bf.set(0, 0xF).unwrap();
    bf.set(1, 0xAB).unwrap();
    bf.set(2, 0x3).unwrap();
    assert_eq!(bf.get(0).unwrap(), 0xF);
    assert_eq!(bf.get(1).unwrap(), 0xAB);
    assert_eq!(bf.get(2).unwrap(), 0x3);
    assert_eq!(bf.bytes().as_slice(), &[0xBF, 0x3A]);
}

#[test]
fn get_bit_mask_values() {
    assert_eq!(create_get_bit_mask(2, 5), 0b0011_1100);
    assert_eq!(create_get_bit_mask(0, 7), 0xFF);
    assert_eq!(create_get_bit_mask(7, 7), 0x80);
    assert_eq!(create_get_bit_mask(0, 0), 0x01);
}

#[test]
fn set_width_bit_mask_values() {
    assert_eq!(create_set_width_bit_mask(2, 5), 0xF);
    assert_eq!(create_set_width_bit_mask(3, 3), 0x1);
    assert_eq!(create_set_width_bit_mask(0, 7), 0xFF);
    assert_eq!(create_set_width_bit_mask(0, 63), u64::MAX);
}

#[test]
fn data_size_is_total_bits_over_eight() {
    assert_eq!(calculate_data_size(&[9, 6, 13, 4]), 4);
    assert_eq!(calculate_data_size(&[8]), 1);
    assert_eq!(calculate_data_size(&[]), 0);
    assert_eq!(calculate_data_size(&[64, 64]), 16);
}

#[test]
fn layout_slots_follow_the_running_cursor() {
    let fields = Bitfield::calculate_layout(&[9, 6, 13, 4]).unwrap();
    assert_eq!(fields.len(), 4);

    // Field 0: bits 0..9 -> all of byte 0, then bit 0 of byte 1.
    assert_eq!(fields[0].slots.len(), 2);
    assert_eq!(fields[0].slots[0].number, 0);
    assert_eq!(fields[0].slots[0].start, 0);
    assert_eq!(fields[0].slots[0].end, 7);
    assert_eq!(fields[0].slots[0].get_bit_mask, 0xFF);
    assert_eq!(fields[0].slots[0].set_width_bit_mask, 0xFF);
    assert_eq!(fields[0].slots[1].number, 1);
    assert_eq!(fields[0].slots[1].start, 0);
    assert_eq!(fields[0].slots[1].end, 0);
    assert_eq!(fields[0].slots[1].get_bit_mask, 0x01);
    assert_eq!(fields[0].slots[1].set_width_bit_mask, 0x01);

    // Field 1: bits 9..15 -> bits 1..=6 of byte 1.
    assert_eq!(fields[1].slots.len(), 1);
    assert_eq!(fields[1].slots[0].number, 1);
    assert_eq!(fields[1].slots[0].start, 1);
    assert_eq!(fields[1].slots[0].end, 6);
    assert_eq!(fields[1].slots[0].get_bit_mask, 0b0111_1110);
    assert_eq!(fields[1].slots[0].set_width_bit_mask, 0x3F);

    // Field 2: bits 15..28 -> bit 7 of byte 1, byte 2, bits 0..=3 of byte 3.
    assert_eq!(fields[2].slots.len(), 3);
    assert_eq!(fields[2].slots[0].number, 1);
    assert_eq!(fields[2].slots[0].start, 7);
    assert_eq!(fields[2].slots[0].end, 7);
    assert_eq!(fields[2].slots[1].number, 2);
    assert_eq!(fields[2].slots[1].start, 0);
    assert_eq!(fields[2].slots[1].end, 7);
    assert_eq!(fields[2].slots[2].number, 3);
    assert_eq!(fields[2].slots[2].start, 0);
    assert_eq!(fields[2].slots[2].end, 3);

    // Field 3: bits 28..32 -> bits 4..=7 of byte 3.
    assert_eq!(fields[3].slots.len(), 1);
    assert_eq!(fields[3].slots[0].number, 3);
    assert_eq!(fields[3].slots[0].start, 4);
    assert_eq!(fields[3].slots[0].end, 7);
    assert_eq!(fields[3].slots[0].get_bit_mask, 0xF0);
    assert_eq!(fields[3].slots[0].set_width_bit_mask, 0x0F);
}
