use minarrow::lmask::{advance, finalise, mark, mask_bytes, pack, unpack};

#[test]
fn cursor_round_trips_through_its_packed_form() {
    let v = pack(12345, 7);
    assert_eq!(v, 12345 * 256 + 7);
    assert_eq!(unpack(v), (12345, 7));
    assert_eq!(unpack(pack(0, 0)), (0, 0));
}

#[test]
fn advancing_a_full_byte_moves_to_the_next_byte() {
    assert_eq!(advance(3, 5), (3, 6));
    assert_eq!(advance(3, 7), (4, 0));
}

#[test]
fn a_fresh_byte_starts_all_valid_and_a_null_clears_its_bit() {
    let b = mark(0, 0, true);
    assert_eq!(b, 0xFF);
    let b = mark(b, 1, false);
    assert_eq!(b, 0b1111_1101);
    let b = mark(b, 2, true);
    assert_eq!(b, 0b1111_1101);
    let fresh_null = mark(0x00, 0, false);
    assert_eq!(fresh_null, 0b1111_1110);
}

#[test]
fn sealing_clears_the_bits_past_the_fill() {
    assert_eq!(finalise(0b1111_1101, 3), 0b0000_0101);
    assert_eq!(finalise(0xFF, 8), 0xFF);
    assert_eq!(finalise(0xAB, 0), 0xAB);
}

#[test]
fn eight_rows_share_a_mask_byte() {
    assert_eq!(mask_bytes(0), 0);
    assert_eq!(mask_bytes(1), 1);
    assert_eq!(mask_bytes(8), 1);
    assert_eq!(mask_bytes(9), 2);
}
