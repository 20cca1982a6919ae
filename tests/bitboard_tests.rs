use rusty_engine::bitboard;
use rusty_engine::board::square_to_string;

#[test]
fn pop_lsb_takes_lowest_square() {
    let mut bb: u64 = 0b1011000;
    assert_eq!(bitboard::pop_lsb(&mut bb), 3);
    assert_eq!(bb, 0b1010000);
    assert_eq!(bitboard::pop_lsb(&mut bb), 4);
    assert_eq!(bitboard::pop_lsb(&mut bb), 6);
    assert_eq!(bb, 0);
    let mut top: u64 = 1 << 63;
    assert_eq!(bitboard::pop_lsb(&mut top), 63);
}

#[test]
fn set_clear_contains() {
    let mut bb: u64 = 0;
    bitboard::set_square(&mut bb, 63);
    assert_eq!(bb, 1 << 63);
    assert!(bitboard::contains_square(bb, 63));
    assert!(!bitboard::contains_square(bb, 0));
    assert_eq!(bitboard::with_set_square(bb, 0), (1 << 63) | 1);
    bitboard::clear_square(&mut bb, 63);
    assert_eq!(bb, 0);
    assert_eq!(bitboard::with_clear_square(0xFF, 0), 0xFE);
    assert_eq!(bitboard::with_pop_lsb(0b1100), 0b1000);
    assert_eq!(bitboard::diff(0b1111, 0b0101), 0b1010);
}

#[test]
fn square_names() {
    assert_eq!(square_to_string(0), "a1");
    assert_eq!(square_to_string(28), "e4");
    assert_eq!(square_to_string(63), "h8");
}

#[test]
fn board_drawing() {
    let s = bitboard::bb_to_string(1);
    let lines: Vec<&str> = s.lines().collect();
    assert_eq!(lines.len(), 8);
    assert_eq!(lines[7], "1 0 0 0 0 0 0 0 ");
    assert_eq!(lines[0], "0 0 0 0 0 0 0 0 ");
    let h8 = bitboard::bb_to_string(1 << 63);
    assert_eq!(h8.lines().next().unwrap(), "0 0 0 0 0 0 0 1 ");
}
