use rusty_engine::moves;
use rusty_engine::types::Color;

#[test]
fn encoding_works() {
    // quiet moves
    assert_eq!(moves::create(57, 42, false, Color::White, 0), 2147486393);
    assert_eq!(moves::create(0, 63, false, Color::White, 0), 2147487680);
    // captures, with the captured piece filled in
    assert_eq!(moves::with_eaten_piece(moves::create(57, 42, true, Color::Black, 6), 4), 201366201);
    assert_eq!(moves::with_eaten_piece(moves::create(0, 63, true, Color::White, 0), 9), 2147565504);
    // promotions
    assert_eq!(moves::create_promotion(49, 57, false, 10, Color::Black, 6), 223350385);
    assert_eq!(
        moves::with_eaten_piece(moves::create_promotion(49, 58, true, 4, Color::White, 0), 9),
        2157002417
    );
}

#[test]
fn _move_repr_test_decoding_works() {
    // quiet promotion
    let m1 = moves::create_promotion(49, 57, false, 10, Color::Black, 6);
    assert_eq!(moves::get_init(m1), 49);
    assert_eq!(moves::get_target(m1), 57);
    assert_eq!(moves::is_eating(m1), false);
    assert_eq!(moves::eaten_piece(m1), None);
    assert_eq!(moves::is_promotion(m1), true);
    assert_eq!(moves::is_white_move(m1), false);
    // capture
    let m2 = moves::with_eaten_piece(moves::create(57, 42, true, Color::Black, 6), 4);
    assert_eq!(moves::get_init(m2), 57);
    assert_eq!(moves::get_target(m2), 42);
    assert_eq!(moves::is_eating(m2), true);
    assert_eq!(moves::eaten_piece(m2), Some(4));
    assert_eq!(moves::is_promotion(m2), false);
    assert_eq!(moves::is_white_move(m2), false);
    // castling
    let m3 = moves::create_castling(Color::Black, true);
    assert_eq!(moves::is_castle(m3), true);
    assert_eq!(moves::is_short_castle(m3), true);
    assert_eq!(moves::is_long_castle(m3), false)
}

#[test]
fn every_field_reads_back() {
    let m = moves::create_promotion(12, 4, true, 9, Color::Black, 6);
    let m = moves::with_eaten_piece(m, 3);
    assert_eq!(moves::get_init(m), 12);
    assert_eq!(moves::get_target(m), 4);
    assert!(moves::is_eating(m));
    assert_eq!(moves::eaten_piece(m), Some(3));
    assert!(moves::is_promotion(m));
    assert_eq!(moves::get_promoted_piece(m), 9);
    assert_eq!(moves::get_moved_piece(m), 6);
    assert!(!moves::is_white_move(m));
    assert!(!moves::is_castle(m));
    assert!(!moves::is_en_passant(m));
    assert!(!moves::is_double_push(m));
}

#[test]
fn special_move_flags() {
    let dp = moves::create_double_push(12, 28, Color::White, 0);
    assert!(moves::is_double_push(dp));
    assert!(!moves::is_eating(dp));
    let ep = moves::create_en_passant(36, 43, Color::White, 0);
    assert!(moves::is_en_passant(ep));
    assert!(moves::is_eating(ep));
    assert_eq!(moves::eaten_piece(ep), Some(6));
    let wl = moves::create_castling(Color::White, false);
    assert_eq!(wl, moves::WHITE_LONG);
    assert!(moves::is_long_castle(wl));
    assert_eq!(moves::get_init(wl), 4);
    assert_eq!(moves::get_target(wl), 2);
    assert_eq!(moves::get_moved_piece(wl), 5);
    let bs = moves::create_castling(Color::Black, true);
    assert_eq!(bs, moves::BLACK_SHORT);
    assert_eq!(moves::get_init(bs), 60);
    assert_eq!(moves::get_target(bs), 62);
    assert_eq!(moves::get_moved_piece(bs), 11);
}

#[test]
fn promotions_fan_out_in_order() {
    let mut v: Vec<u32> = Vec::new();
    moves::add_all_promotions(48, 56, false, Color::White, &mut v);
    assert_eq!(v.len(), 4);
    let promoted: Vec<u32> = v.iter().map(|m| moves::get_promoted_piece(*m)).collect();
    assert_eq!(promoted, vec![1, 2, 3, 4]);
    for m in v {
        assert!(moves::is_promotion(m));
        assert_eq!(moves::get_moved_piece(m), 0);
    }
}

#[test]
fn move_text() {
    let m = moves::create(12, 28, false, Color::White, 0);
    assert_eq!(moves::to_string(m), "P(e2) -> e4");
    let n = moves::create(6, 21, true, Color::White, 1);
    assert_eq!(moves::to_string(n), "N(g1) x f3");
}

#[test]
fn castling_rights_per_side() {
    let move_gen = rusty_engine::move_gen::MoveGen::init().expect("magic tables");
    let mut b = rusty_engine::board::Board::default_board(&move_gen);
    // the h1 rook leaves its corner
    moves::update_white_castling(moves::create(7, 15, false, Color::White, 3), &mut b);
    assert!(!b.ws && b.wl && b.bs && b.bl);
    // a black move does not touch white's rights, a capture on a8 ends black's long right
    moves::update_white_castling(moves::create(48, 40, false, Color::Black, 6), &mut b);
    assert!(b.wl);
    moves::update_black_castling(moves::create(49, 56, true, Color::White, 2), &mut b);
    assert!(b.bs && !b.bl);
    // the black king moves
    moves::update_black_castling(moves::create(60, 61, false, Color::Black, 11), &mut b);
    assert!(!b.bs && !b.bl);
    moves::update_white_castling(moves::create(4, 5, false, Color::White, 5), &mut b);
    assert!(!b.ws && !b.wl);
}
