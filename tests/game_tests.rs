use rusty_engine::game::{Game, GameError};
use rusty_engine::moves;
use rusty_engine::types::Color;

fn targets_from(game: &Game, from: u32) -> Vec<u32> {
    let mut t: Vec<u32> = game
        .legal_moves()
        .iter()
        .filter(|m| moves::get_init(**m) == from)
        .map(|m| moves::get_target(*m))
        .collect();
    t.sort();
    t
}

#[test]
fn default_position_moves() {
    let game = Game::new_default().unwrap();
    let legal = game.legal_moves();
    assert_eq!(legal.len(), 20);
    let pawn_moves = legal.iter().filter(|m| moves::get_moved_piece(**m) == 0).count();
    let knight_moves = legal.iter().filter(|m| moves::get_moved_piece(**m) == 1).count();
    assert_eq!(pawn_moves, 16);
    assert_eq!(knight_moves, 4);
    assert!(legal.iter().all(|m| !moves::is_eating(*m)));
    assert!(legal.iter().all(|m| moves::is_white_move(*m)));
    assert_eq!(game.board.ep_square, None);
    assert!(game.board.ws && game.board.wl && game.board.bs && game.board.bl);
}

#[test]
fn double_push_and_back() {
    let mut game = Game::new_default().unwrap();
    let m = game.try_make_move(12, 28).expect("e2-e4 is legal");
    assert!(moves::is_double_push(m));
    assert_eq!(game.board.ep_square, Some(20));
    assert_eq!(game.board.turn, Color::Black);
    let c5 = game
        .legal_moves()
        .iter()
        .copied()
        .find(|m| moves::get_init(*m) == 50 && moves::get_target(*m) == 34)
        .expect("c7-c5 is legal");
    assert!(moves::is_double_push(c5));
    assert!(game.legal_moves().iter().all(|m| !moves::is_white_move(*m)));
    assert_eq!(game.try_unmake_move(), Ok(m));
    assert_eq!(game.board.ep_square, None);
    assert_eq!(game.board.turn, Color::White);
    assert!(game.legal_moves().iter().all(|m| moves::is_white_move(*m)));
    assert_eq!(game.legal_moves().len(), 20);
}

#[test]
fn make_then_unmake_restores_everything() {
    let mut game =
        Game::game_with("r3k2r/p1ppqpb1/bn2pnp1/3PN3/1p2P3/2N2Q1p/PPPBBPPP/R3K2R w KQkq -").unwrap();
    let before_pieces = game.board.pieces;
    let before_attacks = (game.board.white_attacks, game.board.black_attacks);
    let before_legal = game.legal_moves().clone();
    for m in before_legal.clone() {
        game.try_play(m).unwrap();
        game.try_unmake_move().unwrap();
        assert_eq!(game.board.pieces, before_pieces);
        assert_eq!((game.board.white_attacks, game.board.black_attacks), before_attacks);
        assert!(game.board.ws && game.board.wl && game.board.bs && game.board.bl);
        assert_eq!(game.board.turn, Color::White);
        assert_eq!(game.legal_moves(), &before_legal);
        assert!(game.played_moves_stack.is_empty());
    }
}

#[test]
fn pinned_rook_position() {
    let game = Game::game_with("4k3/8/8/8/8/8/4R3/4K3 b - -").unwrap();
    let legal = game.legal_moves();
    assert!(legal.iter().all(|m| moves::get_moved_piece(*m) == 11));
    assert_eq!(targets_from(&game, 60), vec![51, 53, 59, 61]);
}

#[test]
fn pinned_piece_stays_on_its_ray() {
    // the black rook on e7 is pinned by the white rook on e2
    let game = Game::game_with("4k3/4r3/8/8/8/8/4R3/4K3 b - -").unwrap();
    assert_eq!(targets_from(&game, 52), vec![12, 20, 28, 36, 44]);
}

#[test]
fn en_passant_into_pin_is_rejected() {
    let game = Game::game_with("8/8/8/K2pP2r/8/8/8/4k3 w - d6").unwrap();
    let pseudo = game.move_gen.get_all_pseudolegal(&game.board, Color::White);
    assert!(pseudo.iter().any(|m| moves::is_en_passant(*m) && moves::get_init(*m) == 36 && moves::get_target(*m) == 43));
    assert!(!game.legal_moves().iter().any(|m| moves::is_en_passant(*m)));
}

#[test]
fn en_passant_when_not_pinned() {
    let mut game = Game::game_with("4k3/8/8/3pP3/8/8/8/4K3 w - d6").unwrap();
    let ep = game
        .legal_moves()
        .iter()
        .copied()
        .find(|m| moves::is_en_passant(*m))
        .expect("exd6 is legal");
    game.try_play(ep).unwrap();
    assert_eq!(game.board.pieces[6], 0);
    assert_eq!(game.board.pieces[0], 1 << 43);
    game.try_unmake_move().unwrap();
    assert_eq!(game.board.pieces[6], 1 << 35);
    assert_eq!(game.board.pieces[0], 1 << 36);
}

#[test]
fn double_check_forces_king_move() {
    let game = Game::game_with("4k3/8/r4N2/8/8/8/8/4R1K1 b - -").unwrap();
    assert_eq!(game.board.nof_checkers, 2);
    let legal = game.legal_moves();
    assert!(!legal.is_empty());
    assert!(legal.iter().all(|m| moves::get_moved_piece(*m) == 11));
}

#[test]
fn single_check_block_or_capture() {
    // the rook on a6 can take the checking knight
    let game = Game::game_with("4k3/8/r4N2/8/8/8/8/6K1 b - -").unwrap();
    assert_eq!(game.board.nof_checkers, 1);
    assert_eq!(targets_from(&game, 40), vec![45]);
}

#[test]
fn promotion_fan_out() {
    let game = Game::game_with("8/P7/8/8/8/8/8/k1K5 w - -").unwrap();
    let promos: Vec<u32> = game
        .legal_moves()
        .iter()
        .copied()
        .filter(|m| moves::get_init(*m) == 48)
        .collect();
    assert_eq!(promos.len(), 4);
    assert!(promos.iter().all(|m| moves::is_promotion(*m) && moves::get_target(*m) == 56));
    let mut kinds: Vec<u32> = promos.iter().map(|m| moves::get_promoted_piece(*m)).collect();
    kinds.sort();
    assert_eq!(kinds, vec![1, 2, 3, 4]);
}

#[test]
fn castling_both_sides() {
    let mut game = Game::game_with("r3k2r/8/8/8/8/8/8/R3K2R w KQkq -").unwrap();
    let castles: Vec<u32> = game.legal_moves().iter().copied().filter(|m| moves::is_castle(*m)).collect();
    assert_eq!(castles.len(), 2);
    assert!(castles.contains(&moves::WHITE_SHORT));
    assert!(castles.contains(&moves::WHITE_LONG));
    game.try_play(moves::WHITE_LONG).unwrap();
    assert_eq!(game.board.pieces[5], 1 << 2);
    assert_eq!(game.board.pieces[3], (1 << 3) | (1 << 7));
    assert!(!game.board.ws && !game.board.wl && game.board.bs && game.board.bl);
    game.try_unmake_move().unwrap();
    assert_eq!(game.board.pieces[5], 1 << 4);
    assert!(game.board.ws && game.board.wl);
}

#[test]
fn castling_through_attack_is_absent() {
    // the black rook on f8 attacks f1
    let game = Game::game_with("4kr2/8/8/8/8/8/8/R3K2R w KQ -").unwrap();
    let castles: Vec<u32> = game.legal_moves().iter().copied().filter(|m| moves::is_castle(*m)).collect();
    assert_eq!(castles, vec![moves::WHITE_LONG]);
}

#[test]
fn castling_rights_update() {
    let game = Game::new_default().unwrap();
    let mut b = game.board;
    b.update_castling_rights(7, 23, true, 3);
    assert!(!b.ws && b.wl && b.bs && b.bl);
    b.update_castling_rights(60, 52, false, 11);
    assert!(!b.ws && b.wl && !b.bs && !b.bl);
    b.update_castling_rights(10, 0, false, 9);
    assert!(!b.wl);
}

#[test]
fn errors() {
    let mut game = Game::new_default().unwrap();
    assert_eq!(game.try_unmake_move(), Err(GameError::NothingToUnmake));
    assert_eq!(game.try_make_move(12, 36), Err(GameError::IllegalMove));
    assert_eq!(game.try_play(0), Err(GameError::IllegalMove));
    assert!(matches!(Game::game_with("not a position"), Err(GameError::InvalidFen)));
}

#[test]
fn board_queries() {
    let game = Game::new_default().unwrap();
    let b = &game.board;
    assert_eq!(b.total_occupation(), 0xFFFF00000000FFFF);
    assert!(b.is_occupied(0) && !b.is_occupied(20));
    assert!(b.is_occupied_by(63, Color::Black) && !b.is_occupied_by(63, Color::White));
    assert_eq!(b.get_piece_type_at(3, Color::White), 4);
    assert_eq!(b.lift_piece_type_at(3, Color::Black), None);
    assert_eq!(b.get_king_sqr_idx(Color::Black), 60);
    assert!(!b.mover_in_check);
    assert_eq!(game.board.nof_checkers, 0);
}

#[test]
fn pin_data_is_recorded() {
    let game = Game::game_with("4k3/4r3/8/8/8/8/4R3/4K3 b - -").unwrap();
    assert_eq!(game.board.black_pinned, 1 << 52);
    // the ray from the king to the pinner, the pinned square included
    let ray: u64 = (1 << 12) | (1 << 20) | (1 << 28) | (1 << 36) | (1 << 44) | (1 << 52);
    assert_eq!(game.board.black_pinned_restrictions[52], ray);
    assert_eq!(game.board.white_pinned, 0);
    assert_eq!(game.board.nof_checkers, 0);
}

#[test]
fn sliding_check_data() {
    let game = Game::game_with("8/8/8/4k3/8/8/8/4R1K1 b - -").unwrap();
    assert_eq!(game.board.nof_checkers, 1);
    assert_eq!(game.board.check_block_sqrs, (1 << 4) | (1 << 12) | (1 << 20) | (1 << 28));
    assert_eq!(game.board.meta_attacks, 1 << 44);
    // the king may not step back along the rook's file
    let mut targets: Vec<u32> = game.legal_moves().iter().map(|m| moves::get_target(*m)).collect();
    targets.sort();
    assert_eq!(targets, vec![27, 29, 35, 37, 43, 45]);
}

#[test]
fn pawn_check_can_be_captured() {
    // the black pawn on f2 checks the king on e1 and can be taken by it
    let game = Game::game_with("4k3/8/8/8/8/8/5p2/4K3 w - -").unwrap();
    assert_eq!(game.board.nof_checkers, 1);
    let targets: Vec<u32> = game.legal_moves().iter().map(|m| moves::get_target(*m)).collect();
    assert!(targets.contains(&13));
}

#[test]
fn unsound_placement_is_an_invalid_fen() {
    // the text is well formed but White has two kings
    assert!(matches!(Game::game_with("4k3/8/8/8/8/8/8/K3K3 w - -"), Err(GameError::InvalidFen)));
    assert!(rusty_engine::fen::placement_is_sound(&"4k3/8/8/8/8/8/8/4K3 w - -".to_string()));
    assert!(!rusty_engine::fen::placement_is_sound(&"4k3/8/8/8/8/8/8/K3K3 w - -".to_string()));
}

#[test]
fn make_sets_en_passant_and_rights() {
    let mut game = Game::new_default().unwrap();
    game.try_make_move(12, 28).unwrap();
    assert_eq!(game.board.ep_square, Some(20));
    game.try_make_move(52, 36).unwrap();
    assert_eq!(game.board.ep_square, Some(44));
    game.try_make_move(4, 12).unwrap();
    assert!(!game.board.ws && !game.board.wl && game.board.bs && game.board.bl);
    assert_eq!(game.board.ep_square, None);
}

#[test]
fn en_passant_needs_the_enemy_pawn() {
    // d6 is named but no black pawn stands on d5
    let game = Game::game_with("4k3/8/8/4P3/8/8/8/4K3 w - d6").unwrap();
    assert!(!game.legal_moves().iter().any(|m| moves::is_en_passant(*m)));
}

#[test]
fn the_king_is_never_captured() {
    // White to move with the black king already attacked by the rook
    let game = Game::game_with("4k3/8/8/8/8/8/8/R3K3 w - -").unwrap();
    let game2 = Game::game_with("R3k3/8/8/8/8/8/8/4K3 w - -").unwrap();
    assert!(!game2.legal_moves().iter().any(|m| moves::get_target(*m) == 60));
    assert!(game.legal_moves().iter().all(|m| moves::get_target(*m) != 60));
}
