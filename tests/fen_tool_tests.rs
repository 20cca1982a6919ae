use rusty_engine::board::Board;
use rusty_engine::fen;
use rusty_engine::move_gen::MoveGen;
use rusty_engine::types::Color;

#[test]
fn fen_tool_tests_decoding_works() {
    let move_gen: MoveGen = MoveGen::init().expect("magic tables");
    let starting_pos_fen: &str = "rnbqkbnr/pppppppp/8/8/8/8/PPPPPPPP/RNBQKBNR w KQkq - 0 1";
    let board: Board = fen::fen_to_board(starting_pos_fen.to_string(), &move_gen).expect("");
    let correct_default: Board = Board::default_board(&move_gen);
    assert_eq!(board.pieces, correct_default.pieces);
}

#[test]
fn fen_fields_are_read() {
    let move_gen: MoveGen = MoveGen::init().expect("magic tables");
    let b = fen::fen_to_board("8/8/8/K2pP2r/8/8/8/4k3 w - d6".to_string(), &move_gen).expect("valid");
    assert_eq!(b.turn, Color::White);
    assert_eq!(b.ep_square, Some(43));
    assert!(!b.ws && !b.wl && !b.bs && !b.bl);
    assert_eq!(b.pieces[5], 1 << 32);
    assert_eq!(b.pieces[9], 1 << 39);
    let c = fen::fen_to_board("4k3/8/8/8/8/8/4R3/4K3 b Kq -".to_string(), &move_gen).expect("valid");
    assert_eq!(c.turn, Color::Black);
    assert!(c.ws && !c.wl && !c.bs && c.bl);
    assert_eq!(c.ep_square, None);
}

#[test]
fn invalid_fens_are_rejected() {
    let move_gen: MoveGen = MoveGen::init().expect("magic tables");
    let bad = [
        "rnbqkbnr/pppppppp/8/8/8/8/PPPPPPPP w KQkq - 0 1",
        "rnbqkbnr/pppppppp/8/8/8/8/PPPPPPPP/RNBQKBNR x KQkq - 0 1",
        "rnbqkbnr/pppppppp/9/8/8/8/PPPPPPPP/RNBQKBNR w KQkq - 0 1",
        "rnbqkbnr/pppppppp/8/8/8/8/PPPPPPPP/RNBQ1BNR w kq - 0 1",
        "rnbqkbnr/pppppppp/8/8/8/8/PPPPPPPP/RNBQKBNR w kQ - 0 1",
        "rnbqkbnr/pppppppp/8/8/8/8/PPPPPPPP/RNBQKBNR w KQkq z9 0 1",
        "rnbqkbnr/pppppppp/8/8/8/8/PPPPPPPP/RNBQKBNR w",
    ];
    for f in bad.iter() {
        assert!(!fen::is_valid_fen(&f.to_string()), "{}", f);
        assert!(fen::fen_to_board(f.to_string(), &move_gen).is_none(), "{}", f);
    }
    assert!(fen::is_valid_fen(&fen::DEFAULT_FEN.to_string()));
    // two white kings pass the text rules but not the board invariants
    assert!(fen::fen_to_board("4k3/8/8/8/8/8/8/K3K3 w - -".to_string(), &move_gen).is_none());
}

#[test]
fn piece_rows() {
    assert!(fen::is_legal_piece_row("rnbqkbnr"));
    assert!(fen::is_legal_piece_row("8"));
    assert!(fen::is_legal_piece_row("3pP2r"));
    assert!(!fen::is_legal_piece_row("7"));
    assert!(!fen::is_legal_piece_row("9"));
    assert!(!fen::is_legal_piece_row("rnbqkbnrp"));
    assert!(!fen::is_legal_piece_row("4x3"));
}
