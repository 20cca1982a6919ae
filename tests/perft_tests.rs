use rusty_engine::fen::DEFAULT_FEN;
use rusty_engine::game::Game;

fn perft(game: &mut Game, depth: u32) -> u64 {
    if depth == 0 {
        return 1;
    }
    let moves: Vec<u32> = game.legal_moves().clone();
    if depth == 1 {
        return moves.len() as u64;
    }
    let mut nodes: u64 = 0;
    for m in moves {
        game.try_play(m).expect("legal move");
        nodes += perft(game, depth - 1);
        game.try_unmake_move().expect("a move was played");
    }
    nodes
}

#[test]
fn default_pos_perft_correct() {
    let mut game: Game = Game::game_with(DEFAULT_FEN).unwrap();
    assert_eq!(perft(&mut game, 1), 20);
    assert_eq!(perft(&mut game, 2), 400);
    assert_eq!(perft(&mut game, 3), 8902);
}

#[test]
fn default_pos_perft_depth_four() {
    let mut game: Game = Game::game_with(DEFAULT_FEN).unwrap();
    assert_eq!(perft(&mut game, 4), 197281);
}

#[test]
fn kiwipete_perft_correct() {
    let mut game: Game =
        Game::game_with("r3k2r/p1ppqpb1/bn2pnp1/3PN3/1p2P3/2N2Q1p/PPPBBPPP/R3K2R w KQkq -").unwrap();
    assert_eq!(perft(&mut game, 1), 48);
    assert_eq!(perft(&mut game, 2), 2039);
}

#[test]
fn kiwipete_perft_depth_three() {
    let mut game: Game =
        Game::game_with("r3k2r/p1ppqpb1/bn2pnp1/3PN3/1p2P3/2N2Q1p/PPPBBPPP/R3K2R w KQkq -").unwrap();
    assert_eq!(perft(&mut game, 3), 97862);
}
