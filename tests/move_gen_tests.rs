use rusty_engine::bitboard;
use rusty_engine::move_gen::MoveGen;
use rusty_engine::slides::{naive_bishop_sliding, naive_rook_sliding};

#[test]
fn naive_slide_gen_works() {
    let blockers: u64 = 18141975937152;
    println!("Blockers:\n{}", bitboard::bb_to_string(blockers));
    let mut rook_sqr: u32 = 0;
    let mut res: u64 = naive_rook_sliding(rook_sqr, blockers, true);
    println!("With rook at sqr {}, got legal slides:\n{}", rook_sqr, bitboard::bb_to_string(res));
    rook_sqr = 9;
    res = naive_rook_sliding(rook_sqr, blockers, true);
    println!("With rook at sqr {}, got legal slides:\n{}", rook_sqr, bitboard::bb_to_string(res));
    rook_sqr = 27;
    res = naive_rook_sliding(rook_sqr, blockers, true);
    println!("With rook at sqr {}, got legal slides:\n{}", rook_sqr, bitboard::bb_to_string(res));
}

#[test]
fn rook_sliding_bbs_are_correct() {
    let gen: MoveGen = MoveGen::init().expect("magic tables");
    let blockers: u64 = 18141975937160;
    println!("Blockers:\n{}", bitboard::bb_to_string(blockers));
    let mut rook_sqr: u32 = 0;
    let mut correct: u64 = naive_rook_sliding(rook_sqr, blockers, true);
    let mut relevant_blockers: u64 = gen.get_relevant_blockers(rook_sqr as usize, blockers, true);
    let mut precomputed: u64 = gen.get_sliding_for(rook_sqr as usize, relevant_blockers, true);
    println!("Correct:\n{}", bitboard::bb_to_string(correct));
    println!("Precomputed:\n{}", bitboard::bb_to_string(precomputed));
    assert_eq!(correct, precomputed);
    println!("With rook at sqr {}, got legal slides:\n{}", rook_sqr, bitboard::bb_to_string(precomputed));
    println!("NEW CASE \n");
    rook_sqr = 9;
    correct = naive_rook_sliding(rook_sqr, blockers, true);
    relevant_blockers = gen.get_relevant_blockers(rook_sqr as usize, blockers, true);
    precomputed = gen.get_sliding_for(rook_sqr as usize, relevant_blockers, true);
    assert_eq!(correct, precomputed);
    println!("With rook at sqr {}, got legal slides:\n{}", rook_sqr, bitboard::bb_to_string(precomputed));
    println!("NEW CASE \n");
    rook_sqr = 27;
    correct = naive_rook_sliding(rook_sqr, blockers, true);
    relevant_blockers = gen.get_relevant_blockers(rook_sqr as usize, blockers, true);
    precomputed = gen.get_sliding_for(rook_sqr as usize, relevant_blockers, true);
    assert_eq!(correct, precomputed);
    println!("With rook at sqr {}, got legal slides:\n{}", rook_sqr, bitboard::bb_to_string(precomputed));
    println!("NEW CASE \n");
}

#[test]
fn bishop_sliding_bbs_are_correct() {
    let gen: MoveGen = MoveGen::init().expect("magic tables");
    let blockers: u64 = 4789472650593558;
    println!("Blockers:\n{}", bitboard::bb_to_string(blockers));
    let mut bishop_sqr: u32 = 0;
    let mut correct: u64 = naive_bishop_sliding(bishop_sqr, blockers, true);
    let mut relevant_blockers: u64 = gen.get_relevant_blockers(bishop_sqr as usize, blockers, false);
    let mut precomputed: u64 = gen.get_sliding_for(bishop_sqr as usize, relevant_blockers, false);
    println!("Correct:\n{}", bitboard::bb_to_string(correct));
    assert_eq!(correct, precomputed);
    println!("With bishop at sqr {}, got legal slides:\n{}", bishop_sqr, bitboard::bb_to_string(precomputed));
    println!("NEW CASE \n");
    bishop_sqr = 49;
    correct = naive_bishop_sliding(bishop_sqr, blockers, true);
    relevant_blockers = gen.get_relevant_blockers(bishop_sqr as usize, blockers, false);
    precomputed = gen.get_sliding_for(bishop_sqr as usize, relevant_blockers, false);
    assert_eq!(correct, precomputed);
    println!("With bishop at sqr {}, got legal slides:\n{}", bishop_sqr, bitboard::bb_to_string(precomputed));
    println!("NEW CASE \n");
    bishop_sqr = 28;
    correct = naive_bishop_sliding(bishop_sqr, blockers, true);
    relevant_blockers = gen.get_relevant_blockers(bishop_sqr as usize, blockers, false);
    precomputed = gen.get_sliding_for(bishop_sqr as usize, relevant_blockers, false);
    assert_eq!(correct, precomputed);
    println!("With bishop at sqr {}, got legal slides:\n{}", bishop_sqr, bitboard::bb_to_string(precomputed));
    println!("NEW CASE \n");
}

#[test]
fn empty_board_attack_tables() {
    let gen: MoveGen = MoveGen::init().expect("magic tables");
    // knight on b1 reaches a3, c3, d2
    assert_eq!(gen.attack_bbs[1][1], (1 << 16) | (1 << 18) | (1 << 11));
    // king on a1 reaches a2, b1, b2
    assert_eq!(gen.attack_bbs[5][0], (1 << 1) | (1 << 8) | (1 << 9));
    // white pawn on e2 attacks d3 and f3; black pawn on e7 attacks d6 and f6
    assert_eq!(gen.attack_bbs[0][12], (1 << 19) | (1 << 21));
    assert_eq!(gen.attack_bbs[6][52], (1 << 43) | (1 << 45));
    // pawns on an edge file attack one square
    assert_eq!(gen.attack_bbs[0][8], 1 << 17);
    // rook on a1: a-file and first rank
    assert_eq!(gen.attack_bbs[3][0], 0x01010101010101FE);
    // relevant blockers of a rook on a1 leave out the far edges
    assert_eq!(gen.rook_bbs_no_edges[0], 0x000101010101017E);
    // queen is rook and bishop together
    assert_eq!(gen.attack_bbs[4][27], gen.attack_bbs[3][27] | gen.attack_bbs[2][27]);
}

#[test]
fn blocker_subsets_are_all_enumerated() {
    let masks = rusty_engine::slides::generate_all_blocker_masks(0b1011, None);
    assert_eq!(masks, vec![0b1011, 0b1010, 0b1001, 0b1000, 0b0011, 0b0010, 0b0001, 0]);
    let cut = rusty_engine::slides::generate_all_blocker_masks(0b1111, Some(0b0110));
    assert_eq!(cut, vec![0b0110, 0b0100, 0b0010, 0]);
}

#[test]
fn searched_magics_give_the_same_slides() {
    let gen: MoveGen = MoveGen::init().expect("magic tables");
    let fresh = rusty_engine::magic::MagicBitboard::init_magic(
        &gen.attack_bbs,
        &gen.rook_bbs_no_edges,
        &gen.bishop_bbs_no_edges,
        true,
    )
    .expect("a multiplier is found for every square");
    let blockers: u64 = 18141975937160;
    for sqr in [0usize, 9, 27, 63] {
        let rel = blockers & fresh.rook_masks[sqr];
        assert_eq!(fresh.lookup(sqr, rel, true), naive_rook_sliding(sqr as u32, rel, true));
        let relb = blockers & fresh.bishop_masks[sqr];
        assert_eq!(fresh.lookup(sqr, relb, false), naive_bishop_sliding(sqr as u32, relb, true));
    }
}
