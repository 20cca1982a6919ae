//! Attack tables, pseudo-legal generation, pin and check analysis, and the
//! legality filter.
use vstd::prelude::*;
use crate::bitboard::{
    bit_set, single, with_bit, without_bit, lemma_bit_ops, pop_lsb, contains_square,
    with_clear_square, with_set_square, set_square, FILE_A, FILE_H, RANK_1, RANK_2, RANK_7, RANK_8,
};
use crate::board::{Board, king_square, fits};
use crate::magic::{
    MagicBitboard, slides, stored_magics_work,
};
use crate::moves::{
    create, create_castling, create_en_passant, create_double_push, add_all_promotions,
    with_eaten_piece, get_init, get_target, get_moved_piece, is_en_passant, is_eating,
    castling_move, lemma_castling_fields, promotion_move, king_home, init_of, target_of, moved_of,
    capture_of, short_of, long_of, en_passant_of, white_of, eaten_of, encode, double_push_of,
    promotion_of, promoted_of, set_eaten,
};
use crate::slides::{
    naive_rook_sliding, naive_bishop_sliding, slide_to_dir, rook_rays, bishop_rays, ray_bits,
    submask, rook_mask, bishop_mask, lemma_masked_slides,
};
use crate::types::{Color, piece_of};

verus! {

/// Castling gap of white's short side (f1, g1): empty and not attacked.
pub const WS_CASTLING_GAP_BB: u64 = 0x60;
/// Castling gap of white's long side (b1, c1, d1): empty.
pub const WL_CASTLING_GAP_BB: u64 = 0x0E;
/// Squares the white king crosses castling long (c1, d1): not attacked.
pub const WL_CASTLING_PATH_BB: u64 = 0x0C;
pub const BS_CASTLING_GAP_BB: u64 = 0x6000000000000000;
pub const BL_CASTLING_GAP_BB: u64 = 0x0E00000000000000;
pub const BL_CASTLING_PATH_BB: u64 = 0x0C00000000000000;

/// Squares that must be empty to castle.
pub open spec fn castle_gap(side: Color, short: bool) -> u64 {
    if side == Color::White {
        if short { WS_CASTLING_GAP_BB } else { WL_CASTLING_GAP_BB }
    } else {
        if short { BS_CASTLING_GAP_BB } else { BL_CASTLING_GAP_BB }
    }
}

/// Squares the king passes or lands on when castling.
pub open spec fn castle_path(side: Color, short: bool) -> u64 {
    if side == Color::White {
        if short { WS_CASTLING_GAP_BB } else { WL_CASTLING_PATH_BB }
    } else {
        if short { BS_CASTLING_GAP_BB } else { BL_CASTLING_PATH_BB }
    }
}

pub open spec fn castle_right(b: Board, side: Color, short: bool) -> bool {
    if side == Color::White {
        if short { b.ws } else { b.wl }
    } else {
        if short { b.bs } else { b.bl }
    }
}

/// Corner of the rook that castles.
pub open spec fn rook_corner(side: Color, short: bool) -> u32 {
    if side == Color::White {
        if short { 7 } else { 0 }
    } else {
        if short { 63 } else { 56 }
    }
}

/// Castling on this side is allowed: not in check, the right is held, king
/// and rook stand on their squares, the gap is empty and the king's path is
/// not attacked.
pub open spec fn castle_allowed(b: Board, side: Color, short: bool) -> bool {
    &&& b.nof_checkers == 0
    &&& castle_right(b, side, short)
    &&& bit_set(b.pieces[if side == Color::White { 5int } else { 11int }], king_home(side))
    &&& bit_set(b.pieces[if side == Color::White { 3int } else { 9int }], rook_corner(side, short))
    &&& castle_gap(side, short) & b.occupied() == 0
    &&& castle_path(side, short) & b.attacks_of(side.opposite_spec()) == 0
}

/// A castling move that the generator may emit.
pub open spec fn castling_ok(b: Board, side: Color, m: u32) -> bool {
    ||| (m == castling_move(side, true) && castle_allowed(b, side, true))
    ||| (m == castling_move(side, false) && castle_allowed(b, side, false))
}

/// What every pseudo-legal move of `side` satisfies.
pub open spec fn pseudo_ok(b: Board, side: Color, m: u32) -> bool {
    &&& white_of(m) == (side == Color::White)
    &&& (short_of(m) || long_of(m)) ==> castling_ok(b, side, m)
    &&& en_passant_of(m) ==> (8 <= target_of(m) < 56 && b.ep_square == Some(target_of(m)))
}

/// `new` is `old` followed by moves that satisfy `ok`.
pub open spec fn appended(new: Seq<u32>, old: Seq<u32>, ok: spec_fn(u32) -> bool) -> bool {
    &&& old.len() <= new.len()
    &&& new.subrange(0, old.len() as int) == old
    &&& forall|i: int| old.len() <= i < new.len() ==> ok(#[trigger] new[i])
}

proof fn lemma_bit_logic(a: u64, b: u64, t: u32)
    by (bit_vector)
    requires
        t < 64,
    ensures
        bit_set(a & !b, t) == (bit_set(a, t) && !bit_set(b, t)),
        bit_set(a & b, t) == (bit_set(a, t) && bit_set(b, t)),
        bit_set(a | b, t) == (bit_set(a, t) || bit_set(b, t)),
        !bit_set(0, t),
{
}

/// Empty-board attack sets of the squares, built once.
struct AttackTables {
    white_pawn: [u64; 64],
    black_pawn: [u64; 64],
    knight: [u64; 64],
    bishop: [u64; 64],
    rook: [u64; 64],
    king: [u64; 64],
    rook_no_edges: [u64; 64],
    bishop_no_edges: [u64; 64],
}

/// A jump by (`dx`, `dy`) from file `x`, rank `y` stays on the board and
/// lands on `t`.
pub open spec fn lands(x: int, y: int, dx: int, dy: int, t: int) -> bool {
    0 <= x + dx < 8 && 0 <= y + dy < 8 && t == (y + dy) * 8 + x + dx
}

/// `t` is a knight's jump away from (`x`, `y`).
pub open spec fn knight_reach(x: int, y: int, t: int) -> bool {
    ||| lands(x, y, 1, 2, t)
    ||| lands(x, y, 2, 1, t)
    ||| lands(x, y, 2, -1, t)
    ||| lands(x, y, 1, -2, t)
    ||| lands(x, y, -1, -2, t)
    ||| lands(x, y, -2, -1, t)
    ||| lands(x, y, -2, 1, t)
    ||| lands(x, y, -1, 2, t)
}

/// `t` is a king's step away from (`x`, `y`).
pub open spec fn king_reach(x: int, y: int, t: int) -> bool {
    ||| lands(x, y, 1, 1, t)
    ||| lands(x, y, 1, 0, t)
    ||| lands(x, y, 1, -1, t)
    ||| lands(x, y, 0, -1, t)
    ||| lands(x, y, -1, -1, t)
    ||| lands(x, y, -1, 0, t)
    ||| lands(x, y, -1, 1, t)
    ||| lands(x, y, 0, 1, t)
}

/// Diagonal forward squares of a pawn of `side` on `s`; none from the first
/// or last rank.
pub open spec fn pawn_reach(side: Color, s: int, t: int) -> bool {
    let x = s % 8;
    let y = s / 8;
    &&& 1 <= y <= 6
    &&& if side == Color::White {
        lands(x, y, 1, 1, t) || lands(x, y, -1, 1, t)
    } else {
        lands(x, y, 1, -1, t) || lands(x, y, -1, -1, t)
    }
}

/// `bb` with the landing square of the jump (`dx`, `dy`) added, if on the board.
fn add_offset(bb: u64, x: i32, y: i32, dx: i32, dy: i32) -> (r: u64)
    requires
        0 <= x < 8,
        0 <= y < 8,
        -2 <= dx <= 2,
        -2 <= dy <= 2,
    ensures
        forall|t: u32|
            t < 64 ==> (bit_set(r, t) == (bit_set(bb, t) || lands(
                x as int,
                y as int,
                dx as int,
                dy as int,
                t as int,
            ))),
{
    let tx: i32 = x + dx;
    let ty: i32 = y + dy;
    if 0 <= tx && tx < 8 && 0 <= ty && ty < 8 {
        let s: u32 = (ty * 8 + tx) as u32;
        proof {
            assert forall|t: u32| t < 64 implies bit_set(bb | (1u64 << (s as u64)), t) == (bit_set(bb, t)
                || lands(x as int, y as int, dx as int, dy as int, t as int)) by {
                lemma_bit_ops(bb, s, t);
            }
        }
        bb | (1u64 << s)
    } else {
        bb
    }
}

/// Knight jumps from (`x`, `y`).
fn knight_attacks_for(x: i32, y: i32) -> (r: u64)
    requires
        0 <= x < 8,
        0 <= y < 8,
    ensures
        forall|t: u32| t < 64 ==> (bit_set(r, t) == knight_reach(x as int, y as int, t as int)),
{
    proof {
        assert forall|t: u32| t < 64 implies !bit_set(0, t) by {
            lemma_bit_logic(0, 0, t);
        }
    }
    let mut bb: u64 = add_offset(0, x, y, 1, 2);
    bb = add_offset(bb, x, y, 2, 1);
    bb = add_offset(bb, x, y, 2, -1);
    bb = add_offset(bb, x, y, 1, -2);
    bb = add_offset(bb, x, y, -1, -2);
    bb = add_offset(bb, x, y, -2, -1);
    bb = add_offset(bb, x, y, -2, 1);
    bb = add_offset(bb, x, y, -1, 2);
    bb
}

/// King steps from (`x`, `y`).
fn king_attacks_for(x: i32, y: i32) -> (r: u64)
    requires
        0 <= x < 8,
        0 <= y < 8,
    ensures
        forall|t: u32| t < 64 ==> (bit_set(r, t) == king_reach(x as int, y as int, t as int)),
{
    proof {
        assert forall|t: u32| t < 64 implies !bit_set(0, t) by {
            lemma_bit_logic(0, 0, t);
        }
    }
    let mut bb: u64 = add_offset(0, x, y, 1, 1);
    bb = add_offset(bb, x, y, 1, 0);
    bb = add_offset(bb, x, y, 1, -1);
    bb = add_offset(bb, x, y, 0, -1);
    bb = add_offset(bb, x, y, -1, -1);
    bb = add_offset(bb, x, y, -1, 0);
    bb = add_offset(bb, x, y, -1, 1);
    bb = add_offset(bb, x, y, 0, 1);
    bb
}

/// Diagonal captures of a white pawn on `sqr`.
fn pawn_attacks_white_for(sqr: u32) -> (r: u64)
    requires
        sqr < 64,
    ensures
        forall|t: u32| t < 64 ==> (bit_set(r, t) == pawn_reach(Color::White, sqr as int, t as int)),
{
    let x: i32 = (sqr % 8) as i32;
    let y: i32 = (sqr / 8) as i32;
    if y == 0 || y == 7 {
        proof {
            assert forall|t: u32| t < 64 implies !bit_set(0, t) by {
                lemma_bit_logic(0, 0, t);
            }
        }
        return 0;
    }
    proof {
        assert forall|t: u32| t < 64 implies !bit_set(0, t) by {
            lemma_bit_logic(0, 0, t);
        }
    }
    let bb: u64 = add_offset(0, x, y, 1, 1);
    add_offset(bb, x, y, -1, 1)
}

/// Diagonal captures of a black pawn on `sqr`.
fn pawn_attacks_black_for(sqr: u32) -> (r: u64)
    requires
        sqr < 64,
    ensures
        forall|t: u32| t < 64 ==> (bit_set(r, t) == pawn_reach(Color::Black, sqr as int, t as int)),
{
    let x: i32 = (sqr % 8) as i32;
    let y: i32 = (sqr / 8) as i32;
    proof {
        assert forall|t: u32| t < 64 implies !bit_set(0, t) by {
            lemma_bit_logic(0, 0, t);
        }
    }
    if y == 0 || y == 7 {
        return 0;
    }
    let bb: u64 = add_offset(0, x, y, 1, -1);
    add_offset(bb, x, y, -1, -1)
}

/// Fills every table entry of the square on file `x`, rank `y`.
fn process_square(x: u32, y: u32, tables: &mut AttackTables)
    requires
        x < 8,
        y < 8,
    ensures
        ({
            let s = (x + y * 8) as int;
            let t = *final(tables);
            let o = *old(tables);
            &&& t.white_pawn@ == o.white_pawn@.update(s, t.white_pawn[s])
            &&& t.black_pawn@ == o.black_pawn@.update(s, t.black_pawn[s])
            &&& t.knight@ == o.knight@.update(s, t.knight[s])
            &&& t.bishop@ == o.bishop@.update(s, bishop_rays(s, 0, true))
            &&& t.rook@ == o.rook@.update(s, rook_rays(s, 0, true))
            &&& t.king@ == o.king@.update(s, t.king[s])
            &&& t.rook_no_edges@ == o.rook_no_edges@.update(s, rook_rays(s, 0, false))
            &&& t.bishop_no_edges@ == o.bishop_no_edges@.update(s, bishop_rays(s, 0, false))
            &&& forall|q: u32| q < 64 ==> (bit_set(t.white_pawn[s], q) == pawn_reach(Color::White, s, q as int))
            &&& forall|q: u32| q < 64 ==> (bit_set(t.black_pawn[s], q) == pawn_reach(Color::Black, s, q as int))
            &&& forall|q: u32| q < 64 ==> (bit_set(t.knight[s], q) == knight_reach(x as int, y as int, q as int))
            &&& forall|q: u32| q < 64 ==> (bit_set(t.king[s], q) == king_reach(x as int, y as int, q as int))
        }),
{
    let sqr_idx: u32 = x + y * 8;
    let xs: i32 = x as i32;
    let ys: i32 = y as i32;
    tables.white_pawn[sqr_idx as usize] = pawn_attacks_white_for(sqr_idx);
    tables.black_pawn[sqr_idx as usize] = pawn_attacks_black_for(sqr_idx);
    tables.knight[sqr_idx as usize] = knight_attacks_for(xs, ys);
    tables.bishop[sqr_idx as usize] = naive_bishop_sliding(sqr_idx, 0, true);
    tables.rook[sqr_idx as usize] = naive_rook_sliding(sqr_idx, 0, true);
    tables.king[sqr_idx as usize] = king_attacks_for(xs, ys);
    tables.rook_no_edges[sqr_idx as usize] = naive_rook_sliding(sqr_idx, 0, false);
    tables.bishop_no_edges[sqr_idx as usize] = naive_bishop_sliding(sqr_idx, 0, false);
}


/// The entry of table `t` for square `s` is right.
spec fn square_done(t: AttackTables, s: int) -> bool {
    &&& t.bishop[s] == bishop_rays(s, 0, true)
    &&& t.rook[s] == rook_rays(s, 0, true)
    &&& t.rook_no_edges[s] == rook_rays(s, 0, false)
    &&& t.bishop_no_edges[s] == bishop_rays(s, 0, false)
    &&& forall|q: u32| q < 64 ==> (bit_set(t.white_pawn[s], q) == pawn_reach(Color::White, s, q as int))
    &&& forall|q: u32| q < 64 ==> (bit_set(t.black_pawn[s], q) == pawn_reach(Color::Black, s, q as int))
    &&& forall|q: u32| q < 64 ==> (bit_set(t.knight[s], q) == knight_reach(s % 8, s / 8, q as int))
    &&& forall|q: u32| q < 64 ==> (bit_set(t.king[s], q) == king_reach(s % 8, s / 8, q as int))
}

#[verifier::rlimit(100)]
proof fn lemma_tables_ok(r: MoveGen, tables: AttackTables, queen: [u64; 64])
    requires
        forall|s: int| 0 <= s < 64 ==> square_done(tables, s),
        forall|s: int| 0 <= s < 64 ==> queen[s] == tables.rook[s] | tables.bishop[s],
        r.attack_bbs[0] == tables.white_pawn,
        r.attack_bbs[1] == tables.knight,
        r.attack_bbs[2] == tables.bishop,
        r.attack_bbs[3] == tables.rook,
        r.attack_bbs[4] == queen,
        r.attack_bbs[5] == tables.king,
        r.attack_bbs[6] == tables.black_pawn,
        r.attack_bbs[7] == tables.knight,
        r.attack_bbs[8] == tables.bishop,
        r.attack_bbs[9] == tables.rook,
        r.attack_bbs[10] == queen,
        r.attack_bbs[11] == tables.king,
        r.rook_bbs_no_edges == tables.rook_no_edges,
        r.bishop_bbs_no_edges == tables.bishop_no_edges,
    ensures
        r.tables_ok(),
{
    assert forall|s: int| 0 <= s < 64 implies #[trigger] r.square_tables_ok(s) by {
        assert(square_done(tables, s));
        assert(r.attack_bbs[2][s] == tables.bishop[s]);
        assert(r.attack_bbs[3][s] == tables.rook[s]);
        assert(r.attack_bbs[4][s] == queen[s]);
        assert(r.attack_bbs[0][s] == tables.white_pawn[s]);
        assert(r.attack_bbs[6][s] == tables.black_pawn[s]);
        assert(r.attack_bbs[1][s] == tables.knight[s]);
        assert(r.attack_bbs[5][s] == tables.king[s]);
        assert forall|k: int| 0 <= k < 6 implies r.attack_bbs[k + 6][s] == #[trigger] r.attack_bbs[k][s] || k == 0 by {
            if k == 1 { assert(r.attack_bbs[7][s] == tables.knight[s]); }
            if k == 2 { assert(r.attack_bbs[8][s] == tables.bishop[s]); }
            if k == 3 { assert(r.attack_bbs[9][s] == tables.rook[s]); }
            if k == 4 { assert(r.attack_bbs[10][s] == queen[s]); }
            if k == 5 { assert(r.attack_bbs[11][s] == tables.king[s]); }
        }
    }
}

/// Attack tables, blocker masks and magic lookups, built once and then only read.
pub struct MoveGen {
    /// Empty-board attacks per piece identifier and square; pawns only
    /// their diagonal captures.
    pub attack_bbs: [[u64; 64]; 12],
    /// Rook slides on an empty board without the final edge square.
    pub rook_bbs_no_edges: [u64; 64],
    pub bishop_bbs_no_edges: [u64; 64],
    pub magic_bb: MagicBitboard,
}

impl MoveGen {
    /// The tables hold the empty-board attacks of every piece on square `s`.
    pub open spec fn square_tables_ok(&self, s: int) -> bool {
        &&& self.attack_bbs[2][s] == bishop_rays(s, 0, true)
        &&& self.attack_bbs[3][s] == rook_rays(s, 0, true)
        &&& self.attack_bbs[4][s] == rook_rays(s, 0, true) | bishop_rays(s, 0, true)
        &&& self.rook_bbs_no_edges[s] == rook_rays(s, 0, false)
        &&& self.bishop_bbs_no_edges[s] == bishop_rays(s, 0, false)
        &&& forall|k: int| 0 <= k < 6 ==> self.attack_bbs[k + 6][s] == #[trigger] self.attack_bbs[k][s] || k == 0
        &&& forall|q: u32| q < 64 ==> (bit_set(self.attack_bbs[0][s], q) == pawn_reach(Color::White, s, q as int))
        &&& forall|q: u32| q < 64 ==> (bit_set(self.attack_bbs[6][s], q) == pawn_reach(Color::Black, s, q as int))
        &&& forall|q: u32| q < 64 ==> (bit_set(self.attack_bbs[1][s], q) == knight_reach(s % 8, s / 8, q as int))
        &&& forall|q: u32| q < 64 ==> (bit_set(self.attack_bbs[5][s], q) == king_reach(s % 8, s / 8, q as int))
    }

    /// The lookups use each square's relevant-blocker masks.
    pub open spec fn masks_ok(&self) -> bool {
        forall|s: int| 0 <= s < 64 ==> #[trigger] self.magic_bb.rook_masks[s] == rook_mask(s)
            && self.magic_bb.bishop_masks[s] == bishop_mask(s)
    }

    /// The tables hold the empty-board attacks of every piece on every square.
    pub open spec fn tables_ok(&self) -> bool {
        forall|s: int| 0 <= s < 64 ==> #[trigger] self.square_tables_ok(s)
    }

    /// Lookups and tables hold what they are built to hold.
    pub open spec fn wf(&self) -> bool {
        &&& self.magic_bb.wf()
        &&& self.tables_ok()
        &&& self.masks_ok()
    }

    /// Builds the attack tables and the magic lookups; `None` only when no
    /// working multiplier could be found for some square.
    #[verifier::rlimit(50)]
    pub fn init() -> (r: Option<Self>)
        ensures
            r matches Some(g) ==> g.wf(),
            stored_magics_work() ==> r is Some,
    {
        let mut tables = AttackTables {
            white_pawn: [0u64; 64],
            black_pawn: [0u64; 64],
            knight: [0u64; 64],
            bishop: [0u64; 64],
            rook: [0u64; 64],
            king: [0u64; 64],
            rook_no_edges: [0u64; 64],
            bishop_no_edges: [0u64; 64],
        };
        let mut y: u32 = 0;
        while y < 8
            invariant
                y <= 8,
                forall|s: int| 0 <= s < y * 8 ==> square_done(tables, s),
            decreases 8 - y,
        {
            let mut x: u32 = 0;
            while x < 8
                invariant
                    x <= 8,
                    y < 8,
                    forall|s: int| 0 <= s < y * 8 + x ==> square_done(tables, s),
                decreases 8 - x,
            {
                let ghost before = tables;
                process_square(x, y, &mut tables);
                proof {
                    let sq = (x + y * 8) as int;
                    assert(sq % 8 == x && sq / 8 == y);
                    assert forall|s: int| 0 <= s < y * 8 + x + 1 implies square_done(tables, s) by {
                        if s < sq {
                            assert(square_done(before, s));
                            assert(tables.white_pawn[s] == before.white_pawn[s]);
                            assert(tables.black_pawn[s] == before.black_pawn[s]);
                            assert(tables.knight[s] == before.knight[s]);
                            assert(tables.king[s] == before.king[s]);
                            assert(tables.bishop[s] == before.bishop[s]);
                            assert(tables.rook[s] == before.rook[s]);
                            assert(tables.rook_no_edges[s] == before.rook_no_edges[s]);
                            assert(tables.bishop_no_edges[s] == before.bishop_no_edges[s]);
                        } else {
                            assert(tables.bishop[s] == bishop_rays(s, 0, true));
                            assert(tables.rook[s] == rook_rays(s, 0, true));
                            assert(tables.rook_no_edges[s] == rook_rays(s, 0, false));
                            assert(tables.bishop_no_edges[s] == bishop_rays(s, 0, false));
                        }
                    }
                }
                x += 1;
            }
            y += 1;
        }
        let mut queen: [u64; 64] = [0u64; 64];
        let mut i: usize = 0;
        while i < 64
            invariant
                i <= 64,
                forall|s: int| 0 <= s < i ==> queen[s] == tables.rook[s] | tables.bishop[s],
            decreases 64 - i,
        {
            queen[i] = tables.rook[i] | tables.bishop[i];
            i += 1;
        }
        let attack_bbs: [[u64; 64]; 12] = [
            tables.white_pawn,
            tables.knight,
            tables.bishop,
            tables.rook,
            queen,
            tables.king,
            tables.black_pawn,
            tables.knight,
            tables.bishop,
            tables.rook,
            queen,
            tables.king,
        ];
        proof {
            if stored_magics_work() {
                assert forall|s: int| 0 <= s < 64 implies attack_bbs[3][s] == rook_rays(s, 0, true)
                    && tables.rook_no_edges[s] == rook_rays(s, 0, false) && attack_bbs[2][s] == bishop_rays(s, 0, true)
                    && tables.bishop_no_edges[s] == bishop_rays(s, 0, false) by {
                    assert(square_done(tables, s));
                    assert(attack_bbs[3][s] == tables.rook[s] && attack_bbs[2][s] == tables.bishop[s]);
                }
                crate::magic::lemma_stored_magics_fit(attack_bbs, tables.rook_no_edges, tables.bishop_no_edges);
            }
        }
        let magic_bb = match MagicBitboard::init_magic(
            &attack_bbs,
            &tables.rook_no_edges,
            &tables.bishop_no_edges,
            false,
        ) {
            Some(m) => m,
            None => {
                return None;
            },
        };
        let r = MoveGen {
            attack_bbs,
            rook_bbs_no_edges: tables.rook_no_edges,
            bishop_bbs_no_edges: tables.bishop_no_edges,
            magic_bb,
        };
        proof {
            lemma_tables_ok(r, tables, queen);
        }
        assert(r.magic_bb.wf());
        assert(r.tables_ok());
        assert forall|s: int| 0 <= s < 64 implies #[trigger] r.magic_bb.rook_masks[s] == rook_mask(s)
            && r.magic_bb.bishop_masks[s] == bishop_mask(s) by {
            assert(r.square_tables_ok(s));
            assert(square_done(tables, s));
            assert(r.magic_bb.mask(s, true) == crate::slides::blocker_mask(attack_bbs[3][s], Some(tables.rook_no_edges[s])));
            assert(r.magic_bb.mask(s, false) == crate::slides::blocker_mask(attack_bbs[2][s], Some(tables.bishop_no_edges[s])));
            assert(attack_bbs[3][s] == tables.rook[s] && attack_bbs[2][s] == tables.bishop[s]);
        }
        Some(r)
    }
}


/// Slides of a rook (`rook`) or bishop on `s` among the pieces `occ`, with
/// `s` itself left out of the blockers.
pub open spec fn sliding_targets(g: MoveGen, s: int, occ: u64, rook: bool) -> u64 {
    slides(s, without_bit(occ, s as u32) & g.magic_bb.mask(s, rook), rook)
}

/// Squares a non-pawn piece `piece` on `from` attacks, own pieces included.
pub open spec fn piece_reach(g: MoveGen, b: Board, from: int, piece: u32) -> u64 {
    let k = piece % 6;
    if k == 1 {
        g.attack_bbs[1][from]
    } else if k == 2 {
        sliding_targets(g, from, b.occupied(), false)
    } else if k == 3 {
        sliding_targets(g, from, b.occupied(), true)
    } else if k == 4 {
        sliding_targets(g, from, b.occupied(), true) | sliding_targets(g, from, b.occupied(), false)
    } else {
        g.attack_bbs[5][from]
    }
}

/// The move of `piece` from `from` to `t`, a capture when `opp` holds `t`.
pub open spec fn plain_move(from: u32, t: u32, opp: u64, side: Color, piece: u32) -> u32 {
    encode(from, t, bit_set(opp, t), 0, false, false, false, false, 0, piece, false, side == Color::White)
}

proof fn lemma_tail_join(base: Seq<u32>, v0: Seq<u32>, v1: Seq<u32>)
    requires
        base.len() <= v0.len() <= v1.len(),
        v1.subrange(0, v0.len() as int) == v0,
        tail_distinct(v0, base),
        tail_distinct(v1, v0),
        forall|i: int, j: int| base.len() <= i < v0.len() <= j < v1.len() ==> v1[i] != v1[j],
    ensures
        tail_distinct(v1, base),
{
    assert forall|i: int, j: int| base.len() <= i < j < v1.len() implies v1[i] != v1[j] by {
        if j < v0.len() {
            assert(v1[i] == v0[i] && v1[j] == v0[j]);
        }
    }
}

/// A pawn does not attack the squares straight ahead of it.
proof fn lemma_pawn_ahead_not_attacked(g: MoveGen, s: u32, side: Color)
    requires
        g.wf(),
        s < 64,
        (if side == Color::White { s < 56 } else { s >= 8 }),
    ensures
        !bit_set(g.attack_bbs[side.first_piece() as int][s as int], ahead(s, side, 1)),
        start_rank(s, side) ==> !bit_set(g.attack_bbs[side.first_piece() as int][s as int], ahead(s, side, 2)),
{
    assert(g.square_tables_ok(s as int));
    let x = (s % 8) as int;
    let y = (s / 8) as int;
    assert(s as int == 8 * y + x);
    let a1 = ahead(s, side, 1);
    let a2 = ahead(s, side, 2);
    if side == Color::White {
        assert(a1 as int == s + 8);
        assert(bit_set(g.attack_bbs[0][s as int], a1) == pawn_reach(Color::White, s as int, a1 as int));
        if start_rank(s, side) {
            assert(a2 as int == s + 16);
            assert(bit_set(g.attack_bbs[0][s as int], a2) == pawn_reach(Color::White, s as int, a2 as int));
        }
    } else {
        assert(a1 as int == s - 8);
        assert(bit_set(g.attack_bbs[6][s as int], a1) == pawn_reach(Color::Black, s as int, a1 as int));
        if start_rank(s, side) {
            assert(a2 as int == s - 16);
            assert(bit_set(g.attack_bbs[6][s as int], a2) == pawn_reach(Color::Black, s as int, a2 as int));
        }
    }
}

/// The entries `v` has beyond `base` are pairwise different.
pub open spec fn tail_distinct(v: Seq<u32>, base: Seq<u32>) -> bool {
    forall|i: int, j: int| base.len() <= i < j < v.len() ==> v[i] != v[j]
}

/// `m` is among the entries that `new` has beyond `old`.
pub open spec fn added(new: Seq<u32>, old: Seq<u32>, m: u32) -> bool {
    exists|i: int| old.len() <= i < new.len() && new[i] == m
}

proof fn lemma_added_push(v: Seq<u32>, base: Seq<u32>, x: u32, y: u32)
    requires
        base.len() <= v.len(),
    ensures
        added(v, base, x) ==> added(v.push(y), base, x),
        added(v.push(y), base, y),
{
    if added(v, base, x) {
        let i = choose|i: int| base.len() <= i < v.len() && v[i] == x;
        assert(v.push(y)[i] == x);
    }
    assert(v.push(y)[v.len() as int] == y);
}

proof fn lemma_added_extend(v: Seq<u32>, w: Seq<u32>, base: Seq<u32>, x: u32)
    requires
        base.len() <= v.len() <= w.len(),
        w.subrange(0, v.len() as int) == v,
    ensures
        added(v, base, x) ==> added(w, base, x),
{
    if added(v, base, x) {
        let i = choose|i: int| base.len() <= i < v.len() && v[i] == x;
        assert(w.subrange(0, v.len() as int)[i] == w[i]);
    }
}

proof fn lemma_added_base(v: Seq<u32>, mid: Seq<u32>, base: Seq<u32>, x: u32)
    requires
        base.len() <= mid.len(),
    ensures
        added(v, mid, x) ==> added(v, base, x),
{
}

/// The pawn moves of `side` from `s` onto `t`: the four promotions when `s`
/// is on the rank before the last (`promo`), the plain move otherwise.
pub open spec fn step_present(v: Seq<u32>, base: Seq<u32>, s: u32, t: u32, cap: bool, side: Color, promo: bool) -> bool {
    if promo {
        forall|k: u32| 1 <= k <= 4 ==> #[trigger] added(v, base, promotion_move(s, t, cap, side, k))
    } else {
        added(v, base, encode(s, t, cap, 0, false, false, false, false, 0, side.first_piece(), false, side == Color::White))
    }
}

proof fn lemma_step_extend(v: Seq<u32>, w: Seq<u32>, mid: Seq<u32>, base: Seq<u32>, s: u32, t: u32, cap: bool, side: Color, promo: bool)
    requires
        base.len() <= mid.len() <= v.len() <= w.len(),
        w.subrange(0, v.len() as int) == v,
    ensures
        step_present(v, mid, s, t, cap, side, promo) ==> step_present(w, base, s, t, cap, side, promo),
{
    if step_present(v, mid, s, t, cap, side, promo) {
        if promo {
            assert forall|k: u32| 1 <= k <= 4 implies #[trigger] added(w, base, promotion_move(s, t, cap, side, k)) by {
                lemma_added_base(v, mid, base, promotion_move(s, t, cap, side, k));
                lemma_added_extend(v, w, base, promotion_move(s, t, cap, side, k));
            }
        } else {
            let x = encode(s, t, cap, 0, false, false, false, false, 0, side.first_piece(), false, side == Color::White);
            lemma_added_base(v, mid, base, x);
            lemma_added_extend(v, w, base, x);
        }
    }
}

pub open spec fn occupied_sq(b: Board, t: u32) -> bool {
    bit_set(b.white_occupation, t) || bit_set(b.black_occupation, t)
}

/// `s` is on the rank a pawn of `side` promotes from.
pub open spec fn promo_from(s: u32, side: Color) -> bool {
    if side == Color::White { 48 <= s < 56 } else { 8 <= s < 16 }
}

/// `s` is on the start rank of the pawns of `side`.
pub open spec fn start_rank(s: u32, side: Color) -> bool {
    if side == Color::White { 8 <= s < 16 } else { 48 <= s < 56 }
}

/// The square `n` steps ahead of `s` for a pawn of `side`.
pub open spec fn ahead(s: u32, side: Color, n: int) -> u32 {
    (if side == Color::White { s + 8 * n } else { s - 8 * n }) as u32
}

/// Every pseudo-legal move of the pawn of `side` on `s` is among the
/// entries `v` has beyond `base`: each diagonal capture onto an enemy piece,
/// the step onto an empty square ahead, and from the start rank the double
/// step over two empty squares.
pub open spec fn pawn_complete(v: Seq<u32>, base: Seq<u32>, b: Board, g: MoveGen, side: Color, s: u32) -> bool {
    let promo = promo_from(s, side);
    let first = side.first_piece();
    (if side == Color::White { s < 56 } else { s >= 8 }) ==> {
        &&& forall|t: u32|
            t < 64 && bit_set(g.attack_bbs[first as int][s as int], t) && bit_set(b.occupation_of(side.opposite_spec()), t)
                ==> #[trigger] step_present(v, base, s, t, true, side, promo)
        &&& !occupied_sq(b, ahead(s, side, 1)) ==> step_present(v, base, s, ahead(s, side, 1), false, side, promo)
        &&& (start_rank(s, side) && !occupied_sq(b, ahead(s, side, 1)) && !occupied_sq(b, ahead(s, side, 2))) ==> added(
            v,
            base,
            encode(s, ahead(s, side, 2), false, 0, false, false, true, false, 0, first, false, side == Color::White),
        )
    }
}

/// A move of `piece` from `from` toward a square of `targets`.
pub open spec fn target_move_ok(side: Color, from: u32, piece: u32, targets: u64, opp: u64, m: u32) -> bool {
    &&& m == plain_move(from, target_of(m), opp, side, piece)
    &&& init_of(m) == from
    &&& moved_of(m) == piece
    &&& white_of(m) == (side == Color::White)
    &&& !short_of(m) && !long_of(m) && !en_passant_of(m)
    &&& capture_of(m) == bit_set(opp, target_of(m))
    &&& bit_set(targets, target_of(m))
}

/// Pushes a move from `from` to each square of `targets`, in increasing
/// square order, flagged as a capture where `opp` holds a piece.
fn emit_targets(from: u32, piece: u32, mover: Color, targets: u64, opp: u64, move_vec: &mut Vec<u32>)
    requires
        from < 64,
        piece < 12,
    ensures
        appended(final(move_vec)@, old(move_vec)@, |m: u32| target_move_ok(mover, from, piece, targets, opp, m)),
        forall|t: u32| t < 64 && bit_set(targets, t) ==> #[trigger] added(final(move_vec)@, old(move_vec)@, plain_move(from, t, opp, mover, piece)),
        tail_distinct(final(move_vec)@, old(move_vec)@),
{
    let mut rest: u64 = targets;
    proof {
        lemma_appended_refl(move_vec@, |m: u32| target_move_ok(mover, from, piece, targets, opp, m));
    }
    while rest != 0
        invariant
            from < 64,
            piece < 12,
            forall|t: u32| t < 64 && #[trigger] bit_set(rest, t) ==> bit_set(targets, t),
            appended(move_vec@, old(move_vec)@, |m: u32| target_move_ok(mover, from, piece, targets, opp, m)),
            forall|t: u32| t < 64 && bit_set(targets, t) && !bit_set(rest, t) ==> #[trigger] added(move_vec@, old(move_vec)@, plain_move(from, t, opp, mover, piece)),
            tail_distinct(move_vec@, old(move_vec)@),
            forall|i: int| old(move_vec)@.len() <= i < move_vec@.len() ==> !bit_set(rest, target_of(#[trigger] move_vec@[i])),
        decreases rest,
    {
        let ghost before = rest;
        let ghost vbefore = move_vec@;
        let target_sqr: u32 = pop_lsb(&mut rest);
        proof {
            assert forall|t: u32| t < 64 && #[trigger] bit_set(rest, t) implies bit_set(targets, t) by {
                lemma_bit_ops(before, target_sqr, t);
            }
        }
        let is_take: bool = contains_square(opp, target_sqr);
        let m = create(from, target_sqr, is_take, mover, piece);
        move_vec.push(m);
        proof {
            assert(move_vec@.subrange(0, old(move_vec)@.len() as int) =~= vbefore.subrange(0, old(move_vec)@.len() as int));
            assert forall|i: int| old(move_vec)@.len() <= i < move_vec@.len() implies target_move_ok(mover, from, piece, targets, opp, #[trigger] move_vec@[i]) by {
                if i < vbefore.len() {
                    assert(move_vec@[i] == vbefore[i]);
                }
            }
            assert forall|t: u32| t < 64 && bit_set(targets, t) && !bit_set(rest, t) implies #[trigger] added(move_vec@, old(move_vec)@, plain_move(from, t, opp, mover, piece)) by {
                lemma_bit_ops(before, target_sqr, t);
                lemma_added_push(vbefore, old(move_vec)@, plain_move(from, t, opp, mover, piece), m);
            }
            assert(target_of(m) == target_sqr);
            assert forall|i: int| old(move_vec)@.len() <= i < move_vec@.len() implies !bit_set(rest, target_of(#[trigger] move_vec@[i])) by {
                crate::moves::lemma_field_ranges_pub(move_vec@[i]);
                lemma_bit_ops(before, target_sqr, target_of(move_vec@[i]));
                if i < vbefore.len() {
                    assert(move_vec@[i] == vbefore[i]);
                }
            }
            assert forall|i: int, j: int| old(move_vec)@.len() <= i < j < move_vec@.len() implies move_vec@[i] != move_vec@[j] by {
                if j < vbefore.len() {
                    assert(move_vec@[i] == vbefore[i] && move_vec@[j] == vbefore[j]);
                } else {
                    assert(move_vec@[i] == vbefore[i]);
                    crate::moves::lemma_field_ranges_pub(vbefore[i]);
                    assert(!bit_set(before, target_of(vbefore[i])));
                }
            }
        }
    }
    proof {
        assert forall|t: u32| t < 64 && bit_set(targets, t) implies #[trigger] added(move_vec@, old(move_vec)@, plain_move(from, t, opp, mover, piece)) by {
            lemma_bit_logic(0, 0, t);
        }
    }
}

/// Every square attacked by the pawns of `side`.
pub fn pawn_attacked(board: &Board, side: Color) -> (r: u64)
    ensures
        r == (if side == Color::White {
            ((board.pieces[0] & !FILE_A) << 7u64) | ((board.pieces[0] & !FILE_H) << 9u64)
        } else {
            ((board.pieces[6] & !FILE_A) >> 9u64) | ((board.pieces[6] & !FILE_H) >> 7u64)
        }),
{
    if side.is_white() {
        ((board.pieces[0] & !FILE_A) << 7u64) | ((board.pieces[0] & !FILE_H) << 9u64)
    } else {
        ((board.pieces[6] & !FILE_A) >> 9u64) | ((board.pieces[6] & !FILE_H) >> 7u64)
    }
}

impl MoveGen {
    /// The blockers in `blockers` that matter for a slider on `sqr`: those off
    /// the far edges of its rays.
    pub fn get_relevant_blockers(&self, sqr: usize, blockers: u64, cardinal: bool) -> (r: u64)
        requires
            sqr < 64,
        ensures
            r == blockers & self.magic_bb.mask(sqr as int, cardinal),
            submask(r, self.magic_bb.mask(sqr as int, cardinal)),
    {
        let mask: u64 = if cardinal { self.magic_bb.rook_masks[sqr] } else { self.magic_bb.bishop_masks[sqr] };
        assert((blockers & mask) & !mask == 0) by (bit_vector);
        blockers & mask
    }

    /// Slides from `sqr` for the relevant blockers `rel_blockers`; own
    /// pieces are not removed.
    pub fn get_sliding_for(&self, sqr: usize, rel_blockers: u64, rook: bool) -> (r: u64)
        requires
            self.wf(),
            sqr < 64,
            submask(rel_blockers, self.magic_bb.mask(sqr as int, rook)),
        ensures
            r == slides(sqr as int, rel_blockers, rook),
    {
        self.magic_bb.lookup(sqr, rel_blockers, rook)
    }

    /// Pseudo-legal moves of `piece` on `from`. Pawns go to
    /// [`pseudolegal_pawn`]. Other pieces take their attack set, without own
    /// pieces unless `keep_protected`; with `targets_only` that set is
    /// returned, otherwise one move per square is pushed and 0 returned.
    pub fn pseudolegal_for(
        &self,
        from: u32,
        piece: u32,
        mover: Color,
        board: &Board,
        move_vec: &mut Vec<u32>,
        keep_protected: bool,
        targets_only: bool,
    ) -> (r: u64)
        requires
            self.wf(),
            board.wf(),
            from < 64,
            piece_of(piece, mover),
        ensures
            piece % 6 != 0 && targets_only ==> r == (if keep_protected {
                piece_reach(*self, *board, from as int, piece)
            } else {
                piece_reach(*self, *board, from as int, piece) & !board.occupation_of(mover)
            }) && final(move_vec)@ == old(move_vec)@,
            piece % 6 == 0 || !targets_only ==> r == 0,
            piece % 6 != 0 && !targets_only ==> appended(final(move_vec)@, old(move_vec)@, |m: u32|
                target_move_ok(mover, from, piece, if keep_protected {
                    piece_reach(*self, *board, from as int, piece)
                } else {
                    piece_reach(*self, *board, from as int, piece) & !board.occupation_of(mover)
                }, board.occupation_of(mover.opposite_spec()), m)),
            piece % 6 == 0 ==> appended(final(move_vec)@, old(move_vec)@, |m: u32|
                pawn_sound(*board, *self, mover, from, m)),
            piece % 6 != 0 && !targets_only ==> forall|t: u32| t < 64 && bit_set(if keep_protected {
                piece_reach(*self, *board, from as int, piece)
            } else {
                piece_reach(*self, *board, from as int, piece) & !board.occupation_of(mover)
            }, t) ==> #[trigger] added(final(move_vec)@, old(move_vec)@, plain_move(from, t, board.occupation_of(mover.opposite_spec()), mover, piece)),
            piece % 6 == 0 ==> pawn_complete(final(move_vec)@, old(move_vec)@, *board, *self, mover, from),
            !targets_only ==> tail_distinct(final(move_vec)@, old(move_vec)@),
    {
        let kind: u32 = piece % 6;
        if kind == 0 {
            pseudolegal_pawn(from, mover, board, self, move_vec);
            return 0;
        }
        let occ_wo: u64 = with_clear_square(board.total_occupation(), from);
        let s: usize = from as usize;
        let reach: u64 = if kind == 1 {
            self.attack_bbs[1][s]
        } else if kind == 2 {
            self.get_sliding_for(s, self.get_relevant_blockers(s, occ_wo, false), false)
        } else if kind == 3 {
            self.get_sliding_for(s, self.get_relevant_blockers(s, occ_wo, true), true)
        } else if kind == 4 {
            self.get_sliding_for(s, self.get_relevant_blockers(s, occ_wo, true), true)
                | self.get_sliding_for(s, self.get_relevant_blockers(s, occ_wo, false), false)
        } else {
            self.attack_bbs[5][s]
        };
        let own: u64 = if mover.is_white() { board.white_occupation } else { board.black_occupation };
        let opponent_occupied: u64 = if mover.is_white() { board.black_occupation } else { board.white_occupation };
        let targets: u64 = if keep_protected { reach } else { reach & !own };
        if targets_only {
            return targets;
        }
        emit_targets(from, piece, mover, targets, opponent_occupied, move_vec);
        0
    }
}

/// A pawn move of `side` from `from` as the generator emits it, and one
/// that the pawn rules give.
pub open spec fn pawn_sound(b: Board, g: MoveGen, side: Color, from: u32, m: u32) -> bool {
    pawn_move_ok(b, side, from, m) && pawn_generated(b, g, side, from, m)
}

/// A pawn move of `side` from `from` as the generator emits it.
pub open spec fn pawn_move_ok(b: Board, side: Color, from: u32, m: u32) -> bool {
    &&& init_of(m) == from
    &&& moved_of(m) == side.first_piece()
    &&& white_of(m) == (side == Color::White)
    &&& !short_of(m) && !long_of(m) && !en_passant_of(m)
    &&& target_of(m) < 64
    &&& capture_of(m) == bit_set(b.occupation_of(side.opposite_spec()), target_of(m))
    &&& !bit_set(b.occupation_of(side), target_of(m))
}

/// Pseudo-legal pawn moves from `from`: diagonal captures, one step forward
/// onto an empty square, two steps from the start rank over two empty
/// squares; each move onto the last rank fans out into four promotions.
/// En passant is added elsewhere.
pub fn pseudolegal_pawn(from: u32, mover: Color, board: &Board, move_gen: &MoveGen, move_vec: &mut Vec<u32>)
    requires
        move_gen.wf(),
        board.wf(),
        from < 64,
    ensures
        appended(final(move_vec)@, old(move_vec)@, |m: u32| pawn_sound(*board, *move_gen, mover, from, m)),
        pawn_complete(final(move_vec)@, old(move_vec)@, *board, *move_gen, mover, from),
        tail_distinct(final(move_vec)@, old(move_vec)@),
{
    let white: bool = mover.is_white();
    proof {
        lemma_appended_refl(move_vec@, |m: u32| pawn_sound(*board, *move_gen, mover, from, m));
        lemma_rank_bits(from);
    }
    if (white && from >= 56) || (!white && from < 8) {
        return;
    }
    let pawn: u32 = if white { 0 } else { 6 };
    let is_promotion: bool = if white { contains_square(RANK_7, from) } else { contains_square(RANK_2, from) };
    let forward: u32 = if white { from + 8 } else { from - 8 };
    let own: u64 = if white { board.white_occupation } else { board.black_occupation };
    let enemy_occupied: u64 = if white { board.black_occupation } else { board.white_occupation };
    let ghost ok = |m: u32| pawn_sound(*board, *move_gen, mover, from, m);
    let ghost base = old(move_vec)@;
    let table: u64 = move_gen.attack_bbs[pawn as usize][from as usize];
    // captures
    let mut characteristic_attacks: u64 = table;
    while characteristic_attacks != 0
        invariant
            from < 64,
            pawn == mover.first_piece(),
            white == (mover == Color::White),
            own == board.occupation_of(mover),
            enemy_occupied == board.occupation_of(mover.opposite_spec()),
            is_promotion == promo_from(from, mover),
            table == move_gen.attack_bbs[pawn as int][from as int],
            board.wf(),
            base == old(move_vec)@,
            ok == (|m: u32| pawn_sound(*board, *move_gen, mover, from, m)),
            appended(move_vec@, base, ok),
            (if mover == Color::White { from < 56 } else { from >= 8 }),
            forward == ahead(from, mover, 1),
            forall|sq: u32| sq < 64 && #[trigger] bit_set(characteristic_attacks, sq) ==> bit_set(table, sq),
            forall|t: u32| t < 64 && bit_set(table, t) && !bit_set(characteristic_attacks, t) && bit_set(enemy_occupied, t)
                ==> #[trigger] step_present(move_vec@, base, from, t, true, mover, is_promotion),
            tail_distinct(move_vec@, base),
            forall|i: int| base.len() <= i < move_vec@.len() ==> bit_set(table, target_of(#[trigger] move_vec@[i]))
                && !bit_set(characteristic_attacks, target_of(move_vec@[i])),
        decreases characteristic_attacks,
    {
        let ghost rest0 = characteristic_attacks;
        let ghost v0 = move_vec@;
        let attack_sqr: u32 = pop_lsb(&mut characteristic_attacks);
        proof {
            assert forall|sq: u32| sq < 64 && #[trigger] bit_set(characteristic_attacks, sq) implies bit_set(table, sq) by {
                lemma_bit_ops(rest0, attack_sqr, sq);
            }
        }
        if contains_square(enemy_occupied, attack_sqr) {
            proof {
                lemma_colors_disjoint(*board, attack_sqr);
                lemma_bit_logic(board.white_occupation, board.black_occupation, attack_sqr);
            }
            push_pawn_move(from, attack_sqr, true, mover, is_promotion, move_vec, Ghost(ok));
        } else {
            proof {
                assert(move_vec@.subrange(0, v0.len() as int) =~= v0);
            }
        }
        proof {
            assert(move_vec@.subrange(0, move_vec@.len() as int) =~= move_vec@);
            assert forall|i: int| base.len() <= i < move_vec@.len() implies bit_set(table, target_of(#[trigger] move_vec@[i]))
                && !bit_set(characteristic_attacks, target_of(move_vec@[i])) by {
                crate::moves::lemma_field_ranges_pub(move_vec@[i]);
                lemma_bit_ops(rest0, attack_sqr, target_of(move_vec@[i]));
                if i < v0.len() {
                    assert(move_vec@[i] == v0[i]);
                }
            }
            assert forall|i: int, j: int| base.len() <= i < v0.len() <= j < move_vec@.len() implies move_vec@[i] != move_vec@[j] by {
                assert(move_vec@[i] == v0[i]);
                crate::moves::lemma_field_ranges_pub(v0[i]);
            }
            if move_vec@.len() > v0.len() {
                lemma_tail_join(base, v0, move_vec@);
            }
            assert forall|t: u32| t < 64 && bit_set(table, t) && !bit_set(characteristic_attacks, t) && bit_set(enemy_occupied, t)
                implies #[trigger] step_present(move_vec@, base, from, t, true, mover, is_promotion) by {
                lemma_bit_ops(rest0, attack_sqr, t);
                if t == attack_sqr {
                    lemma_step_extend(move_vec@, move_vec@, v0, base, from, t, true, mover, is_promotion);
                    assert(move_vec@.subrange(0, move_vec@.len() as int) =~= move_vec@);
                } else {
                    lemma_step_extend(v0, move_vec@, base, base, from, t, true, mover, is_promotion);
                }
            }
        }
    }
    proof {
        assert forall|t: u32| t < 64 && bit_set(table, t) && bit_set(enemy_occupied, t)
            implies #[trigger] step_present(move_vec@, base, from, t, true, mover, is_promotion) by {
            lemma_bit_logic(0, 0, t);
        }
    }
    // pushes
    proof {
        lemma_pawn_ahead_not_attacked(*move_gen, from, mover);
    }
    if !board.is_occupied(forward) {
        let ghost v1 = move_vec@;
        push_pawn_move(from, forward, false, mover, is_promotion, move_vec, Ghost(ok));
        proof {
            assert forall|i: int, j: int| base.len() <= i < v1.len() <= j < move_vec@.len() implies move_vec@[i] != move_vec@[j] by {
                assert(move_vec@[i] == v1[i]);
                assert(bit_set(table, target_of(v1[i])));
            }
            lemma_tail_join(base, v1, move_vec@);
            assert forall|t: u32| t < 64 && bit_set(table, t) && bit_set(enemy_occupied, t)
                implies #[trigger] step_present(move_vec@, base, from, t, true, mover, is_promotion) by {
                lemma_step_extend(v1, move_vec@, base, base, from, t, true, mover, is_promotion);
            }
            assert(move_vec@.subrange(0, move_vec@.len() as int) =~= move_vec@);
            lemma_step_extend(move_vec@, move_vec@, v1, base, from, forward, false, mover, is_promotion);
        }
        let on_start: bool = if white { contains_square(RANK_2, from) } else { contains_square(RANK_7, from) };
        if on_start {
            let forward2: u32 = if white { from + 16 } else { from - 16 };
            if !board.is_occupied(forward2) {
                let m = create_double_push(from, forward2, mover, pawn);
                let ghost v2 = move_vec@;
                move_vec.push(m);
                proof {
                    lemma_append_one(v2, old(move_vec)@, m, ok);
                    assert(move_vec@.subrange(0, v2.len() as int) =~= v2);
                    assert forall|i: int, j: int| base.len() <= i < j < move_vec@.len() implies move_vec@[i] != move_vec@[j] by {
                        if j < v2.len() {
                            assert(move_vec@[i] == v2[i] && move_vec@[j] == v2[j]);
                        } else {
                            assert(move_vec@[i] == v2[i]);
                            if i < v1.len() {
                                assert(v2[i] == v1[i]);
                                assert(bit_set(table, target_of(v1[i])));
                            } else {
                                assert(target_of(v2[i]) == forward);
                            }
                        }
                    }
                    assert forall|t: u32| t < 64 && bit_set(table, t) && bit_set(enemy_occupied, t)
                        implies #[trigger] step_present(move_vec@, base, from, t, true, mover, is_promotion) by {
                        lemma_step_extend(v2, move_vec@, base, base, from, t, true, mover, is_promotion);
                    }
                    lemma_step_extend(v2, move_vec@, base, base, from, forward, false, mover, is_promotion);
                    lemma_added_push(v2, base, m, m);
                }
            }
        }
    }
}

proof fn lemma_colors_disjoint(b: Board, t: u32)
    requires
        b.wf(),
        t < 64,
    ensures
        bit_set(b.white_occupation, t) ==> !bit_set(b.black_occupation, t),
{
    lemma_bit_logic(b.white_occupation, b.black_occupation, t);
    lemma_bit_logic(0, 0, t);
}

proof fn lemma_appended_refl(v: Seq<u32>, ok: spec_fn(u32) -> bool)
    ensures
        appended(v, v, ok),
{
    assert(v.subrange(0, v.len() as int) =~= v);
}

proof fn lemma_rank_bits(s: u32)
    by (bit_vector)
    requires
        s < 64,
    ensures
        bit_set(RANK_2, s) == (8 <= s < 16),
        bit_set(RANK_7, s) == (48 <= s < 56),
{
}

proof fn lemma_append_one(v: Seq<u32>, base: Seq<u32>, m: u32, ok: spec_fn(u32) -> bool)
    requires
        appended(v, base, ok),
        ok(m),
    ensures
        appended(v.push(m), base, ok),
{
    assert(v.push(m).subrange(0, base.len() as int) =~= v.subrange(0, base.len() as int));
    assert forall|i: int| base.len() <= i < v.push(m).len() implies ok(#[trigger] v.push(m)[i]) by {
        if i < v.len() {
            assert(v.push(m)[i] == v[i]);
        }
    }
}

/// Pushes the pawn move `from`-`to`, or its four promotions.
fn push_pawn_move(
    from: u32,
    to: u32,
    is_take: bool,
    mover: Color,
    is_promotion: bool,
    move_vec: &mut Vec<u32>,
    ok: Ghost<spec_fn(u32) -> bool>,
)
    requires
        from < 64,
        to < 64,
        forall|m: u32|
            init_of(m) == from && moved_of(m) == mover.first_piece() && white_of(m) == (mover
                == Color::White) && !short_of(m) && !long_of(m) && !en_passant_of(m) && target_of(m)
                == to && capture_of(m) == is_take && step_move(from, to, is_take, mover, is_promotion, m) ==> #[trigger] ok@(m),
    ensures
        forall|base: Seq<u32>| appended(old(move_vec)@, base, ok@) ==> appended(final(move_vec)@, base, ok@),
        final(move_vec)@.len() >= old(move_vec)@.len(),
        final(move_vec)@.subrange(0, old(move_vec)@.len() as int) == old(move_vec)@,
        step_present(final(move_vec)@, old(move_vec)@, from, to, is_take, mover, is_promotion),
        tail_distinct(final(move_vec)@, old(move_vec)@),
        forall|i: int| old(move_vec)@.len() <= i < final(move_vec)@.len() ==> target_of(#[trigger] final(move_vec)@[i]) == to,
{
    let ghost v0 = move_vec@;
    if is_promotion {
        add_all_promotions(from, to, is_take, mover, move_vec);
        proof {
            let first = mover.first_piece();
            assert forall|k: u32| 1 <= k <= 4 implies ok@(#[trigger] promotion_move(from, to, is_take, mover, k)) by {
                crate::moves::lemma_encode_decode(from, to, is_take, 0, false, false, false, true, (first + k) as u32, first, false, mover == Color::White);
            }
            assert forall|base: Seq<u32>| appended(v0, base, ok@) implies appended(move_vec@, base, ok@) by {
                let to_knight = promotion_move(from, to, is_take, mover, 1);
                let to_bishop = promotion_move(from, to, is_take, mover, 2);
                let to_rook = promotion_move(from, to, is_take, mover, 3);
                let to_queen = promotion_move(from, to, is_take, mover, 4);
                assert(ok@(to_knight) && ok@(to_bishop) && ok@(to_rook) && ok@(to_queen));
                lemma_append_one(v0, base, to_knight, ok@);
                lemma_append_one(v0.push(to_knight), base, to_bishop, ok@);
                lemma_append_one(v0.push(to_knight).push(to_bishop), base, to_rook, ok@);
                lemma_append_one(v0.push(to_knight).push(to_bishop).push(to_rook), base, to_queen, ok@);
                assert(move_vec@ =~= v0.push(to_knight).push(to_bishop).push(to_rook).push(to_queen));
            }
            assert(move_vec@.subrange(0, v0.len() as int) =~= v0);
            assert forall|k: u32| 1 <= k <= 4 implies #[trigger] added(move_vec@, v0, promotion_move(from, to, is_take, mover, k)) by {
                let i = v0.len() + k - 1;
                assert(move_vec@[i] == promotion_move(from, to, is_take, mover, k));
            }
            assert forall|i: int| v0.len() <= i < move_vec@.len() implies target_of(#[trigger] move_vec@[i]) == to
                && promoted_of(move_vec@[i]) == first + (i - v0.len() + 1) by {
                let k = (i - v0.len() + 1) as u32;
                assert(move_vec@[i] == promotion_move(from, to, is_take, mover, k));
                crate::moves::lemma_encode_decode(from, to, is_take, 0, false, false, false, true, (first + k) as u32, first, false, mover == Color::White);
            }
            assert forall|i: int, j: int| v0.len() <= i < j < move_vec@.len() implies move_vec@[i] != move_vec@[j] by {
                assert(promoted_of(move_vec@[i]) == first + (i - v0.len() + 1));
                assert(promoted_of(move_vec@[j]) == first + (j - v0.len() + 1));
            }
        }
    } else {
        let pawn: u32 = if mover.is_white() { 0 } else { 6 };
        let m = create(from, to, is_take, mover, pawn);
        move_vec.push(m);
        proof {
            assert(ok@(m));
            assert forall|base: Seq<u32>| appended(v0, base, ok@) implies appended(move_vec@, base, ok@) by {
                lemma_append_one(v0, base, m, ok@);
            }
            assert(move_vec@.subrange(0, v0.len() as int) =~= v0);
            lemma_added_push(v0, v0, m, m);
        }
    }
}


/// An en-passant capture of `side` as the generator emits it.
pub open spec fn ep_move_ok(b: Board, side: Color, m: u32) -> bool {
    &&& white_of(m) == (side == Color::White)
    &&& !short_of(m) && !long_of(m) && en_passant_of(m) && capture_of(m)
    &&& moved_of(m) == side.first_piece()
    &&& eaten_of(m) == side.opposite_spec().first_piece()
    &&& b.ep_square == Some(target_of(m))
    &&& 8 <= target_of(m) < 56
    &&& bit_set(b.pieces[side.first_piece() as int], init_of(m))
}

/// An en-passant capture as the generator emits it, by a pawn beside the
/// pawn that has just advanced two squares.
pub open spec fn ep_sound(b: Board, side: Color, m: u32) -> bool {
    ep_move_ok(b, side, m) && ep_capture(b, side, init_of(m)) && m == ep_move(b, side, init_of(m))
}

/// The pawn of `side` on `from` stands beside the enemy pawn that has just
/// advanced two squares past the (empty) en-passant square.
pub open spec fn ep_capture(b: Board, side: Color, from: u32) -> bool {
    let w = side == Color::White;
    match b.ep_square {
        Some(e) => {
            let v = if w { e - 8 } else { e + 8 };
            &&& (if w { 40 <= e < 48 } else { 16 <= e < 24 })
            &&& ((v % 8 > 0 && from == v - 1) || (v % 8 < 7 && from == v + 1))
            &&& bit_set(b.pieces[side.first_piece() as int], from)
            &&& bit_set(b.pieces[side.opposite_spec().first_piece() as int], v as u32)
            &&& !occupied_sq(b, e)
        },
        None => false,
    }
}

/// The en-passant capture of the pawn of `side` on `from`.
pub open spec fn ep_move(b: Board, side: Color, from: u32) -> u32 {
    encode(
        from,
        b.ep_square->0,
        true,
        side.opposite_spec().first_piece(),
        false,
        false,
        false,
        false,
        0,
        side.first_piece(),
        true,
        side == Color::White,
    )
}

/// Pushes the en-passant captures of `mover`: one for each own pawn beside
/// the pawn that has just advanced two squares.
pub fn add_en_passant(board: &Board, mover: Color, move_vec: &mut Vec<u32>)
    requires
        board.wf(),
    ensures
        appended(final(move_vec)@, old(move_vec)@, |m: u32| ep_sound(*board, mover, m)),
        forall|from: u32| ep_capture(*board, mover, from) ==> #[trigger] added(final(move_vec)@, old(move_vec)@, ep_move(*board, mover, from)),
        tail_distinct(final(move_vec)@, old(move_vec)@),
{
    let ghost ok = |m: u32| ep_sound(*board, mover, m);
    proof {
        lemma_appended_refl(move_vec@, ok);
    }
    if let Some(ep_square) = board.ep_square {
        let white: bool = mover.is_white();
        if white && !(40 <= ep_square && ep_square < 48) {
            return;
        }
        if !white && !(16 <= ep_square && ep_square < 24) {
            return;
        }
        let victim: u32 = if white { ep_square - 8 } else { ep_square + 8 };
        let pawn: u32 = if white { 0 } else { 6 };
        let enemy_pawn: usize = if white { 6 } else { 0 };
        if !contains_square(board.pieces[enemy_pawn], victim) || board.is_occupied(ep_square) {
            return;
        }
        let mover_pawns: u64 = board.pieces[pawn as usize];
        let ghost base = old(move_vec)@;
        if victim % 8 > 0 && contains_square(mover_pawns, victim - 1) {
            let m = create_en_passant(victim - 1, ep_square, mover, pawn);
            let ghost v0 = move_vec@;
            move_vec.push(m);
            proof {
                lemma_append_one(v0, old(move_vec)@, m, ok);
                lemma_added_push(v0, base, m, m);
            }
        }
        let ghost v1 = move_vec@;
        assert(v1 == base || (v1.len() == base.len() + 1 && v1.subrange(0, base.len() as int) == base
            && init_of(v1.last()) == victim - 1));
        if victim % 8 < 7 && contains_square(mover_pawns, victim + 1) {
            let m = create_en_passant(victim + 1, ep_square, mover, pawn);
            let ghost v0 = move_vec@;
            move_vec.push(m);
            proof {
                lemma_append_one(v0, old(move_vec)@, m, ok);
                lemma_added_push(v0, base, m, m);
                if victim % 8 > 0 {
                    lemma_added_push(v0, base, ep_move(*board, mover, (victim - 1) as u32), m);
                }
                assert(init_of(m) == victim + 1);
                if v1 != base {
                    assert(move_vec@[base.len() as int] == v1.last());
                }
            }
        }
        proof {
            assert(tail_distinct(move_vec@, base));
            assert forall|from: u32| ep_capture(*board, mover, from) implies #[trigger] added(move_vec@, base, ep_move(*board, mover, from)) by {
                if from == victim - 1 && victim % 8 > 0 {
                    assert(added(v1, base, ep_move(*board, mover, from)));
                }
            }
        }
    }
}

/// Pushes each castling move that `castle_allowed` admits for `mover`.
pub fn add_castling(board: &Board, mover: Color, move_vec: &mut Vec<u32>)
    requires
        board.wf(),
    ensures
        appended(final(move_vec)@, old(move_vec)@, |m: u32| castling_ok(*board, mover, m)),
        forall|short: bool| castle_allowed(*board, mover, short) ==> #[trigger] added(final(move_vec)@, old(move_vec)@, castling_move(mover, short)),
        tail_distinct(final(move_vec)@, old(move_vec)@),
{
    let ghost ok = |m: u32| castling_ok(*board, mover, m);
    proof {
        lemma_appended_refl(move_vec@, ok);
    }
    if board.nof_checkers != 0 {
        return;
    }
    let white: bool = mover.is_white();
    let occupied: u64 = board.total_occupation();
    let opponent_attacks: u64 = if white { board.black_attacks } else { board.white_attacks };
    let king: u64 = if white { board.pieces[5] } else { board.pieces[11] };
    let rooks: u64 = if white { board.pieces[3] } else { board.pieces[9] };
    let home: u32 = if white { 4 } else { 60 };
    if !contains_square(king, home) {
        return;
    }
    let short_right: bool = if white { board.ws } else { board.bs };
    let long_right: bool = if white { board.wl } else { board.bl };
    let short_corner: u32 = if white { 7 } else { 63 };
    let long_corner: u32 = if white { 0 } else { 56 };
    let short_gap: u64 = if white { WS_CASTLING_GAP_BB } else { BS_CASTLING_GAP_BB };
    let long_gap: u64 = if white { WL_CASTLING_GAP_BB } else { BL_CASTLING_GAP_BB };
    let long_path: u64 = if white { WL_CASTLING_PATH_BB } else { BL_CASTLING_PATH_BB };
    let ghost base = old(move_vec)@;
    if short_right && contains_square(rooks, short_corner) && short_gap & occupied == 0
        && short_gap & opponent_attacks == 0 {
        let m = create_castling(mover, true);
        let ghost v0 = move_vec@;
        move_vec.push(m);
        proof {
            lemma_append_one(v0, old(move_vec)@, m, ok);
            lemma_added_push(v0, base, m, m);
        }
    }
    let ghost v1 = move_vec@;
    assert(v1 == base || (v1.len() == base.len() + 1 && v1.subrange(0, base.len() as int) == base
        && v1.last() == castling_move(mover, true)));
    if long_right && contains_square(rooks, long_corner) && long_gap & occupied == 0
        && long_path & opponent_attacks == 0 {
        let m = create_castling(mover, false);
        let ghost v0 = move_vec@;
        move_vec.push(m);
        proof {
            lemma_append_one(v0, old(move_vec)@, m, ok);
            lemma_added_push(v0, base, castling_move(mover, true), m);
            lemma_castling_fields(mover, true);
            lemma_castling_fields(mover, false);
            if v1 != base {
                assert(move_vec@[base.len() as int] == v1.last());
            }
        }
    }
    proof {
        assert(tail_distinct(move_vec@, base));
        assert forall|short: bool| castle_allowed(*board, mover, short) implies #[trigger] added(move_vec@, base, castling_move(mover, short)) by {
            if short {
                lemma_added_push(v1, base, castling_move(mover, true), castling_move(mover, false));
            }
        }
    }
}

proof fn lemma_appended_weaken(v: Seq<u32>, base: Seq<u32>, ok: spec_fn(u32) -> bool, ok2: spec_fn(u32) -> bool)
    requires
        appended(v, base, ok),
        forall|m: u32| #[trigger] ok(m) ==> ok2(m),
    ensures
        appended(v, base, ok2),
{
    assert forall|i: int| base.len() <= i < v.len() implies ok2(#[trigger] v[i]) by {
        assert(ok(v[i]));
    }
}

proof fn lemma_appended_trans(a: Seq<u32>, b: Seq<u32>, c: Seq<u32>, ok: spec_fn(u32) -> bool)
    requires
        appended(b, a, ok),
        appended(c, b, ok),
    ensures
        appended(c, a, ok),
{
    assert(c.subrange(0, a.len() as int) =~= c.subrange(0, b.len() as int).subrange(0, a.len() as int));
    assert forall|i: int| a.len() <= i < c.len() implies ok(#[trigger] c[i]) by {
        if i < b.len() {
            assert(c[i] == c.subrange(0, b.len() as int)[i]);
            assert(b[i] == c[i]);
        }
    }
}

/// `m` is one pawn move onto `t`: a promotion when `promo`, else the plain move.
pub open spec fn step_move(s: u32, t: u32, cap: bool, side: Color, promo: bool, m: u32) -> bool {
    if promo {
        &&& side.first_piece() + 1 <= promoted_of(m) <= side.first_piece() + 4
        &&& m == promotion_move(s, t, cap, side, (promoted_of(m) - side.first_piece()) as u32)
    } else {
        m == encode(s, t, cap, 0, false, false, false, false, 0, side.first_piece(), false, side == Color::White)
    }
}

/// `m` is a pseudo-legal move of the pawn of `side` on `s`.
pub open spec fn pawn_generated(b: Board, g: MoveGen, side: Color, s: u32, m: u32) -> bool {
    let promo = promo_from(s, side);
    let t = target_of(m);
    let first = side.first_piece();
    &&& (if side == Color::White { s < 56 } else { s >= 8 })
    &&& {
        ||| (t < 64 && bit_set(g.attack_bbs[first as int][s as int], t) && bit_set(b.occupation_of(side.opposite_spec()), t)
            && step_move(s, t, true, side, promo, m))
        ||| (!occupied_sq(b, ahead(s, side, 1)) && step_move(s, ahead(s, side, 1), false, side, promo, m))
        ||| (start_rank(s, side) && !occupied_sq(b, ahead(s, side, 1)) && !occupied_sq(b, ahead(s, side, 2))
            && m == encode(s, ahead(s, side, 2), false, 0, false, false, true, false, 0, first, false, side == Color::White))
    }
}

/// `m` is a pseudo-legal move of `side`: a piece moving to a square it
/// attacks that no own piece holds, a pawn move, an en-passant capture, or
/// an allowed castle.
pub open spec fn generated(b: Board, g: MoveGen, side: Color, m: u32) -> bool {
    let s = init_of(m);
    let i = moved_of(m);
    let t = target_of(m);
    ||| (piece_of(i, side) && i % 6 != 0 && bit_set(b.pieces[i as int], s) && t < 64 && bit_set(
        piece_reach(g, b, s as int, i) & !b.occupation_of(side),
        t,
    ) && m == plain_move(s, t, b.occupation_of(side.opposite_spec()), side, i))
    ||| (i == side.first_piece() && bit_set(b.pieces[i as int], s) && pawn_generated(b, g, side, s, m))
    ||| (ep_capture(b, side, s) && m == ep_move(b, side, s))
    ||| castling_ok(b, side, m)
}

/// All moves of the piece `j` on `s` are among the entries of `v` beyond `base`.
pub open spec fn covered(v: Seq<u32>, base: Seq<u32>, b: Board, g: MoveGen, side: Color, j: u32, s: u32) -> bool {
    if j % 6 != 0 {
        forall|t: u32| t < 64 && bit_set(piece_reach(g, b, s as int, j) & !b.occupation_of(side), t)
            ==> #[trigger] added(v, base, plain_move(s, t, b.occupation_of(side.opposite_spec()), side, j))
    } else {
        pawn_complete(v, base, b, g, side, s)
    }
}

proof fn lemma_pawn_complete_extend(v: Seq<u32>, w: Seq<u32>, mid: Seq<u32>, base: Seq<u32>, b: Board, g: MoveGen, side: Color, s: u32)
    requires
        base.len() <= mid.len() <= v.len() <= w.len(),
        w.subrange(0, v.len() as int) == v,
    ensures
        pawn_complete(v, mid, b, g, side, s) ==> pawn_complete(w, base, b, g, side, s),
{
    if pawn_complete(v, mid, b, g, side, s) {
        let promo = promo_from(s, side);
        let first = side.first_piece();
        if (if side == Color::White { s < 56 } else { s >= 8 }) {
            assert forall|t: u32|
                t < 64 && bit_set(g.attack_bbs[first as int][s as int], t) && bit_set(b.occupation_of(side.opposite_spec()), t)
                    implies #[trigger] step_present(w, base, s, t, true, side, promo) by {
                lemma_step_extend(v, w, mid, base, s, t, true, side, promo);
            }
            lemma_step_extend(v, w, mid, base, s, ahead(s, side, 1), false, side, promo);
            let d = encode(s, ahead(s, side, 2), false, 0, false, false, true, false, 0, first, false, side == Color::White);
            lemma_added_base(v, mid, base, d);
            lemma_added_extend(v, w, base, d);
        }
    }
}

proof fn lemma_covered_extend(v: Seq<u32>, w: Seq<u32>, mid: Seq<u32>, base: Seq<u32>, b: Board, g: MoveGen, side: Color, j: u32, s: u32)
    requires
        base.len() <= mid.len() <= v.len() <= w.len(),
        w.subrange(0, v.len() as int) == v,
    ensures
        covered(v, mid, b, g, side, j, s) ==> covered(w, base, b, g, side, j, s),
{
    if covered(v, mid, b, g, side, j, s) {
        if j % 6 != 0 {
            assert forall|t: u32| t < 64 && bit_set(piece_reach(g, b, s as int, j) & !b.occupation_of(side), t)
                implies #[trigger] added(w, base, plain_move(s, t, b.occupation_of(side.opposite_spec()), side, j)) by {
                let x = plain_move(s, t, b.occupation_of(side.opposite_spec()), side, j);
                lemma_added_base(v, mid, base, x);
                lemma_added_extend(v, w, base, x);
            }
        } else {
            lemma_pawn_complete_extend(v, w, mid, base, b, g, side, s);
        }
    }
}

proof fn lemma_prefix_trans(u: Seq<u32>, v: Seq<u32>, w: Seq<u32>)
    requires
        u.len() <= v.len() <= w.len(),
        v.subrange(0, u.len() as int) == u,
        w.subrange(0, v.len() as int) == v,
    ensures
        w.subrange(0, u.len() as int) == u,
{
    assert(w.subrange(0, u.len() as int) =~= w.subrange(0, v.len() as int).subrange(0, u.len() as int));
}

proof fn lemma_push_new(v: Seq<u32>, x: u32)
    requires
        v.no_duplicates(),
        !v.contains(x),
    ensures
        v.push(x).no_duplicates(),
        forall|y: u32| #[trigger] v.push(x).contains(y) <==> (v.contains(y) || y == x),
{
    let w = v.push(x);
    assert forall|i: int, j: int| 0 <= i < w.len() && 0 <= j < w.len() && i != j implies w[i] != w[j] by {
        if i < v.len() && j < v.len() {
            assert(w[i] == v[i] && w[j] == v[j]);
        } else if i < v.len() {
            assert(w[i] == v[i] && w[j] == x);
        } else {
            assert(w[j] == v[j] && w[i] == x);
        }
    }
    assert forall|y: u32| #[trigger] w.contains(y) <==> (v.contains(y) || y == x) by {
        if w.contains(y) {
            let i = choose|i: int| 0 <= i < w.len() && w[i] == y;
            if i < v.len() {
                assert(v[i] == y);
            }
        }
        if v.contains(y) {
            let i = choose|i: int| 0 <= i < v.len() && v[i] == y;
            assert(w[i] == y);
        }
        assert(w[v.len() as int] == x);
    }
}

impl MoveGen {
    /// All pseudo-legal moves of `mover`: piece moves, pawn moves, en-passant
    /// captures and castling.
    pub fn get_all_pseudolegal(&self, board: &Board, mover: Color) -> (r: Vec<u32>)
        requires
            self.wf(),
            board.wf(),
        ensures
            forall|i: int| 0 <= i < r.len() ==> pseudo_ok(*board, mover, #[trigger] r@[i]),
            forall|i: int| 0 <= i < r.len() ==> generated(*board, *self, mover, #[trigger] r@[i]),
            forall|m: u32| generated(*board, *self, mover, m) ==> #[trigger] r@.contains(m),
            r@.no_duplicates(),
    {
        let ghost ok = |m: u32| pseudo_ok(*board, mover, m) && generated(*board, *self, mover, m);
        let ghost empty = Seq::<u32>::empty();
        let mut res: Vec<u32> = Vec::new();
        proof {
            lemma_appended_refl(res@, ok);
        }
        let first: u32 = if mover.is_white() { 0 } else { 6 };
        let mut i: u32 = first;
        while i < first + 6
            invariant
                self.wf(),
                board.wf(),
                first == mover.first_piece(),
                first <= i <= first + 6,
                ok == (|m: u32| pseudo_ok(*board, mover, m) && generated(*board, *self, mover, m)),
                empty == Seq::<u32>::empty(),
                appended(res@, empty, ok),
                forall|j: u32, sq: u32| first <= j < i && sq < 64 && bit_set(board.pieces[j as int], sq)
                    ==> #[trigger] covered(res@, empty, *board, *self, mover, j, sq),
                tail_distinct(res@, empty),
                forall|k: int| 0 <= k < res@.len() ==> moved_of(#[trigger] res@[k]) < i && !en_passant_of(res@[k])
                    && !short_of(res@[k]) && !long_of(res@[k]),
            decreases first + 6 - i,
        {
            let mut piece_bb: u64 = board.pieces[i as usize];
            let ghost vi = res@;
            proof {
                assert(res@.subrange(0, res@.len() as int) =~= res@);
            }
            while piece_bb != 0
                invariant
                    self.wf(),
                    board.wf(),
                    first == mover.first_piece(),
                    first <= i < first + 6,
                    ok == (|m: u32| pseudo_ok(*board, mover, m) && generated(*board, *self, mover, m)),
                    empty == Seq::<u32>::empty(),
                    appended(res@, empty, ok),
                    vi.len() <= res@.len(),
                    res@.subrange(0, vi.len() as int) == vi,
                    forall|j: u32, sq: u32| first <= j < i && sq < 64 && bit_set(board.pieces[j as int], sq)
                        ==> #[trigger] covered(vi, empty, *board, *self, mover, j, sq),
                    forall|sq: u32| sq < 64 && #[trigger] bit_set(piece_bb, sq) ==> bit_set(board.pieces[i as int], sq),
                    forall|sq: u32| sq < 64 && bit_set(board.pieces[i as int], sq) && !bit_set(piece_bb, sq)
                        ==> #[trigger] covered(res@, empty, *board, *self, mover, i, sq),
                    tail_distinct(res@, empty),
                    forall|k: int| 0 <= k < res@.len() ==> (moved_of(#[trigger] res@[k]) < i || (moved_of(res@[k]) == i
                        && init_of(res@[k]) < 64 && !bit_set(piece_bb, init_of(res@[k])))) && !en_passant_of(res@[k])
                        && !short_of(res@[k]) && !long_of(res@[k]),
                decreases piece_bb,
            {
                let ghost pb = piece_bb;
                let from: u32 = pop_lsb(&mut piece_bb);
                let ghost v0 = res@;
                self.pseudolegal_for(from, i, mover, board, &mut res, false, false);
                proof {
                    assert(bit_set(board.pieces[i as int], from));
                    if i % 6 == 0 {
                        assert forall|m: u32| #[trigger] pawn_sound(*board, *self, mover, from, m) implies ok(m) by {}
                        lemma_appended_weaken(res@, v0, |m: u32| pawn_sound(*board, *self, mover, from, m), ok);
                    } else {
                        assert forall|m: u32| #[trigger] target_move_ok(mover, from, i,
                            piece_reach(*self, *board, from as int, i) & !board.occupation_of(mover),
                            board.occupation_of(mover.opposite_spec()), m) implies ok(m) by {
                            crate::moves::lemma_field_ranges_pub(m);
                        }
                        lemma_appended_weaken(res@, v0, |m: u32| target_move_ok(mover, from, i,
                            piece_reach(*self, *board, from as int, i) & !board.occupation_of(mover),
                            board.occupation_of(mover.opposite_spec()), m), ok);
                    }
                    // the new moves are those of the piece on `from`
                    assert forall|k: int| v0.len() <= k < res@.len() implies moved_of(#[trigger] res@[k]) == i
                        && init_of(res@[k]) == from && !en_passant_of(res@[k]) && !short_of(res@[k]) && !long_of(res@[k]) by {
                        if i % 6 == 0 {
                            assert(pawn_sound(*board, *self, mover, from, res@[k]));
                        } else {
                            assert(target_move_ok(mover, from, i,
                                piece_reach(*self, *board, from as int, i) & !board.occupation_of(mover),
                                board.occupation_of(mover.opposite_spec()), res@[k]));
                        }
                    }
                    assert forall|k: int| 0 <= k < v0.len() implies res@[k] == v0[k] by {
                        assert(res@.subrange(0, v0.len() as int)[k] == res@[k]);
                    }
                    assert forall|a: int, c: int| empty.len() <= a < v0.len() <= c < res@.len() implies res@[a] != res@[c] by {
                        assert(res@[a] == v0[a]);
                        crate::moves::lemma_field_ranges_pub(v0[a]);
                        lemma_bit_ops(pb, from, init_of(v0[a]));
                    }
                    lemma_tail_join(empty, v0, res@);
                    assert forall|k: int| 0 <= k < res@.len() implies (moved_of(#[trigger] res@[k]) < i || (moved_of(res@[k]) == i
                        && init_of(res@[k]) < 64 && !bit_set(piece_bb, init_of(res@[k])))) && !en_passant_of(res@[k])
                        && !short_of(res@[k]) && !long_of(res@[k]) by {
                        if k < v0.len() {
                            assert(res@[k] == v0[k]);
                            if moved_of(v0[k]) == i {
                                lemma_bit_ops(pb, from, init_of(v0[k]));
                            }
                        } else {
                            lemma_bit_ops(pb, from, from);
                        }
                    }
                    lemma_appended_trans(empty, v0, res@, ok);
                    lemma_prefix_trans(vi, v0, res@);
                    assert(res@.subrange(0, res@.len() as int) =~= res@);
                    assert forall|sq: u32| sq < 64 && #[trigger] bit_set(piece_bb, sq) implies bit_set(board.pieces[i as int], sq) by {
                        lemma_bit_ops(pb, from, sq);
                    }
                    assert forall|sq: u32| sq < 64 && bit_set(board.pieces[i as int], sq) && !bit_set(piece_bb, sq)
                        implies #[trigger] covered(res@, empty, *board, *self, mover, i, sq) by {
                        lemma_bit_ops(pb, from, sq);
                        if sq == from {
                            lemma_covered_extend(res@, res@, v0, empty, *board, *self, mover, i, sq);
                        } else {
                            lemma_covered_extend(v0, res@, empty, empty, *board, *self, mover, i, sq);
                        }
                    }
                }
            }
            proof {
                assert forall|j: u32, sq: u32| first <= j < i + 1 && sq < 64 && bit_set(board.pieces[j as int], sq)
                    implies #[trigger] covered(res@, empty, *board, *self, mover, j, sq) by {
                    if j < i {
                        lemma_covered_extend(vi, res@, empty, empty, *board, *self, mover, j, sq);
                    } else {
                        lemma_bit_logic(0, 0, sq);
                    }
                }
            }
            i += 1;
        }
        let ghost v1 = res@;
        add_en_passant(board, mover, &mut res);
        proof {
            assert forall|k: int| 0 <= k < v1.len() implies res@[k] == v1[k] by {
                assert(res@.subrange(0, v1.len() as int)[k] == res@[k]);
            }
            assert forall|k: int| v1.len() <= k < res@.len() implies en_passant_of(#[trigger] res@[k]) && !short_of(res@[k])
                && !long_of(res@[k]) by {
                assert(ep_sound(*board, mover, res@[k]));
            }
            assert forall|a: int, c: int| empty.len() <= a < v1.len() <= c < res@.len() implies res@[a] != res@[c] by {
                assert(res@[a] == v1[a]);
            }
            lemma_tail_join(empty, v1, res@);
            assert forall|m: u32| #[trigger] ep_sound(*board, mover, m) implies ok(m) by {}
            lemma_appended_weaken(res@, v1, |m: u32| ep_sound(*board, mover, m), ok);
            lemma_appended_trans(empty, v1, res@, ok);
        }
        let ghost v2 = res@;
        assert forall|k: int| 0 <= k < v2.len() implies !short_of(#[trigger] v2[k]) && !long_of(v2[k]) by {
            if k >= v1.len() {
                assert(en_passant_of(v2[k]));
            } else {
                assert(v2[k] == v1[k]);
            }
        }
        add_castling(board, mover, &mut res);
        proof {
            assert forall|k: int| 0 <= k < v2.len() implies res@[k] == v2[k] by {
                assert(res@.subrange(0, v2.len() as int)[k] == res@[k]);
            }
            lemma_castling_fields(mover, true);
            lemma_castling_fields(mover, false);
            assert forall|a: int, c: int| empty.len() <= a < v2.len() <= c < res@.len() implies res@[a] != res@[c] by {
                assert(res@[a] == v2[a]);
                assert(castling_ok(*board, mover, res@[c]));
            }
            lemma_tail_join(empty, v2, res@);
            assert forall|a: int, c: int| 0 <= a < res@.len() && 0 <= c < res@.len() && a != c implies res@[a] != res@[c] by {
                if a > c {
                    assert(res@[c] != res@[a]);
                }
            }
            assert forall|m: u32| #[trigger] castling_ok(*board, mover, m) implies ok(m) by {
                lemma_castling_fields(mover, true);
                lemma_castling_fields(mover, false);
            }
            lemma_appended_weaken(res@, v2, |m: u32| castling_ok(*board, mover, m), ok);
            lemma_appended_trans(empty, v2, res@, ok);
            assert forall|i: int| 0 <= i < res.len() implies pseudo_ok(*board, mover, #[trigger] res@[i]) by {
                assert(ok(res@[i]));
            }
            assert forall|i: int| 0 <= i < res.len() implies generated(*board, *self, mover, #[trigger] res@[i]) by {
                assert(ok(res@[i]));
            }
            assert(res@.subrange(0, v2.len() as int) == v2);
            lemma_prefix_trans(v1, v2, res@);
            assert forall|m: u32| generated(*board, *self, mover, m) implies #[trigger] res@.contains(m) by {
                let s = init_of(m);
                let j = moved_of(m);
                let t = target_of(m);
                assert(s < 64 && t < 64 && j < 16) by {
                    crate::moves::lemma_field_ranges_pub(m);
                }
                if piece_of(j, mover) && j % 6 != 0 && bit_set(board.pieces[j as int], s) && bit_set(
                    piece_reach(*self, *board, s as int, j) & !board.occupation_of(mover), t)
                    && m == plain_move(s, t, board.occupation_of(mover.opposite_spec()), mover, j) {
                    assert(covered(v1, empty, *board, *self, mover, j, s));
                    lemma_covered_extend(v1, res@, empty, empty, *board, *self, mover, j, s);
                    assert(added(res@, empty, m));
                } else if j == first && bit_set(board.pieces[j as int], s) && pawn_generated(*board, *self, mover, s, m) {
                    assert(covered(v1, empty, *board, *self, mover, j, s));
                    lemma_covered_extend(v1, res@, empty, empty, *board, *self, mover, j, s);
                    assert(pawn_complete(res@, empty, *board, *self, mover, s));
                    if promo_from(s, mover) {
                        let k = (promoted_of(m) - first) as u32;
                        if t < 64 && bit_set(self.attack_bbs[first as int][s as int], t)
                            && bit_set(board.occupation_of(mover.opposite_spec()), t) && step_move(s, t, true, mover, true, m) {
                            assert(step_present(res@, empty, s, t, true, mover, true));
                            assert(added(res@, empty, promotion_move(s, t, true, mover, k)));
                        } else if !occupied_sq(*board, ahead(s, mover, 1)) && step_move(s, ahead(s, mover, 1), false, mover, true, m) {
                            assert(step_present(res@, empty, s, ahead(s, mover, 1), false, mover, true));
                            assert(added(res@, empty, promotion_move(s, ahead(s, mover, 1), false, mover, k)));
                        }
                    } else {
                        if t < 64 && bit_set(self.attack_bbs[first as int][s as int], t)
                            && bit_set(board.occupation_of(mover.opposite_spec()), t) && step_move(s, t, true, mover, false, m) {
                            assert(step_present(res@, empty, s, t, true, mover, false));
                        }
                    }
                } else if ep_capture(*board, mover, s) && m == ep_move(*board, mover, s) {
                    lemma_added_extend(v2, res@, v1, m);
                    lemma_added_base(res@, v1, empty, m);
                } else {
                    assert(castling_ok(*board, mover, m));
                    if m == castling_move(mover, true) && castle_allowed(*board, mover, true) {
                        assert(added(res@, v2, castling_move(mover, true)));
                    } else {
                        assert(added(res@, v2, castling_move(mover, false)));
                    }
                    lemma_added_base(res@, v2, empty, m);
                }
                assert(added(res@, empty, m));
                let q = choose|q: int| 0 <= q < res@.len() && res@[q] == m;
                assert(res@.contains(m));
            }
        }
        res
    }
}

/// Square of the pawn an en-passant capture to `to` by `side` removes.
pub open spec fn ep_victim(to: u32, side: Color) -> int {
    if side == Color::White { to - 8 } else { to + 8 }
}

/// With both pawns of the en-passant capture `m` lifted, an enemy rook or
/// queen on the capturing pawn's rank sees the king of `side`.
pub open spec fn ep_exposes_king(b: Board, m: u32, side: Color) -> bool {
    let k = king_square(b.pieces, side);
    let from = init_of(m);
    let sliders = if side == Color::White { b.pieces[9] | b.pieces[10] } else { b.pieces[3] | b.pieces[4] };
    let blockers = without_bit(without_bit(b.occupied(), from), ep_victim(target_of(m), side) as u32);
    &&& k / 8 == from / 8
    &&& (if k < from {
        ray_bits(k as int, 1, FILE_H, blockers, true)
    } else {
        ray_bits(k as int, -1, FILE_A, blockers, true)
    }) & sliders != 0
}

/// The legality rules for a pseudo-legal move `m` of `side`: under check it
/// must be a king move or land on a check-block square (an en-passant
/// capture may also remove the checking pawn), under double check it must
/// be a king move; a king may not step onto an attacked or meta-attacked
/// square; an en-passant capture may not open its rank to the king; a
/// pinned piece stays on its pin ray.
pub open spec fn legal_by_rules(b: Board, m: u32, side: Color) -> bool {
    let w = side == Color::White;
    let from = init_of(m);
    let to = target_of(m);
    let mp = moved_of(m);
    let king_moved = mp == 5 || mp == 11;
    let own_king: u32 = if w { 5 } else { 11 };
    let pinned = if w { b.white_pinned } else { b.black_pinned };
    let restriction = if w { b.white_pinned_restrictions[from as int] } else { b.black_pinned_restrictions[from as int] };
    let pin_ok = bit_set(pinned, from) ==> bit_set(restriction, to);
    let check_ok = b.nof_checkers == 0 || (b.nof_checkers == 1 && (king_moved || bit_set(b.check_block_sqrs, to)
        || (en_passant_of(m) && bit_set(b.check_block_sqrs, ep_victim(to, side) as u32)))) || (b.nof_checkers >= 2 && king_moved);
    &&& check_ok
    &&& if en_passant_of(m) {
        !ep_exposes_king(b, m, side) && pin_ok
    } else if mp == own_king {
        !bit_set(b.attacks_of(side.opposite_spec()), to) && !bit_set(b.meta_attacks, to)
    } else {
        pin_ok
    }
}

impl MoveGen {
    /// Whether the pseudo-legal move `mov` of `mover` is legal.
    pub fn pseudolegal_is_legal(&self, mov: u32, board: &Board, mover: Color) -> (r: bool)
        requires
            board.wf(),
            en_passant_of(mov) ==> 8 <= target_of(mov) < 56,
        ensures
            r == legal_by_rules(*board, mov, mover),
    {
        let white: bool = mover.is_white();
        let init: u32 = get_init(mov);
        let target: u32 = get_target(mov);
        let moved_piece: u32 = get_moved_piece(mov);
        let ep: bool = is_en_passant(mov);
        let king_moved: bool = moved_piece == 5 || moved_piece == 11;
        if board.nof_checkers == 1 {
            let blocked: bool = contains_square(board.check_block_sqrs, target) || (ep && contains_square(
                board.check_block_sqrs,
                if white { target - 8 } else { target + 8 },
            ));
            if !king_moved && !blocked {
                return false;
            }
        } else if board.nof_checkers >= 2 {
            if !king_moved {
                return false;
            }
        }
        let pinned: u64 = if white { board.white_pinned } else { board.black_pinned };
        let restriction: u64 = if white {
            board.white_pinned_restrictions[init as usize]
        } else {
            board.black_pinned_restrictions[init as usize]
        };
        let pin_ok: bool = !contains_square(pinned, init) || contains_square(restriction, target);
        if ep {
            if ep_opens_rank(board, mov, mover) {
                return false;
            }
            pin_ok
        } else if moved_piece == (if white { 5 } else { 11 }) {
            let opponent_attacked: u64 = if white { board.black_attacks } else { board.white_attacks };
            !contains_square(opponent_attacked, target) && !contains_square(board.meta_attacks, target)
        } else {
            pin_ok
        }
    }
}

/// Decides `ep_exposes_king` by sliding from the king along its rank.
fn ep_opens_rank(board: &Board, mov: u32, mover: Color) -> (r: bool)
    requires
        board.wf(),
        en_passant_of(mov),
        8 <= target_of(mov) < 56,
    ensures
        r == ep_exposes_king(*board, mov, mover),
{
    let white: bool = mover.is_white();
    let init: u32 = get_init(mov);
    let target: u32 = get_target(mov);
    let king: u32 = board.get_king_sqr_idx(mover);
    if king / 8 != init / 8 {
        return false;
    }
    let victim: u32 = if white { target - 8 } else { target + 8 };
    let sliders: u64 = if white { board.pieces[9] | board.pieces[10] } else { board.pieces[3] | board.pieces[4] };
    let blockers: u64 = with_clear_square(with_clear_square(board.total_occupation(), init), victim);
    let ray: u64 = if king < init {
        slide_to_dir(king, 1, FILE_H, blockers, true)
    } else {
        slide_to_dir(king, -1, FILE_A, blockers, true)
    };
    ray & sliders != 0
}


/// A move in the legal list of `side`.
pub open spec fn legal_entry(b: Board, side: Color, m: u32) -> bool {
    &&& pseudo_ok(b, side, m)
    &&& legal_by_rules(b, m, side)
    &&& fits(b, side, m)
}

/// `m` is a generated move of `side` that passes the legality rules, with
/// its captured piece filled in.
pub open spec fn legal_source(b: Board, g: MoveGen, side: Color, m: u32) -> bool {
    exists|p: u32, e: u32| e < 12 && generated(b, g, side, p) && legal_by_rules(b, p, side) && m == #[trigger] completion(p, e)
}

/// `list` is exactly the legal list of `side` in `b`: each entry is a
/// legal move listed once, and every generated move that passes the
/// legality rules is listed with its captured piece, captures of the king
/// excepted.
pub open spec fn legal_list_exact(g: MoveGen, b: Board, side: Color, list: Seq<u32>) -> bool {
    &&& forall|i: int| 0 <= i < list.len() ==> legal_entry(b, side, #[trigger] list[i])
    &&& forall|i: int| 0 <= i < list.len() ==> legal_source(b, g, side, #[trigger] list[i])
    &&& list.no_duplicates()
    &&& forall|m: u32, e: u32|
        e < 12 && generated(b, g, side, m) && legal_by_rules(b, m, side) && right_eaten(b, side, m, e)
            && !takes_king(b, side, m) ==> #[trigger] list.contains(completion(m, e))
}

/// `m` with the captured piece `e` filled in, for a capture other than en passant.
pub open spec fn completion(m: u32, e: u32) -> u32 {
    if capture_of(m) && !en_passant_of(m) { set_eaten(m, e) } else { m }
}

/// `m` captures the enemy king, which a position reached by play never
/// allows.
pub open spec fn takes_king(b: Board, side: Color, m: u32) -> bool {
    capture_of(m) && !en_passant_of(m) && bit_set(b.pieces[side.opposite_spec().first_piece() + 5], target_of(m))
}

/// `e` is the enemy piece on the target square of the capture `m`.
pub open spec fn right_eaten(b: Board, side: Color, m: u32, e: u32) -> bool {
    capture_of(m) && !en_passant_of(m) ==> piece_of(e, side.opposite_spec()) && bit_set(b.pieces[e as int], target_of(m))
}

proof fn lemma_castle_squares()
    by (bit_vector)
    ensures
        bit_set(0x60u64, 5) && bit_set(0x60u64, 6),
        bit_set(0x0Eu64, 3) && bit_set(0x0Eu64, 2),
        bit_set(0x6000000000000000u64, 61) && bit_set(0x6000000000000000u64, 62),
        bit_set(0x0E00000000000000u64, 59) && bit_set(0x0E00000000000000u64, 58),
{
}

/// A generated move with its captured piece filled in fits the position,
/// unless it captures the king.
#[verifier::spinoff_prover]
#[verifier::rlimit(100)]
proof fn lemma_generated_fits(b: Board, g: MoveGen, side: Color, m: u32, e: u32)
    requires
        b.wf(),
        g.wf(),
        generated(b, g, side, m),
        e < 12,
        right_eaten(b, side, m, e),
        !takes_king(b, side, m),
    ensures
        fits(b, side, completion(m, e)),
{
    let s = init_of(m);
    let t = target_of(m);
    let i = moved_of(m);
    let first = side.first_piece();
    let ofirst = side.opposite_spec().first_piece();
    let w = side == Color::White;
    let own = b.occupation_of(side);
    let opp = b.occupation_of(side.opposite_spec());
    crate::moves::lemma_field_ranges_pub(m);
    crate::moves::lemma_set_eaten_pub(m, e);
    lemma_castling_fields(side, true);
    lemma_castling_fields(side, false);
    lemma_bit_logic(b.white_occupation, b.black_occupation, t);
    lemma_bit_logic(b.white_occupation, b.black_occupation, s);
    lemma_bit_logic(0, 0, t);
    if piece_of(i, side) && i % 6 != 0 && bit_set(b.pieces[i as int], s) && t < 64 && bit_set(
        piece_reach(g, b, s as int, i) & !own, t) && m == plain_move(s, t, opp, side, i) {
        crate::moves::lemma_encode_decode(s, t, bit_set(opp, t), 0, false, false, false, false, 0, i, false, w);
        crate::board::lemma_piece_in_occupation_pub(b, side, i as int, s);
        lemma_bit_logic(piece_reach(g, b, s as int, i), own, t);
        if capture_of(m) && e == ofirst + 5 {
            assert(takes_king(b, side, m));
        }
        let c = completion(m, e);
        assert(init_of(c) == s && target_of(c) == t && moved_of(c) == i);
        assert(s != t);
        assert(!bit_set(own, t));
        assert(!short_of(c) && !long_of(c) && !en_passant_of(c) && !double_push_of(c) && !promotion_of(c));
        assert(capture_of(c) == bit_set(opp, t));
        assert(capture_of(c) ==> eaten_of(c) == e);
        assert(fits(b, side, completion(m, e)));
    } else if i == first && bit_set(b.pieces[i as int], s) && pawn_generated(b, g, side, s, m) {
        crate::board::lemma_piece_in_occupation_pub(b, side, i as int, s);
        let a1 = ahead(s, side, 1);
        assert(a1 < 64);
        crate::moves::lemma_encode_decode(s, t, true, 0, false, false, false, false, 0, first, false, w);
        crate::moves::lemma_encode_decode(s, a1, false, 0, false, false, false, false, 0, first, false, w);
        if promo_from(s, side) && first + 1 <= promoted_of(m) <= first + 4 {
            let k = (promoted_of(m) - first) as u32;
            crate::moves::lemma_encode_decode(s, t, true, 0, false, false, false, true, (first + k) as u32, first, false, w);
            crate::moves::lemma_encode_decode(s, a1, false, 0, false, false, false, true, (first + k) as u32, first, false, w);
        }
        lemma_bit_logic(b.white_occupation, b.black_occupation, a1);
        if start_rank(s, side) {
            let a2 = ahead(s, side, 2);
            crate::moves::lemma_encode_decode(s, a2, false, 0, false, false, true, false, 0, first, false, w);
            lemma_bit_logic(b.white_occupation, b.black_occupation, a2);
        }
        if capture_of(m) && e == ofirst + 5 {
            assert(takes_king(b, side, m));
        }
        assert(fits(b, side, completion(m, e)))
    } else if ep_capture(b, side, s) && m == ep_move(b, side, s) {
        let ep = b.ep_square->0;
        crate::moves::lemma_encode_decode(s, ep, true, ofirst, false, false, false, false, 0, first, true, w);
        crate::board::lemma_piece_in_occupation_pub(b, side, first as int, s);
        lemma_bit_logic(b.white_occupation, b.black_occupation, ep);
        assert(fits(b, side, completion(m, e)))
    } else {
        assert(castling_ok(b, side, m));
        lemma_castle_squares();
        let short = short_of(m);
        let rt = crate::board::castle_rook_squares(side, short).1;
        lemma_bit_logic(castle_gap(side, short), b.occupied(), rt);
        lemma_bit_logic(castle_gap(side, short), b.occupied(), t);
        lemma_bit_logic(b.white_occupation, b.black_occupation, rt);
        lemma_bit_logic(0, 0, rt);
    }
}

/// `x` completes one of the first `k` moves of `pseudo`.
pub open spec fn from_earlier(pseudo: Seq<u32>, k: int, x: u32) -> bool {
    exists|j: int, e: u32| 0 <= j < k && e < 12 && #[trigger] completion(pseudo[j], e) == x
}

/// A generated capture other than en passant carries no captured piece yet.
proof fn lemma_generated_eaten_zero(b: Board, g: MoveGen, side: Color, p: u32)
    requires
        b.wf(),
        generated(b, g, side, p),
        capture_of(p),
        !en_passant_of(p),
    ensures
        eaten_of(p) == 0,
{
    let s = init_of(p);
    let t = target_of(p);
    let i = moved_of(p);
    let first = side.first_piece();
    let w = side == Color::White;
    crate::moves::lemma_field_ranges_pub(p);
    lemma_castling_fields(side, true);
    lemma_castling_fields(side, false);
    if piece_of(i, side) && i % 6 != 0 && bit_set(b.pieces[i as int], s) && t < 64 && bit_set(
        piece_reach(g, b, s as int, i) & !b.occupation_of(side), t) && p == plain_move(s, t, b.occupation_of(side.opposite_spec()), side, i) {
        crate::moves::lemma_encode_decode(s, t, bit_set(b.occupation_of(side.opposite_spec()), t), 0, false, false, false, false, 0, i, false, w);
        assert(eaten_of(p) == 0);
    } else if i == first && bit_set(b.pieces[i as int], s) && pawn_generated(b, g, side, s, p) {
        let a1 = ahead(s, side, 1);
        assert(a1 < 64);
        if promo_from(s, side) && first + 1 <= promoted_of(p) <= first + 4 {
            let k = (promoted_of(p) - first) as u32;
            crate::moves::lemma_encode_decode(s, t, true, 0, false, false, false, true, (first + k) as u32, first, false, w);
            crate::moves::lemma_encode_decode(s, a1, false, 0, false, false, false, true, (first + k) as u32, first, false, w);
        }
        crate::moves::lemma_encode_decode(s, t, true, 0, false, false, false, false, 0, first, false, w);
        crate::moves::lemma_encode_decode(s, a1, false, 0, false, false, false, false, 0, first, false, w);
        if start_rank(s, side) {
            crate::moves::lemma_encode_decode(s, ahead(s, side, 2), false, 0, false, false, true, false, 0, first, false, w);
        }
        assert(eaten_of(p) == 0);
    } else if ep_capture(b, side, s) && p == ep_move(b, side, s) {
        crate::moves::lemma_encode_decode(s, b.ep_square->0, true, side.opposite_spec().first_piece(), false, false, false, false, 0, first, true, w);
        assert(false);
    } else {
        assert(castling_ok(b, side, p));
        assert(false);
    }
}

/// Different generated moves have different completions.
proof fn lemma_completion_injective(b: Board, g: MoveGen, side: Color, p1: u32, p2: u32, e1: u32, e2: u32)
    requires
        b.wf(),
        generated(b, g, side, p1),
        generated(b, g, side, p2),
        e1 < 12,
        e2 < 12,
        completion(p1, e1) == completion(p2, e2),
    ensures
        p1 == p2,
{
    let c1 = capture_of(p1) && !en_passant_of(p1);
    let c2 = capture_of(p2) && !en_passant_of(p2);
    crate::moves::lemma_set_eaten_pub(p1, e1);
    crate::moves::lemma_set_eaten_pub(p2, e2);
    if c1 && c2 {
        lemma_generated_eaten_zero(b, g, side, p1);
        lemma_generated_eaten_zero(b, g, side, p2);
        crate::moves::lemma_set_eaten_injective(p1, p2, e1, e2);
    }
}

proof fn lemma_contains_push(v: Seq<u32>, x: u32, y: u32)
    ensures
        v.contains(x) ==> v.push(y).contains(x),
        v.push(y).contains(y),
{
    if v.contains(x) {
        let i = choose|i: int| 0 <= i < v.len() && v[i] == x;
        assert(v.push(y)[i] == x);
    }
    assert(v.push(y)[v.len() as int] == y);
}

impl MoveGen {
    /// The legal moves of `mover`: the pseudo-legal moves that pass the
    /// legality rules and fit the placement, with the captured piece filled in.
    pub fn get_all_legal(&self, board: &Board, mover: Color) -> (r: Vec<u32>)
        requires
            self.wf(),
            board.wf(),
        ensures
            forall|i: int| 0 <= i < r.len() ==> legal_entry(*board, mover, #[trigger] r@[i]),
            forall|i: int| 0 <= i < r.len() ==> legal_source(*board, *self, mover, #[trigger] r@[i]),
            forall|m: u32, e: u32|
                e < 12 && generated(*board, *self, mover, m) && legal_by_rules(*board, m, mover) && right_eaten(*board, mover, m, e) && !takes_king(*board, mover, m)
                    ==> #[trigger] r@.contains(completion(m, e)),
            r@.no_duplicates(),
            legal_list_exact(*self, *board, mover, r@),
    {
        let pseudo: Vec<u32> = self.get_all_pseudolegal(board, mover);
        let mut res: Vec<u32> = Vec::new();
        let opponent: Color = mover.opposite();
        let mut k: usize = 0;
        while k < pseudo.len()
            invariant
                self.wf(),
                board.wf(),
                opponent == mover.opposite_spec(),
                k <= pseudo.len(),
                forall|i: int| 0 <= i < pseudo.len() ==> pseudo_ok(*board, mover, #[trigger] pseudo@[i]),
                forall|i: int| 0 <= i < pseudo.len() ==> generated(*board, *self, mover, #[trigger] pseudo@[i]),
                forall|i: int| 0 <= i < res.len() ==> legal_entry(*board, mover, #[trigger] res@[i]),
                forall|i: int| 0 <= i < res.len() ==> legal_source(*board, *self, mover, #[trigger] res@[i]),
                res@.no_duplicates(),
                pseudo@.no_duplicates(),
                forall|i: int| 0 <= i < res.len() ==> from_earlier(pseudo@, k as int, #[trigger] res@[i]),
                forall|j: int, e: u32| 0 <= j < k && e < 12 && legal_by_rules(*board, pseudo@[j], mover)
                    && right_eaten(*board, mover, pseudo@[j], e) && !takes_king(*board, mover, pseudo@[j]) ==> #[trigger] res@.contains(completion(#[trigger] pseudo@[j], e)),
            decreases pseudo.len() - k,
        {
            let mov: u32 = pseudo[k];
            let ghost r_start = res@;
            assert(pseudo_ok(*board, mover, mov));
            let is_legal: bool = self.pseudolegal_is_legal(mov, board, mover);
            let mut candidate: Option<u32> = Some(mov);
            if !is_en_passant(mov) && is_eating(mov) {
                let enemy_king: u32 = if mover.is_white() { 11 } else { 5 };
                // the enemy king is never captured
                candidate = match board.lift_piece_type_at(get_target(mov), opponent) {
                    Some(p) => if p == enemy_king { None } else { Some(with_eaten_piece(mov, p)) },
                    None => None,
                };
            }
            let ghost em: u32 = match candidate {
                Some(cm) => if capture_of(mov) && !en_passant_of(mov) { eaten_of(cm) } else { 0 },
                None => 0,
            };
            if is_legal {
                proof {
                    // the candidate is the completion of `mov` with the piece on its target
                    assert forall|e: u32| e < 12 && right_eaten(*board, mover, mov, e) && !takes_king(*board, mover, mov)
                        implies candidate == Some(completion(mov, e)) by {
                        if capture_of(mov) && !en_passant_of(mov) {
                            let c = set_eaten(mov, e);
                            crate::moves::lemma_field_ranges_pub(mov);
                            crate::moves::lemma_set_eaten_pub(mov, e);
                            assert(eaten_of(c) == e && target_of(c) == target_of(mov));
                            lemma_castling_fields(mover, true);
                            lemma_castling_fields(mover, false);
                            let t = target_of(mov);
                            assert(bit_set(board.pieces[e as int], t));
                            lemma_piece_alone(*board, e, t);
                            match candidate {
                                Some(cm) => {
                                    let p = eaten_of(cm);
                                    assert(cm == set_eaten(mov, p));
                                    if p != e {
                                        lemma_bit_logic(board.pieces[p as int], board.pieces[e as int], t);
                                        lemma_bit_logic(0, 0, t);
                                        if p < e {
                                            assert(board.pieces[p as int] & board.pieces[e as int] == 0);
                                        } else {
                                            assert(board.pieces[e as int] & board.pieces[p as int] == 0);
                                            lemma_bit_logic(board.pieces[e as int], board.pieces[p as int], t);
                                        }
                                    }
                                },
                                None => {
                                    assert(!bit_set(board.pieces[e as int], t));
                                },
                            }
                        }
                    }
                }
                if let Some(m) = candidate {
                    {
                        proof {
                            assert(generated(*board, *self, mover, pseudo@[k as int]));
                            crate::moves::lemma_field_ranges_pub(m);
                            assert(m == completion(mov, em) && em < 12);
                            assert(right_eaten(*board, mover, mov, em));
                            assert(!takes_king(*board, mover, mov)) by {
                                if takes_king(*board, mover, mov) {
                                    let t = target_of(mov);
                                    lemma_piece_alone(*board, em, t);
                                }
                            }
                            lemma_generated_fits(*board, *self, mover, mov, em);
                            assert(!res@.contains(m)) by {
                                if res@.contains(m) {
                                    let i = choose|i: int| 0 <= i < res@.len() && res@[i] == m;
                                    assert(from_earlier(pseudo@, k as int, res@[i]));
                                    let (j, e) = choose|j: int, e: u32| 0 <= j < k && e < 12 && #[trigger] completion(pseudo@[j], e) == res@[i];
                                    lemma_completion_injective(*board, *self, mover, pseudo@[j], mov, e, em);
                                    assert(pseudo@[j] == pseudo@[k as int]);
                                }
                            }
                            lemma_push_new(res@, m);
                            if m != mov {
                                lemma_castling_fields(mover, true);
                                lemma_castling_fields(mover, false);
                            }
                        }
                        let ghost r0 = res@;
                        res.push(m);
                        proof {
                            assert forall|i: int| 0 <= i < res.len() implies legal_entry(*board, mover, #[trigger] res@[i]) by {
                                if i < r0.len() {
                                    assert(res@[i] == r0[i]);
                                }
                            }
                            assert(generated(*board, *self, mover, pseudo@[k as int]));
                            if capture_of(mov) && !en_passant_of(mov) {
                                let pe = eaten_of(m);
                                crate::moves::lemma_field_ranges_pub(m);
                                assert(m == completion(mov, pe));
                                assert(pe < 12);
                                assert(legal_source(*board, *self, mover, m));
                            } else {
                                assert(m == completion(mov, 0));
                                assert(legal_source(*board, *self, mover, m));
                            }
                            assert forall|i: int| 0 <= i < res.len() implies legal_source(*board, *self, mover, #[trigger] res@[i]) by {
                                if i < r0.len() {
                                    assert(res@[i] == r0[i]);
                                }
                            }
                        }
                    }
                }
            }
            proof {
                assert forall|i: int| 0 <= i < res.len() implies from_earlier(pseudo@, k + 1, #[trigger] res@[i]) by {
                    if i < r_start.len() {
                        assert(res@[i] == r_start[i]);
                        assert(from_earlier(pseudo@, k as int, r_start[i]));
                        let (j, e) = choose|j: int, e: u32| 0 <= j < k && e < 12 && #[trigger] completion(pseudo@[j], e) == r_start[i];
                        assert(0 <= j < k + 1 && e < 12 && completion(pseudo@[j], e) == res@[i]);
                    } else {
                        assert(res@.len() == r_start.len() + 1);
                        assert(res@[i] == res@.last());
                        assert(res@.last() == completion(pseudo@[k as int], em));
                        assert(completion(pseudo@[k as int], em) == res@[i] && em < 12);
                    }
                }
                assert forall|j: int, e: u32| 0 <= j < k + 1 && e < 12 && legal_by_rules(*board, pseudo@[j], mover)
                    && right_eaten(*board, mover, pseudo@[j], e) && !takes_king(*board, mover, pseudo@[j]) implies #[trigger] res@.contains(completion(#[trigger] pseudo@[j], e)) by {
                    if j < k {
                        assert(r_start.contains(completion(pseudo@[j], e)));
                        if res@.len() > r_start.len() {
                            lemma_contains_push(r_start, completion(pseudo@[j], e), res@.last());
                            assert(res@ =~= r_start.push(res@.last()));
                        }
                    } else {
                        assert(candidate == Some(completion(mov, e)));
                        if res@.len() > r_start.len() {
                            lemma_contains_push(r_start, completion(mov, e), completion(mov, e));
                            assert(res@ =~= r_start.push(completion(mov, e)));
                        } else {
                            assert(res@ == r_start);
                        }
                    }
                }
            }
            k += 1;
        }
        proof {
            assert forall|m: u32, e: u32|
                e < 12 && generated(*board, *self, mover, m) && legal_by_rules(*board, m, mover) && right_eaten(*board, mover, m, e) && !takes_king(*board, mover, m)
                    implies #[trigger] res@.contains(completion(m, e)) by {
                assert(pseudo@.contains(m));
                let j = choose|j: int| 0 <= j < pseudo@.len() && pseudo@[j] == m;
                assert(res@.contains(completion(pseudo@[j], e)));
            }
        }
        res
    }
}

/// `t` is attacked by a non-pawn piece of `side`, own pieces included.
pub open spec fn piece_attacks(g: MoveGen, b: Board, side: Color, t: u32) -> bool {
    exists|i: u32, s: u32|
        side.first_piece() < i < side.first_piece() + 6 && s < 64 && #[trigger] bit_set(b.pieces[i as int], s)
            && #[trigger] bit_set(piece_reach(g, b, s as int, i), t)
}

/// `a` is the set of squares `side` attacks in `b`, own pieces included.
pub open spec fn attacks_exact(g: MoveGen, b: Board, side: Color, a: u64) -> bool {
    forall|t: u32| t < 64 ==> (#[trigger] bit_set(a, t) == (bit_set(pawn_attacks_of(b, side), t) || piece_attacks(g, b, side, t)))
}

/// Attack sets depend on the placement alone.
pub proof fn lemma_attacks_placement(g: MoveGen, a: Board, b: Board, side: Color, x: u64)
    requires
        a.pieces == b.pieces,
        a.white_occupation == b.white_occupation,
        a.black_occupation == b.black_occupation,
    ensures
        attacks_exact(g, a, side, x) == attacks_exact(g, b, side, x),
{
    assert(a.occupied() == b.occupied());
    assert forall|t: u32| piece_attacks(g, a, side, t) == piece_attacks(g, b, side, t) by {
        assert forall|s: int, i: u32| piece_reach(g, a, s, i) == piece_reach(g, b, s, i) by {}
    }
}

/// Checkers depend on the placement alone.
pub proof fn lemma_checkers_placement(g: MoveGen, a: Board, b: Board, side: Color)
    requires
        a.pieces == b.pieces,
        a.white_occupation == b.white_occupation,
        a.black_occupation == b.black_occupation,
    ensures
        checkers(g, a, side) == checkers(g, b, side),
{
    assert(a.occupied() == b.occupied());
    assert forall|s: int, i: u32| piece_reach(g, a, s, i) == piece_reach(g, b, s, i) by {}
    assert forall|s: u32| checker_at(g, a, side, s) == checker_at(g, b, side, s) by {
        assert forall|j: u32| piece_checks(g, a, side, j, s) == piece_checks(g, b, side, j, s) by {}
    }
    assert(checkers(g, a, side) =~= checkers(g, b, side));
}

/// The attack set of a slider in [`piece_reach`] is its rays over all
/// pieces but itself: the magic lookup over relevant blockers gives the
/// same squares.
pub proof fn lemma_piece_reach_rays(g: MoveGen, b: Board, s: int, piece: u32)
    requires
        g.wf(),
        0 <= s < 64,
    ensures
        ({
            let x = without_bit(b.occupied(), s as u32);
            let k = piece % 6;
            &&& k == 2 ==> piece_reach(g, b, s, piece) == bishop_rays(s, x, true)
            &&& k == 3 ==> piece_reach(g, b, s, piece) == rook_rays(s, x, true)
            &&& k == 4 ==> piece_reach(g, b, s, piece) == rook_rays(s, x, true) | bishop_rays(s, x, true)
        }),
{
    assert(g.masks_ok());
    let rm = g.magic_bb.rook_masks[s];
    assert(rm == rook_mask(s));
    assert(g.magic_bb.bishop_masks[s] == bishop_mask(s));
    lemma_masked_slides(s, without_bit(b.occupied(), s as u32));
}

/// `b` and `a` differ at most in the check count and check-block squares.
pub open spec fn same_but_checks(a: Board, b: Board) -> bool {
    a == Board { nof_checkers: a.nof_checkers, check_block_sqrs: a.check_block_sqrs, ..b }
}

impl MoveGen {
    /// The squares `side` attacks, own pieces included. Each piece that
    /// attacks the other king is counted in `nof_checkers` (at most 2) and
    /// its square added to `check_block_sqrs`.
    pub fn compute_attacked(&self, board: &mut Board, side: Color) -> (r: u64)
        requires
            self.wf(),
            old(board).wf(),
        ensures
            same_but_checks(*final(board), *old(board)),
            final(board).wf(),
            old(board).nof_checkers <= final(board).nof_checkers,
            attacks_exact(*self, *old(board), side, r),
            checkers(*self, *old(board), side).finite(),
            final(board).nof_checkers == saturated(old(board).nof_checkers + checkers(*self, *old(board), side).len()),
            forall|t: u32| t < 64 ==> #[trigger] bit_set(final(board).check_block_sqrs, t) == (bit_set(
                old(board).check_block_sqrs,
                t,
            ) || checker_at(*self, *old(board), side, t)),
    {
        let ghost b0 = *board;
        let pawns: u64 = pawn_attacked(board, side);
        let mut res: u64 = pawns;
        let opponent_king_sqr: u32 = board.get_king_sqr_idx(side.opposite());
        let first: u32 = if side.is_white() { 0 } else { 6 };
        // pawns that give check: those on the squares from which a pawn of
        // `side` attacks the king
        let king_bit: u64 = 1u64 << opponent_king_sqr;
        let origins: u64 = if side.is_white() {
            ((king_bit & !FILE_A) >> 9u64) | ((king_bit & !FILE_H) >> 7u64)
        } else {
            ((king_bit & !FILE_A) << 7u64) | ((king_bit & !FILE_H) << 9u64)
        };
        let mut checking_pawns: u64 = board.pieces[first as usize] & origins;
        let ghost pawn_checks = checking_pawns;
        let ghost mut found: Set<u32> = Set::empty();
        proof {
            assert(pawn_checks == pawn_checkers(b0, side));
            assert forall|t: u32| t < 64 implies !bit_set(0, t) by {
                lemma_bit_logic(0, 0, t);
            }
        }
        while checking_pawns != 0
            invariant
                same_but_checks(*board, b0),
                board.wf(),
                b0.wf(),
                b0.nof_checkers <= board.nof_checkers,
                found.finite(),
                board.nof_checkers == saturated(b0.nof_checkers + found.len()),
                forall|sq: u32| sq < 64 && #[trigger] bit_set(checking_pawns, sq) ==> bit_set(pawn_checks, sq),
                forall|sq: u32| #[trigger] found.contains(sq) == (sq < 64 && bit_set(pawn_checks, sq) && !bit_set(checking_pawns, sq)),
                forall|t: u32| t < 64 ==> #[trigger] bit_set(board.check_block_sqrs, t) == (bit_set(b0.check_block_sqrs, t) || found.contains(t)),
            decreases checking_pawns,
        {
            let ghost rest0 = checking_pawns;
            let ghost cb0 = board.check_block_sqrs;
            let sq: u32 = pop_lsb(&mut checking_pawns);
            add_checker(board, sq);
            proof {
                assert(!found.contains(sq));
                found = found.insert(sq);
                assert forall|q: u32| q < 64 && #[trigger] bit_set(checking_pawns, q) implies bit_set(pawn_checks, q) by {
                    lemma_bit_ops(rest0, sq, q);
                }
                assert forall|q: u32| #[trigger] found.contains(q) == (q < 64 && bit_set(pawn_checks, q) && !bit_set(checking_pawns, q)) by {
                    if q < 64 {
                        lemma_bit_ops(rest0, sq, q);
                    }
                }
                assert forall|t: u32| t < 64 implies #[trigger] bit_set(board.check_block_sqrs, t) == (bit_set(b0.check_block_sqrs, t) || found.contains(t)) by {
                    lemma_bit_ops(cb0, sq, t);
                }
            }
        }
        proof {
            assert forall|q: u32| #[trigger] found.contains(q) == (q < 64 && bit_set(pawn_checks, q)) by {
                if q < 64 {
                    lemma_bit_logic(0, 0, q);
                }
            }
        }
        let mut i: u32 = first + 1;
        while i < first + 6
            invariant
                self.wf(),
                same_but_checks(*board, b0),
                board.wf(),
                b0.wf(),
                b0.nof_checkers <= board.nof_checkers,
                first == side.first_piece(),
                first + 1 <= i <= first + 6,
                opponent_king_sqr < 64,
                opponent_king_sqr == king_square(b0.pieces, side.opposite_spec()),
                pawn_checks == pawn_checkers(b0, side),
                found.finite(),
                board.nof_checkers == saturated(b0.nof_checkers + found.len()),
                forall|q: u32| #[trigger] found.contains(q) == (q < 64 && (bit_set(pawn_checks, q) || exists|j: u32|
                    first < j < i && #[trigger] piece_checks(*self, b0, side, j, q))),
                forall|t: u32| t < 64 ==> #[trigger] bit_set(board.check_block_sqrs, t) == (bit_set(b0.check_block_sqrs, t) || found.contains(t)),
                forall|t: u32| t < 64 ==> (#[trigger] bit_set(res, t) == (bit_set(pawns, t) || exists|j: u32, s: u32|
                    first < j < i && s < 64 && #[trigger] bit_set(b0.pieces[j as int], s)
                        && #[trigger] bit_set(piece_reach(*self, b0, s as int, j), t))),
            decreases first + 6 - i,
        {
            let mut piece_bb: u64 = board.pieces[i as usize];
            let ghost res_i = res;
            let ghost found_i = found;
            while piece_bb != 0
                invariant
                    opponent_king_sqr == king_square(b0.pieces, side.opposite_spec()),
                    pawn_checks == pawn_checkers(b0, side),
                    found.finite(),
                    board.nof_checkers == saturated(b0.nof_checkers + found.len()),
                    forall|q: u32| #[trigger] found_i.contains(q) == (q < 64 && (bit_set(pawn_checks, q) || exists|j: u32|
                        first < j < i && #[trigger] piece_checks(*self, b0, side, j, q))),
                    forall|q: u32| #[trigger] found.contains(q) == (found_i.contains(q) || (q < 64
                        && piece_checks(*self, b0, side, i, q) && !bit_set(piece_bb, q))),
                    forall|t: u32| t < 64 ==> #[trigger] bit_set(board.check_block_sqrs, t) == (bit_set(b0.check_block_sqrs, t) || found.contains(t)),
                    self.wf(),
                    same_but_checks(*board, b0),
                    board.wf(),
                    b0.wf(),
                    b0.nof_checkers <= board.nof_checkers,
                    first == side.first_piece(),
                    first + 1 <= i < first + 6,
                    opponent_king_sqr < 64,
                    forall|s: u32| s < 64 && #[trigger] bit_set(piece_bb, s) ==> bit_set(b0.pieces[i as int], s),
                    forall|t: u32| t < 64 ==> (#[trigger] bit_set(res, t) == (bit_set(res_i, t) || exists|s: u32|
                        s < 64 && bit_set(b0.pieces[i as int], s) && !bit_set(piece_bb, s)
                            && #[trigger] bit_set(piece_reach(*self, b0, s as int, i), t))),
                decreases piece_bb,
            {
                let ghost pb = piece_bb;
                let ghost res0 = res;
                let piece_idx: u32 = pop_lsb(&mut piece_bb);
                let mut scratch: Vec<u32> = Vec::new();
                let targets: u64 = self.pseudolegal_for(piece_idx, i, side, board, &mut scratch, true, true);
                assert(targets == piece_reach(*self, b0, piece_idx as int, i)) by {
                    assert(board.pieces == b0.pieces);
                    assert(board.occupied() == b0.occupied());
                }
                let ghost cb0 = board.check_block_sqrs;
                if contains_square(targets, opponent_king_sqr) {
                    add_checker(board, piece_idx);
                    proof {
                        assert(piece_checks(*self, b0, side, i, piece_idx));
                        assert(!found.contains(piece_idx)) by {
                            lemma_bit_ops(pb, piece_idx, piece_idx);
                            lemma_piece_alone(b0, i, piece_idx);
                            if found_i.contains(piece_idx) {
                                if bit_set(pawn_checks, piece_idx) {
                                    lemma_bit_logic(b0.pieces[first as int], pawn_king_origins(b0, side), piece_idx);
                                } else {
                                    let j = choose|j: u32| first < j < i && #[trigger] piece_checks(*self, b0, side, j, piece_idx);
                                }
                            }
                        }
                        found = found.insert(piece_idx);
                        assert forall|t: u32| t < 64 implies #[trigger] bit_set(board.check_block_sqrs, t) == (bit_set(b0.check_block_sqrs, t) || found.contains(t)) by {
                            lemma_bit_ops(cb0, piece_idx, t);
                        }
                    }
                } else {
                    proof {
                        assert(!piece_checks(*self, b0, side, i, piece_idx));
                    }
                }
                proof {
                    assert forall|q: u32| #[trigger] found.contains(q) == (found_i.contains(q) || (q < 64
                        && piece_checks(*self, b0, side, i, q) && !bit_set(piece_bb, q))) by {
                        if q < 64 {
                            lemma_bit_ops(pb, piece_idx, q);
                        }
                    }
                }
                res = res | targets;
                proof {
                    assert forall|s: u32| s < 64 && #[trigger] bit_set(piece_bb, s) implies bit_set(b0.pieces[i as int], s) by {
                        lemma_bit_ops(pb, piece_idx, s);
                    }
                    assert forall|t: u32| t < 64 implies (#[trigger] bit_set(res, t) == (bit_set(res_i, t) || exists|s: u32|
                        s < 64 && bit_set(b0.pieces[i as int], s) && !bit_set(piece_bb, s)
                            && #[trigger] bit_set(piece_reach(*self, b0, s as int, i), t))) by {
                        lemma_bit_logic(res0, targets, t);
                        lemma_bit_ops(pb, piece_idx, piece_idx);
                        let ex_new = exists|s: u32| s < 64 && bit_set(b0.pieces[i as int], s) && !bit_set(piece_bb, s)
                            && #[trigger] bit_set(piece_reach(*self, b0, s as int, i), t);
                        let ex_old = exists|s: u32| s < 64 && bit_set(b0.pieces[i as int], s) && !bit_set(pb, s)
                            && #[trigger] bit_set(piece_reach(*self, b0, s as int, i), t);
                        assert(bit_set(res0, t) == (bit_set(res_i, t) || ex_old));
                        if ex_old {
                            let s = choose|s: u32| s < 64 && bit_set(b0.pieces[i as int], s) && !bit_set(pb, s)
                                && #[trigger] bit_set(piece_reach(*self, b0, s as int, i), t);
                            lemma_bit_ops(pb, piece_idx, s);
                            assert(!bit_set(piece_bb, s));
                            assert(ex_new);
                        }
                        if bit_set(targets, t) {
                            assert(bit_set(b0.pieces[i as int], piece_idx) && !bit_set(piece_bb, piece_idx)
                                && bit_set(piece_reach(*self, b0, piece_idx as int, i), t));
                            assert(ex_new);
                        }
                        if ex_new {
                            let s = choose|s: u32| s < 64 && bit_set(b0.pieces[i as int], s) && !bit_set(piece_bb, s)
                                && #[trigger] bit_set(piece_reach(*self, b0, s as int, i), t);
                            lemma_bit_ops(pb, piece_idx, s);
                            if s != piece_idx {
                                assert(!bit_set(pb, s));
                                assert(ex_old);
                            } else {
                                assert(bit_set(targets, t));
                            }
                        }
                    }
                }
            }
            proof {
                assert forall|t: u32| t < 64 implies (#[trigger] bit_set(res, t) == (bit_set(pawns, t) || exists|j: u32, s: u32|
                    first < j < i + 1 && s < 64 && #[trigger] bit_set(b0.pieces[j as int], s)
                        && #[trigger] bit_set(piece_reach(*self, b0, s as int, j), t))) by {
                    lemma_bit_logic(0, 0, t);
                    if bit_set(res, t) && !bit_set(res_i, t) {
                        let s = choose|s: u32| s < 64 && bit_set(b0.pieces[i as int], s) && !bit_set(piece_bb, s)
                            && #[trigger] bit_set(piece_reach(*self, b0, s as int, i), t);
                        assert(bit_set(b0.pieces[i as int], s) && bit_set(piece_reach(*self, b0, s as int, i), t));
                    }
                    if exists|j: u32, s: u32| first < j < i + 1 && s < 64 && #[trigger] bit_set(b0.pieces[j as int], s)
                        && #[trigger] bit_set(piece_reach(*self, b0, s as int, j), t) {
                        let (j, s) = choose|j: u32, s: u32| first < j < i + 1 && s < 64 && #[trigger] bit_set(b0.pieces[j as int], s)
                            && #[trigger] bit_set(piece_reach(*self, b0, s as int, j), t);
                        if j == i {
                            lemma_bit_logic(0, 0, s);
                            assert(bit_set(b0.pieces[i as int], s) && !bit_set(piece_bb, s)
                                && bit_set(piece_reach(*self, b0, s as int, i), t));
                        }
                    }
                }
                assert forall|q: u32| #[trigger] found.contains(q) == (q < 64 && (bit_set(pawn_checks, q) || exists|j: u32|
                    first < j < i + 1 && #[trigger] piece_checks(*self, b0, side, j, q))) by {
                    if q < 64 {
                        lemma_bit_logic(0, 0, q);
                    }
                    if exists|j: u32| first < j < i + 1 && #[trigger] piece_checks(*self, b0, side, j, q) {
                        let j = choose|j: u32| first < j < i + 1 && #[trigger] piece_checks(*self, b0, side, j, q);
                        if j < i && q < 64 {
                            assert(found_i.contains(q));
                        }
                    }
                    if found_i.contains(q) && !bit_set(pawn_checks, q) {
                        let j = choose|j: u32| first < j < i && #[trigger] piece_checks(*self, b0, side, j, q);
                        assert(first < j < i + 1 && piece_checks(*self, b0, side, j, q));
                    }
                }
            }
            i += 1;
        }
        proof {
            assert(pawns == pawn_attacks_of(b0, side));
            assert(found =~= checkers(*self, b0, side));
        }
        res
    }
}

/// Saturating count of checkers: at most two are recorded.
pub open spec fn saturated(n: int) -> u32 {
    if n >= 2 { 2 } else { n as u32 }
}

/// Squares from which a pawn of `side` attacks the other king.
pub open spec fn pawn_king_origins(b: Board, side: Color) -> u64 {
    let k = single(king_square(b.pieces, side.opposite_spec()));
    if side == Color::White {
        ((k & !FILE_A) >> 9u64) | ((k & !FILE_H) >> 7u64)
    } else {
        ((k & !FILE_A) << 7u64) | ((k & !FILE_H) << 9u64)
    }
}

/// Pawns of `side` that give check.
pub open spec fn pawn_checkers(b: Board, side: Color) -> u64 {
    b.pieces[side.first_piece() as int] & pawn_king_origins(b, side)
}

/// The piece `j` of `side` stands on `s` and attacks the other king.
pub open spec fn piece_checks(g: MoveGen, b: Board, side: Color, j: u32, s: u32) -> bool {
    bit_set(b.pieces[j as int], s) && bit_set(piece_reach(g, b, s as int, j), king_square(b.pieces, side.opposite_spec()))
}

/// A piece of `side` on `s` gives check to the other king.
pub open spec fn checker_at(g: MoveGen, b: Board, side: Color, s: u32) -> bool {
    s < 64 && (bit_set(pawn_checkers(b, side), s) || exists|j: u32|
        side.first_piece() < j < side.first_piece() + 6 && #[trigger] piece_checks(g, b, side, j, s))
}

/// The squares of the pieces of `side` that give check.
pub open spec fn checkers(g: MoveGen, b: Board, side: Color) -> Set<u32> {
    Set::new(|s: u32| checker_at(g, b, side, s))
}

/// A square holds at most one piece.
proof fn lemma_piece_alone(b: Board, i: u32, s: u32)
    requires
        b.wf(),
        i < 12,
        s < 64,
        bit_set(b.pieces[i as int], s),
    ensures
        forall|j: u32| j < 12 && j != i ==> !bit_set(#[trigger] b.pieces[j as int], s),
{
    assert forall|j: u32| j < 12 && j != i implies !bit_set(#[trigger] b.pieces[j as int], s) by {
        lemma_bit_logic(b.pieces[i as int], b.pieces[j as int], s);
        lemma_bit_logic(b.pieces[j as int], b.pieces[i as int], s);
        lemma_bit_logic(0, 0, s);
        if j < i {
            assert(b.pieces[j as int] & b.pieces[i as int] == 0);
        } else {
            assert(b.pieces[i as int] & b.pieces[j as int] == 0);
        }
    }
}

/// Squares attacked by the pawns of `side`.
pub open spec fn pawn_attacks_of(b: Board, side: Color) -> u64 {
    if side == Color::White {
        ((b.pieces[0] & !FILE_A) << 7u64) | ((b.pieces[0] & !FILE_H) << 9u64)
    } else {
        ((b.pieces[6] & !FILE_A) >> 9u64) | ((b.pieces[6] & !FILE_H) >> 7u64)
    }
}

/// Counts one more checker on `sq`, saturating at two.
fn add_checker(board: &mut Board, sq: u32)
    requires
        old(board).wf(),
        sq < 64,
    ensures
        *final(board) == (Board {
            nof_checkers: if old(board).nof_checkers < 2 { (old(board).nof_checkers + 1) as u32 } else { 2 },
            check_block_sqrs: with_bit(old(board).check_block_sqrs, sq),
            ..*old(board)
        }),
{
    if board.nof_checkers < 2 {
        board.nof_checkers = board.nof_checkers + 1;
    }
    set_square(&mut board.check_block_sqrs, sq);
}


/// `b` and `a` differ at most in the pin, meta-attack and check-block fields.
pub open spec fn same_but_pins(a: Board, b: Board) -> bool {
    a == Board {
        white_pinned: a.white_pinned,
        black_pinned: a.black_pinned,
        white_pinned_restrictions: a.white_pinned_restrictions,
        black_pinned_restrictions: a.black_pinned_restrictions,
        meta_attacks: a.meta_attacks,
        check_block_sqrs: a.check_block_sqrs,
        ..b
    }
}

impl MoveGen {
    /// Recomputes the pins of `side`, the check-block squares of sliding
    /// checkers and the meta-attacks behind its king; the other side's pin
    /// data is cleared.
    pub fn compute_pinned(&self, board: &mut Board, side: Color)
        requires
            self.wf(),
            old(board).wf(),
        ensures
            same_but_pins(*final(board), *old(board)),
            final(board).wf(),
            side == Color::White ==> final(board).black_pinned == 0
                && (forall|q: int| 0 <= q < 64 ==> final(board).black_pinned_restrictions[q] == 0),
            side == Color::Black ==> final(board).white_pinned == 0
                && (forall|q: int| 0 <= q < 64 ==> final(board).white_pinned_restrictions[q] == 0),
            pins_computed(*self, *old(board), *final(board), side),
    {
        let ghost b_old = *board;
        board.white_pinned = 0;
        board.black_pinned = 0;
        board.white_pinned_restrictions = [0u64; 64];
        board.black_pinned_restrictions = [0u64; 64];
        board.meta_attacks = 0;
        let ghost r0 = *board;
        self.pinned_for_specified(false, board, side);
        let ghost mid = *board;
        self.pinned_for_specified(true, board, side);
        proof {
            lemma_pins_compose(*self, b_old, r0, mid, *board, side);
        }
    }

    /// Pins and sliding checks along cardinal (or, with `diag`, diagonal)
    /// rays of the king of `side`: adds each pin of [`pins_piece`] to the
    /// side's pinned set with its ray as the pinned piece's restriction, and
    /// for each checker of [`checks_along`] its ray to the check-block squares
    /// and its meta-attacks.
    fn pinned_for_specified(&self, diag: bool, board: &mut Board, side: Color)
        requires
            self.wf(),
            old(board).wf(),
        ensures
            same_but_pins(*final(board), *old(board)),
            final(board).wf(),
            side == Color::White ==> final(board).black_pinned == old(board).black_pinned
                && final(board).black_pinned_restrictions == old(board).black_pinned_restrictions,
            side == Color::Black ==> final(board).white_pinned == old(board).white_pinned
                && final(board).white_pinned_restrictions == old(board).white_pinned_restrictions,
            pins_added(*self, *old(board), *final(board), side, diag),
    {
        let ghost b0 = *board;
        let white: bool = side.is_white();
        let king_sqr_idx: usize = board.get_king_sqr_idx(side) as usize;
        let opponent_sliding: u64 = if white {
            if diag { board.pieces[10] | board.pieces[8] } else { board.pieces[10] | board.pieces[9] }
        } else {
            if diag { board.pieces[4] | board.pieces[2] } else { board.pieces[4] | board.pieces[3] }
        };
        let empty_sliding_from_king: u64 = if diag { self.attack_bbs[2][king_sqr_idx] } else { self.attack_bbs[3][king_sqr_idx] };
        let mut potential_pinners: u64 = opponent_sliding & empty_sliding_from_king;
        let ghost initial = potential_pinners;
        proof {
            assert(initial == pin_sliders(b0, side, diag) & pin_line(*self, b0, side, diag));
            assert forall|q: u32| q < 64 implies !bit_set(0, q) by {
                lemma_bit_logic(0, 0, q);
            }
        }
        if potential_pinners == 0 {
            proof {
                assert forall|p: u32| p < 64 implies !on_pin_line(*self, b0, side, diag, p) by {
                    lemma_bit_logic(0, 0, p);
                }
            }
            return;
        }
        let rpp: u64 = self.get_sliding_for(
            king_sqr_idx,
            self.get_relevant_blockers(king_sqr_idx, opponent_sliding, !diag),
            !diag,
        );
        let total_occupation: u64 = board.white_occupation | board.black_occupation;
        let king_bit: u64 = 1u64 << (king_sqr_idx as u32);
        while potential_pinners != 0
            invariant
                self.wf(),
                board.wf(),
                same_but_pins(*board, b0),
                king_sqr_idx < 64,
                king_sqr_idx == king_square(b0.pieces, side),
                king_bit == single(king_sqr_idx as u32),
                total_occupation == b0.occupied(),
                rpp == slides(king_sqr_idx as int, pin_sliders(b0, side, diag) & self.magic_bb.mask(king_sqr_idx as int, !diag), !diag),
                side == Color::White ==> board.black_pinned == b0.black_pinned
                    && board.black_pinned_restrictions == b0.black_pinned_restrictions,
                side == Color::Black ==> board.white_pinned == b0.white_pinned
                    && board.white_pinned_restrictions == b0.white_pinned_restrictions,
                white == (side == Color::White),
                initial == pin_sliders(b0, side, diag) & pin_line(*self, b0, side, diag),
                forall|p: u32| p < 64 && #[trigger] bit_set(potential_pinners, p) ==> bit_set(initial, p),
                pins_so_far(*self, b0, *board, side, diag, potential_pinners),
            decreases potential_pinners,
        {
            let ghost rest0 = potential_pinners;
            let ghost bd0 = *board;
            let pp_sqr_idx: u32 = pop_lsb(&mut potential_pinners);
            let pp: usize = pp_sqr_idx as usize;
            let specific_rpp: u64 = rpp & self.get_sliding_for(pp, self.get_relevant_blockers(pp, king_bit, !diag), !diag);
            let occupied_rpp: u64 = specific_rpp & total_occupation;
            proof {
                assert(specific_rpp == pin_between(*self, b0, side, diag, pp_sqr_idx));
                assert(on_pin_line(*self, b0, side, diag, pp_sqr_idx));
                assert forall|p: u32| p < 64 && #[trigger] bit_set(potential_pinners, p) implies bit_set(initial, p) by {
                    lemma_bit_ops(rest0, pp_sqr_idx, p);
                }
                assert forall|p: u32| p < 64 implies (!bit_set(potential_pinners, p)) == (!bit_set(rest0, p) || p == pp_sqr_idx) by {
                    lemma_bit_ops(rest0, pp_sqr_idx, p);
                }
            }
            if occupied_rpp != 0 && occupied_rpp & (occupied_rpp - 1) == 0 {
                // exactly one piece between: it is pinned
                proof {
                    vstd::std_specs::bits::axiom_u64_trailing_zeros(occupied_rpp);
                }
                let pinned_idx: u32 = occupied_rpp.trailing_zeros();
                let allowed: u64 = with_set_square(specific_rpp, pp_sqr_idx);
                if white {
                    set_square(&mut board.white_pinned, pinned_idx);
                    board.white_pinned_restrictions[pinned_idx as usize] = board.white_pinned_restrictions[pinned_idx as usize] | allowed;
                } else {
                    set_square(&mut board.black_pinned, pinned_idx);
                    board.black_pinned_restrictions[pinned_idx as usize] = board.black_pinned_restrictions[pinned_idx as usize] | allowed;
                }
                proof {
                    let q0 = pinned_idx;
                    assert(q0 < 64);
                    assert forall|q: u32| q < 64 implies #[trigger] bit_set(pinned_of(*board, side), q) == (bit_set(pinned_of(bd0, side), q)
                        || pins_piece(*self, b0, side, diag, pp_sqr_idx, q)) by {
                        lemma_bit_ops(pinned_of(bd0, side), q0, q);
                    }
                    assert forall|q: u32, t: u32| q < 64 && t < 64 implies #[trigger] bit_set(restrictions_of(*board, side)[q as int], t) == (
                        bit_set(restrictions_of(bd0, side)[q as int], t) || (pins_piece(*self, b0, side, diag, pp_sqr_idx, q)
                            && bit_set(pin_ray(*self, b0, side, diag, pp_sqr_idx), t))) by {
                        lemma_bit_logic(restrictions_of(bd0, side)[q as int], allowed, t);
                        if q != q0 {
                            assert(restrictions_of(*board, side)[q as int] == restrictions_of(bd0, side)[q as int]);
                            assert(!pins_piece(*self, b0, side, diag, pp_sqr_idx, q));
                        }
                    }
                    lemma_pin_step(*self, b0, bd0, *board, side, diag, rest0, potential_pinners, pp_sqr_idx);
                }
            } else if occupied_rpp == 0 {
                // nothing between: a sliding checker
                board.check_block_sqrs = board.check_block_sqrs | with_set_square(specific_rpp, pp_sqr_idx);
                let empty_board_slides: u64 = if diag { self.attack_bbs[2][pp] } else { self.attack_bbs[3][pp] };
                let meta: u64 = self.attack_bbs[5][king_sqr_idx] & empty_board_slides & !specific_rpp & !king_bit;
                board.meta_attacks = board.meta_attacks | meta;
                proof {
                    assert(meta == meta_of(*self, b0, side, diag, pp_sqr_idx));
                    assert(board.meta_attacks == bd0.meta_attacks | meta);
                    assert forall|t: u32| t < 64 implies #[trigger] bit_set(board.check_block_sqrs, t) == (bit_set(bd0.check_block_sqrs, t)
                        || (checks_along(*self, b0, side, diag, pp_sqr_idx) && bit_set(pin_ray(*self, b0, side, diag, pp_sqr_idx), t))) by {
                        lemma_bit_logic(bd0.check_block_sqrs, with_bit(specific_rpp, pp_sqr_idx), t);
                    }
                    assert forall|t: u32| t < 64 implies #[trigger] bit_set(board.meta_attacks, t) == (bit_set(bd0.meta_attacks, t)
                        || (checks_along(*self, b0, side, diag, pp_sqr_idx) && bit_set(meta_of(*self, b0, side, diag, pp_sqr_idx), t))) by {
                        lemma_bit_logic(bd0.meta_attacks, meta_of(*self, b0, side, diag, pp_sqr_idx), t);
                    }
                    lemma_pin_step(*self, b0, bd0, *board, side, diag, rest0, potential_pinners, pp_sqr_idx);
                }
            } else {
                proof {
                    lemma_pin_step(*self, b0, bd0, *board, side, diag, rest0, potential_pinners, pp_sqr_idx);
                }
            }
        }
        proof {
            assert forall|p: u32| p < 64 implies !bit_set(potential_pinners, p) by {
                lemma_bit_logic(0, 0, p);
            }
        }
    }
}

/// Opposing sliders that move along the ray kind (`diag` or cardinal).
pub open spec fn pin_sliders(b: Board, side: Color, diag: bool) -> u64 {
    if side == Color::White {
        if diag { b.pieces[10] | b.pieces[8] } else { b.pieces[10] | b.pieces[9] }
    } else {
        if diag { b.pieces[4] | b.pieces[2] } else { b.pieces[4] | b.pieces[3] }
    }
}

/// Empty-board rays of the ray kind from the king of `side`.
pub open spec fn pin_line(g: MoveGen, b: Board, side: Color, diag: bool) -> u64 {
    g.attack_bbs[if diag { 2int } else { 3int }][king_square(b.pieces, side) as int]
}

/// `p` holds an opposing slider on a ray of the king.
pub open spec fn on_pin_line(g: MoveGen, b: Board, side: Color, diag: bool, p: u32) -> bool {
    p < 64 && bit_set(pin_sliders(b, side, diag) & pin_line(g, b, side, diag), p)
}

/// The squares between the king of `side` and `p`: those the king's ray
/// reaches up to the first opposing slider and that `p`'s ray reaches up
/// to the king.
pub open spec fn pin_between(g: MoveGen, b: Board, side: Color, diag: bool, p: u32) -> u64 {
    let k = king_square(b.pieces, side) as int;
    slides(k, pin_sliders(b, side, diag) & g.magic_bb.mask(k, !diag), !diag) & slides(
        p as int,
        single(k as u32) & g.magic_bb.mask(p as int, !diag),
        !diag,
    )
}

/// The slider on `p` pins the piece on `q`: it is the only piece between.
pub open spec fn pins_piece(g: MoveGen, b: Board, side: Color, diag: bool, p: u32, q: u32) -> bool {
    let o = pin_between(g, b, side, diag, p) & b.occupied();
    on_pin_line(g, b, side, diag, p) && o != 0 && o & ((o - 1) as u64) == 0 && o.trailing_zeros() == q
}

/// The slider on `p` gives check: nothing stands between.
pub open spec fn checks_along(g: MoveGen, b: Board, side: Color, diag: bool, p: u32) -> bool {
    on_pin_line(g, b, side, diag, p) && pin_between(g, b, side, diag, p) & b.occupied() == 0
}

/// A pin ray or check ray: the squares between and the slider's own square.
pub open spec fn pin_ray(g: MoveGen, b: Board, side: Color, diag: bool, p: u32) -> u64 {
    with_bit(pin_between(g, b, side, diag, p), p)
}

/// The king's neighbours on the checker's empty-board rays, off the ray
/// between them.
pub open spec fn meta_of(g: MoveGen, b: Board, side: Color, diag: bool, p: u32) -> u64 {
    let k = king_square(b.pieces, side);
    g.attack_bbs[5][k as int] & g.attack_bbs[if diag { 2int } else { 3int }][p as int] & !pin_between(g, b, side, diag, p)
        & !single(k)
}

pub open spec fn pinned_of(b: Board, side: Color) -> u64 {
    if side == Color::White { b.white_pinned } else { b.black_pinned }
}

pub open spec fn restrictions_of(b: Board, side: Color) -> [u64; 64] {
    if side == Color::White { b.white_pinned_restrictions } else { b.black_pinned_restrictions }
}

/// `p` is an opposing slider on a king ray that is no longer in `rest`.
pub open spec fn done_pinner(g: MoveGen, b: Board, side: Color, diag: bool, rest: u64, p: u32) -> bool {
    on_pin_line(g, b, side, diag, p) && !bit_set(rest, p)
}

/// `now` is `b0` with the pins and checks of every slider outside `rest`
/// added.
pub open spec fn pins_so_far(g: MoveGen, b0: Board, now: Board, side: Color, diag: bool, rest: u64) -> bool {
    &&& forall|q: u32| q < 64 ==> #[trigger] bit_set(pinned_of(now, side), q) == (bit_set(pinned_of(b0, side), q)
        || exists|p: u32| done_pinner(g, b0, side, diag, rest, p) && pins_piece(g, b0, side, diag, p, q))
    &&& forall|q: u32, t: u32| q < 64 && t < 64 ==> #[trigger] bit_set(restrictions_of(now, side)[q as int], t) == (
        bit_set(restrictions_of(b0, side)[q as int], t) || exists|p: u32| done_pinner(g, b0, side, diag, rest, p)
            && pins_piece(g, b0, side, diag, p, q) && bit_set(pin_ray(g, b0, side, diag, p), t))
    &&& forall|t: u32| t < 64 ==> #[trigger] bit_set(now.check_block_sqrs, t) == (bit_set(b0.check_block_sqrs, t)
        || exists|p: u32| done_pinner(g, b0, side, diag, rest, p) && checks_along(g, b0, side, diag, p) && bit_set(
        pin_ray(g, b0, side, diag, p),
        t,
    ))
    &&& forall|t: u32| t < 64 ==> #[trigger] bit_set(now.meta_attacks, t) == (bit_set(b0.meta_attacks, t)
        || exists|p: u32| done_pinner(g, b0, side, diag, rest, p) && checks_along(g, b0, side, diag, p) && bit_set(
        meta_of(g, b0, side, diag, p),
        t,
    ))
}

/// `after` is `before` with the pins and checks along every king ray of
/// the kind added.
pub open spec fn pins_added(g: MoveGen, before: Board, after: Board, side: Color, diag: bool) -> bool {
    pins_so_far(g, before, after, side, diag, 0)
}

proof fn lemma_pin_step(g: MoveGen, b0: Board, bd0: Board, now: Board, side: Color, diag: bool, rest0: u64, rest1: u64, p0: u32)
    requires
        pins_so_far(g, b0, bd0, side, diag, rest0),
        forall|p: u32| p < 64 ==> (!bit_set(rest1, p)) == (!bit_set(rest0, p) || p == p0),
        p0 < 64,
        on_pin_line(g, b0, side, diag, p0),
        forall|q: u32| q < 64 ==> #[trigger] bit_set(pinned_of(now, side), q) == (bit_set(pinned_of(bd0, side), q) || pins_piece(g, b0, side, diag, p0, q)),
        forall|q: u32, t: u32| q < 64 && t < 64 ==> #[trigger] bit_set(restrictions_of(now, side)[q as int], t) == (
            bit_set(restrictions_of(bd0, side)[q as int], t) || (pins_piece(g, b0, side, diag, p0, q) && bit_set(pin_ray(g, b0, side, diag, p0), t))),
        forall|t: u32| t < 64 ==> #[trigger] bit_set(now.check_block_sqrs, t) == (bit_set(bd0.check_block_sqrs, t)
            || (checks_along(g, b0, side, diag, p0) && bit_set(pin_ray(g, b0, side, diag, p0), t))),
        forall|t: u32| t < 64 ==> #[trigger] bit_set(now.meta_attacks, t) == (bit_set(bd0.meta_attacks, t)
            || (checks_along(g, b0, side, diag, p0) && bit_set(meta_of(g, b0, side, diag, p0), t))),
    ensures
        pins_so_far(g, b0, now, side, diag, rest1),
{
    assert forall|p: u32| p < 64 && #[trigger] done_pinner(g, b0, side, diag, rest1, p) implies
        done_pinner(g, b0, side, diag, rest0, p) || p == p0 by {}
    assert(done_pinner(g, b0, side, diag, rest1, p0));
    assert forall|q: u32| q < 64 implies #[trigger] bit_set(pinned_of(now, side), q) == (bit_set(pinned_of(b0, side), q)
        || exists|p: u32| done_pinner(g, b0, side, diag, rest1, p) && pins_piece(g, b0, side, diag, p, q)) by {
        if exists|p: u32| done_pinner(g, b0, side, diag, rest1, p) && pins_piece(g, b0, side, diag, p, q) {
            let p = choose|p: u32| done_pinner(g, b0, side, diag, rest1, p) && pins_piece(g, b0, side, diag, p, q);
            if p != p0 {
                assert(done_pinner(g, b0, side, diag, rest0, p) && pins_piece(g, b0, side, diag, p, q));
            }
        }
        if bit_set(pinned_of(bd0, side), q) && !bit_set(pinned_of(b0, side), q) {
            let p = choose|p: u32| done_pinner(g, b0, side, diag, rest0, p) && pins_piece(g, b0, side, diag, p, q);
            assert(done_pinner(g, b0, side, diag, rest1, p));
        }
    }
    assert forall|q: u32, t: u32| q < 64 && t < 64 implies #[trigger] bit_set(restrictions_of(now, side)[q as int], t) == (
        bit_set(restrictions_of(b0, side)[q as int], t) || exists|p: u32| done_pinner(g, b0, side, diag, rest1, p)
            && pins_piece(g, b0, side, diag, p, q) && bit_set(pin_ray(g, b0, side, diag, p), t)) by {
        if exists|p: u32| done_pinner(g, b0, side, diag, rest1, p) && pins_piece(g, b0, side, diag, p, q) && bit_set(pin_ray(g, b0, side, diag, p), t) {
            let p = choose|p: u32| done_pinner(g, b0, side, diag, rest1, p) && pins_piece(g, b0, side, diag, p, q) && bit_set(pin_ray(g, b0, side, diag, p), t);
            if p != p0 {
                assert(done_pinner(g, b0, side, diag, rest0, p));
            }
        }
        if bit_set(restrictions_of(bd0, side)[q as int], t) && !bit_set(restrictions_of(b0, side)[q as int], t) {
            let p = choose|p: u32| done_pinner(g, b0, side, diag, rest0, p) && pins_piece(g, b0, side, diag, p, q) && bit_set(pin_ray(g, b0, side, diag, p), t);
            assert(done_pinner(g, b0, side, diag, rest1, p));
        }
    }
    assert forall|t: u32| t < 64 implies #[trigger] bit_set(now.check_block_sqrs, t) == (bit_set(b0.check_block_sqrs, t)
        || exists|p: u32| done_pinner(g, b0, side, diag, rest1, p) && checks_along(g, b0, side, diag, p) && bit_set(
        pin_ray(g, b0, side, diag, p), t)) by {
        if exists|p: u32| done_pinner(g, b0, side, diag, rest1, p) && checks_along(g, b0, side, diag, p) && bit_set(pin_ray(g, b0, side, diag, p), t) {
            let p = choose|p: u32| done_pinner(g, b0, side, diag, rest1, p) && checks_along(g, b0, side, diag, p) && bit_set(pin_ray(g, b0, side, diag, p), t);
            if p != p0 {
                assert(done_pinner(g, b0, side, diag, rest0, p));
            }
        }
        if bit_set(bd0.check_block_sqrs, t) && !bit_set(b0.check_block_sqrs, t) {
            let p = choose|p: u32| done_pinner(g, b0, side, diag, rest0, p) && checks_along(g, b0, side, diag, p) && bit_set(pin_ray(g, b0, side, diag, p), t);
            assert(done_pinner(g, b0, side, diag, rest1, p));
        }
    }
    assert forall|t: u32| t < 64 implies #[trigger] bit_set(now.meta_attacks, t) == (bit_set(b0.meta_attacks, t)
        || exists|p: u32| done_pinner(g, b0, side, diag, rest1, p) && checks_along(g, b0, side, diag, p) && bit_set(
        meta_of(g, b0, side, diag, p), t)) by {
        if exists|p: u32| done_pinner(g, b0, side, diag, rest1, p) && checks_along(g, b0, side, diag, p) && bit_set(meta_of(g, b0, side, diag, p), t) {
            let p = choose|p: u32| done_pinner(g, b0, side, diag, rest1, p) && checks_along(g, b0, side, diag, p) && bit_set(meta_of(g, b0, side, diag, p), t);
            if p != p0 {
                assert(done_pinner(g, b0, side, diag, rest0, p));
            }
        }
        if bit_set(bd0.meta_attacks, t) && !bit_set(b0.meta_attacks, t) {
            let p = choose|p: u32| done_pinner(g, b0, side, diag, rest0, p) && checks_along(g, b0, side, diag, p) && bit_set(meta_of(g, b0, side, diag, p), t);
            assert(done_pinner(g, b0, side, diag, rest1, p));
        }
    }
}

/// `after` holds exactly the pins, pin rays, checks and meta-attacks of
/// both ray kinds of the king of `side` in `b`, check-block squares added
/// to those `b` had.
pub open spec fn pins_computed(g: MoveGen, b: Board, after: Board, side: Color) -> bool {
    &&& forall|q: u32| q < 64 ==> #[trigger] bit_set(pinned_of(after, side), q) == exists|p: u32, d: bool|
        pins_piece(g, b, side, d, p, q)
    &&& forall|q: u32, t: u32| q < 64 && t < 64 ==> #[trigger] bit_set(restrictions_of(after, side)[q as int], t)
        == exists|p: u32, d: bool| pins_piece(g, b, side, d, p, q) && bit_set(pin_ray(g, b, side, d, p), t)
    &&& forall|t: u32| t < 64 ==> #[trigger] bit_set(after.check_block_sqrs, t) == (bit_set(b.check_block_sqrs, t)
        || exists|p: u32, d: bool| checks_along(g, b, side, d, p) && bit_set(pin_ray(g, b, side, d, p), t))
    &&& forall|t: u32| t < 64 ==> #[trigger] bit_set(after.meta_attacks, t) == exists|p: u32, d: bool|
        checks_along(g, b, side, d, p) && bit_set(meta_of(g, b, side, d, p), t)
}

proof fn lemma_pins_compose(g: MoveGen, b_old: Board, r0: Board, mid: Board, fin: Board, side: Color)
    requires
        r0 == (Board {
            white_pinned: 0,
            black_pinned: 0,
            white_pinned_restrictions: r0.white_pinned_restrictions,
            black_pinned_restrictions: r0.black_pinned_restrictions,
            meta_attacks: 0,
            ..b_old
        }),
        forall|q: int| 0 <= q < 64 ==> r0.white_pinned_restrictions[q] == 0 && r0.black_pinned_restrictions[q] == 0,
        same_but_pins(mid, r0),
        pins_added(g, r0, mid, side, false),
        pins_added(g, mid, fin, side, true),
    ensures
        pins_computed(g, b_old, fin, side),
{
    assert(mid.pieces == b_old.pieces && mid.occupied() == b_old.occupied() && r0.pieces == b_old.pieces);
    assert forall|p: u32, d: bool, q: u32| pins_piece(g, mid, side, d, p, q) == pins_piece(g, b_old, side, d, p, q)
        && pins_piece(g, r0, side, d, p, q) == pins_piece(g, b_old, side, d, p, q) by {}
    assert forall|p: u32, d: bool| checks_along(g, mid, side, d, p) == checks_along(g, b_old, side, d, p)
        && checks_along(g, r0, side, d, p) == checks_along(g, b_old, side, d, p)
        && pin_ray(g, mid, side, d, p) == pin_ray(g, b_old, side, d, p)
        && pin_ray(g, r0, side, d, p) == pin_ray(g, b_old, side, d, p)
        && meta_of(g, mid, side, d, p) == meta_of(g, b_old, side, d, p)
        && meta_of(g, r0, side, d, p) == meta_of(g, b_old, side, d, p)
        && on_pin_line(g, mid, side, d, p) == on_pin_line(g, b_old, side, d, p)
        && on_pin_line(g, r0, side, d, p) == on_pin_line(g, b_old, side, d, p) by {}
    assert forall|p: u32| #[trigger] bit_set(0u64, p) == false by {
        if p < 64 {
            lemma_bit_logic(0, 0, p);
        } else {
            assert(bit_set(0u64, p) == false) by (bit_vector);
        }
    }
    assert forall|q: u32| q < 64 implies #[trigger] bit_set(pinned_of(fin, side), q) == exists|p: u32, d: bool|
        pins_piece(g, b_old, side, d, p, q) by {
        lemma_bit_logic(0, 0, q);
        if exists|p: u32, d: bool| pins_piece(g, b_old, side, d, p, q) {
            let (p, d) = choose|p: u32, d: bool| pins_piece(g, b_old, side, d, p, q);
            if d {
                assert(done_pinner(g, mid, side, true, 0, p) && pins_piece(g, mid, side, true, p, q));
            } else {
                assert(done_pinner(g, r0, side, false, 0, p) && pins_piece(g, r0, side, false, p, q));
            }
        }
    }
    assert forall|q: u32, t: u32| q < 64 && t < 64 implies #[trigger] bit_set(restrictions_of(fin, side)[q as int], t)
        == exists|p: u32, d: bool| pins_piece(g, b_old, side, d, p, q) && bit_set(pin_ray(g, b_old, side, d, p), t) by {
        lemma_bit_logic(0, 0, t);
        assert(restrictions_of(r0, side)[q as int] == 0);
        if exists|p: u32, d: bool| pins_piece(g, b_old, side, d, p, q) && bit_set(pin_ray(g, b_old, side, d, p), t) {
            let (p, d) = choose|p: u32, d: bool| pins_piece(g, b_old, side, d, p, q) && bit_set(pin_ray(g, b_old, side, d, p), t);
            if d {
                assert(done_pinner(g, mid, side, true, 0, p));
            } else {
                assert(done_pinner(g, r0, side, false, 0, p));
            }
        }
    }
    assert forall|t: u32| t < 64 implies #[trigger] bit_set(fin.check_block_sqrs, t) == (bit_set(b_old.check_block_sqrs, t)
        || exists|p: u32, d: bool| checks_along(g, b_old, side, d, p) && bit_set(pin_ray(g, b_old, side, d, p), t)) by {
        if exists|p: u32, d: bool| checks_along(g, b_old, side, d, p) && bit_set(pin_ray(g, b_old, side, d, p), t) {
            let (p, d) = choose|p: u32, d: bool| checks_along(g, b_old, side, d, p) && bit_set(pin_ray(g, b_old, side, d, p), t);
            if d {
                assert(done_pinner(g, mid, side, true, 0, p));
            } else {
                assert(done_pinner(g, r0, side, false, 0, p));
            }
        }
    }
    assert forall|t: u32| t < 64 implies #[trigger] bit_set(fin.meta_attacks, t) == exists|p: u32, d: bool|
        checks_along(g, b_old, side, d, p) && bit_set(meta_of(g, b_old, side, d, p), t) by {
        lemma_bit_logic(0, 0, t);
        if exists|p: u32, d: bool| checks_along(g, b_old, side, d, p) && bit_set(meta_of(g, b_old, side, d, p), t) {
            let (p, d) = choose|p: u32, d: bool| checks_along(g, b_old, side, d, p) && bit_set(meta_of(g, b_old, side, d, p), t);
            if d {
                assert(done_pinner(g, mid, side, true, 0, p));
            } else {
                assert(done_pinner(g, r0, side, false, 0, p));
            }
        }
    }
}

/// The pin, check-block and meta-attack data of `b` are exactly those of
/// its placement for the side to move: pinned pieces with their rays,
/// checking pieces and the rays of sliding checkers, and the squares behind
/// the king on those rays.
pub open spec fn pin_data_exact(g: MoveGen, b: Board) -> bool {
    let side = b.turn;
    &&& forall|q: u32| q < 64 ==> #[trigger] bit_set(pinned_of(b, side), q) == exists|p: u32, d: bool|
        pins_piece(g, b, side, d, p, q)
    &&& forall|q: u32, t: u32| q < 64 && t < 64 ==> #[trigger] bit_set(restrictions_of(b, side)[q as int], t)
        == exists|p: u32, d: bool| pins_piece(g, b, side, d, p, q) && bit_set(pin_ray(g, b, side, d, p), t)
    &&& forall|t: u32| t < 64 ==> #[trigger] bit_set(b.check_block_sqrs, t) == (checker_at(g, b, side.opposite_spec(), t)
        || exists|p: u32, d: bool| checks_along(g, b, side, d, p) && bit_set(pin_ray(g, b, side, d, p), t))
    &&& forall|t: u32| t < 64 ==> #[trigger] bit_set(b.meta_attacks, t) == exists|p: u32, d: bool|
        checks_along(g, b, side, d, p) && bit_set(meta_of(g, b, side, d, p), t)
}

/// Computing the pins after the checks gives exact pin data.
pub proof fn lemma_pin_data(g: MoveGen, checked: Board, fin: Board)
    requires
        same_but_pins(fin, checked),
        forall|t: u32| t < 64 ==> #[trigger] bit_set(checked.check_block_sqrs, t) == checker_at(g, checked, checked.turn.opposite_spec(), t),
        pins_computed(g, checked, fin, checked.turn),
    ensures
        pin_data_exact(g, fin),
{
    let side = fin.turn;
    assert(fin.pieces == checked.pieces && fin.occupied() == checked.occupied());
    assert forall|p: u32, d: bool, q: u32| pins_piece(g, fin, side, d, p, q) == pins_piece(g, checked, side, d, p, q) by {}
    assert forall|p: u32, d: bool| checks_along(g, fin, side, d, p) == checks_along(g, checked, side, d, p)
        && pin_ray(g, fin, side, d, p) == pin_ray(g, checked, side, d, p)
        && meta_of(g, fin, side, d, p) == meta_of(g, checked, side, d, p) by {}
    lemma_checkers_placement(g, fin, checked, side.opposite_spec());
    assert forall|s: u32| checker_at(g, fin, side.opposite_spec(), s) == checker_at(g, checked, side.opposite_spec(), s) by {
        assert(checkers(g, fin, side.opposite_spec()).contains(s) == checkers(g, checked, side.opposite_spec()).contains(s));
    }
}

} // verus!