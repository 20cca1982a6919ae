//! The game driver: make and unmake with per-ply reversal records.
use vstd::prelude::*;
use crate::bitboard::{bit_set, with_bit, without_bit, lemma_bit_ops};
use crate::board::{
    Board, fits, castle_rook_squares, placement_valid, white_union, black_union, touches,
};
use crate::move_gen::{
    MoveGen, legal_entry, legal_list_exact, attacks_exact, lemma_attacks_placement, saturated, checkers, checker_at,
    lemma_checkers_placement, pin_data_exact, lemma_pin_data,
};
use crate::moves::{
    init_of, target_of, capture_of, eaten_of, short_of, long_of, double_push_of, promotion_of,
    promoted_of, moved_of, en_passant_of, get_init, get_target, get_moved_piece, get_promoted_piece,
    is_eating, is_short_castle, is_castle, is_double_push, is_promotion, is_en_passant,
};
use crate::types::{Color, piece_of};
use crate::magic::stored_magics_work;

verus! {

/// Piece bitboards and the two occupations.
pub type Placement = (Seq<u64>, u64, u64);

pub open spec fn placement_of(b: Board) -> Placement {
    (b.pieces@, b.white_occupation, b.black_occupation)
}

/// The placement after `side` plays `m` on `b`: a capture clears the
/// captured piece, the moved piece leaves `from` and lands on `to` (or the
/// promoted piece does), a castle also moves its rook, and an en-passant
/// capture clears the pawn behind `to`.
pub open spec fn after_move(b: Board, side: Color, m: u32) -> Placement {
    let w = side == Color::White;
    let from = init_of(m);
    let to = target_of(m);
    let mp = moved_of(m) as int;
    let e = eaten_of(m) as int;
    let pr = promoted_of(m) as int;
    let first = side.first_piece() as int;
    let ofirst = side.opposite_spec().first_piece() as int;
    let own0 = b.occupation_of(side);
    let opp0 = b.occupation_of(side.opposite_spec());
    let pc0 = b.pieces@;
    let pc1 = if capture_of(m) && !en_passant_of(m) { pc0.update(e, without_bit(pc0[e], to)) } else { pc0 };
    let opp1 = if capture_of(m) && !en_passant_of(m) { without_bit(opp0, to) } else { opp0 };
    let pc2a = pc1.update(mp, without_bit(pc1[mp], from));
    let pc2 = if !promotion_of(m) { pc2a.update(mp, with_bit(pc2a[mp], to)) } else { pc2a };
    let own2 = with_bit(without_bit(own0, from), to);
    let rf = castle_rook_squares(side, short_of(m)).0;
    let rt = castle_rook_squares(side, short_of(m)).1;
    let pc3 = if promotion_of(m) {
        pc2.update(pr, with_bit(pc2[pr], to))
    } else if short_of(m) || long_of(m) {
        pc2.update(first + 3, with_bit(without_bit(pc2[first + 3], rf), rt))
    } else {
        pc2
    };
    let own3 = if !promotion_of(m) && (short_of(m) || long_of(m)) { with_bit(without_bit(own2, rf), rt) } else { own2 };
    let v = (if w { to - 8 } else { to + 8 }) as u32;
    let pc4 = if en_passant_of(m) { pc3.update(ofirst, without_bit(pc3[ofirst], v)) } else { pc3 };
    let opp4 = if en_passant_of(m) { without_bit(opp1, v) } else { opp1 };
    if w { (pc4, own3, opp4) } else { (pc4, opp4, own3) }
}

/// The placement before `side` played `m`, read back from `a`: the steps of
/// `after_move` undone in reverse order.
pub open spec fn before_move(a: Placement, side: Color, m: u32) -> Placement {
    let w = side == Color::White;
    let from = init_of(m);
    let to = target_of(m);
    let mp = moved_of(m) as int;
    let e = eaten_of(m) as int;
    let pr = promoted_of(m) as int;
    let first = side.first_piece() as int;
    let ofirst = side.opposite_spec().first_piece() as int;
    let own4 = if w { a.1 } else { a.2 };
    let opp4 = if w { a.2 } else { a.1 };
    let pc4 = a.0;
    let v = (if w { to - 8 } else { to + 8 }) as u32;
    let pc3 = if en_passant_of(m) { pc4.update(ofirst, with_bit(pc4[ofirst], v)) } else { pc4 };
    let opp3 = if en_passant_of(m) { with_bit(opp4, v) } else { opp4 };
    let rf = castle_rook_squares(side, short_of(m)).0;
    let rt = castle_rook_squares(side, short_of(m)).1;
    let pc2 = if promotion_of(m) {
        pc3.update(pr, without_bit(pc3[pr], to))
    } else if short_of(m) || long_of(m) {
        pc3.update(first + 3, with_bit(without_bit(pc3[first + 3], rt), rf))
    } else {
        pc3
    };
    let own2 = if !promotion_of(m) && (short_of(m) || long_of(m)) { with_bit(without_bit(own4, rt), rf) } else { own4 };
    let pc1a = if !promotion_of(m) { pc2.update(mp, without_bit(pc2[mp], to)) } else { pc2 };
    let pc1 = pc1a.update(mp, with_bit(pc1a[mp], from));
    let own1 = with_bit(without_bit(own2, to), from);
    let pc0 = if capture_of(m) && !en_passant_of(m) { pc1.update(e, with_bit(pc1[e], to)) } else { pc1 };
    let opp0 = if capture_of(m) && !en_passant_of(m) { with_bit(opp3, to) } else { opp3 };
    if w { (pc0, own1, opp0) } else { (pc0, opp0, own1) }
}


proof fn lemma_or6(a0: u64, a1: u64, a2: u64, a3: u64, a4: u64, a5: u64, s: u32)
    by (bit_vector)
    requires
        s < 64,
    ensures
        bit_set(a0 | a1 | a2 | a3 | a4 | a5, s) == (bit_set(a0, s) || bit_set(a1, s) || bit_set(a2, s)
            || bit_set(a3, s) || bit_set(a4, s) || bit_set(a5, s)),
{
}

/// A square of a piece of `side` is a square of its occupation.
proof fn lemma_piece_in_occupation(b: Board, side: Color, i: int, s: u32)
    requires
        b.placement_ok(),
        side.first_piece() <= i < side.first_piece() + 6,
        s < 64,
    ensures
        bit_set(b.pieces[i], s) ==> bit_set(b.occupation_of(side), s),
{
    let p = b.pieces;
    lemma_or6(p[0], p[1], p[2], p[3], p[4], p[5], s);
    lemma_or6(p[6], p[7], p[8], p[9], p[10], p[11], s);
}

proof fn lemma_move_and_back(x: u64, f: u32, t: u32)
    by (bit_vector)
    requires
        f < 64,
        t < 64,
        f != t,
        bit_set(x, f),
        !bit_set(x, t),
    ensures
        with_bit(without_bit(with_bit(without_bit(x, f), t), t), f) == x,
        with_bit(without_bit(without_bit(x, f), t), f) == x,
{
}

proof fn lemma_castle_and_back(x: u64, f: u32, t: u32, rf: u32, rt: u32)
    by (bit_vector)
    requires
        f < 64,
        t < 64,
        rf < 64,
        rt < 64,
        f != t && f != rf && f != rt && t != rf && t != rt && rf != rt,
        bit_set(x, f),
        !bit_set(x, t),
        bit_set(x, rf),
        !bit_set(x, rt),
    ensures
        with_bit(without_bit(with_bit(without_bit(with_bit(without_bit(with_bit(without_bit(x, f), t), rf), rt), rt), rf), t), f) == x,
{
}

proof fn lemma_clear_and_back(x: u64, s: u32)
    by (bit_vector)
    requires
        s < 64,
    ensures
        bit_set(x, s) ==> with_bit(without_bit(x, s), s) == x,
        !bit_set(x, s) ==> without_bit(with_bit(x, s), s) == x,
{
}

/// Unmaking a move that fits the position gives back its placement.
pub proof fn lemma_before_after(b: Board, side: Color, m: u32)
    requires
        b.wf(),
        fits(b, side, m),
    ensures
        before_move(after_move(b, side, m), side, m) == placement_of(b),
{
    let w = side == Color::White;
    let from = init_of(m);
    let to = target_of(m);
    let mp = moved_of(m) as int;
    let e = eaten_of(m) as int;
    let pr = promoted_of(m) as int;
    let first = side.first_piece() as int;
    let ofirst = side.opposite_spec().first_piece() as int;
    let own0 = b.occupation_of(side);
    let opp0 = b.occupation_of(side.opposite_spec());
    let pc0 = b.pieces@;
    assert(from < 64 && to < 64) by {
        crate::moves::lemma_field_ranges_pub(m);
    }
    lemma_piece_in_occupation(b, side, mp, to);
    lemma_piece_in_occupation(b, side, mp, from);
    assert(!bit_set(pc0[mp], to));
    assert(bit_set(own0, from));
    let a = after_move(b, side, m);
    let r = before_move(a, side, m);
    if short_of(m) || long_of(m) {
        let rf = castle_rook_squares(side, short_of(m)).0;
        let rt = castle_rook_squares(side, short_of(m)).1;
        lemma_piece_in_occupation(b, side, first + 3, rt);
        lemma_piece_in_occupation(b, side, first + 3, rf);
        lemma_move_and_back(pc0[mp], from, to);
        lemma_move_and_back(pc0[first + 3], rf, rt);
        lemma_castle_and_back(own0, from, to, rf, rt);
        assert(r.0 =~= pc0);
    } else if en_passant_of(m) {
        let v = (if w { to - 8 } else { to + 8 }) as u32;
        lemma_piece_in_occupation(b, side.opposite_spec(), ofirst, v);
        lemma_move_and_back(pc0[mp], from, to);
        lemma_move_and_back(own0, from, to);
        lemma_clear_and_back(pc0[ofirst], v);
        lemma_clear_and_back(opp0, v);
        assert(r.0 =~= pc0);
    } else {
        lemma_move_and_back(own0, from, to);
        if capture_of(m) {
            lemma_piece_in_occupation(b, side.opposite_spec(), e, to);
            lemma_clear_and_back(pc0[e], to);
            lemma_clear_and_back(opp0, to);
        }
        if promotion_of(m) {
            lemma_piece_in_occupation(b, side, pr, to);
            lemma_clear_and_back(pc0[pr], to);
            lemma_clear_and_back(pc0[mp], from);
        } else {
            lemma_move_and_back(pc0[mp], from, to);
        }
        assert(r.0 =~= pc0);
    }
}


/// Computes [`after_move`].
fn placement_after(b: &Board, side: Color, m: u32) -> (r: ([u64; 12], u64, u64))
    requires
        b.wf(),
        fits(*b, side, m),
    ensures
        (r.0@, r.1, r.2) == after_move(*b, side, m),
{
    let w: bool = side.is_white();
    let from: u32 = get_init(m);
    let to: u32 = get_target(m);
    let mp: usize = get_moved_piece(m) as usize;
    let first: usize = if w { 0 } else { 6 };
    let ofirst: usize = if w { 6 } else { 0 };
    let mut p: [u64; 12] = b.pieces;
    let mut own: u64 = if w { b.white_occupation } else { b.black_occupation };
    let mut opp: u64 = if w { b.black_occupation } else { b.white_occupation };
    let ep: bool = is_en_passant(m);
    let promo: bool = is_promotion(m);
    if is_eating(m) && !ep {
        let e: usize = match crate::moves::eaten_piece(m) {
            Some(e) => e as usize,
            None => 0,
        };
        p[e] = crate::bitboard::with_clear_square(p[e], to);
        opp = crate::bitboard::with_clear_square(opp, to);
    }
    p[mp] = crate::bitboard::with_clear_square(p[mp], from);
    if !promo {
        p[mp] = crate::bitboard::with_set_square(p[mp], to);
    }
    own = crate::bitboard::with_set_square(crate::bitboard::with_clear_square(own, from), to);
    if promo {
        let pr: usize = get_promoted_piece(m) as usize;
        p[pr] = crate::bitboard::with_set_square(p[pr], to);
    } else if is_castle(m) {
        let short: bool = is_short_castle(m);
        let rf: u32 = if w { if short { 7 } else { 0 } } else { if short { 63 } else { 56 } };
        let rt: u32 = if w { if short { 5 } else { 3 } } else { if short { 61 } else { 59 } };
        p[first + 3] = crate::bitboard::with_set_square(crate::bitboard::with_clear_square(p[first + 3], rf), rt);
        own = crate::bitboard::with_set_square(crate::bitboard::with_clear_square(own, rf), rt);
    }
    if ep {
        let v: u32 = if w { to - 8 } else { to + 8 };
        p[ofirst] = crate::bitboard::with_clear_square(p[ofirst], v);
        opp = crate::bitboard::with_clear_square(opp, v);
    }
    if w {
        (p, own, opp)
    } else {
        (p, opp, own)
    }
}

/// Computes [`before_move`] from the placement of `b`.
fn placement_before(b: &Board, side: Color, m: u32) -> (r: ([u64; 12], u64, u64))
    requires
        fits_shape(side, m),
    ensures
        (r.0@, r.1, r.2) == before_move(placement_of(*b), side, m),
{
    let w: bool = side.is_white();
    let from: u32 = get_init(m);
    let to: u32 = get_target(m);
    let mp: usize = get_moved_piece(m) as usize;
    let first: usize = if w { 0 } else { 6 };
    let ofirst: usize = if w { 6 } else { 0 };
    let mut p: [u64; 12] = b.pieces;
    let mut own: u64 = if w { b.white_occupation } else { b.black_occupation };
    let mut opp: u64 = if w { b.black_occupation } else { b.white_occupation };
    let ep: bool = is_en_passant(m);
    let promo: bool = is_promotion(m);
    if ep {
        let v: u32 = if w { to - 8 } else { to + 8 };
        p[ofirst] = crate::bitboard::with_set_square(p[ofirst], v);
        opp = crate::bitboard::with_set_square(opp, v);
    }
    if promo {
        let pr: usize = get_promoted_piece(m) as usize;
        p[pr] = crate::bitboard::with_clear_square(p[pr], to);
    } else if is_castle(m) {
        let short: bool = is_short_castle(m);
        let rf: u32 = if w { if short { 7 } else { 0 } } else { if short { 63 } else { 56 } };
        let rt: u32 = if w { if short { 5 } else { 3 } } else { if short { 61 } else { 59 } };
        p[first + 3] = crate::bitboard::with_set_square(crate::bitboard::with_clear_square(p[first + 3], rt), rf);
        own = crate::bitboard::with_set_square(crate::bitboard::with_clear_square(own, rt), rf);
    }
    if !promo {
        p[mp] = crate::bitboard::with_clear_square(p[mp], to);
    }
    p[mp] = crate::bitboard::with_set_square(p[mp], from);
    own = crate::bitboard::with_set_square(crate::bitboard::with_clear_square(own, to), from);
    if is_eating(m) && !ep {
        let e: usize = match crate::moves::eaten_piece(m) {
            Some(e) => e as usize,
            None => 0,
        };
        p[e] = crate::bitboard::with_set_square(p[e], to);
        opp = crate::bitboard::with_set_square(opp, to);
    }
    if w {
        (p, own, opp)
    } else {
        (p, opp, own)
    }
}

/// The index and square ranges that `fits` guarantees, all that undoing a
/// move needs to stay in bounds.
pub open spec fn fits_shape(side: Color, m: u32) -> bool {
    let w = side == Color::White;
    &&& moved_of(m) < 12
    &&& (promotion_of(m) ==> promoted_of(m) < 12)
    &&& (capture_of(m) && !en_passant_of(m) ==> eaten_of(m) < 12)
    &&& (en_passant_of(m) ==> (if w { 8 <= target_of(m) } else { target_of(m) < 56 }))
}

proof fn lemma_fits_shape(b: Board, side: Color, m: u32)
    requires
        fits(b, side, m),
    ensures
        fits_shape(side, m),
{
}


/// The pin, check and meta-attack data of a position, saved per ply.
#[derive(Clone, Copy)]
pub struct PinInfo {
    pub nof_checkers: u32,
    pub check_block_sqrs: u64,
    pub white_pinned: u64,
    pub black_pinned: u64,
    pub white_pinned_restrictions: [u64; 64],
    pub black_pinned_restrictions: [u64; 64],
    pub meta_attacks: u64,
    pub mover_in_check: bool,
}

pub open spec fn pin_info_of(b: Board) -> PinInfo {
    PinInfo {
        nof_checkers: b.nof_checkers,
        check_block_sqrs: b.check_block_sqrs,
        white_pinned: b.white_pinned,
        black_pinned: b.black_pinned,
        white_pinned_restrictions: b.white_pinned_restrictions,
        black_pinned_restrictions: b.black_pinned_restrictions,
        meta_attacks: b.meta_attacks,
        mover_in_check: b.mover_in_check,
    }
}

pub open spec fn rights_of(b: Board) -> (bool, bool, bool, bool) {
    (b.ws, b.wl, b.bs, b.bl)
}

/// The en-passant square after the side to move of `h` plays `m`: the
/// square behind a pawn that advanced two squares, none otherwise.
pub open spec fn ep_after(h: Board, m: u32) -> Option<u32> {
    if double_push_of(m) {
        Some((if h.turn == Color::White { target_of(m) - 8 } else { target_of(m) + 8 }) as u32)
    } else {
        None
    }
}

/// The castling rights after the side to move of `h` plays `m`: a king
/// move ends both of the mover's rights, and a move that leaves or enters a
/// rook corner ends that corner's right.
pub open spec fn rights_after(h: Board, m: u32) -> (bool, bool, bool, bool) {
    let w = h.turn == Color::White;
    let from = init_of(m);
    let to = target_of(m);
    let king_moved = moved_of(m) == (if w { 5u32 } else { 11u32 });
    (
        h.ws && !(w && king_moved) && !touches(from, to, 7),
        h.wl && !(w && king_moved) && !touches(from, to, 0),
        h.bs && !(!w && king_moved) && !touches(from, to, 63),
        h.bl && !(!w && king_moved) && !touches(from, to, 56),
    )
}

/// Errors of the game driver.
#[derive(PartialEq, Eq, Structural, Clone, Copy, Debug)]
pub enum GameError {
    /// The position text is not a valid position.
    InvalidFen,
    /// No legal move goes from the given square to the given square.
    IllegalMove,
    /// No move has been played.
    NothingToUnmake,
    /// No working magic multiplier was found for some square.
    MagicSearchFailed,
}

/// A position together with the records that unmake every move played.
pub struct Game {
    pub board: Board,
    pub move_gen: MoveGen,
    /// En-passant square before each played move.
    pub ep_stack: Vec<Option<u32>>,
    /// Castling rights before each played move.
    pub castling_stack: Vec<(bool, bool, bool, bool)>,
    /// Pin and check data before each played move.
    pub pinned_info_stack: Vec<PinInfo>,
    /// Attack set of the mover before each played move.
    pub opponent_attacked_stack: Vec<u64>,
    /// Legal moves of every position reached; the last is the current one.
    pub legal_moves_stack: Vec<Vec<u32>>,
    pub played_moves_stack: Vec<u32>,
    /// The positions before each played move.
    pub history: Ghost<Seq<Board>>,
}

/// Playing `m` from `h` led to `next`, and the records hold what `h` had.
pub open spec fn step_ok(
    h: Board,
    m: u32,
    next: Board,
    legal: Seq<u32>,
    ep: Option<u32>,
    rights: (bool, bool, bool, bool),
    pins: PinInfo,
    attacks: u64,
) -> bool {
    &&& h.wf()
    &&& forall|k: int| 0 <= k < legal.len() ==> legal_entry(h, h.turn, #[trigger] legal[k])
    &&& legal.contains(m)
    &&& placement_of(next) == after_move(h, h.turn, m)
    &&& next.turn == h.turn.opposite_spec()
    &&& next.ep_square == ep_after(h, m)
    &&& rights_of(next) == rights_after(h, m)
    &&& next.attacks_of(h.turn.opposite_spec()) == h.attacks_of(h.turn.opposite_spec())
    &&& ep == h.ep_square
    &&& rights == rights_of(h)
    &&& pins == pin_info_of(h)
    &&& attacks == h.attacks_of(h.turn)
}

/// The data `b` derives from its placement are exact: the attack set of
/// the side not to move, `nof_checkers` as the number of its checking
/// pieces (up to two), and the pin, check-block and meta-attack data.
pub open spec fn derived_data_exact(g: MoveGen, b: Board) -> bool {
    &&& attacks_exact(g, b, b.turn.opposite_spec(), b.attacks_of(b.turn.opposite_spec()))
    &&& b.nof_checkers == saturated(checkers(g, b, b.turn.opposite_spec()).len() as int)
    &&& pin_data_exact(g, b)
}

impl Game {
    pub open spec fn plies(&self) -> nat {
        self.played_moves_stack@.len()
    }

    /// The legal moves of the current position.
    pub open spec fn legal_now(&self) -> Seq<u32> {
        self.legal_moves_stack@.last()@
    }

    pub open spec fn position_after(&self, i: int) -> Board {
        if i + 1 < self.plies() { self.history@[i + 1] } else { self.board }
    }

    /// The position and its tables are valid, the derived data are exact,
    /// every record stack has one entry per played move (the legal-move
    /// stack one more), the current legal list is the legal list of the
    /// position, and each played move led from the recorded position before
    /// it to the next one.
    pub open spec fn wf(&self) -> bool {
        let n = self.plies() as int;
        &&& self.board.wf()
        &&& self.move_gen.wf()
        &&& self.history@.len() == n
        &&& self.ep_stack@.len() == n
        &&& self.castling_stack@.len() == n
        &&& self.pinned_info_stack@.len() == n
        &&& self.opponent_attacked_stack@.len() == n
        &&& self.legal_moves_stack@.len() == n + 1
        &&& forall|k: int| 0 <= k < self.legal_now().len() ==> legal_entry(self.board, self.board.turn, #[trigger] self.legal_now()[k])
        &&& derived_data_exact(self.move_gen, self.board)
        &&& forall|i: int| 0 <= i < n ==> derived_data_exact(self.move_gen, #[trigger] self.history@[i])
        &&& legal_list_exact(self.move_gen, self.board, self.board.turn, self.legal_now())
        &&& forall|i: int| 0 <= i < n ==> legal_list_exact(self.move_gen, #[trigger] self.history@[i], self.history@[i].turn,
            self.legal_moves_stack@[i]@)
        &&& forall|i: int| 0 <= i < n ==> #[trigger] step_ok(
            self.history@[i],
            self.played_moves_stack@[i],
            self.position_after(i),
            self.legal_moves_stack@[i]@,
            self.ep_stack@[i],
            self.castling_stack@[i],
            self.pinned_info_stack@[i],
            self.opponent_attacked_stack@[i],
        )
    }

    /// `after` is `before` with `m` played: every record has one more entry,
    /// holding what `before` had.
    pub open spec fn made(before: Game, after: Game, m: u32) -> bool {
        &&& placement_of(after.board) == after_move(before.board, before.board.turn, m)
        &&& after.board.turn == before.board.turn.opposite_spec()
        &&& after.board.ep_square == ep_after(before.board, m)
        &&& rights_of(after.board) == rights_after(before.board, m)
        &&& after.history@ == before.history@.push(before.board)
        &&& after.played_moves_stack@ == before.played_moves_stack@.push(m)
        &&& after.ep_stack@ == before.ep_stack@.push(before.board.ep_square)
        &&& after.castling_stack@ == before.castling_stack@.push(rights_of(before.board))
        &&& after.pinned_info_stack@ == before.pinned_info_stack@.push(pin_info_of(before.board))
        &&& after.opponent_attacked_stack@ == before.opponent_attacked_stack@.push(before.board.attacks_of(before.board.turn))
        &&& after.legal_moves_stack@.len() == before.legal_moves_stack@.len() + 1
        &&& after.legal_moves_stack@.subrange(0, before.legal_moves_stack@.len() as int) == before.legal_moves_stack@
        &&& after.move_gen == before.move_gen
    }

    /// `after` is `before` with its last move taken back.
    pub open spec fn unmade(before: Game, after: Game) -> bool {
        let n = before.plies() as int;
        &&& after.board == before.history@[n - 1]
        &&& after.history@ == before.history@.drop_last()
        &&& after.played_moves_stack@ == before.played_moves_stack@.drop_last()
        &&& after.ep_stack@ == before.ep_stack@.drop_last()
        &&& after.castling_stack@ == before.castling_stack@.drop_last()
        &&& after.pinned_info_stack@ == before.pinned_info_stack@.drop_last()
        &&& after.opponent_attacked_stack@ == before.opponent_attacked_stack@.drop_last()
        &&& after.legal_moves_stack@ == before.legal_moves_stack@.drop_last()
        &&& after.move_gen == before.move_gen
    }

    /// A game at `board` with no move played.
    pub fn from_board(board: Board, move_gen: MoveGen) -> (r: Game)
        requires
            board.wf(),
            move_gen.wf(),
            derived_data_exact(move_gen, board),
        ensures
            r.wf(),
            r.board == board,
            r.plies() == 0,
    {
        let turn: Color = board.turn;
        let legal: Vec<u32> = move_gen.get_all_legal(&board, turn);
        let mut legal_moves_stack: Vec<Vec<u32>> = Vec::new();
        legal_moves_stack.push(legal);
        let g = Game {
            board,
            move_gen,
            ep_stack: Vec::new(),
            castling_stack: Vec::new(),
            pinned_info_stack: Vec::new(),
            opponent_attacked_stack: Vec::new(),
            legal_moves_stack,
            played_moves_stack: Vec::new(),
            history: Ghost(Seq::empty()),
        };
        assert(g.legal_now() == legal@);
        g
    }

    /// The legal moves of the current position.
    pub fn legal_moves(&self) -> (r: &Vec<u32>)
        requires
            self.wf(),
        ensures
            r@ == self.legal_now(),
            forall|k: int| 0 <= k < r.len() ==> legal_entry(self.board, self.board.turn, #[trigger] r@[k]),
    {
        let n = self.legal_moves_stack.len();
        let r = &self.legal_moves_stack[n - 1];
        assert(r@ == self.legal_now());
        assert forall|k: int| 0 <= k < r.len() implies legal_entry(self.board, self.board.turn, #[trigger] r@[k]) by {
            assert(r@[k] == self.legal_now()[k]);
        }
        r
    }
}


impl Game {
    /// Plays the legal move `mov`, whose resulting placement is `placement`:
    /// saves the reversal records, updates placement, en-passant square and
    /// castling rights, recomputes the mover's attacks and the checks, pins
    /// and legal moves of the side now to move.
    fn make_move(&mut self, mov: u32, placement: ([u64; 12], u64, u64))
        requires
            old(self).wf(),
            old(self).legal_now().contains(mov),
            (placement.0@, placement.1, placement.2) == after_move(old(self).board, old(self).board.turn, mov),
            placement_valid(placement.0@, placement.1, placement.2),
        ensures
            final(self).wf(),
            Game::made(*old(self), *final(self), mov),
            final(self).board.turn == old(self).board.turn.opposite_spec(),
    {
        let ghost g0 = *self;
        let turn: Color = self.board.turn;
        let is_white_turn: bool = turn.is_white();
        let from: u32 = get_init(mov);
        let to: u32 = get_target(mov);
        let moved_piece: u32 = get_moved_piece(mov);
        // reversal records
        self.ep_stack.push(self.board.ep_square);
        self.castling_stack.push((self.board.ws, self.board.wl, self.board.bs, self.board.bl));
        self.pinned_info_stack.push(PinInfo {
            nof_checkers: self.board.nof_checkers,
            check_block_sqrs: self.board.check_block_sqrs,
            white_pinned: self.board.white_pinned,
            black_pinned: self.board.black_pinned,
            white_pinned_restrictions: self.board.white_pinned_restrictions,
            black_pinned_restrictions: self.board.black_pinned_restrictions,
            meta_attacks: self.board.meta_attacks,
            mover_in_check: self.board.mover_in_check,
        });
        let mover_attacks: u64 = if is_white_turn { self.board.white_attacks } else { self.board.black_attacks };
        self.opponent_attacked_stack.push(mover_attacks);
        // placement
        self.board.pieces = placement.0;
        self.board.white_occupation = placement.1;
        self.board.black_occupation = placement.2;
        assert(self.board.pieces@ == placement.0@);
        // en-passant square
        if is_double_push(mov) {
            self.board.ep_square = Some(if is_white_turn { to - 8 } else { to + 8 });
        } else {
            self.board.ep_square = None;
        }
        self.board.update_castling_rights(from, to, is_white_turn, moved_piece);
        // checks given by the mover, and its new attack set
        self.board.nof_checkers = 0;
        self.board.check_block_sqrs = 0;
        let ghost placed = self.board;
        let attacks: u64 = self.move_gen.compute_attacked(&mut self.board, turn);
        if is_white_turn {
            self.board.white_attacks = attacks;
        } else {
            self.board.black_attacks = attacks;
        }
        let next: Color = turn.opposite();
        self.board.turn = next;
        self.board.update_mover_in_check();
        let ghost checked = self.board;
        proof {
            lemma_checkers_placement(self.move_gen, checked, placed, turn);
            assert forall|t: u32| t < 64 implies #[trigger] bit_set(checked.check_block_sqrs, t)
                == checker_at(self.move_gen, checked, checked.turn.opposite_spec(), t) by {
                assert(!bit_set(0u64, t)) by {
                    assert(t < 64 ==> (0u64 >> (t as u64)) & 1u64 == 0u64) by (bit_vector);
                }
                assert(checkers(self.move_gen, checked, turn).contains(t) == checkers(self.move_gen, placed, turn).contains(t));
            }
        }
        self.move_gen.compute_pinned(&mut self.board, next);
        proof {
            lemma_pin_data(self.move_gen, checked, self.board);
        }
        let legal: Vec<u32> = self.move_gen.get_all_legal(&self.board, next);
        self.legal_moves_stack.push(legal);
        self.played_moves_stack.push(mov);
        self.history = Ghost(g0.history@.push(g0.board));
        proof {
            let n = g0.plies() as int;
            lemma_attacks_placement(self.move_gen, self.board, placed, turn, attacks);
            lemma_checkers_placement(self.move_gen, self.board, placed, turn);
            assert(derived_data_exact(self.move_gen, self.board));
            assert forall|i: int| 0 <= i < n + 1 implies derived_data_exact(self.move_gen, #[trigger] self.history@[i]) by {
                if i < n {
                    assert(self.history@[i] == g0.history@[i]);
                }
            }
            assert(placement_of(self.board) == after_move(g0.board, g0.board.turn, mov));
            assert(self.legal_now() == legal@);
            assert(self.legal_moves_stack@[n] == g0.legal_moves_stack@[n]);
            assert(self.legal_moves_stack@.subrange(0, g0.legal_moves_stack@.len() as int) =~= g0.legal_moves_stack@);
            assert forall|i: int| 0 <= i < n + 1 implies #[trigger] step_ok(
                self.history@[i],
                self.played_moves_stack@[i],
                self.position_after(i),
                self.legal_moves_stack@[i]@,
                self.ep_stack@[i],
                self.castling_stack@[i],
                self.pinned_info_stack@[i],
                self.opponent_attacked_stack@[i],
            ) by {
                assert(self.legal_moves_stack@[i] == g0.legal_moves_stack@[i]);
                if i < n {
                    assert(step_ok(
                        g0.history@[i],
                        g0.played_moves_stack@[i],
                        g0.position_after(i),
                        g0.legal_moves_stack@[i]@,
                        g0.ep_stack@[i],
                        g0.castling_stack@[i],
                        g0.pinned_info_stack@[i],
                        g0.opponent_attacked_stack@[i],
                    ));
                    assert(self.position_after(i) == g0.position_after(i));
                } else {
                    assert(self.history@[i] == g0.board);
                    assert(self.position_after(i) == self.board);
                }
            }
        }
    }

    /// Takes back the last move `mov`: reverses its placement change and
    /// restores every other field from the reversal records.
    pub fn unmake_move(&mut self, mov: u32)
        requires
            old(self).wf(),
            old(self).plies() > 0,
            mov == old(self).played_moves_stack@.last(),
        ensures
            final(self).wf(),
            Game::unmade(*old(self), *final(self)),
    {
        let ghost g0 = *self;
        let ghost n = g0.plies() as int;
        let ghost h = g0.history@[n - 1];
        proof {
            assert(step_ok(
                g0.history@[n - 1],
                g0.played_moves_stack@[n - 1],
                g0.position_after(n - 1),
                g0.legal_moves_stack@[n - 1]@,
                g0.ep_stack@[n - 1],
                g0.castling_stack@[n - 1],
                g0.pinned_info_stack@[n - 1],
                g0.opponent_attacked_stack@[n - 1],
            ));
            let legal = g0.legal_moves_stack@[n - 1]@;
            let k = choose|k: int| 0 <= k < legal.len() && legal[k] == mov;
            assert(legal_entry(h, h.turn, legal[k]));
            lemma_before_after(h, h.turn, mov);
            lemma_fits_shape(h, h.turn, mov);
        }
        let prev_turn: Color = self.board.turn.opposite();
        let placement = placement_before(&self.board, prev_turn, mov);
        self.board.pieces = placement.0;
        self.board.white_occupation = placement.1;
        self.board.black_occupation = placement.2;
        proof {
            assert(self.board.pieces@ == h.pieces@);
            assert(self.board.pieces =~= h.pieces);
        }
        let last: usize = self.ep_stack.len() - 1;
        self.board.ep_square = self.ep_stack[last];
        self.ep_stack.pop();
        let rights = self.castling_stack[last];
        self.board.ws = rights.0;
        self.board.wl = rights.1;
        self.board.bs = rights.2;
        self.board.bl = rights.3;
        self.castling_stack.pop();
        let pins: PinInfo = self.pinned_info_stack[last];
        self.board.nof_checkers = pins.nof_checkers;
        self.board.check_block_sqrs = pins.check_block_sqrs;
        self.board.white_pinned = pins.white_pinned;
        self.board.black_pinned = pins.black_pinned;
        self.board.white_pinned_restrictions = pins.white_pinned_restrictions;
        self.board.black_pinned_restrictions = pins.black_pinned_restrictions;
        self.board.meta_attacks = pins.meta_attacks;
        self.board.mover_in_check = pins.mover_in_check;
        self.pinned_info_stack.pop();
        let attacks: u64 = self.opponent_attacked_stack[last];
        if prev_turn.is_white() {
            self.board.white_attacks = attacks;
        } else {
            self.board.black_attacks = attacks;
        }
        self.opponent_attacked_stack.pop();
        self.board.turn = prev_turn;
        self.legal_moves_stack.pop();
        self.played_moves_stack.pop();
        self.history = Ghost(g0.history@.drop_last());
        proof {
            assert(self.board == h);
            assert(derived_data_exact(self.move_gen, g0.history@[n - 1]));
            assert forall|i: int| 0 <= i < n - 1 implies derived_data_exact(self.move_gen, #[trigger] self.history@[i]) by {
                assert(self.history@[i] == g0.history@[i]);
            }
            assert(self.legal_now() == g0.legal_moves_stack@[n - 1]@);
            assert forall|i: int| 0 <= i < n - 1 implies #[trigger] step_ok(
                self.history@[i],
                self.played_moves_stack@[i],
                self.position_after(i),
                self.legal_moves_stack@[i]@,
                self.ep_stack@[i],
                self.castling_stack@[i],
                self.pinned_info_stack@[i],
                self.opponent_attacked_stack@[i],
            ) by {
                assert(step_ok(
                    g0.history@[i],
                    g0.played_moves_stack@[i],
                    g0.position_after(i),
                    g0.legal_moves_stack@[i]@,
                    g0.ep_stack@[i],
                    g0.castling_stack@[i],
                    g0.pinned_info_stack@[i],
                    g0.opponent_attacked_stack@[i],
                ));
                assert(self.position_after(i) == g0.position_after(i));
            }
        }
    }
}


/// `m` goes from `from` to `to`.
fn goes(m: u32, from: u32, to: u32) -> (r: bool)
    ensures
        r == (init_of(m) == from && target_of(m) == to),
{
    get_init(m) == from && get_target(m) == to
}

/// Playing `m` keeps the placement invariants.
pub open spec fn after_valid(b: Board, side: Color, m: u32) -> bool {
    let a = after_move(b, side, m);
    placement_valid(a.0, a.1, a.2)
}

/// `legal[k]` is the first move from `from` to `to`.
pub open spec fn first_match(legal: Seq<u32>, from: u32, to: u32, k: int) -> bool {
    &&& 0 <= k < legal.len()
    &&& init_of(legal[k]) == from && target_of(legal[k]) == to
    &&& forall|j: int| 0 <= j < k ==> !(init_of(#[trigger] legal[j]) == from && target_of(legal[j]) == to)
}

impl Game {
    /// Plays the first legal move from `init_sqr` to `target_sqr` and returns
    /// it; fails, leaving the game unchanged, exactly when there is none.
    pub fn try_make_move(&mut self, init_sqr: u32, target_sqr: u32) -> (r: Result<u32, GameError>)
        requires
            old(self).wf(),
        ensures
            final(self).wf(),
            r matches Ok(m) ==> Game::made(*old(self), *final(self), m) && exists|k: int|
                first_match(old(self).legal_now(), init_sqr, target_sqr, k) && old(self).legal_now()[k] == m,
            r is Err ==> *final(self) == *old(self) && r == Err::<u32, GameError>(GameError::IllegalMove),
            r is Err <==> forall|k: int| !first_match(old(self).legal_now(), init_sqr, target_sqr, k),
            final(self).board.placement_ok(),
            final(self).board.nof_checkers == saturated(checkers(final(self).move_gen, final(self).board,
                final(self).board.turn.opposite_spec()).len() as int),
    {
        let legal: &Vec<u32> = self.legal_moves();
        let mut k: usize = 0;
        while k < legal.len() && !goes(legal[k], init_sqr, target_sqr)
            invariant
                k <= legal.len(),
                legal@ == self.legal_now(),
                forall|j: int| 0 <= j < k ==> !(init_of(#[trigger] legal@[j]) == init_sqr && target_of(legal@[j]) == target_sqr),
            decreases legal.len() - k,
        {
            k += 1;
        }
        if k == legal.len() {
            proof {
                assert forall|q: int| !first_match(self.legal_now(), init_sqr, target_sqr, q) by {
                    if 0 <= q < legal.len() && init_of(legal@[q]) == init_sqr && target_of(legal@[q]) == target_sqr {
                        assert(!(init_of(legal@[q]) == init_sqr && target_of(legal@[q]) == target_sqr));
                    }
                }
            }
            return Err(GameError::IllegalMove);
        }
        let m: u32 = legal[k];
        assert(first_match(self.legal_now(), init_sqr, target_sqr, k as int));
        assert(legal_entry(self.board, self.board.turn, m));
        let placement = placement_after(&self.board, self.board.turn, m);
        proof {
            lemma_fitting_move_keeps_placement(self.board, self.board.turn, m);
        }
        proof {
            assert forall|q: int| first_match(self.legal_now(), init_sqr, target_sqr, q) implies q == k by {
                if q < k {
                    assert(!(init_of(legal@[q]) == init_sqr && target_of(legal@[q]) == target_sqr));
                } else if q > k {
                    assert(!(init_of(self.legal_now()[k as int]) == init_sqr && target_of(self.legal_now()[k as int]) == target_sqr));
                }
            }
            assert(self.legal_now().contains(m));
        }
        self.make_move(m, placement);
        Ok(m)
    }

    /// Takes back the last played move and returns it; fails when no move
    /// has been played.
    pub fn try_unmake_move(&mut self) -> (r: Result<u32, GameError>)
        requires
            old(self).wf(),
        ensures
            final(self).wf(),
            old(self).plies() == 0 <==> r is Err,
            r is Err ==> *final(self) == *old(self) && r == Err::<u32, GameError>(GameError::NothingToUnmake),
            r matches Ok(m) ==> m == old(self).played_moves_stack@.last() && Game::unmade(*old(self), *final(self)),
    {
        let n: usize = self.played_moves_stack.len();
        if n == 0 {
            return Err(GameError::NothingToUnmake);
        }
        let m: u32 = self.played_moves_stack[n - 1];
        self.unmake_move(m);
        Ok(m)
    }
}

/// Making a legal move and unmaking it gives back the game exactly: the
/// position in every field, and every record stack.
pub proof fn lemma_make_unmake_identity(g0: Game, g1: Game, g2: Game, m: u32)
    requires
        g0.wf(),
        Game::made(g0, g1, m),
        Game::unmade(g1, g2),
    ensures
        g2.board == g0.board,
        g2.history@ == g0.history@,
        g2.played_moves_stack@ == g0.played_moves_stack@,
        g2.ep_stack@ == g0.ep_stack@,
        g2.castling_stack@ == g0.castling_stack@,
        g2.pinned_info_stack@ == g0.pinned_info_stack@,
        g2.opponent_attacked_stack@ == g0.opponent_attacked_stack@,
        g2.legal_moves_stack@ == g0.legal_moves_stack@,
        g2.move_gen == g0.move_gen,
{
    assert(g1.history@.drop_last() =~= g0.history@);
    assert(g1.played_moves_stack@.drop_last() =~= g0.played_moves_stack@);
    assert(g1.ep_stack@.drop_last() =~= g0.ep_stack@);
    assert(g1.castling_stack@.drop_last() =~= g0.castling_stack@);
    assert(g1.pinned_info_stack@.drop_last() =~= g0.pinned_info_stack@);
    assert(g1.opponent_attacked_stack@.drop_last() =~= g0.opponent_attacked_stack@);
    assert(g1.legal_moves_stack@.drop_last() =~= g1.legal_moves_stack@.subrange(0, g0.legal_moves_stack@.len() as int));
}


impl Game {
    /// A game at the position of the FEN text `fen`.
    pub fn game_with(fen: &str) -> (r: Result<Self, GameError>)
        ensures
            r matches Ok(g) ==> g.wf() && g.plies() == 0 && (forall|p: u32, q: u32| p < 12 && q < 64
                ==> #[trigger] bit_set(g.board.pieces[p as int], q) == crate::fen::fen_places(crate::fen::fen_rows(fen@), p, q)),
            r matches Ok(g) ==> g.board.turn == (if crate::fen::split(fen@, ' ')[1] == seq!['w'] {
                Color::White
            } else {
                Color::Black
            }) && g.board.ws == crate::fen::split(fen@, ' ')[2].contains('K')
                && g.board.wl == crate::fen::split(fen@, ' ')[2].contains('Q')
                && g.board.bs == crate::fen::split(fen@, ' ')[2].contains('k')
                && g.board.bl == crate::fen::split(fen@, ' ')[2].contains('q')
                && g.board.ep_square == crate::fen::ep_of_field(crate::fen::split(fen@, ' ')[3]),
            !(crate::fen::fen_valid(fen@) && crate::fen::placement_sound(crate::fen::fen_rows(fen@)))
                ==> r == Err::<Game, GameError>(GameError::InvalidFen),
            crate::fen::fen_valid(fen@) && crate::fen::placement_sound(crate::fen::fen_rows(fen@)) ==> (r is Ok
                || r == Err::<Game, GameError>(GameError::MagicSearchFailed)),
            crate::fen::fen_valid(fen@) && crate::fen::placement_sound(crate::fen::fen_rows(fen@))
                && stored_magics_work() ==> r is Ok,
    {
        let text: String = <String as vstd::string::StringExecFns>::from_str(fen);
        if !crate::fen::placement_is_sound(&text) {
            return Err(GameError::InvalidFen);
        }
        let move_gen: MoveGen = match MoveGen::init() {
            Some(g) => g,
            None => {
                return Err(GameError::MagicSearchFailed);
            },
        };
        match crate::fen::fen_to_board(text, &move_gen) {
            Some(board) => Ok(Game::from_board(board, move_gen)),
            None => Err(GameError::InvalidFen),
        }
    }

    /// A game at the initial position.
    pub fn new_default() -> (r: Result<Self, GameError>)
        ensures
            r matches Ok(g) ==> g.wf() && g.plies() == 0 && g.board.pieces == crate::board::DEFAULT_PIECES
                && g.board.turn == Color::White && g.board.ep_square is None && g.board.ws && g.board.wl
                && g.board.bs && g.board.bl,
            r is Err ==> r == Err::<Game, GameError>(GameError::MagicSearchFailed),
            stored_magics_work() ==> r is Ok,
    {
        let move_gen: MoveGen = match MoveGen::init() {
            Some(g) => g,
            None => {
                return Err(GameError::MagicSearchFailed);
            },
        };
        let board: Board = Board::default_board(&move_gen);
        Ok(Game::from_board(board, move_gen))
    }
}


impl Game {
    /// Plays `mov` if it is in the current legal list and returns it;
    /// fails, leaving the game unchanged, exactly when it is not.
    pub fn try_play(&mut self, mov: u32) -> (r: Result<u32, GameError>)
        requires
            old(self).wf(),
        ensures
            final(self).wf(),
            r matches Ok(m) ==> m == mov && Game::made(*old(self), *final(self), mov),
            r is Err ==> *final(self) == *old(self) && r == Err::<u32, GameError>(GameError::IllegalMove),
            r is Ok <==> old(self).legal_now().contains(mov),
            final(self).board.placement_ok(),
            final(self).board.nof_checkers == saturated(checkers(final(self).move_gen, final(self).board,
                final(self).board.turn.opposite_spec()).len() as int),
    {
        let legal: &Vec<u32> = self.legal_moves();
        let mut k: usize = 0;
        while k < legal.len() && legal[k] != mov
            invariant
                k <= legal.len(),
                legal@ == self.legal_now(),
                forall|j: int| 0 <= j < k ==> legal@[j] != mov,
            decreases legal.len() - k,
        {
            k += 1;
        }
        if k == legal.len() {
            return Err(GameError::IllegalMove);
        }
        assert(legal_entry(self.board, self.board.turn, legal@[k as int]));
        assert(self.legal_now().contains(mov));
        let placement = placement_after(&self.board, self.board.turn, mov);
        proof {
            lemma_fitting_move_keeps_placement(self.board, self.board.turn, mov);
        }
        self.make_move(mov, placement);
        Ok(mov)
    }
}

proof fn lemma_bit_algebra()
    ensures
        forall|x: u64, s: u32, t: u32| s < 64 && t < 64 ==> #[trigger] bit_set(with_bit(x, s), t) == (s == t || bit_set(x, t)),
        forall|x: u64, s: u32, t: u32| s < 64 && t < 64 ==> #[trigger] bit_set(without_bit(x, s), t) == (s != t && bit_set(x, t)),
{
    assert forall|x: u64, s: u32, t: u32| s < 64 && t < 64 implies #[trigger] bit_set(with_bit(x, s), t) == (s == t || bit_set(x, t)) by {
        lemma_bit_ops(x, s, t);
    }
    assert forall|x: u64, s: u32, t: u32| s < 64 && t < 64 implies #[trigger] bit_set(without_bit(x, s), t) == (s != t && bit_set(x, t)) by {
        lemma_bit_ops(x, s, t);
    }
}

/// Per square: the occupation bits are the unions of the piece bits, the
/// two sides do not share the square, and at most one piece stands on it.
pub open spec fn square_ok(p: Seq<u64>, w: u64, bk: u64, q: u32) -> bool {
    &&& bit_set(w, q) == (bit_set(p[0], q) || bit_set(p[1], q) || bit_set(p[2], q) || bit_set(p[3], q)
        || bit_set(p[4], q) || bit_set(p[5], q))
    &&& bit_set(bk, q) == (bit_set(p[6], q) || bit_set(p[7], q) || bit_set(p[8], q) || bit_set(p[9], q)
        || bit_set(p[10], q) || bit_set(p[11], q))
    &&& forall|i: int, j: int| 0 <= i < j < 12 ==> !(bit_set(#[trigger] p[i], q) && bit_set(#[trigger] p[j], q))
}

proof fn lemma_square_ok_before(b: Board, q: u32)
    requires
        b.wf(),
        q < 64,
    ensures
        square_ok(b.pieces@, b.white_occupation, b.black_occupation, q),
        !(bit_set(b.white_occupation, q) && bit_set(b.black_occupation, q)),
{
    let p = b.pieces;
    crate::bitboard::lemma_bits_of_ops(p[0], p[1], p[2], p[3], p[4], p[5], q);
    crate::bitboard::lemma_bits_of_ops(p[6], p[7], p[8], p[9], p[10], p[11], q);
    crate::bitboard::lemma_bits_of_ops(b.white_occupation, b.black_occupation, 0, 0, 0, 0, q);
    assert forall|i: int, j: int| 0 <= i < j < 12 implies !(bit_set(#[trigger] b.pieces@[i], q) && bit_set(#[trigger] b.pieces@[j], q)) by {
        crate::bitboard::lemma_bits_of_ops(p[i], p[j], 0, 0, 0, 0, q);
        assert(p[i] & p[j] == 0);
    }
}

/// The pieces on square `q` after playing `m`: each piece bitboard has
/// the bit exactly when that piece stands there.
pub open spec fn occupant_after(b: Board, side: Color, m: u32, k: int, q: u32) -> bool {
    let w = side == Color::White;
    let from = init_of(m);
    let to = target_of(m);
    let first = side.first_piece() as int;
    let ofirst = side.opposite_spec().first_piece() as int;
    let v = (if w { to - 8 } else { to + 8 }) as u32;
    let rf = castle_rook_squares(side, short_of(m)).0;
    let rt = castle_rook_squares(side, short_of(m)).1;
    let castle = short_of(m) || long_of(m);
    if q == to {
        k == (if promotion_of(m) { promoted_of(m) as int } else { moved_of(m) as int })
    } else if q == from {
        false
    } else if castle && q == rf {
        false
    } else if castle && q == rt {
        k == first + 3
    } else if en_passant_of(m) && q == v {
        false
    } else {
        bit_set(b.pieces[k], q)
    }
}

#[verifier::spinoff_prover]
#[verifier::rlimit(100)]
proof fn lemma_pieces_after(b: Board, side: Color, m: u32, q: u32, k: int)
    requires
        b.wf(),
        fits(b, side, m),
        q < 64,
        0 <= k < 12,
    ensures
        bit_set(after_move(b, side, m).0[k], q) == occupant_after(b, side, m, k, q),
        after_move(b, side, m).0.len() == 12,
{
    lemma_bit_algebra();
    crate::moves::lemma_field_ranges_pub(m);
    let from = init_of(m);
    let to = target_of(m);
    let mp = moved_of(m) as int;
    lemma_square_ok_before(b, q);
    lemma_square_ok_before(b, from);
    lemma_square_ok_before(b, to);
    crate::board::lemma_piece_in_occupation_pub(b, side, mp, to);
    if promotion_of(m) {
        crate::board::lemma_piece_in_occupation_pub(b, side, promoted_of(m) as int, to);
    }
    if en_passant_of(m) {
        let v = (if side == Color::White { to - 8 } else { to + 8 }) as u32;
        lemma_square_ok_before(b, v);
    }
    if short_of(m) || long_of(m) {
        let rf = castle_rook_squares(side, short_of(m)).0;
        let rt = castle_rook_squares(side, short_of(m)).1;
        lemma_square_ok_before(b, rf);
        lemma_square_ok_before(b, rt);
        crate::board::lemma_piece_in_occupation_pub(b, side, side.first_piece() + 3, rt);
    }
}

#[verifier::spinoff_prover]
#[verifier::rlimit(100)]
proof fn lemma_occupations_after(b: Board, side: Color, m: u32, q: u32)
    requires
        b.wf(),
        fits(b, side, m),
        q < 64,
    ensures
        ({
            let a = after_move(b, side, m);
            &&& bit_set(a.1, q) == (bit_set(a.0[0], q) || bit_set(a.0[1], q) || bit_set(a.0[2], q) || bit_set(a.0[3], q)
                || bit_set(a.0[4], q) || bit_set(a.0[5], q))
            &&& bit_set(a.2, q) == (bit_set(a.0[6], q) || bit_set(a.0[7], q) || bit_set(a.0[8], q) || bit_set(a.0[9], q)
                || bit_set(a.0[10], q) || bit_set(a.0[11], q))
        }),
{
    lemma_bit_algebra();
    crate::moves::lemma_field_ranges_pub(m);
    lemma_square_ok_before(b, q);
    lemma_pieces_after(b, side, m, q, 0);
    lemma_pieces_after(b, side, m, q, 1);
    lemma_pieces_after(b, side, m, q, 2);
    lemma_pieces_after(b, side, m, q, 3);
    lemma_pieces_after(b, side, m, q, 4);
    lemma_pieces_after(b, side, m, q, 5);
    lemma_pieces_after(b, side, m, q, 6);
    lemma_pieces_after(b, side, m, q, 7);
    lemma_pieces_after(b, side, m, q, 8);
    lemma_pieces_after(b, side, m, q, 9);
    lemma_pieces_after(b, side, m, q, 10);
    lemma_pieces_after(b, side, m, q, 11);
    let from = init_of(m);
    let to = target_of(m);
    lemma_square_ok_before(b, from);
    lemma_square_ok_before(b, to);
    if en_passant_of(m) {
        let v = (if side == Color::White { to - 8 } else { to + 8 }) as u32;
        lemma_square_ok_before(b, v);
    }
    if short_of(m) || long_of(m) {
        let rf = castle_rook_squares(side, short_of(m)).0;
        let rt = castle_rook_squares(side, short_of(m)).1;
        lemma_square_ok_before(b, rf);
        lemma_square_ok_before(b, rt);
    }
}

#[verifier::spinoff_prover]
#[verifier::rlimit(100)]
proof fn lemma_unique_after(b: Board, side: Color, m: u32, q: u32)
    requires
        b.wf(),
        fits(b, side, m),
        q < 64,
    ensures
        forall|i: int, j: int| 0 <= i < j < 12 ==> !(bit_set(#[trigger] after_move(b, side, m).0[i], q)
            && bit_set(#[trigger] after_move(b, side, m).0[j], q)),
{
    lemma_pieces_after(b, side, m, q, 0);
    lemma_pieces_after(b, side, m, q, 1);
    lemma_pieces_after(b, side, m, q, 2);
    lemma_pieces_after(b, side, m, q, 3);
    lemma_pieces_after(b, side, m, q, 4);
    lemma_pieces_after(b, side, m, q, 5);
    lemma_pieces_after(b, side, m, q, 6);
    lemma_pieces_after(b, side, m, q, 7);
    lemma_pieces_after(b, side, m, q, 8);
    lemma_pieces_after(b, side, m, q, 9);
    lemma_pieces_after(b, side, m, q, 10);
    lemma_pieces_after(b, side, m, q, 11);
    lemma_square_ok_before(b, q);
}

#[verifier::spinoff_prover]
#[verifier::rlimit(100)]
proof fn lemma_king_after(b: Board, side: Color, m: u32, kidx: int)
    requires
        b.wf(),
        fits(b, side, m),
        kidx == 5 || kidx == 11,
    ensures
        one_bit_after(after_move(b, side, m).0[kidx]),
{
    let x = after_move(b, side, m).0[kidx];
    crate::moves::lemma_field_ranges_pub(m);
    let from = init_of(m);
    let to = target_of(m);
    crate::bitboard::lemma_one_bit_square(b.pieces[kidx]);
    let k0 = b.pieces[kidx].trailing_zeros();
    let ks: u32 = if moved_of(m) as int == kidx { to } else { k0 };
    lemma_square_ok_before(b, from);
    lemma_square_ok_before(b, to);
    lemma_square_ok_before(b, k0);
    crate::board::lemma_piece_in_occupation_pub(b, side, moved_of(m) as int, to);
    crate::board::lemma_piece_in_occupation_pub(b, Color::White, 5, to);
    crate::board::lemma_piece_in_occupation_pub(b, Color::Black, 11, to);
    if en_passant_of(m) {
        let v = (if side == Color::White { to - 8 } else { to + 8 }) as u32;
        lemma_square_ok_before(b, v);
    }
    if short_of(m) || long_of(m) {
        let rf = castle_rook_squares(side, short_of(m)).0;
        let rt = castle_rook_squares(side, short_of(m)).1;
        lemma_square_ok_before(b, rf);
        lemma_square_ok_before(b, rt);
        crate::board::lemma_piece_in_occupation_pub(b, Color::White, 5, rt);
        crate::board::lemma_piece_in_occupation_pub(b, Color::Black, 11, rt);
    }
    lemma_pieces_after(b, side, m, ks, kidx);
    assert forall|t: u32| t < 64 && t != ks implies !#[trigger] bit_set(x, t) by {
        lemma_pieces_after(b, side, m, t, kidx);
    }
    crate::bitboard::lemma_single_square(x, ks);
}

pub open spec fn one_bit_after(x: u64) -> bool {
    x != 0 && x & ((x - 1) as u64) == 0
}

/// Playing a move that fits the position keeps the placement invariants:
/// disjoint occupations that are the unions of their pieces, one piece per
/// square and one king of each colour.
pub proof fn lemma_fitting_move_keeps_placement(b: Board, side: Color, m: u32)
    requires
        b.wf(),
        fits(b, side, m),
    ensures
        after_valid(b, side, m),
{
    let a = after_move(b, side, m);
    lemma_pieces_after(b, side, m, 0, 0);
    let p = a.0;
    assert forall|q: u32| q < 64 implies #[trigger] bit_set(a.1 & a.2, q) == bit_set(0u64, q) by {
        lemma_occupations_after(b, side, m, q);
        lemma_unique_after(b, side, m, q);
        crate::bitboard::lemma_bits_of_ops(a.1, a.2, 0, 0, 0, 0, q);
    }
    crate::bitboard::lemma_bits_equal(a.1 & a.2, 0);
    assert forall|q: u32| q < 64 implies #[trigger] bit_set(a.1, q) == bit_set(p[0] | p[1] | p[2] | p[3] | p[4] | p[5], q) by {
        lemma_occupations_after(b, side, m, q);
        crate::bitboard::lemma_bits_of_ops(p[0], p[1], p[2], p[3], p[4], p[5], q);
    }
    crate::bitboard::lemma_bits_equal(a.1, p[0] | p[1] | p[2] | p[3] | p[4] | p[5]);
    assert forall|q: u32| q < 64 implies #[trigger] bit_set(a.2, q) == bit_set(p[6] | p[7] | p[8] | p[9] | p[10] | p[11], q) by {
        lemma_occupations_after(b, side, m, q);
        crate::bitboard::lemma_bits_of_ops(p[6], p[7], p[8], p[9], p[10], p[11], q);
    }
    crate::bitboard::lemma_bits_equal(a.2, p[6] | p[7] | p[8] | p[9] | p[10] | p[11]);
    lemma_king_after(b, side, m, 5);
    lemma_king_after(b, side, m, 11);
    assert forall|i: int, j: int| 0 <= i < j < 12 implies #[trigger] p[i] & #[trigger] p[j] == 0 by {
        assert forall|q: u32| q < 64 implies #[trigger] bit_set(p[i] & p[j], q) == bit_set(0u64, q) by {
            lemma_unique_after(b, side, m, q);
            crate::bitboard::lemma_bits_of_ops(p[i], p[j], 0, 0, 0, 0, q);
        }
        crate::bitboard::lemma_bits_equal(p[i] & p[j], 0);
    }
}

} // verus!