//! The mutable chess position.
use vstd::prelude::*;
use vstd::string::*;
use crate::bitboard::{bit_set, single, lemma_bit_ops};
use crate::types::{Color, W_KING, B_KING, piece_of};
use crate::move_gen::MoveGen;
use crate::moves::{
    init_of, target_of, capture_of, eaten_of, short_of, long_of, double_push_of, promotion_of,
    promoted_of, moved_of, en_passant_of, white_of, get_init, get_target, get_moved_piece,
    get_promoted_piece, is_eating, is_short_castle, is_long_castle, is_double_push, is_promotion,
    is_en_passant, is_white_move,
};

verus! {

/// A chess position: piece placement, rights, and the derived attack, check
/// and pin data of the side to move.
pub struct Board {
    /// One bitboard per piece identifier (0..6 white, 6..12 black).
    pub pieces: [u64; 12],
    pub white_occupation: u64,
    pub black_occupation: u64,
    /// Squares attacked by white, own-occupied squares included.
    pub white_attacks: u64,
    pub black_attacks: u64,
    /// Square behind a pawn that has just advanced two squares.
    pub ep_square: Option<u32>,
    /// White may castle short.
    pub ws: bool,
    /// White may castle long.
    pub wl: bool,
    pub bs: bool,
    pub bl: bool,
    pub turn: Color,
    pub mover_in_check: bool,
    /// Number of pieces giving check to the side to move.
    pub nof_checkers: u32,
    /// With one checker: the squares that block or capture it.
    pub check_block_sqrs: u64,
    pub white_pinned: u64,
    pub black_pinned: u64,
    /// For a pinned white piece on `s`, the squares it may move to.
    pub white_pinned_restrictions: [u64; 64],
    pub black_pinned_restrictions: [u64; 64],
    /// Squares behind the king on the ray of a sliding checker.
    pub meta_attacks: u64,
}

/// Exactly one bit of `bb` is set.
pub open spec fn one_bit(bb: u64) -> bool {
    bb != 0 && bb & ((bb - 1) as u64) == 0
}

pub open spec fn white_union(p: [u64; 12]) -> u64 {
    p[0] | p[1] | p[2] | p[3] | p[4] | p[5]
}

pub open spec fn black_union(p: [u64; 12]) -> u64 {
    p[6] | p[7] | p[8] | p[9] | p[10] | p[11]
}

impl Board {
    /// The occupancy and king invariants of a position.
    pub open spec fn placement_ok(&self) -> bool {
        &&& self.white_occupation & self.black_occupation == 0
        &&& self.white_occupation == white_union(self.pieces)
        &&& self.black_occupation == black_union(self.pieces)
        &&& one_bit(self.pieces[5])
        &&& one_bit(self.pieces[11])
        &&& forall|i: int, j: int|
            0 <= i < j < 12 ==> #[trigger] self.pieces[i] & #[trigger] self.pieces[j] == 0
    }

    /// A position the engine can work on.
    pub open spec fn wf(&self) -> bool {
        &&& self.placement_ok()
        &&& self.nof_checkers <= 2
        &&& (self.ep_square matches Some(e) ==> e < 64)
    }

    pub open spec fn occupied(&self) -> u64 {
        self.white_occupation | self.black_occupation
    }

    pub open spec fn occupation_of(&self, side: Color) -> u64 {
        if side == Color::White { self.white_occupation } else { self.black_occupation }
    }

    pub open spec fn attacks_of(&self, side: Color) -> u64 {
        if side == Color::White { self.white_attacks } else { self.black_attacks }
    }

    /// Squares holding any piece.
    pub fn total_occupation(&self) -> (r: u64)
        ensures
            r == self.occupied(),
    {
        self.white_occupation | self.black_occupation
    }

    pub fn is_occupied(&self, sqr: u32) -> (r: bool)
        requires
            sqr < 64,
        ensures
            r == (bit_set(self.white_occupation, sqr) || bit_set(self.black_occupation, sqr)),
    {
        self.is_white_occupied(sqr) || self.is_black_occupied(sqr)
    }

    pub fn is_occupied_by(&self, sqr: u32, by: Color) -> (r: bool)
        requires
            sqr < 64,
        ensures
            r == bit_set(self.occupation_of(by), sqr),
    {
        match by {
            Color::White => self.is_white_occupied(sqr),
            Color::Black => self.is_black_occupied(sqr),
        }
    }

    pub fn is_white_occupied(&self, sqr: u32) -> (r: bool)
        requires
            sqr < 64,
        ensures
            r == bit_set(self.white_occupation, sqr),
    {
        proof {
            lemma_bit_ops(self.white_occupation, sqr, sqr);
        }
        (self.white_occupation & (1u64 << sqr)) != 0
    }

    pub fn is_black_occupied(&self, sqr: u32) -> (r: bool)
        requires
            sqr < 64,
        ensures
            r == bit_set(self.black_occupation, sqr),
    {
        proof {
            lemma_bit_ops(self.black_occupation, sqr, sqr);
        }
        (self.black_occupation & (1u64 << sqr)) != 0
    }

    /// The piece of `owner` on `sqr`, which must hold one.
    pub fn get_piece_type_at(&self, sqr: u32, owner: Color) -> (r: u32)
        requires
            sqr < 64,
            exists|p: u32| piece_of(p, owner) && bit_set(self.pieces[p as int], sqr),
        ensures
            piece_of(r, owner),
            bit_set(self.pieces[r as int], sqr),
            forall|q: u32| piece_of(q, owner) && q < r ==> !bit_set(self.pieces[q as int], sqr),
    {
        match self.lift_piece_type_at(sqr, owner) {
            Some(p) => p,
            None => {
                proof {
                    let p = choose|p: u32| piece_of(p, owner) && bit_set(self.pieces[p as int], sqr);
                    assert(!bit_set(self.pieces[p as int], sqr));
                }
                0
            },
        }
    }

    /// The first piece of `owner` found on `sqr`, if any.
    pub fn lift_piece_type_at(&self, sqr: u32, owner: Color) -> (r: Option<u32>)
        requires
            sqr < 64,
        ensures
            r matches Some(p) ==> piece_of(p, owner) && bit_set(self.pieces[p as int], sqr)
                && forall|q: u32|
                piece_of(q, owner) && q < p ==> !bit_set(self.pieces[q as int], sqr),
            r is None ==> forall|q: u32|
                piece_of(q, owner) ==> !bit_set(self.pieces[q as int], sqr),
    {
        let first: u32 = if owner.is_white() { 0 } else { 6 };
        let e: u32 = first + 6;
        let mut p: u32 = first;
        while p < e
            invariant
                first == owner.first_piece(),
                e == first + 6,
                first <= p <= e,
                sqr < 64,
                forall|q: u32| first <= q < p ==> !bit_set(self.pieces[q as int], sqr),
            decreases e - p,
        {
            proof {
                lemma_bit_ops(self.pieces[p as int], sqr, sqr);
            }
            if self.pieces[p as usize] & (1u64 << sqr) != 0 {
                return Some(p);
            }
            p += 1;
        }
        None
    }

    /// Square of the king of `side`.
    pub fn get_king_sqr_idx(&self, side: Color) -> (r: u32)
        requires
            self.placement_ok(),
        ensures
            r == king_square(self.pieces, side),
            r < 64,
            bit_set(self.pieces[if side == Color::White { 5int } else { 11int }], r),
    {
        let k: u64 = if side.is_white() { self.pieces[5] } else { self.pieces[11] };
        proof {
            vstd::std_specs::bits::axiom_u64_trailing_zeros(k);
        }
        k.trailing_zeros()
    }

    /// Records whether the side to move stands in check.
    pub fn update_mover_in_check(&mut self)
        ensures
            *final(self) == (Board {
                mover_in_check: old(self).pieces[if old(self).turn == Color::White { 5int } else { 11int }]
                    & old(self).attacks_of(old(self).turn.opposite_spec()) != 0,
                ..*old(self)
            }),
    {
        if self.turn.is_white() {
            self.mover_in_check = self.black_attacks & self.pieces[5] != 0;
        } else {
            self.mover_in_check = self.white_attacks & self.pieces[11] != 0;
        }
        proof {
            let a = old(self).black_attacks;
            let b = old(self).pieces[5];
            let c = old(self).white_attacks;
            let d = old(self).pieces[11];
            assert(a & b == b & a && c & d == d & c) by (bit_vector);
        }
    }

    /// Drops the castling rights that a move of `moved_piece` from `from`
    /// to `to` by the given side ends: both of the mover's when the king
    /// moves, and any right whose rook corner is left or entered.
    pub fn update_castling_rights(&mut self, from: u32, to: u32, is_white_turn: bool, moved_piece: u32)
        ensures
            ({
                let king_moved = moved_piece == if is_white_turn { W_KING } else { B_KING };
                let o = *old(self);
                *final(self) == Board {
                    ws: o.ws && !(is_white_turn && king_moved) && !touches(from, to, 7),
                    wl: o.wl && !(is_white_turn && king_moved) && !touches(from, to, 0),
                    bs: o.bs && !(!is_white_turn && king_moved) && !touches(from, to, 63),
                    bl: o.bl && !(!is_white_turn && king_moved) && !touches(from, to, 56),
                    ..o
                }
            }),
    {
        let king_piece_idx: u32 = if is_white_turn { W_KING } else { B_KING };
        if moved_piece == king_piece_idx {
            if is_white_turn {
                self.ws = false;
                self.wl = false;
            } else {
                self.bs = false;
                self.bl = false;
            }
        }
        if from == 7 || to == 7 {
            self.ws = false;
        }
        if from == 0 || to == 0 {
            self.wl = false;
        }
        if from == 63 || to == 63 {
            self.bs = false;
        }
        if from == 56 || to == 56 {
            self.bl = false;
        }
    }

    pub fn ws(&self) -> (r: bool)
        ensures
            r == self.ws,
    {
        self.ws
    }

    pub fn wl(&self) -> (r: bool)
        ensures
            r == self.wl,
    {
        self.wl
    }

    pub fn bs(&self) -> (r: bool)
        ensures
            r == self.bs,
    {
        self.bs
    }

    pub fn bl(&self) -> (r: bool)
        ensures
            r == self.bl,
    {
        self.bl
    }
}

/// Rook squares (from, to) of a castle of `side`.
pub open spec fn castle_rook_squares(side: Color, short: bool) -> (u32, u32) {
    if side == Color::White {
        if short { (7u32, 5u32) } else { (0u32, 3u32) }
    } else {
        if short { (63u32, 61u32) } else { (56u32, 59u32) }
    }
}

/// `m` is consistent with the placement of `b` for a move of `side`: every
/// square and piece that making the move clears holds what the move names,
/// and every square it fills is free. Making such a move and unmaking it
/// restores every bitboard.
pub open spec fn fits(b: Board, side: Color, m: u32) -> bool {
    let w = side == Color::White;
    let from = init_of(m);
    let to = target_of(m);
    let mp = moved_of(m);
    let e = eaten_of(m);
    let pr = promoted_of(m);
    let first = side.first_piece();
    let ofirst = side.opposite_spec().first_piece();
    let own = b.occupation_of(side);
    let opp = b.occupation_of(side.opposite_spec());
    &&& from != to
    &&& white_of(m) == w
    &&& piece_of(mp, side)
    &&& bit_set(b.pieces[mp as int], from)
    &&& !bit_set(own, to)
    &&& (double_push_of(m) ==> !promotion_of(m) && !short_of(m) && !long_of(m) && !en_passant_of(m)
        && !capture_of(m) && mp == first && (if w { to >= 8 } else { to < 56 }))
    &&& if short_of(m) || long_of(m) {
        let short = short_of(m);
        let (rf, rt) = castle_rook_squares(side, short);
        &&& !(short_of(m) && long_of(m))
        &&& !promotion_of(m) && !capture_of(m) && !en_passant_of(m)
        &&& mp == first + 5
        &&& from == (if w { 4u32 } else { 60u32 })
        &&& to == (if short { (from + 2) as u32 } else { (from - 2) as u32 })
        &&& bit_set(b.pieces[first + 3], rf)
        &&& !bit_set(own, rt) && !bit_set(opp, rt) && !bit_set(opp, to)
    } else if en_passant_of(m) {
        &&& capture_of(m) && !promotion_of(m)
        &&& mp == first
        &&& e == ofirst
        &&& (if w { 8 <= to } else { to < 56 })
        &&& bit_set(b.pieces[ofirst as int], (if w { to - 8 } else { to + 8 }) as u32)
        &&& !bit_set(opp, to)
    } else {
        &&& (capture_of(m) ==> piece_of(e, side.opposite_spec()) && e != ofirst + 5 && bit_set(b.pieces[e as int], to))
        &&& (!capture_of(m) ==> !bit_set(opp, to))
        &&& (promotion_of(m) ==> mp == first && first + 1 <= pr <= first + 4)
    }
}

/// A move between `from` and `to` leaves or enters `corner`.
pub open spec fn touches(from: u32, to: u32, corner: u32) -> bool {
    from == corner || to == corner
}

pub open spec fn king_square(p: [u64; 12], side: Color) -> u32 {
    (if side == Color::White { p[5] } else { p[11] }).trailing_zeros()
}

pub open spec fn file_char(f: u32) -> char {
    if f == 0 { 'a' }
    else if f == 1 { 'b' }
    else if f == 2 { 'c' }
    else if f == 3 { 'd' }
    else if f == 4 { 'e' }
    else if f == 5 { 'f' }
    else if f == 6 { 'g' }
    else { 'h' }
}

pub open spec fn rank_char(r: u32) -> char {
    if r == 0 { '1' }
    else if r == 1 { '2' }
    else if r == 2 { '3' }
    else if r == 3 { '4' }
    else if r == 4 { '5' }
    else if r == 5 { '6' }
    else if r == 6 { '7' }
    else { '8' }
}

/// Name of a square: file letter then rank digit.
pub open spec fn square_name(s: u32) -> Seq<char> {
    seq![file_char(s % 8), rank_char(s / 8)]
}

/// The name of square `sqr_idx`, such as `e4`.
pub fn square_to_string(sqr_idx: u32) -> (r: String)
    requires
        sqr_idx < 64,
    ensures
        r@ == square_name(sqr_idx),
{
    let mut res = String::new();
    let f: u32 = sqr_idx % 8;
    let rank: u32 = sqr_idx / 8;
    let file_text: &str = if f == 0 { "a" } else if f == 1 { "b" } else if f == 2 { "c" } else if f
        == 3 { "d" } else if f == 4 { "e" } else if f == 5 { "f" } else if f == 6 { "g" } else { "h" };
    let rank_text: &str = if rank == 0 { "1" } else if rank == 1 { "2" } else if rank == 2 { "3" } else if rank
        == 3 { "4" } else if rank == 4 { "5" } else if rank == 5 { "6" } else if rank == 6 { "7" } else { "8" };
    proof {
        reveal_strlit("a"); reveal_strlit("b"); reveal_strlit("c"); reveal_strlit("d");
        reveal_strlit("e"); reveal_strlit("f"); reveal_strlit("g"); reveal_strlit("h");
        reveal_strlit("1"); reveal_strlit("2"); reveal_strlit("3"); reveal_strlit("4");
        reveal_strlit("5"); reveal_strlit("6"); reveal_strlit("7"); reveal_strlit("8");
    }
    res.append(file_text);
    res.append(rank_text);
    assert(res@ =~= square_name(sqr_idx));
    res
}


/// The placement invariants of `Board::placement_ok` for raw bitboards.
pub open spec fn placement_valid(p: Seq<u64>, white_occupation: u64, black_occupation: u64) -> bool {
    &&& p.len() == 12
    &&& white_occupation & black_occupation == 0
    &&& white_occupation == p[0] | p[1] | p[2] | p[3] | p[4] | p[5]
    &&& black_occupation == p[6] | p[7] | p[8] | p[9] | p[10] | p[11]
    &&& one_bit(p[5])
    &&& one_bit(p[11])
    &&& forall|i: int, j: int| 0 <= i < j < 12 ==> #[trigger] p[i] & #[trigger] p[j] == 0
}

/// Decides [`placement_valid`].
pub fn check_placement(p: &[u64; 12], white_occupation: u64, black_occupation: u64) -> (r: bool)
    ensures
        r == placement_valid(p@, white_occupation, black_occupation),
{
    if white_occupation & black_occupation != 0 {
        return false;
    }
    if white_occupation != (p[0] | p[1] | p[2] | p[3] | p[4] | p[5]) {
        return false;
    }
    if black_occupation != (p[6] | p[7] | p[8] | p[9] | p[10] | p[11]) {
        return false;
    }
    let wk: u64 = p[5];
    let bk: u64 = p[11];
    if wk == 0 || wk & (wk - 1) != 0 || bk == 0 || bk & (bk - 1) != 0 {
        return false;
    }
    let mut i: usize = 0;
    while i < 12
        invariant
            i <= 12,
            forall|a: int, b: int| 0 <= a < i && a < b < 12 ==> #[trigger] p[a] & #[trigger] p[b] == 0,
        decreases 12 - i,
    {
        let mut j: usize = i + 1;
        while j < 12
            invariant
                i < 12,
                i + 1 <= j <= 12,
                forall|a: int, b: int| 0 <= a < i && a < b < 12 ==> #[trigger] p[a] & #[trigger] p[b] == 0,
                forall|b: int| i < b < j ==> p[i as int] & #[trigger] p[b] == 0,
            decreases 12 - j,
        {
            if p[i] & p[j] != 0 {
                return false;
            }
            j += 1;
        }
        i += 1;
    }
    true
}

impl Board {
    /// A position from its placement, side to move, rights and en-passant
    /// square, with attacks, checks and pins computed. `None` when the
    /// placement breaks the occupancy or king invariants, or the en-passant
    /// square is off the board.
    pub fn board_with(
        pieces: [u64; 12],
        white_occupation: u64,
        black_occupation: u64,
        turn: Color,
        ws: bool,
        wl: bool,
        bs: bool,
        bl: bool,
        ep_square: Option<u32>,
        move_gen: &MoveGen,
    ) -> (r: Option<Self>)
        requires
            move_gen.wf(),
        ensures
            r is Some <==> (placement_valid(pieces@, white_occupation, black_occupation) && (ep_square matches Some(e) ==> e < 64)),
            r matches Some(b) ==> crate::move_gen::attacks_exact(*move_gen, b, Color::White, b.white_attacks)
                && crate::move_gen::attacks_exact(*move_gen, b, Color::Black, b.black_attacks)
                && b.nof_checkers == crate::move_gen::saturated(crate::move_gen::checkers(*move_gen, b, turn.opposite_spec()).len() as int)
                && crate::move_gen::pin_data_exact(*move_gen, b),
            r matches Some(b) ==> b.wf() && b.pieces == pieces && b.white_occupation == white_occupation
                && b.black_occupation == black_occupation && b.turn == turn && b.ws == ws && b.wl == wl
                && b.bs == bs && b.bl == bl && b.ep_square == ep_square,
    {
        if !check_placement(&pieces, white_occupation, black_occupation) {
            return None;
        }
        if let Some(e) = ep_square {
            if e >= 64 {
                return None;
            }
        }
        let mut res = Board {
            pieces,
            white_occupation,
            black_occupation,
            white_attacks: 0,
            black_attacks: 0,
            ep_square,
            ws,
            wl,
            bs,
            bl,
            turn,
            mover_in_check: false,
            nof_checkers: 0,
            check_block_sqrs: 0,
            white_pinned: 0,
            black_pinned: 0,
            white_pinned_restrictions: [0u64; 64],
            black_pinned_restrictions: [0u64; 64],
            meta_attacks: 0,
        };
        let ghost start = res;
        let own_attacks: u64 = move_gen.compute_attacked(&mut res, turn);
        res.nof_checkers = 0;
        res.check_block_sqrs = 0;
        let ghost mid = res;
        let opponent_attacks: u64 = move_gen.compute_attacked(&mut res, turn.opposite());
        if turn.is_white() {
            res.white_attacks = own_attacks;
            res.black_attacks = opponent_attacks;
        } else {
            res.black_attacks = own_attacks;
            res.white_attacks = opponent_attacks;
        }
        res.update_mover_in_check();
        let ghost checked = res;
        proof {
            crate::move_gen::lemma_checkers_placement(*move_gen, checked, mid, turn.opposite_spec());
            assert forall|t: u32| t < 64 implies #[trigger] bit_set(checked.check_block_sqrs, t)
                == crate::move_gen::checker_at(*move_gen, checked, checked.turn.opposite_spec(), t) by {
                lemma_bit_ops(0, t, t);
                assert(!bit_set(0u64, t)) by {
                    assert(0u64 & (1u64 << (t as u64)) == 0) by (bit_vector);
                }
                assert(crate::move_gen::checkers(*move_gen, checked, turn.opposite_spec()).contains(t)
                    == crate::move_gen::checkers(*move_gen, mid, turn.opposite_spec()).contains(t));
            }
        }
        move_gen.compute_pinned(&mut res, turn);
        proof {
            crate::move_gen::lemma_attacks_placement(*move_gen, res, start, turn, own_attacks);
            crate::move_gen::lemma_attacks_placement(*move_gen, res, mid, turn.opposite_spec(), opponent_attacks);
            crate::move_gen::lemma_checkers_placement(*move_gen, res, mid, turn.opposite_spec());
            crate::move_gen::lemma_pin_data(*move_gen, checked, res);
        }
        Some(res)
    }

    /// The initial chess position, white to move.
    pub fn default_board(move_gen: &MoveGen) -> (r: Self)
        requires
            move_gen.wf(),
        ensures
            r.wf(),
            crate::move_gen::attacks_exact(*move_gen, r, Color::White, r.white_attacks),
            crate::move_gen::attacks_exact(*move_gen, r, Color::Black, r.black_attacks),
            r.nof_checkers == crate::move_gen::saturated(crate::move_gen::checkers(*move_gen, r, Color::Black).len() as int),
            crate::move_gen::pin_data_exact(*move_gen, r),
            r.pieces == DEFAULT_PIECES,
            r.turn == Color::White,
            r.ws && r.wl && r.bs && r.bl,
            r.ep_square is None,
    {
        let pieces: [u64; 12] = DEFAULT_PIECES;
        proof {
            lemma_default_placement();
        }
        match Board::board_with(pieces, 0xFFFF, 0xFFFF000000000000, Color::White, true, true, true, true, None, move_gen) {
            Some(b) => b,
            None => {
                proof {
                    assert(false);
                }
                Board {
                    pieces,
                    white_occupation: 0,
                    black_occupation: 0,
                    white_attacks: 0,
                    black_attacks: 0,
                    ep_square: None,
                    ws: true,
                    wl: true,
                    bs: true,
                    bl: true,
                    turn: Color::White,
                    mover_in_check: false,
                    nof_checkers: 0,
                    check_block_sqrs: 0,
                    white_pinned: 0,
                    black_pinned: 0,
                    white_pinned_restrictions: [0u64; 64],
                    black_pinned_restrictions: [0u64; 64],
                    meta_attacks: 0,
                }
            },
        }
    }
}

/// Piece bitboards of the initial position.
pub const DEFAULT_PIECES: [u64; 12] = [
    65280,
    66,
    36,
    129,
    8,
    16,
    71776119061217280,
    4755801206503243776,
    2594073385365405696,
    9295429630892703744,
    576460752303423488,
    1152921504606846976,
];

proof fn lemma_default_placement()
    ensures
        placement_valid(DEFAULT_PIECES@, 0xFFFF, 0xFFFF000000000000),
{
    let p = DEFAULT_PIECES;
    assert(p[0] == 65280u64 && p[1] == 66u64 && p[2] == 36u64 && p[3] == 129u64 && p[4] == 8u64 && p[5] == 16u64);
    assert(p[6] == 71776119061217280u64 && p[7] == 4755801206503243776u64 && p[8] == 2594073385365405696u64);
    assert(p[9] == 9295429630892703744u64 && p[10] == 576460752303423488u64 && p[11] == 1152921504606846976u64);
    lemma_default_bits();
    assert forall|i: int, j: int| 0 <= i < j < 12 implies #[trigger] p[i] & #[trigger] p[j] == 0 by {
        if i == 0 && j == 1 {
            assert(p[0] & p[1] == 0);
        }
        if i == 0 && j == 2 {
            assert(p[0] & p[2] == 0);
        }
        if i == 0 && j == 3 {
            assert(p[0] & p[3] == 0);
        }
        if i == 0 && j == 4 {
            assert(p[0] & p[4] == 0);
        }
        if i == 0 && j == 5 {
            assert(p[0] & p[5] == 0);
        }
        if i == 0 && j == 6 {
            assert(p[0] & p[6] == 0);
        }
        if i == 0 && j == 7 {
            assert(p[0] & p[7] == 0);
        }
        if i == 0 && j == 8 {
            assert(p[0] & p[8] == 0);
        }
        if i == 0 && j == 9 {
            assert(p[0] & p[9] == 0);
        }
        if i == 0 && j == 10 {
            assert(p[0] & p[10] == 0);
        }
        if i == 0 && j == 11 {
            assert(p[0] & p[11] == 0);
        }
        if i == 1 && j == 2 {
            assert(p[1] & p[2] == 0);
        }
        if i == 1 && j == 3 {
            assert(p[1] & p[3] == 0);
        }
        if i == 1 && j == 4 {
            assert(p[1] & p[4] == 0);
        }
        if i == 1 && j == 5 {
            assert(p[1] & p[5] == 0);
        }
        if i == 1 && j == 6 {
            assert(p[1] & p[6] == 0);
        }
        if i == 1 && j == 7 {
            assert(p[1] & p[7] == 0);
        }
        if i == 1 && j == 8 {
            assert(p[1] & p[8] == 0);
        }
        if i == 1 && j == 9 {
            assert(p[1] & p[9] == 0);
        }
        if i == 1 && j == 10 {
            assert(p[1] & p[10] == 0);
        }
        if i == 1 && j == 11 {
            assert(p[1] & p[11] == 0);
        }
        if i == 2 && j == 3 {
            assert(p[2] & p[3] == 0);
        }
        if i == 2 && j == 4 {
            assert(p[2] & p[4] == 0);
        }
        if i == 2 && j == 5 {
            assert(p[2] & p[5] == 0);
        }
        if i == 2 && j == 6 {
            assert(p[2] & p[6] == 0);
        }
        if i == 2 && j == 7 {
            assert(p[2] & p[7] == 0);
        }
        if i == 2 && j == 8 {
            assert(p[2] & p[8] == 0);
        }
        if i == 2 && j == 9 {
            assert(p[2] & p[9] == 0);
        }
        if i == 2 && j == 10 {
            assert(p[2] & p[10] == 0);
        }
        if i == 2 && j == 11 {
            assert(p[2] & p[11] == 0);
        }
        if i == 3 && j == 4 {
            assert(p[3] & p[4] == 0);
        }
        if i == 3 && j == 5 {
            assert(p[3] & p[5] == 0);
        }
        if i == 3 && j == 6 {
            assert(p[3] & p[6] == 0);
        }
        if i == 3 && j == 7 {
            assert(p[3] & p[7] == 0);
        }
        if i == 3 && j == 8 {
            assert(p[3] & p[8] == 0);
        }
        if i == 3 && j == 9 {
            assert(p[3] & p[9] == 0);
        }
        if i == 3 && j == 10 {
            assert(p[3] & p[10] == 0);
        }
        if i == 3 && j == 11 {
            assert(p[3] & p[11] == 0);
        }
        if i == 4 && j == 5 {
            assert(p[4] & p[5] == 0);
        }
        if i == 4 && j == 6 {
            assert(p[4] & p[6] == 0);
        }
        if i == 4 && j == 7 {
            assert(p[4] & p[7] == 0);
        }
        if i == 4 && j == 8 {
            assert(p[4] & p[8] == 0);
        }
        if i == 4 && j == 9 {
            assert(p[4] & p[9] == 0);
        }
        if i == 4 && j == 10 {
            assert(p[4] & p[10] == 0);
        }
        if i == 4 && j == 11 {
            assert(p[4] & p[11] == 0);
        }
        if i == 5 && j == 6 {
            assert(p[5] & p[6] == 0);
        }
        if i == 5 && j == 7 {
            assert(p[5] & p[7] == 0);
        }
        if i == 5 && j == 8 {
            assert(p[5] & p[8] == 0);
        }
        if i == 5 && j == 9 {
            assert(p[5] & p[9] == 0);
        }
        if i == 5 && j == 10 {
            assert(p[5] & p[10] == 0);
        }
        if i == 5 && j == 11 {
            assert(p[5] & p[11] == 0);
        }
        if i == 6 && j == 7 {
            assert(p[6] & p[7] == 0);
        }
        if i == 6 && j == 8 {
            assert(p[6] & p[8] == 0);
        }
        if i == 6 && j == 9 {
            assert(p[6] & p[9] == 0);
        }
        if i == 6 && j == 10 {
            assert(p[6] & p[10] == 0);
        }
        if i == 6 && j == 11 {
            assert(p[6] & p[11] == 0);
        }
        if i == 7 && j == 8 {
            assert(p[7] & p[8] == 0);
        }
        if i == 7 && j == 9 {
            assert(p[7] & p[9] == 0);
        }
        if i == 7 && j == 10 {
            assert(p[7] & p[10] == 0);
        }
        if i == 7 && j == 11 {
            assert(p[7] & p[11] == 0);
        }
        if i == 8 && j == 9 {
            assert(p[8] & p[9] == 0);
        }
        if i == 8 && j == 10 {
            assert(p[8] & p[10] == 0);
        }
        if i == 8 && j == 11 {
            assert(p[8] & p[11] == 0);
        }
        if i == 9 && j == 10 {
            assert(p[9] & p[10] == 0);
        }
        if i == 9 && j == 11 {
            assert(p[9] & p[11] == 0);
        }
        if i == 10 && j == 11 {
            assert(p[10] & p[11] == 0);
        }
    }
}

proof fn lemma_default_bits()
    by (bit_vector)
    ensures
        0xFFFFu64 & 0xFFFF000000000000u64 == 0,
        0xFFFFu64 == 65280u64 | 66u64 | 36u64 | 129u64 | 8u64 | 16u64,
        0xFFFF000000000000u64 == 71776119061217280u64 | 4755801206503243776u64 | 2594073385365405696u64
            | 9295429630892703744u64 | 576460752303423488u64 | 1152921504606846976u64,
        16u64 & 15u64 == 0,
        1152921504606846976u64 & 1152921504606846975u64 == 0,
        65280u64 & 66u64 == 0,
        65280u64 & 36u64 == 0,
        65280u64 & 129u64 == 0,
        65280u64 & 8u64 == 0,
        65280u64 & 16u64 == 0,
        65280u64 & 71776119061217280u64 == 0,
        65280u64 & 4755801206503243776u64 == 0,
        65280u64 & 2594073385365405696u64 == 0,
        65280u64 & 9295429630892703744u64 == 0,
        65280u64 & 576460752303423488u64 == 0,
        65280u64 & 1152921504606846976u64 == 0,
        66u64 & 36u64 == 0,
        66u64 & 129u64 == 0,
        66u64 & 8u64 == 0,
        66u64 & 16u64 == 0,
        66u64 & 71776119061217280u64 == 0,
        66u64 & 4755801206503243776u64 == 0,
        66u64 & 2594073385365405696u64 == 0,
        66u64 & 9295429630892703744u64 == 0,
        66u64 & 576460752303423488u64 == 0,
        66u64 & 1152921504606846976u64 == 0,
        36u64 & 129u64 == 0,
        36u64 & 8u64 == 0,
        36u64 & 16u64 == 0,
        36u64 & 71776119061217280u64 == 0,
        36u64 & 4755801206503243776u64 == 0,
        36u64 & 2594073385365405696u64 == 0,
        36u64 & 9295429630892703744u64 == 0,
        36u64 & 576460752303423488u64 == 0,
        36u64 & 1152921504606846976u64 == 0,
        129u64 & 8u64 == 0,
        129u64 & 16u64 == 0,
        129u64 & 71776119061217280u64 == 0,
        129u64 & 4755801206503243776u64 == 0,
        129u64 & 2594073385365405696u64 == 0,
        129u64 & 9295429630892703744u64 == 0,
        129u64 & 576460752303423488u64 == 0,
        129u64 & 1152921504606846976u64 == 0,
        8u64 & 16u64 == 0,
        8u64 & 71776119061217280u64 == 0,
        8u64 & 4755801206503243776u64 == 0,
        8u64 & 2594073385365405696u64 == 0,
        8u64 & 9295429630892703744u64 == 0,
        8u64 & 576460752303423488u64 == 0,
        8u64 & 1152921504606846976u64 == 0,
        16u64 & 71776119061217280u64 == 0,
        16u64 & 4755801206503243776u64 == 0,
        16u64 & 2594073385365405696u64 == 0,
        16u64 & 9295429630892703744u64 == 0,
        16u64 & 576460752303423488u64 == 0,
        16u64 & 1152921504606846976u64 == 0,
        71776119061217280u64 & 4755801206503243776u64 == 0,
        71776119061217280u64 & 2594073385365405696u64 == 0,
        71776119061217280u64 & 9295429630892703744u64 == 0,
        71776119061217280u64 & 576460752303423488u64 == 0,
        71776119061217280u64 & 1152921504606846976u64 == 0,
        4755801206503243776u64 & 2594073385365405696u64 == 0,
        4755801206503243776u64 & 9295429630892703744u64 == 0,
        4755801206503243776u64 & 576460752303423488u64 == 0,
        4755801206503243776u64 & 1152921504606846976u64 == 0,
        2594073385365405696u64 & 9295429630892703744u64 == 0,
        2594073385365405696u64 & 576460752303423488u64 == 0,
        2594073385365405696u64 & 1152921504606846976u64 == 0,
        9295429630892703744u64 & 576460752303423488u64 == 0,
        9295429630892703744u64 & 1152921504606846976u64 == 0,
        576460752303423488u64 & 1152921504606846976u64 == 0,
{
}

/// A square of a piece of `side` is a square of its occupation.
pub proof fn lemma_piece_in_occupation_pub(b: Board, side: Color, i: int, s: u32)
    requires
        b.placement_ok(),
        side.first_piece() <= i < side.first_piece() + 6,
        s < 64,
    ensures
        bit_set(b.pieces[i], s) ==> bit_set(b.occupation_of(side), s),
{
    let p = b.pieces;
    crate::bitboard::lemma_bits_of_ops(p[0], p[1], p[2], p[3], p[4], p[5], s);
    crate::bitboard::lemma_bits_of_ops(p[6], p[7], p[8], p[9], p[10], p[11], s);
}

} // verus!