//! Properties of every position a game reaches and of its legal moves.
use vstd::prelude::*;
use crate::bitboard::bit_set;
use crate::board::{Board, one_bit, white_union, black_union};
use crate::game::{Game, derived_data_exact};
use crate::move_gen::{legal_entry, castle_allowed, castling_ok, legal_by_rules};
use crate::moves::{white_of, moved_of, short_of, long_of, target_of, en_passant_of, castling_move, lemma_castling_fields};
use crate::move_gen::ep_victim;
use crate::types::Color;

verus! {

/// In every position of a game the two occupations are disjoint, each is
/// the union of its side's six piece bitboards, each side has exactly one
/// king, at most two pieces give check, and the attack, checker, pin and
/// check-block data are exactly those of the placement.
pub proof fn lemma_position_invariants(g: Game)
    requires
        g.wf(),
    ensures
        g.board.white_occupation & g.board.black_occupation == 0,
        g.board.white_occupation == white_union(g.board.pieces),
        g.board.black_occupation == black_union(g.board.pieces),
        one_bit(g.board.pieces[5]),
        one_bit(g.board.pieces[11]),
        g.board.nof_checkers <= 2,
        derived_data_exact(g.move_gen, g.board),
{
}

/// Every move in the legal list carries the colour bit of the side to move.
pub proof fn lemma_legal_moves_match_turn(g: Game, m: u32)
    requires
        g.wf(),
        g.legal_now().contains(m),
    ensures
        white_of(m) == (g.board.turn == Color::White),
{
    let k = choose|k: int| 0 <= k < g.legal_now().len() && g.legal_now()[k] == m;
    assert(legal_entry(g.board, g.board.turn, g.legal_now()[k]));
}

/// Under double check every legal move moves the king of the side to move.
pub proof fn lemma_double_check_king_moves(g: Game, m: u32)
    requires
        g.wf(),
        g.legal_now().contains(m),
        g.board.nof_checkers == 2,
    ensures
        moved_of(m) == (if g.board.turn == Color::White { 5u32 } else { 11u32 }),
{
    let k = choose|k: int| 0 <= k < g.legal_now().len() && g.legal_now()[k] == m;
    assert(legal_entry(g.board, g.board.turn, g.legal_now()[k]));
}

/// A castling move is legal only when the king is not in check, the right
/// is held, the squares between king and rook are empty and the squares
/// the king crosses are not attacked.
pub proof fn lemma_castling_only_when_allowed(g: Game, m: u32)
    requires
        g.wf(),
        g.legal_now().contains(m),
        short_of(m) || long_of(m),
    ensures
        castle_allowed(g.board, g.board.turn, short_of(m)),
        g.board.nof_checkers == 0,
{
    let k = choose|k: int| 0 <= k < g.legal_now().len() && g.legal_now()[k] == m;
    assert(legal_entry(g.board, g.board.turn, g.legal_now()[k]));
    lemma_castling_fields(g.board.turn, true);
    lemma_castling_fields(g.board.turn, false);
}

/// Under check every legal move addresses it as the check-block data
/// describe: a king move goes to a square that the opponent does not
/// attack (its exact attack set, see `lemma_position_invariants`) and that
/// is not on a checking slider's ray behind the king; any
/// other move (possible only under a single check) lands on a square
/// between king and checker or on the checker, or captures the checking
/// pawn en passant.
pub proof fn lemma_check_evasions(g: Game, m: u32)
    requires
        g.wf(),
        g.legal_now().contains(m),
        g.board.nof_checkers > 0,
    ensures
        moved_of(m) == (if g.board.turn == Color::White { 5u32 } else { 11u32 }) ==> !en_passant_of(m)
            && !bit_set(g.board.attacks_of(g.board.turn.opposite_spec()), target_of(m))
            && !bit_set(g.board.meta_attacks, target_of(m)),
        moved_of(m) != (if g.board.turn == Color::White { 5u32 } else { 11u32 }) ==> g.board.nof_checkers == 1
            && (bit_set(g.board.check_block_sqrs, target_of(m)) || (en_passant_of(m) && bit_set(
            g.board.check_block_sqrs,
            ep_victim(target_of(m), g.board.turn) as u32,
        ))),
{
    let k = choose|k: int| 0 <= k < g.legal_now().len() && g.legal_now()[k] == m;
    assert(legal_entry(g.board, g.board.turn, g.legal_now()[k]));
}

} // verus!