//! A move packed into a `u32`.
//!
//! | bits   | field                         |
//! |--------|-------------------------------|
//! | 0..5   | from-square                   |
//! | 6..11  | to-square                     |
//! | 12     | capture                       |
//! | 13..16 | captured piece                |
//! | 17     | short castle                  |
//! | 18     | long castle                   |
//! | 19     | double pawn push              |
//! | 20     | promotion                     |
//! | 21..24 | promoted-to piece             |
//! | 25..28 | moved piece                   |
//! | 29     | en passant                    |
//! | 31     | mover is white                |
use vstd::prelude::*;
use crate::types::Color;
use crate::board::{Board, square_to_string, square_name, touches};
use vstd::string::*;

verus! {

pub const CAPTURE_BIT: u32 = 0x1000;
pub const SHORT_CASTLE_BIT: u32 = 0x20000;
pub const LONG_CASTLE_BIT: u32 = 0x40000;
pub const DOUBLE_PUSH_BIT: u32 = 0x80000;
pub const PROMOTION_BIT: u32 = 0x100000;
pub const EN_PASSANT_BIT: u32 = 0x20000000;
pub const WHITE_BIT: u32 = 0x80000000;

/// White king e1 to g1.
pub const WHITE_SHORT: u32 = 2315387268;
/// White king e1 to c1.
pub const WHITE_LONG: u32 = 2315518084;
/// Black king e8 to g8.
pub const BLACK_SHORT: u32 = 369233852;
/// Black king e8 to c8.
pub const BLACK_LONG: u32 = 369364668;

pub open spec fn init_of(m: u32) -> u32 {
    m & 0x3F
}

pub open spec fn target_of(m: u32) -> u32 {
    (m >> 6u32) & 0x3F
}

pub open spec fn capture_of(m: u32) -> bool {
    m & 0x1000 != 0
}

pub open spec fn eaten_of(m: u32) -> u32 {
    (m >> 13u32) & 0xF
}

pub open spec fn short_of(m: u32) -> bool {
    m & 0x20000 != 0
}

pub open spec fn long_of(m: u32) -> bool {
    m & 0x40000 != 0
}

pub open spec fn double_push_of(m: u32) -> bool {
    m & 0x80000 != 0
}

pub open spec fn promotion_of(m: u32) -> bool {
    m & 0x100000 != 0
}

pub open spec fn promoted_of(m: u32) -> u32 {
    (m >> 21u32) & 0xF
}

pub open spec fn moved_of(m: u32) -> u32 {
    (m >> 25u32) & 0xF
}

pub open spec fn en_passant_of(m: u32) -> bool {
    m & 0x20000000 != 0
}

pub open spec fn white_of(m: u32) -> bool {
    m & 0x80000000 != 0
}

pub open spec fn flag(b: bool, bit: u32) -> u32 {
    if b { bit } else { 0 }
}

/// The word that holds the given fields.
pub open spec fn encode(
    from: u32,
    to: u32,
    capture: bool,
    eaten: u32,
    short: bool,
    long: bool,
    double_push: bool,
    promotion: bool,
    promoted: u32,
    moved: u32,
    en_passant: bool,
    white: bool,
) -> u32 {
    from | (to << 6u32) | flag(capture, 0x1000) | (eaten << 13u32) | flag(short, 0x20000) | flag(
        long,
        0x40000,
    ) | flag(double_push, 0x80000) | flag(promotion, 0x100000) | (promoted << 21u32) | (moved
        << 25u32) | flag(en_passant, 0x20000000) | flag(white, 0x80000000)
}

/// Every field of `m` has the given value.
pub open spec fn fields_are(
    m: u32,
    from: u32,
    to: u32,
    capture: bool,
    eaten: u32,
    short: bool,
    long: bool,
    double_push: bool,
    promotion: bool,
    promoted: u32,
    moved: u32,
    en_passant: bool,
    white: bool,
) -> bool {
    &&& init_of(m) == from
    &&& target_of(m) == to
    &&& capture_of(m) == capture
    &&& eaten_of(m) == eaten
    &&& short_of(m) == short
    &&& long_of(m) == long
    &&& double_push_of(m) == double_push
    &&& promotion_of(m) == promotion
    &&& promoted_of(m) == promoted
    &&& moved_of(m) == moved
    &&& en_passant_of(m) == en_passant
    &&& white_of(m) == white
}

/// Every field read back from an encoded move is the field that was written.
pub proof fn lemma_encode_decode(
    from: u32,
    to: u32,
    capture: bool,
    eaten: u32,
    short: bool,
    long: bool,
    double_push: bool,
    promotion: bool,
    promoted: u32,
    moved: u32,
    en_passant: bool,
    white: bool,
)
    by (bit_vector)
    requires
        from < 64,
        to < 64,
        eaten < 16,
        promoted < 16,
        moved < 16,
    ensures
        ({
            let m = encode(
                from,
                to,
                capture,
                eaten,
                short,
                long,
                double_push,
                promotion,
                promoted,
                moved,
                en_passant,
                white,
            );
            &&& init_of(m) == from
            &&& target_of(m) == to
            &&& capture_of(m) == capture
            &&& eaten_of(m) == eaten
            &&& short_of(m) == short
            &&& long_of(m) == long
            &&& double_push_of(m) == double_push
            &&& promotion_of(m) == promotion
            &&& promoted_of(m) == promoted
            &&& moved_of(m) == moved
            &&& en_passant_of(m) == en_passant
            &&& white_of(m) == white
        }),
{
}

fn flag_bits(b: bool, bit: u32) -> (r: u32)
    ensures
        r == flag(b, bit),
{
    if b {
        bit
    } else {
        0
    }
}

/// Packs the given fields into one word.
fn pack(
    from: u32,
    to: u32,
    capture: bool,
    eaten: u32,
    short: bool,
    long: bool,
    double_push: bool,
    promotion: bool,
    promoted: u32,
    moved: u32,
    en_passant: bool,
    white: bool,
) -> (r: u32)
    requires
        from < 64,
        to < 64,
        eaten < 16,
        promoted < 16,
        moved < 16,
    ensures
        r == encode(
            from,
            to,
            capture,
            eaten,
            short,
            long,
            double_push,
            promotion,
            promoted,
            moved,
            en_passant,
            white,
        ),
        fields_are(
            r,
            from,
            to,
            capture,
            eaten,
            short,
            long,
            double_push,
            promotion,
            promoted,
            moved,
            en_passant,
            white,
        ),
{
    proof {
        lemma_encode_decode(
            from,
            to,
            capture,
            eaten,
            short,
            long,
            double_push,
            promotion,
            promoted,
            moved,
            en_passant,
            white,
        );
    }
    from | (to << 6u32) | flag_bits(capture, CAPTURE_BIT) | (eaten << 13u32) | flag_bits(
        short,
        SHORT_CASTLE_BIT,
    ) | flag_bits(long, LONG_CASTLE_BIT) | flag_bits(double_push, DOUBLE_PUSH_BIT) | flag_bits(
        promotion,
        PROMOTION_BIT,
    ) | (promoted << 21u32) | (moved << 25u32) | flag_bits(en_passant, EN_PASSANT_BIT) | flag_bits(
        white,
        WHITE_BIT,
    )
}

/// A quiet or capturing move; the captured piece is filled in later.
pub fn create(from: u32, to: u32, is_take: bool, mover: Color, moved_piece: u32) -> (r: u32)
    requires
        from < 64,
        to < 64,
        moved_piece < 16,
    ensures
        r == encode(
            from,
            to,
            is_take,
            0,
            false,
            false,
            false,
            false,
            0,
            moved_piece,
            false,
            mover == Color::White,
        ),
        fields_are(
            r,
            from,
            to,
            is_take,
            0,
            false,
            false,
            false,
            false,
            0,
            moved_piece,
            false,
            mover == Color::White,
        ),
{
    pack(from, to, is_take, 0, false, false, false, false, 0, moved_piece, false, mover.is_white())
}

/// A pawn move onto the last rank that turns the pawn into `promotion_piece`.
pub fn create_promotion(
    from: u32,
    to: u32,
    is_take: bool,
    promotion_piece: u32,
    mover: Color,
    moved_piece: u32,
) -> (r: u32)
    requires
        from < 64,
        to < 64,
        promotion_piece < 16,
        moved_piece < 16,
    ensures
        r == encode(
            from,
            to,
            is_take,
            0,
            false,
            false,
            false,
            true,
            promotion_piece,
            moved_piece,
            false,
            mover == Color::White,
        ),
        fields_are(
            r,
            from,
            to,
            is_take,
            0,
            false,
            false,
            false,
            true,
            promotion_piece,
            moved_piece,
            false,
            mover == Color::White,
        ),
{
    pack(
        from,
        to,
        is_take,
        0,
        false,
        false,
        false,
        true,
        promotion_piece,
        moved_piece,
        false,
        mover.is_white(),
    )
}

/// A pawn advancing two squares from its start rank.
pub fn create_double_push(from: u32, to: u32, mover: Color, moved_piece: u32) -> (r: u32)
    requires
        from < 64,
        to < 64,
        moved_piece < 16,
    ensures
        r == encode(
            from,
            to,
            false,
            0,
            false,
            false,
            true,
            false,
            0,
            moved_piece,
            false,
            mover == Color::White,
        ),
        fields_are(
            r,
            from,
            to,
            false,
            0,
            false,
            false,
            true,
            false,
            0,
            moved_piece,
            false,
            mover == Color::White,
        ),
{
    pack(from, to, false, 0, false, false, true, false, 0, moved_piece, false, mover.is_white())
}

/// An en-passant capture by the pawn `moved_piece`; the captured piece is the enemy pawn.
pub fn create_en_passant(from: u32, to: u32, mover: Color, moved_piece: u32) -> (r: u32)
    requires
        from < 64,
        to < 64,
        moved_piece < 16,
    ensures
        r == encode(
            from,
            to,
            true,
            if mover == Color::White { 6 } else { 0 },
            false,
            false,
            false,
            false,
            0,
            moved_piece,
            true,
            mover == Color::White,
        ),
        fields_are(
            r,
            from,
            to,
            true,
            if mover == Color::White { 6 } else { 0 },
            false,
            false,
            false,
            false,
            0,
            moved_piece,
            true,
            mover == Color::White,
        ),
{
    let eaten: u32 = if mover.is_white() { 6 } else { 0 };
    pack(from, to, true, eaten, false, false, false, false, 0, moved_piece, true, mover.is_white())
}

/// Appends the four promotions (knight, bishop, rook, queen) of a pawn move.
pub fn add_all_promotions(from: u32, to: u32, is_take: bool, mover: Color, moves: &mut Vec<u32>)
    requires
        from < 64,
        to < 64,
    ensures
        final(moves)@ == old(moves)@ + seq![
            promotion_move(from, to, is_take, mover, 1),
            promotion_move(from, to, is_take, mover, 2),
            promotion_move(from, to, is_take, mover, 3),
            promotion_move(from, to, is_take, mover, 4),
        ],
{
    let first: u32 = if mover.is_white() { 0 } else { 6 };
    let mut k: u32 = 1;
    while k < 5
        invariant
            1 <= k <= 5,
            first == mover.first_piece(),
            moves@ == old(moves)@ + Seq::new(
                (k - 1) as nat,
                |i: int| promotion_move(from, to, is_take, mover, (i + 1) as u32),
            ),
            from < 64,
            to < 64,
        decreases 5 - k,
    {
        moves.push(create_promotion(from, to, is_take, first + k, mover, first));
        k += 1;
    }
    assert(moves@ =~= old(moves)@ + seq![
        promotion_move(from, to, is_take, mover, 1),
        promotion_move(from, to, is_take, mover, 2),
        promotion_move(from, to, is_take, mover, 3),
        promotion_move(from, to, is_take, mover, 4),
    ]);
}

/// The promotion of the pawn of `mover` to its piece of kind `kind` (1 knight .. 4 queen).
pub open spec fn promotion_move(from: u32, to: u32, is_take: bool, mover: Color, kind: u32) -> u32 {
    encode(
        from,
        to,
        is_take,
        0,
        false,
        false,
        false,
        true,
        (mover.first_piece() + kind) as u32,
        mover.first_piece(),
        false,
        mover == Color::White,
    )
}

/// `mov` with its captured-piece field set to `eaten`.
pub fn with_eaten_piece(mov: u32, eaten: u32) -> (r: u32)
    requires
        eaten < 16,
    ensures
        r == set_eaten(mov, eaten),
        eaten_of(r) == eaten,
        init_of(r) == init_of(mov),
        target_of(r) == target_of(mov),
        capture_of(r) == capture_of(mov),
        short_of(r) == short_of(mov),
        long_of(r) == long_of(mov),
        double_push_of(r) == double_push_of(mov),
        promotion_of(r) == promotion_of(mov),
        promoted_of(r) == promoted_of(mov),
        moved_of(r) == moved_of(mov),
        en_passant_of(r) == en_passant_of(mov),
        white_of(r) == white_of(mov),
{
    proof {
        lemma_set_eaten(mov, eaten);
    }
    (mov & !(0xFu32 << 13u32)) | (eaten << 13u32)
}

pub open spec fn set_eaten(mov: u32, eaten: u32) -> u32 {
    (mov & !(0xFu32 << 13u32)) | (eaten << 13u32)
}

pub proof fn lemma_set_eaten_pub(mov: u32, eaten: u32)
    requires
        eaten < 16,
    ensures
        eaten_of(set_eaten(mov, eaten)) == eaten,
        init_of(set_eaten(mov, eaten)) == init_of(mov),
        target_of(set_eaten(mov, eaten)) == target_of(mov),
        capture_of(set_eaten(mov, eaten)) == capture_of(mov),
        short_of(set_eaten(mov, eaten)) == short_of(mov),
        long_of(set_eaten(mov, eaten)) == long_of(mov),
        en_passant_of(set_eaten(mov, eaten)) == en_passant_of(mov),
        moved_of(set_eaten(mov, eaten)) == moved_of(mov),
        white_of(set_eaten(mov, eaten)) == white_of(mov),
        double_push_of(set_eaten(mov, eaten)) == double_push_of(mov),
        promotion_of(set_eaten(mov, eaten)) == promotion_of(mov),
        promoted_of(set_eaten(mov, eaten)) == promoted_of(mov),
{
    lemma_set_eaten(mov, eaten);
}

proof fn lemma_set_eaten(mov: u32, eaten: u32)
    by (bit_vector)
    requires
        eaten < 16,
    ensures
        ({
            let r = set_eaten(mov, eaten);
            &&& eaten_of(r) == eaten
            &&& init_of(r) == init_of(mov)
            &&& target_of(r) == target_of(mov)
            &&& capture_of(r) == capture_of(mov)
            &&& short_of(r) == short_of(mov)
            &&& long_of(r) == long_of(mov)
            &&& double_push_of(r) == double_push_of(mov)
            &&& promotion_of(r) == promotion_of(mov)
            &&& promoted_of(r) == promoted_of(mov)
            &&& moved_of(r) == moved_of(mov)
            &&& en_passant_of(r) == en_passant_of(mov)
            &&& white_of(r) == white_of(mov)
        }),
{
}

/// Square moved from.
pub fn get_init(mov: u32) -> (r: u32)
    ensures
        r == init_of(mov),
        r < 64,
{
    proof {
        lemma_field_ranges(mov);
    }
    mov & 0x3F
}

/// Square moved to.
pub fn get_target(mov: u32) -> (r: u32)
    ensures
        r == target_of(mov),
        r < 64,
{
    proof {
        lemma_field_ranges(mov);
    }
    (mov >> 6u32) & 0x3F
}

/// Identifier of the piece that moves.
pub fn get_moved_piece(mov: u32) -> (r: u32)
    ensures
        r == moved_of(mov),
        r < 16,
{
    proof {
        lemma_field_ranges(mov);
    }
    (mov >> 25u32) & 0xF
}

/// Identifier of the piece a promotion turns into.
pub fn get_promoted_piece(mov: u32) -> (r: u32)
    ensures
        r == promoted_of(mov),
        r < 16,
{
    proof {
        lemma_field_ranges(mov);
    }
    (mov >> 21u32) & 0xF
}

/// The captured piece of a capture, `None` for a quiet move.
pub fn eaten_piece(mov: u32) -> (r: Option<u32>)
    ensures
        r == (if capture_of(mov) { Some(eaten_of(mov)) } else { None::<u32> }),
        r is Some ==> r->0 < 16,
{
    proof {
        lemma_field_ranges(mov);
    }
    if is_eating(mov) {
        Some((mov >> 13u32) & 0xF)
    } else {
        None
    }
}

pub proof fn lemma_field_ranges_pub(mov: u32)
    ensures
        init_of(mov) < 64,
        target_of(mov) < 64,
        eaten_of(mov) < 16,
        promoted_of(mov) < 16,
        moved_of(mov) < 16,
{
    lemma_field_ranges(mov);
}

proof fn lemma_field_ranges(mov: u32)
    by (bit_vector)
    ensures
        init_of(mov) < 64,
        target_of(mov) < 64,
        eaten_of(mov) < 16,
        promoted_of(mov) < 16,
        moved_of(mov) < 16,
{
}

pub fn is_white_move(mov: u32) -> (r: bool)
    ensures
        r == white_of(mov),
{
    mov & WHITE_BIT != 0
}

pub fn is_short_castle(mov: u32) -> (r: bool)
    ensures
        r == short_of(mov),
{
    mov & SHORT_CASTLE_BIT != 0
}

pub fn is_long_castle(mov: u32) -> (r: bool)
    ensures
        r == long_of(mov),
{
    mov & LONG_CASTLE_BIT != 0
}

pub fn is_castle(mov: u32) -> (r: bool)
    ensures
        r == (short_of(mov) || long_of(mov)),
{
    is_short_castle(mov) || is_long_castle(mov)
}

pub fn is_eating(mov: u32) -> (r: bool)
    ensures
        r == capture_of(mov),
{
    mov & CAPTURE_BIT != 0
}

pub fn is_promotion(mov: u32) -> (r: bool)
    ensures
        r == promotion_of(mov),
{
    mov & PROMOTION_BIT != 0
}

pub fn is_double_push(mov: u32) -> (r: bool)
    ensures
        r == double_push_of(mov),
{
    mov & DOUBLE_PUSH_BIT != 0
}

pub fn is_en_passant(mov: u32) -> (r: bool)
    ensures
        r == en_passant_of(mov),
{
    mov & EN_PASSANT_BIT != 0
}

/// The castling move of `mover` on the given side.
pub fn create_castling(mover: Color, is_short: bool) -> (r: u32)
    ensures
        r == castling_move(mover, is_short),
{
    proof {
        lemma_castling_words();
        lemma_castling_fields(mover, is_short);
    }
    if mover.is_white() {
        if is_short {
            WHITE_SHORT
        } else {
            WHITE_LONG
        }
    } else {
        if is_short {
            BLACK_SHORT
        } else {
            BLACK_LONG
        }
    }
}

/// King from-square of `side`.
pub open spec fn king_home(side: Color) -> u32 {
    if side == Color::White { 4 } else { 60 }
}

pub open spec fn castling_move(side: Color, short: bool) -> u32 {
    let w = side == Color::White;
    encode(
        king_home(side),
        if short { (king_home(side) + 2) as u32 } else { (king_home(side) - 2) as u32 },
        false,
        0,
        short,
        !short,
        false,
        false,
        0,
        if w { 5 } else { 11 },
        false,
        w,
    )
}

/// The fields of a castling move: the king of `side` moves two files from
/// its home square, with the flag of the castled side.
pub proof fn lemma_castling_fields(side: Color, short: bool)
    ensures
        fields_are(
            castling_move(side, short),
            king_home(side),
            if short { (king_home(side) + 2) as u32 } else { (king_home(side) - 2) as u32 },
            false,
            0,
            short,
            !short,
            false,
            false,
            0,
            if side == Color::White { 5 } else { 11 },
            false,
            side == Color::White,
        ),
{
    let w = side == Color::White;
    lemma_encode_decode(
        king_home(side),
        if short { (king_home(side) + 2) as u32 } else { (king_home(side) - 2) as u32 },
        false,
        0,
        short,
        !short,
        false,
        false,
        0,
        if w { 5 } else { 11 },
        false,
        w,
    );
}

proof fn lemma_castling_words()
    by (bit_vector)
    ensures
        encode(4, 6, false, 0, true, false, false, false, 0, 5, false, true) == 2315387268u32,
        encode(4, 2, false, 0, false, true, false, false, 0, 5, false, true) == 2315518084u32,
        encode(60, 62, false, 0, true, false, false, false, 0, 11, false, false) == 369233852u32,
        encode(60, 58, false, 0, false, true, false, false, 0, 11, false, false) == 369364668u32,
{
}


/// Letter of a piece identifier: `PNBRQK` for white, `pnbrqk` for black.
pub open spec fn piece_char(p: u32) -> char {
    if p == 0 { 'P' }
    else if p == 1 { 'N' }
    else if p == 2 { 'B' }
    else if p == 3 { 'R' }
    else if p == 4 { 'Q' }
    else if p == 5 { 'K' }
    else if p == 6 { 'p' }
    else if p == 7 { 'n' }
    else if p == 8 { 'b' }
    else if p == 9 { 'r' }
    else if p == 10 { 'q' }
    else if p == 11 { 'k' }
    else { '?' }
}

/// `P(e2) -> e4` for a quiet move, `N(g1) x f3` for a capture.
pub open spec fn move_text(m: u32) -> Seq<char> {
    seq![piece_char(moved_of(m)), '('] + square_name(init_of(m)) + seq![')'] + (if capture_of(m) {
        seq![' ', 'x', ' ']
    } else {
        seq![' ', '-', '>', ' ']
    }) + square_name(target_of(m))
}

fn piece_str(p: u32) -> (r: &'static str)
    ensures
        r@ == seq![piece_char(p)],
{
    proof {
        reveal_strlit("P"); reveal_strlit("N"); reveal_strlit("B"); reveal_strlit("R");
        reveal_strlit("Q"); reveal_strlit("K"); reveal_strlit("p"); reveal_strlit("n");
        reveal_strlit("b"); reveal_strlit("r"); reveal_strlit("q"); reveal_strlit("k");
        reveal_strlit("?");
    }
    let r = if p == 0 { "P" } else if p == 1 { "N" } else if p == 2 { "B" } else if p == 3 { "R" }
        else if p == 4 { "Q" } else if p == 5 { "K" } else if p == 6 { "p" } else if p == 7 { "n" }
        else if p == 8 { "b" } else if p == 9 { "r" } else if p == 10 { "q" } else if p == 11 { "k" }
        else { "?" };
    assert(r@ =~= seq![piece_char(p)]);
    r
}

/// Human-readable form of `mov`, such as `P(e2) -> e4` or `N(g1) x f3`.
pub fn to_string(mov: u32) -> (r: String)
    ensures
        r@ == move_text(mov),
{
    let mut res = String::new();
    res.append(piece_str(get_moved_piece(mov)));
    proof {
        reveal_strlit("(");
        reveal_strlit(")");
        reveal_strlit(" x ");
        reveal_strlit(" -> ");
    }
    res.append("(");
    let from_name = square_to_string(get_init(mov));
    res.append(from_name.as_str());
    res.append(")");
    if is_eating(mov) {
        res.append(" x ");
    } else {
        res.append(" -> ");
    }
    let to_name = square_to_string(get_target(mov));
    res.append(to_name.as_str());
    assert(res@ =~= move_text(mov));
    res
}


/// Drops the white castling rights that `mov` ends: both when the white
/// king moves, and a right whose rook corner (h1 short, a1 long) the move
/// leaves or enters.
pub fn update_white_castling(mov: u32, board: &mut Board)
    ensures
        *final(board) == (Board {
            ws: old(board).ws && moved_of(mov) != 5 && !touches(init_of(mov), target_of(mov), 7),
            wl: old(board).wl && moved_of(mov) != 5 && !touches(init_of(mov), target_of(mov), 0),
            ..*old(board)
        }),
{
    let init: u32 = get_init(mov);
    let target: u32 = get_target(mov);
    if get_moved_piece(mov) == 5 {
        board.ws = false;
        board.wl = false;
    }
    if init == 7 || target == 7 {
        board.ws = false;
    }
    if init == 0 || target == 0 {
        board.wl = false;
    }
}

/// Drops the black castling rights that `mov` ends: both when the black
/// king moves, and a right whose rook corner (h8 short, a8 long) the move
/// leaves or enters.
pub fn update_black_castling(mov: u32, board: &mut Board)
    ensures
        *final(board) == (Board {
            bs: old(board).bs && moved_of(mov) != 11 && !touches(init_of(mov), target_of(mov), 63),
            bl: old(board).bl && moved_of(mov) != 11 && !touches(init_of(mov), target_of(mov), 56),
            ..*old(board)
        }),
{
    let init: u32 = get_init(mov);
    let target: u32 = get_target(mov);
    if get_moved_piece(mov) == 11 {
        board.bs = false;
        board.bl = false;
    }
    if init == 63 || target == 63 {
        board.bs = false;
    }
    if init == 56 || target == 56 {
        board.bl = false;
    }
}

/// Two moves without a captured piece that agree once one is filled in are
/// equal.
pub proof fn lemma_set_eaten_injective(a: u32, b: u32, x: u32, y: u32)
    by (bit_vector)
    requires
        eaten_of(a) == 0,
        eaten_of(b) == 0,
        x < 16,
        y < 16,
        set_eaten(a, x) == set_eaten(b, y),
    ensures
        a == b,
{
}

} // verus!