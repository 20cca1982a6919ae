//! Square-set primitives on 64-bit bitboards: bit `s` is square `s`.
use vstd::prelude::*;
use vstd::string::*;
use crate::move_gen::MoveGen;

verus! {

pub const FILE_A: u64 = 0x0101010101010101;
pub const FILE_B: u64 = 0x0202020202020202;
pub const FILE_G: u64 = 0x4040404040404040;
pub const FILE_H: u64 = 0x8080808080808080;
pub const RANK_1: u64 = 0xFF;
pub const RANK_2: u64 = 0xFF00;
pub const RANK_4: u64 = 0xFF000000;
pub const RANK_5: u64 = 0xFF00000000;
pub const RANK_7: u64 = 0xFF000000000000;
pub const RANK_8: u64 = 0xFF00000000000000;
/// Every square on the outer ring of the board.
pub const EDGES: u64 = 0xFF818181818181FF;

/// Bit `s` of `bb` is set.
pub open spec fn bit_set(bb: u64, s: u32) -> bool {
    (bb >> (s as u64)) & 1u64 == 1u64
}

pub open spec fn single(s: u32) -> u64 {
    1u64 << (s as u64)
}

pub open spec fn with_bit(bb: u64, s: u32) -> u64 {
    bb | (1u64 << (s as u64))
}

pub open spec fn without_bit(bb: u64, s: u32) -> u64 {
    bb & !(1u64 << (s as u64))
}

/// How setting and clearing one square acts on the bits of a bitboard.
pub proof fn lemma_bit_ops(bb: u64, s: u32, t: u32)
    by (bit_vector)
    requires
        s < 64,
        t < 64,
    ensures
        bit_set(with_bit(bb, s), s),
        !bit_set(without_bit(bb, s), s),
        s != t ==> (bit_set(with_bit(bb, s), t) == bit_set(bb, t)),
        s != t ==> (bit_set(without_bit(bb, s), t) == bit_set(bb, t)),
        bit_set(bb, s) == (bb & (1u64 << (s as u64)) != 0),
        bit_set(bb, s) ==> with_bit(without_bit(bb, s), s) == bb,
        !bit_set(bb, s) ==> without_bit(with_bit(bb, s), s) == bb,
        bit_set(bb, s) ==> with_bit(bb, s) == bb,
        !bit_set(bb, s) ==> without_bit(bb, s) == bb,
        bit_set(1u64 << (s as u64), t) == (s == t),
{
}

/// Clears the lowest set bit of `old(bb)` and returns its square.
pub fn pop_lsb(bb: &mut u64) -> (r: u32)
    requires
        *old(bb) != 0,
    ensures
        r < 64,
        bit_set(*old(bb), r),
        forall|j: u32| j < r ==> !bit_set(*old(bb), j),
        *final(bb) == without_bit(*old(bb), r),
        *final(bb) == *old(bb) & ((*old(bb) - 1) as u64),
        *final(bb) < *old(bb),
{
    let b = *bb;
    let t: u32 = b.trailing_zeros();
    proof {
        vstd::std_specs::bits::axiom_u64_trailing_zeros(b);
        lemma_lowest_bit(b, t);
    }
    *bb = b & (b - 1);
    t
}

proof fn lemma_lowest_bit(b: u64, t: u32)
    requires
        b != 0,
        t < 64,
        (b >> (t as u64)) & 1u64 == 1u64,
        forall|j: u64| 0 <= j < t ==> #[trigger] ((b >> j) & 1u64) == 0u64,
    ensures
        b & (b - 1) as u64 == without_bit(b, t),
        (b & ((b - 1) as u64)) < b,
        forall|j: u32| j < t ==> !bit_set(b, j),
{
    assert forall|j: u32| j < t implies !bit_set(b, j) by {
        assert((b >> (j as u64)) & 1u64 == 0u64);
    }
    assert((b & ((b - 1) as u64)) < b) by (bit_vector)
        requires
            b != 0,
    ;
    // b has no bit below t, so subtracting one flips bits 0..t exactly
    lemma_no_low_bits(b, t);
    assert(b & (((1u64 << (t as u64)) - 1) as u64) == 0 && t < 64 && (b >> (t as u64)) & 1u64
        == 1u64 ==> b & ((b - 1) as u64) == b & !(1u64 << (t as u64))) by (bit_vector);
}

proof fn lemma_no_low_bits(b: u64, t: u32)
    requires
        t < 64,
        forall|j: u64| 0 <= j < t ==> #[trigger] ((b >> j) & 1u64) == 0u64,
    ensures
        b & ((1u64 << (t as u64)) - 1) as u64 == 0,
    decreases t,
{
    if t > 0 {
        lemma_no_low_bits(b, (t - 1) as u32);
        let u: u32 = (t - 1) as u32;
        assert((b >> (u as u64)) & 1u64 == 0u64);
        assert(u < 63 && b & ((1u64 << (u as u64)) - 1) as u64 == 0 && (b >> (u as u64)) & 1u64 == 0u64
            ==> b & ((1u64 << ((u + 1) as u64)) - 1) as u64 == 0) by (bit_vector);
    } else {
        assert(b & ((1u64 << 0u64) - 1) as u64 == 0) by (bit_vector);
    }
}

/// `bb` without its lowest set bit.
pub fn with_pop_lsb(bb: u64) -> (r: u64)
    requires
        bb != 0,
    ensures
        r == bb & (bb - 1) as u64,
{
    bb & (bb - 1)
}

/// Sets square `sqr` of `bb`.
pub fn set_square(bb: &mut u64, sqr: u32)
    requires
        sqr < 64,
    ensures
        *final(bb) == with_bit(*old(bb), sqr),
{
    *bb = *bb | (1u64 << sqr);
}

/// `bb` with square `sqr` set.
pub fn with_set_square(bb: u64, sqr: u32) -> (r: u64)
    requires
        sqr < 64,
    ensures
        r == with_bit(bb, sqr),
{
    bb | (1u64 << sqr)
}

/// Clears square `sqr` of `bb`.
pub fn clear_square(bb: &mut u64, sqr: u32)
    requires
        sqr < 64,
    ensures
        *final(bb) == without_bit(*old(bb), sqr),
{
    *bb = *bb & !(1u64 << sqr);
}

/// `bb` with square `sqr` cleared.
pub fn with_clear_square(bb: u64, sqr: u32) -> (r: u64)
    requires
        sqr < 64,
    ensures
        r == without_bit(bb, sqr),
{
    bb & !(1u64 << sqr)
}

/// Square `sqr` is set in `bb`.
pub fn contains_square(bb: u64, sqr: u32) -> (r: bool)
    requires
        sqr < 64,
    ensures
        r == bit_set(bb, sqr),
{
    proof {
        lemma_bit_ops(bb, sqr, sqr);
    }
    bb & (1u64 << sqr) != 0
}

/// Squares of `bb` that are not in `bb_to_exclude`.
pub fn diff(bb: u64, bb_to_exclude: u64) -> (r: u64)
    ensures
        r == bb & !bb_to_exclude,
{
    bb & !bb_to_exclude
}


pub open spec fn bit_char(bb: u64, s: int) -> char {
    if bit_set(bb, s as u32) { '1' } else { '0' }
}

/// Files `f..8` of `rank`: each square's bit and a space, then a newline.
pub open spec fn row_text(bb: u64, rank: int, f: int) -> Seq<char>
    decreases 8 - f,
{
    if f >= 8 {
        seq!['\n']
    } else {
        seq![bit_char(bb, rank * 8 + f), ' '] + row_text(bb, rank, f + 1)
    }
}

/// The top `k` ranks of `bb`, rank 8 first.
pub open spec fn board_text(bb: u64, k: int) -> Seq<char>
    decreases k,
{
    if k <= 0 {
        Seq::empty()
    } else {
        board_text(bb, k - 1) + row_text(bb, 8 - k, 0)
    }
}

/// `bb` drawn as eight lines of `0`/`1`, rank 8 first, files a to h.
pub fn bb_to_string(bb: u64) -> (r: String)
    ensures
        r@ == board_text(bb, 8),
{
    let mut res = String::new();
    let mut k: u32 = 1;
    assert(res@ =~= board_text(bb, 0));
    while k <= 8
        invariant
            1 <= k <= 9,
            res@ == board_text(bb, k - 1),
        decreases 9 - k,
    {
        let rank: u32 = 8 - k;
        let mut f: u32 = 0;
        while f < 8
            invariant
                f <= 8,
                rank == 8 - k,
                1 <= k <= 8,
                res@ + row_text(bb, rank as int, f as int) == board_text(bb, k as int),
            decreases 8 - f,
        {
            let ghost before = res@;
            let sq: u32 = rank * 8 + f;
            if contains_square(bb, sq) {
                res.append("1 ");
                proof { reveal_strlit("1 "); }
                assert("1 "@ =~= seq!['1', ' ']);
            } else {
                res.append("0 ");
                proof { reveal_strlit("0 "); }
                assert("0 "@ =~= seq!['0', ' ']);
            }
            assert(row_text(bb, rank as int, f as int) == seq![bit_char(bb, sq as int), ' '] + row_text(bb, rank as int, f + 1));
            assert(before + row_text(bb, rank as int, f as int) =~= res@ + row_text(bb, rank as int, f + 1));
            f += 1;
        }
        let ghost before = res@;
        res.append("\n");
        proof { reveal_strlit("\n"); }
        assert("\n"@ =~= seq!['\n']);
        assert(row_text(bb, rank as int, 8) == seq!['\n']);
        assert(res@ =~= before + row_text(bb, rank as int, 8));
        k += 1;
    }
    res
}


/// The blockers of `blockers` that matter for a slider on `sqr`: those on
/// its rook rays (`scan_cardinal`) or bishop rays (`scan_diag`) short of the
/// board edge.
pub fn get_relevant_blockers(sqr: u32, blockers: u64, scan_cardinal: bool, scan_diag: bool, move_gen: &MoveGen) -> (r: u64)
    requires
        sqr < 64,
    ensures
        r == ((if scan_cardinal { move_gen.rook_bbs_no_edges[sqr as int] } else { 0 }) | (if scan_diag {
            move_gen.bishop_bbs_no_edges[sqr as int]
        } else {
            0
        })) & blockers,
{
    let cardinal: u64 = if scan_cardinal { move_gen.rook_bbs_no_edges[sqr as usize] } else { 0 };
    let diag: u64 = if scan_diag { move_gen.bishop_bbs_no_edges[sqr as usize] } else { 0 };
    (cardinal | diag) & blockers
}

/// Two bitboards with the same squares are equal.
pub proof fn lemma_bits_equal(a: u64, b: u64)
    requires
        forall|q: u32| q < 64 ==> #[trigger] bit_set(a, q) == bit_set(b, q),
    ensures
        a == b,
{
    assert(bit_set(a, 0u32) == bit_set(b, 0u32));
    assert(bit_set(a, 1u32) == bit_set(b, 1u32));
    assert(bit_set(a, 2u32) == bit_set(b, 2u32));
    assert(bit_set(a, 3u32) == bit_set(b, 3u32));
    assert(bit_set(a, 4u32) == bit_set(b, 4u32));
    assert(bit_set(a, 5u32) == bit_set(b, 5u32));
    assert(bit_set(a, 6u32) == bit_set(b, 6u32));
    assert(bit_set(a, 7u32) == bit_set(b, 7u32));
    assert(bit_set(a, 8u32) == bit_set(b, 8u32));
    assert(bit_set(a, 9u32) == bit_set(b, 9u32));
    assert(bit_set(a, 10u32) == bit_set(b, 10u32));
    assert(bit_set(a, 11u32) == bit_set(b, 11u32));
    assert(bit_set(a, 12u32) == bit_set(b, 12u32));
    assert(bit_set(a, 13u32) == bit_set(b, 13u32));
    assert(bit_set(a, 14u32) == bit_set(b, 14u32));
    assert(bit_set(a, 15u32) == bit_set(b, 15u32));
    assert(bit_set(a, 16u32) == bit_set(b, 16u32));
    assert(bit_set(a, 17u32) == bit_set(b, 17u32));
    assert(bit_set(a, 18u32) == bit_set(b, 18u32));
    assert(bit_set(a, 19u32) == bit_set(b, 19u32));
    assert(bit_set(a, 20u32) == bit_set(b, 20u32));
    assert(bit_set(a, 21u32) == bit_set(b, 21u32));
    assert(bit_set(a, 22u32) == bit_set(b, 22u32));
    assert(bit_set(a, 23u32) == bit_set(b, 23u32));
    assert(bit_set(a, 24u32) == bit_set(b, 24u32));
    assert(bit_set(a, 25u32) == bit_set(b, 25u32));
    assert(bit_set(a, 26u32) == bit_set(b, 26u32));
    assert(bit_set(a, 27u32) == bit_set(b, 27u32));
    assert(bit_set(a, 28u32) == bit_set(b, 28u32));
    assert(bit_set(a, 29u32) == bit_set(b, 29u32));
    assert(bit_set(a, 30u32) == bit_set(b, 30u32));
    assert(bit_set(a, 31u32) == bit_set(b, 31u32));
    assert(bit_set(a, 32u32) == bit_set(b, 32u32));
    assert(bit_set(a, 33u32) == bit_set(b, 33u32));
    assert(bit_set(a, 34u32) == bit_set(b, 34u32));
    assert(bit_set(a, 35u32) == bit_set(b, 35u32));
    assert(bit_set(a, 36u32) == bit_set(b, 36u32));
    assert(bit_set(a, 37u32) == bit_set(b, 37u32));
    assert(bit_set(a, 38u32) == bit_set(b, 38u32));
    assert(bit_set(a, 39u32) == bit_set(b, 39u32));
    assert(bit_set(a, 40u32) == bit_set(b, 40u32));
    assert(bit_set(a, 41u32) == bit_set(b, 41u32));
    assert(bit_set(a, 42u32) == bit_set(b, 42u32));
    assert(bit_set(a, 43u32) == bit_set(b, 43u32));
    assert(bit_set(a, 44u32) == bit_set(b, 44u32));
    assert(bit_set(a, 45u32) == bit_set(b, 45u32));
    assert(bit_set(a, 46u32) == bit_set(b, 46u32));
    assert(bit_set(a, 47u32) == bit_set(b, 47u32));
    assert(bit_set(a, 48u32) == bit_set(b, 48u32));
    assert(bit_set(a, 49u32) == bit_set(b, 49u32));
    assert(bit_set(a, 50u32) == bit_set(b, 50u32));
    assert(bit_set(a, 51u32) == bit_set(b, 51u32));
    assert(bit_set(a, 52u32) == bit_set(b, 52u32));
    assert(bit_set(a, 53u32) == bit_set(b, 53u32));
    assert(bit_set(a, 54u32) == bit_set(b, 54u32));
    assert(bit_set(a, 55u32) == bit_set(b, 55u32));
    assert(bit_set(a, 56u32) == bit_set(b, 56u32));
    assert(bit_set(a, 57u32) == bit_set(b, 57u32));
    assert(bit_set(a, 58u32) == bit_set(b, 58u32));
    assert(bit_set(a, 59u32) == bit_set(b, 59u32));
    assert(bit_set(a, 60u32) == bit_set(b, 60u32));
    assert(bit_set(a, 61u32) == bit_set(b, 61u32));
    assert(bit_set(a, 62u32) == bit_set(b, 62u32));
    assert(bit_set(a, 63u32) == bit_set(b, 63u32));
    lemma_bits_equal_64(a, b);
}

proof fn lemma_bits_equal_64(a: u64, b: u64)
    by (bit_vector)
    requires
        bit_set(a, 0) == bit_set(b, 0),
        bit_set(a, 1) == bit_set(b, 1),
        bit_set(a, 2) == bit_set(b, 2),
        bit_set(a, 3) == bit_set(b, 3),
        bit_set(a, 4) == bit_set(b, 4),
        bit_set(a, 5) == bit_set(b, 5),
        bit_set(a, 6) == bit_set(b, 6),
        bit_set(a, 7) == bit_set(b, 7),
        bit_set(a, 8) == bit_set(b, 8),
        bit_set(a, 9) == bit_set(b, 9),
        bit_set(a, 10) == bit_set(b, 10),
        bit_set(a, 11) == bit_set(b, 11),
        bit_set(a, 12) == bit_set(b, 12),
        bit_set(a, 13) == bit_set(b, 13),
        bit_set(a, 14) == bit_set(b, 14),
        bit_set(a, 15) == bit_set(b, 15),
        bit_set(a, 16) == bit_set(b, 16),
        bit_set(a, 17) == bit_set(b, 17),
        bit_set(a, 18) == bit_set(b, 18),
        bit_set(a, 19) == bit_set(b, 19),
        bit_set(a, 20) == bit_set(b, 20),
        bit_set(a, 21) == bit_set(b, 21),
        bit_set(a, 22) == bit_set(b, 22),
        bit_set(a, 23) == bit_set(b, 23),
        bit_set(a, 24) == bit_set(b, 24),
        bit_set(a, 25) == bit_set(b, 25),
        bit_set(a, 26) == bit_set(b, 26),
        bit_set(a, 27) == bit_set(b, 27),
        bit_set(a, 28) == bit_set(b, 28),
        bit_set(a, 29) == bit_set(b, 29),
        bit_set(a, 30) == bit_set(b, 30),
        bit_set(a, 31) == bit_set(b, 31),
        bit_set(a, 32) == bit_set(b, 32),
        bit_set(a, 33) == bit_set(b, 33),
        bit_set(a, 34) == bit_set(b, 34),
        bit_set(a, 35) == bit_set(b, 35),
        bit_set(a, 36) == bit_set(b, 36),
        bit_set(a, 37) == bit_set(b, 37),
        bit_set(a, 38) == bit_set(b, 38),
        bit_set(a, 39) == bit_set(b, 39),
        bit_set(a, 40) == bit_set(b, 40),
        bit_set(a, 41) == bit_set(b, 41),
        bit_set(a, 42) == bit_set(b, 42),
        bit_set(a, 43) == bit_set(b, 43),
        bit_set(a, 44) == bit_set(b, 44),
        bit_set(a, 45) == bit_set(b, 45),
        bit_set(a, 46) == bit_set(b, 46),
        bit_set(a, 47) == bit_set(b, 47),
        bit_set(a, 48) == bit_set(b, 48),
        bit_set(a, 49) == bit_set(b, 49),
        bit_set(a, 50) == bit_set(b, 50),
        bit_set(a, 51) == bit_set(b, 51),
        bit_set(a, 52) == bit_set(b, 52),
        bit_set(a, 53) == bit_set(b, 53),
        bit_set(a, 54) == bit_set(b, 54),
        bit_set(a, 55) == bit_set(b, 55),
        bit_set(a, 56) == bit_set(b, 56),
        bit_set(a, 57) == bit_set(b, 57),
        bit_set(a, 58) == bit_set(b, 58),
        bit_set(a, 59) == bit_set(b, 59),
        bit_set(a, 60) == bit_set(b, 60),
        bit_set(a, 61) == bit_set(b, 61),
        bit_set(a, 62) == bit_set(b, 62),
        bit_set(a, 63) == bit_set(b, 63),
    ensures
        a == b,
{
}

/// A bitboard whose only square is `q` is that square alone.
pub proof fn lemma_single_square(x: u64, q: u32)
    requires
        q < 64,
        bit_set(x, q),
        forall|t: u32| t < 64 && t != q ==> !#[trigger] bit_set(x, t),
    ensures
        x != 0,
        x & ((x - 1) as u64) == 0,
{
    assert forall|t: u32| t < 64 implies #[trigger] bit_set(x, t) == bit_set(1u64 << (q as u64), t) by {
        lemma_bit_ops(0, q, t);
    }
    lemma_bits_equal(x, 1u64 << (q as u64));
    assert(q < 64 ==> (1u64 << (q as u64)) != 0 && (1u64 << (q as u64)) & (((1u64 << (q as u64)) - 1) as u64) == 0) by (bit_vector);
}

/// The squares of unions and intersections.
pub proof fn lemma_bits_of_ops(a: u64, b: u64, c: u64, d: u64, e: u64, f: u64, q: u32)
    by (bit_vector)
    requires
        q < 64,
    ensures
        bit_set(a | b | c | d | e | f, q) == (bit_set(a, q) || bit_set(b, q) || bit_set(c, q) || bit_set(d, q)
            || bit_set(e, q) || bit_set(f, q)),
        bit_set(a & b, q) == (bit_set(a, q) && bit_set(b, q)),
        !bit_set(0, q),
{
}

/// The lowest square of a non-empty bitboard: it is set, and clearing it
/// is `x & (x - 1)`.
pub proof fn pop_lsb_spec_facts(x: u64) -> (k: u32)
    requires
        x != 0,
    ensures
        k == x.trailing_zeros(),
        k < 64,
        bit_set(x, k),
        x & ((x - 1) as u64) == without_bit(x, k),
{
    vstd::std_specs::bits::axiom_u64_trailing_zeros(x);
    let k = x.trailing_zeros();
    lemma_lowest_bit(x, k);
    k
}

/// The only square of a one-square bitboard is its lowest.
pub proof fn lemma_one_bit_square(x: u64)
    requires
        x != 0,
        x & ((x - 1) as u64) == 0,
    ensures
        x.trailing_zeros() < 64,
        bit_set(x, x.trailing_zeros()),
        forall|t: u32| t < 64 && t != x.trailing_zeros() ==> !#[trigger] bit_set(x, t),
{
    let k = pop_lsb_spec_facts(x);
    assert forall|t: u32| t < 64 && t != k implies !#[trigger] bit_set(x, t) by {
        lemma_bit_ops(x, k, t);
        lemma_bits_of_ops(0, 0, 0, 0, 0, 0, t);
    }
}

} // verus!