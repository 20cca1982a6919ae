//! Reading a position from Forsyth-Edwards notation.
use vstd::prelude::*;
use vstd::string::*;
use crate::bitboard::{set_square, bit_set, lemma_bit_ops, lemma_bits_equal, lemma_bits_of_ops, lemma_single_square};
use crate::board::{placement_valid, check_placement};
use crate::board::Board;
use crate::move_gen::MoveGen;
use crate::types::Color;

verus! {

/// The initial position.
pub const DEFAULT_FEN: &'static str = "rnbqkbnr/pppppppp/8/8/8/8/PPPPPPPP/RNBQKBNR w KQkq - 0 1";

/// The pieces of `s[..i]` cut at each `sep`.
pub open spec fn split_upto(s: Seq<char>, i: int, sep: char) -> Seq<Seq<char>>
    decreases i,
{
    if i <= 0 {
        seq![Seq::<char>::empty()]
    } else {
        let prev = split_upto(s, i - 1, sep);
        if s[i - 1] == sep {
            prev.push(Seq::<char>::empty())
        } else {
            prev.update(prev.len() - 1, prev.last().push(s[i - 1]))
        }
    }
}

/// `s` cut at each `sep`.
pub open spec fn split(s: Seq<char>, sep: char) -> Seq<Seq<char>> {
    split_upto(s, s.len() as int, sep)
}

proof fn lemma_split_nonempty(s: Seq<char>, i: int, sep: char)
    ensures
        split_upto(s, i, sep).len() >= 1,
    decreases i,
{
    if i > 0 {
        lemma_split_nonempty(s, i - 1, sep);
    }
}

/// Index of a piece letter in `PNBRQKpnbrqk`.
pub open spec fn piece_index(c: char) -> Option<u32> {
    if c == 'P' { Some(0u32) }
    else if c == 'N' { Some(1u32) }
    else if c == 'B' { Some(2u32) }
    else if c == 'R' { Some(3u32) }
    else if c == 'Q' { Some(4u32) }
    else if c == 'K' { Some(5u32) }
    else if c == 'p' { Some(6u32) }
    else if c == 'n' { Some(7u32) }
    else if c == 'b' { Some(8u32) }
    else if c == 'r' { Some(9u32) }
    else if c == 'q' { Some(10u32) }
    else if c == 'k' { Some(11u32) }
    else { None }
}

pub open spec fn is_digit(c: char) -> bool {
    '0' <= c <= '9'
}

pub open spec fn digit_value(c: char) -> int {
    c as int - '0' as int
}

/// Number of squares the first `i` characters of a row describe: one per
/// piece letter, the value of each digit; `None` at any other character.
pub open spec fn row_width(s: Seq<char>, i: int) -> Option<int>
    decreases i,
{
    if i <= 0 {
        Some(0)
    } else {
        match row_width(s, i - 1) {
            Some(w) => if is_digit(s[i - 1]) {
                Some(w + digit_value(s[i - 1]))
            } else if piece_index(s[i - 1]) is Some {
                Some(w + 1)
            } else {
                None
            },
            None => None,
        }
    }
}

/// A rank of the placement field: piece letters and digits covering
/// exactly eight squares.
pub open spec fn row_valid(s: Seq<char>) -> bool {
    row_width(s, s.len() as int) == Some(8int)
}

fn char_piece_index(c: char) -> (r: Option<u32>)
    ensures
        r == piece_index(c),
{
    if c == 'P' { Some(0) }
    else if c == 'N' { Some(1) }
    else if c == 'B' { Some(2) }
    else if c == 'R' { Some(3) }
    else if c == 'Q' { Some(4) }
    else if c == 'K' { Some(5) }
    else if c == 'p' { Some(6) }
    else if c == 'n' { Some(7) }
    else if c == 'b' { Some(8) }
    else if c == 'r' { Some(9) }
    else if c == 'q' { Some(10) }
    else if c == 'k' { Some(11) }
    else { None }
}

fn row_valid_chars(row: &Vec<char>) -> (r: bool)
    ensures
        r == row_valid(row@),
{
    let mut width: u32 = 0;
    let mut i: usize = 0;
    while i < row.len()
        invariant
            i <= row.len(),
            row_width(row@, i as int) == Some(width as int),
            width <= 8,
        decreases row.len() - i,
    {
        let c: char = row[i];
        if '0' <= c && c <= '9' {
            let d: u32 = (c as u32) - ('0' as u32);
            if width + d > 8 {
                proof {
                    lemma_row_width_grows(row@, i as int + 1, row@.len() as int);
                }
                return false;
            }
            width = width + d;
        } else if char_piece_index(c).is_some() {
            if width + 1 > 8 {
                proof {
                    lemma_row_width_grows(row@, i as int + 1, row@.len() as int);
                }
                return false;
            }
            width = width + 1;
        } else {
            proof {
                lemma_row_width_none(row@, i as int + 1, row@.len() as int);
            }
            return false;
        }
        i += 1;
    }
    width == 8
}

proof fn lemma_row_width_grows(s: Seq<char>, i: int, j: int)
    requires
        0 <= i <= j <= s.len(),
    ensures
        row_width(s, i) matches Some(a) ==> (row_width(s, j) matches Some(b) ==> a <= b),
    decreases j - i,
{
    if i < j {
        lemma_row_width_grows(s, i, j - 1);
    }
}

proof fn lemma_row_width_none(s: Seq<char>, i: int, j: int)
    requires
        0 <= i <= j <= s.len(),
        row_width(s, i) is None,
    ensures
        row_width(s, j) is None,
    decreases j - i,
{
    if i < j {
        lemma_row_width_none(s, i, j - 1);
    }
}

/// Whether `row` is a valid rank of the placement field.
pub fn is_legal_piece_row(row: &str) -> (r: bool)
    ensures
        r == row_valid(row@),
{
    let chars: Vec<char> = str_chars(row);
    row_valid_chars(&chars)
}

/// The characters of `s`.
fn str_chars(s: &str) -> (r: Vec<char>)
    ensures
        r@ == s@,
{
    let n: usize = s.unicode_len();
    let mut res: Vec<char> = Vec::new();
    let mut i: usize = 0;
    while i < n
        invariant
            n == s@.len(),
            i <= n,
            res@ == s@.take(i as int),
        decreases n - i,
    {
        res.push(s.get_char(i));
        i += 1;
        assert(res@ =~= s@.take(i as int));
    }
    assert(res@ =~= s@);
    res
}

/// Cuts `s` at each `sep`.
fn split_chars(s: &Vec<char>, sep: char) -> (r: Vec<Vec<char>>)
    ensures
        r@.map_values(|v: Vec<char>| v@) == split(s@, sep),
{
    let mut res: Vec<Vec<char>> = Vec::new();
    res.push(Vec::new());
    let mut i: usize = 0;
    assert(res@.map_values(|v: Vec<char>| v@) =~= split_upto(s@, 0, sep));
    while i < s.len()
        invariant
            i <= s.len(),
            res@.len() >= 1,
            res@.map_values(|v: Vec<char>| v@) == split_upto(s@, i as int, sep),
        decreases s.len() - i,
    {
        let c: char = s[i];
        let ghost prev = res@.map_values(|v: Vec<char>| v@);
        if c == sep {
            res.push(Vec::new());
            assert(res@.map_values(|v: Vec<char>| v@) =~= prev.push(Seq::<char>::empty()));
        } else {
            let mut last: Vec<char> = res.pop().unwrap();
            last.push(c);
            res.push(last);
            assert(res@.map_values(|v: Vec<char>| v@) =~= prev.update(prev.len() - 1, prev.last().push(c)));
        }
        i += 1;
    }
    res
}

/// The castling field: `-`, or one to four of `KQkq` in that order.
pub open spec fn castling_field_valid(s: Seq<char>) -> bool {
    ||| s == seq!['-']
    ||| {
        &&& 1 <= s.len() <= 4
        &&& forall|i: int| 0 <= i < s.len() ==> castle_rank(#[trigger] s[i]) < 4
        &&& forall|i: int, j: int| 0 <= i < j < s.len() ==> castle_rank(#[trigger] s[i]) < castle_rank(#[trigger] s[j])
    }
}

/// Position of a castling letter in `KQkq`, 4 for any other character.
pub open spec fn castle_rank(c: char) -> int {
    if c == 'K' { 0 } else if c == 'Q' { 1 } else if c == 'k' { 2 } else if c == 'q' { 3 } else { 4 }
}

/// The en-passant field: `-`, or a file `a`-`h` and a rank `1`-`8`.
pub open spec fn ep_field_valid(s: Seq<char>) -> bool {
    s == seq!['-'] || (s.len() == 2 && 'a' <= s[0] <= 'h' && '1' <= s[1] <= '8')
}

/// The square an en-passant field names, `None` for `-`.
pub open spec fn ep_of_field(s: Seq<char>) -> Option<u32> {
    if s.len() == 2 {
        Some(((s[0] as int - 'a' as int) + 8 * (s[1] as int - '1' as int)) as u32)
    } else {
        None
    }
}

/// Four to six space-separated fields: eight valid ranks with both kings,
/// `w` or `b`, castling rights and an en-passant square.
pub open spec fn fen_valid(s: Seq<char>) -> bool {
    let f = split(s, ' ');
    let rows = split(f[0], '/');
    &&& 4 <= f.len() <= 6
    &&& rows.len() == 8
    &&& forall|i: int| 0 <= i < 8 ==> row_valid(#[trigger] rows[i])
    &&& f[0].contains('K')
    &&& f[0].contains('k')
    &&& (f[1] == seq!['w'] || f[1] == seq!['b'])
    &&& castling_field_valid(f[2])
    &&& ep_field_valid(f[3])
}

fn castle_rank_of(c: char) -> (r: u32)
    ensures
        r == castle_rank(c),
{
    if c == 'K' { 0 } else if c == 'Q' { 1 } else if c == 'k' { 2 } else if c == 'q' { 3 } else { 4 }
}

fn castling_valid_chars(s: &Vec<char>) -> (r: bool)
    ensures
        r == castling_field_valid(s@),
{
    if s.len() == 1 && s[0] == '-' {
        assert(s@ =~= seq!['-']);
        return true;
    }
    if s.len() < 1 || s.len() > 4 {
        return false;
    }
    let mut i: usize = 0;
    while i < s.len()
        invariant
            1 <= s.len() <= 4,
            i <= s.len(),
            !(s.len() == 1 && s@[0] == '-'),
            forall|a: int| 0 <= a < i ==> castle_rank(#[trigger] s@[a]) < 4,
            forall|a: int, b: int| 0 <= a < b < i ==> castle_rank(#[trigger] s@[a]) < castle_rank(#[trigger] s@[b]),
        decreases s.len() - i,
    {
        let r: u32 = castle_rank_of(s[i]);
        if r >= 4 {
            return false;
        }
        if i > 0 && castle_rank_of(s[i - 1]) >= r {
            return false;
        }
        proof {
            assert forall|a: int, b: int| 0 <= a < b < i + 1 implies castle_rank(#[trigger] s@[a]) < castle_rank(#[trigger] s@[b]) by {
                if b == i && a < i - 1 {
                    assert(castle_rank(s@[a]) < castle_rank(s@[i - 1]));
                }
            }
        }
        i += 1;
    }
    assert(s@ != seq!['-']) by {
        if s@ == seq!['-'] {
            assert(s@[0] == '-');
        }
    }
    true
}

fn ep_valid_chars(s: &Vec<char>) -> (r: bool)
    ensures
        r == ep_field_valid(s@),
{
    if s.len() == 1 && s[0] == '-' {
        assert(s@ =~= seq!['-']);
        return true;
    }
    assert(s@ != seq!['-']) by {
        if s@ == seq!['-'] {
            assert(s@[0] == '-');
        }
    }
    s.len() == 2 && 'a' <= s[0] && s[0] <= 'h' && '1' <= s[1] && s[1] <= '8'
}

fn contains_char(s: &Vec<char>, c: char) -> (r: bool)
    ensures
        r == s@.contains(c),
{
    let mut i: usize = 0;
    while i < s.len()
        invariant
            i <= s.len(),
            forall|a: int| 0 <= a < i ==> s@[a] != c,
        decreases s.len() - i,
    {
        if s[i] == c {
            assert(s@[i as int] == c);
            return true;
        }
        i += 1;
    }
    false
}

fn is_single(s: &Vec<char>, c: char) -> (r: bool)
    ensures
        r == (s@ == seq![c]),
{
    if s.len() == 1 && s[0] == c {
        assert(s@ =~= seq![c]);
        true
    } else {
        assert(s@ != seq![c]) by {
            if s@ == seq![c] {
                assert(s@[0] == c);
            }
        }
        false
    }
}

/// The fields of a FEN text, if it is valid.
fn valid_fields(fen: &str) -> (r: Option<Vec<Vec<char>>>)
    ensures
        r is Some <==> fen_valid(fen@),
        r matches Some(f) ==> f@.map_values(|v: Vec<char>| v@) == split(fen@, ' '),
{
    let chars: Vec<char> = str_chars(fen);
    let fields: Vec<Vec<char>> = split_chars(&chars, ' ');
    let ghost fv = fields@.map_values(|v: Vec<char>| v@);
    if fields.len() < 4 || fields.len() > 6 {
        return None;
    }
    assert(fv[0] == fields@[0]@ && fv[1] == fields@[1]@ && fv[2] == fields@[2]@ && fv[3] == fields@[3]@);
    let rows: Vec<Vec<char>> = split_chars(&fields[0], '/');
    let ghost rv = rows@.map_values(|v: Vec<char>| v@);
    assert(chars@ == fen@);
    assert(fv == split(fen@, ' '));
    assert(rv == split(split(fen@, ' ')[0], '/'));
    if rows.len() != 8 {
        return None;
    }
    let mut i: usize = 0;
    while i < 8
        invariant
            i <= 8,
            rows.len() == 8,
            rv == rows@.map_values(|v: Vec<char>| v@),
            rv == split(split(fen@, ' ')[0], '/'),
            forall|a: int| 0 <= a < i ==> row_valid(#[trigger] rv[a]),
        decreases 8 - i,
    {
        if !row_valid_chars(&rows[i]) {
            assert(!row_valid(rv[i as int]));
            return None;
        }
        i += 1;
    }
    if !contains_char(&fields[0], 'K') || !contains_char(&fields[0], 'k') {
        return None;
    }
    if !is_single(&fields[1], 'w') && !is_single(&fields[1], 'b') {
        return None;
    }
    if !castling_valid_chars(&fields[2]) || !ep_valid_chars(&fields[3]) {
        return None;
    }
    Some(fields)
}

/// The ranks of the placement field, rank 8 first.
pub open spec fn fen_rows(s: Seq<char>) -> Seq<Seq<char>> {
    split(split(s, ' ')[0], '/')
}

/// Character `ci` of rank row `ri` is the letter of piece `p` and stands on
/// square `q`: its file is the width of the characters before it.
pub open spec fn placed_at(rows: Seq<Seq<char>>, ri: int, ci: int, p: u32, q: u32) -> bool {
    &&& 0 <= ri < rows.len()
    &&& 0 <= ci < rows[ri].len()
    &&& piece_index(rows[ri][ci]) == Some(p)
    &&& row_width(rows[ri], ci) matches Some(f) && 0 <= f < 8 && q == (7 - ri) * 8 + f
}

/// Each occupation holds exactly the squares of its side's pieces.
pub open spec fn occupations_match(p: [u64; 12], white_occupation: u64, black_occupation: u64) -> bool {
    forall|q: u32| q < 64 ==> (#[trigger] bit_set(white_occupation, q) == exists|i: u32| i < 6 && bit_set(p[i as int], q))
        && (bit_set(black_occupation, q) == exists|i: u32| 6 <= i < 12 && bit_set(p[i as int], q))
}

/// The placement field puts at most one piece on a square and exactly one
/// king of each colour on the board.
pub open spec fn placement_sound(rows: Seq<Seq<char>>) -> bool {
    &&& forall|q: u32, a: u32, b: u32| q < 64 && a < 12 && b < 12 && #[trigger] fen_places(rows, a, q)
        && #[trigger] fen_places(rows, b, q) ==> a == b
    &&& exists|q: u32| q < 64 && fen_places(rows, 5, q) && forall|t: u32| t < 64 && #[trigger] fen_places(rows, 5, t) ==> t == q
    &&& exists|q: u32| q < 64 && fen_places(rows, 11, q) && forall|t: u32| t < 64 && #[trigger] fen_places(rows, 11, t) ==> t == q
}

/// The placement field puts piece `p` on square `q`.
pub open spec fn fen_places(rows: Seq<Seq<char>>, p: u32, q: u32) -> bool {
    exists|ri: int, ci: int| 0 <= ri < 8 && #[trigger] placed_at(rows, ri, ci, p, q)
}

/// Whether `fen` is a valid position text.
pub fn is_valid_fen(fen: &String) -> (r: bool)
    ensures
        r == fen_valid(fen@),
{
    valid_fields(fen.as_str()).is_some()
}

/// The piece bitboards and occupations that the placement field `rows`
/// describes; `None` when a rank is malformed.
fn parse_placement(rows: &Vec<Vec<char>>, fen: Ghost<Seq<char>>) -> (r: Option<([u64; 12], u64, u64)>)
    requires
        rows@.map_values(|v: Vec<char>| v@) == fen_rows(fen@),
        fen_valid(fen@) ==> rows@.len() == 8,
    ensures
        r matches Some(t) ==> (forall|p: u32, q: u32| p < 12 && q < 64 ==> #[trigger] bit_set(t.0[p as int], q)
            == fen_places(fen_rows(fen@), p, q)) && occupations_match(t.0, t.1, t.2),
        fen_valid(fen@) ==> r is Some,
{
    let ghost rv = rows@.map_values(|v: Vec<char>| v@);
    let mut pieces: [u64; 12] = [0u64; 12];
    let mut white_occupation: u64 = 0;
    let mut black_occupation: u64 = 0;
    proof {
        assert forall|q: u32| q < 64 implies !bit_set(0u64, q) by {
            assert(q < 64 ==> (0u64 >> (q as u64)) & 1u64 == 0u64) by (bit_vector);
        }
    }
    let mut r: usize = 0;
    while r < rows.len()
        invariant
            r <= rows.len(),
            rv == rows@.map_values(|v: Vec<char>| v@),
            forall|p: u32, q: u32| p < 12 && q < 64 ==> #[trigger] bit_set(pieces[p as int], q) == exists|ri: int, ci: int|
                0 <= ri < r && #[trigger] placed_at(rv, ri, ci, p, q),
            occupations_match(pieces, white_occupation, black_occupation),
            rv == fen_rows(fen@),
            fen_valid(fen@) ==> rv.len() == 8 && forall|a: int| 0 <= a < 8 ==> row_valid(#[trigger] rv[a]),
        decreases rows.len() - r,
    {
        if r >= 8 {
            assert(!fen_valid(fen@)) by {
                if fen_valid(fen@) {
                    assert(rv.len() == rows@.len());
                }
            }
            return None;
        }
        let rank: u32 = 7 - r as u32;
        let row: &Vec<char> = &rows[r];
        assert(row@ == rv[r as int]);
        let mut file: u32 = 0;
        let mut i: usize = 0;
        while i < row.len()
            invariant
                i <= row.len(),
                r < 8,
                r < rows.len(),
                rv == rows@.map_values(|v: Vec<char>| v@),
                rank == 7 - r,
                file <= 8,
                row@ == rv[r as int],
                row_width(row@, i as int) == Some(file as int),
                forall|p: u32, q: u32| p < 12 && q < 64 ==> #[trigger] bit_set(pieces[p as int], q) == exists|ri: int, ci: int|
                    (0 <= ri < r || (ri == r && ci < i)) && #[trigger] placed_at(rv, ri, ci, p, q),
                occupations_match(pieces, white_occupation, black_occupation),
                fen_valid(fen@) ==> row_valid(row@),
            decreases row.len() - i,
        {
            let c: char = row[i];
            let ghost before = pieces;
            let ghost wo0 = white_occupation;
            let ghost bo0 = black_occupation;
            if '0' <= c && c <= '9' {
                let d: u32 = (c as u32) - ('0' as u32);
                if file + d > 8 {
                    proof {
                        lemma_row_width_grows(row@, i as int + 1, row@.len() as int);
                    }
                    return None;
                }
                file = file + d;
                proof {
                    assert(piece_index(c) is None);
                    assert(pieces == before);
                    assert(occupations_match(pieces, white_occupation, black_occupation));
                }
            } else {
                match char_piece_index(c) {
                    Some(p) => {
                        if file >= 8 {
                            proof {
                                lemma_row_width_grows(row@, i as int + 1, row@.len() as int);
                            }
                            return None;
                        }
                        let sq: u32 = rank * 8 + file;
                        set_square(&mut pieces[p as usize], sq);
                        if p < 6 {
                            set_square(&mut white_occupation, sq);
                        } else {
                            set_square(&mut black_occupation, sq);
                        }
                        proof {
                            assert forall|pp: u32, q: u32| pp < 12 && q < 64 implies #[trigger] bit_set(pieces[pp as int], q)
                                == (bit_set(before[pp as int], q) || (pp == p && q == sq)) by {
                                if pp == p {
                                    lemma_bit_ops(before[pp as int], sq, q);
                                }
                            }
                            assert forall|q: u32| q < 64 implies (#[trigger] bit_set(white_occupation, q) == exists|pp: u32|
                                pp < 6 && bit_set(pieces[pp as int], q)) && (bit_set(black_occupation, q) == exists|pp: u32|
                                6 <= pp < 12 && bit_set(pieces[pp as int], q)) by {
                                lemma_bit_ops(wo0, sq, q);
                                lemma_bit_ops(bo0, sq, q);
                                if q == sq {
                                    assert(bit_set(pieces[p as int], q));
                                }
                                if exists|pp: u32| pp < 6 && bit_set(pieces[pp as int], q) {
                                    let pp = choose|pp: u32| pp < 6 && bit_set(pieces[pp as int], q);
                                    assert(bit_set(before[pp as int], q) || (pp == p && q == sq));
                                }
                                if exists|pp: u32| 6 <= pp < 12 && bit_set(pieces[pp as int], q) {
                                    let pp = choose|pp: u32| 6 <= pp < 12 && bit_set(pieces[pp as int], q);
                                    assert(bit_set(before[pp as int], q) || (pp == p && q == sq));
                                }
                                if bit_set(wo0, q) {
                                    let pp = choose|pp: u32| pp < 6 && bit_set(before[pp as int], q);
                                    assert(bit_set(pieces[pp as int], q));
                                }
                                if bit_set(bo0, q) {
                                    let pp = choose|pp: u32| 6 <= pp < 12 && bit_set(before[pp as int], q);
                                    assert(bit_set(pieces[pp as int], q));
                                }
                            }
                            assert(occupations_match(pieces, white_occupation, black_occupation));
                            assert(rv.len() == rows@.len());
                            assert(rv[r as int][i as int] == c);
                            assert(sq as int == (7 - r as int) * 8 + file as int);
                            assert(placed_at(rv, r as int, i as int, p, sq));
                        }
                        file = file + 1;
                    },
                    None => {
                        proof {
                            lemma_row_width_none(row@, i as int + 1, row@.len() as int);
                        }
                        return None;
                    },
                }
            }
            proof {
                assert forall|pp: u32, q: u32| pp < 12 && q < 64 implies #[trigger] bit_set(pieces[pp as int], q) == exists|ri: int, ci: int|
                    (0 <= ri < r || (ri == r && ci < i + 1)) && #[trigger] placed_at(rv, ri, ci, pp, q) by {
                    if exists|ri: int, ci: int| (0 <= ri < r || (ri == r && ci < i + 1)) && #[trigger] placed_at(rv, ri, ci, pp, q) {
                        let (ri, ci) = choose|ri: int, ci: int| (0 <= ri < r || (ri == r && ci < i + 1)) && #[trigger] placed_at(rv, ri, ci, pp, q);
                        if !(ri == r && ci == i) {
                            assert((0 <= ri < r || (ri == r && ci < i)) && placed_at(rv, ri, ci, pp, q));
                        }
                    }
                    if bit_set(before[pp as int], q) {
                        let (ri, ci) = choose|ri: int, ci: int| (0 <= ri < r || (ri == r && ci < i)) && #[trigger] placed_at(rv, ri, ci, pp, q);
                        assert((0 <= ri < r || (ri == r && ci < i + 1)) && placed_at(rv, ri, ci, pp, q));
                    }
                }
            }
            i += 1;
        }
        proof {
            assert forall|pp: u32, q: u32| pp < 12 && q < 64 implies #[trigger] bit_set(pieces[pp as int], q) == exists|ri: int, ci: int|
                0 <= ri < r + 1 && #[trigger] placed_at(rv, ri, ci, pp, q) by {
                if exists|ri: int, ci: int| 0 <= ri < r + 1 && #[trigger] placed_at(rv, ri, ci, pp, q) {
                    let (ri, ci) = choose|ri: int, ci: int| 0 <= ri < r + 1 && #[trigger] placed_at(rv, ri, ci, pp, q);
                    assert((0 <= ri < r || (ri == r && ci < i)) && placed_at(rv, ri, ci, pp, q));
                }
                if bit_set(pieces[pp as int], q) {
                    let (ri, ci) = choose|ri: int, ci: int| (0 <= ri < r || (ri == r && ci < i)) && #[trigger] placed_at(rv, ri, ci, pp, q);
                    assert(0 <= ri < r + 1 && placed_at(rv, ri, ci, pp, q));
                }
            }
        }
        r += 1;
    }
    proof {
        assert forall|p: u32, q: u32| p < 12 && q < 64 implies #[trigger] bit_set(pieces[p as int], q)
            == fen_places(fen_rows(fen@), p, q) by {
            if bit_set(pieces[p as int], q) {
                let (ri, ci) = choose|ri: int, ci: int| 0 <= ri < r && #[trigger] placed_at(rv, ri, ci, p, q);
                assert(0 <= ri < 8 && placed_at(rv, ri, ci, p, q));
            }
            if fen_places(fen_rows(fen@), p, q) {
                let (ri, ci) = choose|ri: int, ci: int| 0 <= ri < 8 && #[trigger] placed_at(rv, ri, ci, p, q);
                assert(rv.len() == rows@.len());
                assert(0 <= ri < r && placed_at(rv, ri, ci, p, q));
            }
        }
    }
    Some((pieces, white_occupation, black_occupation))
}

/// Reads the position of a FEN text; `None` when the text is not valid or
/// its placement breaks the board invariants (a side without exactly one
/// king, or two pieces on one square).
pub fn fen_to_board(fen: String, move_gen: &MoveGen) -> (r: Option<Board>)
    requires
        move_gen.wf(),
    ensures
        !fen_valid(fen@) ==> r is None,
        r matches Some(b) ==> b.wf() && b.turn == (if split(fen@, ' ')[1] == seq!['w'] {
            Color::White
        } else {
            Color::Black
        }) && b.ws == split(fen@, ' ')[2].contains('K') && b.wl == split(fen@, ' ')[2].contains('Q')
            && b.bs == split(fen@, ' ')[2].contains('k') && b.bl == split(fen@, ' ')[2].contains('q')
            && b.ep_square == ep_of_field(split(fen@, ' ')[3]),
        r matches Some(b) ==> crate::move_gen::attacks_exact(*move_gen, b, Color::White, b.white_attacks)
            && crate::move_gen::attacks_exact(*move_gen, b, Color::Black, b.black_attacks)
            && b.nof_checkers == crate::move_gen::saturated(crate::move_gen::checkers(*move_gen, b, b.turn.opposite_spec()).len() as int)
            && crate::move_gen::pin_data_exact(*move_gen, b),
        r matches Some(b) ==> forall|p: u32, q: u32| p < 12 && q < 64 ==> #[trigger] bit_set(b.pieces[p as int], q)
            == fen_places(fen_rows(fen@), p, q),
        fen_valid(fen@) && placement_sound(fen_rows(fen@)) ==> r is Some,
{
    let fields: Vec<Vec<char>> = match valid_fields(fen.as_str()) {
        Some(f) => f,
        None => {
            return None;
        },
    };
    let ghost fv = fields@.map_values(|v: Vec<char>| v@);
    assert(fv[0] == fields@[0]@ && fv[1] == fields@[1]@ && fv[2] == fields@[2]@ && fv[3] == fields@[3]@);
    let rows: Vec<Vec<char>> = split_chars(&fields[0], '/');
    let ghost rv = rows@.map_values(|v: Vec<char>| v@);
    assert(rv == fen_rows(fen@));
    let (pieces, white_occupation, black_occupation) = match parse_placement(&rows, Ghost(fen@)) {
        Some(t) => t,
        None => {
            return None;
        },
    };
    let turn: Color = if is_single(&fields[1], 'w') { Color::White } else { Color::Black };
    let ws: bool = contains_char(&fields[2], 'K');
    let wl: bool = contains_char(&fields[2], 'Q');
    let bs: bool = contains_char(&fields[2], 'k');
    let bl: bool = contains_char(&fields[2], 'q');
    let ep: &Vec<char> = &fields[3];
    let ep_square: Option<u32> = if ep.len() == 2 && 'a' <= ep[0] && ep[0] <= 'h' && '1' <= ep[1] && ep[1] <= '8' {
        Some(((ep[0] as u32) - ('a' as u32)) + 8 * ((ep[1] as u32) - ('1' as u32)))
    } else {
        None
    };
    proof {
        if fen_valid(fen@) && placement_sound(fen_rows(fen@)) {
            lemma_sound_placement(rv, pieces, white_occupation, black_occupation);
        }
    }
    Board::board_with(pieces, white_occupation, black_occupation, turn, ws, wl, bs, bl, ep_square, move_gen)
}

proof fn lemma_sound_placement(rows: Seq<Seq<char>>, p: [u64; 12], white_occupation: u64, black_occupation: u64)
    requires
        placement_sound(rows),
        forall|i: u32, q: u32| i < 12 && q < 64 ==> #[trigger] bit_set(p[i as int], q) == fen_places(rows, i, q),
        occupations_match(p, white_occupation, black_occupation),
    ensures
        placement_valid(p@, white_occupation, black_occupation),
{
    assert forall|q: u32| q < 64 implies #[trigger] bit_set(white_occupation & black_occupation, q) == bit_set(0u64, q) by {
        lemma_bits_of_ops(white_occupation, black_occupation, 0, 0, 0, 0, q);
        assert(bit_set(white_occupation, q) == exists|i: u32| i < 6 && bit_set(p[i as int], q));
        if bit_set(white_occupation, q) && bit_set(black_occupation, q) {
            let a = choose|i: u32| i < 6 && bit_set(p[i as int], q);
            let b = choose|i: u32| 6 <= i < 12 && bit_set(p[i as int], q);
            assert(fen_places(rows, a, q) && fen_places(rows, b, q));
        }
    }
    lemma_bits_equal(white_occupation & black_occupation, 0);
    assert forall|q: u32| q < 64 implies #[trigger] bit_set(white_occupation, q) == bit_set(p[0] | p[1] | p[2] | p[3] | p[4] | p[5], q) by {
        lemma_bits_of_ops(p[0], p[1], p[2], p[3], p[4], p[5], q);
        if bit_set(white_occupation, q) {
            let a = choose|i: u32| i < 6 && bit_set(p[i as int], q);
        }
        if bit_set(p[0], q) { assert(0u32 < 6 && bit_set(p[0u32 as int], q)); }
        if bit_set(p[1], q) { assert(1u32 < 6 && bit_set(p[1u32 as int], q)); }
        if bit_set(p[2], q) { assert(2u32 < 6 && bit_set(p[2u32 as int], q)); }
        if bit_set(p[3], q) { assert(3u32 < 6 && bit_set(p[3u32 as int], q)); }
        if bit_set(p[4], q) { assert(4u32 < 6 && bit_set(p[4u32 as int], q)); }
        if bit_set(p[5], q) { assert(5u32 < 6 && bit_set(p[5u32 as int], q)); }
    }
    lemma_bits_equal(white_occupation, p[0] | p[1] | p[2] | p[3] | p[4] | p[5]);
    assert forall|q: u32| q < 64 implies #[trigger] bit_set(black_occupation, q) == bit_set(p[6] | p[7] | p[8] | p[9] | p[10] | p[11], q) by {
        lemma_bits_of_ops(p[6], p[7], p[8], p[9], p[10], p[11], q);
        assert(bit_set(white_occupation, q) == exists|i: u32| i < 6 && bit_set(p[i as int], q));
        if bit_set(black_occupation, q) {
            let a = choose|i: u32| 6 <= i < 12 && bit_set(p[i as int], q);
        }
        if bit_set(p[6], q) { assert(6 <= 6u32 < 12 && bit_set(p[6u32 as int], q)); }
        if bit_set(p[7], q) { assert(6 <= 7u32 < 12 && bit_set(p[7u32 as int], q)); }
        if bit_set(p[8], q) { assert(6 <= 8u32 < 12 && bit_set(p[8u32 as int], q)); }
        if bit_set(p[9], q) { assert(6 <= 9u32 < 12 && bit_set(p[9u32 as int], q)); }
        if bit_set(p[10], q) { assert(6 <= 10u32 < 12 && bit_set(p[10u32 as int], q)); }
        if bit_set(p[11], q) { assert(6 <= 11u32 < 12 && bit_set(p[11u32 as int], q)); }
    }
    lemma_bits_equal(black_occupation, p[6] | p[7] | p[8] | p[9] | p[10] | p[11]);
    let wk = choose|q: u32| q < 64 && fen_places(rows, 5, q) && forall|t: u32| t < 64 && #[trigger] fen_places(rows, 5, t) ==> t == q;
    assert(bit_set(p[5u32 as int], wk));
    assert forall|t: u32| t < 64 && t != wk implies !#[trigger] bit_set(p[5], t) by {
        assert(bit_set(p[5u32 as int], t) == fen_places(rows, 5, t));
    }
    lemma_single_square(p[5], wk);
    let bk = choose|q: u32| q < 64 && fen_places(rows, 11, q) && forall|t: u32| t < 64 && #[trigger] fen_places(rows, 11, t) ==> t == q;
    assert(bit_set(p[11u32 as int], bk));
    assert forall|t: u32| t < 64 && t != bk implies !#[trigger] bit_set(p[11], t) by {
        assert(bit_set(p[11u32 as int], t) == fen_places(rows, 11, t));
    }
    lemma_single_square(p[11], bk);
    assert forall|i: int, j: int| 0 <= i < j < 12 implies #[trigger] p[i] & #[trigger] p[j] == 0 by {
        assert forall|q: u32| q < 64 implies #[trigger] bit_set(p[i] & p[j], q) == bit_set(0u64, q) by {
            lemma_bits_of_ops(p[i], p[j], 0, 0, 0, 0, q);
            if bit_set(p[i], q) && bit_set(p[j], q) {
                assert(bit_set(p[i as u32 as int], q) && bit_set(p[j as u32 as int], q));
                assert(fen_places(rows, i as u32, q) && fen_places(rows, j as u32, q));
            }
        }
        lemma_bits_equal(p[i] & p[j], 0);
    }
}

/// A valid placement read from a field makes the field sound.
proof fn lemma_placement_sound_of_valid(rows: Seq<Seq<char>>, p: [u64; 12], white_occupation: u64, black_occupation: u64)
    requires
        forall|i: u32, q: u32| i < 12 && q < 64 ==> #[trigger] bit_set(p[i as int], q) == fen_places(rows, i, q),
        placement_valid(p@, white_occupation, black_occupation),
    ensures
        placement_sound(rows),
{
    assert forall|q: u32, a: u32, b: u32| q < 64 && a < 12 && b < 12 && #[trigger] fen_places(rows, a, q)
        && #[trigger] fen_places(rows, b, q) implies a == b by {
        assert(bit_set(p[a as int], q) && bit_set(p[b as int], q));
        if a != b {
            lemma_bits_of_ops(p[a as int], p[b as int], 0, 0, 0, 0, q);
            lemma_bits_of_ops(p[b as int], p[a as int], 0, 0, 0, 0, q);
            if a < b {
                assert(p@[a as int] & p@[b as int] == 0);
            } else {
                assert(p@[b as int] & p@[a as int] == 0);
            }
        }
    }
    crate::bitboard::lemma_one_bit_square(p[5]);
    let wk = p[5].trailing_zeros();
    assert(bit_set(p[5u32 as int], wk));
    assert forall|t: u32| t < 64 && #[trigger] fen_places(rows, 5, t) implies t == wk by {
        assert(bit_set(p[5u32 as int], t));
    }
    crate::bitboard::lemma_one_bit_square(p[11]);
    let bk = p[11].trailing_zeros();
    assert(bit_set(p[11u32 as int], bk));
    assert forall|t: u32| t < 64 && #[trigger] fen_places(rows, 11, t) implies t == bk by {
        assert(bit_set(p[11u32 as int], t));
    }
}

/// Whether `fen` is valid and its placement puts at most one piece on a
/// square and one king of each colour on the board.
pub fn placement_is_sound(fen: &String) -> (r: bool)
    ensures
        r == (fen_valid(fen@) && placement_sound(fen_rows(fen@))),
{
    let fields: Vec<Vec<char>> = match valid_fields(fen.as_str()) {
        Some(f) => f,
        None => {
            return false;
        },
    };
    let ghost fv = fields@.map_values(|v: Vec<char>| v@);
    assert(fv[0] == fields@[0]@);
    let rows: Vec<Vec<char>> = split_chars(&fields[0], '/');
    let (pieces, white_occupation, black_occupation) = match parse_placement(&rows, Ghost(fen@)) {
        Some(t) => t,
        None => {
            return false;
        },
    };
    let ok: bool = check_placement(&pieces, white_occupation, black_occupation);
    proof {
        if ok {
            lemma_placement_sound_of_valid(fen_rows(fen@), pieces, white_occupation, black_occupation);
        } else if placement_sound(fen_rows(fen@)) {
            lemma_sound_placement(fen_rows(fen@), pieces, white_occupation, black_occupation);
        }
    }
    ok
}

} // verus!