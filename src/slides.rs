//! Sliding rays on a board with blockers, and enumeration of blocker subsets.
use vstd::prelude::*;
use crate::bitboard::{bit_set, single, FILE_A, FILE_H, RANK_1, RANK_8, EDGES};

verus! {

/// `step` walks the board in one of the eight directions and `end` is the
/// edge that direction runs into.
pub open spec fn valid_dir(step: i32, end: u64) -> bool {
    ||| step == 1 && end == FILE_H
    ||| step == -1 && end == FILE_A
    ||| step == 8 && end == RANK_8
    ||| step == -8 && end == RANK_1
    ||| step == 9 && end == (FILE_H | RANK_8)
    ||| step == 7 && end == (FILE_A | RANK_8)
    ||| step == -7 && end == (FILE_H | RANK_1)
    ||| step == -9 && end == (FILE_A | RANK_1)
}

pub open spec fn on(bb: u64, s: int) -> bool {
    0 <= s < 64 && bit_set(bb, s as u32)
}

/// The squares a slider on `cur` reaches walking by `step`: every square up
/// to the first one that holds a blocker or lies on `end`; that last square
/// counts unless it is on the outer ring and `include_edge` is off.
pub open spec fn ray_bits(cur: int, step: int, end: u64, blockers: u64, include_edge: bool) -> u64
    decreases (if step > 0 { 64 - cur } else { cur + 1 }),
{
    if !(0 <= cur < 64) || step == 0 || on(end, cur) {
        0
    } else {
        let n = cur + step;
        if !(0 <= n < 64) {
            0
        } else if on(blockers, n) || on(end, n) {
            if !on(EDGES, n) || include_edge {
                single(n as u32)
            } else {
                0
            }
        } else {
            single(n as u32) | ray_bits(n, step, end, blockers, include_edge)
        }
    }
}

proof fn lemma_step_stays_on_board(cur: u64)
    by (bit_vector)
    requires
        cur < 64,
    ensures
        !bit_set(FILE_H, cur as u32) ==> cur + 1 < 64,
        !bit_set(FILE_A, cur as u32) ==> cur >= 1,
        !bit_set(RANK_8, cur as u32) ==> cur + 8 < 64,
        !bit_set(RANK_1, cur as u32) ==> cur >= 8,
        !bit_set(FILE_H | RANK_8, cur as u32) ==> cur + 9 < 64,
        !bit_set(FILE_A | RANK_8, cur as u32) ==> cur + 7 < 64,
        !bit_set(FILE_H | RANK_1, cur as u32) ==> cur >= 7,
        !bit_set(FILE_A | RANK_1, cur as u32) ==> cur >= 9,
{
}

proof fn lemma_or_assoc(a: u64, b: u64, c: u64)
    by (bit_vector)
    ensures
        (a | b) | c == a | (b | c),
        a | 0 == a,
        0 | a == a,
{
}

/// The squares reached from `sqr` walking by `step` until a blocker or the
/// edge `end_sqr_bb`.
pub fn slide_to_dir(sqr: u32, step: i32, end_sqr_bb: u64, blockers: u64, include_edge: bool) -> (r: u64)
    requires
        sqr < 64,
        valid_dir(step, end_sqr_bb),
    ensures
        r == ray_bits(sqr as int, step as int, end_sqr_bb, blockers, include_edge),
{
    let mut res: u64 = 0;
    let mut cur: u32 = sqr;
    proof {
        lemma_or_assoc(ray_bits(sqr as int, step as int, end_sqr_bb, blockers, include_edge), 0, 0);
    }
    if (end_sqr_bb >> cur) & 1 == 1 {
        return 0;
    }
    loop
        invariant
            cur < 64,
            valid_dir(step, end_sqr_bb),
            !on(end_sqr_bb, cur as int),
            res | ray_bits(cur as int, step as int, end_sqr_bb, blockers, include_edge) == ray_bits(
                sqr as int,
                step as int,
                end_sqr_bb,
                blockers,
                include_edge,
            ),
        decreases (if step > 0 { 64 - cur } else { cur + 1 }),
    {
        proof {
            lemma_step_stays_on_board(cur as u64);
        }
        let next: u32 = (cur as i32 + step) as u32;
        let tail = Ghost(ray_bits(next as int, step as int, end_sqr_bb, blockers, include_edge));
        proof {
            lemma_or_assoc(res, single(next), tail@);
            lemma_or_assoc(res, 0, 0);
        }
        if (blockers >> next) & 1 == 1 || (end_sqr_bb >> next) & 1 == 1 {
            if !((EDGES >> next) & 1 == 1) || include_edge {
                res = res | (1u64 << next);
            }
            return res;
        }
        res = res | (1u64 << next);
        cur = next;
    }
}

/// Squares a rook on `sqr` reaches with the given blockers.
pub open spec fn rook_rays(sqr: int, blockers: u64, include_edge: bool) -> u64 {
    ray_bits(sqr, 1, FILE_H, blockers, include_edge) | ray_bits(sqr, -1, FILE_A, blockers, include_edge)
        | ray_bits(sqr, -8, RANK_1, blockers, include_edge) | ray_bits(
        sqr,
        8,
        RANK_8,
        blockers,
        include_edge,
    )
}

/// Squares a bishop on `sqr` reaches with the given blockers.
pub open spec fn bishop_rays(sqr: int, blockers: u64, include_edge: bool) -> u64 {
    ray_bits(sqr, 9, FILE_H | RANK_8, blockers, include_edge) | ray_bits(
        sqr,
        7,
        FILE_A | RANK_8,
        blockers,
        include_edge,
    ) | ray_bits(sqr, -7, FILE_H | RANK_1, blockers, include_edge) | ray_bits(
        sqr,
        -9,
        FILE_A | RANK_1,
        blockers,
        include_edge,
    )
}

/// Rook slides from `sqr`, the first blocker in each direction included.
pub fn naive_rook_sliding(sqr: u32, blockers: u64, include_edge: bool) -> (r: u64)
    requires
        sqr < 64,
    ensures
        r == rook_rays(sqr as int, blockers, include_edge),
{
    let mut possible_slides: u64 = 0;
    possible_slides = possible_slides | slide_to_dir(sqr, 1, FILE_H, blockers, include_edge);
    possible_slides = possible_slides | slide_to_dir(sqr, -1, FILE_A, blockers, include_edge);
    possible_slides = possible_slides | slide_to_dir(sqr, -8, RANK_1, blockers, include_edge);
    possible_slides = possible_slides | slide_to_dir(sqr, 8, RANK_8, blockers, include_edge);
    proof {
        lemma_or_assoc(ray_bits(sqr as int, 1, FILE_H, blockers, include_edge), 0, 0);
    }
    possible_slides
}

/// Bishop slides from `sqr`, the first blocker in each direction included.
pub fn naive_bishop_sliding(sqr: u32, blockers: u64, include_edge: bool) -> (r: u64)
    requires
        sqr < 64,
    ensures
        r == bishop_rays(sqr as int, blockers, include_edge),
{
    let mut possible_slides: u64 = 0;
    possible_slides = possible_slides | slide_to_dir(sqr, 9, FILE_H | RANK_8, blockers, include_edge);
    possible_slides = possible_slides | slide_to_dir(sqr, 7, FILE_A | RANK_8, blockers, include_edge);
    possible_slides = possible_slides | slide_to_dir(sqr, -7, FILE_H | RANK_1, blockers, include_edge);
    possible_slides = possible_slides | slide_to_dir(sqr, -9, FILE_A | RANK_1, blockers, include_edge);
    proof {
        lemma_or_assoc(ray_bits(sqr as int, 9, FILE_H | RANK_8, blockers, include_edge), 0, 0);
    }
    possible_slides
}

/// `y` uses only squares of `mask`.
pub open spec fn submask(y: u64, mask: u64) -> bool {
    y & !mask == 0
}

proof fn lemma_next_submask(cur: u64, mask: u64)
    by (bit_vector)
    requires
        cur != 0,
        cur & !mask == 0,
    ensures
        ((cur - 1) as u64 & mask) < cur,
        ((cur - 1) as u64 & mask) & !mask == 0,
{
}

proof fn lemma_submask_le(y: u64, mask: u64)
    by (bit_vector)
    requires
        y & !mask == 0,
    ensures
        y <= mask,
{
}

proof fn lemma_no_submask_between(cur: u64, mask: u64, y: u64)
    by (bit_vector)
    requires
        cur != 0,
        cur & !mask == 0,
        y & !mask == 0,
        y < cur,
    ensures
        y <= ((cur - 1) as u64 & mask),
{
}

pub open spec fn blocker_mask(full: u64, no_edges: Option<u64>) -> u64 {
    match no_edges {
        Some(m) => full & m,
        None => full,
    }
}

/// Every subset of `full_attack_bb` (restricted to `attack_bb_no_edges` when
/// given), from the whole mask down to the empty set.
pub fn generate_all_blocker_masks(full_attack_bb: u64, attack_bb_no_edges: Option<u64>) -> (r: Vec<u64>)
    ensures
        r.len() >= 1,
        r@[0] == blocker_mask(full_attack_bb, attack_bb_no_edges),
        r@.last() == 0,
        forall|i: int| 0 <= i < r.len() ==> submask(#[trigger] r@[i], blocker_mask(full_attack_bb, attack_bb_no_edges)),
        forall|i: int, j: int| 0 <= i < j < r.len() ==> #[trigger] r@[j] < #[trigger] r@[i],
        forall|y: u64| submask(y, blocker_mask(full_attack_bb, attack_bb_no_edges)) ==> r@.contains(y),
{
    let mask: u64 = match attack_bb_no_edges {
        Some(m) => full_attack_bb & m,
        None => full_attack_bb,
    };
    assert(mask == blocker_mask(full_attack_bb, attack_bb_no_edges));
    let mut res: Vec<u64> = Vec::new();
    let mut cur: u64 = mask;
    assert(mask & !mask == 0) by (bit_vector);
    assert forall|y: u64| submask(y, mask) implies y <= mask by {
        lemma_submask_le(y, mask);
    }
    loop
        invariant
            mask == blocker_mask(full_attack_bb, attack_bb_no_edges),
            submask(cur, mask),
            res.len() == 0 ==> cur == mask,
            res.len() > 0 ==> res@[0] == mask && cur < res@.last(),
            forall|i: int| 0 <= i < res.len() ==> submask(#[trigger] res@[i], mask),
            forall|i: int, j: int| 0 <= i < j < res.len() ==> #[trigger] res@[j] < #[trigger] res@[i],
            forall|y: u64| submask(y, mask) && y > cur ==> res@.contains(y),
        decreases cur,
    {
        let ghost prev = res@;
        res.push(cur);
        assert(res@[res.len() - 1] == cur);
        assert(forall|y: u64| prev.contains(y) ==> res@.contains(y)) by {
            assert forall|y: u64| prev.contains(y) implies res@.contains(y) by {
                let k = choose|k: int| 0 <= k < prev.len() && prev[k] == y;
                assert(res@[k] == y);
            }
        }
        assert forall|i: int, j: int| 0 <= i < j < res.len() implies #[trigger] res@[j] < #[trigger] res@[i] by {
            if j == res.len() - 1 {
                if i < prev.len() - 1 {
                    assert(prev[prev.len() - 1] < prev[i]);
                }
            } else {
                assert(res@[j] == prev[j] && res@[i] == prev[i]);
            }
        }
        if cur == 0 {
            assert forall|y: u64| submask(y, mask) implies res@.contains(y) by {
                if y > cur {
                } else {
                    assert(res@[res.len() - 1] == y);
                }
            }
            assert(res@[0] == mask);
            assert(res@.last() == 0);
            assert(forall|i: int| 0 <= i < res.len() ==> submask(#[trigger] res@[i], mask));
            return res;
        }
        proof {
            lemma_next_submask(cur, mask);
            assert forall|y: u64| submask(y, mask) && y > ((cur - 1) as u64 & mask) implies res@.contains(y) by {
                if y < cur {
                    lemma_no_submask_between(cur, mask, y);
                } else if y == cur {
                    assert(res@[res.len() - 1] == y);
                }
            }
        }
        cur = (cur - 1) & mask;
    }
}

proof fn lemma_or_bits(a: u64, b: u64, t: u32)
    by (bit_vector)
    requires
        t < 64,
    ensures
        bit_set(a | b, t) == (bit_set(a, t) || bit_set(b, t)),
        bit_set(a & b, t) == (bit_set(a, t) && bit_set(b, t)),
        !bit_set(0, t),
{
}

/// A ray without its final edge square lies inside the ray with it.
proof fn lemma_ray_edge_inside(cur: int, step: int, end: u64, blockers: u64, t: u32)
    requires
        t < 64,
        bit_set(ray_bits(cur, step, end, blockers, false), t),
    ensures
        bit_set(ray_bits(cur, step, end, blockers, true), t),
    decreases (if step > 0 { 64 - cur } else { cur + 1 }),
{
    lemma_or_bits(0, 0, t);
    if 0 <= cur < 64 && step != 0 && !on(end, cur) {
        let n = cur + step;
        if 0 <= n < 64 && !(on(blockers, n) || on(end, n)) {
            lemma_or_bits(single(n as u32), ray_bits(n, step, end, blockers, false), t);
            lemma_or_bits(single(n as u32), ray_bits(n, step, end, blockers, true), t);
            if bit_set(ray_bits(n, step, end, blockers, false), t) {
                lemma_ray_edge_inside(n, step, end, blockers, t);
            }
        }
    }
}

/// Blockers outside `m` do not change a ray when `m` holds every square of
/// the ray short of its final edge square.
proof fn lemma_ray_mask(cur: int, step: int, end: u64, x: u64, m: u64)
    requires
        forall|t: u32| t < 64 && #[trigger] bit_set(ray_bits(cur, step, end, 0, false), t) ==> bit_set(m, t),
    ensures
        ray_bits(cur, step, end, x & m, true) == ray_bits(cur, step, end, x, true),
    decreases (if step > 0 { 64 - cur } else { cur + 1 }),
{
    if 0 <= cur < 64 && step != 0 && !on(end, cur) {
        let n = cur + step;
        if 0 <= n < 64 && !on(end, n) {
            let nn = n as u32;
            lemma_or_bits(x, m, nn);
            lemma_or_bits(0, 0, nn);
            lemma_or_bits(single(nn), ray_bits(n, step, end, 0, false), nn);
            crate::bitboard::lemma_bit_ops(0, nn, nn);
            assert(!on(0, n));
            assert(ray_bits(cur, step, end, 0, false) == single(nn) | ray_bits(n, step, end, 0, false));
            assert(bit_set(ray_bits(cur, step, end, 0, false), nn));
            assert(bit_set(m, nn));
            assert forall|t: u32| t < 64 && #[trigger] bit_set(ray_bits(n, step, end, 0, false), t) implies bit_set(m, t) by {
                lemma_or_bits(single(nn), ray_bits(n, step, end, 0, false), t);
                lemma_or_bits(0, 0, t);
                assert(bit_set(ray_bits(cur, step, end, 0, false), t));
            }
            lemma_ray_mask(n, step, end, x, m);
        }
    }
}

/// The relevant-blocker mask of a rook on `s`: its rays without their final
/// edge squares.
pub open spec fn rook_mask(s: int) -> u64 {
    rook_rays(s, 0, true) & rook_rays(s, 0, false)
}

pub open spec fn bishop_mask(s: int) -> u64 {
    bishop_rays(s, 0, true) & bishop_rays(s, 0, false)
}

proof fn lemma_dir_in_mask(s: int, step: int, end: u64, full: u64, no_edge: u64, t: u32)
    requires
        t < 64,
        bit_set(ray_bits(s, step, end, 0, false), t),
        forall|u: u32| u < 64 && bit_set(ray_bits(s, step, end, 0, true), u) ==> #[trigger] bit_set(full, u),
        forall|u: u32| u < 64 && bit_set(ray_bits(s, step, end, 0, false), u) ==> #[trigger] bit_set(no_edge, u),
    ensures
        bit_set(full & no_edge, t),
{
    lemma_ray_edge_inside(s, step, end, 0, t);
    lemma_or_bits(full, no_edge, t);
}

/// Slides over the blockers inside the relevant-blocker mask are the slides
/// over all blockers: a blocker on a final edge square never stops a ray.
pub proof fn lemma_masked_slides(s: int, x: u64)
    ensures
        rook_rays(s, x & rook_mask(s), true) == rook_rays(s, x, true),
        bishop_rays(s, x & bishop_mask(s), true) == bishop_rays(s, x, true),
{
    let rm = rook_mask(s);
    let bm = bishop_mask(s);
    assert forall|t: u32| t < 64 implies (bit_set(ray_bits(s, 1, FILE_H, 0, false), t) ==> bit_set(rm, t))
        && (bit_set(ray_bits(s, -1, FILE_A, 0, false), t) ==> bit_set(rm, t))
        && (bit_set(ray_bits(s, -8, RANK_1, 0, false), t) ==> bit_set(rm, t))
        && (bit_set(ray_bits(s, 8, RANK_8, 0, false), t) ==> bit_set(rm, t))
        && (bit_set(ray_bits(s, 9, FILE_H | RANK_8, 0, false), t) ==> bit_set(bm, t))
        && (bit_set(ray_bits(s, 7, FILE_A | RANK_8, 0, false), t) ==> bit_set(bm, t))
        && (bit_set(ray_bits(s, -7, FILE_H | RANK_1, 0, false), t) ==> bit_set(bm, t))
        && (bit_set(ray_bits(s, -9, FILE_A | RANK_1, 0, false), t) ==> bit_set(bm, t)) by {
        let r1 = ray_bits(s, 1, FILE_H, 0, true);
        let r2 = ray_bits(s, -1, FILE_A, 0, true);
        let r3 = ray_bits(s, -8, RANK_1, 0, true);
        let r4 = ray_bits(s, 8, RANK_8, 0, true);
        let e1 = ray_bits(s, 1, FILE_H, 0, false);
        let e2 = ray_bits(s, -1, FILE_A, 0, false);
        let e3 = ray_bits(s, -8, RANK_1, 0, false);
        let e4 = ray_bits(s, 8, RANK_8, 0, false);
        let b1 = ray_bits(s, 9, FILE_H | RANK_8, 0, true);
        let b2 = ray_bits(s, 7, FILE_A | RANK_8, 0, true);
        let b3 = ray_bits(s, -7, FILE_H | RANK_1, 0, true);
        let b4 = ray_bits(s, -9, FILE_A | RANK_1, 0, true);
        let f1 = ray_bits(s, 9, FILE_H | RANK_8, 0, false);
        let f2 = ray_bits(s, 7, FILE_A | RANK_8, 0, false);
        let f3 = ray_bits(s, -7, FILE_H | RANK_1, 0, false);
        let f4 = ray_bits(s, -9, FILE_A | RANK_1, 0, false);
        lemma_or_bits(r1 | r2 | r3, r4, t); lemma_or_bits(r1 | r2, r3, t); lemma_or_bits(r1, r2, t);
        lemma_or_bits(e1 | e2 | e3, e4, t); lemma_or_bits(e1 | e2, e3, t); lemma_or_bits(e1, e2, t);
        lemma_or_bits(b1 | b2 | b3, b4, t); lemma_or_bits(b1 | b2, b3, t); lemma_or_bits(b1, b2, t);
        lemma_or_bits(f1 | f2 | f3, f4, t); lemma_or_bits(f1 | f2, f3, t); lemma_or_bits(f1, f2, t);
        lemma_or_bits(rook_rays(s, 0, true), rook_rays(s, 0, false), t);
        lemma_or_bits(bishop_rays(s, 0, true), bishop_rays(s, 0, false), t);
        if bit_set(e1, t) { lemma_ray_edge_inside(s, 1, FILE_H, 0, t); }
        if bit_set(e2, t) { lemma_ray_edge_inside(s, -1, FILE_A, 0, t); }
        if bit_set(e3, t) { lemma_ray_edge_inside(s, -8, RANK_1, 0, t); }
        if bit_set(e4, t) { lemma_ray_edge_inside(s, 8, RANK_8, 0, t); }
        if bit_set(f1, t) { lemma_ray_edge_inside(s, 9, FILE_H | RANK_8, 0, t); }
        if bit_set(f2, t) { lemma_ray_edge_inside(s, 7, FILE_A | RANK_8, 0, t); }
        if bit_set(f3, t) { lemma_ray_edge_inside(s, -7, FILE_H | RANK_1, 0, t); }
        if bit_set(f4, t) { lemma_ray_edge_inside(s, -9, FILE_A | RANK_1, 0, t); }
    }
    lemma_ray_mask(s, 1, FILE_H, x, rm);
    lemma_ray_mask(s, -1, FILE_A, x, rm);
    lemma_ray_mask(s, -8, RANK_1, x, rm);
    lemma_ray_mask(s, 8, RANK_8, x, rm);
    lemma_ray_mask(s, 9, FILE_H | RANK_8, x, bm);
    lemma_ray_mask(s, 7, FILE_A | RANK_8, x, bm);
    lemma_ray_mask(s, -7, FILE_H | RANK_1, x, bm);
    lemma_ray_mask(s, -9, FILE_A | RANK_1, x, bm);
}

} // verus!