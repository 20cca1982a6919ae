//! Magic-multiplier lookup tables for rook and bishop slides.
use vstd::prelude::*;
use crate::slides::{
    rook_rays, bishop_rays, submask, naive_rook_sliding, naive_bishop_sliding,
    generate_all_blocker_masks, blocker_mask,
};

verus! {

/// Index of blocker set `x` in a table of `1 << bits` entries.
pub open spec fn magic_index(x: u64, magic: u64, bits: u32) -> int {
    (x.wrapping_mul(magic) >> ((64 - bits) as u64)) as int
}

/// The slides of a rook (`rook`) or bishop on `sqr` with blockers `x`.
pub open spec fn slides(sqr: int, x: u64, rook: bool) -> u64 {
    if rook { rook_rays(sqr, x, true) } else { bishop_rays(sqr, x, true) }
}

/// Per-square lookup tables, indexed by the relevant blockers times a magic
/// multiplier.
pub struct MagicBitboard {
    pub rook_slide_bbs: Vec<Vec<u64>>,
    pub bishop_slide_bbs: Vec<Vec<u64>>,
    pub rook_magics: [u64; 64],
    pub bishop_magics: [u64; 64],
    /// Relevant-blocker mask of each square.
    pub rook_masks: [u64; 64],
    pub bishop_masks: [u64; 64],
}

impl MagicBitboard {
    /// Relevant-blocker mask of `sqr` for a rook (`rook`) or bishop.
    pub open spec fn mask(&self, sqr: int, rook: bool) -> u64 {
        if rook { self.rook_masks[sqr] } else { self.bishop_masks[sqr] }
    }

    pub open spec fn magic(&self, sqr: int, rook: bool) -> u64 {
        if rook { self.rook_magics[sqr] } else { self.bishop_magics[sqr] }
    }

    pub open spec fn table(&self, sqr: int, rook: bool) -> Seq<u64> {
        if rook { self.rook_slide_bbs@[sqr]@ } else { self.bishop_slide_bbs@[sqr]@ }
    }

    /// Every table has its size, and the entry of every blocker subset of a
    /// square's mask holds the slides with those blockers.
    pub open spec fn wf(&self) -> bool {
        &&& self.rook_slide_bbs.len() == 64
        &&& self.bishop_slide_bbs.len() == 64
        &&& forall|s: int, rook: bool|
            0 <= s < 64 ==> #[trigger] self.table(s, rook).len() == 1u64 << index_bits(s, rook)
        &&& forall|s: int, rook: bool, x: u64|
            0 <= s < 64 && submask(x, self.mask(s, rook)) ==> #[trigger] self.table(s, rook)[magic_index(
                x,
                self.magic(s, rook),
                index_bits(s, rook),
            )] == slides(s, x, rook)
    }

    /// Builds the tables from the given relevant-blocker masks, checking each
    /// stored multiplier and searching a new one where `new_magics` is set or
    /// the stored one fails.
    pub fn init_magic(
        empty_board_attack_bbs: &[[u64; 64]; 12],
        rook_empty_board_attack_bbs_no_edges: &[u64; 64],
        bishop_empty_board_attack_bbs_no_edges: &[u64; 64],
        new_magics: bool,
    ) -> (r: Option<Self>)
        ensures
            !new_magics && stored_magics_fit(*empty_board_attack_bbs, *rook_empty_board_attack_bbs_no_edges,
                *bishop_empty_board_attack_bbs_no_edges) ==> r is Some,
            r matches Some(m) ==> m.wf() && (forall|s: int|
                0 <= s < 64 ==> m.mask(s, true) == blocker_mask(
                    empty_board_attack_bbs[3][s],
                    Some(rook_empty_board_attack_bbs_no_edges[s]),
                ) && m.mask(s, false) == blocker_mask(
                    empty_board_attack_bbs[2][s],
                    Some(bishop_empty_board_attack_bbs_no_edges[s]),
                )),
    {
        let rook_empty_board_attack_bbs: &[u64; 64] = &empty_board_attack_bbs[3];
        let bishop_empty_board_attack_bbs: &[u64; 64] = &empty_board_attack_bbs[2];
        let mut rook_magics: [u64; 64] = ROOK_MAGICS_MEMOIZED;
        let mut bishop_magics: [u64; 64] = BISHOP_MAGICS_MEMOIZED;
        let mut rook_masks: [u64; 64] = [0u64; 64];
        let mut bishop_masks: [u64; 64] = [0u64; 64];
        let mut rook_slide_bbs: Vec<Vec<u64>> = Vec::new();
        let mut bishop_slide_bbs: Vec<Vec<u64>> = Vec::new();
        let mut sqr: usize = 0;
        while sqr < 64
            invariant
                sqr <= 64,
                rook_slide_bbs.len() == sqr,
                bishop_slide_bbs.len() == sqr,
                forall|s: int| 0 <= s < sqr ==> rook_masks[s] == blocker_mask(
                    rook_empty_board_attack_bbs[s],
                    Some(rook_empty_board_attack_bbs_no_edges[s]),
                ) && bishop_masks[s] == blocker_mask(
                    bishop_empty_board_attack_bbs[s],
                    Some(bishop_empty_board_attack_bbs_no_edges[s]),
                ),
                forall|s: int| 0 <= s < sqr ==> table_ok(#[trigger] rook_slide_bbs@[s]@, s, true, rook_masks[s], rook_magics[s]),
                forall|s: int| 0 <= s < sqr ==> table_ok(#[trigger] bishop_slide_bbs@[s]@, s, false, bishop_masks[s], bishop_magics[s]),
                rook_empty_board_attack_bbs == empty_board_attack_bbs[3],
                bishop_empty_board_attack_bbs == empty_board_attack_bbs[2],
                !new_magics && stored_magics_fit(*empty_board_attack_bbs, *rook_empty_board_attack_bbs_no_edges,
                    *bishop_empty_board_attack_bbs_no_edges) ==> rook_magics == ROOK_MAGICS_MEMOIZED
                    && bishop_magics == BISHOP_MAGICS_MEMOIZED,
            decreases 64 - sqr,
        {
            let rook_masks_here: Vec<u64> = generate_all_blocker_masks(
                rook_empty_board_attack_bbs[sqr],
                Some(rook_empty_board_attack_bbs_no_edges[sqr]),
            );
            let bishop_masks_here: Vec<u64> = generate_all_blocker_masks(
                bishop_empty_board_attack_bbs[sqr],
                Some(bishop_empty_board_attack_bbs_no_edges[sqr]),
            );
            rook_masks[sqr] = rook_masks_here[0];
            bishop_masks[sqr] = bishop_masks_here[0];
            let rook_bits: u32 = index_bits_for(sqr as u32, true);
            let bishop_bits: u32 = index_bits_for(sqr as u32, false);
            proof {
                if !new_magics && stored_magics_fit(*empty_board_attack_bbs, *rook_empty_board_attack_bbs_no_edges,
                    *bishop_empty_board_attack_bbs_no_edges) {
                    assert(injective_on_submasks(rook_masks_here@[0], ROOK_MAGICS_MEMOIZED[sqr as int], rook_bits));
                    assert(injective_on_submasks(bishop_masks_here@[0], BISHOP_MAGICS_MEMOIZED[sqr as int], bishop_bits));
                    lemma_injective_collision_free(rook_masks_here@, ROOK_MAGICS_MEMOIZED[sqr as int], rook_bits);
                    lemma_injective_collision_free(bishop_masks_here@, BISHOP_MAGICS_MEMOIZED[sqr as int], bishop_bits);
                }
            }
            if new_magics || !magic_works(&rook_masks_here, rook_magics[sqr], rook_bits) {
                if !find_working(sqr as u32, true, &mut rook_magics, &rook_masks_here) {
                    return None;
                }
            }
            if new_magics || !magic_works(&bishop_masks_here, bishop_magics[sqr], bishop_bits) {
                if !find_working(sqr as u32, false, &mut bishop_magics, &bishop_masks_here) {
                    return None;
                }
            }
            let rook_lookup: Vec<u64> = build_table(
                sqr as u32,
                true,
                &rook_masks_here,
                rook_magics[sqr],
                rook_bits,
            );
            let bishop_lookup: Vec<u64> = build_table(
                sqr as u32,
                false,
                &bishop_masks_here,
                bishop_magics[sqr],
                bishop_bits,
            );
            rook_slide_bbs.push(rook_lookup);
            bishop_slide_bbs.push(bishop_lookup);
            sqr += 1;
        }
        let r = MagicBitboard {
            rook_slide_bbs,
            bishop_slide_bbs,
            rook_magics,
            bishop_magics,
            rook_masks,
            bishop_masks,
        };
        assert forall|s: int, rook: bool| 0 <= s < 64 implies #[trigger] r.table(s, rook).len() == 1u64
            << index_bits(s, rook) by {
            if rook {
                assert(table_ok(r.rook_slide_bbs@[s]@, s, true, rook_masks[s], rook_magics[s]));
            } else {
                assert(table_ok(r.bishop_slide_bbs@[s]@, s, false, bishop_masks[s], bishop_magics[s]));
            }
        }
        assert forall|s: int, rook: bool, x: u64|
            0 <= s < 64 && submask(x, r.mask(s, rook)) implies #[trigger] r.table(s, rook)[magic_index(
                x,
                r.magic(s, rook),
                index_bits(s, rook),
            )] == slides(s, x, rook) by {
            if rook {
                assert(table_ok(r.rook_slide_bbs@[s]@, s, true, rook_masks[s], rook_magics[s]));
            } else {
                assert(table_ok(r.bishop_slide_bbs@[s]@, s, false, bishop_masks[s], bishop_magics[s]));
            }
        }
        Some(r)
    }

    /// Table index of the relevant blockers `rel_blockers` on `sqr`.
    pub fn get_magic_idx(&self, sqr: usize, rel_blockers: u64, rook: bool) -> (r: usize)
        requires
            sqr < 64,
            self.wf(),
        ensures
            r == magic_index(rel_blockers, self.magic(sqr as int, rook), index_bits(sqr as int, rook)),
            r < self.table(sqr as int, rook).len(),
    {
        let bits: u32 = index_bits_for(sqr as u32, rook);
        let magic: u64 = if rook { self.rook_magics[sqr] } else { self.bishop_magics[sqr] };
        proof {
            lemma_index_in_range(rel_blockers.wrapping_mul(magic), bits);
        }
        ((rel_blockers.wrapping_mul(magic)) >> ((64 - bits) as u64)) as usize
    }

    /// Slides from `sqr` with the relevant blockers `rel_blockers`.
    pub fn lookup(&self, sqr: usize, rel_blockers: u64, rook: bool) -> (r: u64)
        requires
            sqr < 64,
            self.wf(),
            submask(rel_blockers, self.mask(sqr as int, rook)),
        ensures
            r == slides(sqr as int, rel_blockers, rook),
    {
        let idx = self.get_magic_idx(sqr, rel_blockers, rook);
        if rook {
            self.rook_slide_bbs[sqr][idx]
        } else {
            self.bishop_slide_bbs[sqr][idx]
        }
    }
}

/// `table` is a complete lookup table for square `s` with `mask` and `magic`.
pub open spec fn table_ok(table: Seq<u64>, s: int, rook: bool, mask: u64, magic: u64) -> bool {
    &&& table.len() == 1u64 << index_bits(s, rook)
    &&& forall|x: u64|
        submask(x, mask) ==> #[trigger] table[magic_index(x, magic, index_bits(s, rook))] == slides(
            s,
            x,
            rook,
        )
}

/// Number of index bits for a square: rooks 12 in corners, 11 on edges,
/// 10 inside; bishops 6 in corners, 9 in the centre, 7 around it, else 5.
pub open spec fn index_bits(s: int, rook: bool) -> u32 {
    let f = s % 8;
    let rk = s / 8;
    let file_edge = f == 0 || f == 7;
    let rank_edge = rk == 0 || rk == 7;
    if rook {
        if file_edge && rank_edge { 12 } else if file_edge || rank_edge { 11 } else { 10 }
    } else {
        if file_edge && rank_edge { 6 }
        else if 3 <= f <= 4 && 3 <= rk <= 4 { 9 }
        else if 2 <= f <= 5 && 2 <= rk <= 5 { 7 }
        else { 5 }
    }
}

fn index_bits_for(sqr: u32, rook: bool) -> (r: u32)
    requires
        sqr < 64,
    ensures
        r == index_bits(sqr as int, rook),
        5 <= r <= 12,
{
    let f: u32 = sqr % 8;
    let rk: u32 = sqr / 8;
    let file_edge: bool = f == 0 || f == 7;
    let rank_edge: bool = rk == 0 || rk == 7;
    if rook {
        if file_edge && rank_edge { 12 } else if file_edge || rank_edge { 11 } else { 10 }
    } else {
        if file_edge && rank_edge { 6 }
        else if 3 <= f && f <= 4 && 3 <= rk && rk <= 4 { 9 }
        else if 2 <= f && f <= 5 && 2 <= rk && rk <= 5 { 7 }
        else { 5 }
    }
}

proof fn lemma_index_in_range(v: u64, bits: u32)
    by (bit_vector)
    requires
        5 <= bits <= 12,
    ensures
        (v >> ((64 - bits) as u64)) < (1u64 << (bits as u64)),
        (1u64 << (bits as u64)) <= 4096,
{
}

proof fn lemma_magic_index_bound(x: u64, magic: u64, bits: u32)
    requires
        5 <= bits <= 12,
    ensures
        0 <= magic_index(x, magic, bits) < (1u64 << (bits as u64)),
{
    lemma_index_in_range(x.wrapping_mul(magic), bits);
}

/// The multiplier sends any two different blocker subsets of `mask` to
/// different indices.
pub open spec fn injective_on_submasks(mask: u64, magic: u64, bits: u32) -> bool {
    forall|x: u64, y: u64|
        submask(x, mask) && submask(y, mask) && x != y ==> #[trigger] magic_index(x, magic, bits) != #[trigger] magic_index(
            y,
            magic,
            bits,
        )
}

/// The stored multipliers are injective on the blocker subsets of every
/// square's relevant-blocker mask, built from the given attack sets.
pub open spec fn stored_magics_fit(attack: [[u64; 64]; 12], rook_no_edges: [u64; 64], bishop_no_edges: [u64; 64]) -> bool {
    forall|s: int| 0 <= s < 64 ==> {
        &&& #[trigger] injective_on_submasks(blocker_mask(attack[3][s], Some(rook_no_edges[s])), ROOK_MAGICS_MEMOIZED[s], index_bits(s, true))
        &&& injective_on_submasks(blocker_mask(attack[2][s], Some(bishop_no_edges[s])), BISHOP_MAGICS_MEMOIZED[s], index_bits(s, false))
    }
}

/// The stored multipliers are injective on the blocker subsets of every
/// square's relevant-blocker mask (its rays without their final edge
/// squares).
pub open spec fn stored_magics_work() -> bool {
    forall|s: int| 0 <= s < 64 ==> {
        &&& #[trigger] injective_on_submasks(rook_rays(s, 0, true) & rook_rays(s, 0, false), ROOK_MAGICS_MEMOIZED[s], index_bits(s, true))
        &&& injective_on_submasks(bishop_rays(s, 0, true) & bishop_rays(s, 0, false), BISHOP_MAGICS_MEMOIZED[s], index_bits(s, false))
    }
}

/// Tables built from the empty-board rays fit the stored multipliers when
/// these work.
pub proof fn lemma_stored_magics_fit(attack: [[u64; 64]; 12], rook_no_edges: [u64; 64], bishop_no_edges: [u64; 64])
    requires
        stored_magics_work(),
        forall|s: int| 0 <= s < 64 ==> attack[3][s] == rook_rays(s, 0, true) && rook_no_edges[s] == rook_rays(s, 0, false)
            && attack[2][s] == bishop_rays(s, 0, true) && bishop_no_edges[s] == bishop_rays(s, 0, false),
    ensures
        stored_magics_fit(attack, rook_no_edges, bishop_no_edges),
{
    assert forall|s: int| 0 <= s < 64 implies {
        &&& #[trigger] injective_on_submasks(blocker_mask(attack[3][s], Some(rook_no_edges[s])), ROOK_MAGICS_MEMOIZED[s], index_bits(s, true))
        &&& injective_on_submasks(blocker_mask(attack[2][s], Some(bishop_no_edges[s])), BISHOP_MAGICS_MEMOIZED[s], index_bits(s, false))
    } by {
        assert(injective_on_submasks(rook_rays(s, 0, true) & rook_rays(s, 0, false), ROOK_MAGICS_MEMOIZED[s], index_bits(s, true)));
    }
}

proof fn lemma_injective_collision_free(masks: Seq<u64>, magic: u64, bits: u32)
    requires
        masks.len() >= 1,
        injective_on_submasks(masks[0], magic, bits),
        forall|i: int| 0 <= i < masks.len() ==> submask(#[trigger] masks[i], masks[0]),
        forall|i: int, j: int| 0 <= i < j < masks.len() ==> #[trigger] masks[j] < #[trigger] masks[i],
    ensures
        collision_free(masks, magic, bits),
{
    assert forall|i: int, j: int| 0 <= i < j < masks.len() implies magic_index(#[trigger] masks[i], magic, bits)
        != magic_index(#[trigger] masks[j], magic, bits) by {
        assert(masks[j] < masks[i]);
        assert(submask(masks[i], masks[0]) && submask(masks[j], masks[0]));
    }
}

/// The multiplier maps the blocker subsets to pairwise different indices.
pub open spec fn collision_free(masks: Seq<u64>, magic: u64, bits: u32) -> bool {
    forall|i: int, j: int|
        0 <= i < j < masks.len() ==> magic_index(#[trigger] masks[i], magic, bits) != magic_index(
            #[trigger] masks[j],
            magic,
            bits,
        )
}

/// Tests whether `magic` sends no two of `all_block_masks` to the same index.
fn magic_works(all_block_masks: &Vec<u64>, magic: u64, bits: u32) -> (r: bool)
    requires
        5 <= bits <= 12,
    ensures
        r == collision_free(all_block_masks@, magic, bits),
{
    let capacity: usize = 1usize << bits;
    proof {
        lemma_index_in_range(0, bits);
        assert((1usize << bits) as int == (1u64 << (bits as u64)) as int) by (bit_vector)
            requires 5 <= bits <= 12;
    }
    let mut used: Vec<bool> = Vec::new();
    while used.len() < capacity
        invariant
            used.len() <= capacity,
            forall|u: int| 0 <= u < used.len() ==> !used@[u],
        decreases capacity - used.len(),
    {
        used.push(false);
    }
    let mut k: usize = 0;
    while k < all_block_masks.len()
        invariant
            used.len() == capacity,
            capacity as int == (1u64 << (bits as u64)) as int,
            5 <= bits <= 12,
            k <= all_block_masks.len(),
            collision_free(all_block_masks@.subrange(0, k as int), magic, bits),
            forall|i: int| 0 <= i < k ==> used@[magic_index(#[trigger] all_block_masks@[i], magic, bits)],
            forall|u: int| 0 <= u < capacity && #[trigger] used@[u] ==> exists|i: int|
                0 <= i < k && magic_index(all_block_masks@[i], magic, bits) == u,
        decreases all_block_masks.len() - k,
    {
        let x: u64 = all_block_masks[k];
        proof {
            lemma_index_in_range(x.wrapping_mul(magic), bits);
        }
        let idx: usize = ((x.wrapping_mul(magic)) >> ((64 - bits) as u64)) as usize;
        if used[idx] {
            proof {
                let i = choose|i: int| 0 <= i < k && magic_index(all_block_masks@[i], magic, bits) == idx;
                assert(magic_index(all_block_masks@[i], magic, bits) == magic_index(all_block_masks@[k as int], magic, bits));
            }
            return false;
        }
        let ghost before = used@;
        used.set(idx, true);
        proof {
            assert(idx as int == magic_index(x, magic, bits));
            assert(used@ == before.update(idx as int, true));
            assert forall|i: int| 0 <= i < k + 1 implies used@[magic_index(#[trigger] all_block_masks@[i], magic, bits)] by {
                lemma_magic_index_bound(all_block_masks@[i], magic, bits);
                if i < k {
                    assert(before[magic_index(all_block_masks@[i], magic, bits)]);
                }
            }
            let sub = all_block_masks@.subrange(0, k + 1);
            assert forall|i: int, j: int| 0 <= i < j < sub.len() implies magic_index(#[trigger] sub[i], magic, bits)
                != magic_index(#[trigger] sub[j], magic, bits) by {
                if j == k {
                    assert(before[magic_index(all_block_masks@[i], magic, bits)]);
                } else {
                    assert(all_block_masks@.subrange(0, k as int)[i] == sub[i]);
                    assert(all_block_masks@.subrange(0, k as int)[j] == sub[j]);
                }
            }
            assert forall|u: int| 0 <= u < capacity && #[trigger] used@[u] implies exists|i: int|
                0 <= i < k + 1 && magic_index(all_block_masks@[i], magic, bits) == u by {
                if u != idx {
                    let i = choose|i: int| 0 <= i < k && magic_index(all_block_masks@[i], magic, bits) == u;
                    assert(0 <= i < k + 1 && magic_index(all_block_masks@[i], magic, bits) == u);
                } else {
                    assert(magic_index(all_block_masks@[k as int], magic, bits) == u);
                }
            }
        }
        k += 1;
    }
    assert(all_block_masks@.subrange(0, k as int) =~= all_block_masks@);
    true
}

/// Fills the lookup table of `sqr` for a collision-free multiplier.
fn build_table(sqr: u32, rook: bool, all_block_masks: &Vec<u64>, magic: u64, bits: u32) -> (r: Vec<u64>)
    requires
        sqr < 64,
        bits == index_bits(sqr as int, rook),
        5 <= bits <= 12,
        collision_free(all_block_masks@, magic, bits),
        all_block_masks.len() >= 1,
        forall|y: u64| submask(y, all_block_masks@[0]) ==> all_block_masks@.contains(y),
    ensures
        table_ok(r@, sqr as int, rook, all_block_masks@[0], magic),
{
    let capacity: usize = 1usize << bits;
    proof {
        lemma_index_in_range(0, bits);
        assert((1usize << bits) as int == (1u64 << (bits as u64)) as int) by (bit_vector)
            requires 5 <= bits <= 12;
    }
    let mut lookup: Vec<u64> = Vec::new();
    while lookup.len() < capacity
        invariant
            lookup.len() <= capacity,
        decreases capacity - lookup.len(),
    {
        lookup.push(0);
    }
    let mut k: usize = 0;
    while k < all_block_masks.len()
        invariant
            lookup.len() == capacity,
            capacity as int == (1u64 << (bits as u64)) as int,
            5 <= bits <= 12,
            sqr < 64,
            k <= all_block_masks.len(),
            collision_free(all_block_masks@, magic, bits),
            forall|i: int| 0 <= i < k ==> lookup@[magic_index(#[trigger] all_block_masks@[i], magic, bits)]
                == slides(sqr as int, all_block_masks@[i], rook),
        decreases all_block_masks.len() - k,
    {
        let x: u64 = all_block_masks[k];
        proof {
            lemma_index_in_range(x.wrapping_mul(magic), bits);
        }
        let idx: usize = ((x.wrapping_mul(magic)) >> ((64 - bits) as u64)) as usize;
        let slide: u64 = if rook { naive_rook_sliding(sqr, x, true) } else { naive_bishop_sliding(sqr, x, true) };
        let ghost before = lookup@;
        lookup.set(idx, slide);
        proof {
            assert(idx as int == magic_index(x, magic, bits));
            assert(lookup@ == before.update(idx as int, slide));
            assert forall|i: int| 0 <= i < k + 1 implies lookup@[magic_index(#[trigger] all_block_masks@[i], magic, bits)]
                == slides(sqr as int, all_block_masks@[i], rook) by {
                lemma_magic_index_bound(all_block_masks@[i], magic, bits);
                if i < k {
                    assert(magic_index(all_block_masks@[i], magic, bits) != magic_index(all_block_masks@[k as int], magic, bits));
                    assert(before[magic_index(all_block_masks@[i], magic, bits)] == slides(sqr as int, all_block_masks@[i], rook));
                }
            }
        }
        k += 1;
    }
    proof {
        assert forall|x: u64| submask(x, all_block_masks@[0]) implies #[trigger] lookup@[magic_index(x, magic, index_bits(sqr as int, rook))]
            == slides(sqr as int, x, rook) by {
            assert(all_block_masks@.contains(x));
            let i = choose|i: int| 0 <= i < all_block_masks.len() && all_block_masks@[i] == x;
            assert(lookup@[magic_index(all_block_masks@[i], magic, bits)] == slides(sqr as int, all_block_masks@[i], rook));
        }
    }
    lookup
}

/// Searches random sparse multipliers until one is collision-free for
/// `all_block_masks`, storing it for `sqr`; gives up after a million tries.
fn find_working(sqr: u32, rook: bool, magic_arr: &mut [u64; 64], all_block_masks: &Vec<u64>) -> (found: bool)
    requires
        sqr < 64,
    ensures
        found ==> collision_free(all_block_masks@, final(magic_arr)[sqr as int], index_bits(sqr as int, rook)),
        forall|s: int| 0 <= s < 64 && s != sqr ==> final(magic_arr)[s] == old(magic_arr)[s],
        !found ==> *final(magic_arr) == *old(magic_arr),
{
    let bits_needed: u32 = index_bits_for(sqr, rook);
    let mut iterations: u32 = 0;
    while iterations < 1_000_000
        invariant
            bits_needed == index_bits(sqr as int, rook),
            5 <= bits_needed <= 12,
            sqr < 64,
            *magic_arr == *old(magic_arr),
        decreases 1_000_000 - iterations,
    {
        iterations += 1;
        let magic: u64 = match gen_random_magic() {
            Some(m) => m,
            None => {
                return false;
            },
        };
        if magic_works(all_block_masks, magic, bits_needed) {
            magic_arr[sqr as usize] = magic;
            return true;
        }
    }
    false
}

/// A random multiplier with few bits set: the AND of three draws; `None`
/// when a draw fails.
fn gen_random_magic() -> Option<u64> {
    let a: u64 = random_u64()?;
    let b: u64 = random_u64()?;
    let c: u64 = random_u64()?;
    Some(a & b & c)
}

/// Relies on `TryRngCore::try_next_u64` of `rand::rngs::OsRng`, a 64-bit
/// value from the operating system's random source, `None` when that
/// source fails; nothing is promised of the value.
#[verifier::external_body]
fn random_u64() -> Option<u64> {
    rand::TryRngCore::try_next_u64(&mut rand::rngs::OsRng).ok()
}

/// Multipliers known to be collision-free for the masks built here.
pub const ROOK_MAGICS_MEMOIZED: [u64; 64] = [36028866812190857, 918751921001480195, 180152849915977728, 36033745089742848, 36037594497941632, 9295432002603846656, 288232643903358017, 144115471560507428, 2307109648496377856, 1225542194631573760, 578994234328089344, 2414773893920760576, 10988923845510957056, 563109135777800, 19421781983166660, 306385530411553024, 141287298695722, 634143599763464, 477524498657054784, 324832019534078209, 19475649597015296, 4981122475183057408, 9228016925085270528, 18720285311192201, 144748577640579360, 2130202899698425857, 35186520623232, 2490526061776470032, 72061994240313344, 1173750867632328724, 13835111123898598913, 11529637269273067776, 9372167021304744576, 288799374526391557, 3603477849257808192, 18156544822611968, 5044172595289792768, 1174314171928421888, 144132788918980968, 6926817704036794434, 35459258417152, 18089577885614083, 1152992560562634773, 3459927797391818816, 144823273698394240, 9570166522642448, 581001805522272257, 290483280856350740, 1839491547406848, 322159092172032, 4647734608805249536, 2307109680969678976, 6599487923712, 281500813625600, 144187760273556480, 16343707789083136, 9147945618382913, 3179964649974019105, 11000359024214540418, 4785386543906981, 579275519385739266, 281483701125185, 216181652061160580, 1153202982033039681];

pub const BISHOP_MAGICS_MEMOIZED: [u64; 64] = [4543491443261712, 1172062919782072705, 24806807717281921, 1180093748382557265, 4756932470833942691, 586189300039750304, 23223889452598016, 720857694596186176, 1155191034062586498, 607485946888770, 9241395268031645952, 2258536570814496, 3477962004571103232, 4611704727852550144, 144188857780291616, 2310364477113241634, 581546013446245393, 40570914206714880, 9086510163034496, 579849481556598784, 1125994482180096, 281483571495432, 4684869651992219908, 227467004544746568, 58617163967374338, 1131019776370688, 9578971088289888, 1127004801861760, 72700259725221888, 73506751185436944, 36321267196363040, 883272119052474368, 613655049008066585, 6954721213199417664, 3459333107428362241, 4647787389656760448, 653094516018512000, 18369549374128193, 185211093021427720, 2310487967019696640, 2779295199698886784, 10380939545293168640, 9026994776838144, 578712827297009728, 76574426929308160, 2314871103517901064, 2259501260473344, 581106231889477792, 290772451599069187, 13844138105908498464, 1225102385815748608, 17798890258465, 297237644763594756, 2323927982660423828, 2343033183173640210, 22535663351005217, 761673511916028992, 9441801334790816321, 1155173374314955778, 2449963832292976640, 577305178307831296, 5188147389476702274, 1152947927265051169, 1155208523185944609];

} // verus!
