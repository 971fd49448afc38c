//! Classification of one 3x3 sub-board ("block"): for a pair of 9-bit
//! occupancies (own side, opposing side), how many more cells the own side
//! needs to complete one of the 8 winning lines, and how many lines achieve
//! that minimum.  The classification of every pair is precomputed once into a
//! lookup table.

use vstd::prelude::*;
use crate::bits::{pop_below, count_ones128, lemma_shr_zero_bits, lemma_pop_below_stable};

verus! {

/// A 9-bit occupancy of one 3x3 block, row-major from the top-left cell.
pub type B33 = u16;

/// Number of distinct (own, their) occupancy pairs: 2^18.
pub const N_BLOCK33: usize = 262144;

/// The 3 rows, 3 columns and 2 diagonals of a block, as 9-bit masks.
pub open spec fn line_mask(k: int) -> u16 {
    if k == 0 {
        0b111
    } else if k == 1 {
        0b111000
    } else if k == 2 {
        0b111000000
    } else if k == 3 {
        0b001001001
    } else if k == 4 {
        0b010010010
    } else if k == 5 {
        0b100100100
    } else if k == 6 {
        0b001010100
    } else {
        0b100010001
    }
}

/// The occupancy contains a complete winning line.
pub open spec fn occ_wins(occ: u16) -> bool {
    exists|k: int| 0 <= k < 8 && occ & line_mask(k) == line_mask(k)
}

/// Every line is blocked by the given (opposing) occupancy: the other side
/// can no longer win this block.
pub open spec fn occ_hopeless(their: u16) -> bool {
    forall|k: int| 0 <= k < 8 ==> their & line_mask(k) != 0
}

/// Number of set bits of a 16-bit mask.
pub open spec fn pop9(m: u16) -> nat {
    pop_below(m as u128, 16)
}

/// Cells the own side still needs on line `k`: 4 when the line is dead
/// (opponent present), else 3 minus the own stones already on the line.
pub open spec fn line_needed(own: u16, their: u16, k: int) -> int {
    if their & line_mask(k) != 0 {
        4
    } else if pop9(own & line_mask(k)) >= 3 {
        0
    } else {
        3 - pop9(own & line_mask(k))
    }
}

/// Minimum of `line_needed` over the first `n` lines (4 when none is live).
pub open spec fn min_needed_upto(own: u16, their: u16, n: int) -> int
    decreases n,
{
    if n <= 0 {
        4
    } else {
        let prev = min_needed_upto(own, their, n - 1);
        let cur = line_needed(own, their, n - 1);
        if cur < prev {
            cur
        } else {
            prev
        }
    }
}

/// Fewest additional cells the own side needs to capture the block;
/// 0 means already captured, 4 means no longer winnable.
pub open spec fn spec_min_needed(own: u16, their: u16) -> int {
    min_needed_upto(own, their, 8)
}

/// Number of lines among the first `n` that need exactly `v` more cells.
pub open spec fn routes_upto(own: u16, their: u16, n: int, v: int) -> nat
    decreases n,
{
    if n <= 0 {
        0
    } else {
        routes_upto(own, their, n - 1, v) + if line_needed(own, their, n - 1) == v {
            1nat
        } else {
            0nat
        }
    }
}

/// Number of winning lines that achieve the minimum (0 when the block is
/// unwinnable for the own side).
pub open spec fn spec_n_routes(own: u16, their: u16) -> nat {
    if spec_min_needed(own, their) == 4 {
        0
    } else {
        routes_upto(own, their, 8, spec_min_needed(own, their))
    }
}

/// Classification of one block for one side, packed into a byte:
/// the low 3 bits hold `min_needed`, the rest hold `n_routes`.
#[derive(Copy, Clone)]
pub struct BlockState(u8);

impl BlockState {
    pub closed spec fn spec_min(self) -> u8 {
        self.0 & 7
    }

    pub closed spec fn spec_routes(self) -> u8 {
        self.0 >> 3
    }

    /// Packs a classification; `min_needed` is 0 to 4, and a block that is
    /// still winnable has at least one route.
    pub fn new(min_needed: u8, n_routes: u8) -> (r: BlockState)
        requires
            min_needed <= 4,
            n_routes <= 8,
            min_needed == 4 ==> n_routes == 0,
            min_needed < 4 ==> n_routes >= 1,
        ensures
            r.spec_min() == min_needed,
            r.spec_routes() == n_routes,
    {
        let packed: u8 = min_needed | (n_routes << 3);
        proof {
            assert(min_needed <= 4 && n_routes <= 8 ==> ((min_needed | (n_routes << 3)) & 7
                == min_needed && (min_needed | (n_routes << 3)) >> 3 == n_routes)) by (bit_vector);
        }
        BlockState(packed)
    }

    /// Fewest additional cells needed to capture the block (4: unwinnable).
    pub fn min_needed(&self) -> (r: u8)
        ensures
            r == self.spec_min(),
    {
        self.0 & 7
    }

    /// Number of winning lines that achieve the minimum.
    pub fn n_routes(&self) -> (r: u8)
        ensures
            r == self.spec_routes(),
    {
        self.0 >> 3
    }
}

/// The classification `(own, their)` packs into table index `own + 512 * their`.
pub open spec fn own_of_idx(idx: int) -> u16 {
    (idx % 512) as u16
}

pub open spec fn their_of_idx(idx: int) -> u16 {
    ((idx / 512) % 512) as u16
}

/// The classification of a table entry is the one this module's spec
/// functions give for the pair the index encodes.
pub open spec fn entry_ok(bs: BlockState, own: u16, their: u16) -> bool {
    &&& bs.spec_min() == spec_min_needed(own, their)
    &&& bs.spec_routes() == spec_n_routes(own, their)
}

/// The precomputed classification of all 2^18 occupancy pairs.
pub struct BlockTable {
    table: Vec<BlockState>,
}

impl BlockTable {
    pub closed spec fn wf(self) -> bool {
        &&& self.table.len() == N_BLOCK33
        &&& forall|idx: int|
            0 <= idx < N_BLOCK33 ==> entry_ok(
                #[trigger] self.table[idx],
                own_of_idx(idx),
                their_of_idx(idx),
            )
    }

    /// Looks one pair up; the two occupancies must not overlap.
    pub fn get_block_state(&self, my_occ: B33, their_occ: B33) -> (r: BlockState)
        requires
            self.wf(),
            my_occ < 512,
            their_occ < 512,
            my_occ & their_occ == 0,
        ensures
            entry_ok(r, my_occ, their_occ),
    {
        self.get_block_state_by_idx(my_occ as usize + 512 * their_occ as usize)
    }

    /// Looks a packed index up (low 9 bits: own occupancy; next 9: theirs).
    pub fn get_block_state_by_idx(&self, idx: usize) -> (r: BlockState)
        requires
            self.wf(),
            idx < N_BLOCK33,
        ensures
            entry_ok(r, own_of_idx(idx as int), their_of_idx(idx as int)),
    {
        self.table[idx]
    }
}

/// Number of set bits of a 16-bit mask.
pub fn pop9_count(m: u16) -> (r: u8)
    ensures
        r == pop9(m),
        r <= 16,
{
    let wide: u128 = m as u128;
    let n = count_ones128(wide);
    proof {
        assert(wide >> 16u128 == 0) by (bit_vector)
            requires
                wide < 65536,
        ;
        lemma_shr_zero_bits(wide, 16);
        lemma_pop_below_stable(wide, 16, 128);
        crate::bits::lemma_pop_bound(wide, 16);
    }
    n as u8
}

/// The mask of line `k`.
fn line_mask_exec(k: usize) -> (r: u16)
    requires
        k < 8,
    ensures
        r == line_mask(k as int),
{
    match k {
        0 => 0b111,
        1 => 0b111000,
        2 => 0b111000000,
        3 => 0b001001001,
        4 => 0b010010010,
        5 => 0b100100100,
        6 => 0b001010100,
        _ => 0b100010001,
    }
}

/// Cells still needed on one line.
fn line_needed_exec(own: u16, their: u16, k: usize) -> (r: u8)
    requires
        k < 8,
    ensures
        r == line_needed(own, their, k as int),
        r <= 4,
{
    let mask = line_mask_exec(k);
    if their & mask != 0 {
        4
    } else {
        let p = pop9_count(own & mask);
        if p >= 3 {
            0
        } else {
            3 - p
        }
    }
}

/// Classifies one occupancy pair by scanning the 8 lines.
fn compute_block_state(own: u16, their: u16) -> (r: BlockState)
    ensures
        entry_ok(r, own, their),
{
    let mut min_c: u8 = 4;
    let mut routes: u8 = 0;
    let mut k: usize = 0;
    while k < 8
        invariant
            k <= 8,
            min_c == min_needed_upto(own, their, k as int),
            min_c <= 4,
            min_c == 4 ==> routes == 0,
            min_c < 4 ==> routes == routes_upto(own, their, k as int, min_c as int) && routes
                >= 1,
            routes <= k,
        decreases 8 - k,
    {
        let need = line_needed_exec(own, their, k);
        proof {
            lemma_routes_upto_bound(own, their, k as int, need as int);
        }
        if need < min_c {
            min_c = need;
            routes = 1;
            proof {
                lemma_routes_fresh_min(own, their, k as int, need as int);
            }
        } else if need == min_c && need < 4 {
            routes = routes + 1;
        }
        k = k + 1;
    }
    BlockState::new(min_c, routes)
}

/// A value smaller than the running minimum has not occurred among the lines
/// already scanned.
proof fn lemma_routes_fresh_min(own: u16, their: u16, n: int, v: int)
    requires
        0 <= n,
        v < min_needed_upto(own, their, n),
    ensures
        routes_upto(own, their, n, v) == 0,
    decreases n,
{
    if n > 0 {
        lemma_routes_fresh_min(own, their, n - 1, v);
    }
}

proof fn lemma_routes_upto_bound(own: u16, their: u16, n: int, v: int)
    requires
        0 <= n,
    ensures
        routes_upto(own, their, n, v) <= n,
    decreases n,
{
    if n > 0 {
        lemma_routes_upto_bound(own, their, n - 1, v);
    }
}

/// Builds the classification table for every occupancy pair.  The index of
/// the pair `(own, their)` is `own + 512 * their`.
pub fn init_moves() -> (r: BlockTable)
    ensures
        r.wf(),
{
    let mut table: Vec<BlockState> = Vec::new();
    let mut their: usize = 0;
    while their < 512
        invariant
            their <= 512,
            table.len() == 512 * their,
            forall|idx: int|
                0 <= idx < table.len() ==> entry_ok(
                    #[trigger] table[idx],
                    own_of_idx(idx),
                    their_of_idx(idx),
                ),
        decreases 512 - their,
    {
        let mut own: usize = 0;
        while own < 512
            invariant
                own <= 512,
                their < 512,
                table.len() == 512 * their + own,
                forall|idx: int|
                    0 <= idx < table.len() ==> entry_ok(
                        #[trigger] table[idx],
                        own_of_idx(idx),
                        their_of_idx(idx),
                    ),
            decreases 512 - own,
        {
            let bs = compute_block_state(own as u16, their as u16);
            proof {
                let idx = table.len() as int;
                assert(own_of_idx(idx) == own as u16);
                assert(their_of_idx(idx) == their as u16);
            }
            table.push(bs);
            own = own + 1;
        }
        their = their + 1;
    }
    BlockTable { table }
}

/// Laws of the classification: a block holding any completed winning line
/// is already captured for its side; the empty block needs exactly three
/// more cells (never zero, never unwinnable) and every line still counts.
pub proof fn lemma_block_state_laws(k: int)
    requires
        0 <= k < 8,
    ensures
        spec_min_needed(line_mask(k), 0) == 0,
        spec_min_needed(0x1ff, 0) == 0,
        spec_min_needed(0, 0) == 3,
        spec_n_routes(0, 0) == 8,
        occ_wins(line_mask(k)),
{
    assert(spec_min_needed(0u16, 0u16) == 3 && routes_upto(0u16, 0u16, 8, 3) == 8
        && spec_min_needed(0x1ffu16, 0u16) == 0) by (bit_vector);
    assert(line_mask(k) & line_mask(k) == line_mask(k)) by (bit_vector);
    if k == 0 {
        assert(spec_min_needed(0b111u16, 0u16) == 0) by (bit_vector);
    } else if k == 1 {
        assert(spec_min_needed(0b111000u16, 0u16) == 0) by (bit_vector);
    } else if k == 2 {
        assert(spec_min_needed(0b111000000u16, 0u16) == 0) by (bit_vector);
    } else if k == 3 {
        assert(spec_min_needed(0b001001001u16, 0u16) == 0) by (bit_vector);
    } else if k == 4 {
        assert(spec_min_needed(0b010010010u16, 0u16) == 0) by (bit_vector);
    } else if k == 5 {
        assert(spec_min_needed(0b100100100u16, 0u16) == 0) by (bit_vector);
    } else if k == 6 {
        assert(spec_min_needed(0b001010100u16, 0u16) == 0) by (bit_vector);
    } else {
        assert(spec_min_needed(0b100010001u16, 0u16) == 0) by (bit_vector);
    }
}

/// The block is captured: the occupancy completes a winning line.
pub fn get_block_won(occ: B33) -> (r: bool)
    requires
        occ < 512,
    ensures
        r == occ_wins(occ),
{
    let mut k: usize = 0;
    while k < 8
        invariant
            k <= 8,
            occ < 512,
            forall|j: int| 0 <= j < k ==> occ & line_mask(j) != line_mask(j),
        decreases 8 - k,
    {
        let mask = line_mask_exec(k);
        if occ & mask == mask {
            return true;
        }
        k = k + 1;
    }
    false
}

/// Winning is hopeless for the side opposing the given occupancy: every line
/// already holds one of these stones.
pub fn get_block_hopeless(occ: B33) -> (r: bool)
    requires
        occ < 512,
    ensures
        r == occ_hopeless(occ),
{
    let mut k: usize = 0;
    while k < 8
        invariant
            k <= 8,
            occ < 512,
            forall|j: int| 0 <= j < k ==> occ & line_mask(j) != 0,
        decreases 8 - k,
    {
        let mask = line_mask_exec(k);
        if occ & mask == 0 {
            return false;
        }
        k = k + 1;
    }
    true
}

} // verus!
