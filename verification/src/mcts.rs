//! Monte-Carlo tree search with UCT selection.  The tree lives in an arena:
//! node `k`'s children are arena indices, always larger than `k`, so the
//! walk down the tree terminates because every child position holds more
//! stones.  Node values are kept exactly, as the integer sum of simulation
//! results on a quadrupled scale: a win for X scores 4, a win for O scores
//! 0, and a filled board scores 2 nudged by one point toward the side
//! holding more captured blocks.  The UCT key blends that mean with a
//! fixed-point exploration bonus.

use vstd::prelude::*;
use crate::bits::{pop, bit_set};
use crate::bits::lemma_high_bits_zero;
use crate::board::{
    BoardRec, Idx, Position, Side, drawn, move_legal, over, pos_wf, total_occ, won,
    lemma_legal_mask_bits, legal_mask,
};
use crate::eval::spec_draw_sign;
use rand::rngs::SmallRng;
use rand::{Rng, SeedableRng};

verus! {

/// The chosen move and its estimated value on the quadrupled scale, as the
/// running mean numerator and denominator (sum of results, visits).
pub struct MCTSResult {
    pub best_move: Idx,
    pub value_sum: u64,
    pub visits: u32,
}

/// Relies on rand's SmallRng: an opaque random-number generator state.
#[verifier::external_type_specification]
#[verifier::external_body]
pub struct ExSmallRng(SmallRng);

/// Relies on rand's SeedableRng::seed_from_u64 for SmallRng: a generator
/// seeded deterministically from the given word.
#[verifier::external_body]
pub fn rng_from_seed(seed: u64) -> (r: SmallRng) {
    SmallRng::seed_from_u64(seed)
}

/// Relies on rand's Rng::gen_range: a value drawn from the half-open range
/// below `n`; nothing is assumed about which.
#[verifier::external_body]
fn rng_below(rng: &mut SmallRng, n: usize) -> (r: usize)
    requires
        n > 0,
    ensures
        r < n,
{
    rng.gen_range(0..n)
}

/// A word with `n` bits chosen uniformly among the 81 board cells, and no
/// others.
pub fn random_bits(rng: &mut SmallRng, n: u8) -> (r: u128)
    requires
        n < 81,
    ensures
        pop(r) == n,
        r >> 81u128 == 0,
{
    let mut mask: u128 = 0;
    let mut i: u8 = 0;
    proof {
        crate::bits::lemma_pop_zero128(128);
        assert forall|j: int| 0 <= j < 128 implies !bit_set(0u128, j) by {
            crate::bits::lemma_bit_zero(j);
        }
    }
    while i < n
        invariant
            n < 81,
            i <= n,
            pop(mask) == i,
            forall|j: int| 0 <= j < 128 && bit_set(mask, j) ==> j < 81,
        decreases n - i,
    {
        let free = !mask & crate::board::BOARD_OCC;
        proof {
            assert forall|j: int| 0 <= j < 128 implies (bit_set(free, j) <==> (j < 81 && !bit_set(
                mask,
                j,
            ))) by {
                crate::bits::lemma_bit_and(!mask, crate::board::BOARD_OCC, j);
                crate::bits::lemma_bit_not(mask, j);
                crate::board::lemma_board_occ_bit(j);
            }
            assert forall|j: int| 0 <= j < 128 implies (bit_set(mask | free, j) <==> bit_set(
                crate::board::BOARD_OCC,
                j,
            )) by {
                crate::bits::lemma_bit_or(mask, free, j);
                crate::board::lemma_board_occ_bit(j);
            }
            crate::bits::lemma_bit_ext(mask | free, crate::board::BOARD_OCC);
            crate::bits::lemma_pop_disjoint_or(mask, free, 128);
            assert forall|j: int| 0 <= j < 81 implies bit_set(crate::board::BOARD_OCC, j) by {
                crate::board::lemma_board_occ_bit(j);
            }
            assert forall|j: int|
                81 <= j < 128 implies !bit_set(crate::board::BOARD_OCC, j) by {
                crate::board::lemma_board_occ_bit(j);
            }
            crate::bits::lemma_pop_full(crate::board::BOARD_OCC, 81);
            crate::bits::lemma_pop_below_stable(crate::board::BOARD_OCC, 81, 128);
            assert(pop(free) == 81 - i);
        }
        let free_moves = crate::board::Moves::from_mask(free);
        let j = rng_below(rng, 81 - i as usize);
        let cell = free_moves.nth_move(j as u8);
        proof {
            assert(bit_set(free, cell as int));
            assert(cell < 81);
            crate::bits::lemma_pop_add(mask, cell as int);
            assert forall|j: int|
                0 <= j < 128 && #[trigger] bit_set(mask | (1u128 << (cell as u128)), j) implies j
                < 81 by {
                crate::bits::lemma_bit_or(mask, 1u128 << (cell as u128), j);
                crate::bits::lemma_bit_single(cell as int, j);
            }
        }
        mask = mask | (1u128 << (cell as u128));
        i = i + 1;
    }
    proof {
        crate::bits::lemma_high_bits_zero(mask, 81);
    }
    mask
}

/// The integer square root.
pub open spec fn is_isqrt(x: nat, r: nat) -> bool {
    r * r <= x < (r + 1) * (r + 1)
}

/// The integer square root, as a function: the largest root whose square
/// does not exceed the argument.
pub open spec fn spec_isqrt(x: nat) -> nat
    decreases x,
{
    if x == 0 {
        0
    } else {
        let p = spec_isqrt((x - 1) as nat);
        if (p + 1) * (p + 1) <= x {
            p + 1
        } else {
            p
        }
    }
}

pub proof fn lemma_spec_isqrt_correct(x: nat)
    ensures
        is_isqrt(x, spec_isqrt(x)),
    decreases x,
{
    if x == 0 {
        assert(spec_isqrt(0) == 0);
        assert(is_isqrt(0, 0)) by (nonlinear_arith);
    }
    if x > 0 {
        lemma_spec_isqrt_correct((x - 1) as nat);
        let p = spec_isqrt((x - 1) as nat);
        assert(p * p <= x - 1);
        assert(x - 1 < (p + 1) * (p + 1));
        if (p + 1) * (p + 1) <= x {
            assert(spec_isqrt(x) == p + 1);
            assert(x <= (p + 1) * (p + 1));
            assert((p + 1) * (p + 1) < (p + 2) * (p + 2)) by (nonlinear_arith);
            assert(is_isqrt(x, p + 1));
        } else {
            assert(spec_isqrt(x) == p);
            assert(is_isqrt(x, p));
        }
    }
}

/// Any two integer square roots of the same value agree.
pub proof fn lemma_isqrt_unique(x: nat, a: nat, b: nat)
    requires
        is_isqrt(x, a),
        is_isqrt(x, b),
    ensures
        a == b,
{
    if a < b {
        assert(b * b > x) by (nonlinear_arith)
            requires
                a < b && x < (a + 1) * (a + 1),
        ;
    }
    if b < a {
        assert(a * a > x) by (nonlinear_arith)
            requires
                b < a && x < (b + 1) * (b + 1),
        ;
    }
}

/// Integer square root of a 64-bit value.
fn isqrt(x: u64) -> (r: u64)
    ensures
        is_isqrt(x as nat, r as nat),
        r as nat == spec_isqrt(x as nat),
        r < 0x100000000,
{
    let mut lo: u64 = 0;
    let mut hi: u64 = 0x100000000;
    proof {
        assert((0x100000000u64 as nat) * (0x100000000u64 as nat) > x as nat)
            by (nonlinear_arith);
    }
    while lo + 1 < hi
        invariant
            lo < hi <= 0x100000000,
            (lo as nat) * (lo as nat) <= x as nat,
            (x as nat) < (hi as nat) * (hi as nat),
        decreases hi - lo,
    {
        let mid = lo + (hi - lo) / 2;
        proof {
            assert((mid as nat) * (mid as nat) <= (0xffffffffu64 as nat) * (0xffffffffu64 as nat))
                by (nonlinear_arith)
                requires
                    mid <= 0xffffffffu64,
            ;
        }
        if mid * mid <= x {
            lo = mid;
        } else {
            hi = mid;
        }
    }
    proof {
        lemma_spec_isqrt_correct(x as nat);
        lemma_isqrt_unique(x as nat, lo as nat, spec_isqrt(x as nat));
    }
    lo
}

/// Floor of the base-2 logarithm.
pub open spec fn spec_floor_log2(n: nat) -> nat
    decreases n,
{
    if n <= 1 {
        0
    } else {
        1 + spec_floor_log2(n / 2)
    }
}

/// A large base-2 logarithm forces a large argument.
proof fn lemma_floor_log2_ge(n: nat, k: nat)
    requires
        n >= 1,
        spec_floor_log2(n) >= k,
    ensures
        n >= vstd::arithmetic::power2::pow2(k),
    decreases k,
{
    if k == 0 {
        vstd::arithmetic::power2::lemma2_to64();
    } else {
        assert(n >= 2);
        lemma_floor_log2_ge(n / 2, (k - 1) as nat);
        vstd::arithmetic::power2::lemma_pow2_unfold(k);
    }
}

/// Floor of the base-2 logarithm of a visit count.
fn floor_log2(n: u32) -> (r: u32)
    requires
        n >= 1,
    ensures
        r as nat == spec_floor_log2(n as nat),
        r <= 31,
{
    let mut v: u32 = n;
    let mut r: u32 = 0;
    while v > 1
        invariant
            v >= 1,
            r <= 31,
            spec_floor_log2(n as nat) == r + spec_floor_log2(v as nat),
        decreases v,
    {
        proof {
            if r == 31 {
                lemma_floor_log2_ge(n as nat, 32);
                vstd::arithmetic::power2::lemma2_to64();
                assert(false);
            }
        }
        v = v / 2;
        r = r + 1;
    }
    r
}

/// The natural logarithm of a visit count in 16.16 fixed point: ln(2) times
/// the floor base-2 logarithm, a step approximation of the true logarithm.
pub open spec fn spec_ln_fp(n: nat) -> int {
    45426 * (spec_floor_log2(n) as int)
}

fn ln_fp(n: u32) -> (r: u64)
    requires
        n >= 1,
    ensures
        r as int == spec_ln_fp(n as nat),
        r <= 45426 * 31,
{
    45426 * (floor_log2(n) as u64)
}

/// The fixed-point UCT key of a child with result sum `sum` and `n` visits,
/// under a parent whose visit count has the 16.16 natural logarithm
/// `ln_fp`: the child's mean value on the 16.16 scale, signed for the
/// parent's side to move, plus the exploration bonus
/// `c * sqrt(ln(parent visits) / n)` computed with the integer square root.
pub open spec fn spec_uct_key(sum: u64, n: u32, ln_fp: u64, c_fp: u32, mult: int) -> int {
    mult * ((sum as int * 65536) / (4 * (n as int))) + ((c_fp as int) * (spec_isqrt(
        (((ln_fp as int) * 65536) / (n as int)) as nat,
    ) as int)) / 65536
}

/// One step of a principal variation: `child` is one of `node`'s children,
/// the step's statistics are that child's, and the step's move is legal in
/// `node`'s position.
pub open spec fn pv_step_ok(w: MCTSWorker, node: int, child: int, step: MCTSResult) -> bool {
    exists|k: int|
        0 <= k < w.n_children(node) && #[trigger] w.child_of(node, k) == child && step.visits
            == w.child_visits(node, k) && step.value_sum == w.child_sum(node, k) && move_legal(
            w.pos_of(node),
            step.best_move as int,
        )
}

/// A principal variation starts at the root and follows child edges: step
/// `t` of the line connects path node `t` to path node `t + 1`.
pub open spec fn pv_path_ok(w: MCTSWorker, path: Seq<int>, line: Seq<MCTSResult>) -> bool {
    &&& path.len() == line.len() + 1
    &&& path.len() >= 1 && path[0] == 0
    &&& forall|t: int| 0 <= t < path.len() ==> 0 <= #[trigger] path[t] < w.len()
    &&& forall|t: int|
        0 <= t < line.len() ==> #[trigger] pv_step_ok(w, path[t], path[t + 1], line[t])
}

/// The simulation result of a finished game on the quadrupled scale: a win
/// for X is worth 4, a win for O nothing, and a filled board 2 nudged by
/// one point toward the side holding more captured blocks.
pub open spec fn spec_terminal_value(p: BoardRec) -> int {
    if won(p, Side::X) {
        4
    } else if won(p, Side::O) {
        0
    } else {
        2 + spec_draw_sign(p)
    }
}

/// One tree node, split over the worker's parallel arrays: its position,
/// its children (arena indices), its visit count and its result sum.
pub struct MCTSWorker {
    positions: Vec<Position>,
    children: Vec<Vec<u32>>,
    visits: Vec<u32>,
    sums: Vec<u64>,
    c_fp: u32,
    rng: SmallRng,
}

impl MCTSWorker {
    /// Number of nodes in the arena.
    pub closed spec fn len(self) -> int {
        self.positions@.len() as int
    }

    /// Visit count of node `i`.
    pub closed spec fn visits_of(self, i: int) -> u32 {
        self.visits@[i]
    }

    /// Position of node `i`.
    pub closed spec fn pos_of(self, i: int) -> crate::board::BoardRec {
        self.positions@[i]@
    }

    /// Number of children of node `i`.
    pub closed spec fn n_children(self, i: int) -> int {
        self.children@[i]@.len() as int
    }

    /// Visit count of the `k`-th child of node `i`.
    pub closed spec fn child_visits(self, i: int, k: int) -> u32 {
        self.visits@[self.children@[i]@[k] as int]
    }

    /// Result sum of the `k`-th child of node `i`.
    pub closed spec fn child_sum(self, i: int, k: int) -> u64 {
        self.sums@[self.children@[i]@[k] as int]
    }

    /// Arena index of the `k`-th child of node `i`.
    pub closed spec fn child_of(self, i: int, k: int) -> int {
        self.children@[i]@[k] as int
    }

    /// The arena invariant: the parallel arrays agree, every node holds a
    /// well-formed position whose side to move has not already won, each
    /// child index points further right to a position with more stones, and
    /// a node's result sum never exceeds four times its visit count.
    pub closed spec fn wf(self) -> bool {
        &&& self.positions@.len() >= 1
        &&& self.positions@.len() < 0x100000000
        &&& self.children@.len() == self.positions@.len()
        &&& self.visits@.len() == self.positions@.len()
        &&& self.sums@.len() == self.positions@.len()
        &&& forall|i: int|
            0 <= i < self.positions@.len() ==> pos_wf(#[trigger] self.positions@[i]@)
        &&& forall|i: int|
            0 <= i < self.positions@.len() ==> !won(
                #[trigger] self.positions@[i]@,
                self.positions@[i]@.to_move,
            )
        &&& forall|i: int, k: int|
            0 <= i < self.positions@.len() && 0 <= k < self.children@[i]@.len() ==> {
                let c = #[trigger] self.children@[i]@[k];
                &&& i < c < self.positions@.len()
                &&& pop(total_occ(self.positions@[c as int]@)) > pop(total_occ(self.positions@[i]@))
            }
        &&& forall|i: int|
            0 <= i < self.positions@.len() ==> (#[trigger] self.sums@[i]) <= 4 * (
            self.visits@[i] as u64)
        &&& self.c_fp < 0x100000
    }

    /// A fresh worker with only the root node.  The exploration constant is
    /// given in 16.16 fixed point (0.85 is 55705).
    pub fn new(pos: Position, c_fp: u32, rng: SmallRng) -> (r: MCTSWorker)
        requires
            pos_wf(pos@),
            !won(pos@, pos@.to_move),
            c_fp < 0x100000,
        ensures
            r.wf(),
            r.len() == 1,
            r.pos_of(0) == pos@,
            r.visits_of(0) == 0,
            r.n_children(0) == 0,
            r.c_fp() == c_fp,
    {
        let mut positions: Vec<Position> = Vec::new();
        let mut children: Vec<Vec<u32>> = Vec::new();
        let mut visits: Vec<u32> = Vec::new();
        let mut sums: Vec<u64> = Vec::new();
        positions.push(pos);
        children.push(Vec::new());
        visits.push(0);
        sums.push(0);
        MCTSWorker { positions, children, visits, sums, c_fp, rng }
    }

    /// The value of a finished game on the quadrupled scale.
    fn terminal_value(pos: &Position) -> (r: u32)
        requires
            pos_wf(pos@),
        ensures
            r as int == spec_terminal_value(pos@),
            r <= 4,
    {
        if pos.is_won(Side::X) {
            4
        } else if pos.is_won(Side::O) {
            0
        } else {
            let sign = crate::eval::codingame_drawn(pos);
            proof {
                assert(-1 <= sign <= 1);
            }
            (2 + sign) as u32
        }
    }

    /// Plays uniformly random legal moves until the game ends and scores
    /// the final position.
    fn rollout(&mut self, pos: Position) -> (r: u32)
        requires
            pos_wf(pos@),
            !won(pos@, pos@.to_move),
        ensures
            r <= 4,
            final(self).wf() == old(self).wf(),
            final(self).positions == old(self).positions,
            final(self).children == old(self).children,
            final(self).visits == old(self).visits,
            final(self).sums == old(self).sums,
            final(self).c_fp == old(self).c_fp,
    {
        let mut cur = pos;
        loop
            invariant
                pos_wf(cur@),
                !won(cur@, cur@.to_move),
                self.positions == old(self).positions,
                self.children == old(self).children,
                self.visits == old(self).visits,
                self.sums == old(self).sums,
                self.c_fp == old(self).c_fp,
                self.wf() == old(self).wf(),
            decreases 128 - pop(total_occ(cur@)),
        {
            if cur.is_won(cur.side_to_move().other()) || cur.is_drawn() {
                return Self::terminal_value(&cur);
            }
            let moves = cur.legal_moves();
            let n_moves = moves.size();
            proof {
                crate::bits::lemma_pop_bound(moves@, 128);
                crate::bits::lemma_pop_nonzero(moves@);
            }
            let j = rng_below(&mut self.rng, n_moves);
            let mov = moves.nth_move(j as u8);
            proof {
                lemma_legal_mask_bits(cur@);
            }
            cur.make_move(mov);
            proof {
                crate::bits::lemma_pop_bound(total_occ(cur@), 128);
            }
        }
    }

    /// The UCT key of one child, in fixed point: the child's mean value
    /// signed for the parent's side to move, plus the exploration bonus
    /// `c * sqrt(ln(parent visits) / child visits)`.
    fn uct_key(&self, child_sum: u64, child_n: u32, parent_ln: u64, mult: i64) -> (r: i64)
        requires
            child_sum <= 4 * (child_n as u64),
            child_n >= 1,
            parent_ln <= 45426 * 31,
            self.c_fp() < 0x100000,
            mult == 1 || mult == -1,
        ensures
            r as int == spec_uct_key(child_sum, child_n, parent_ln, self.c_fp(), mult as int),
    {
        let value_fp = ((child_sum * 65536) / (4 * (child_n as u64))) as i64;
        let explore = (parent_ln * 65536) / (child_n as u64);
        let sq = isqrt(explore);
        proof {
            assert((parent_ln * 65536) <= 45426 * 31 * 65536) by (nonlinear_arith)
                requires
                    parent_ln <= 45426 * 31,
            ;
            assert(child_sum * 65536 <= 4 * (child_n as u64) * 65536) by (nonlinear_arith)
                requires
                    child_sum <= 4 * (child_n as u64),
            ;
            assert(child_sum * 65536 / (4 * (child_n as u64)) <= 65536) by (nonlinear_arith)
                requires
                    child_sum * 65536 <= 4 * (child_n as u64) * 65536 && child_n >= 1,
            ;
            // sq * sq <= explore <= 45426*31*65536 < 2^37, so sq < 2^19
            assert(is_isqrt(explore as nat, sq as nat));
            assert(sq < 0x80000) by (nonlinear_arith)
                requires
                    (sq as nat) * (sq as nat) <= explore as nat,
                    explore <= 45426 * 31 * 65536,
            ;
        }
        proof {
            assert((self.c_fp() as u64) * sq < 0x8000000000) by (nonlinear_arith)
                requires
                    self.c_fp() < 0x100000 && sq < 0x80000,
            ;
        }
        let bonus = ((self.c_fp_exec() as u64) * sq) / 65536;
        mult * value_fp + bonus as i64
    }

    /// UCT child selection at node `i`: an unvisited child is always
    /// preferred (the first one), and otherwise the first child maximizing
    /// the fixed-point UCT key is returned.
    fn select_move(&self, i: usize, parent_ln: u64, mult: i64) -> (k: usize)
        requires
            self.wf(),
            (i as int) < self.len(),
            self.n_children(i as int) > 0,
            parent_ln <= 45426 * 31,
            mult == 1 || mult == -1,
        ensures
            (k as int) < self.n_children(i as int),
            self.child_visits(i as int, k as int) == 0 ==> forall|t: int|
                0 <= t < k ==> #[trigger] self.child_visits(i as int, t) != 0,
            self.child_visits(i as int, k as int) != 0 ==> forall|t: int|
                0 <= t < self.n_children(i as int) ==> (#[trigger] self.child_visits(i as int, t)
                    != 0 && spec_uct_key(
                    self.child_sum(i as int, k as int),
                    self.child_visits(i as int, k as int),
                    parent_ln,
                    self.c_fp(),
                    mult as int,
                ) >= spec_uct_key(
                    self.child_sum(i as int, t),
                    self.child_visits(i as int, t),
                    parent_ln,
                    self.c_fp(),
                    mult as int,
                )),
    {
        let n_children = self.children[i].len();
        let mut best_k: usize = 0;
        let mut best_key: i64 = 0;
        let mut have = false;
        let mut k: usize = 0;
        while k < n_children
            invariant
                self.wf(),
                (i as int) < self.len(),
                n_children == self.n_children(i as int),
                n_children > 0,
                k <= n_children,
                parent_ln <= 45426 * 31,
                mult == 1 || mult == -1,
                have <==> k > 0,
                have ==> (best_k < k && self.child_visits(i as int, best_k as int) != 0
                    && best_key as int == spec_uct_key(
                    self.child_sum(i as int, best_k as int),
                    self.child_visits(i as int, best_k as int),
                    parent_ln,
                    self.c_fp(),
                    mult as int,
                )),
                forall|t: int| 0 <= t < k ==> #[trigger] self.child_visits(i as int, t) != 0,
                have ==> forall|t: int|
                    0 <= t < k ==> best_key as int >= spec_uct_key(
                        self.child_sum(i as int, t),
                        #[trigger] self.child_visits(i as int, t),
                        parent_ln,
                        self.c_fp(),
                        mult as int,
                    ),
            decreases n_children - k,
        {
            let ci = self.children[i][k] as usize;
            let cn = self.visits[ci];
            if cn == 0 {
                return k;
            }
            let key = self.uct_key(self.sums[ci], cn, parent_ln, mult);
            if !have || key > best_key {
                have = true;
                best_key = key;
                best_k = k;
            }
            proof {
                assert(self.child_visits(i as int, k as int) == self.visits@[self.children@[i as int]@[k as int] as int]);
                assert(self.child_sum(i as int, k as int) == self.sums@[self.children@[i as int]@[k as int] as int]);
            }
            k = k + 1;
        }
        best_k
    }

    pub closed spec fn c_fp(self) -> u32 {
        self.c_fp
    }

    fn c_fp_exec(&self) -> (r: u32)
        ensures
            r == self.c_fp(),
    {
        self.c_fp
    }

    /// One simulation: walks down the tree by UCT, expands or rolls out at
    /// a leaf, and adds the result to every node on the path.  Visit counts
    /// never decrease and the walked node's count grows (up to the counter
    /// cap), nodes are never removed, and existing nodes keep their
    /// positions.  A revisited terminal leaf neither rolls out nor expands:
    /// the arena keeps its size and the result is that position's terminal
    /// value.
    pub fn treewalk(&mut self, idx: u32) -> (r: u32)
        requires
            old(self).wf(),
            0 <= (idx as int) < old(self).len(),
        ensures
            final(self).wf(),
            r <= 4,
            final(self).len() >= old(self).len(),
            forall|i: int|
                0 <= i < old(self).len() ==> final(self).visits_of(i) >= old(self).visits_of(i),
            forall|i: int| 0 <= i < old(self).len() ==> final(self).pos_of(i) == old(self).pos_of(i),
            final(self).c_fp() == old(self).c_fp(),
            old(self).visits_of(idx as int) < 0xffffffffu32 ==> final(self).visits_of(idx as int)
                > old(self).visits_of(idx as int),
            (old(self).n_children(idx as int) == 0 && old(self).visits_of(idx as int) > 0 && (won(
                old(self).pos_of(idx as int),
                old(self).pos_of(idx as int).to_move.spec_other(),
            ) || drawn(old(self).pos_of(idx as int)))) ==> (final(self).len() == old(self).len()
                && r as int == spec_terminal_value(old(self).pos_of(idx as int))),
        decreases 128 - pop(total_occ(old(self).pos_of(idx as int))),
    {
        let i = idx as usize;
        let node_pos = self.positions[i];
        let node_n = self.visits[i];
        let n_children = self.children[i].len();
        let r: u32;
        if n_children == 0 {
            if node_n == 0 {
                // first visit: a rollout seeds the node's value
                r = self.rollout(node_pos);
                proof {
                    assert forall|c: int|
                        0 <= c < old(self).len() implies self.visits_of(c) >= old(self).visits_of(
                        c,
                    ) by {
                        assert(self.visits@ == old(self).visits@);
                    }
                }
            } else if node_pos.is_won(node_pos.side_to_move().other()) || node_pos.is_drawn() {
                // the game ended here: score the position directly
                r = Self::terminal_value(&node_pos);
            } else {
                // second visit: expand and walk into the first child
                let mut moves = node_pos.legal_moves();
                let first_child = self.positions.len();
                proof {
                    lemma_legal_mask_bits(node_pos@);
                }
                loop
                    invariant
                        self.wf(),
                        pos_wf(node_pos@),
                        !won(node_pos@, node_pos@.to_move),
                        !over(node_pos@),
                        (i as int) < self.len(),
                        self.len() >= old(self).len(),
                        self.positions@.len() < 0x100000000,
                        forall|j: int|
                            0 <= j < 128 ==> (bit_set(legal_mask(node_pos@), j) <==> move_legal(
                                node_pos@,
                                j,
                            )),
                        forall|j: int|
                            0 <= j < 128 ==> (bit_set(moves@, j) ==> (bit_set(
                                legal_mask(node_pos@),
                                j,
                            ))),
                        forall|c: int|
                            old(self).len() <= c < self.len() ==> pop(
                                total_occ(#[trigger] self.positions@[c]@),
                            ) > pop(total_occ(node_pos@)),
                        forall|c: int|
                            0 <= c < old(self).len()
                                ==> #[trigger] self.positions@[c] == old(self).positions@[c],
                        forall|c: int|
                            0 <= c < old(self).len() ==> #[trigger] self.visits@[c] == old(
                                self,
                            ).visits@[c],
                        forall|c: int|
                            0 <= c < old(self).len() ==> #[trigger] self.children@[c] == old(
                                self,
                            ).children@[c],
                        self.positions@[i as int] == old(self).positions@[i as int],
                        self.c_fp == old(self).c_fp,
                        node_pos@ == self.positions@[i as int]@,
                    decreases pop(moves@),
                {
                    let ghost pre = moves@;
                    let next = moves.next();
                    match next {
                        None => {
                            break ;
                        },
                        Some(mov) => {
                            if self.positions.len() >= 0xfffffff0usize {
                                break ;
                            }
                            proof {
                                assert(bit_set(pre, mov as int));
                                assert(move_legal(node_pos@, mov as int));
                            }
                            let mut child = node_pos;
                            child.make_move(mov);
                            self.positions.push(child);
                            self.children.push(Vec::new());
                            self.visits.push(0);
                            self.sums.push(0);
                        },
                    }
                }
                if self.positions.len() > first_child {
                    // record the children and walk into the first one
                    let mut kids: Vec<u32> = Vec::new();
                    let mut k = first_child;
                    while k < self.positions.len()
                        invariant
                            first_child <= k <= self.positions@.len(),
                            self.positions@.len() < 0x100000000,
                            kids@.len() == k - first_child,
                            forall|t: int|
                                0 <= t < kids@.len() ==> #[trigger] kids@[t] == first_child + t,
                        decreases self.positions@.len() - k,
                    {
                        kids.push(k as u32);
                        k = k + 1;
                    }
                    let ghost pre = *self;
                    self.children.set(i, kids);
                    proof {
                        assert forall|a: int, b: int|
                            0 <= a < self.positions@.len() && 0 <= b
                                < self.children@[a]@.len() implies {
                            let c = #[trigger] self.children@[a]@[b];
                            &&& a < c < self.positions@.len()
                            &&& pop(total_occ(self.positions@[c as int]@)) > pop(
                                total_occ(self.positions@[a]@),
                            )
                        } by {
                            if a != i as int {
                                assert(self.children@[a] == pre.children@[a]);
                            }
                        }
                        assert(self.wf());
                    }
                    let ghost mid = *self;
                    proof {
                        crate::bits::lemma_pop_bound(
                            total_occ(self.positions@[first_child as int]@),
                            128,
                        );
                        crate::bits::lemma_pop_bound(total_occ(old(self).positions@[idx as int]@), 128);
                        assert(pop(total_occ(self.positions@[first_child as int]@)) > pop(
                            total_occ(old(self).positions@[idx as int]@),
                        ));
                    }
                    r = self.treewalk(first_child as u32);
                    proof {
                        assert forall|c: int|
                            0 <= c < old(self).len() implies self.visits_of(c) >= old(
                            self,
                        ).visits_of(c) && self.pos_of(c) == old(self).pos_of(c) by {
                            assert(self.visits_of(c) >= mid.visits_of(c));
                            assert(mid.visits@[c] == old(self).visits@[c]);
                            assert(self.pos_of(c) == mid.pos_of(c));
                            assert(mid.positions@[c] == old(self).positions@[c]);
                        }
                    }
                } else {
                    // the arena is full: fall back to a plain rollout
                    let ghost before = *self;
                    r = self.rollout(node_pos);
                    proof {
                        assert forall|c: int|
                            0 <= c < old(self).len() implies self.visits_of(c) >= old(
                            self,
                        ).visits_of(c) by {
                            assert(self.visits@ == before.visits@);
                            assert(before.visits@[c] == old(self).visits@[c]);
                        }
                    }
                }
            }
        } else {
            // select the child by UCT and recurse
            let parent_ln = if node_n >= 1 {
                ln_fp(node_n)
            } else {
                0
            };
            let mult: i64 = match node_pos.side_to_move() {
                Side::X => 1,
                Side::O => -1,
            };
            let best_k = self.select_move(i, parent_ln, mult);
            let child_idx = self.children[i][best_k];
            proof {
                assert(self.children@[i as int]@[best_k as int] == child_idx);
                crate::bits::lemma_pop_bound(total_occ(self.positions@[child_idx as int]@), 128);
                crate::bits::lemma_pop_bound(total_occ(old(self).positions@[idx as int]@), 128);
                assert(pop(total_occ(self.positions@[child_idx as int]@)) > pop(
                    total_occ(old(self).positions@[idx as int]@),
                ));
            }
            let ghost before = *self;
            r = self.treewalk(child_idx);
            proof {
                assert forall|c: int|
                    0 <= c < old(self).len() implies self.visits_of(c) >= old(self).visits_of(
                    c,
                ) by {
                    assert(self.visits_of(c) >= before.visits_of(c));
                }
            }
        }
        // add the result to this node
        let ghost pre = *self;
        let n_now = self.visits[i];
        if n_now < 0xffffffffu32 {
            let s_now = self.sums[i];
            self.visits.set(i, n_now + 1);
            self.sums.set(i, s_now + r as u64);
        }
        proof {
            assert forall|c: int|
                0 <= c < old(self).len() implies #[trigger] self.visits_of(c) >= old(
                self,
            ).visits_of(c) by {
                assert(pre.visits_of(c) >= old(self).visits_of(c));
                if c != i as int {
                    assert(self.visits@[c] == pre.visits@[c]);
                }
            }
            assert forall|c: int|
                0 <= c < old(self).len() implies #[trigger] self.pos_of(c) == old(self).pos_of(
                c,
            ) by {
                assert(pre.pos_of(c) == old(self).pos_of(c));
            }
            assert(self.wf());
            // the walked node's count grows whenever it is below the cap
            if old(self).visits_of(i as int) < 0xffffffffu32 {
                assert(n_now == pre.visits_of(i as int));
                assert(pre.visits_of(i as int) >= old(self).visits_of(i as int));
                if n_now < 0xffffffffu32 {
                    assert(self.visits@[i as int] == n_now + 1);
                } else {
                    assert(self.visits@[i as int] == n_now);
                }
            }
        }
        r
    }
}


impl MCTSWorker {
    /// The most-visited root child (robust-child selection) with its exact
    /// visit statistics; any legal move when the root was never expanded.
    /// Whenever the root has no more children than legal moves (as the
    /// expansion step guarantees), the returned move, result sum and visit
    /// count all belong to one root child - the one whose rank among the
    /// legal moves the move's position encodes - and that child's visit
    /// count dominates every other's.
    pub fn get_best(&self) -> (r: MCTSResult)
        requires
            self.wf(),
            !over(self.pos_of(0)),
        ensures
            move_legal(self.pos_of(0), r.best_move as int),
            self.n_children(0) > 0 && self.n_children(0) <= pop(
                legal_mask(self.pos_of(0)),
            ) ==> forall|k: int|
                0 <= k < self.n_children(0) ==> r.visits >= self.child_visits(0, k),
            self.n_children(0) > 0 && self.n_children(0) <= pop(
                legal_mask(self.pos_of(0)),
            ) ==> exists|k: int|
                0 <= k < self.n_children(0) && crate::bits::pop_below(
                    legal_mask(self.pos_of(0)),
                    r.best_move as int,
                ) == k && r.visits == self.child_visits(0, k) && r.value_sum
                    == #[trigger] self.child_sum(0, k),
    {
        let root_pos = self.positions[0];
        let mut moves = root_pos.legal_moves();
        let ghost mask = moves@;
        proof {
            lemma_legal_mask_bits(root_pos@);
            crate::bits::lemma_pop_nonzero(moves@);
            crate::bits::lemma_pop_bound(moves@, 128);
        }
        let n_kids = self.children[0].len();
        let first = moves.any();
        let mut best_move: Idx = first;
        let mut best_visits: u32 = 0;
        let mut best_sum: u64 = 0;
        let mut k: usize = 0;
        let mut have = false;
        let ghost mut cur: int = 0;
        let ghost mut best_k: int = 0;
        while k < n_kids
            invariant
                self.wf(),
                n_kids == self.children@[0]@.len(),
                k <= n_kids,
                0 <= cur <= 128,
                move_legal(self.pos_of(0), best_move as int),
                root_pos@ == self.pos_of(0),
                mask == legal_mask(self.pos_of(0)),
                pop(moves@) + k >= pop(mask),
                crate::bits::pop_below(mask, cur) == k,
                forall|j: int|
                    0 <= j < 128 ==> (crate::bits::bit_set(mask, j) <==> move_legal(
                        self.pos_of(0),
                        j,
                    )),
                forall|j: int|
                    0 <= j < 128 ==> ((#[trigger] crate::bits::bit_set(moves@, j))
                        <==> (crate::bits::bit_set(mask, j) && j >= cur)),
                have <==> k > 0,
                have ==> forall|t: int| 0 <= t < k ==> best_visits >= self.child_visits(0, t),
                have ==> (0 <= best_k < k && crate::bits::pop_below(mask, best_move as int)
                    == best_k && best_visits == self.child_visits(0, best_k) && best_sum
                    == self.child_sum(0, best_k)),
            decreases n_kids - k,
        {
            let ghost premask = moves@;
            let next = moves.next();
            let mov = match next {
                None => {
                    proof {
                        if n_kids <= pop(mask) {
                            crate::bits::lemma_pop_zero128(128);
                            assert(pop(premask) == 0);
                            assert(false);
                        }
                    }
                    return MCTSResult { best_move, value_sum: best_sum, visits: best_visits };
                },
                Some(m) => m,
            };
            proof {
                assert(crate::bits::bit_set(premask, mov as int));
                assert(crate::bits::bit_set(mask, mov as int) && mov as int >= cur);
                assert forall|j: int| cur <= j < mov as int implies !crate::bits::bit_set(
                    mask,
                    j,
                ) by {
                    assert(!crate::bits::bit_set(premask, j));
                }
                crate::bits::lemma_pop_below_stable(mask, cur, mov as int);
                assert(crate::bits::pop_below(mask, mov as int) == k);
            }
            let ci = self.children[0][k] as usize;
            let cn = self.visits[ci];
            if !have || cn > best_visits {
                have = true;
                best_visits = cn;
                best_sum = self.sums[ci];
                best_move = mov;
                proof {
                    best_k = k as int;
                }
            }
            proof {
                assert(self.child_visits(0, k as int) == self.visits@[self.children@[0]@[k as int] as int]);
                assert(self.child_sum(0, k as int) == self.sums@[self.children@[0]@[k as int] as int]);
                assert forall|j: int|
                    0 <= j < 128 implies (crate::bits::bit_set(moves@, j) <==> (
                crate::bits::bit_set(mask, j) && j >= mov as int + 1)) by {
                    if crate::bits::bit_set(moves@, j) {
                        assert(crate::bits::bit_set(premask, j) && j != mov as int);
                        if j < mov as int {
                            assert(!crate::bits::bit_set(premask, j));
                        }
                    }
                }
                cur = mov as int + 1;
            }
            k = k + 1;
        }
        proof {
            if n_kids > 0 && n_kids <= pop(mask) {
                assert(forall|t: int|
                    0 <= t < self.n_children(0) ==> best_visits >= self.child_visits(0, t));
                assert(0 <= best_k < self.n_children(0) && crate::bits::pop_below(
                    mask,
                    best_move as int,
                ) == best_k && best_visits == self.child_visits(0, best_k) && best_sum
                    == self.child_sum(0, best_k));
            }
        }
        MCTSResult { best_move, value_sum: best_sum, visits: best_visits }
    }

    /// Runs the given number of simulations from the root and returns the
    /// most-visited root child: the move, result sum and visit count all
    /// come from one root child whose visit count dominates every other's
    /// (robust-child selection).  Nodes are never removed and visit counts
    /// never decrease, however many further rounds are run; every round
    /// visits the root, so its count grows by the round count (up to the
    /// counter cap).
    pub fn go(&mut self, rounds: u32) -> (r: MCTSResult)
        requires
            old(self).wf(),
            !over(old(self).pos_of(0)),
        ensures
            final(self).wf(),
            move_legal(old(self).pos_of(0), r.best_move as int),
            final(self).len() >= old(self).len(),
            forall|i: int|
                0 <= i < old(self).len() ==> final(self).visits_of(i) >= old(self).visits_of(i),
            forall|i: int| 0 <= i < old(self).len() ==> final(self).pos_of(i) == old(self).pos_of(i),
            final(self).visits_of(0) as int >= (if old(self).visits_of(0) as int + rounds as int
                <= 0xffffffff {
                old(self).visits_of(0) as int + rounds as int
            } else {
                0xffffffffint
            }),
            final(self).n_children(0) > 0 && final(self).n_children(0) <= pop(
                legal_mask(old(self).pos_of(0)),
            ) ==> forall|k: int|
                0 <= k < final(self).n_children(0) ==> r.visits >= final(self).child_visits(0, k),
            final(self).n_children(0) > 0 && final(self).n_children(0) <= pop(
                legal_mask(old(self).pos_of(0)),
            ) ==> exists|k: int|
                0 <= k < final(self).n_children(0) && crate::bits::pop_below(
                    legal_mask(old(self).pos_of(0)),
                    r.best_move as int,
                ) == k && r.visits == final(self).child_visits(0, k) && r.value_sum
                    == #[trigger] final(self).child_sum(0, k),
    {
        let mut t: u32 = 0;
        while t < rounds
            invariant
                self.wf(),
                t <= rounds,
                self.len() >= old(self).len(),
                forall|i: int|
                    0 <= i < old(self).len() ==> self.visits_of(i) >= old(self).visits_of(i),
                forall|i: int|
                    0 <= i < old(self).len() ==> self.pos_of(i) == old(self).pos_of(i),
                self.visits_of(0) as int >= (if old(self).visits_of(0) as int + t as int
                    <= 0xffffffff {
                    old(self).visits_of(0) as int + t as int
                } else {
                    0xffffffffint
                }),
            decreases rounds - t,
        {
            let ghost before = *self;
            self.treewalk(0);
            proof {
                assert forall|i: int|
                    0 <= i < old(self).len() implies self.visits_of(i) >= old(self).visits_of(
                    i,
                ) by {
                    assert(self.visits_of(i) >= before.visits_of(i));
                }
                if before.visits_of(0) < 0xffffffffu32 {
                    assert(self.visits_of(0) > before.visits_of(0));
                } else {
                    assert(self.visits_of(0) >= before.visits_of(0));
                }
            }
            t = t + 1;
        }
        self.get_best()
    }

    /// The principal variation: from the root, repeatedly the most-visited
    /// child, with its statistics, until an unexpanded or finished node.
    pub fn pv(&self) -> (r: Vec<MCTSResult>)
        requires
            self.wf(),
        ensures
            exists|path: Seq<int>| #[trigger] pv_path_ok(*self, path, r@),
    {
        let mut ret: Vec<MCTSResult> = Vec::new();
        let mut cur: usize = 0;
        let ghost mut path: Seq<int> = seq![0int];
        loop
            invariant
                self.wf(),
                (cur as int) < self.len(),
                path.len() == ret@.len() + 1,
                path[0] == 0,
                path.last() == cur as int,
                forall|t: int| 0 <= t < path.len() ==> 0 <= #[trigger] path[t] < self.len(),
                forall|t: int| 0 <= t < ret@.len() ==> #[trigger] pv_step_ok(
                    *self,
                    path[t],
                    path[t + 1],
                    ret@[t],
                ),
            decreases self.len() - cur,
        {
            let pos = self.positions[cur];
            if pos.is_over() {
                proof {
                    assert(pv_path_ok(*self, path, ret@));
                }
                return ret;
            }
            let n_kids = self.children[cur].len();
            if n_kids == 0 {
                proof {
                    assert(pv_path_ok(*self, path, ret@));
                }
                return ret;
            }
            let mut moves = pos.legal_moves();
            let first = moves.any();
            let mut best_move: Idx = first;
            let mut best_visits: u32 = 0;
            let mut best_sum: u64 = 0;
            let mut best_ci: usize = self.children[cur][0] as usize;
            let ghost mut best_k: int = 0;
            let mut k: usize = 0;
            let mut have = false;
            proof {
                lemma_legal_mask_bits(pos@);
                crate::bits::lemma_pop_nonzero(moves@);
            }
            while k < n_kids
                invariant
                    self.wf(),
                    (cur as int) < self.len(),
                    pos@ == self.pos_of(cur as int),
                    n_kids == self.children@[cur as int]@.len(),
                    n_kids > 0,
                    (best_ci as int) < self.len(),
                    (cur as int) < best_ci as int,
                    forall|j: int|
                        0 <= j < 128 ==> ((#[trigger] crate::bits::bit_set(moves@, j))
                            ==> move_legal(pos@, j)),
                    have ==> (0 <= best_k < n_kids && best_ci as int == self.child_of(
                        cur as int,
                        best_k,
                    ) && best_visits == self.child_visits(cur as int, best_k) && best_sum
                        == self.child_sum(cur as int, best_k) && move_legal(
                        pos@,
                        best_move as int,
                    )),
                    !have ==> k == 0,
                decreases n_kids - k,
            {
                let ghost premask = moves@;
                let next = moves.next();
                let mov = match next {
                    None => { break ; },
                    Some(m) => m,
                };
                proof {
                    assert(crate::bits::bit_set(premask, mov as int));
                }
                let ci = self.children[cur][k] as usize;
                let cn = self.visits[ci];
                if !have || cn > best_visits {
                    have = true;
                    best_visits = cn;
                    best_sum = self.sums[ci];
                    best_move = mov;
                    best_ci = ci;
                    proof {
                        best_k = k as int;
                        assert(self.child_visits(cur as int, k as int) == self.visits@[self.children@[cur as int]@[k as int] as int]);
                        assert(self.child_sum(cur as int, k as int) == self.sums@[self.children@[cur as int]@[k as int] as int]);
                    }
                }
                k = k + 1;
            }
            if !have {
                proof {
                    assert(pv_path_ok(*self, path, ret@));
                }
                return ret;
            }
            ret.push(MCTSResult { best_move, value_sum: best_sum, visits: best_visits });
            proof {
                assert(pv_step_ok(
                    *self,
                    cur as int,
                    best_ci as int,
                    MCTSResult { best_move, value_sum: best_sum, visits: best_visits },
                ));
                path = path.push(best_ci as int);
            }
            cur = best_ci;
        }
    }
}

} // verus!
