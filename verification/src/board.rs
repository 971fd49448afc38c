//! The board model.  Cells are indexed 0..81 block by block: index `9*b + j`
//! is cell `j` (row-major) of block `b` (row-major).  Each side's state is one
//! 128-bit word: bits 0..81 hold the played cells, bits 81..90 record which
//! blocks the side has captured.  A captured block is additionally filled
//! completely on the capturing side, so "this block is decided" is a single
//! bit test and further play there is impossible.

use vstd::prelude::*;
use crate::bits::{
    bit_set, pop, pop_below, count_ones128, trailing_zeros128, lemma_pop_bound, lemma_bit_or, lemma_bit_and,
    lemma_bit_not, lemma_bit_single, lemma_bit_zero, lemma_bit_ext, lemma_high_bits_zero,
    lemma_shr_zero_bits, lemma_pop_below_stable, lemma_pop_below_mono, lemma_pop_remove,
    lemma_pop_le, lemma_pop_lt,
};
use crate::block::{B33, occ_wins, occ_hopeless, line_mask, get_block_won, get_block_hopeless, pop9};

verus! {

/// A cell index, 0 to 80.
pub type Idx = u8;

/// A sentinel index meaning "no move".
pub const NULL_IDX: Idx = 88;

/// Mask of the 81 playable cells.
pub const BOARD_OCC: u128 = 0x1ffffffffffffffffffff;

/// The `last_block` value that lets the next player choose any block.
pub const ANY_BLOCK: u8 = 9;

#[derive(Copy, Clone, Debug, PartialEq, Eq, Structural)]
pub enum Side {
    X,
    O,
}

impl Side {
    /// The opposing side.
    pub fn other(&self) -> (r: Side)
        ensures
            r == self.spec_other(),
    {
        match self {
            Side::O => Side::X,
            Side::X => Side::O,
        }
    }

    pub open spec fn spec_other(self) -> Side {
        match self {
            Side::O => Side::X,
            Side::X => Side::O,
        }
    }

    /// Both sides, X first.
    pub fn iterator() -> (r: Vec<Side>)
        ensures
            r@ =~= seq![Side::X, Side::O],
    {
        let mut v: Vec<Side> = Vec::new();
        v.push(Side::X);
        v.push(Side::O);
        v
    }
}

#[derive(Copy, Clone, Debug, PartialEq, Eq, Structural)]
pub enum GameResult {
    XWon,
    OWon,
    Draw,
    Ongoing,
}

/// The 9-bit occupancy of block `b` (0 to 8) of one side's word; block 9 is
/// the mask of captured blocks.
pub open spec fn block_occ_at(bb: u128, b: int) -> u16 {
    ((bb >> ((9 * b) as u128)) & 0x1ff) as u16
}

/// Bit `j` of a 9-bit block occupancy.
pub open spec fn bit9(m: u16, j: int) -> bool {
    bit_set(m as u128, j)
}

/// Block `b` is captured (won) on this side's word.
pub open spec fn captured_at(bb: u128, b: int) -> bool {
    bit_set(bb, 81 + b)
}

// ---------------------------------------------------------------------------
// Bit-level lemmas about the board layout.
// ---------------------------------------------------------------------------

/// The playable-area mask holds exactly the bits 0..81.
pub proof fn lemma_board_occ_bit(i: int)
    requires
        0 <= i < 128,
    ensures
        bit_set(BOARD_OCC, i) <==> i < 81,
{
    let iu = i as u128;
    assert(((0x1ffffffffffffffffffffu128 >> iu) & 1 == 1) <==> iu < 81) by (bit_vector)
        requires
            iu < 128,
    ;
}

/// The fill mask of block `b` holds exactly the bits of that block.
pub proof fn lemma_block_fill_bit(b: int, i: int)
    requires
        0 <= b <= 9,
        0 <= i < 128,
    ensures
        bit_set(0x1ffu128 << ((9 * b) as u128), i) <==> 9 * b <= i < 9 * b + 9,
{
    let bu = b as u128;
    let iu = i as u128;
    assert((((0x1ffu128 << (9 * bu)) >> iu) & 1 == 1) <==> (9 * bu <= iu < 9 * bu + 9))
        by (bit_vector)
        requires
            bu <= 9 && iu < 128,
    ;
}

/// Bit `j` of a block's occupancy is the board bit `9*b + j`.
pub proof fn lemma_block_occ_bit(bb: u128, b: int, j: int)
    requires
        0 <= b <= 9,
        0 <= j < 16,
    ensures
        bit9(block_occ_at(bb, b), j) <==> (j < 9 && bit_set(bb, 9 * b + j)),
{
    let bu = b as u128;
    let ju = j as u128;
    assert((((((bb >> (9 * bu)) & 0x1ff) as u16) as u128 >> ju) & 1 == 1) <==> (ju < 9 && ((bb
        >> (9 * bu + ju)) & 1 == 1))) by (bit_vector)
        requires
            bu <= 9 && ju < 16,
    ;
}

/// A block occupancy is a 9-bit value.
pub proof fn lemma_block_occ_range(bb: u128, b: int)
    ensures
        block_occ_at(bb, b) < 512,
{
    let s = (9 * b) as u128;
    assert((((bb >> s) & 0x1ff) as u16) < 512) by (bit_vector);
}

/// Two 16-bit values with the same bits are equal.
pub proof fn lemma_bit9_ext(a: u16, b: u16)
    requires
        forall|j: int| 0 <= j < 16 ==> (bit9(a, j) <==> bit9(b, j)),
    ensures
        a == b,
{
    assert forall|j: int| 0 <= j < 128 implies (#[trigger] bit_set(a as u128, j) <==> bit_set(
        b as u128,
        j,
    )) by {
        if j < 16 {
            assert(bit9(a, j) <==> bit9(b, j));
        } else {
            let ju = j as u128;
            let au = a as u128;
            let bu = b as u128;
            assert(au < 65536 && 16 <= ju < 128 ==> ((au >> ju) & 1 != 1)) by (bit_vector);
            assert(bu < 65536 && 16 <= ju < 128 ==> ((bu >> ju) & 1 != 1)) by (bit_vector);
        }
    }
    lemma_bit_ext(a as u128, b as u128);
    assert(a as u128 == b as u128 ==> a == b) by (bit_vector);
}

/// Bitwise conjunction of 16-bit values, bit by bit.
pub proof fn lemma_bit9_and(a: u16, b: u16, j: int)
    requires
        0 <= j < 16,
    ensures
        bit9(a & b, j) <==> bit9(a, j) && bit9(b, j),
{
    let ju = j as u128;
    assert(((((a & b) as u128) >> ju) & 1 == 1) <==> ((((a as u128) >> ju) & 1 == 1) && (((
    b as u128) >> ju) & 1 == 1))) by (bit_vector);
}

/// Bitwise disjunction of 16-bit values, bit by bit.
pub proof fn lemma_bit9_or(a: u16, b: u16, j: int)
    requires
        0 <= j < 16,
    ensures
        bit9(a | b, j) <==> bit9(a, j) || bit9(b, j),
{
    let ju = j as u128;
    assert(((((a | b) as u128) >> ju) & 1 == 1) <==> ((((a as u128) >> ju) & 1 == 1) || (((
    b as u128) >> ju) & 1 == 1))) by (bit_vector);
}

/// A single-bit 16-bit mask.
pub proof fn lemma_bit9_single(k: int, j: int)
    requires
        0 <= k < 16,
        0 <= j < 16,
    ensures
        bit9(1u16 << (k as u16), j) <==> j == k,
{
    let ku = k as u16;
    let ju = j as u128;
    assert(((((1u16 << ku) as u128) >> ju) & 1 == 1) <==> ju == ku as u128) by (bit_vector)
        requires
            ku < 16 && ju < 16,
    ;
}

/// A complete winning line stays complete when stones are added.
pub proof fn lemma_wins_mono(a: u16, b: u16)
    requires
        a | b == b,
        occ_wins(a),
    ensures
        occ_wins(b),
{
    let k = choose|k: int| 0 <= k < 8 && a & line_mask(k) == line_mask(k);
    let l = line_mask(k);
    assert((a & l == l && a | b == b) ==> b & l == l) by (bit_vector);
}

/// Blocked lines stay blocked when stones are added.
pub proof fn lemma_hopeless_mono(a: u16, b: u16)
    requires
        a | b == b,
        occ_hopeless(a),
    ensures
        occ_hopeless(b),
{
    assert forall|k: int| 0 <= k < 8 implies b & line_mask(k) != 0 by {
        let l = line_mask(k);
        assert(a & l != 0);
        assert((a & l != 0 && a | b == b) ==> b & l != 0) by (bit_vector);
    }
}

/// The completely filled block is won.
pub proof fn lemma_full_block_wins()
    ensures
        occ_wins(0x1ff),
{
    assert(0x1ffu16 & 0b111u16 == 0b111u16) by (bit_vector);
    assert(0x1ffu16 & line_mask(0) == line_mask(0));
}

/// The empty block is not won, and blocks nobody.
pub proof fn lemma_empty_block()
    ensures
        !occ_wins(0),
        !occ_hopeless(0),
{
    assert forall|k: int| 0 <= k < 8 implies 0u16 & line_mask(k) != line_mask(k) by {
        let l = line_mask(k);
        assert(0u16 & l == 0) by (bit_vector);
        assert(l != 0);
    }
    assert(0u16 & line_mask(0) == 0) by (bit_vector);
    assert(line_mask(0) != 0);
}

// ---------------------------------------------------------------------------
// Move sets.
// ---------------------------------------------------------------------------

/// A set of cells, as an 81-bit mask.
#[derive(Copy, Clone)]
pub struct Moves(pub(crate) u128);

impl View for Moves {
    type V = u128;

    closed spec fn view(&self) -> u128 {
        self.0
    }
}

impl Moves {
    /// Wraps a raw mask as a move set.
    pub fn from_mask(m: u128) -> (r: Moves)
        ensures
            r@ == m,
    {
        Moves(m)
    }

    /// Number of cells in the set.
    pub fn size(&self) -> (r: usize)
        ensures
            r == pop(self@),
    {
        count_ones128(self.0) as usize
    }

    /// Whether the cell is in the set.
    pub fn contains(&self, index: Idx) -> (r: bool)
        requires
            index < 128,
        ensures
            r == bit_set(self@, index as int),
    {
        proof {
            crate::bits::lemma_bit_test(self.0, index as int);
        }
        self.0 & (1u128 << (index as u128)) != 0
    }

    /// Adds a cell.
    pub fn add(&mut self, index: Idx)
        requires
            index < 128,
        ensures
            final(self)@ == old(self)@ | (1u128 << (index as u128)),
            forall|j: int|
                0 <= j < 128 ==> (bit_set(final(self)@, j) <==> bit_set(old(self)@, j) || j
                    == index as int),
    {
        proof {
            let m = self.0 | (1u128 << (index as u128));
            assert forall|j: int|
                0 <= j < 128 implies (bit_set(m, j) <==> bit_set(self.0, j) || j
                == index as int) by {
                lemma_bit_or(self.0, 1u128 << (index as u128), j);
                lemma_bit_single(index as int, j);
            }
        }
        self.0 = self.0 | (1u128 << (index as u128));
    }

    /// Removes a cell.
    pub fn remove(&mut self, index: Idx)
        requires
            index < 128,
        ensures
            final(self)@ == old(self)@ & !(1u128 << (index as u128)),
            forall|j: int|
                0 <= j < 128 ==> (bit_set(final(self)@, j) <==> bit_set(old(self)@, j) && j
                    != index as int),
    {
        proof {
            let m = self.0 & !(1u128 << (index as u128));
            assert forall|j: int|
                0 <= j < 128 implies (bit_set(m, j) <==> bit_set(self.0, j) && j
                != index as int) by {
                lemma_bit_and(self.0, !(1u128 << (index as u128)), j);
                lemma_bit_not(1u128 << (index as u128), j);
                lemma_bit_single(index as int, j);
            }
        }
        self.0 = self.0 & !(1u128 << (index as u128));
    }

    /// The cells present in both sets.
    pub fn intersect(&self, other: Moves) -> (r: Moves)
        ensures
            r@ == self@ & other@,
            forall|j: int|
                0 <= j < 128 ==> (bit_set(r@, j) <==> bit_set(self@, j) && bit_set(other@, j)),
    {
        proof {
            assert forall|j: int|
                0 <= j < 128 implies (bit_set(self.0 & other.0, j) <==> bit_set(self.0, j)
                && bit_set(other.0, j)) by {
                lemma_bit_and(self.0, other.0, j);
            }
        }
        Moves(self.0 & other.0)
    }

    /// The cells of this set that the other set lacks.
    pub fn subtract(&self, other: Moves) -> (r: Moves)
        ensures
            r@ == self@ & !other@,
            forall|j: int|
                0 <= j < 128 ==> (bit_set(r@, j) <==> bit_set(self@, j) && !bit_set(other@, j)),
    {
        proof {
            assert forall|j: int|
                0 <= j < 128 implies (bit_set(self.0 & !other.0, j) <==> bit_set(self.0, j)
                && !bit_set(other.0, j)) by {
                lemma_bit_and(self.0, !other.0, j);
                lemma_bit_not(other.0, j);
            }
        }
        Moves(self.0 & !other.0)
    }

    /// The lowest cell of a non-empty set.
    pub fn any(&self) -> (r: Idx)
        requires
            self@ != 0,
        ensures
            r < 128,
            bit_set(self@, r as int),
            forall|j: int| 0 <= j < r ==> !bit_set(self@, j),
    {
        trailing_zeros128(self.0) as Idx
    }

    /// Takes the lowest cell out of the set; `None` once the set is empty.
    pub fn next(&mut self) -> (r: Option<Idx>)
        ensures
            old(self)@ == 0 ==> r is None && final(self)@ == 0,
            old(self)@ != 0 ==> match r {
                Some(i) => {
                    &&& i < 128
                    &&& bit_set(old(self)@, i as int)
                    &&& forall|j: int| 0 <= j < i ==> !bit_set(old(self)@, j)
                    &&& final(self)@ == old(self)@ & !(1u128 << (i as u128))
                    &&& forall|j: int|
                        0 <= j < 128 ==> (bit_set(final(self)@, j) <==> bit_set(old(self)@, j) && j
                            != i as int)
                    &&& pop(final(self)@) == pop(old(self)@) - 1
                },
                None => false,
            },
    {
        if self.0 == 0 {
            return None;
        }
        let i = trailing_zeros128(self.0) as Idx;
        proof {
            let m = self.0 & !(1u128 << (i as u128));
            assert forall|j: int|
                0 <= j < 128 implies (bit_set(m, j) <==> bit_set(self.0, j) && j != i as int) by {
                lemma_bit_and(self.0, !(1u128 << (i as u128)), j);
                lemma_bit_not(1u128 << (i as u128), j);
                lemma_bit_single(i as int, j);
            }
            lemma_pop_remove(self.0, i as int);
        }
        self.0 = self.0 & !(1u128 << (i as u128));
        Some(i)
    }

    /// The cell with exactly `n` set cells below it (rank select): the
    /// `n`-th member of the set in increasing order, counting from 0.
    pub fn nth_move(&self, n: u8) -> (r: Idx)
        requires
            (n as nat) < pop(self@),
        ensures
            r < 128,
            bit_set(self@, r as int),
            pop_below(self@, r as int) == n,
    {
        let m = self.0;
        let mut i: u8 = 0;
        let mut cnt: u8 = 0;
        while i < 128
            invariant
                i <= 128,
                cnt == pop_below(m, i as int),
                cnt <= n,
                (n as nat) < pop(m),
                m == self@,
            decreases 128 - i,
        {
            if (m >> (i as u128)) & 1 == 1 {
                if cnt == n {
                    return i;
                }
                cnt = cnt + 1;
            }
            i = i + 1;
        }
        proof {
            assert(pop_below(m, 128) <= n);
            assert(false);
        }
        0
    }
}

// ---------------------------------------------------------------------------
// The per-side bitboard.
// ---------------------------------------------------------------------------

/// One side's packed state: 81 cell bits and 9 captured-block bits.
#[derive(Copy, Clone)]
pub struct Bitboard(pub(crate) u128);

impl View for Bitboard {
    type V = u128;

    closed spec fn view(&self) -> u128 {
        self.0
    }
}

/// The word after placing a stone on cell `i`: the cell bit is set, and if
/// that completes a line of the block, the block's captured bit is set and
/// the whole block is filled.
pub open spec fn spec_bb_place(bb: u128, i: int) -> u128 {
    let b = i / 9;
    let placed = bb | (1u128 << (i as u128));
    if occ_wins(block_occ_at(placed, b)) {
        placed | (1u128 << ((81 + b) as u128)) | (0x1ffu128 << ((9 * b) as u128))
    } else {
        placed
    }
}

impl Bitboard {
    /// The empty board.
    pub fn new() -> (r: Bitboard)
        ensures
            r@ == 0u128,
    {
        Bitboard(0)
    }

    /// Wraps a raw word; crate-internal, callers establish well-formedness.
    pub(crate) fn from_word(w: u128) -> (r: Bitboard)
        ensures
            r@ == w,
    {
        Bitboard(w)
    }

    /// Places a stone; returns the block played in.
    pub fn set(&mut self, index: Idx) -> (bi: u8)
        requires
            index < 81,
        ensures
            bi == index as int / 9,
            final(self)@ == spec_bb_place(old(self)@, index as int),
    {
        self.0 = self.0 | (1u128 << (index as u128));
        let block_i = index / 9;
        let block = self.get_block(block_i);
        let won = get_block_won(block);
        if won {
            self.0 = (self.0 | (1u128 << ((81 + block_i) as u128))) | (0x1ffu128 << ((9
                * block_i) as u128));
        }
        block_i
    }

    /// Whether cell `index` holds a stone of this side.
    pub fn get(&self, index: Idx) -> (r: bool)
        requires
            index < 81,
        ensures
            r == bit_set(self@, index as int),
    {
        proof {
            crate::bits::lemma_bit_test(self.0, index as int);
        }
        self.0 & (1u128 << (index as u128)) != 0
    }

    /// The 9-bit occupancy of one block.
    pub fn get_block(&self, block_i: u8) -> (r: B33)
        requires
            block_i < 9,
        ensures
            r == block_occ_at(self@, block_i as int),
            r < 512,
    {
        proof {
            lemma_block_occ_range(self.0, block_i as int);
        }
        ((self.0 >> (9 * block_i as u128)) & 0x1ff) as u16
    }

    /// The mask of blocks this side has captured.
    pub fn captured_occ(&self) -> (r: B33)
        ensures
            r == block_occ_at(self@, 9),
            r < 512,
    {
        proof {
            lemma_block_occ_range(self.0, 9);
        }
        ((self.0 >> 81) & 0x1ff) as u16
    }

    /// Whether this side has captured block `block_i`.
    pub fn has_captured(&self, block_i: u8) -> (r: bool)
        requires
            block_i < 9,
        ensures
            r == captured_at(self@, block_i as int),
    {
        proof {
            crate::bits::lemma_bit_test(self.0, 81 + block_i as int);
        }
        self.0 & (1u128 << ((81 + block_i) as u128)) != 0
    }

    /// How many blocks this side has captured.
    pub fn n_captured(&self) -> (r: u8)
        ensures
            r == pop9(block_occ_at(self@, 9)),
            r <= 16,
    {
        crate::block::pop9_count(self.captured_occ())
    }
}

// ---------------------------------------------------------------------------
// The position.
// ---------------------------------------------------------------------------

/// The mathematical content of a `Position`.
pub ghost struct BoardRec {
    pub x: u128,
    pub o: u128,
    pub to_move: Side,
    pub hopeless_x: u16,
    pub hopeless_o: u16,
    pub last_block: u8,
}

pub open spec fn side_occ(p: BoardRec, s: Side) -> u128 {
    match s {
        Side::X => p.x,
        Side::O => p.o,
    }
}

pub open spec fn hopeless_mask(p: BoardRec, s: Side) -> u16 {
    match s {
        Side::X => p.hopeless_x,
        Side::O => p.hopeless_o,
    }
}

pub open spec fn total_occ(p: BoardRec) -> u128 {
    p.x | p.o
}

/// Well-formedness of one side's word: nothing above bit 90, a block is
/// marked captured exactly when its occupancy wins, and a captured block is
/// completely filled.
pub open spec fn bb_wf(bb: u128) -> bool {
    &&& bb >> 90u128 == 0
    &&& forall|b: int|
        0 <= b < 9 ==> (#[trigger] captured_at(bb, b) <==> occ_wins(block_occ_at(bb, b)))
    &&& forall|b: int| 0 <= b < 9 && #[trigger] captured_at(bb, b) ==> block_occ_at(bb, b) == 0x1ff
}

/// The position invariant: both words are well formed, the two sides never
/// overlap inside an undecided block, no block is captured by both sides, and
/// the cached hopeless masks agree with the occupancies.
pub open spec fn pos_wf(p: BoardRec) -> bool {
    &&& bb_wf(p.x)
    &&& bb_wf(p.o)
    &&& forall|b: int|
        0 <= b < 9 && !captured_at(p.x, b) && !captured_at(p.o, b) ==> #[trigger] block_occ_at(
            p.x,
            b,
        ) & block_occ_at(p.o, b) == 0
    &&& forall|b: int| 0 <= b < 9 ==> !(#[trigger] captured_at(p.x, b) && captured_at(p.o, b))
    &&& p.hopeless_x < 512
    &&& p.hopeless_o < 512
    &&& forall|b: int|
        0 <= b < 9 ==> (#[trigger] bit9(p.hopeless_x, b) <==> occ_hopeless(block_occ_at(p.o, b)))
    &&& forall|b: int|
        0 <= b < 9 ==> (#[trigger] bit9(p.hopeless_o, b) <==> occ_hopeless(block_occ_at(p.x, b)))
    &&& p.last_block <= 9
}

/// The next player may play anywhere: no block is forced, or the forced
/// block is completely occupied.
pub open spec fn free_choice(p: BoardRec) -> bool {
    p.last_block == ANY_BLOCK || block_occ_at(total_occ(p), p.last_block as int) == 0x1ff
}

/// Cell `i` is a legal move: on the board, unoccupied, and inside the forced
/// block unless the choice is free.
pub open spec fn move_legal(p: BoardRec, i: int) -> bool {
    &&& 0 <= i < 81
    &&& !bit_set(total_occ(p), i)
    &&& free_choice(p) || i / 9 == p.last_block as int
}

/// The mask of legal moves.
pub open spec fn legal_mask(p: BoardRec) -> u128 {
    let local = 0x1ffu128 << ((9 * p.last_block) as u128);
    let mask = if free_choice(p) {
        !0u128
    } else {
        local
    };
    mask & !total_occ(p) & BOARD_OCC
}

/// The side has won the game: its captured blocks contain a winning line of
/// the meta board.
pub open spec fn won(p: BoardRec, s: Side) -> bool {
    occ_wins(block_occ_at(side_occ(p, s), 9))
}

/// Every cell is occupied (captured blocks count as fully occupied).
pub open spec fn drawn(p: BoardRec) -> bool {
    total_occ(p) & BOARD_OCC == BOARD_OCC
}

pub open spec fn over(p: BoardRec) -> bool {
    won(p, Side::X) || won(p, Side::O) || drawn(p)
}

/// The position after playing cell `i`: the mover's word takes the stone
/// (and the capture, if any), the opponent's hopeless bit of the played
/// block is refreshed, the turn flips, and the cell's in-block index becomes
/// the forced block.
pub open spec fn spec_make_move(p: BoardRec, i: int) -> BoardRec {
    let b = i / 9;
    let newown = spec_bb_place(side_occ(p, p.to_move), i);
    let hop = occ_hopeless(block_occ_at(newown, b));
    match p.to_move {
        Side::X => BoardRec {
            x: newown,
            o: p.o,
            to_move: Side::O,
            hopeless_x: p.hopeless_x,
            hopeless_o: if hop {
                p.hopeless_o | (1u16 << (b as u16))
            } else {
                p.hopeless_o
            },
            last_block: (i % 9) as u8,
        },
        Side::O => BoardRec {
            x: p.x,
            o: newown,
            to_move: Side::X,
            hopeless_x: if hop {
                p.hopeless_x | (1u16 << (b as u16))
            } else {
                p.hopeless_x
            },
            hopeless_o: p.hopeless_o,
            last_block: (i % 9) as u8,
        },
    }
}

// ---------------------------------------------------------------------------
// Lemmas about placing a stone.
// ---------------------------------------------------------------------------

/// Bit-level description of `spec_bb_place`.
pub proof fn lemma_place_bits(bb: u128, i: int)
    requires
        0 <= i < 81,
    ensures
        forall|j: int|
            0 <= j < 128 ==> (#[trigger] bit_set(spec_bb_place(bb, i), j) <==> (bit_set(bb, j) || j
                == i || (occ_wins(block_occ_at(bb | (1u128 << (i as u128)), i / 9)) && (j == 81 + i
                / 9 || 9 * (i / 9) <= j < 9 * (i / 9) + 9)))),
{
    let b = i / 9;
    let placed = bb | (1u128 << (i as u128));
    let new = spec_bb_place(bb, i);
    assert forall|j: int|
        0 <= j < 128 implies (#[trigger] bit_set(new, j) <==> (bit_set(bb, j) || j == i || (
    occ_wins(block_occ_at(placed, b)) && (j == 81 + b || 9 * b <= j < 9 * b + 9)))) by {
        lemma_bit_or(bb, 1u128 << (i as u128), j);
        lemma_bit_single(i, j);
        if occ_wins(block_occ_at(placed, b)) {
            lemma_bit_or(placed | (1u128 << ((81 + b) as u128)), 0x1ffu128 << ((9 * b) as u128), j);
            lemma_bit_or(placed, 1u128 << ((81 + b) as u128), j);
            lemma_bit_single(81 + b, j);
            lemma_block_fill_bit(b, j);
        }
    }
}

/// The played block's occupancy after placing is the old occupancy plus the
/// cell's in-block bit.
pub proof fn lemma_placed_block_occ(bb: u128, i: int)
    requires
        0 <= i < 81,
    ensures
        block_occ_at(bb | (1u128 << (i as u128)), i / 9) == block_occ_at(bb, i / 9) | (1u16 << ((i
            % 9) as u16)),
{
    let b = i / 9;
    let placed = bb | (1u128 << (i as u128));
    let lhs = block_occ_at(placed, b);
    let rhs = block_occ_at(bb, b) | (1u16 << ((i % 9) as u16));
    assert forall|j: int| 0 <= j < 16 implies (bit9(lhs, j) <==> bit9(rhs, j)) by {
        lemma_block_occ_bit(placed, b, j);
        lemma_block_occ_bit(bb, b, j);
        lemma_bit9_or(block_occ_at(bb, b), 1u16 << ((i % 9) as u16), j);
        lemma_bit9_single(i % 9, j);
        if j < 9 {
            lemma_bit_or(bb, 1u128 << (i as u128), 9 * b + j);
            lemma_bit_single(i, 9 * b + j);
        }
    }
    lemma_bit9_ext(lhs, rhs);
}

/// Absorption: adding already-present stones changes nothing.
pub proof fn lemma_or_absorb16(a: u16, c: u16)
    ensures
        a | (a | c) == a | c,
{
    assert(a | (a | c) == a | c) by (bit_vector);
}

/// Any 9-bit occupancy is below the full block.
pub proof fn lemma_or_full16(a: u16)
    requires
        a < 512,
    ensures
        a | 0x1ff == 0x1ff,
{
    assert(a < 512 ==> a | 0x1ff == 0x1ff) by (bit_vector);
}

/// Conjunction of 16-bit masks commutes.
pub proof fn lemma_and16_comm(a: u16, b: u16)
    ensures
        a & b == b & a,
{
    assert(a & b == b & a) by (bit_vector);
}

/// Setting a hopeless bit keeps the mask 9-bit.
pub proof fn lemma_hopmask_or(a: u16, b: u16, j: int)
    requires
        a < 512,
        b < 9,
        0 <= j < 16,
    ensures
        (a | (1u16 << b)) < 512,
        bit9(a | (1u16 << b), j) <==> (bit9(a, j) || j == b),
{
    assert(a < 512 && b < 9 ==> (a | (1u16 << b)) < 512) by (bit_vector);
    lemma_bit9_or(a, 1u16 << b, j);
    lemma_bit9_single(b as int, j);
}

/// Placing a legal stone preserves both words' well-formedness and the
/// cross-side invariants, and leaves every other block unchanged.
pub proof fn lemma_place_preserves(own: u128, oth: u128, i: int)
    requires
        bb_wf(own),
        bb_wf(oth),
        forall|b: int|
            0 <= b < 9 && !captured_at(own, b) && !captured_at(oth, b) ==> #[trigger] block_occ_at(
                own,
                b,
            ) & block_occ_at(oth, b) == 0,
        forall|b: int| 0 <= b < 9 ==> !(#[trigger] captured_at(own, b) && captured_at(oth, b)),
        0 <= i < 81,
        !bit_set(own | oth, i),
    ensures
        bb_wf(spec_bb_place(own, i)),
        forall|b: int|
            0 <= b < 9 && !captured_at(spec_bb_place(own, i), b) && !captured_at(oth, b)
                ==> #[trigger] block_occ_at(spec_bb_place(own, i), b) & block_occ_at(oth, b) == 0,
        forall|b: int|
            0 <= b < 9 ==> !(#[trigger] captured_at(spec_bb_place(own, i), b) && captured_at(
                oth,
                b,
            )),
        forall|c: int|
            0 <= c < 9 && c != i / 9 ==> block_occ_at(spec_bb_place(own, i), c) == block_occ_at(
                own,
                c,
            ),
        !captured_at(own, i / 9),
        !captured_at(oth, i / 9),
        forall|j: int| 0 <= j < 128 && bit_set(own, j) ==> bit_set(spec_bb_place(own, i), j),
        bit_set(spec_bb_place(own, i), i),
        block_occ_at(spec_bb_place(own, i), i / 9) == (if occ_wins(
            block_occ_at(own | (1u128 << (i as u128)), i / 9),
        ) {
            0x1ffu16
        } else {
            block_occ_at(own | (1u128 << (i as u128)), i / 9)
        }),
        captured_at(spec_bb_place(own, i), i / 9) == occ_wins(
            block_occ_at(own | (1u128 << (i as u128)), i / 9),
        ),
{
    let b = i / 9;
    let placed = own | (1u128 << (i as u128));
    let new = spec_bb_place(own, i);
    let bocc_new = block_occ_at(placed, b);
    let bocc_old = block_occ_at(own, b);
    let won_b = occ_wins(bocc_new);
    lemma_place_bits(own, i);
    lemma_placed_block_occ(own, i);
    lemma_bit_or(own, oth, i);

    // The played cell was empty on both sides, so neither side had captured
    // (a captured block is filled).
    assert(!captured_at(own, b) && !captured_at(oth, b)) by {
        lemma_block_occ_bit(own, b, i % 9);
        lemma_block_occ_bit(oth, b, i % 9);
        crate::bits::lemma_bit_zero(9 * b + (i % 9));
        assert(9 * b + (i % 9) == i);
        if captured_at(own, b) {
            assert(block_occ_at(own, b) == 0x1ff);
            assert(bit9(0x1ffu16, i % 9)) by {
                lemma_bit9_full(i % 9);
            }
        }
        if captured_at(oth, b) {
            assert(block_occ_at(oth, b) == 0x1ff);
            assert(bit9(0x1ffu16, i % 9)) by {
                lemma_bit9_full(i % 9);
            }
        }
    }

    // Other blocks and all capture bits except the played block's keep their
    // occupancy and status.
    assert forall|c: int| 0 <= c < 9 && c != b implies block_occ_at(new, c) == block_occ_at(
        own,
        c,
    ) by {
        assert forall|j: int| 0 <= j < 16 implies (bit9(block_occ_at(new, c), j) <==> bit9(
            block_occ_at(own, c),
            j,
        )) by {
            lemma_block_occ_bit(new, c, j);
            lemma_block_occ_bit(own, c, j);
        }
        lemma_bit9_ext(block_occ_at(new, c), block_occ_at(own, c));
    }
    assert forall|c: int| 0 <= c < 9 && c != b implies (captured_at(new, c) == captured_at(
        own,
        c,
    )) by {
        assert(81 + c != i && 81 + c != 81 + b && !(9 * b <= 81 + c < 9 * b + 9));
    }

    // The played block.
    assert(block_occ_at(new, b) == if won_b {
        0x1ffu16
    } else {
        bocc_new
    }) by {
        if won_b {
            assert forall|j: int| 0 <= j < 16 implies (bit9(block_occ_at(new, b), j) <==> bit9(
                0x1ffu16,
                j,
            )) by {
                lemma_block_occ_bit(new, b, j);
                lemma_bit9_full(j);
            }
            lemma_bit9_ext(block_occ_at(new, b), 0x1ff);
        } else {
            assert forall|j: int| 0 <= j < 16 implies (bit9(block_occ_at(new, b), j) <==> bit9(
                bocc_new,
                j,
            )) by {
                lemma_block_occ_bit(new, b, j);
                lemma_block_occ_bit(placed, b, j);
                lemma_bit_or(own, 1u128 << (i as u128), 9 * b + j);
                lemma_bit_single(i, 9 * b + j);
            }
            lemma_bit9_ext(block_occ_at(new, b), bocc_new);
        }
    }
    assert(captured_at(new, b) == won_b);
    if won_b {
        lemma_full_block_wins();
    }

    // No bits at or above 90.
    assert(new >> 90u128 == 0) by {
        lemma_shr_zero_bits(own, 90);
        assert forall|j: int| 90 <= j < 128 implies !bit_set(new, j) by {
            assert(!bit_set(own, j));
            assert(j != i && j != 81 + b && !(9 * b <= j < 9 * b + 9));
        }
        lemma_high_bits_zero(new, 90);
    }

    // Disjointness inside the played block when it stays undecided.
    if !won_b {
        assert(bocc_new & block_occ_at(oth, b) == 0) by {
            assert forall|j: int| 0 <= j < 16 implies (bit9(bocc_new & block_occ_at(oth, b), j)
                <==> bit9(0u16, j)) by {
                lemma_bit9_and(bocc_new, block_occ_at(oth, b), j);
                lemma_bit9_or(bocc_old, 1u16 << ((i % 9) as u16), j);
                lemma_bit9_single(i % 9, j);
                lemma_bit9_and(bocc_old, block_occ_at(oth, b), j);
                lemma_block_occ_bit(oth, b, j);
                crate::bits::lemma_bit_zero(j);
                crate::bits::lemma_bit_zero(9 * b + j);
                if j < 9 {
                    assert(bit9(bocc_old & block_occ_at(oth, b), j) <==> bit9(0u16, j));
                }
                if j == i % 9 {
                    assert(9 * b + j == i);
                    assert(!bit_set(oth, i));
                }
            }
            lemma_bit9_ext(bocc_new & block_occ_at(oth, b), 0);
        }
    }
}

/// Bits of the full block.
pub proof fn lemma_bit9_full(j: int)
    requires
        0 <= j < 16,
    ensures
        bit9(0x1ffu16, j) <==> j < 9,
{
    let ju = j as u128;
    assert((((0x1ffu16 as u128) >> ju) & 1 == 1) <==> ju < 9) by (bit_vector)
        requires
            ju < 16,
    ;
}


// ---------------------------------------------------------------------------
// Position.
// ---------------------------------------------------------------------------

/// The game state: both sides' words, the side to move, the cached masks of
/// blocks each side can no longer win, and the forced block.
#[derive(Copy, Clone)]
pub struct Position {
    pub(crate) bb_x: Bitboard,
    pub(crate) bb_o: Bitboard,
    pub(crate) to_move: Side,
    pub(crate) hopeless_x: B33,
    pub(crate) hopeless_o: B33,
    pub(crate) last_block: u8,
}

impl View for Position {
    type V = BoardRec;

    closed spec fn view(&self) -> BoardRec {
        BoardRec {
            x: self.bb_x@,
            o: self.bb_o@,
            to_move: self.to_move,
            hopeless_x: self.hopeless_x,
            hopeless_o: self.hopeless_o,
            last_block: self.last_block,
        }
    }
}

/// The empty starting position.
pub open spec fn empty_board() -> BoardRec {
    BoardRec {
        x: 0,
        o: 0,
        to_move: Side::X,
        hopeless_x: 0,
        hopeless_o: 0,
        last_block: ANY_BLOCK,
    }
}

/// The all-zero word is well formed.
pub proof fn lemma_bb_wf_zero()
    ensures
        bb_wf(0),
        forall|b: int| 0 <= b <= 9 ==> block_occ_at(0u128, b) == 0,
{
    assert forall|b: int| 0 <= b <= 9 implies block_occ_at(0u128, b) == 0 by {
        let s = (9 * b) as u128;
        assert((((0u128 >> s) & 0x1ff) as u16) == 0) by (bit_vector);
    }
    assert forall|b: int| 0 <= b < 9 implies !captured_at(0u128, b) by {
        crate::bits::lemma_bit_zero(81 + b);
    }
    assert forall|b: int| 0 <= b < 9 implies !occ_wins(block_occ_at(0u128, b)) by {
        lemma_empty_block();
    }
    assert forall|i: int| 0 <= i < 128 implies !bit_set(0u128, i) by {
        crate::bits::lemma_bit_zero(i);
    }
    lemma_high_bits_zero(0u128, 90);
    assert(0u128 >> (90 as u128) == 0);
}

impl Position {
    /// The empty position: X to move, any block playable.
    pub fn new() -> (r: Position)
        ensures
            r@ == empty_board(),
            pos_wf(r@),
    {
        let r = Position {
            bb_x: Bitboard::new(),
            bb_o: Bitboard::new(),
            to_move: Side::X,
            hopeless_x: 0,
            hopeless_o: 0,
            last_block: ANY_BLOCK,
        };
        proof {
            lemma_bb_wf_zero();
            lemma_empty_block();
            assert(0u16 & 0u16 == 0) by (bit_vector);
            assert forall|b: int| 0 <= b < 9 implies (!bit9(0u16, b) && !occ_hopeless(
                block_occ_at(0u128, b),
            )) by {
                crate::bits::lemma_bit_zero(b);
            }
        }
        r
    }

    /// Assembles a position from raw parts; crate-internal, callers
    /// establish the invariant themselves.
    pub(crate) fn from_parts(
        bb_x: Bitboard,
        bb_o: Bitboard,
        to_move: Side,
        hopeless_x: B33,
        hopeless_o: B33,
        last_block: u8,
    ) -> (r: Position)
        ensures
            r@ == (BoardRec {
                x: bb_x@,
                o: bb_o@,
                to_move,
                hopeless_x,
                hopeless_o,
                last_block,
            }),
    {
        Position { bb_x, bb_o, to_move, hopeless_x, hopeless_o, last_block }
    }

    /// The forced block, 0 to 8, or 9 when the next player chooses freely.
    pub fn last_block_value(&self) -> (r: u8)
        requires
            pos_wf(self@),
        ensures
            r == self@.last_block,
            r <= 9,
    {
        self.last_block
    }

    /// The side whose turn it is.
    pub fn side_to_move(&self) -> (r: Side)
        ensures
            r == self@.to_move,
    {
        self.to_move
    }

    /// This side's word.
    pub(crate) fn bb(&self, side: Side) -> (r: Bitboard)
        ensures
            r@ == side_occ(self@, side),
    {
        match side {
            Side::X => self.bb_x,
            Side::O => self.bb_o,
        }
    }

    /// The side has completed a meta line of captured blocks.
    pub fn is_won(&self, side: Side) -> (r: bool)
        ensures
            r == won(self@, side),
    {
        get_block_won(self.bb(side).captured_occ())
    }

    /// Every cell is occupied; meaningful once neither side has won.
    pub fn is_drawn(&self) -> (r: bool)
        ensures
            r == drawn(self@),
    {
        (self.bb_x.0 | self.bb_o.0) & BOARD_OCC == BOARD_OCC
    }

    /// The game has ended by a win or a full board.
    pub fn is_over(&self) -> (r: bool)
        ensures
            r == over(self@),
    {
        self.is_won(Side::X) || self.is_won(Side::O) || self.is_drawn()
    }

    /// Neither side can win any meta line anymore (early draw detection).
    pub fn is_hopeless(&self) -> (r: bool)
        requires
            pos_wf(self@),
        ensures
            r == (occ_hopeless(self@.hopeless_x) && occ_hopeless(self@.hopeless_o)),
    {
        get_block_hopeless(self.hopeless_x) && get_block_hopeless(self.hopeless_o)
    }

    /// Win for X, else win for O, else draw, else ongoing.
    pub fn get_result(&self) -> (r: GameResult)
        ensures
            r == (if won(self@, Side::X) {
                GameResult::XWon
            } else if won(self@, Side::O) {
                GameResult::OWon
            } else if drawn(self@) {
                GameResult::Draw
            } else {
                GameResult::Ongoing
            }),
    {
        if self.is_won(Side::X) {
            GameResult::XWon
        } else if self.is_won(Side::O) {
            GameResult::OWon
        } else if self.is_drawn() {
            GameResult::Draw
        } else {
            GameResult::Ongoing
        }
    }

    /// Number of set bits over both words: a cheap ply estimate (captured
    /// blocks contribute their capture bit and their fill).
    pub fn cur_ply(&self) -> (r: u16)
        ensures
            r == pop(total_occ(self@)),
    {
        proof {
            lemma_pop_bound(self.bb_x.0 | self.bb_o.0, 128);
        }
        count_ones128(self.bb_x.0 | self.bb_o.0) as u16
    }

    /// The packed words hold no bits beyond their 90.
    pub fn check_valid(&self) -> (r: bool)
        ensures
            r == (self@.x >> 90u128 == 0 && self@.o >> 90u128 == 0),
    {
        (self.bb_x.0 >> 90) == 0 && (self.bb_o.0 >> 90) == 0
    }

    /// The legal moves: the empty cells of the forced block, or of the whole
    /// board when the choice is free.  The game must not be over.
    pub fn legal_moves(&self) -> (r: Moves)
        requires
            pos_wf(self@),
            !over(self@),
        ensures
            r@ == legal_mask(self@),
            forall|i: int| 0 <= i < 128 ==> (bit_set(r@, i) <==> move_legal(self@, i)),
            r@ != 0,
    {
        let total = self.bb_x.0 | self.bb_o.0;
        let lb = self.last_block;
        let full_board = lb == ANY_BLOCK || ((total >> (9 * lb as u128)) & 0x1ff) as u16 == 0x1ff;
        let mask: u128 = if full_board {
            !0u128
        } else {
            0x1ffu128 << (9 * lb as u128)
        };
        let r = Moves(mask & !total & BOARD_OCC);
        proof {
            assert(full_board == free_choice(self@));
            assert(r@ == legal_mask(self@));
            lemma_legal_mask_bits(self@);
            lemma_legal_moves_nonempty(self@);
            let w = choose|i: int| move_legal(self@, i);
            assert(bit_set(r@, w));
            if r@ == 0 {
                crate::bits::lemma_bit_zero(w);
            }
        }
        r
    }

    /// Plays a legal move for the side to move.
    pub fn make_move(&mut self, index: Idx)
        requires
            pos_wf(old(self)@),
            move_legal(old(self)@, index as int),
        ensures
            final(self)@ == spec_make_move(old(self)@, index as int),
            pos_wf(final(self)@),
            final(self)@.to_move == old(self)@.to_move.spec_other(),
            side_occ(final(self)@, old(self)@.to_move.spec_other()) == side_occ(
                old(self)@,
                old(self)@.to_move.spec_other(),
            ),
            forall|j: int|
                0 <= j < 128 && bit_set(total_occ(old(self)@), j) ==> bit_set(
                    total_occ(final(self)@),
                    j,
                ),
            pop(total_occ(final(self)@)) > pop(total_occ(old(self)@)),
    {
        let ghost oldp = self@;
        let ghost i = index as int;
        let bi: u8;
        let block_occ: B33;
        match self.to_move {
            Side::X => {
                bi = self.bb_x.set(index);
                block_occ = self.bb_x.get_block(bi);
            },
            Side::O => {
                bi = self.bb_o.set(index);
                block_occ = self.bb_o.get_block(bi);
            },
        }
        let hop = get_block_hopeless(block_occ);
        self.to_move = self.to_move.other();
        if hop {
            match self.to_move {
                Side::X => {
                    self.hopeless_x = self.hopeless_x | (1u16 << bi);
                },
                Side::O => {
                    self.hopeless_o = self.hopeless_o | (1u16 << bi);
                },
            }
        }
        self.last_block = index % 9;
        proof {
            lemma_make_move_wf(oldp, i);
            assert(self@ == spec_make_move(oldp, i));
        }
    }
}


/// Playing a legal move preserves the position invariant; the opponent's
/// word is untouched, the occupied cells only grow, and one cell is new.
pub proof fn lemma_make_move_wf(oldp: BoardRec, i: int)
    requires
        pos_wf(oldp),
        move_legal(oldp, i),
    ensures
        pos_wf(spec_make_move(oldp, i)),
        spec_make_move(oldp, i).to_move == oldp.to_move.spec_other(),
        side_occ(spec_make_move(oldp, i), oldp.to_move.spec_other()) == side_occ(
            oldp,
            oldp.to_move.spec_other(),
        ),
        forall|j: int|
            0 <= j < 128 && bit_set(total_occ(oldp), j) ==> bit_set(
                total_occ(spec_make_move(oldp, i)),
                j,
            ),
        pop(total_occ(spec_make_move(oldp, i))) > pop(total_occ(oldp)),
{
    let ghost own0 = side_occ(oldp, oldp.to_move);
    let ghost oth0 = side_occ(oldp, oldp.to_move.spec_other());
    lemma_bit_or(oldp.x, oldp.o, i);
    if oldp.to_move == Side::X {
        lemma_place_preserves(oldp.x, oldp.o, i);
    } else {
        lemma_bit_or(oldp.o, oldp.x, i);
        assert forall|b: int|
            0 <= b < 9 && !captured_at(oldp.o, b) && !captured_at(oldp.x, b)
            implies #[trigger] block_occ_at(oldp.o, b) & block_occ_at(oldp.x, b) == 0 by {
            lemma_and16_comm(block_occ_at(oldp.x, b), block_occ_at(oldp.o, b));
        }
        lemma_place_preserves(oldp.o, oldp.x, i);
    }
    let newp = spec_make_move(oldp, i);
    let b = i / 9;
    let newown = spec_bb_place(own0, i);
    lemma_placed_block_occ(own0, i);
    // The hopeless masks stay in range and correct.
    let oldmask = hopeless_mask(oldp, oldp.to_move.spec_other());
    let newmask = hopeless_mask(newp, oldp.to_move.spec_other());
    assert forall|c: int| 0 <= c < 16 implies (bit9(newmask, c) <==> (bit9(oldmask, c) || (
    occ_hopeless(block_occ_at(newown, b)) && c == b))) by {
        if occ_hopeless(block_occ_at(newown, b)) {
            lemma_hopmask_or(oldmask, b as u16, c);
        }
    }
    assert(newmask < 512) by {
        if occ_hopeless(block_occ_at(newown, b)) {
            lemma_hopmask_or(oldmask, b as u16, 0);
        }
    }
    // Hopelessness of the played block only grows.
    assert(occ_hopeless(block_occ_at(own0, b)) ==> occ_hopeless(
        block_occ_at(newown, b),
    )) by {
        if occ_hopeless(block_occ_at(own0, b)) {
            if !occ_wins(block_occ_at(own0 | (1u128 << (i as u128)), b)) {
                lemma_or_absorb16(block_occ_at(own0, b), 1u16 << ((i % 9) as u16));
                lemma_hopeless_mono(block_occ_at(own0, b), block_occ_at(newown, b));
            } else {
                lemma_block_occ_range(own0, b);
                lemma_or_full16(block_occ_at(own0, b));
                lemma_hopeless_mono(block_occ_at(own0, b), 0x1ff);
            }
        }
    }
    // The opponent's word and the mover's hopeless mask are untouched.
    let moved = oldp.to_move;
    let opp = moved.spec_other();
    assert(side_occ(newp, opp) == oth0);
    assert(side_occ(newp, moved) == newown);
    assert(hopeless_mask(newp, moved) == hopeless_mask(oldp, moved));
    // Each well-formedness clause of the new position.
    assert(bb_wf(newp.x) && bb_wf(newp.o));
    assert forall|c: int|
        0 <= c < 9 && !captured_at(newp.x, c) && !captured_at(newp.o, c)
        implies #[trigger] block_occ_at(newp.x, c) & block_occ_at(newp.o, c) == 0 by {
        if moved == Side::O {
            lemma_and16_comm(block_occ_at(newp.o, c), block_occ_at(newp.x, c));
        }
    }
    assert forall|c: int|
        0 <= c < 9 implies !(#[trigger] captured_at(newp.x, c) && captured_at(
        newp.o,
        c,
    )) by {
        if moved == Side::O {
            assert(!(captured_at(spec_bb_place(oldp.o, i), c) && captured_at(oldp.x, c)));
        }
    }
    // Hopeless masks: the mover's opponent's mask tracks the mover's
    // new occupancies; the mover's own mask tracks the unchanged
    // opponent occupancies.
    assert forall|c: int|
        0 <= c < 9 implies (#[trigger] bit9(hopeless_mask(newp, opp), c) <==> occ_hopeless(
        block_occ_at(side_occ(newp, moved), c),
    )) by {
        if c != b {
            assert(block_occ_at(newown, c) == block_occ_at(own0, c));
            assert(bit9(hopeless_mask(oldp, opp), c) <==> occ_hopeless(
                block_occ_at(own0, c),
            ));
        } else {
            assert(bit9(hopeless_mask(newp, opp), b) <==> (bit9(
                hopeless_mask(oldp, opp),
                b,
            ) || occ_hopeless(block_occ_at(newown, b))));
        }
    }
    assert forall|c: int|
        0 <= c < 9 implies (#[trigger] bit9(hopeless_mask(newp, moved), c)
        <==> occ_hopeless(block_occ_at(side_occ(newp, opp), c))) by {
        assert(bit9(hopeless_mask(oldp, moved), c) <==> occ_hopeless(
            block_occ_at(oth0, c),
        ));
    }
    assert(pos_wf(newp));
    // The move adds a stone.
    assert forall|j: int|
        0 <= j < 128 && bit_set(total_occ(oldp), j) implies bit_set(
        total_occ(newp),
        j,
    ) by {
        lemma_bit_or(oldp.x, oldp.o, j);
        lemma_bit_or(newp.x, newp.o, j);
    }
    assert(pop(total_occ(newp)) > pop(total_occ(oldp))) by {
        assert(bit_set(total_occ(newp), i)) by {
            lemma_bit_or(newp.x, newp.o, i);
        }
        assert(!bit_set(total_occ(oldp), i));
        lemma_pop_lt(total_occ(oldp), total_occ(newp), 128, i);
    }
}

/// The bits of the legal-move mask are exactly the legal moves.
pub proof fn lemma_legal_mask_bits(p: BoardRec)
    requires
        p.last_block <= 9,
    ensures
        forall|i: int| 0 <= i < 128 ==> (bit_set(legal_mask(p), i) <==> move_legal(p, i)),
{
    let total = total_occ(p);
    let lb = p.last_block;
    let local = 0x1ffu128 << ((9 * lb) as u128);
    let mask = if free_choice(p) {
        !0u128
    } else {
        local
    };
    assert forall|i: int| 0 <= i < 128 implies (bit_set(legal_mask(p), i) <==> move_legal(
        p,
        i,
    )) by {
        lemma_bit_and(mask & !total, BOARD_OCC, i);
        lemma_bit_and(mask, !total, i);
        lemma_bit_not(total, i);
        lemma_board_occ_bit(i);
        if !free_choice(p) {
            lemma_block_fill_bit(lb as int, i);
            assert(bit_set(mask, i) <==> 9 * (lb as int) <= i < 9 * (lb as int) + 9);
            assert((9 * (lb as int) <= i < 9 * (lb as int) + 9) <==> i / 9 == lb as int);
        } else {
            assert(bit_set(!0u128, i)) by {
                crate::bits::lemma_bit_zero(i);
                lemma_bit_not(0u128, i);
            }
        }
    }
}

/// A position that is not over has a legal move.
pub proof fn lemma_legal_moves_nonempty(p: BoardRec)
    requires
        pos_wf(p),
        !over(p),
    ensures
        exists|i: int| move_legal(p, i),
{
    // Not drawn: some cell below 81 is empty.
    let t = total_occ(p);
    assert(exists|i: int| 0 <= i < 81 && !bit_set(t, i)) by {
        if forall|i: int| 0 <= i < 81 ==> bit_set(t, i) {
            assert forall|j: int| 0 <= j < 128 implies (bit_set(t & BOARD_OCC, j) <==> bit_set(
                BOARD_OCC,
                j,
            )) by {
                lemma_bit_and(t, BOARD_OCC, j);
                lemma_board_occ_bit(j);
            }
            lemma_bit_ext(t & BOARD_OCC, BOARD_OCC);
            assert(drawn(p));
        }
    }
    if free_choice(p) {
        let w = choose|i: int| 0 <= i < 81 && !bit_set(t, i);
        assert(move_legal(p, w));
    } else {
        // The forced block is not full: one of its cells is empty.
        let lb = p.last_block as int;
        let bo = block_occ_at(t, lb);
        assert(exists|j: int| 0 <= j < 9 && !bit9(bo, j)) by {
            if forall|j: int| 0 <= j < 9 ==> bit9(bo, j) {
                assert forall|j: int| 0 <= j < 16 implies (bit9(bo, j) <==> bit9(0x1ffu16, j)) by {
                    lemma_bit9_full(j);
                    lemma_block_occ_bit(t, lb, j);
                }
                lemma_bit9_ext(bo, 0x1ff);
            }
        }
        let wj = choose|j: int| 0 <= j < 9 && !bit9(bo, j);
        let w = 9 * lb + wj;
        assert(!bit_set(t, w)) by {
            lemma_block_occ_bit(t, lb, wj);
        }
        assert(w / 9 == lb);
        assert(move_legal(p, w));
    }
}


// ---------------------------------------------------------------------------
// Capture-in-one cells.
// ---------------------------------------------------------------------------

/// Cell `i` is empty and playing it would immediately capture its block for
/// side `s`.
pub open spec fn one_occ_cell(p: BoardRec, s: Side, i: int) -> bool {
    &&& 0 <= i < 81
    &&& !bit_set(total_occ(p), i)
    &&& occ_wins(block_occ_at(side_occ(p, s), i / 9) | (1u16 << ((i % 9) as u16)))
}

/// Testing one bit of a 16-bit mask by masking.
pub proof fn lemma_bit9_test(m: u16, j: int)
    requires
        0 <= j < 16,
    ensures
        bit9(m, j) <==> m & (1u16 << (j as u16)) != 0,
{
    let ju = j as u16;
    assert((((m as u128) >> (ju as u128)) & 1 == 1) <==> (m & (1u16 << ju) != 0)) by (bit_vector)
        requires
            ju < 16,
    ;
}

/// The mask of capture-in-one cells, built cell by cell.
pub open spec fn one_occ_mask_upto(p: BoardRec, s: Side, k: int) -> u128
    decreases k,
{
    if k <= 0 {
        0
    } else {
        one_occ_mask_upto(p, s, k - 1) | (if one_occ_cell(p, s, k - 1) {
            1u128 << ((k - 1) as u128)
        } else {
            0u128
        })
    }
}

/// The mask of the cells where `s` captures a block in one move.
pub open spec fn one_occ_mask(p: BoardRec, s: Side) -> u128 {
    one_occ_mask_upto(p, s, 81)
}

pub proof fn lemma_one_occ_mask_upto_bits(p: BoardRec, s: Side, k: int)
    requires
        0 <= k <= 81,
    ensures
        forall|i: int|
            0 <= i < 128 ==> (bit_set(one_occ_mask_upto(p, s, k), i) <==> (one_occ_cell(p, s, i)
                && i < k)),
    decreases k,
{
    if k == 0 {
        assert forall|i: int| 0 <= i < 128 implies !bit_set(0u128, i) by {
            crate::bits::lemma_bit_zero(i);
        }
    } else {
        lemma_one_occ_mask_upto_bits(p, s, k - 1);
        let prev = one_occ_mask_upto(p, s, k - 1);
        let cur = one_occ_mask_upto(p, s, k);
        assert forall|i: int|
            0 <= i < 128 implies (bit_set(cur, i) <==> (one_occ_cell(p, s, i) && i < k)) by {
            if one_occ_cell(p, s, k - 1) {
                lemma_bit_or(prev, 1u128 << ((k - 1) as u128), i);
                lemma_bit_single(k - 1, i);
            } else {
                lemma_bit_or(prev, 0u128, i);
                crate::bits::lemma_bit_zero(i);
            }
        }
    }
}

/// The bits of the capture-in-one mask are exactly the capture-in-one cells.
pub proof fn lemma_one_occ_mask_bits(p: BoardRec, s: Side)
    ensures
        forall|i: int|
            0 <= i < 128 ==> (bit_set(one_occ_mask(p, s), i) <==> one_occ_cell(p, s, i)),
{
    lemma_one_occ_mask_upto_bits(p, s, 81);
}

impl Position {
    /// The empty cells where `side` would capture a block by playing there
    /// (the "forcing" moves that quiescence search explores).
    pub fn get_1occ(&self, side: Side) -> (r: Moves)
        requires
            pos_wf(self@),
        ensures
            forall|i: int| 0 <= i < 128 ==> (bit_set(r@, i) <==> one_occ_cell(self@, side, i)),
            r@ == one_occ_mask(self@, side),
    {
        let my = self.bb(side);
        let their = self.bb(side.other());
        let mut ret = Moves(0);
        proof {
            assert forall|i: int| 0 <= i < 128 implies !bit_set(ret@, i) by {
                crate::bits::lemma_bit_zero(i);
            }
        }
        let mut b: u8 = 0;
        while b < 9
            invariant
                b <= 9,
                pos_wf(self@),
                my@ == side_occ(self@, side),
                their@ == side_occ(self@, side.spec_other()),
                forall|i: int|
                    0 <= i < 128 ==> (bit_set(ret@, i) <==> (one_occ_cell(self@, side, i) && i < 9
                        * b)),
            decreases 9 - b,
        {
            let mb = my.get_block(b);
            let tb = their.get_block(b);
            let mut j: u8 = 0;
            while j < 9
                invariant
                    b < 9,
                    j <= 9,
                    pos_wf(self@),
                    my@ == side_occ(self@, side),
                    their@ == side_occ(self@, side.spec_other()),
                    mb == block_occ_at(my@, b as int),
                    mb < 512,
                    tb == block_occ_at(their@, b as int),
                    forall|i: int|
                        0 <= i < 128 ==> (bit_set(ret@, i) <==> (one_occ_cell(self@, side, i) && i
                            < 9 * b + j)),
                decreases 9 - j,
            {
                let ghost i = 9 * (b as int) + j as int;
                proof {
                    lemma_bit9_test(mb | tb, j as int);
                    lemma_bit9_or(mb, tb, j as int);
                    lemma_block_occ_bit(my@, b as int, j as int);
                    lemma_block_occ_bit(their@, b as int, j as int);
                    lemma_bit_or(self@.x, self@.o, i);
                    lemma_hopmask_or(mb, j as u16, 0);
                    assert(i / 9 == b as int && i % 9 == j as int);
                    assert(bit_set(total_occ(self@), i) <==> ((mb | tb) & (1u16 << (j as u16))
                        != 0));
                }
                let occupied = (mb | tb) & (1u16 << j) != 0;
                if !occupied && get_block_won(mb | (1u16 << j)) {
                    ret.add(9 * b + j);
                }
                j = j + 1;
            }
            b = b + 1;
        }
        proof {
            lemma_one_occ_mask_bits(self@, side);
            assert forall|i: int|
                0 <= i < 128 implies (bit_set(ret@, i) <==> bit_set(
                one_occ_mask(self@, side),
                i,
            )) by {}
            lemma_bit_ext(ret@, one_occ_mask(self@, side));
        }
        ret
    }
}

// ---------------------------------------------------------------------------
// Perft: exhaustive legal-move counting.
// ---------------------------------------------------------------------------

/// Number of leaf positions reached from `p` by exactly `depth + 1` further
/// plies of legal play (counting a position once per line of play reaching
/// it), zero for a position whose game is already decided.
pub open spec fn spec_perft(p: BoardRec, depth: nat) -> nat
    decreases depth, 129int,
{
    if won(p, p.to_move.spec_other()) || drawn(p) {
        0
    } else if depth == 0 {
        pop(legal_mask(p))
    } else {
        perft_psum(p, depth, 128)
    }
}

/// Partial sum of `spec_perft` over the legal moves below `k`.
pub open spec fn perft_psum(p: BoardRec, depth: nat, k: int) -> nat
    decreases depth, k,
{
    if k <= 0 || depth == 0 {
        0
    } else {
        perft_psum(p, depth, k - 1) + if bit_set(legal_mask(p), k - 1) {
            spec_perft(spec_make_move(p, k - 1), (depth - 1) as nat)
        } else {
            0nat
        }
    }
}

/// A count clipped to what a 64-bit counter can hold.
pub open spec fn capped(n: nat) -> u64 {
    if n < 0xffffffffffffffff {
        n as u64
    } else {
        0xffffffffffffffffu64
    }
}

proof fn lemma_psum_stable(p: BoardRec, depth: nat, k1: int, k2: int)
    requires
        0 <= k1 <= k2,
        forall|j: int| k1 <= j < k2 ==> !bit_set(legal_mask(p), j),
    ensures
        perft_psum(p, depth, k2) == perft_psum(p, depth, k1),
    decreases k2 - k1,
{
    if k1 < k2 {
        lemma_psum_stable(p, depth, k1, k2 - 1);
    }
}

/// Saturating addition on the counter.
fn add_capped(a: u64, c: u64) -> (r: u64)
    ensures
        r == capped(a as nat + c as nat),
{
    if a > 0xffffffffffffffffu64 - c {
        0xffffffffffffffff
    } else {
        a + c
    }
}

/// Counts the leaf positions after `depth + 1` plies of exhaustive legal
/// play, clipping at the counter's capacity (which no reachable test input
/// approaches).  The position is left unchanged.
pub fn perft(depth: u16, pos: &mut Position) -> (r: u64)
    requires
        pos_wf(old(pos)@),
        !won(old(pos)@, old(pos)@.to_move),
    ensures
        final(pos)@ == old(pos)@,
        r == capped(spec_perft(old(pos)@, depth as nat)),
    decreases depth,
{
    let ghost p = pos@;
    if pos.is_won(pos.side_to_move().other()) || pos.is_drawn() {
        return 0;
    }
    if depth == 0 {
        let n = pos.legal_moves().size();
        proof {
            lemma_pop_bound(legal_mask(p), 128);
        }
        return n as u64;
    }
    let mut moves = pos.legal_moves();
    let mut count: u64 = 0;
    let ghost mut k: int = 0;
    loop
        invariant
            pos_wf(p),
            pos@ == p,
            !won(p, p.to_move) && !won(p, p.to_move.spec_other()) && !drawn(p),
            depth >= 1,
            0 <= k <= 128,
            forall|j: int|
                0 <= j < 128 ==> (bit_set(moves@, j) <==> (bit_set(legal_mask(p), j) && j >= k)),
            count == capped(perft_psum(p, depth as nat, k)),
        decreases pop(moves@),
    {
        let ghost pre = moves@;
        let next = moves.next();
        match next {
            None => {
                proof {
                    assert forall|j: int| k <= j < 128 implies !bit_set(legal_mask(p), j) by {
                        crate::bits::lemma_bit_zero(j);
                    }
                    lemma_psum_stable(p, depth as nat, k, 128);
                }
                return count;
            },
            Some(mov) => {
                proof {
                    lemma_legal_mask_bits(p);
                    assert(bit_set(pre, mov as int));
                    assert(bit_set(legal_mask(p), mov as int) && mov as int >= k);
                    assert(move_legal(p, mov as int));
                    assert forall|j: int| k <= j < mov as int implies !bit_set(
                        legal_mask(p),
                        j,
                    ) by {
                        assert(!bit_set(pre, j));
                    }
                    lemma_psum_stable(p, depth as nat, k, mov as int);
                }
                let mut temp = *pos;
                temp.make_move(mov);
                let c = perft(depth - 1, &mut temp);
                count = add_capped(count, c);
                proof {
                    let movi = mov as int;
                    assert forall|j: int|
                        0 <= j < 128 implies (bit_set(moves@, j) <==> (bit_set(legal_mask(p), j)
                        && j >= movi + 1)) by {
                        if bit_set(moves@, j) {
                            assert(bit_set(pre, j) && j != movi);
                            if j < movi {
                                assert(!bit_set(pre, j));
                            }
                        }
                    }
                    k = movi + 1;
                }
            },
        }
    }
}

} // verus!
