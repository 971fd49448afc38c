//! Static evaluation.  Scores are integers holding hundredths of a point:
//! a captured block is worth 800, a block one move
//! from capture 300 to 600 depending on how many lines achieve it, and so
//! on.  The per-block score of every occupancy pair is precomputed into a
//! table indexed like the classification table.

use vstd::prelude::*;
use crate::block::{
    B33, BlockTable, N_BLOCK33, spec_min_needed, spec_n_routes, own_of_idx, their_of_idx,
};
use crate::board::{BoardRec, Position, Side, block_occ_at, lemma_block_occ_range};
use crate::block::pop9;

verus! {

/// Scores are integers in hundredths of a point; positive favours the side
/// the value is computed for.
pub type Score = i32;

/// Value of a lost game, seen from the side to move.
pub const SCORE_LOSS: Score = -100000000;

/// Value of a won game.
pub const SCORE_WIN: Score = 100000000;

/// Below every reachable score.
pub const SCORE_NEG_INF: Score = -1000000000;

/// Above every reachable score.
pub const SCORE_POS_INF: Score = 1000000000;

/// Deepest iterative-deepening ply.
pub const MAX_SEARCH_PLIES: u16 = 40;

/// The sublinear weighting of the number of winning routes, in hundredths:
/// one route counts 1.0, two 1.4, three 1.7, anything more 2.0.
pub open spec fn sublinear100(n: nat) -> int {
    if n <= 1 {
        100
    } else if n == 2 {
        140
    } else if n == 3 {
        170
    } else {
        200
    }
}

/// Worth of a block for the side `own`, given both occupancies.
pub open spec fn spec_block_score(own: u16, their: u16) -> int {
    let m = spec_min_needed(own, their);
    let r = spec_n_routes(own, their);
    if m == 0 {
        800
    } else if m == 1 {
        3 * sublinear100(r)
    } else if m == 2 {
        sublinear100(r) / 2
    } else if m == 3 {
        10
    } else {
        0
    }
}

pub proof fn lemma_block_score_range(own: u16, their: u16)
    ensures
        0 <= spec_block_score(own, their) <= 800,
{
}

/// Signed worth of block `b` (block 9: the meta board), positive for X.
pub open spec fn block_diff(p: BoardRec, b: int) -> int {
    spec_block_score(block_occ_at(p.x, b), block_occ_at(p.o, b)) - spec_block_score(
        block_occ_at(p.o, b),
        block_occ_at(p.x, b),
    )
}

pub open spec fn sum_block_diff(p: BoardRec, n: int) -> int
    decreases n,
{
    if n <= 0 {
        0
    } else {
        sum_block_diff(p, n - 1) + block_diff(p, n - 1)
    }
}

/// +1 when X is about to move, -1 when O is.
pub open spec fn spec_side_mult(s: Side) -> int {
    match s {
        Side::X => 1,
        Side::O => -1,
    }
}

/// The static evaluation: the signed worth of the nine blocks plus ten
/// times the worth of the meta board, seen from the side to move.
pub open spec fn spec_eval(p: BoardRec) -> int {
    (sum_block_diff(p, 9) + 10 * block_diff(p, 9)) * spec_side_mult(p.to_move)
}

pub proof fn lemma_sum_block_diff_range(p: BoardRec, n: int)
    requires
        0 <= n,
    ensures
        -800 * n <= sum_block_diff(p, n) <= 800 * n,
    decreases n,
{
    if n > 0 {
        lemma_sum_block_diff_range(p, n - 1);
        lemma_block_score_range(block_occ_at(p.x, n - 1), block_occ_at(p.o, n - 1));
        lemma_block_score_range(block_occ_at(p.o, n - 1), block_occ_at(p.x, n - 1));
    }
}

/// The evaluation never leaves (-SCORE_WIN, SCORE_WIN).
pub proof fn lemma_eval_range(p: BoardRec)
    ensures
        -15200 <= spec_eval(p) <= 15200,
{
    lemma_sum_block_diff_range(p, 9);
    lemma_block_score_range(block_occ_at(p.x, 9), block_occ_at(p.o, 9));
    lemma_block_score_range(block_occ_at(p.o, 9), block_occ_at(p.x, 9));
}

/// Which side holds more captured blocks: +1 for X, -1 for O, 0 for a dead
/// tie.  Under the scoring rule applied here, a filled board counts as a win
/// for the side with more captured blocks.
pub open spec fn spec_draw_sign(p: BoardRec) -> int {
    let nx = pop9(block_occ_at(p.x, 9));
    let no = pop9(block_occ_at(p.o, 9));
    if nx > no {
        1
    } else if nx < no {
        -1
    } else {
        0
    }
}

/// The largest magnitude the evaluation scale reaches twice over: the worth
/// of a captured meta block plus every block counted for both sides.
pub fn get_double_max_score() -> (r: Score)
    ensures
        r == 22400,
{
    22400
}

/// The per-block score of every occupancy pair, indexed by
/// `own + 512 * their`.
pub struct ScoreTable {
    table: Vec<Score>,
}

impl ScoreTable {
    pub closed spec fn wf(self) -> bool {
        &&& self.table.len() == N_BLOCK33
        &&& forall|idx: int|
            0 <= idx < N_BLOCK33 ==> #[trigger] self.table[idx] == spec_block_score(
                own_of_idx(idx),
                their_of_idx(idx),
            )
    }
}

/// The weighting of the route count, in hundredths.
fn sublinear_exec(n: u8) -> (r: i32)
    ensures
        r == sublinear100(n as nat),
{
    match n {
        0 => 100,
        1 => 100,
        2 => 140,
        3 => 170,
        _ => 200,
    }
}

/// Builds the per-block score table from the classification table.
pub fn init_block_score_table(bt: &BlockTable) -> (r: ScoreTable)
    requires
        bt.wf(),
    ensures
        r.wf(),
{
    let mut table: Vec<Score> = Vec::new();
    let mut idx: usize = 0;
    while idx < N_BLOCK33
        invariant
            bt.wf(),
            idx <= N_BLOCK33,
            table.len() == idx,
            forall|j: int|
                0 <= j < idx ==> #[trigger] table[j] == spec_block_score(
                    own_of_idx(j),
                    their_of_idx(j),
                ),
        decreases N_BLOCK33 - idx,
    {
        let bs = bt.get_block_state_by_idx(idx);
        let m = bs.min_needed();
        let routes = bs.n_routes();
        let sc: Score = if m == 0 {
            800
        } else if m == 1 {
            3 * sublinear_exec(routes)
        } else if m == 2 {
            sublinear_exec(routes) / 2
        } else if m == 3 {
            10
        } else {
            0
        };
        table.push(sc);
        idx = idx + 1;
    }
    ScoreTable { table }
}

/// The signed worth of one block: this side's score minus the opponent's
/// mirrored score; positive favours the `x_occ` side.
pub fn eval_block(st: &ScoreTable, x_occ: B33, o_occ: B33) -> (r: Score)
    requires
        st.wf(),
        x_occ < 512,
        o_occ < 512,
    ensures
        r == spec_block_score(x_occ, o_occ) - spec_block_score(o_occ, x_occ),
{
    proof {
        lemma_block_score_range(x_occ, o_occ);
        lemma_block_score_range(o_occ, x_occ);
    }
    st.table[x_occ as usize + 512 * o_occ as usize] - st.table[o_occ as usize + 512
        * x_occ as usize]
}

impl Position {
    /// How many blocks this side has captured.
    fn captured_count(&self, side: Side) -> (r: u8)
        ensures
            r == pop9(block_occ_at(crate::board::side_occ(self@, side), 9)),
    {
        self.bb(side).n_captured()
    }
}

/// +1 when X is to move, -1 otherwise.
pub fn side_multiplier(side: Side) -> (r: i32)
    ensures
        r == spec_side_mult(side),
{
    match side {
        Side::X => 1,
        Side::O => -1,
    }
}

/// Sign of the captured-block lead on a filled board.
pub fn codingame_drawn(pos: &Position) -> (r: i32)
    ensures
        r == spec_draw_sign(pos@),
{
    let nx = pos.captured_count(Side::X);
    let no = pos.captured_count(Side::O);
    if nx > no {
        1
    } else if nx < no {
        -1
    } else {
        0
    }
}

/// The static evaluation of a position, from the side to move.
pub fn eval(st: &ScoreTable, pos: &Position) -> (r: Score)
    requires
        st.wf(),
    ensures
        r == spec_eval(pos@),
        -15200 <= r <= 15200,
{
    let bx = pos.bb(Side::X);
    let bo = pos.bb(Side::O);
    let mut ret: Score = 0;
    let mut bi: u8 = 0;
    while bi < 9
        invariant
            st.wf(),
            bi <= 9,
            bx@ == pos@.x,
            bo@ == pos@.o,
            ret == sum_block_diff(pos@, bi as int),
            -800 * bi <= ret <= 800 * bi,
        decreases 9 - bi,
    {
        proof {
            lemma_block_score_range(block_occ_at(pos@.x, bi as int), block_occ_at(pos@.o, bi as int));
            lemma_block_score_range(block_occ_at(pos@.o, bi as int), block_occ_at(pos@.x, bi as int));
        }
        ret = ret + eval_block(st, bx.get_block(bi), bo.get_block(bi));
        bi = bi + 1;
    }
    proof {
        lemma_block_occ_range(pos@.x, 9);
        lemma_block_occ_range(pos@.o, 9);
        lemma_block_score_range(block_occ_at(pos@.x, 9), block_occ_at(pos@.o, 9));
        lemma_block_score_range(block_occ_at(pos@.o, 9), block_occ_at(pos@.x, 9));
        lemma_eval_range(pos@);
    }
    let big_score = eval_block(st, bx.captured_occ(), bo.captured_occ());
    ret = ret + big_score * 10;
    ret * side_multiplier(pos.side_to_move())
}

/// The crude evaluation: the captured-block lead, from the side to move.
pub fn basic_eval(pos: &Position) -> (r: Score)
    ensures
        r == (pop9(block_occ_at(pos@.x, 9)) - pop9(block_occ_at(pos@.o, 9))) * spec_side_mult(
            pos@.to_move,
        ),
{
    proof {
        crate::bits::lemma_pop_bound(block_occ_at(pos@.x, 9) as u128, 16);
        crate::bits::lemma_pop_bound(block_occ_at(pos@.o, 9) as u128, 16);
    }
    let nx = pos.captured_count(Side::X) as i32;
    let no = pos.captured_count(Side::O) as i32;
    (nx - no) * side_multiplier(pos.side_to_move())
}

} // verus!
