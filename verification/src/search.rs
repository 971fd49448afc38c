//! Alpha-beta negamax search with quiescence extension and cooperative
//! cancellation.  The search value of a position is pinned down exactly by
//! the spec functions `nm` (negamax with quiescence at the horizon) and
//! `qval` (the quiescence value over the capture-in-one sets): the searcher
//! returns the true value clamped into its alpha-beta window, or reports
//! that it was stopped.

use vstd::prelude::*;
use crate::bits::{
    bit_set, pop, lemma_bit_and, lemma_pop_remove, lemma_pop_le, lemma_pop_nonzero,
    lemma_pop_pos_bit, lemma_pop_zero128,
};
use crate::block::BlockTable;
use crate::board::{
    BoardRec, Idx, Moves, NULL_IDX, Position, drawn, legal_mask, lemma_legal_mask_bits,
    lemma_legal_moves_nonempty, lemma_make_move_wf, move_legal, one_occ_mask, over, pos_wf,
    spec_make_move, won,
};
use crate::eval::{
    SCORE_LOSS, SCORE_NEG_INF, SCORE_POS_INF, SCORE_WIN, MAX_SEARCH_PLIES, Score, ScoreTable,
    codingame_drawn, eval, lemma_eval_range, side_multiplier, spec_draw_sign, spec_eval,
    spec_side_mult,
};
use std::sync::Arc;
use std::sync::atomic::{AtomicBool, Ordering};

verus! {

/// Below every value either search can produce; the base of the running
/// maxima.
pub open spec fn neg_base() -> int {
    -3000000000
}

/// The score of a filled board: a full win for whichever side captured more
/// blocks, nothing for a dead tie, seen from the side to move.
pub open spec fn spec_draw_score(p: BoardRec) -> int {
    spec_draw_sign(p) * spec_side_mult(p.to_move) * (SCORE_WIN as int)
}

/// The quiescence value of `p` with capture-in-one sets `my` (side to move)
/// and `their`: terminal positions score themselves; otherwise, if no legal
/// capture-in-one exists the static evaluation stands, else the best
/// capture, each explored with the played cell removed from both sets and
/// the sets swapped.
pub open spec fn qval(p: BoardRec, my: u128, their: u128) -> int
    decreases pop(my) + pop(their), 129int,
{
    if won(p, p.to_move.spec_other()) {
        SCORE_LOSS as int
    } else if drawn(p) {
        spec_draw_score(p)
    } else if legal_mask(p) & my == 0 {
        spec_eval(p)
    } else {
        qmax(p, my, their, 128)
    }
}

/// Maximum of the negated child quiescence values over the legal
/// capture-in-one cells below `k`.
pub open spec fn qmax(p: BoardRec, my: u128, their: u128, k: int) -> int
    decreases pop(my) + pop(their), k,
        via qmax_dec
{
    if k <= 0 {
        neg_base()
    } else {
        let rest = qmax(p, my, their, k - 1);
        let c = k - 1;
        if bit_set(legal_mask(p) & my, c) {
            let child = -qval(
                spec_make_move(p, c),
                their & !(1u128 << (c as u128)),
                my & !(1u128 << (c as u128)),
            );
            if child > rest {
                child
            } else {
                rest
            }
        } else {
            rest
        }
    }
}

/// Removing the played cell from both sets shrinks their joint size.
pub proof fn lemma_qsets_shrink(my: u128, their: u128, c: int)
    requires
        0 <= c < 128,
        bit_set(my, c),
    ensures
        pop(their & !(1u128 << (c as u128))) + pop(my & !(1u128 << (c as u128))) < pop(my) + pop(
            their,
        ),
{
    lemma_pop_remove(my, c);
    assert forall|i: int|
        0 <= i < 128 && bit_set(their & !(1u128 << (c as u128)), i) implies bit_set(
        their,
        i,
    ) by {
        lemma_bit_and(their, !(1u128 << (c as u128)), i);
    }
    lemma_pop_le(their & !(1u128 << (c as u128)), their, 128);
}

#[via_fn]
proof fn qmax_dec(p: BoardRec, my: u128, their: u128, k: int) {
    if k > 0 {
        let c = k - 1;
        if bit_set(legal_mask(p) & my, c) {
            lemma_bit_and(legal_mask(p), my, c);
            lemma_qsets_shrink(my, their, c);
        }
    }
}

/// The negamax value at depth `d`: terminal positions score themselves, the
/// horizon yields the quiescence value over the capture-in-one sets, and an
/// interior node takes the best negated child value.
pub open spec fn nm(p: BoardRec, d: nat) -> int
    decreases d, 129int,
{
    if won(p, p.to_move.spec_other()) {
        SCORE_LOSS as int
    } else if drawn(p) {
        spec_draw_score(p)
    } else if d == 0 {
        qval(p, one_occ_mask(p, p.to_move), one_occ_mask(p, p.to_move.spec_other()))
    } else {
        pmax(p, d, 128)
    }
}

/// Maximum of the negated child values over the legal moves below `k`.
pub open spec fn pmax(p: BoardRec, d: nat, k: int) -> int
    decreases d, k,
{
    if k <= 0 || d == 0 {
        neg_base()
    } else {
        let rest = pmax(p, d, k - 1);
        let c = k - 1;
        if bit_set(legal_mask(p), c) {
            let child = -nm(spec_make_move(p, c), (d - 1) as nat);
            if child > rest {
                child
            } else {
                rest
            }
        } else {
            rest
        }
    }
}

/// The value clamped into a window (the median of the three, for
/// `a <= b`).
pub open spec fn med3(a: int, b: int, x: int) -> int {
    if x < a {
        a
    } else if x > b {
        b
    } else {
        x
    }
}

// ---------------------------------------------------------------------------
// Bounds: every search value lies within the win scale.
// ---------------------------------------------------------------------------

/// A prefix maximum never exceeds a bound that every member obeys.
proof fn lemma_qmax_le(p: BoardRec, my: u128, their: u128, k: int, bnd: int)
    requires
        neg_base() <= bnd,
        forall|c: int|
            0 <= c < k && bit_set(legal_mask(p) & my, c) ==> -qval(
                spec_make_move(p, c),
                their & !(1u128 << (c as u128)),
                my & !(1u128 << (c as u128)),
            ) <= bnd,
    ensures
        qmax(p, my, their, k) <= bnd,
    decreases k,
{
    if k > 0 {
        lemma_qmax_le(p, my, their, k - 1, bnd);
    }
}

/// A prefix maximum dominates each member.
proof fn lemma_qmax_ge(p: BoardRec, my: u128, their: u128, k: int, c: int)
    requires
        0 <= c < k,
        bit_set(legal_mask(p) & my, c),
    ensures
        qmax(p, my, their, k) >= -qval(
            spec_make_move(p, c),
            their & !(1u128 << (c as u128)),
            my & !(1u128 << (c as u128)),
        ),
    decreases k,
{
    if c < k - 1 {
        lemma_qmax_ge(p, my, their, k - 1, c);
    }
}

/// The quiescence value stays within the win scale.
pub proof fn lemma_qval_bound(p: BoardRec, my: u128, their: u128)
    requires
        pos_wf(p),
        !won(p, p.to_move),
    ensures
        -100000000 <= qval(p, my, their) <= 100000000,
    decreases pop(my) + pop(their), 129int,
{
    if won(p, p.to_move.spec_other()) {
    } else if drawn(p) {
    } else if legal_mask(p) & my == 0 {
        lemma_eval_range(p);
    } else {
        let caps = legal_mask(p) & my;
        lemma_pop_nonzero(caps);
        lemma_pop_pos_bit(caps, 128);
        let w = choose|i: int| 0 <= i < 128 && bit_set(caps, i);
        lemma_legal_mask_bits(p);
        assert forall|c: int|
            0 <= c < 128 && bit_set(legal_mask(p) & my, c) implies -qval(
            spec_make_move(p, c),
            their & !(1u128 << (c as u128)),
            my & !(1u128 << (c as u128)),
        ) <= 100000000 && -qval(
            spec_make_move(p, c),
            their & !(1u128 << (c as u128)),
            my & !(1u128 << (c as u128)),
        ) >= -100000000 by {
            lemma_bit_and(legal_mask(p), my, c);
            assert(move_legal(p, c));
            lemma_make_move_wf(p, c);
            lemma_qsets_shrink(my, their, c);
            lemma_qval_bound(
                spec_make_move(p, c),
                their & !(1u128 << (c as u128)),
                my & !(1u128 << (c as u128)),
            );
        }
        lemma_qmax_le(p, my, their, 128, 100000000);
        lemma_qmax_ge(p, my, their, 128, w);
    }
}

/// A prefix maximum never exceeds a bound that every member obeys.
proof fn lemma_pmax_le(p: BoardRec, d: nat, k: int, bnd: int)
    requires
        neg_base() <= bnd,
        forall|c: int|
            0 <= c < k && bit_set(legal_mask(p), c) ==> -nm(spec_make_move(p, c), (d - 1) as nat)
                <= bnd,
    ensures
        pmax(p, d, k) <= bnd,
    decreases k,
{
    if k > 0 {
        lemma_pmax_le(p, d, k - 1, bnd);
    }
}

/// A prefix maximum dominates each member.
pub proof fn lemma_pmax_ge(p: BoardRec, d: nat, k: int, c: int)
    requires
        0 <= c < k,
        d >= 1,
        bit_set(legal_mask(p), c),
    ensures
        pmax(p, d, k) >= -nm(spec_make_move(p, c), (d - 1) as nat),
    decreases k,
{
    if c < k - 1 {
        lemma_pmax_ge(p, d, k - 1, c);
    }
}

/// The negamax value stays within the win scale.
pub proof fn lemma_nm_bound(p: BoardRec, d: nat)
    requires
        pos_wf(p),
        !won(p, p.to_move),
    ensures
        -100000000 <= nm(p, d) <= 100000000,
    decreases d, 129int,
{
    if won(p, p.to_move.spec_other()) {
    } else if drawn(p) {
    } else if d == 0 {
        lemma_qval_bound(
            p,
            one_occ_mask(p, p.to_move),
            one_occ_mask(p, p.to_move.spec_other()),
        );
    } else {
        lemma_legal_moves_nonempty(p);
        lemma_legal_mask_bits(p);
        let w = choose|i: int| move_legal(p, i);
        assert(bit_set(legal_mask(p), w));
        assert forall|c: int|
            0 <= c < 128 && bit_set(legal_mask(p), c) implies -nm(
            spec_make_move(p, c),
            (d - 1) as nat,
        ) <= 100000000 && -nm(spec_make_move(p, c), (d - 1) as nat) >= -100000000 by {
            assert(move_legal(p, c));
            lemma_make_move_wf(p, c);
            lemma_nm_bound(spec_make_move(p, c), (d - 1) as nat);
        }
        lemma_pmax_le(p, d, 128, 100000000);
        lemma_pmax_ge(p, d, 128, w);
    }
}

/// Prefix maxima are stable over stretches without legal bits.
proof fn lemma_pmax_stable(p: BoardRec, d: nat, k1: int, k2: int)
    requires
        0 <= k1 <= k2,
        forall|j: int| k1 <= j < k2 ==> !bit_set(legal_mask(p), j),
    ensures
        pmax(p, d, k2) == pmax(p, d, k1),
    decreases k2 - k1,
{
    if k1 < k2 {
        lemma_pmax_stable(p, d, k1, k2 - 1);
    }
}

proof fn lemma_qmax_stable(p: BoardRec, my: u128, their: u128, k1: int, k2: int)
    requires
        0 <= k1 <= k2,
        forall|j: int| k1 <= j < k2 ==> !bit_set(legal_mask(p) & my, j),
    ensures
        qmax(p, my, their, k2) == qmax(p, my, their, k1),
    decreases k2 - k1,
{
    if k1 < k2 {
        lemma_qmax_stable(p, my, their, k1, k2 - 1);
    }
}


// ---------------------------------------------------------------------------
// Cancellation.
// ---------------------------------------------------------------------------

/// The signal that a search was cancelled mid-recursion; it unwinds the
/// whole recursive chain without producing a partial score.
pub struct SearchStopped;

/// A shared cancellation flag: one writer sets it, every worker polls it at
/// each leaf evaluation.  Nothing is assumed about what a poll returns, so
/// everything proved of the search holds whenever the flag flips.
#[derive(Clone)]
pub struct StopFlag {
    inner: Arc<AtomicBool>,
}

impl StopFlag {
    /// A fresh, unset flag.
    pub fn new() -> StopFlag {
        StopFlag { inner: Arc::new(AtomicBool::new(false)) }
    }

    /// Requests cancellation.
    pub fn set(&self) {
        self.inner.store(true, Ordering::Relaxed);
    }

    /// Polls the flag.
    pub fn is_set(&self) -> bool {
        self.inner.load(Ordering::Relaxed)
    }
}

/// A per-thread searcher around the shared stop flag (`None`: an
/// uncancellable search, which always returns a value).
pub(crate) struct Worker {
    pub(crate) stop: Option<StopFlag>,
}

impl Worker {
    /// Polls the flag and either passes the evaluation through or reports
    /// the stop.
    fn check_time(&self, e: Score) -> (r: Result<Score, SearchStopped>)
        ensures
            match r {
                Ok(sc) => sc == e,
                Err(_) => true,
            },
            self.stop is None ==> r is Ok,
    {
        let stopped = match &self.stop {
            None => false,
            Some(f) => f.is_set(),
        };
        if stopped {
            Err(SearchStopped)
        } else {
            Ok(e)
        }
    }

    /// Quiescence search: explores only the legal capture-in-one moves of
    /// the side to move, with the played cell removed from both sets below,
    /// and returns the static evaluation once no forcing move remains.
    /// An `Ok` result is exactly the quiescence value `qval`.
    fn quiesce_search(
        &self,
        st: &ScoreTable,
        pos: Position,
        my_1occ: Moves,
        their_1occ: Moves,
    ) -> (r: Result<Score, SearchStopped>)
        requires
            st.wf(),
            pos_wf(pos@),
            !won(pos@, pos@.to_move),
        ensures
            match r {
                Ok(sc) => sc == qval(pos@, my_1occ@, their_1occ@),
                Err(_) => true,
            },
            self.stop is None ==> r is Ok,
        decreases pop(my_1occ@) + pop(their_1occ@),
    {
        let ghost p = pos@;
        let ghost my0 = my_1occ@;
        let ghost their0 = their_1occ@;
        if pos.is_won(pos.side_to_move().other()) {
            return self.check_time(SCORE_LOSS);
        }
        if pos.is_drawn() {
            let mult = codingame_drawn(&pos);
            let sm = side_multiplier(pos.side_to_move());
            proof {
                assert(mult == -1 || mult == 0 || mult == 1);
                assert(sm == -1 || sm == 1);
            }
            let t = mult * sm;
            return self.check_time(t * SCORE_WIN);
        }
        let mut captures = pos.legal_moves().intersect(my_1occ);
        let ghost caps = captures@;
        if captures.size() == 0 {
            proof {
                if caps != 0 {
                    lemma_pop_nonzero(caps);
                }
            }
            return self.check_time(eval(st, &pos));
        }
        proof {
            if caps == 0 {
                lemma_pop_zero128(128);
            }
            lemma_pop_pos_bit(caps, 128);
            lemma_legal_mask_bits(p);
        }
        let mut best: Score = SCORE_NEG_INF;
        let ghost mut k: int = 0;
        loop
            invariant
                st.wf(),
                pos_wf(p),
                pos@ == p,
                !won(p, p.to_move) && !won(p, p.to_move.spec_other()) && !drawn(p),
                my_1occ@ == my0,
                their_1occ@ == their0,
                caps == legal_mask(p) & my0,
                caps != 0,
                0 <= k <= 128,
                forall|j: int| 0 <= j < 128 ==> (bit_set(captures@, j) <==> (bit_set(caps, j) && j
                    >= k)),
                best as int == (if qmax(p, my0, their0, k) == neg_base() {
                    SCORE_NEG_INF as int
                } else {
                    qmax(p, my0, their0, k)
                }),
                qmax(p, my0, their0, k) == neg_base() || -100000000 <= qmax(p, my0, their0, k)
                    <= 100000000,
            decreases pop(captures@),
        {
            let ghost pre = captures@;
            let next = captures.next();
            match next {
                None => {
                    proof {
                        assert forall|j: int| k <= j < 128 implies !bit_set(caps, j) by {
                            crate::bits::lemma_bit_zero(j);
                        }
                        lemma_qmax_stable(p, my0, their0, k, 128);
                        lemma_pop_nonzero(caps);
                        lemma_pop_pos_bit(caps, 128);
                        lemma_legal_mask_bits(p);
                        let w = choose|i: int| 0 <= i < 128 && bit_set(caps, i);
                        lemma_bit_and(legal_mask(p), my0, w);
                        assert(move_legal(p, w));
                        lemma_make_move_wf(p, w);
                        lemma_qsets_shrink(my0, their0, w);
                        lemma_qval_bound(
                            spec_make_move(p, w),
                            their0 & !(1u128 << (w as u128)),
                            my0 & !(1u128 << (w as u128)),
                        );
                        lemma_qmax_ge(p, my0, their0, 128, w);
                    }
                    return self.check_time(best);
                },
                Some(mov) => {
                    proof {
                        assert(bit_set(pre, mov as int));
                        assert(bit_set(caps, mov as int));
                        lemma_bit_and(legal_mask(p), my0, mov as int);
                        lemma_legal_mask_bits(p);
                        assert(move_legal(p, mov as int));
                        assert forall|j: int| k <= j < mov as int implies !bit_set(caps, j) by {
                            assert(!bit_set(pre, j));
                        }
                        lemma_qmax_stable(p, my0, their0, k, mov as int);
                        lemma_make_move_wf(p, mov as int);
                        lemma_qsets_shrink(my0, their0, mov as int);
                    }
                    let mut temp = pos;
                    temp.make_move(mov);
                    let mut my2 = my_1occ;
                    my2.remove(mov);
                    let mut their2 = their_1occ;
                    their2.remove(mov);
                    proof {
                        lemma_qval_bound(temp@, their2@, my2@);
                    }
                    let sub = match self.quiesce_search(st, temp, their2, my2) {
                        Ok(v) => v,
                        Err(e) => {
                            return Err(e);
                        },
                    };
                    let sc = -sub;
                    if sc > best {
                        best = sc;
                    }
                    proof {
                        let movi = mov as int;
                        assert(qmax(p, my0, their0, movi + 1) == (if -(qval(
                            spec_make_move(p, movi),
                            their0 & !(1u128 << (movi as u128)),
                            my0 & !(1u128 << (movi as u128)),
                        )) > qmax(p, my0, their0, movi) {
                            -qval(
                                spec_make_move(p, movi),
                                their0 & !(1u128 << (movi as u128)),
                                my0 & !(1u128 << (movi as u128)),
                            )
                        } else {
                            qmax(p, my0, their0, movi)
                        }));
                        assert forall|j: int|
                            0 <= j < 128 implies (bit_set(captures@, j) <==> (bit_set(caps, j) && j
                            >= movi + 1)) by {
                            if bit_set(captures@, j) {
                                assert(bit_set(pre, j) && j != movi);
                                if j < movi {
                                    assert(!bit_set(pre, j));
                                }
                            }
                        }
                        k = movi + 1;
                    }
                },
            }
        }
    }

    /// Alpha-beta negamax to the given depth, entering quiescence search at
    /// the horizon and polling the stop flag at every leaf.  An `Ok` result
    /// is the true value `nm` itself at a terminal or horizon position, and
    /// otherwise the true value clamped into the window.
    pub(crate) fn alpha_beta_dfs(
        &self,
        st: &ScoreTable,
        depth: u16,
        pos: Position,
        alpha: Score,
        beta: Score,
    ) -> (r: Result<Score, SearchStopped>)
        requires
            st.wf(),
            pos_wf(pos@),
            !won(pos@, pos@.to_move),
            SCORE_NEG_INF <= alpha < beta <= SCORE_POS_INF,
        ensures
            match r {
                Ok(sc) => sc as int == (if won(pos@, pos@.to_move.spec_other()) || drawn(pos@)
                    || depth == 0 {
                    nm(pos@, depth as nat)
                } else {
                    med3(alpha as int, beta as int, nm(pos@, depth as nat))
                }),
                Err(_) => true,
            },
            self.stop is None ==> r is Ok,
        decreases depth,
    {
        let ghost p = pos@;
        let ghost d = depth as nat;
        if pos.is_won(pos.side_to_move().other()) {
            return self.check_time(SCORE_LOSS);
        }
        if pos.is_drawn() {
            let mult = codingame_drawn(&pos);
            let sm = side_multiplier(pos.side_to_move());
            proof {
                assert(mult == -1 || mult == 0 || mult == 1);
                assert(sm == -1 || sm == 1);
            }
            let t = mult * sm;
            return self.check_time(t * SCORE_WIN);
        }
        if depth == 0 {
            let my = pos.get_1occ(pos.side_to_move());
            let their = pos.get_1occ(pos.side_to_move().other());
            return self.quiesce_search(st, pos, my, their);
        }
        let mut moves = pos.legal_moves();
        let ghost mask = moves@;
        proof {
            lemma_legal_mask_bits(p);
        }
        let mut alpha_c: Score = alpha;
        let ghost mut k: int = 0;
        loop
            invariant
                st.wf(),
                pos_wf(p),
                pos@ == p,
                !won(p, p.to_move) && !won(p, p.to_move.spec_other()) && !drawn(p),
                depth >= 1,
                d == depth as nat,
                mask == legal_mask(p),
                SCORE_NEG_INF <= alpha < beta <= SCORE_POS_INF,
                alpha <= alpha_c < beta,
                0 <= k <= 128,
                forall|j: int| 0 <= j < 128 ==> (bit_set(moves@, j) <==> (bit_set(mask, j) && j
                    >= k)),
                alpha_c as int == med3(alpha as int, beta as int, pmax(p, d, k)),
                pmax(p, d, k) < beta,
            decreases pop(moves@),
        {
            let ghost pre = moves@;
            let next = moves.next();
            match next {
                None => {
                    proof {
                        assert forall|j: int| k <= j < 128 implies !bit_set(mask, j) by {
                            crate::bits::lemma_bit_zero(j);
                        }
                        lemma_pmax_stable(p, d, k, 128);
                    }
                    return self.check_time(alpha_c);
                },
                Some(mov) => {
                    proof {
                        assert(bit_set(pre, mov as int));
                        assert(bit_set(mask, mov as int));
                        lemma_legal_mask_bits(p);
                        assert(move_legal(p, mov as int));
                        assert forall|j: int| k <= j < mov as int implies !bit_set(mask, j) by {
                            assert(!bit_set(pre, j));
                        }
                        lemma_pmax_stable(p, d, k, mov as int);
                        lemma_make_move_wf(p, mov as int);
                    }
                    let mut temp = pos;
                    temp.make_move(mov);
                    proof {
                        lemma_nm_bound(temp@, (d - 1) as nat);
                    }
                    let sub = match self.alpha_beta_dfs(st, depth - 1, temp, -beta, -alpha_c) {
                        Ok(v) => v,
                        Err(e) => {
                            return Err(e);
                        },
                    };
                    let score = -sub;
                    let ghost movi = mov as int;
                    let ghost nmc = nm(spec_make_move(p, movi), (d - 1) as nat);
                    proof {
                        // the child handed back either its exact value or
                        // that value clamped into the child window
                        assert(sub as int == nmc || sub as int == med3(
                            -(beta as int),
                            -(alpha_c as int),
                            nmc,
                        ));
                        assert(pmax(p, d, movi + 1) == (if -nmc > pmax(p, d, movi) {
                            -nmc
                        } else {
                            pmax(p, d, movi)
                        }));
                        lemma_pmax_ge(p, d, movi + 1, movi);
                    }
                    if score >= beta {
                        proof {
                            assert(-nmc >= beta as int);
                            lemma_pmax_ge(p, d, 128, movi);
                            assert(pmax(p, d, 128) >= beta as int);
                            assert(med3(alpha as int, beta as int, nm(p, d)) == beta as int);
                        }
                        return self.check_time(beta);
                    }
                    proof {
                        assert(-nmc < beta as int);
                    }
                    if score > alpha_c {
                        alpha_c = score;
                    }
                    proof {
                        assert forall|j: int|
                            0 <= j < 128 implies (bit_set(moves@, j) <==> (bit_set(mask, j) && j
                            >= movi + 1)) by {
                            if bit_set(moves@, j) {
                                assert(bit_set(pre, j) && j != movi);
                                if j < movi {
                                    assert(!bit_set(pre, j));
                                }
                            }
                        }
                        assert(alpha_c as int == med3(alpha as int, beta as int, pmax(p, d, movi
                            + 1)));
                        k = movi + 1;
                    }
                },
            }
        }
    }
}

// ---------------------------------------------------------------------------
// Brute-force negamax (no pruning, no quiescence).
// ---------------------------------------------------------------------------

/// The plain negamax value: a loss scores -100000, a filled board 0, the
/// horizon the static evaluation, an interior node the best negated child.
pub open spec fn bf(p: BoardRec, d: nat) -> int
    decreases d, 129int,
{
    if won(p, p.to_move.spec_other()) {
        -100000
    } else if drawn(p) {
        0
    } else if d == 0 {
        spec_eval(p)
    } else {
        bfmax(p, d, 128)
    }
}

pub open spec fn bfmax(p: BoardRec, d: nat, k: int) -> int
    decreases d, k,
{
    if k <= 0 || d == 0 {
        neg_base()
    } else {
        let rest = bfmax(p, d, k - 1);
        let c = k - 1;
        if bit_set(legal_mask(p), c) {
            let child = -bf(spec_make_move(p, c), (d - 1) as nat);
            if child > rest {
                child
            } else {
                rest
            }
        } else {
            rest
        }
    }
}

proof fn lemma_bfmax_le(p: BoardRec, d: nat, k: int, bnd: int)
    requires
        neg_base() <= bnd,
        forall|c: int|
            0 <= c < k && bit_set(legal_mask(p), c) ==> -bf(spec_make_move(p, c), (d - 1) as nat)
                <= bnd,
    ensures
        bfmax(p, d, k) <= bnd,
    decreases k,
{
    if k > 0 {
        lemma_bfmax_le(p, d, k - 1, bnd);
    }
}

proof fn lemma_bfmax_ge(p: BoardRec, d: nat, k: int, c: int)
    requires
        0 <= c < k,
        d >= 1,
        bit_set(legal_mask(p), c),
    ensures
        bfmax(p, d, k) >= -bf(spec_make_move(p, c), (d - 1) as nat),
    decreases k,
{
    if c < k - 1 {
        lemma_bfmax_ge(p, d, k - 1, c);
    }
}

/// The brute-force value stays within the win scale.
pub proof fn lemma_bf_bound(p: BoardRec, d: nat)
    requires
        pos_wf(p),
        !won(p, p.to_move),
    ensures
        -100000 <= bf(p, d) <= 100000,
    decreases d, 129int,
{
    if won(p, p.to_move.spec_other()) {
    } else if drawn(p) {
    } else if d == 0 {
        lemma_eval_range(p);
    } else {
        lemma_legal_moves_nonempty(p);
        lemma_legal_mask_bits(p);
        let w = choose|i: int| move_legal(p, i);
        assert(bit_set(legal_mask(p), w));
        assert forall|c: int|
            0 <= c < 128 && bit_set(legal_mask(p), c) implies -bf(
            spec_make_move(p, c),
            (d - 1) as nat,
        ) <= 100000 && -bf(spec_make_move(p, c), (d - 1) as nat) >= -100000 by {
            assert(move_legal(p, c));
            lemma_make_move_wf(p, c);
            lemma_bf_bound(spec_make_move(p, c), (d - 1) as nat);
        }
        lemma_bfmax_le(p, d, 128, 100000);
        lemma_bfmax_ge(p, d, 128, w);
    }
}

proof fn lemma_bfmax_stable(p: BoardRec, d: nat, k1: int, k2: int)
    requires
        0 <= k1 <= k2,
        forall|j: int| k1 <= j < k2 ==> !bit_set(legal_mask(p), j),
    ensures
        bfmax(p, d, k2) == bfmax(p, d, k1),
    decreases k2 - k1,
{
    if k1 < k2 {
        lemma_bfmax_stable(p, d, k1, k2 - 1);
    }
}

/// Exhaustive negamax with no pruning: returns exactly the plain negamax
/// value of the position.
pub fn brute_force_search(st: &ScoreTable, depth: u16, pos: &mut Position) -> (r: Score)
    requires
        st.wf(),
        pos_wf(old(pos)@),
        !won(old(pos)@, old(pos)@.to_move),
    ensures
        final(pos)@ == old(pos)@,
        r as int == bf(old(pos)@, depth as nat),
    decreases depth,
{
    let ghost p = pos@;
    if pos.is_won(pos.side_to_move().other()) {
        return -100000;
    }
    if pos.is_drawn() {
        return 0;
    }
    if depth == 0 {
        return eval(st, pos);
    }
    let mut moves = pos.legal_moves();
    let ghost mask = moves@;
    proof {
        lemma_legal_mask_bits(p);
    }
    let mut max_score: Score = SCORE_NEG_INF;
    let ghost mut k: int = 0;
    loop
        invariant
            st.wf(),
            pos_wf(p),
            pos@ == p,
            !won(p, p.to_move) && !won(p, p.to_move.spec_other()) && !drawn(p),
            depth >= 1,
            mask == legal_mask(p),
            mask != 0,
            0 <= k <= 128,
            forall|j: int| 0 <= j < 128 ==> (bit_set(moves@, j) <==> (bit_set(mask, j) && j >= k)),
            max_score as int == (if bfmax(p, depth as nat, k) == neg_base() {
                SCORE_NEG_INF as int
            } else {
                bfmax(p, depth as nat, k)
            }),
            bfmax(p, depth as nat, k) == neg_base() || -100000 <= bfmax(p, depth as nat, k)
                <= 100000,
        decreases pop(moves@),
    {
        let ghost pre = moves@;
        let next = moves.next();
        match next {
            None => {
                proof {
                    assert forall|j: int| k <= j < 128 implies !bit_set(mask, j) by {
                        crate::bits::lemma_bit_zero(j);
                    }
                    lemma_bfmax_stable(p, depth as nat, k, 128);
                    lemma_pop_nonzero(mask);
                    lemma_pop_pos_bit(mask, 128);
                    lemma_legal_mask_bits(p);
                    let w = choose|i: int| 0 <= i < 128 && bit_set(mask, i);
                    assert(move_legal(p, w));
                    lemma_make_move_wf(p, w);
                    lemma_bf_bound(spec_make_move(p, w), (depth - 1) as nat);
                    lemma_bfmax_ge(p, depth as nat, 128, w);
                }
                return max_score;
            },
            Some(mov) => {
                proof {
                    assert(bit_set(pre, mov as int));
                    lemma_legal_mask_bits(p);
                    assert(move_legal(p, mov as int));
                    assert forall|j: int| k <= j < mov as int implies !bit_set(mask, j) by {
                        assert(!bit_set(pre, j));
                    }
                    lemma_bfmax_stable(p, depth as nat, k, mov as int);
                    lemma_make_move_wf(p, mov as int);
                }
                let mut temp = *pos;
                temp.make_move(mov);
                proof {
                    lemma_bf_bound(temp@, (depth - 1) as nat);
                }
                let sub = brute_force_search(st, depth - 1, &mut temp);
                let score = -sub;
                if score > max_score {
                    max_score = score;
                }
                proof {
                    let movi = mov as int;
                    assert forall|j: int|
                        0 <= j < 128 implies (bit_set(moves@, j) <==> (bit_set(mask, j) && j >= movi
                        + 1)) by {
                        if bit_set(moves@, j) {
                            assert(bit_set(pre, j) && j != movi);
                            if j < movi {
                                assert(!bit_set(pre, j));
                            }
                        }
                    }
                    k = movi + 1;
                }
            },
        }
    }
}

// ---------------------------------------------------------------------------
// Fixed-depth best move, iterative deepening, and the search manager.
// ---------------------------------------------------------------------------

/// The chosen move and the score the search gave it.
pub struct SearchResult {
    pub best_move: Idx,
    pub eval: Score,
}

/// Picks the move with the best negamax value at the given depth.  The
/// returned score is exactly the negamax value of the position, and the
/// returned move is a legal move achieving it.
pub fn best_move(st: &ScoreTable, depth: u16, pos: &Position) -> (r: (Idx, Score))
    requires
        st.wf(),
        pos_wf(pos@),
        !over(pos@),
        depth >= 1,
    ensures
        move_legal(pos@, r.0 as int),
        r.1 as int == nm(pos@, depth as nat),
        r.1 as int == -nm(spec_make_move(pos@, r.0 as int), (depth - 1) as nat),
{
    let ghost p = pos@;
    let ghost d = depth as nat;
    let worker = Worker { stop: None };
    let mut moves = pos.legal_moves();
    let ghost mask = moves@;
    proof {
        lemma_legal_mask_bits(p);
    }
    let mut best: Idx = NULL_IDX;
    let mut best_score: Score = SCORE_NEG_INF;
    let ghost mut k: int = 0;
    let ghost mut have: bool = false;
    loop
        invariant
            st.wf(),
            pos_wf(p),
            pos@ == p,
            worker.stop is None,
            !over(p),
            depth >= 1,
            d == depth as nat,
            mask == legal_mask(p),
            mask != 0,
            0 <= k <= 128,
            forall|j: int| 0 <= j < 128 ==> (bit_set(moves@, j) <==> (bit_set(mask, j) && j >= k)),
            best_score as int == (if pmax(p, d, k) == neg_base() {
                SCORE_NEG_INF as int
            } else {
                pmax(p, d, k)
            }),
            pmax(p, d, k) == neg_base() || (-100000000 <= pmax(p, d, k) <= 100000000
                && move_legal(p, best as int) && best_score as int == -nm(
                spec_make_move(p, best as int),
                (d - 1) as nat,
            )),
        decreases pop(moves@),
    {
        let ghost pre = moves@;
        let next = moves.next();
        match next {
            None => {
                proof {
                    assert forall|j: int| k <= j < 128 implies !bit_set(mask, j) by {
                        crate::bits::lemma_bit_zero(j);
                    }
                    lemma_pmax_stable(p, d, k, 128);
                    lemma_pop_nonzero(mask);
                    lemma_pop_pos_bit(mask, 128);
                    lemma_legal_mask_bits(p);
                    let w = choose|i: int| 0 <= i < 128 && bit_set(mask, i);
                    assert(move_legal(p, w));
                    lemma_make_move_wf(p, w);
                    lemma_nm_bound(spec_make_move(p, w), (d - 1) as nat);
                    lemma_pmax_ge(p, d, 128, w);
                }
                return (best, best_score);
            },
            Some(mov) => {
                proof {
                    assert(bit_set(pre, mov as int));
                    lemma_legal_mask_bits(p);
                    assert(move_legal(p, mov as int));
                    assert forall|j: int| k <= j < mov as int implies !bit_set(mask, j) by {
                        assert(!bit_set(pre, j));
                    }
                    lemma_pmax_stable(p, d, k, mov as int);
                    lemma_make_move_wf(p, mov as int);
                }
                let mut temp = *pos;
                temp.make_move(mov);
                proof {
                    lemma_nm_bound(temp@, (d - 1) as nat);
                }
                let sub = match worker.alpha_beta_dfs(st, depth - 1, temp, SCORE_NEG_INF,
                    SCORE_POS_INF) {
                    Ok(v) => v,
                    Err(_) => {
                        proof {
                            assert(false);
                        }
                        0
                    },
                };
                let ghost movi = mov as int;
                let ghost nmc = nm(spec_make_move(p, movi), (d - 1) as nat);
                proof {
                    assert(sub as int == nmc);
                }
                let score = -sub;
                if score > best_score {
                    best_score = score;
                    best = mov;
                }
                proof {
                    assert forall|j: int|
                        0 <= j < 128 implies (bit_set(moves@, j) <==> (bit_set(mask, j) && j >= movi
                        + 1)) by {
                        if bit_set(moves@, j) {
                            assert(bit_set(pre, j) && j != movi);
                            if j < movi {
                                assert(!bit_set(pre, j));
                            }
                        }
                    }
                    k = movi + 1;
                }
            },
        }
    }
}

/// Builds the two lookup tables the engines need: the block classification
/// table and the per-block score table.
pub fn init_engine() -> (r: (BlockTable, ScoreTable))
    ensures
        r.0.wf(),
        r.1.wf(),
{
    let bt = crate::block::init_moves();
    let st = crate::eval::init_block_score_table(&bt);
    (bt, st)
}

/// Owns a position snapshot and runs iterative-deepening alpha-beta over it.
#[derive(Copy, Clone)]
pub struct Manager {
    position: Position,
}

impl Manager {
    /// The position being searched.
    pub closed spec fn rec(self) -> BoardRec {
        self.position@
    }

    pub fn from_position(pos: Position) -> (r: Manager)
        ensures
            r.rec() == pos@,
    {
        Manager { position: pos }
    }

    /// Iterative-deepening search: each depth re-searches the best move
    /// first with the previous score as a bound, then the remaining moves.
    /// When the stop flag interrupts a depth, the best move of the last
    /// completed work is returned; it is always legal in the position, and
    /// any score other than the unsearched sentinel is the exact negamax
    /// value of the chosen move's position at one of the depths reached.
    pub fn search_cancellable(&self, st: &ScoreTable, stop: &StopFlag) -> (r: SearchResult)
        requires
            st.wf(),
            pos_wf(self.rec()),
            !over(self.rec()),
        ensures
            move_legal(self.rec(), r.best_move as int),
            r.eval == SCORE_NEG_INF || -100000000 <= r.eval <= 100000000,
            r.eval == SCORE_NEG_INF || exists|d: int|
                4 <= d <= 40 && r.eval as int == -(#[trigger] nm(
                    spec_make_move(self.rec(), r.best_move as int),
                    (d - 1) as nat,
                )),
    {
        let ghost p = self.rec();
        let moves = self.position.legal_moves();
        let mut best: Idx = moves.any();
        let mut best_score: Score = SCORE_NEG_INF;
        proof {
            lemma_legal_mask_bits(p);
        }
        let mut depth: u16 = 4;
        while depth <= MAX_SEARCH_PLIES
            invariant
                st.wf(),
                pos_wf(p),
                self.rec() == p,
                self.position@ == p,
                !over(p),
                move_legal(p, best as int),
                best_score == SCORE_NEG_INF || -100000000 <= best_score <= 100000000,
                best_score == SCORE_NEG_INF || exists|d: int|
                    4 <= d <= 40 && best_score as int == -(#[trigger] nm(
                        spec_make_move(p, best as int),
                        (d - 1) as nat,
                    )),
                4 <= depth,
            decreases MAX_SEARCH_PLIES + 1 - depth,
        {
            let worker = Worker { stop: Some(stop.clone()) };
            // principal-variation move first, against the previous bound
            let mut moves_copy = self.position.legal_moves();
            moves_copy.remove(best);
            let ghost mask = moves_copy@;
            proof {
                lemma_legal_mask_bits(p);
                lemma_make_move_wf(p, best as int);
            }
            let mut localpos = self.position;
            localpos.make_move(best);
            proof {
                lemma_nm_bound(localpos@, (depth - 1) as nat);
            }
            let first = worker.alpha_beta_dfs(st, depth - 1, localpos, SCORE_NEG_INF,
                -best_score);
            match first {
                Ok(sc) => {
                    let score = -sc;
                    if score > best_score && score <= 100000000 {
                        proof {
                            // a score that beats the bound was not clipped:
                            // it is the child's exact negamax value
                            assert(sc as int == nm(localpos@, (depth - 1) as nat));
                        }
                        best_score = score;
                        proof {
                            assert(4 <= depth as int <= 40 && best_score as int == -nm(
                                spec_make_move(p, best as int),
                                (depth as int - 1) as nat,
                            ));
                        }
                    }
                },
                Err(_) => {
                    return SearchResult { best_move: best, eval: best_score };
                },
            }
            // the remaining moves
            let ghost mut k: int = 0;
            loop
                invariant
                    st.wf(),
                    pos_wf(p),
                    self.position@ == p,
                    self.rec() == p,
                    !over(p),
                    move_legal(p, best as int),
                    best_score == SCORE_NEG_INF || -100000000 <= best_score <= 100000000,
                    best_score == SCORE_NEG_INF || exists|d: int|
                        4 <= d <= 40 && best_score as int == -(#[trigger] nm(
                            spec_make_move(p, best as int),
                            (d - 1) as nat,
                        )),
                    4 <= depth <= 40,
                    forall|j: int|
                        0 <= j < 128 && bit_set(moves_copy@, j) ==> bit_set(legal_mask(p), j),
                decreases pop(moves_copy@),
            {
                let ghost pre = moves_copy@;
                let next = moves_copy.next();
                match next {
                    None => {
                        break ;
                    },
                    Some(mov) => {
                        proof {
                            assert(bit_set(pre, mov as int));
                            lemma_legal_mask_bits(p);
                            assert(move_legal(p, mov as int));
                            lemma_make_move_wf(p, mov as int);
                        }
                        let mut temp = self.position;
                        temp.make_move(mov);
                        proof {
                            lemma_nm_bound(temp@, (depth - 1) as nat);
                        }
                        let sub = worker.alpha_beta_dfs(st, depth - 1, temp, SCORE_NEG_INF,
                            -best_score);
                        match sub {
                            Ok(sc) => {
                                let score = -sc;
                                if score > best_score && score <= 100000000 {
                                    proof {
                                        assert(sc as int == nm(temp@, (depth - 1) as nat));
                                    }
                                    best_score = score;
                                    best = mov;
                                    proof {
                                        assert(4 <= depth as int <= 40 && best_score as int
                                            == -nm(
                                            spec_make_move(p, best as int),
                                            (depth as int - 1) as nat,
                                        ));
                                    }
                                }
                            },
                            Err(_) => {
                                return SearchResult { best_move: best, eval: best_score };
                            },
                        }
                    },
                }
            }
            depth = depth + 1;
        }
        SearchResult { best_move: best, eval: best_score }
    }
}

} // verus!
