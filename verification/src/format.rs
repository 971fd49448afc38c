//! Text import and export of positions: replaying a comma-separated move
//! list, the compact per-block hex notation, the 133-character compact board,
//! and the human-readable board.  Imported text is validated: a position is
//! only handed out when it satisfies the board invariant.

use vstd::prelude::*;
use vstd::string::StrSliceExecFns;
use vstd::string::StringSliceAdditionalSpecFns;
use crate::bits::{
    bit_set, lemma_bit_or, lemma_bit_single, lemma_bit_zero, lemma_high_bits_zero,
};
use crate::block::{occ_wins, occ_hopeless, get_block_won, get_block_hopeless, pop9_count};
use crate::board::{
    Bitboard, BoardRec, Position, Side, bb_wf, bit9, block_occ_at, captured_at, empty_board,
    lemma_bit9_ext, lemma_bit9_single, lemma_bit9_or, lemma_block_fill_bit, lemma_block_occ_bit,
    lemma_bit9_full, lemma_full_block_wins, move_legal, over, pos_wf, spec_make_move,
};

verus! {

/// The position reached by replaying `ms` from the start: `None` as soon as
/// a move is illegal or the game is already over.
pub open spec fn spec_replay(ms: Seq<u8>) -> Option<BoardRec>
    decreases ms.len(),
{
    if ms.len() == 0 {
        Some(empty_board())
    } else {
        match spec_replay(ms.drop_last()) {
            None => None,
            Some(p) => {
                if !over(p) && move_legal(p, ms.last() as int) {
                    Some(spec_make_move(p, ms.last() as int))
                } else {
                    None
                }
            },
        }
    }
}

/// Replays a list of cell indices from the empty position, refusing the
/// list as soon as a move is illegal.
pub fn replay_moves(ms: &Vec<u8>) -> (r: Option<Position>)
    ensures
        match r {
            Some(p) => spec_replay(ms@) == Some(p@) && pos_wf(p@),
            None => spec_replay(ms@) is None,
        },
{
    let mut pos = Position::new();
    let mut k: usize = 0;
    proof {
        assert(ms@.subrange(0, 0) =~= Seq::<u8>::empty());
    }
    while k < ms.len()
        invariant
            k <= ms.len(),
            spec_replay(ms@.subrange(0, k as int)) == Some(pos@),
            pos_wf(pos@),
        decreases ms.len() - k,
    {
        let mov = ms[k];
        if pos.is_over() {
            proof {
                assert(ms@.subrange(0, k as int + 1).drop_last() =~= ms@.subrange(0, k as int));
                lemma_replay_prefix_none(ms@, k as int + 1);
            }
            return None;
        }
        let legal = mov < 128 && pos.legal_moves().contains(mov);
        if !legal {
            proof {
                assert(ms@.subrange(0, k as int + 1).drop_last() =~= ms@.subrange(0, k as int));
                crate::board::lemma_legal_mask_bits(pos@);
                lemma_replay_prefix_none(ms@, k as int + 1);
            }
            return None;
        }
        proof {
            crate::board::lemma_legal_mask_bits(pos@);
        }
        pos.make_move(mov);
        proof {
            assert(ms@.subrange(0, k as int + 1).drop_last() =~= ms@.subrange(0, k as int));
        }
        k = k + 1;
    }
    proof {
        assert(ms@.subrange(0, ms@.len() as int) =~= ms@);
    }
    Some(pos)
}

/// Once a prefix replays to nothing, the whole list does.
proof fn lemma_replay_prefix_none(ms: Seq<u8>, k: int)
    requires
        0 <= k <= ms.len(),
        spec_replay(ms.subrange(0, k)) is None,
    ensures
        spec_replay(ms) is None,
    decreases ms.len() - k,
{
    if k < ms.len() {
        assert(ms.subrange(0, k + 1).drop_last() =~= ms.subrange(0, k));
        lemma_replay_prefix_none(ms, k + 1);
    } else {
        assert(ms.subrange(0, k) =~= ms);
    }
}

/// The tokenizer of a comma-separated move list, continued from position
/// `k` with the moves already collected, the value of the number being
/// read, and whether its digits have started: each comma ends a number
/// (which must exist and stay below 256), blanks may only follow a number
/// until its comma, and anything else refuses the text.
pub open spec fn parse_move_list_from(
    bs: Seq<u8>,
    k: int,
    acc: Seq<u8>,
    cur: int,
    have: bool,
) -> Option<Seq<u8>>
    decreases bs.len() - k,
{
    if k < 0 || k >= bs.len() {
        if have {
            Some(acc.push(cur as u8))
        } else {
            None
        }
    } else {
        let c = bs[k];
        if 48 <= c <= 57 {
            let cur2 = cur * 10 + (c - 48);
            if cur2 > 255 {
                None
            } else {
                parse_move_list_from(bs, k + 1, acc, cur2, true)
            }
        } else if c == 44 {
            if !have {
                None
            } else {
                parse_move_list_from(bs, k + 1, acc.push(cur as u8), 0, false)
            }
        } else if c == 32 || c == 9 || c == 10 || c == 13 {
            if have && k + 1 < bs.len() && 48 <= bs[k + 1] <= 57 {
                None
            } else {
                parse_move_list_from(bs, k + 1, acc, cur, have)
            }
        } else {
            None
        }
    }
}

/// The move indices a comma-separated move list encodes, if it is well
/// formed.
pub open spec fn spec_parse_move_list(bs: Seq<u8>) -> Option<Seq<u8>> {
    parse_move_list_from(bs, 0, Seq::empty(), 0, false)
}

impl Position {
    /// Replays a comma-separated list of decimal cell indices, for example
    /// `"0, 3, 27"`: exactly the replay of the move indices the text
    /// encodes, and nothing when the text is not of that shape or a move is
    /// illegal when its turn comes.
    pub fn from_move_list(repr: &str) -> (r: Option<Position>)
        ensures
            match spec_parse_move_list(repr.spec_bytes()) {
                Some(ms) => match spec_replay(ms) {
                    Some(p) => r is Some && r->Some_0@ == p,
                    None => r is None,
                },
                None => r is None,
            },
            match r {
                Some(p) => pos_wf(p@),
                None => true,
            },
    {
        let bytes = vstd::slice::slice_to_vec(repr.as_bytes());
        let ghost bs = bytes@;
        let mut moves: Vec<u8> = Vec::new();
        let mut cur: u32 = 0;
        let mut have_digit = false;
        let mut k: usize = 0;
        proof {
            assert(moves@ =~= Seq::<u8>::empty());
        }
        while k < bytes.len()
            invariant
                cur < 256,
                k <= bytes.len(),
                bytes@ == bs,
                bs == repr.spec_bytes(),
                spec_parse_move_list(bs) == parse_move_list_from(
                    bs,
                    k as int,
                    moves@,
                    cur as int,
                    have_digit,
                ),
            decreases bytes.len() - k,
        {
            let c = bytes[k];
            let ghost pre_cur = cur as int;
            let ghost pre_acc = moves@;
            let ghost pre_have = have_digit;
            if c >= 48 && c <= 57 {
                cur = cur * 10 + (c - 48) as u32;
                if cur > 255 {
                    proof {
                        assert(parse_move_list_from(bs, k as int, pre_acc, pre_cur, pre_have)
                            is None);
                    }
                    return None;
                }
                have_digit = true;
            } else if c == 44 {
                if !have_digit {
                    proof {
                        assert(parse_move_list_from(bs, k as int, pre_acc, pre_cur, pre_have)
                            is None);
                    }
                    return None;
                }
                moves.push(cur as u8);
                cur = 0;
                have_digit = false;
            } else if c == 32 || c == 9 || c == 10 || c == 13 {
                if have_digit {
                    // a number already ended; only separators may follow
                    // until the next comma
                    if k + 1 < bytes.len() {
                        let n = bytes[k + 1];
                        if n >= 48 && n <= 57 {
                            proof {
                                assert(parse_move_list_from(bs, k as int, pre_acc, pre_cur,
                                    pre_have) is None);
                            }
                            return None;
                        }
                    }
                }
            } else {
                proof {
                    assert(parse_move_list_from(bs, k as int, pre_acc, pre_cur, pre_have)
                        is None);
                }
                return None;
            }
            k = k + 1;
        }
        if !have_digit {
            proof {
                assert(parse_move_list_from(bs, k as int, moves@, cur as int, have_digit)
                    is None);
            }
            return None;
        }
        moves.push(cur as u8);
        proof {
            assert(spec_parse_move_list(bs) == Some(moves@));
        }
        let r = replay_moves(&moves);
        proof {
            if r is Some {
                assert(spec_replay(moves@) == Some(r->Some_0@));
            }
        }
        r
    }
}

// ---------------------------------------------------------------------------
// Building a side's word from nine block occupancies.
// ---------------------------------------------------------------------------

/// Builds one side's word from its nine 9-bit block occupancies, applying
/// the capture bit and the capture fill to each block that holds a winning
/// line.
fn build_side_word(occs: &Vec<u16>) -> (r: Bitboard)
    requires
        occs.len() == 9,
        forall|b: int| 0 <= b < 9 ==> occs[b] < 512,
    ensures
        bb_wf(r@),
        forall|b: int|
            0 <= b < 9 ==> block_occ_at(r@, b) == (if occ_wins(occs[b]) {
                0x1ffu16
            } else {
                occs[b]
            }),
        forall|b: int| 0 <= b < 9 ==> (captured_at(r@, b) == occ_wins(occs[b])),
    {
    let mut w: u128 = 0;
    let mut b: u8 = 0;
    proof {
        assert forall|i: int| 0 <= i < 128 implies !bit_set(0u128, i) by {
            lemma_bit_zero(i);
        }
    }
    while b < 9
        invariant
            b <= 9,
            occs.len() == 9,
            forall|c: int| 0 <= c < 9 ==> occs[c] < 512,
            forall|i: int|
                0 <= i < 128 && bit_set(w, i) ==> (i < 9 * b || (81 <= i < 81 + b)),
            forall|c: int|
                0 <= c < b ==> block_occ_at(w, c) == (if occ_wins(occs[c]) {
                    0x1ffu16
                } else {
                    occs[c]
                }),
            forall|c: int| 0 <= c < b ==> (captured_at(w, c) == occ_wins(occs[c])),
        decreases 9 - b,
    {
        let occ = occs[b as usize];
        let won = get_block_won(occ);
        let add: u128 = if won {
            (0x1ffu128 << (9 * b as u128)) | (1u128 << ((81 + b) as u128))
        } else {
            (occ as u128) << (9 * b as u128)
        };
        let ghost w0 = w;
        proof {
            let bi = b as int;
            assert forall|i: int|
                0 <= i < 128 implies (bit_set(w0 | add, i) <==> (bit_set(w0, i) || bit_set(
                add,
                i,
            ))) by {
                lemma_bit_or(w0, add, i);
            }
            assert forall|i: int| 0 <= i < 128 && bit_set(add, i) implies (9 * bi <= i < 9 * bi
                + 9 || i == 81 + bi) by {
                if won {
                    lemma_bit_or(0x1ffu128 << (9 * bi) as u128, 1u128 << ((81 + bi) as u128), i);
                    lemma_block_fill_bit(bi, i);
                    lemma_bit_single(81 + bi, i);
                } else {
                    lemma_shifted_occ_range(occ, bi, i);
                }
            }
            // Blocks already built keep their contents.
            assert forall|c: int| 0 <= c < bi implies block_occ_at(w0 | add, c) == block_occ_at(
                w0,
                c,
            ) by {
                assert forall|j: int|
                    0 <= j < 16 implies (bit9(block_occ_at(w0 | add, c), j) <==> bit9(
                    block_occ_at(w0, c),
                    j,
                )) by {
                    lemma_block_occ_bit(w0 | add, c, j);
                    lemma_block_occ_bit(w0, c, j);
                }
                lemma_bit9_ext(block_occ_at(w0 | add, c), block_occ_at(w0, c));
            }
            // The new block gets exactly the intended occupancy.
            assert(block_occ_at(w0 | add, bi) == (if won {
                0x1ffu16
            } else {
                occ
            })) by {
                let target: u16 = if won {
                    0x1ff
                } else {
                    occ
                };
                assert forall|j: int|
                    0 <= j < 16 implies (bit9(block_occ_at(w0 | add, bi), j) <==> bit9(
                    target,
                    j,
                )) by {
                    lemma_block_occ_bit(w0 | add, bi, j);
                    if won {
                        lemma_bit9_full(j);
                        if j < 9 {
                            lemma_bit_or(
                                0x1ffu128 << (9 * bi) as u128,
                                1u128 << ((81 + bi) as u128),
                                9 * bi + j,
                            );
                            lemma_block_fill_bit(bi, 9 * bi + j);
                            lemma_bit_single(81 + bi, 9 * bi + j);
                        }
                    } else {
                        if j < 9 {
                            lemma_shifted_occ_bit_at(occ, bi, j);
                        } else {
                            lemma_occ16_high_bit(occ, j);
                        }
                    }
                }
                lemma_bit9_ext(block_occ_at(w0 | add, bi), target);
            }
            // Capture bits.
            assert forall|c: int| 0 <= c < 9 implies (captured_at(w0 | add, c) == (if c < bi {
                occ_wins(occs[c])
            } else if c == bi {
                won
            } else {
                false
            })) by {
                lemma_bit_or(w0, add, 81 + c);
                assert(captured_at(w0 | add, c) <==> (bit_set(w0, 81 + c) || bit_set(
                    add,
                    81 + c,
                )));
                if c < bi {
                    assert(captured_at(w0, c) == occ_wins(occs[c]));
                } else if bit_set(w0, 81 + c) {
                    assert(81 + c < 9 * bi || 81 <= 81 + c < 81 + bi);
                    assert(false);
                }
                if won {
                    lemma_bit_or(0x1ffu128 << (9 * bi) as u128, 1u128 << ((81 + bi) as u128), 81
                        + c);
                    lemma_block_fill_bit(bi, 81 + c);
                    lemma_bit_single(81 + bi, 81 + c);
                } else {
                    if bit_set(add, 81 + c) {
                        lemma_shifted_occ_range(occ, bi, 81 + c);
                    }
                }
            }
            if won {
                lemma_full_block_wins();
            }
            // The combined per-block description, in the invariant's shape.
            assert forall|c: int| 0 <= c < bi + 1 implies #[trigger] block_occ_at(w0 | add, c)
                == (if occ_wins(occs[c]) {
                0x1ffu16
            } else {
                occs[c]
            }) by {
                if c < bi {
                    assert(block_occ_at(w0, c) == (if occ_wins(occs[c]) {
                        0x1ffu16
                    } else {
                        occs[c]
                    }));
                }
            }
            // Every bit of the grown word stays inside the grown region.
            assert forall|i: int|
                0 <= i < 128 && bit_set(w0 | add, i) implies (i < 9 * (bi + 1) || (81 <= i < 81
                + (bi + 1))) by {
                lemma_bit_or(w0, add, i);
            }
        }
        w = w | add;
        b = b + 1;
    }
    proof {
        lemma_high_bits_zero(w, 90);
        lemma_full_block_wins();
        assert forall|c: int|
            0 <= c < 9 implies (#[trigger] captured_at(w, c) <==> occ_wins(
            block_occ_at(w, c),
        )) by {
            assert(captured_at(w, c) == occ_wins(occs[c]));
            assert(block_occ_at(w, c) == (if occ_wins(occs[c]) {
                0x1ffu16
            } else {
                occs[c]
            }));
        }
        assert(bb_wf(w));
    }
    Bitboard::from_word(w)
}

/// A shifted 9-bit occupancy has bits only inside its block.
proof fn lemma_shifted_occ_range(occ: u16, b: int, i: int)
    requires
        occ < 512,
        0 <= b <= 9,
        0 <= i < 128,
        bit_set((occ as u128) << ((9 * b) as u128), i),
    ensures
        9 * b <= i < 9 * b + 9,
{
    let bu = b as u128;
    let iu = i as u128;
    let ou = occ as u128;
    assert((((ou << (9 * bu)) >> iu) & 1 == 1) ==> (9 * bu <= iu && iu < 9 * bu + 9))
        by (bit_vector)
        requires
            ou < 512 && bu <= 9 && iu < 128,
    ;
}

/// Bit `j` of a block's slot in a shifted 9-bit occupancy.
proof fn lemma_shifted_occ_bit_at(occ: u16, b: int, j: int)
    requires
        occ < 512,
        0 <= b <= 9,
        0 <= j < 16,
    ensures
        bit_set((occ as u128) << ((9 * b) as u128), 9 * b + j) <==> (j < 9 && bit9(occ, j)),
{
    let bu = b as u128;
    let ju = j as u128;
    let ou = occ as u128;
    assert((((ou << (9 * bu)) >> (9 * bu + ju)) & 1 == 1) <==> (ju < 9 && ((ou >> ju) & 1 == 1)))
        by (bit_vector)
        requires
            ou < 512 && bu <= 9 && ju < 16,
    ;
}

/// A 9-bit occupancy has no bits at 9 and above.
proof fn lemma_occ16_high_bit(occ: u16, j: int)
    requires
        occ < 512,
        9 <= j < 16,
    ensures
        !bit9(occ, j),
{
    let ou = occ as u128;
    let ju = j as u128;
    assert(ou < 512 && 9 <= ju < 16 ==> ((ou >> ju) & 1 != 1)) by (bit_vector);
}

/// Validates two sides' words against each other and assembles a position:
/// no block may be captured by both sides, and inside an undecided block the
/// sides must not overlap.  The hopeless masks are recomputed from scratch.
fn assemble_position(bx: Bitboard, bo: Bitboard, to_move: Side, last_block: u8) -> (r: Option<
    Position,
>)
    requires
        bb_wf(bx@),
        bb_wf(bo@),
        last_block <= 9,
    ensures
        match r {
            Some(p) => pos_wf(p@) && p@.x == bx@ && p@.o == bo@ && p@.to_move == to_move
                && p@.last_block == last_block,
            None => true,
        },
{
    let mut hop_x: u16 = 0;
    let mut hop_o: u16 = 0;
    let mut b: u8 = 0;
    proof {
        assert forall|c: int| 0 <= c < 16 implies !bit9(0u16, c) by {
            lemma_bit_zero(c);
        }
    }
    while b < 9
        invariant
            b <= 9,
            bb_wf(bx@),
            bb_wf(bo@),
            hop_x < 512,
            hop_o < 512,
            forall|c: int|
                0 <= c < b ==> !(#[trigger] captured_at(bx@, c) && captured_at(bo@, c)),
            forall|c: int|
                0 <= c < b && !captured_at(bx@, c) && !captured_at(bo@, c)
                    ==> #[trigger] block_occ_at(bx@, c) & block_occ_at(bo@, c) == 0,
            forall|c: int|
                0 <= c < 16 ==> (#[trigger] bit9(hop_x, c) <==> (c < b && occ_hopeless(
                    block_occ_at(bo@, c),
                ))),
            forall|c: int|
                0 <= c < 16 ==> (#[trigger] bit9(hop_o, c) <==> (c < b && occ_hopeless(
                    block_occ_at(bx@, c),
                ))),
        decreases 9 - b,
    {
        let cx = bx.has_captured(b);
        let co = bo.has_captured(b);
        if cx && co {
            return None;
        }
        let xb = bx.get_block(b);
        let ob = bo.get_block(b);
        if !cx && !co && (xb & ob) != 0 {
            return None;
        }
        let ghost hop_x0 = hop_x;
        let ghost hop_o0 = hop_o;
        if get_block_hopeless(ob) {
            hop_x = hop_x | (1u16 << b);
        }
        if get_block_hopeless(xb) {
            hop_o = hop_o | (1u16 << b);
        }
        proof {
            assert forall|c: int| 0 <= c < 16 implies (#[trigger] bit9(hop_x, c) <==> (c < b + 1
                && occ_hopeless(block_occ_at(bo@, c)))) by {
                crate::board::lemma_hopmask_or(hop_x0, b as u16, c);
                lemma_bit9_or(hop_x0, 1u16 << (b as u16), c);
                lemma_bit9_single(b as int, c);
            }
            assert forall|c: int| 0 <= c < 16 implies (#[trigger] bit9(hop_o, c) <==> (c < b + 1
                && occ_hopeless(block_occ_at(bx@, c)))) by {
                crate::board::lemma_hopmask_or(hop_o0, b as u16, c);
                lemma_bit9_or(hop_o0, 1u16 << (b as u16), c);
                lemma_bit9_single(b as int, c);
            }
            assert(hop_x < 512 && hop_o < 512) by {
                crate::board::lemma_hopmask_or(hop_x0, b as u16, 0);
                crate::board::lemma_hopmask_or(hop_o0, b as u16, 0);
            }
        }
        b = b + 1;
    }
    let r = Position::from_parts(bx, bo, to_move, hop_x, hop_o, last_block);
    Some(r)
}


/// Bounds of the three hex digits of a 9-bit occupancy.
proof fn lemma_hex_parts(occ: u16)
    requires
        occ < 512,
    ensures
        occ >> 8 < 16,
        (occ >> 4) & 15 < 16,
        occ & 15 < 16,
        occ < 16 ==> occ >> 4 == 0,
{
    assert(occ < 512 ==> (occ >> 8 < 16 && (occ >> 4) & 15 < 16 && occ & 15 < 16 && (occ < 16
        ==> occ >> 4 == 0))) by (bit_vector);
}

/// Appends one lower-case hex digit.
fn push_hex_digit(s: &mut String, v: u16)
    requires
        v < 16,
{
    match v {
        0 => s.append("0"),
        1 => s.append("1"),
        2 => s.append("2"),
        3 => s.append("3"),
        4 => s.append("4"),
        5 => s.append("5"),
        6 => s.append("6"),
        7 => s.append("7"),
        8 => s.append("8"),
        9 => s.append("9"),
        10 => s.append("a"),
        11 => s.append("b"),
        12 => s.append("c"),
        13 => s.append("d"),
        14 => s.append("e"),
        _ => s.append("f"),
    }
}

/// Value of one hex digit byte, if it is one.
fn hex_digit_value(c: u8) -> (r: Option<u8>)
    ensures
        match r {
            Some(v) => v < 16,
            None => true,
        },
{
    if c >= 48 && c <= 57 {
        Some(c - 48)
    } else if c >= 97 && c <= 102 {
        Some(c - 97 + 10)
    } else if c >= 65 && c <= 70 {
        Some(c - 65 + 10)
    } else {
        None
    }
}

/// Parses nine `/`-separated hex block occupancies.
fn parse_bgn_side(tok: &Vec<u8>) -> (r: Option<Vec<u16>>)
    ensures
        match r {
            Some(v) => v.len() == 9 && forall|b: int| 0 <= b < 9 ==> v[b] < 512,
            None => true,
        },
{
    let mut occs: Vec<u16> = Vec::new();
    let mut cur: u16 = 0;
    let mut have_digit = false;
    let mut k: usize = 0;
    while k < tok.len()
        invariant
            cur < 512,
            occs.len() <= 9,
            forall|b: int| 0 <= b < occs.len() ==> occs[b] < 512,
        decreases tok.len() - k,
    {
        let c = tok[k];
        if c == 47 {
            if !have_digit || occs.len() >= 9 {
                return None;
            }
            occs.push(cur);
            cur = 0;
            have_digit = false;
        } else {
            match hex_digit_value(c) {
                Some(v) => {
                    let next: u32 = (cur as u32) * 16 + (v as u32);
                    if next > 511 {
                        return None;
                    }
                    cur = next as u16;
                    have_digit = true;
                },
                None => {
                    return None;
                },
            }
        }
        k = k + 1;
    }
    if !have_digit || occs.len() != 9 - 1 {
        if occs.len() == 8 && have_digit {
        } else {
            return None;
        }
    }
    occs.push(cur);
    Some(occs)
}

/// Splits a byte string on ASCII whitespace.
fn split_whitespace_bytes(bytes: &Vec<u8>) -> (r: Vec<Vec<u8>>) {
    let mut toks: Vec<Vec<u8>> = Vec::new();
    let mut cur: Vec<u8> = Vec::new();
    let mut k: usize = 0;
    while k < bytes.len()
        decreases bytes.len() - k,
    {
        let c = bytes[k];
        if c == 32 || c == 9 || c == 10 || c == 13 {
            if cur.len() > 0 {
                toks.push(cur);
                cur = Vec::new();
            }
        } else {
            cur.push(c);
        }
        k = k + 1;
    }
    if cur.len() > 0 {
        toks.push(cur);
    }
    toks
}

impl Position {
    /// Parses the compact block-game notation: the level (`2`), the nine
    /// `/`-separated hex block occupancies of X and of O, the forced block
    /// (`0`-`8`, or `9` for a free choice), and the side to move.  Refuses
    /// text that does not encode a well-formed position, and, on boards
    /// without captured blocks, stone counts that could not come from
    /// alternating play.
    pub fn from_bgn(repr: &str) -> (r: Option<Position>)
        ensures
            match r {
                Some(p) => pos_wf(p@),
                None => true,
            },
    {
        let bytes = repr.as_bytes_vec();
        let toks = split_whitespace_bytes(&bytes);
        if toks.len() != 5 {
            return None;
        }
        if toks[0].len() != 1 {
            return None;
        }
        if toks[0][0] != 50 {
            return None;
        }
        let x_occs = match parse_bgn_side(&toks[1]) {
            Some(v) => v,
            None => {
                return None;
            },
        };
        let o_occs = match parse_bgn_side(&toks[2]) {
            Some(v) => v,
            None => {
                return None;
            },
        };
        // The stone counts must come from alternating play: X has as many
        // stones as O, or exactly one more.  A captured block is written
        // completely filled, which hides how many stones its winner really
        // placed, so the count test is only decidable - and only applied -
        // while no block is captured.
        let mut n_x: u32 = 0;
        let mut n_o: u32 = 0;
        let mut any_captured = false;
        let mut b: usize = 0;
        while b < 9
            invariant
                b <= 9,
                x_occs.len() == 9,
                o_occs.len() == 9,
                forall|c: int| 0 <= c < 9 ==> x_occs[c] < 512,
                forall|c: int| 0 <= c < 9 ==> o_occs[c] < 512,
                n_x <= 16 * b,
                n_o <= 16 * b,
            decreases 9 - b,
        {
            n_x = n_x + pop9_count(x_occs[b]) as u32;
            n_o = n_o + pop9_count(o_occs[b]) as u32;
            if get_block_won(x_occs[b]) || get_block_won(o_occs[b]) {
                any_captured = true;
            }
            b = b + 1;
        }
        if !any_captured && !(n_x == n_o || n_x == n_o + 1) {
            return None;
        }
        if toks[3].len() != 1 {
            return None;
        }
        let fb = toks[3][0];
        if !(fb >= 48 && fb <= 57) {
            return None;
        }
        let last_block = fb - 48;
        if toks[4].len() != 1 {
            return None;
        }
        let to_move = if toks[4][0] == 88 {
            Side::X
        } else if toks[4][0] == 79 {
            Side::O
        } else {
            return None;
        };
        let bx = build_side_word(&x_occs);
        let bo = build_side_word(&o_occs);
        assemble_position(bx, bo, to_move, last_block)
    }

    /// Renders the position in the compact block-game notation that
    /// `from_bgn` reads back.
    pub fn to_bgn(&self) -> String
        requires
            pos_wf(self@),
    {
        let mut s = String::new();
        s.append("2 ");
        self.push_side_bgn(&mut s, Side::X);
        s.append(" ");
        self.push_side_bgn(&mut s, Side::O);
        s.append(" ");
        push_digit(&mut s, self.last_block_value());
        s.append(" ");
        match self.side_to_move() {
            Side::X => s.append("X"),
            Side::O => s.append("O"),
        }
        s
    }

    fn push_side_bgn(&self, s: &mut String, side: Side) {
        let bb = self.bb(side);
        let mut bi: u8 = 0;
        while bi < 9
            decreases 9 - bi,
        {
            let occ = bb.get_block(bi);
            proof {
                lemma_hex_parts(occ);
            }
            if occ >= 256 {
                push_hex_digit(s, occ >> 8);
                push_hex_digit(s, (occ >> 4) & 15);
                push_hex_digit(s, occ & 15);
            } else if occ >= 16 {
                push_hex_digit(s, (occ >> 4) & 15);
                push_hex_digit(s, occ & 15);
            } else {
                push_hex_digit(s, occ);
            }
            if bi < 8 {
                s.append("/");
            }
            bi = bi + 1;
        }
    }
}

/// The character of one decimal digit.
pub open spec fn digit_char(v: u8) -> char {
    if v == 0 {
        '0'
    } else if v == 1 {
        '1'
    } else if v == 2 {
        '2'
    } else if v == 3 {
        '3'
    } else if v == 4 {
        '4'
    } else if v == 5 {
        '5'
    } else if v == 6 {
        '6'
    } else if v == 7 {
        '7'
    } else if v == 8 {
        '8'
    } else {
        '9'
    }
}

/// A cell's text index lies inside its own row's 24 characters.
proof fn lemma_pretty_index_bound(r0: int, c0: int)
    requires
        0 <= r0 < 9,
        0 <= c0 < 9,
    ensures
        24 * r0 + (if r0 > 2 {
            24int
        } else {
            0int
        }) + (if r0 > 5 {
            24int
        } else {
            0int
        }) <= pretty_cell_index(r0, c0),
        pretty_cell_index(r0, c0) < 24 * r0 + (if r0 > 2 {
            24int
        } else {
            0int
        }) + (if r0 > 5 {
            24int
        } else {
            0int
        }) + 22,
{
}

/// The index of cell (row, col) in the pretty board text: 24 characters
/// per row plus a full separator row after board rows 2 and 5, and inside a
/// row two characters per cell plus a two-character bar after columns 2 and
/// 5, the cell character second.
pub open spec fn pretty_cell_index(row: int, col: int) -> int {
    24 * row + (if row > 2 {
        24int
    } else {
        0int
    }) + (if row > 5 {
        24int
    } else {
        0int
    }) + 2 * col + (if col > 2 {
        2int
    } else {
        0int
    }) + (if col > 5 {
        2int
    } else {
        0int
    }) + 1
}

/// The character printed for cell (row, col) of the 9x9 grid: `X`, `O` or
/// `-` by the occupancy of the cell's board index.
pub open spec fn pretty_cell_char(p: BoardRec, row: int, col: int) -> char {
    let idx = (row / 3 * 3 + col / 3) * 9 + ((row % 3) * 3 + col % 3);
    if bit_set(p.x, idx) {
        'X'
    } else if bit_set(p.o, idx) {
        'O'
    } else {
        '-'
    }
}

/// Two positions whose pretty boards are pinned by the rendering contract
/// and come out as the same text agree on every cell character, the side to
/// move and the forced block: equal renderings are equal observations.
pub proof fn lemma_pretty_board_determines(p: BoardRec, q: BoardRec, sp: Seq<char>, sq: Seq<char>)
    requires
        p.last_block <= 9,
        q.last_block <= 9,
        forall|r0: int, c0: int|
            0 <= r0 < 9 && 0 <= c0 < 9 ==> sp[pretty_cell_index(r0, c0)]
                == #[trigger] pretty_cell_char(p, r0, c0),
        forall|r0: int, c0: int|
            0 <= r0 < 9 && 0 <= c0 < 9 ==> sq[pretty_cell_index(r0, c0)]
                == #[trigger] pretty_cell_char(q, r0, c0),
        sp[263] == (if p.to_move == Side::X {
            'X'
        } else {
            'O'
        }),
        sq[263] == (if q.to_move == Side::X {
            'X'
        } else {
            'O'
        }),
        sp[264] == (if p.last_block == 9 {
            '-'
        } else {
            digit_char(p.last_block)
        }),
        sq[264] == (if q.last_block == 9 {
            '-'
        } else {
            digit_char(q.last_block)
        }),
        sp == sq,
    ensures
        forall|r0: int, c0: int|
            0 <= r0 < 9 && 0 <= c0 < 9 ==> #[trigger] pretty_cell_char(p, r0, c0)
                == pretty_cell_char(q, r0, c0),
        p.to_move == q.to_move,
        p.last_block == q.last_block,
{
}

/// Appends one decimal digit 0 to 9.
fn push_digit(s: &mut String, v: u8)
    requires
        v <= 9,
    ensures
        final(s)@ == old(s)@.push(digit_char(v)),
        final(s)@.len() == old(s)@.len() + 1,
{
    proof {
        reveal_strlit("0");
        reveal_strlit("1");
        reveal_strlit("2");
        reveal_strlit("3");
        reveal_strlit("4");
        reveal_strlit("5");
        reveal_strlit("6");
        reveal_strlit("7");
        reveal_strlit("8");
        reveal_strlit("9");
    }
    proof {
        assert(("0"@).len() == 1 && ("1"@).len() == 1 && ("2"@).len() == 1 && ("3"@).len() == 1
            && ("4"@).len() == 1 && ("5"@).len() == 1 && ("6"@).len() == 1 && ("7"@).len() == 1
            && ("8"@).len() == 1 && ("9"@).len() == 1);
    }
    match v {
        0 => s.append("0"),
        1 => s.append("1"),
        2 => s.append("2"),
        3 => s.append("3"),
        4 => s.append("4"),
        5 => s.append("5"),
        6 => s.append("6"),
        7 => s.append("7"),
        8 => s.append("8"),
        _ => s.append("9"),
    }
}

impl Position {
    /// Parses the 133-character compact board: eleven rows of `X`/`O`/`.`
    /// cells with `|` and `-----` separators, then a space and the forced
    /// block (`-` for a free choice).  The side to move is taken from
    /// `to_move`, or derived from the piece counts when `auto_side` is set.
    /// Refuses text that does not encode a well-formed position.
    pub fn from_compact_board(repr: &str, to_move: Side, auto_side: bool) -> (r: Option<Position>)
        ensures
            match r {
                Some(p) => pos_wf(p@),
                None => true,
            },
    {
        let raw = repr.as_bytes_vec();
        // trim whitespace at both ends and drop carriage returns
        let mut bytes: Vec<u8> = Vec::new();
        let mut start: usize = 0;
        let mut end: usize = raw.len();
        while start < end && (raw[start] == 32 || raw[start] == 9 || raw[start] == 10 || raw[start]
            == 13)
            invariant
                start <= end,
                end <= raw.len(),
            decreases end - start,
        {
            start = start + 1;
        }
        while end > start && (raw[end - 1] == 32 || raw[end - 1] == 9 || raw[end - 1] == 10
            || raw[end - 1] == 13)
            invariant
                start <= end,
                end <= raw.len(),
            decreases end,
        {
            end = end - 1;
        }
        let mut k: usize = start;
        while k < end
            invariant
                end <= raw.len(),
            decreases end - k,
        {
            if raw[k] != 13 {
                bytes.push(raw[k]);
            }
            k = k + 1;
        }
        if bytes.len() != 133 {
            return None;
        }
        let mut x_occs: Vec<u16> = Vec::new();
        let mut o_occs: Vec<u16> = Vec::new();
        let mut b: usize = 0;
        while b < 9
            invariant
                x_occs.len() == b,
                o_occs.len() == b,
                b <= 9,
                forall|c: int| 0 <= c < b ==> x_occs[c] < 512,
                forall|c: int| 0 <= c < b ==> o_occs[c] < 512,
            decreases 9 - b,
        {
            x_occs.push(0);
            o_occs.push(0);
            b = b + 1;
        }
        let mut n_x: u32 = 0;
        let mut n_o: u32 = 0;
        let mut last_block: u8 = 0;
        let mut i: usize = 0;
        while i < 133
            invariant
                bytes.len() == 133,
                x_occs.len() == 9,
                o_occs.len() == 9,
                forall|c: int| 0 <= c < 9 ==> x_occs[c] < 512,
                forall|c: int| 0 <= c < 9 ==> o_occs[c] < 512,
                i <= 133,
                n_x <= i,
                n_o <= i,
                last_block <= 9,
            decreases 133 - i,
        {
            let c = bytes[i];
            if i == 132 {
                if c == 45 {
                    last_block = 9;
                } else if c >= 48 && c <= 56 {
                    last_block = c - 48;
                } else {
                    return None;
                }
                break;
            }
            if i % 4 == 3 || (i / 12) % 4 == 3 || i == 131 || i % 12 == 11 {
                // separator columns and rows; accept them as they come
            } else if c == 88 || c == 79 {
                let col0 = i % 12;
                let col = if col0 <= 2 {
                    col0
                } else if col0 >= 4 && col0 <= 6 {
                    col0 - 1
                } else if col0 >= 8 && col0 <= 10 {
                    col0 - 2
                } else {
                    return None;
                };
                let row0 = i / 12;
                let row = if row0 <= 2 {
                    row0
                } else if row0 >= 4 && row0 <= 6 {
                    row0 - 1
                } else if row0 >= 8 && row0 <= 10 {
                    row0 - 2
                } else {
                    return None;
                };
                let bi = (row / 3) * 3 + col / 3;
                let j = (row % 3) * 3 + col % 3;
                proof {
                    assert(bi < 9 && j < 9);
                }
                if c == 88 {
                    let v = x_occs[bi];
                    proof {
                        crate::board::lemma_hopmask_or(v, j as u16, 0);
                    }
                    x_occs.set(bi, v | (1u16 << (j as u16)));
                    n_x = n_x + 1;
                } else {
                    let v = o_occs[bi];
                    proof {
                        crate::board::lemma_hopmask_or(v, j as u16, 0);
                    }
                    o_occs.set(bi, v | (1u16 << (j as u16)));
                    n_o = n_o + 1;
                }
            }
            i = i + 1;
        }
        let side = if auto_side {
            if n_x == n_o {
                Side::X
            } else if n_x == n_o + 1 {
                Side::O
            } else {
                return None;
            }
        } else {
            to_move
        };
        let bx = build_side_word(&x_occs);
        let bo = build_side_word(&o_occs);
        assemble_position(bx, bo, side, last_block)
    }

    /// Renders the board as eleven lines of cells with block separators;
    /// the last line additionally carries the side to move and the forced
    /// block (`-` for a free choice).  The text is always exactly 266
    /// characters.
    pub fn to_pretty_board(&self) -> (r: String)
        requires
            pos_wf(self@),
        ensures
            r@.len() == 266,
            r@[263] == (if self@.to_move == Side::X {
                'X'
            } else {
                'O'
            }),
            r@[264] == (if self@.last_block == 9 {
                '-'
            } else {
                digit_char(self@.last_block)
            }),
            forall|r0: int, c0: int|
                0 <= r0 < 9 && 0 <= c0 < 9 ==> r@[pretty_cell_index(r0, c0)]
                    == #[trigger] pretty_cell_char(self@, r0, c0),
    {
        proof {
            reveal_strlit(" ");
            reveal_strlit("X");
            reveal_strlit("O");
            reveal_strlit("-");
            reveal_strlit(" |");
            reveal_strlit("\n");
            reveal_strlit(" \n");
            reveal_strlit("-------|---------------\n");
            reveal_strlit("---------------|-------\n");
        }
        let mut s = String::new();
        let mut row: u8 = 0;
        while row < 9
            invariant
                pos_wf(self@),
                row <= 9,
                s@.len() == 24 * row + (if row > 2 {
                    24int
                } else {
                    0int
                }) + (if row > 5 {
                    24int
                } else {
                    0int
                }) + (if row > 8 {
                    2int
                } else {
                    0int
                }),
                row > 8 ==> s@[263] == (if self@.to_move == Side::X {
                    'X'
                } else {
                    'O'
                }),
                row > 8 ==> s@[264] == (if self@.last_block == 9 {
                    '-'
                } else {
                    digit_char(self@.last_block)
                }),
                forall|r0: int, c0: int|
                    0 <= r0 < row && 0 <= c0 < 9 ==> s@[pretty_cell_index(r0, c0)]
                        == #[trigger] pretty_cell_char(self@, r0, c0),
            decreases 9 - row,
        {
            let ghost row_base = s@.len();
            let mut col: u8 = 0;
            while col < 9
                invariant
                    pos_wf(self@),
                    row < 9,
                    col <= 9,
                    s@.len() == row_base + 2 * col + (if col > 2 {
                        2int
                    } else {
                        0int
                    }) + (if col > 5 {
                        2int
                    } else {
                        0int
                    }),
                    row_base == 24 * row + (if row > 2 {
                        24int
                    } else {
                        0int
                    }) + (if row > 5 {
                        24int
                    } else {
                        0int
                    }),
                    forall|r0: int, c0: int|
                        0 <= r0 < row && 0 <= c0 < 9 ==> s@[pretty_cell_index(r0, c0)]
                            == #[trigger] pretty_cell_char(self@, r0, c0),
                    forall|c0: int|
                        0 <= c0 < col ==> s@[pretty_cell_index(row as int, c0)]
                            == #[trigger] pretty_cell_char(self@, row as int, c0),
                decreases 9 - col,
            {
                proof {
                    reveal_strlit(" ");
                    reveal_strlit("X");
                    reveal_strlit("O");
                    reveal_strlit("-");
                    reveal_strlit(" |");
                }
                let ghost pre_cells = s@;
                s.append(" ");
                let ghost cell_at = s@.len() as int;
                let bi = (row / 3) * 3 + col / 3;
                let j = (row % 3) * 3 + col % 3;
                let index = bi * 9 + j;
                if self.bb(Side::X).get(index) {
                    s.append("X");
                    proof {
                        assert(("X"@).len() == 1 && ("X"@)[0] == 'X');
                    }
                } else if self.bb(Side::O).get(index) {
                    s.append("O");
                    proof {
                        assert(("O"@).len() == 1 && ("O"@)[0] == 'O');
                    }
                } else {
                    s.append("-");
                    proof {
                        assert(("-"@).len() == 1 && ("-"@)[0] == '-');
                    }
                }
                proof {
                    assert(cell_at == pretty_cell_index(row as int, col as int));
                    assert(index as int == (row as int / 3 * 3 + col as int / 3) * 9 + ((
                    row as int % 3) * 3 + col as int % 3));
                    assert(s@[cell_at] == pretty_cell_char(self@, row as int, col as int));
                    assert forall|r0: int, c0: int|
                        0 <= r0 < row && 0 <= c0 < 9 implies s@[pretty_cell_index(r0, c0)]
                        == #[trigger] pretty_cell_char(self@, r0, c0) by {
                        lemma_pretty_index_bound(r0, c0);
                        assert(pretty_cell_index(r0, c0) < pre_cells.len());
                        assert(pre_cells[pretty_cell_index(r0, c0)] == pretty_cell_char(
                            self@,
                            r0,
                            c0,
                        ));
                    }
                    assert forall|c0: int|
                        0 <= c0 < col implies s@[pretty_cell_index(row as int, c0)]
                        == #[trigger] pretty_cell_char(self@, row as int, c0) by {
                        lemma_pretty_index_bound(row as int, c0);
                        assert(pretty_cell_index(row as int, c0) < pre_cells.len());
                        assert(pre_cells[pretty_cell_index(row as int, c0)]
                            == pretty_cell_char(self@, row as int, c0));
                    }
                }
                if col == 2 || col == 5 {
                    s.append(" |");
                }
                proof {
                    assert forall|r0: int, c0: int|
                        0 <= r0 < row && 0 <= c0 < 9 implies s@[pretty_cell_index(r0, c0)]
                        == #[trigger] pretty_cell_char(self@, r0, c0) by {
                        lemma_pretty_index_bound(r0, c0);
                    }
                    assert forall|c0: int|
                        0 <= c0 < col + 1 implies s@[pretty_cell_index(row as int, c0)]
                        == #[trigger] pretty_cell_char(self@, row as int, c0) by {
                        lemma_pretty_index_bound(row as int, c0);
                    }
                }
                col = col + 1;
            }
            proof {
                reveal_strlit(" ");
                reveal_strlit("X");
                reveal_strlit("O");
                reveal_strlit("-");
                reveal_strlit("\n");
                reveal_strlit(" \n");
                reveal_strlit("-------|---------------\n");
                reveal_strlit("---------------|-------\n");
            }
            if row == 8 {
                proof {
                    assert(s@.len() == 262);
                }
                s.append(" ");
                match self.side_to_move() {
                    Side::X => {
                        s.append("X");
                        proof {
                            assert(("X"@).len() == 1 && ("X"@)[0] == 'X');
                        }
                    },
                    Side::O => {
                        s.append("O");
                        proof {
                            assert(("O"@).len() == 1 && ("O"@)[0] == 'O');
                        }
                    },
                }
                proof {
                    assert(s@.len() == 264 && s@[263] == (if self@.to_move == Side::X {
                        'X'
                    } else {
                        'O'
                    }));
                }
                if self.last_block_value() == 9 {
                    s.append("-");
                    proof {
                        assert(("-"@).len() == 1 && ("-"@)[0] == '-');
                    }
                } else {
                    push_digit(&mut s, self.last_block_value());
                }
                proof {
                    assert(s@.len() == 265 && s@[264] == (if self@.last_block == 9 {
                        '-'
                    } else {
                        digit_char(self@.last_block)
                    }));
                }
                s.append("\n");
            } else {
                s.append(" \n");
            }
            if row == 2 {
                s.append("-------|---------------\n");
            }
            if row == 5 {
                s.append("---------------|-------\n");
            }
            proof {
                assert forall|r0: int, c0: int|
                    0 <= r0 < row + 1 && 0 <= c0 < 9 implies s@[pretty_cell_index(r0, c0)]
                    == #[trigger] pretty_cell_char(self@, r0, c0) by {
                    lemma_pretty_index_bound(r0, c0);
                }
            }
            row = row + 1;
        }
        s
    }
}

} // verus!
