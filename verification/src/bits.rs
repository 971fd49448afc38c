//! Bit-level foundation: single-bit tests, bit counting and rank/select over
//! the 128-bit words that hold board occupancies.

use vstd::prelude::*;

verus! {

/// Bit `i` of `m` (the only bits this crate uses lie below 90).
pub open spec fn bit_set(m: u128, i: int) -> bool {
    0 <= i < 128 && (m >> (i as u128)) & 1 == 1
}

/// Number of set bits of `m` strictly below position `n`.
pub open spec fn pop_below(m: u128, n: int) -> nat
    decreases n,
{
    if n <= 0 {
        0
    } else {
        pop_below(m, n - 1) + if bit_set(m, n - 1) {
            1nat
        } else {
            0nat
        }
    }
}

/// Number of set bits of `m`.
pub open spec fn pop(m: u128) -> nat {
    pop_below(m, 128)
}

/// Relies on u128::count_ones: the number of one bits in the binary
/// representation of the argument.
#[verifier::external_body]
pub fn count_ones128(m: u128) -> (r: u32)
    ensures
        r == pop(m),
{
    m.count_ones()
}

/// Relies on u128::trailing_zeros: the number of trailing zero bits; 128 when
/// the argument is zero, otherwise the position of the lowest one bit.
#[verifier::external_body]
pub fn trailing_zeros128(m: u128) -> (r: u32)
    ensures
        m == 0 ==> r == 128,
        m != 0 ==> r < 128 && bit_set(m, r as int) && (forall|j: int|
            0 <= j < r ==> !bit_set(m, j)),
{
    m.trailing_zeros()
}

/// Testing one bit by masking.
pub proof fn lemma_bit_test(m: u128, i: int)
    requires
        0 <= i < 128,
    ensures
        bit_set(m, i) <==> m & (1u128 << (i as u128)) != 0,
{
    let iu = i as u128;
    assert(((m >> iu) & 1 == 1) <==> (m & (1u128 << iu) != 0)) by (bit_vector)
        requires
            iu < 128,
    ;
}

pub broadcast proof fn lemma_bit_or(a: u128, b: u128, i: int)
    requires
        0 <= i < 128,
    ensures
        #[trigger] bit_set(a | b, i) <==> bit_set(a, i) || bit_set(b, i),
{
    let iu = i as u128;
    assert(((a | b) >> iu) & 1 == 1 <==> ((a >> iu) & 1 == 1 || (b >> iu) & 1 == 1))
        by (bit_vector);
}

pub broadcast proof fn lemma_bit_and(a: u128, b: u128, i: int)
    requires
        0 <= i < 128,
    ensures
        #[trigger] bit_set(a & b, i) <==> bit_set(a, i) && bit_set(b, i),
{
    let iu = i as u128;
    assert(((a & b) >> iu) & 1 == 1 <==> ((a >> iu) & 1 == 1 && (b >> iu) & 1 == 1))
        by (bit_vector);
}

pub broadcast proof fn lemma_bit_not(a: u128, i: int)
    requires
        0 <= i < 128,
    ensures
        #[trigger] bit_set(!a, i) <==> !bit_set(a, i),
{
    let iu = i as u128;
    assert(((!a) >> iu) & 1 == 1 <==> !((a >> iu) & 1 == 1)) by (bit_vector)
        requires
            iu < 128,
    ;
}

/// A single-bit mask has exactly its own bit.
pub broadcast proof fn lemma_bit_single(k: int, i: int)
    requires
        0 <= k < 128,
        0 <= i < 128,
    ensures
        #[trigger] bit_set(1u128 << (k as u128), i) <==> i == k,
{
    let ku = k as u128;
    let iu = i as u128;
    assert(((1u128 << ku) >> iu) & 1 == 1 <==> iu == ku) by (bit_vector)
        requires
            ku < 128 && iu < 128,
    ;
}

pub broadcast proof fn lemma_bit_xor(a: u128, b: u128, i: int)
    requires
        0 <= i < 128,
    ensures
        #[trigger] bit_set(a ^ b, i) <==> (bit_set(a, i) != bit_set(b, i)),
{
    let iu = i as u128;
    assert(((a ^ b) >> iu) & 1 == 1 <==> (((a >> iu) & 1 == 1) != ((b >> iu) & 1 == 1)))
        by (bit_vector);
}

/// A word with no bits at positions `n` and above shifts to zero by `n`.
pub proof fn lemma_high_bits_zero(m: u128, n: int)
    requires
        0 <= n < 128,
        forall|i: int| n <= i < 128 ==> !bit_set(m, i),
    ensures
        m >> (n as u128) == 0,
    decreases 128 - n,
{
    let nu = n as u128;
    if n == 127 {
        assert(nu == 127u128);
        assert(!bit_set(m, 127));
        assert((m >> 127u128) & 1 != 1 ==> m >> 127u128 == 0) by (bit_vector);
    } else {
        lemma_high_bits_zero(m, n + 1);
        assert((n + 1) as u128 == nu + 1);
        assert(m >> (nu + 1) == 0);
        assert(!bit_set(m, n));
        assert((m >> nu) & 1 != 1);
        assert(m >> (nu + 1) == 0 && (m >> nu) & 1 != 1 && nu < 127 ==> m >> nu == 0)
            by (bit_vector);
    }
}

/// Two words with the same bits are the same word.
pub proof fn lemma_bit_ext(a: u128, b: u128)
    requires
        forall|i: int| 0 <= i < 128 ==> (bit_set(a, i) <==> bit_set(b, i)),
    ensures
        a == b,
{
    let c = a ^ b;
    assert forall|i: int| 0 <= i < 128 implies !bit_set(c, i) by {
        lemma_bit_xor(a, b, i);
    }
    lemma_high_bits_zero(c, 0);
    assert((a ^ b) >> 0u128 == 0 ==> a == b) by (bit_vector);
}

/// A word whose bits at and above position `n` are shifted away is zero
/// exactly when it has no bits at positions `>= n`.
pub proof fn lemma_shr_zero_bits(m: u128, n: int)
    requires
        0 <= n < 128,
        m >> (n as u128) == 0,
    ensures
        forall|i: int| n <= i < 128 ==> !bit_set(m, i),
{
    let nu = n as u128;
    assert forall|i: int| n <= i < 128 implies !bit_set(m, i) by {
        let iu = i as u128;
        assert(m >> nu == 0 && nu <= iu < 128 ==> (m >> iu) & 1 == 0) by (bit_vector);
    }
}

/// Counting below a position only ever grows with the position.
pub proof fn lemma_pop_below_mono(m: u128, n1: int, n2: int)
    requires
        n1 <= n2,
    ensures
        pop_below(m, n1) <= pop_below(m, n2),
    decreases n2 - n1,
{
    if n1 < n2 {
        lemma_pop_below_mono(m, n1, n2 - 1);
    }
}

/// Once the remaining bits are all clear, the count stops growing.
pub proof fn lemma_pop_below_stable(m: u128, n1: int, n2: int)
    requires
        0 <= n1 <= n2,
        forall|i: int| n1 <= i < n2 ==> !bit_set(m, i),
    ensures
        pop_below(m, n2) == pop_below(m, n1),
    decreases n2 - n1,
{
    if n1 < n2 {
        lemma_pop_below_stable(m, n1, n2 - 1);
    }
}

/// The zero word has no bits.
pub broadcast proof fn lemma_bit_zero(i: int)
    requires
        0 <= i < 128,
    ensures
        !#[trigger] bit_set(0u128, i),
{
    let iu = i as u128;
    assert((0u128 >> iu) & 1 != 1) by (bit_vector);
}

/// Every bit of one word implying the same bit of another bounds the counts.
pub proof fn lemma_pop_le(a: u128, b: u128, n: int)
    requires
        forall|i: int| 0 <= i < n ==> (bit_set(a, i) ==> bit_set(b, i)),
    ensures
        pop_below(a, n) <= pop_below(b, n),
    decreases n,
{
    if n > 0 {
        lemma_pop_le(a, b, n - 1);
    }
}

/// A strict extra bit makes the count strictly larger.
pub proof fn lemma_pop_lt(a: u128, b: u128, n: int, k: int)
    requires
        forall|i: int| 0 <= i < n ==> (bit_set(a, i) ==> bit_set(b, i)),
        0 <= k < n,
        !bit_set(a, k),
        bit_set(b, k),
    ensures
        pop_below(a, n) < pop_below(b, n),
    decreases n,
{
    if k == n - 1 {
        lemma_pop_le(a, b, n - 1);
    } else {
        lemma_pop_lt(a, b, n - 1, k);
    }
}

/// Words that agree on all bits below `n` count the same below `n`.
pub proof fn lemma_pop_below_congruent(a: u128, b: u128, n: int)
    requires
        forall|i: int| 0 <= i < n ==> (bit_set(a, i) <==> bit_set(b, i)),
    ensures
        pop_below(a, n) == pop_below(b, n),
    decreases n,
{
    if n > 0 {
        lemma_pop_below_congruent(a, b, n - 1);
    }
}

/// Clearing one set bit lowers the total count by one.
pub proof fn lemma_pop_remove(m: u128, k: int)
    requires
        0 <= k < 128,
        bit_set(m, k),
    ensures
        pop(m & !(1u128 << (k as u128))) == pop(m) - 1,
{
    let m2 = m & !(1u128 << (k as u128));
    assert forall|i: int| 0 <= i < 128 implies (bit_set(m2, i) <==> bit_set(m, i) && i != k) by {
        lemma_bit_and(m, !(1u128 << (k as u128)), i);
        lemma_bit_not(1u128 << (k as u128), i);
        lemma_bit_single(k, i);
    }
    lemma_pop_split(m, m2, k);
}

/// Helper for `lemma_pop_remove`: relates the counts of two words that agree
/// everywhere except that the second lacks bit `k`.
proof fn lemma_pop_split(m: u128, m2: u128, k: int)
    requires
        0 <= k < 128,
        bit_set(m, k),
        forall|i: int| 0 <= i < 128 ==> (bit_set(m2, i) <==> bit_set(m, i) && i != k),
    ensures
        pop(m2) == pop(m) - 1,
{
    lemma_pop_below_congruent(m, m2, k);
    lemma_pop_above_split(m, m2, k);
}

proof fn lemma_pop_above_split(m: u128, m2: u128, k: int)
    requires
        0 <= k < 128,
        bit_set(m, k),
        forall|i: int| 0 <= i < 128 ==> (bit_set(m2, i) <==> bit_set(m, i) && i != k),
        pop_below(m, k) == pop_below(m2, k),
    ensures
        pop(m2) == pop(m) - 1,
{
    lemma_pop_between(m, m2, k + 1, 128);
}

/// From position `n1 > k` on, both words agree bit for bit, so the difference
/// of one (at bit `k`) persists up to any bound.
proof fn lemma_pop_between(m: u128, m2: u128, n1: int, n2: int)
    requires
        0 < n1 <= n2 <= 128,
        bit_set(m, n1 - 1) || n1 - 1 > 127,
        forall|i: int| 0 <= i < 128 ==> (bit_set(m2, i) <==> bit_set(m, i) && i != n1 - 1),
        pop_below(m, n1 - 1) == pop_below(m2, n1 - 1),
    ensures
        pop_below(m2, n2) == pop_below(m, n2) - 1,
    decreases n2 - n1,
{
    if n2 == n1 {
        assert(bit_set(m, n1 - 1));
        assert(!bit_set(m2, n1 - 1));
    } else {
        lemma_pop_between(m, m2, n1, n2 - 1);
        assert(bit_set(m2, n2 - 1) <==> bit_set(m, n2 - 1));
    }
}


/// Counting `n` positions finds at most `n` bits.
pub proof fn lemma_pop_bound(m: u128, n: int)
    requires
        0 <= n,
    ensures
        pop_below(m, n) <= n,
    decreases n,
{
    if n > 0 {
        lemma_pop_bound(m, n - 1);
    }
}


proof fn lemma_pop_zero_bits(m: u128, n: int)
    requires
        pop_below(m, n) == 0,
    ensures
        forall|i: int| 0 <= i < n ==> !bit_set(m, i),
    decreases n,
{
    if n > 0 {
        lemma_pop_zero_bits(m, n - 1);
    }
}

/// A nonzero word has at least one bit.
pub proof fn lemma_pop_nonzero(m: u128)
    requires
        m != 0,
    ensures
        pop(m) >= 1,
{
    if pop(m) == 0 {
        lemma_pop_zero_bits(m, 128);
        assert forall|i: int| 0 <= i < 128 implies (bit_set(m, i) <==> bit_set(0u128, i)) by {
            lemma_bit_zero(i);
        }
        lemma_bit_ext(m, 0);
    }
}


/// A positive count pins an actual bit below the bound.
pub proof fn lemma_pop_pos_bit(m: u128, n: int)
    requires
        pop_below(m, n) >= 1,
    ensures
        exists|i: int| 0 <= i < n && bit_set(m, i),
    decreases n,
{
    if n > 0 {
        if bit_set(m, n - 1) {
        } else {
            lemma_pop_pos_bit(m, n - 1);
        }
    }
}


/// The zero word counts to zero.
pub proof fn lemma_pop_zero128(n: int)
    requires
        0 <= n,
    ensures
        pop_below(0u128, n) == 0,
    decreases n,
{
    if n > 0 {
        lemma_pop_zero128(n - 1);
        if n - 1 < 128 {
            lemma_bit_zero(n - 1);
        }
    }
}


/// Disjoint words count independently.
pub proof fn lemma_pop_disjoint_or(a: u128, b: u128, n: int)
    requires
        0 <= n <= 128,
        forall|i: int| 0 <= i < n ==> !(bit_set(a, i) && bit_set(b, i)),
    ensures
        pop_below(a | b, n) == pop_below(a, n) + pop_below(b, n),
    decreases n,
{
    if n > 0 {
        lemma_pop_disjoint_or(a, b, n - 1);
        lemma_bit_or(a, b, n - 1);
    }
}

/// A word with all bits below `n` set counts to `n`.
pub proof fn lemma_pop_full(m: u128, n: int)
    requires
        0 <= n <= 128,
        forall|i: int| 0 <= i < n ==> bit_set(m, i),
    ensures
        pop_below(m, n) == n,
    decreases n,
{
    if n > 0 {
        lemma_pop_full(m, n - 1);
    }
}

/// Adding one fresh bit raises the count by one.
pub proof fn lemma_pop_add(m: u128, k: int)
    requires
        0 <= k < 128,
        !bit_set(m, k),
    ensures
        pop(m | (1u128 << (k as u128))) == pop(m) + 1,
{
    let new = m | (1u128 << (k as u128));
    assert forall|i: int| 0 <= i < 128 implies (bit_set(new, i) <==> (bit_set(m, i) || i
        == k)) by {
        lemma_bit_or(m, 1u128 << (k as u128), i);
        lemma_bit_single(k, i);
    }
    assert(bit_set(new, k));
    let stripped = new & !(1u128 << (k as u128));
    lemma_pop_remove(new, k);
    assert forall|i: int| 0 <= i < 128 implies (bit_set(stripped, i) <==> bit_set(m, i)) by {
        lemma_bit_and(new, !(1u128 << (k as u128)), i);
        lemma_bit_not(1u128 << (k as u128), i);
        lemma_bit_single(k, i);
    }
    lemma_bit_ext(stripped, m);
}

} // verus!
