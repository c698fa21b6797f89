use vstd::prelude::*;
use vstd::std_specs::bits::{u64_trailing_zeros, axiom_u64_trailing_zeros};

verus! {

/// Whether square `s` (0 = a1 .. 63 = h8) is set in bitboard `b`.
pub open spec fn is_set(b: u64, s: int) -> bool {
    0 <= s < 64 && (b >> (s as u64)) & 1u64 == 1u64
}

/// Index of the lowest set bit of `b`.
pub open spec fn lsb(b: u64) -> int {
    u64_trailing_zeros(b) as int
}

/// `b` with its lowest set bit cleared.
pub open spec fn clear_lsb(b: u64) -> u64 {
    b & ((b - 1) as u64)
}

proof fn lemma_clear_lsb_bv(b: u64, k: u64, s: u64)
    by (bit_vector)
    requires
        b != 0,
        k < 64,
        s < 64,
        (b >> k) & 1u64 == 1u64,
        b << ((64 - k) as u64) == 0,
    ensures
        ((b & ((b - 1) as u64)) >> s) & 1u64 == 1u64 <==> ((b >> s) & 1u64 == 1u64 && s != k),
        (b & ((b - 1) as u64)) < b,
{
}

pub proof fn lemma_lsb(b: u64)
    requires
        b != 0,
    ensures
        0 <= lsb(b) < 64,
        is_set(b, lsb(b)),
        forall|s: int| 0 <= s < lsb(b) ==> !is_set(b, s),
        forall|s: int| #[trigger] is_set(clear_lsb(b), s) <==> (is_set(b, s) && s != lsb(b)),
        clear_lsb(b) < b,
{
    axiom_u64_trailing_zeros(b);
    let k = u64_trailing_zeros(b) as u64;
    assert(b << ((64 - k) as u64) == 0);
    assert forall|s: int| #[trigger] is_set(clear_lsb(b), s) <==> (is_set(b, s) && s != lsb(b)) by {
        if 0 <= s < 64 {
            lemma_clear_lsb_bv(b, k, s as u64);
        }
    }
    lemma_clear_lsb_bv(b, k, 0);
    assert forall|s: int| 0 <= s < lsb(b) implies !is_set(b, s) by {
        assert((b >> (s as u64)) & 1u64 == 0u64);
    }
}


proof fn lemma_bits_ext_bv(x: u64, y: u64)
    by (bit_vector)
    requires
        ((x >> 0u64) & 1u64 == 1u64) == ((y >> 0u64) & 1u64 == 1u64),
        ((x >> 1u64) & 1u64 == 1u64) == ((y >> 1u64) & 1u64 == 1u64),
        ((x >> 2u64) & 1u64 == 1u64) == ((y >> 2u64) & 1u64 == 1u64),
        ((x >> 3u64) & 1u64 == 1u64) == ((y >> 3u64) & 1u64 == 1u64),
        ((x >> 4u64) & 1u64 == 1u64) == ((y >> 4u64) & 1u64 == 1u64),
        ((x >> 5u64) & 1u64 == 1u64) == ((y >> 5u64) & 1u64 == 1u64),
        ((x >> 6u64) & 1u64 == 1u64) == ((y >> 6u64) & 1u64 == 1u64),
        ((x >> 7u64) & 1u64 == 1u64) == ((y >> 7u64) & 1u64 == 1u64),
        ((x >> 8u64) & 1u64 == 1u64) == ((y >> 8u64) & 1u64 == 1u64),
        ((x >> 9u64) & 1u64 == 1u64) == ((y >> 9u64) & 1u64 == 1u64),
        ((x >> 10u64) & 1u64 == 1u64) == ((y >> 10u64) & 1u64 == 1u64),
        ((x >> 11u64) & 1u64 == 1u64) == ((y >> 11u64) & 1u64 == 1u64),
        ((x >> 12u64) & 1u64 == 1u64) == ((y >> 12u64) & 1u64 == 1u64),
        ((x >> 13u64) & 1u64 == 1u64) == ((y >> 13u64) & 1u64 == 1u64),
        ((x >> 14u64) & 1u64 == 1u64) == ((y >> 14u64) & 1u64 == 1u64),
        ((x >> 15u64) & 1u64 == 1u64) == ((y >> 15u64) & 1u64 == 1u64),
        ((x >> 16u64) & 1u64 == 1u64) == ((y >> 16u64) & 1u64 == 1u64),
        ((x >> 17u64) & 1u64 == 1u64) == ((y >> 17u64) & 1u64 == 1u64),
        ((x >> 18u64) & 1u64 == 1u64) == ((y >> 18u64) & 1u64 == 1u64),
        ((x >> 19u64) & 1u64 == 1u64) == ((y >> 19u64) & 1u64 == 1u64),
        ((x >> 20u64) & 1u64 == 1u64) == ((y >> 20u64) & 1u64 == 1u64),
        ((x >> 21u64) & 1u64 == 1u64) == ((y >> 21u64) & 1u64 == 1u64),
        ((x >> 22u64) & 1u64 == 1u64) == ((y >> 22u64) & 1u64 == 1u64),
        ((x >> 23u64) & 1u64 == 1u64) == ((y >> 23u64) & 1u64 == 1u64),
        ((x >> 24u64) & 1u64 == 1u64) == ((y >> 24u64) & 1u64 == 1u64),
        ((x >> 25u64) & 1u64 == 1u64) == ((y >> 25u64) & 1u64 == 1u64),
        ((x >> 26u64) & 1u64 == 1u64) == ((y >> 26u64) & 1u64 == 1u64),
        ((x >> 27u64) & 1u64 == 1u64) == ((y >> 27u64) & 1u64 == 1u64),
        ((x >> 28u64) & 1u64 == 1u64) == ((y >> 28u64) & 1u64 == 1u64),
        ((x >> 29u64) & 1u64 == 1u64) == ((y >> 29u64) & 1u64 == 1u64),
        ((x >> 30u64) & 1u64 == 1u64) == ((y >> 30u64) & 1u64 == 1u64),
        ((x >> 31u64) & 1u64 == 1u64) == ((y >> 31u64) & 1u64 == 1u64),
        ((x >> 32u64) & 1u64 == 1u64) == ((y >> 32u64) & 1u64 == 1u64),
        ((x >> 33u64) & 1u64 == 1u64) == ((y >> 33u64) & 1u64 == 1u64),
        ((x >> 34u64) & 1u64 == 1u64) == ((y >> 34u64) & 1u64 == 1u64),
        ((x >> 35u64) & 1u64 == 1u64) == ((y >> 35u64) & 1u64 == 1u64),
        ((x >> 36u64) & 1u64 == 1u64) == ((y >> 36u64) & 1u64 == 1u64),
        ((x >> 37u64) & 1u64 == 1u64) == ((y >> 37u64) & 1u64 == 1u64),
        ((x >> 38u64) & 1u64 == 1u64) == ((y >> 38u64) & 1u64 == 1u64),
        ((x >> 39u64) & 1u64 == 1u64) == ((y >> 39u64) & 1u64 == 1u64),
        ((x >> 40u64) & 1u64 == 1u64) == ((y >> 40u64) & 1u64 == 1u64),
        ((x >> 41u64) & 1u64 == 1u64) == ((y >> 41u64) & 1u64 == 1u64),
        ((x >> 42u64) & 1u64 == 1u64) == ((y >> 42u64) & 1u64 == 1u64),
        ((x >> 43u64) & 1u64 == 1u64) == ((y >> 43u64) & 1u64 == 1u64),
        ((x >> 44u64) & 1u64 == 1u64) == ((y >> 44u64) & 1u64 == 1u64),
        ((x >> 45u64) & 1u64 == 1u64) == ((y >> 45u64) & 1u64 == 1u64),
        ((x >> 46u64) & 1u64 == 1u64) == ((y >> 46u64) & 1u64 == 1u64),
        ((x >> 47u64) & 1u64 == 1u64) == ((y >> 47u64) & 1u64 == 1u64),
        ((x >> 48u64) & 1u64 == 1u64) == ((y >> 48u64) & 1u64 == 1u64),
        ((x >> 49u64) & 1u64 == 1u64) == ((y >> 49u64) & 1u64 == 1u64),
        ((x >> 50u64) & 1u64 == 1u64) == ((y >> 50u64) & 1u64 == 1u64),
        ((x >> 51u64) & 1u64 == 1u64) == ((y >> 51u64) & 1u64 == 1u64),
        ((x >> 52u64) & 1u64 == 1u64) == ((y >> 52u64) & 1u64 == 1u64),
        ((x >> 53u64) & 1u64 == 1u64) == ((y >> 53u64) & 1u64 == 1u64),
        ((x >> 54u64) & 1u64 == 1u64) == ((y >> 54u64) & 1u64 == 1u64),
        ((x >> 55u64) & 1u64 == 1u64) == ((y >> 55u64) & 1u64 == 1u64),
        ((x >> 56u64) & 1u64 == 1u64) == ((y >> 56u64) & 1u64 == 1u64),
        ((x >> 57u64) & 1u64 == 1u64) == ((y >> 57u64) & 1u64 == 1u64),
        ((x >> 58u64) & 1u64 == 1u64) == ((y >> 58u64) & 1u64 == 1u64),
        ((x >> 59u64) & 1u64 == 1u64) == ((y >> 59u64) & 1u64 == 1u64),
        ((x >> 60u64) & 1u64 == 1u64) == ((y >> 60u64) & 1u64 == 1u64),
        ((x >> 61u64) & 1u64 == 1u64) == ((y >> 61u64) & 1u64 == 1u64),
        ((x >> 62u64) & 1u64 == 1u64) == ((y >> 62u64) & 1u64 == 1u64),
        ((x >> 63u64) & 1u64 == 1u64) == ((y >> 63u64) & 1u64 == 1u64),
    ensures
        x == y,
{
}

/// Two bitboards with the same squares are equal.
pub proof fn lemma_bits_ext(x: u64, y: u64)
    requires
        forall|s: int| 0 <= s < 64 ==> #[trigger] is_set(x, s) == is_set(y, s),
    ensures
        x == y,
{
    assert(is_set(x, 0) == is_set(y, 0));
    assert(is_set(x, 1) == is_set(y, 1));
    assert(is_set(x, 2) == is_set(y, 2));
    assert(is_set(x, 3) == is_set(y, 3));
    assert(is_set(x, 4) == is_set(y, 4));
    assert(is_set(x, 5) == is_set(y, 5));
    assert(is_set(x, 6) == is_set(y, 6));
    assert(is_set(x, 7) == is_set(y, 7));
    assert(is_set(x, 8) == is_set(y, 8));
    assert(is_set(x, 9) == is_set(y, 9));
    assert(is_set(x, 10) == is_set(y, 10));
    assert(is_set(x, 11) == is_set(y, 11));
    assert(is_set(x, 12) == is_set(y, 12));
    assert(is_set(x, 13) == is_set(y, 13));
    assert(is_set(x, 14) == is_set(y, 14));
    assert(is_set(x, 15) == is_set(y, 15));
    assert(is_set(x, 16) == is_set(y, 16));
    assert(is_set(x, 17) == is_set(y, 17));
    assert(is_set(x, 18) == is_set(y, 18));
    assert(is_set(x, 19) == is_set(y, 19));
    assert(is_set(x, 20) == is_set(y, 20));
    assert(is_set(x, 21) == is_set(y, 21));
    assert(is_set(x, 22) == is_set(y, 22));
    assert(is_set(x, 23) == is_set(y, 23));
    assert(is_set(x, 24) == is_set(y, 24));
    assert(is_set(x, 25) == is_set(y, 25));
    assert(is_set(x, 26) == is_set(y, 26));
    assert(is_set(x, 27) == is_set(y, 27));
    assert(is_set(x, 28) == is_set(y, 28));
    assert(is_set(x, 29) == is_set(y, 29));
    assert(is_set(x, 30) == is_set(y, 30));
    assert(is_set(x, 31) == is_set(y, 31));
    assert(is_set(x, 32) == is_set(y, 32));
    assert(is_set(x, 33) == is_set(y, 33));
    assert(is_set(x, 34) == is_set(y, 34));
    assert(is_set(x, 35) == is_set(y, 35));
    assert(is_set(x, 36) == is_set(y, 36));
    assert(is_set(x, 37) == is_set(y, 37));
    assert(is_set(x, 38) == is_set(y, 38));
    assert(is_set(x, 39) == is_set(y, 39));
    assert(is_set(x, 40) == is_set(y, 40));
    assert(is_set(x, 41) == is_set(y, 41));
    assert(is_set(x, 42) == is_set(y, 42));
    assert(is_set(x, 43) == is_set(y, 43));
    assert(is_set(x, 44) == is_set(y, 44));
    assert(is_set(x, 45) == is_set(y, 45));
    assert(is_set(x, 46) == is_set(y, 46));
    assert(is_set(x, 47) == is_set(y, 47));
    assert(is_set(x, 48) == is_set(y, 48));
    assert(is_set(x, 49) == is_set(y, 49));
    assert(is_set(x, 50) == is_set(y, 50));
    assert(is_set(x, 51) == is_set(y, 51));
    assert(is_set(x, 52) == is_set(y, 52));
    assert(is_set(x, 53) == is_set(y, 53));
    assert(is_set(x, 54) == is_set(y, 54));
    assert(is_set(x, 55) == is_set(y, 55));
    assert(is_set(x, 56) == is_set(y, 56));
    assert(is_set(x, 57) == is_set(y, 57));
    assert(is_set(x, 58) == is_set(y, 58));
    assert(is_set(x, 59) == is_set(y, 59));
    assert(is_set(x, 60) == is_set(y, 60));
    assert(is_set(x, 61) == is_set(y, 61));
    assert(is_set(x, 62) == is_set(y, 62));
    assert(is_set(x, 63) == is_set(y, 63));
    lemma_bits_ext_bv(x, y);
}

proof fn lemma_bit_ops_bv(x: u64, y: u64, k: u64, s: u64)
    by (bit_vector)
    requires
        s < 64,
    ensures
        ((x & y) >> s) & 1u64 == 1u64 <==> ((x >> s) & 1u64 == 1u64 && (y >> s) & 1u64 == 1u64),
        ((x | y) >> s) & 1u64 == 1u64 <==> ((x >> s) & 1u64 == 1u64 || (y >> s) & 1u64 == 1u64),
        ((x ^ y) >> s) & 1u64 == 1u64 <==> ((x >> s) & 1u64 == 1u64) != ((y >> s) & 1u64 == 1u64),
        ((!x) >> s) & 1u64 == 1u64 <==> !((x >> s) & 1u64 == 1u64),
        (0u64 >> s) & 1u64 != 1u64,
        (0xffff_ffff_ffff_ffffu64 >> s) & 1u64 == 1u64,
        k < 64 ==> (((1u64 << k) >> s) & 1u64 == 1u64 <==> k == s),
        k < 64 ==> ((((1u64 << k) - 1) as u64 >> s) & 1u64 == 1u64 <==> s < k),
        k < 64 ==> ((x & (1u64 << k)) != 0 <==> (x >> k) & 1u64 == 1u64),
{
}

/// Bitwise operations on bitboards act square by square.
pub proof fn lemma_bit_ops(x: u64, y: u64)
    ensures
        forall|s: int| #[trigger] is_set(x & y, s) <==> (is_set(x, s) && is_set(y, s)),
        forall|s: int| #[trigger] is_set(x | y, s) <==> (is_set(x, s) || is_set(y, s)),
        forall|s: int| #[trigger] is_set(x ^ y, s) <==> (0 <= s < 64 && is_set(x, s) != is_set(y, s)),
        forall|s: int| #[trigger] is_set(!x, s) <==> (0 <= s < 64 && !is_set(x, s)),
        forall|s: int| !#[trigger] is_set(0u64, s),
        forall|s: int| #[trigger] is_set(0xffff_ffff_ffff_ffffu64, s) <==> 0 <= s < 64,
{
    assert forall|s: int| 0 <= s < 64 implies
        (is_set(x & y, s) <==> (is_set(x, s) && is_set(y, s)))
        && (is_set(x | y, s) <==> (is_set(x, s) || is_set(y, s)))
        && (is_set(x ^ y, s) <==> is_set(x, s) != is_set(y, s))
        && (is_set(!x, s) <==> !is_set(x, s))
        && !is_set(0u64, s)
        && is_set(0xffff_ffff_ffff_ffffu64, s) by {
        lemma_bit_ops_bv(x, y, 0, s as u64);
    }
}

/// Testing one square with a single-bit mask.
pub proof fn lemma_and_bit(x: u64, k: int)
    requires
        0 <= k < 64,
    ensures
        (x & bit(k)) != 0 <==> is_set(x, k),
{
    lemma_bit_ops_bv(x, 0, k as u64, 0);
}

proof fn lemma_algebra_bv(a: u64, b: u64, c: u64)
    by (bit_vector)
    ensures
        (a ^ b) ^ c == a ^ (b ^ c),
        a ^ b == b ^ a,
        a ^ 0 == a,
        a ^ a == 0,
        (a | b) | c == a | (b | c),
        a | b == b | a,
        a | 0 == a,
        (a & b) & c == a & (b & c),
        a & b == b & a,
{
}

/// Associativity, commutativity and units of `^`, `|` and `&` on bitboards.
pub proof fn lemma_algebra(a: u64, b: u64, c: u64)
    ensures
        (a ^ b) ^ c == a ^ (b ^ c),
        a ^ b == b ^ a,
        a ^ 0 == a,
        a ^ a == 0,
        (a | b) | c == a | (b | c),
        a | b == b | a,
        a | 0 == a,
        (a & b) & c == a & (b & c),
        a & b == b & a,
{
    lemma_algebra_bv(a, b, c);
}

/// Masking the low four bits of a byte.
pub proof fn lemma_u8_low_nibble(x: u8)
    by (bit_vector)
    ensures
        x & 0xFu8 == x % 16,
        x & 0xFu8 < 16,
{
}

/// `x | 0 == x`, available wherever it is brought into scope.
pub broadcast proof fn lemma_or_zero(x: u64)
    ensures
        #[trigger] (x | 0u64) == x,
{
    lemma_algebra(x, 0, 0);
}

/// `t` uses only squares of `m`.
pub open spec fn subset_of(t: u64, m: u64) -> bool {
    t & !m == 0
}

/// The carry-rippler step `(s - m) & m` gives the next subset of `m` after `s`
/// in increasing order.
pub proof fn lemma_next_subset(s: u64, m: u64, t: u64)
    by (bit_vector)
    requires
        s & !m == 0,
        t & !m == 0,
        s != m,
        s < t,
    ensures
        (s.wrapping_sub(m) & m) & !m == 0,
        (s.wrapping_sub(m) & m) > s,
        (s.wrapping_sub(m) & m) <= t,
{
}

/// Facts about subsets of a mask.
pub proof fn lemma_subset_facts(s: u64, m: u64)
    by (bit_vector)
    ensures
        s & !m == 0 ==> s <= m,
        s & !m == 0 ==> s & m == s,
        (s & m) & !m == 0,
        0u64 & !m == 0,
        (s & m) & m == s & m,
        m & !m == 0,
{
}

/// A right shift by `k` leaves fewer than `64 - k` significant bits.
pub proof fn lemma_shr_bound(x: u64, k: u32)
    by (bit_vector)
    requires
        1 <= k <= 63,
    ensures
        x >> k < (1u64 << (64 - k) as u64),
{
}

/// The rank masks used by pawn move generation.
pub proof fn lemma_rank_masks_bv(s: u64)
    by (bit_vector)
    requires
        s < 64,
    ensures
        ((0xFF00u64 >> s) & 1u64 == 1u64) <==> (8 <= s < 16),
        ((0x00FF000000000000u64 >> s) & 1u64 == 1u64) <==> (48 <= s < 56),
        ((0xFF00000000000000u64 >> s) & 1u64 == 1u64) <==> (56 <= s < 64),
        ((0xFFu64 >> s) & 1u64 == 1u64) <==> (s < 8),
{
}

/// The bitboard holding only square `k`.
pub open spec fn bit(k: int) -> u64 {
    1u64 << (k as u64)
}

pub proof fn lemma_bit(k: int)
    requires
        0 <= k < 64,
    ensures
        forall|s: int| #[trigger] is_set(bit(k), s) <==> s == k,
        forall|s: int| #[trigger] is_set(((bit(k) - 1) as u64), s) <==> 0 <= s < k,
        bit(k) != 0,
{
    assert forall|s: int| 0 <= s < 64 implies (is_set(bit(k), s) <==> s == k) by {
        lemma_bit_ops_bv(0, 0, k as u64, s as u64);
    }
    assert forall|s: int| 0 <= s < 64 implies (#[trigger] is_set(((bit(k) - 1) as u64), s) <==> s < k) by {
        lemma_bit_ops_bv(0, 0, k as u64, s as u64);
    }
    lemma_bit_ops_bv(0, 0, k as u64, k as u64);
}


/// Removes the lowest set square from `bb` and returns it.
pub fn pop_lsb(bb: &mut u64) -> (s: u8)
    requires
        *old(bb) != 0,
    ensures
        s as int == lsb(*old(bb)),
        s < 64,
        *final(bb) == clear_lsb(*old(bb)),
{
    proof {
        lemma_lsb(*bb);
    }
    let s = bb.trailing_zeros() as u8;
    *bb &= *bb - 1;
    s
}

/// The squares of `b`, lowest first.
pub open spec fn squares(b: u64) -> Seq<int>
    decreases b,
{
    if b == 0 {
        Seq::empty()
    } else {
        proof {
            lemma_lsb(b);
        }
        seq![lsb(b)] + squares(clear_lsb(b))
    }
}

/// Number of set squares of `b`.
pub open spec fn popcount(b: u64) -> nat
    decreases b,
{
    if b == 0 {
        0
    } else {
        proof {
            lemma_lsb(b);
        }
        1 + popcount(clear_lsb(b))
    }
}

pub proof fn lemma_popcount_bound(b: u64)
    ensures
        popcount(b) + u64_trailing_zeros(b) <= 64,
    decreases b,
{
    axiom_u64_trailing_zeros(b);
    if b != 0 {
        lemma_lsb(b);
        let c = clear_lsb(b);
        lemma_popcount_bound(c);
        axiom_u64_trailing_zeros(c);
        if c != 0 {
            lemma_lsb(c);
            assert(is_set(c, lsb(c)));
            assert(is_set(b, lsb(c)));
            assert(lsb(c) > lsb(b));
        }
    }
}

/// Number of set squares of `b` (the population count).
pub fn count_ones(b: u64) -> (n: u32)
    ensures
        n == popcount(b),
        n <= 64,
{
    proof {
        lemma_popcount_bound(b);
    }
    let mut x = b;
    let mut n: u32 = 0;
    while x != 0
        invariant
            n + popcount(x) == popcount(b),
            popcount(b) <= 64,
        decreases x,
    {
        proof {
            lemma_lsb(x);
        }
        x = x & (x - 1);
        n = n + 1;
    }
    n
}

} // verus!
