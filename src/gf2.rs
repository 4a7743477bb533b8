//! Arithmetic on GF(2) polynomials held as bit patterns.
//!
//! Products of two 16-bit polynomials have at most 31 coefficients, so they
//! are held in 32 bits; `lemma_gf2_mul_len` shows that nothing is cut off.
use crate::bits::{bit_len, lemma_bit_len_le, lemma_bit_len_le_u32};
use vstd::prelude::*;

verus! {

/// GF(2) product of the polynomials `a` and `b`: shift-and-XOR
/// (carry-less) multiplication, one bit of `a` at a time.
pub open spec fn gf2_mul(a: u32, b: u32) -> u32
    decreases a,
{
    if a == 0 {
        0
    } else {
        (gf2_mul(a / 2, b) << 1u32) ^ (if a % 2 == 1 {
            b
        } else {
            0u32
        })
    }
}

/// `quotient` and `remainder` are the result of dividing `dividend` by
/// `divisor` over GF(2): the dividend is the quotient times the divisor plus
/// the remainder, and the remainder has fewer bits than the divisor.
pub open spec fn is_gf2_division(dividend: u16, divisor: u16, quotient: u16, remainder: u16) -> bool {
    &&& dividend as u32 == gf2_mul(quotient as u32, divisor as u32) ^ (remainder as u32)
    &&& bit_len(remainder as nat) < bit_len(divisor as nat)
}

/// One step of the product, stated for every `a`, zero included.
pub proof fn lemma_gf2_mul_step(a: u32, b: u32)
    ensures
        gf2_mul(a, b) == (gf2_mul(a / 2, b) << 1u32) ^ (if a % 2 == 1 {
            b
        } else {
            0u32
        }),
{
    if a == 0 {
        assert((0u32 << 1u32) ^ 0u32 == 0u32) by (bit_vector);
    }
}

/// The product distributes over addition (XOR) in its first factor.
pub proof fn lemma_gf2_mul_distributes(a: u32, c: u32, b: u32)
    ensures
        gf2_mul(a ^ c, b) == gf2_mul(a, b) ^ gf2_mul(c, b),
    decreases a,
{
    if a == 0 {
        assert(0u32 ^ c == c) by (bit_vector);
        let g = gf2_mul(c, b);
        assert(0u32 ^ g == g) by (bit_vector);
    } else {
        lemma_gf2_mul_distributes(a / 2, c / 2, b);
        lemma_gf2_mul_step(a ^ c, b);
        lemma_gf2_mul_step(c, b);
        assert((a ^ c) / 2 == (a / 2) ^ (c / 2)) by (bit_vector);
        assert((a ^ c) % 2 == 1 <==> ((a % 2 == 1) != (c % 2 == 1))) by (bit_vector);
        let pa = gf2_mul(a / 2, b);
        let pc = gf2_mul(c / 2, b);
        let ta = if a % 2 == 1 { b } else { 0u32 };
        let tc = if c % 2 == 1 { b } else { 0u32 };
        let tac = if (a ^ c) % 2 == 1 { b } else { 0u32 };
        assert(b ^ 0u32 == b && 0u32 ^ b == b && b ^ b == 0u32 && 0u32 ^ 0u32 == 0u32)
            by (bit_vector);
        assert(tac == ta ^ tc);
        assert(((pa ^ pc) << 1u32) ^ (ta ^ tc) == ((pa << 1u32) ^ ta) ^ ((pc << 1u32) ^ tc))
            by (bit_vector);
    }
}

/// A product of nonzero polynomials has as many bits as the two factors
/// together, less one: its degree is the sum of their degrees.
pub proof fn lemma_gf2_mul_len(a: u32, b: u32)
    requires
        a != 0,
        b != 0,
        bit_len(a as nat) + bit_len(b as nat) <= 32,
    ensures
        bit_len(gf2_mul(a, b) as nat) == bit_len(a as nat) + bit_len(b as nat) - 1,
    decreases a,
{
    if a == 1 {
        assert((0u32 << 1u32) ^ b == b) by (bit_vector);
        assert(gf2_mul(0, b) == 0);
    } else {
        let h = a / 2;
        lemma_gf2_mul_len(h, b);
        let p = gf2_mul(h, b);
        let t = if a % 2 == 1 { b } else { 0u32 };
        let m = (bit_len(a as nat) + bit_len(b as nat) - 2) as u32;
        lemma_bit_len_le_u32(p, m);
        lemma_bit_len_le_u32(p, (m - 1) as u32);
        lemma_bit_len_le_u32(b, m);
        assert(0u32 >> m == 0u32) by (bit_vector);
        assert(t >> m == 0u32);
        let r = (p << 1u32) ^ t;
        assert(r >> (m + 1) as u32 == 0u32 && r >> m != 0u32) by (bit_vector)
            requires
                1 <= m < 31,
                p >> m == 0u32,
                p >> (m - 1) as u32 != 0u32,
                t >> m == 0u32,
                r == (p << 1u32) ^ t,
        ;
        lemma_bit_len_le_u32(r, (m + 1) as u32);
        lemma_bit_len_le_u32(r, m);
    }
}

/// A nonzero 16-bit polynomial has between 1 and 16 bits.
proof fn lemma_bit_len_u16(x: u16)
    ensures
        bit_len(x as nat) <= 16,
        x != 0 ==> bit_len(x as nat) >= 1,
{
    lemma_bit_len_le(x as nat, 16);
    vstd::arithmetic::power2::lemma2_to64();
}

/// Division over GF(2) has one result: quotient and remainder are
/// determined by the dividend and the (nonzero) divisor.
pub proof fn lemma_division_unique(
    dividend: u16,
    divisor: u16,
    q1: u16,
    r1: u16,
    q2: u16,
    r2: u16,
)
    requires
        divisor != 0,
        is_gf2_division(dividend, divisor, q1, r1),
        is_gf2_division(dividend, divisor, q2, r2),
    ensures
        q1 == q2,
        r1 == r2,
{
    let v = divisor as u32;
    let (a1, a2) = (q1 as u32, q2 as u32);
    let (s1, s2) = (r1 as u32, r2 as u32);
    let x = a1 ^ a2;
    lemma_gf2_mul_distributes(a1, a2, v);
    let (p1, p2) = (gf2_mul(a1, v), gf2_mul(a2, v));
    assert(p1 ^ s1 == p2 ^ s2 ==> p1 ^ p2 == s1 ^ s2) by (bit_vector);
    lemma_bit_len_u16(divisor);
    lemma_bit_len_u16(r1);
    lemma_bit_len_u16(r2);
    let k = (bit_len(divisor as nat) - 1) as u32;
    lemma_bit_len_le_u32(s1, k);
    lemma_bit_len_le_u32(s2, k);
    assert(s1 >> k == 0u32 && s2 >> k == 0u32 ==> (s1 ^ s2) >> k == 0u32) by (bit_vector);
    lemma_bit_len_le_u32(s1 ^ s2, k);
    if x != 0 {
        assert(x >> 16u32 == 0u32) by (bit_vector)
            requires
                x == a1 ^ a2,
                a1 == q1 as u32,
                a2 == q2 as u32,
        ;
        lemma_bit_len_le_u32(x, 16);
        lemma_gf2_mul_len(x, v);
        assert(false);
    }
    assert(x == 0u32 ==> a1 == a2) by (bit_vector)
        requires
            x == a1 ^ a2,
    ;
    assert(gf2_mul(0u32, v) == 0u32);
    assert(s1 ^ s2 == 0u32 ==> s1 == s2) by (bit_vector);
}

} // verus!
