//! Bit length, bit extraction and message extension.
use vstd::arithmetic::power2::{lemma_pow2_pos, lemma_pow2_unfold, pow2};
use vstd::arithmetic::div_mod::{lemma_basic_div_specific_divisor, lemma_div_non_zero};
use vstd::bits::{lemma_u16_shl_is_mul, lemma_u16_shr_is_div, lemma_u32_shr_is_div};
use vstd::prelude::*;

verus! {

/// Number of significant bits of `n`: `floor(log2(n)) + 1`, and 0 for 0.
pub open spec fn bit_len(n: nat) -> nat
    decreases n,
{
    if n == 0 {
        0
    } else {
        1 + bit_len(n / 2)
    }
}

/// Coefficient of `x^i` in `n`: bit `i` counted from the least significant bit.
pub open spec fn bit(n: nat, i: nat) -> nat {
    (n / pow2(i)) % 2
}

/// A value has at most `k` significant bits exactly when it is below `2^k`.
pub proof fn lemma_bit_len_le(n: nat, k: nat)
    ensures
        bit_len(n) <= k <==> n < pow2(k),
    decreases k,
{
    lemma_pow2_pos(k);
    if k > 0 {
        lemma_pow2_unfold(k);
        lemma_bit_len_le(n / 2, (k - 1) as nat);
    } else {
        vstd::arithmetic::power2::lemma2_to64();
    }
}

/// For a 16-bit value, having at most `k` significant bits is the same as
/// vanishing after a right shift by `k`.
pub proof fn lemma_bit_len_le_u16(x: u16, k: u16)
    requires
        k < 16,
    ensures
        bit_len(x as nat) <= k <==> x >> k == 0,
{
    lemma_u16_shr_is_div(x, k);
    lemma_bit_len_le(x as nat, k as nat);
    lemma_pow2_pos(k as nat);
    lemma_div_zero_iff_below(x as nat, pow2(k as nat));
}

/// For a 32-bit value, having at most `k` significant bits is the same as
/// vanishing after a right shift by `k`.
pub proof fn lemma_bit_len_le_u32(x: u32, k: u32)
    requires
        k < 32,
    ensures
        bit_len(x as nat) <= k <==> x >> k == 0,
{
    lemma_u32_shr_is_div(x, k);
    lemma_bit_len_le(x as nat, k as nat);
    lemma_pow2_pos(k as nat);
    lemma_div_zero_iff_below(x as nat, pow2(k as nat));
}

/// A natural number divided by a positive one is zero exactly when it is smaller.
proof fn lemma_div_zero_iff_below(x: nat, p: nat)
    requires
        p > 0,
    ensures
        x / p == 0 <==> x < p,
{
    if x >= p {
        lemma_div_non_zero(x as int, p as int);
    } else {
        lemma_basic_div_specific_divisor(p as int);
    }
}

/// Number of significant bits of `n`, found with a leading-zero count.
/// Zero has no set bit, so its length is 0.
pub fn length(n: u16) -> (r: u16)
    ensures
        r as nat == bit_len(n as nat),
        r <= 16,
{
    let lz = n.leading_zeros();
    proof {
        vstd::std_specs::bits::axiom_u16_leading_zeros(n);
    }
    let r = (16 - lz) as u16;
    proof {
        if n != 0 {
            if r < 16 {
                assert(n >> ((16 - lz) as u16) == 0);
                lemma_bit_len_le_u16(n, r);
            } else {
                lemma_bit_len_le(n as nat, 16);
                vstd::arithmetic::power2::lemma2_to64();
            }
            let s = (r - 1) as u16;
            assert((n >> s) & 1u16 != 0u16 ==> n >> s != 0) by (bit_vector);
            lemma_bit_len_le_u16(n, s);
        }
    }
    r
}

/// A power of two `2^k` has `k + 1` bits, and `2^k - 1` (k ones) has `k`.
pub proof fn lemma_bit_len_pow2(k: nat)
    ensures
        bit_len(pow2(k)) == k + 1,
        k >= 1 ==> bit_len((pow2(k) - 1) as nat) == k,
{
    lemma_pow2_pos(k);
    lemma_pow2_unfold(k + 1);
    lemma_bit_len_le(pow2(k), k);
    lemma_bit_len_le(pow2(k), k + 1);
    if k >= 1 {
        let j = (k - 1) as nat;
        lemma_pow2_unfold(k);
        lemma_pow2_pos(j);
        lemma_bit_len_le((pow2(k) - 1) as nat, k);
        lemma_bit_len_le((pow2(k) - 1) as nat, j);
    }
}

/// Bit of `number` at 1-based position `index`, counted from its most
/// significant set bit: index 1 is that bit, index `length(number)` is bit 0.
pub fn bring_down(number: u16, index: u16) -> (r: u16)
    requires
        1 <= index <= bit_len(number as nat),
    ensures
        r as nat == bit(number as nat, (bit_len(number as nat) - index) as nat),
        index == 1 ==> r == 1,
        index == bit_len(number as nat) ==> r == number & 1,
{
    let len = length(number);
    let s = len - index;
    let r = number >> s & 1;
    proof {
        lemma_u16_shr_is_div(number, s);
        let y = number >> s;
        assert(y & 1 == y % 2) by (bit_vector);
        lemma_bit_at_top(number as nat);
        assert(number & 1 == number % 2) by (bit_vector);
        vstd::arithmetic::power2::lemma2_to64();
    }
    r
}

/// The most significant set bit of a nonzero value is set, and the last
/// position of its significant span is its lowest bit.
pub proof fn lemma_bit_at_top(n: nat)
    requires
        n > 0,
    ensures
        bit(n, (bit_len(n) - 1) as nat) == 1,
        bit(n, (bit_len(n) - bit_len(n)) as nat) == n % 2,
{
    vstd::arithmetic::power2::lemma2_to64();
    assert(n / pow2(0) == n);
    let k = (bit_len(n) - 1) as nat;
    lemma_bit_len_le(n, k);
    lemma_bit_len_le(n, k + 1);
    lemma_pow2_pos(k);
    lemma_pow2_unfold(k + 1);
    let p = pow2(k) as int;
    assert(n as int / p == 1) by {
        vstd::arithmetic::div_mod::lemma_fundamental_div_mod(n as int, p);
        vstd::arithmetic::div_mod::lemma_mod_bound(n as int, p);
        let q = n as int / p;
        assert(p <= n < 2 * p);
        assert(n == p * q + n as int % p);
        assert(q == 1) by (nonlinear_arith)
            requires
                p <= n < 2 * p,
                n == p * q + n as int % p,
                0 <= n as int % p < p,
        ;
    }
    vstd::arithmetic::power2::lemma2_to64();
}

/// `message` shifted left by `degree` bits: the message polynomial times
/// `x^degree`, with `degree` zero coefficients appended at the low end.
/// The caller keeps the result within the register.
pub fn extend_message(message: u16, degree: u16) -> (r: u16)
    requires
        degree < 16,
        message * pow2(degree as nat) <= u16::MAX,
    ensures
        r as nat == message * pow2(degree as nat),
{
    proof {
        lemma_u16_shl_is_mul(message, degree);
    }
    message << degree
}

} // verus!
