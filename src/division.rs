//! Binary long division of GF(2) polynomials.
use crate::bits::{bit_len, bring_down, lemma_bit_len_le_u32, length};
use crate::gf2::{gf2_mul, is_gf2_division, lemma_division_unique, lemma_gf2_mul_step};
use vstd::arithmetic::power2::pow2;
use vstd::bits::lemma_u32_shr_is_div;
use vstd::prelude::*;

verus! {

/// Quotient and remainder of one division.
#[derive(Debug, Clone, Copy, PartialEq, Eq, Structural)]
pub struct DivisionResult {
    pub quotient: u16,
    pub remainder: u16,
}

impl DivisionResult {
    pub fn new(quotient: u16, remainder: u16) -> (r: DivisionResult)
        ensures
            r.quotient == quotient,
            r.remainder == remainder,
    {
        DivisionResult { quotient, remainder }
    }
}

/// Why a division was refused.
#[derive(Debug, Clone, Copy, PartialEq, Eq, Structural)]
pub enum DivisionError {
    /// The divisor is the zero polynomial.
    ZeroDivisor,
}

/// Divides `dividend` by `divisor` over GF(2), most significant bit first:
/// each step brings down the next bit of the dividend, and where the divisor
/// has no more bits than what has been brought down, subtracts (XORs) it and
/// appends a 1 to the quotient, else a 0.
pub fn polynomial_long_division(dividend: u16, divisor: u16) -> (res: Result<
    DivisionResult,
    DivisionError,
>)
    ensures
        divisor == 0 <==> res == Err::<DivisionResult, DivisionError>(DivisionError::ZeroDivisor),
        divisor != 0 ==> (res matches Ok(d) && is_gf2_division(
            dividend,
            divisor,
            d.quotient,
            d.remainder,
        )),
{
    if divisor == 0 {
        return Err(DivisionError::ZeroDivisor);
    }
    let len = length(dividend);
    let dlen = length(divisor);
    let mut quotient: u16 = 0;
    let mut tmp: u16 = 0;
    let mut index: u16 = 1;
    let ghost d32 = dividend as u32;
    let ghost v32 = divisor as u32;
    proof {
        lemma_bit_len_le_u32(d32, len as u32);
        lemma_bit_len_le_u32(v32, dlen as u32);
        lemma_bit_len_le_u32(v32, (dlen - 1) as u32);
        assert(0u32 >> (dlen - 1) as u32 == 0u32) by (bit_vector);
        assert(0u32 ^ 0u32 == 0u32) by (bit_vector);
        assert(0u32 >> 0u32 == 0u32) by (bit_vector);
    }
    while index <= len
        invariant
            1 <= index <= len + 1,
            len <= 16,
            len == bit_len(dividend as nat),
            1 <= dlen <= 16,
            dlen == bit_len(divisor as nat),
            d32 == dividend as u32,
            v32 == divisor as u32,
            v32 >> dlen as u32 == 0u32,
            v32 >> (dlen - 1) as u32 != 0u32,
            d32 >> (len - (index - 1)) as u32 == gf2_mul(quotient as u32, v32) ^ (tmp as u32),
            (tmp as u32) >> (dlen - 1) as u32 == 0u32,
            (quotient as u32) >> (index - 1) as u32 == 0u32,
        decreases len + 1 - index,
    {
        let digit = bring_down(dividend, index);
        let ghost s = (len - index) as u32;
        let ghost q0 = quotient as u32;
        let ghost t0 = tmp as u32;
        let ghost g0 = gf2_mul(q0, v32);
        let ghost k = (dlen - 1) as u32;
        proof {
            lemma_u32_shr_is_div(d32, s);
            let y = d32 >> s;
            assert(y & 1u32 == y % 2) by (bit_vector);
            assert(digit as u32 == (d32 >> s) & 1u32);
            assert(d32 >> s == ((d32 >> (s + 1) as u32) << 1u32) | ((d32 >> s) & 1u32))
                by (bit_vector)
                requires
                    s < 31,
            ;
        }
        let tmp1 = tmp << 1 | digit;
        let ghost t1 = tmp1 as u32;
        proof {
            let tt = tmp;
            let dd = digit;
            assert(((tt << 1u16) | dd) as u32 == ((tt as u32) << 1u32) | (dd as u32)
                && (((tt as u32) << 1u32) | (dd as u32)) >> (k + 1) as u32 == 0u32)
                by (bit_vector)
                requires
                    k <= 15,
                    (tt as u32) >> k == 0u32,
                    dd <= 1,
            ;
            lemma_bit_len_le_u32(t1, k);
        }
        if dlen <= length(tmp1) {
            quotient = quotient << 1 | 1;
            tmp = tmp1 ^ divisor;
            proof {
                let q1 = quotient as u32;
                let qq = q0;
                let ii = (index - 1) as u32;
                assert(q1 == (qq << 1u32) | 1u32 && q1 / 2 == qq && q1 % 2 == 1 && q1 >> (ii
                    + 1) as u32 == 0u32) by (bit_vector)
                    requires
                        ii < 16,
                        qq >> ii == 0u32,
                        q1 == (((qq as u16) << 1u16) | 1u16) as u32,
                        qq < 0x10000,
                ;
                lemma_gf2_mul_step(q1, v32);
                let dd = digit as u32;
                assert(((g0 << 1u32) ^ v32) ^ ((((t0 << 1u32) | dd)) ^ v32) == ((g0 ^ t0)
                    << 1u32) | dd) by (bit_vector)
                    requires
                        dd <= 1,
                ;
                assert(t1 ^ v32 == (tmp as u32));
                assert((t1 ^ v32) >> k == 0u32) by (bit_vector)
                    requires
                        k < 16,
                        t1 >> (k + 1) as u32 == 0u32,
                        t1 >> k != 0u32,
                        v32 >> (k + 1) as u32 == 0u32,
                        v32 >> k != 0u32,
                ;
            }
        } else {
            quotient = quotient << 1;
            tmp = tmp1;
            proof {
                let q1 = quotient as u32;
                let qq = q0;
                let ii = (index - 1) as u32;
                assert(q1 == qq << 1u32 && q1 / 2 == qq && q1 % 2 == 0 && q1 >> (ii + 1) as u32
                    == 0u32) by (bit_vector)
                    requires
                        ii < 16,
                        qq >> ii == 0u32,
                        q1 == ((qq as u16) << 1u16) as u32,
                        qq < 0x10000,
                ;
                lemma_gf2_mul_step(q1, v32);
                let dd = digit as u32;
                assert(((g0 << 1u32) ^ 0u32) ^ ((t0 << 1u32) | dd) == ((g0 ^ t0) << 1u32) | dd)
                    by (bit_vector)
                    requires
                        dd <= 1,
                ;
            }
        }
        index = index + 1;
    }
    proof {
        assert(d32 >> 0u32 == d32) by (bit_vector);
        lemma_bit_len_le_u32(tmp as u32, (dlen - 1) as u32);
    }
    Ok(DivisionResult::new(quotient, tmp))
}

/// The CRC round trip: extend a message by the divisor's degree, divide, and
/// add (XOR) the remainder into the extended message; the codeword so made
/// divides by the divisor with remainder zero.
pub proof fn lemma_crc_round_trip(
    message: u16,
    divisor: u16,
    quotient: u16,
    remainder: u16,
    check_quotient: u16,
    check_remainder: u16,
)
    requires
        message != 0,
        divisor != 0,
        bit_len(divisor as nat) >= 2,
        message * pow2((bit_len(divisor as nat) - 1) as nat) <= u16::MAX,
        is_gf2_division(
            (message * pow2((bit_len(divisor as nat) - 1) as nat)) as u16,
            divisor,
            quotient,
            remainder,
        ),
        is_gf2_division(
            ((message * pow2((bit_len(divisor as nat) - 1) as nat)) as u16) ^ remainder,
            divisor,
            check_quotient,
            check_remainder,
        ),
    ensures
        check_remainder == 0,
{
    let extended = (message * pow2((bit_len(divisor as nat) - 1) as nat)) as u16;
    let codeword = extended ^ remainder;
    let g = gf2_mul(quotient as u32, divisor as u32);
    let (e, r) = (extended, remainder);
    assert((e as u32) == g ^ (r as u32) ==> ((e ^ r) as u32) == g ^ (0u16 as u32))
        by (bit_vector);
    assert(bit_len(0) == 0);
    lemma_division_unique(codeword, divisor, quotient, 0, check_quotient, check_remainder);
}

} // verus!
