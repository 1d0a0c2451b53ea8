//! Correctly rounded conversions between binary floating-point values and
//! decimal digits, exposed in decomposed form so that callers can lay out
//! the final text themselves.
//!
//! Formatting takes a classified value (see `decoder`) and a digit buffer;
//! parsing takes integer digits, fraction digits and a decimal exponent and
//! yields the bits of the nearest float.
use vstd::prelude::*;
use vstd::slice::slice_subrange;
use crate::decoder::decoded_ok;
use crate::flt2dec::{
    estimate_max_buf_len, exact_result, exact_rounds_to_zero, format_exact_in, format_shortest,
    shortest_result, FullDecoded,
};
use crate::dec2flt::{convert, nearest_bits, overflows, ratio_den, ratio_num};
use crate::decoder::{double, single, Layout};

pub mod bignum;
pub mod dec2flt;
pub mod decoder;
pub mod flt2dec;

verus! {

/// Minimum buffer size for `preformat_shortest`.
pub const PREFORMAT_SHORTEST_BUF_LEN: usize = 17;

/// Minimum base buffer size for `preformat_exact_fixed` (to which the number
/// of fractional digits is added).
pub const PREFORMAT_EXACT_FIXED_BASE_BUF_LEN: usize = 826;

/// A value in decomposed decimal form.
#[derive(Copy, Clone, Debug, PartialEq, Eq)]
pub enum PreFormatted<'a> {
    /// Not a number.
    NaN,
    /// An infinity; the flag is the sign (true when negative).
    Inf(bool),
    /// Zero, or a value that rounds to zero at the requested place; the flag
    /// is the sign.
    Zero(bool),
    /// `sign 0.digits * 10^exp`, followed by the given number of zeros that
    /// were asked for but not written.
    Finite(bool, &'a [u8], usize, i16),
}

/// A decimal number given as `sign int_digits.frac_digits * 10^exp`.
#[derive(Copy, Clone, Debug, PartialEq, Eq)]
pub struct PreParsed<'a> {
    pub sign: bool,
    pub int_digits: &'a [u8],
    pub frac_digits: &'a [u8],
    pub exp: i16,
}

/// The result owed for a non-finite or zero value.
pub open spec fn special_result<'a>(sign: bool, v: FullDecoded, r: PreFormatted<'a>) -> bool {
    match v {
        FullDecoded::Nan => r == PreFormatted::<'a>::NaN,
        FullDecoded::Infinite => r == PreFormatted::<'a>::Inf(sign),
        FullDecoded::Zero => r == PreFormatted::<'a>::Zero(sign),
        FullDecoded::Finite(_) => true,
    }
}

/// Formats a classified value with the fewest digits that read back to it.
pub fn preformat_shortest<'a>(sign: bool, v: FullDecoded, buf: &'a mut [u8]) -> (r: PreFormatted<'a>)
    requires
        decoded_ok(v),
        old(buf)@.len() >= PREFORMAT_SHORTEST_BUF_LEN,
    ensures
        special_result(sign, v, r),
        !(v is Finite) ==> final(buf)@ == old(buf)@,
        v is Finite ==> match r {
            PreFormatted::Finite(sg, ds, z, k) => sg == sign && z == 0 && shortest_result(
                v->Finite_0,
                ds@,
                k as int,
            ) && final(buf)@.len() == old(buf)@.len() && ds@ == final(buf)@.subrange(
                0,
                ds@.len() as int,
            ) && final(buf)@.subrange(ds@.len() as int, final(buf)@.len() as int) == old(
                buf,
            )@.subrange(ds@.len() as int, old(buf)@.len() as int),
            _ => false,
        },
{
    match v {
        FullDecoded::Nan => PreFormatted::NaN,
        FullDecoded::Infinite => PreFormatted::Inf(sign),
        FullDecoded::Zero => PreFormatted::Zero(sign),
        FullDecoded::Finite(d) => {
            let (n, k) = format_shortest(&d, buf);
            let whole: &'a [u8] = buf;
            let ds = slice_subrange(whole, 0, n);
            PreFormatted::Finite(sign, ds, 0, k)
        },
    }
}

/// Formats a classified value with `ndigits` significant digits, rounded half
/// to even. Digits beyond what the value can need (`estimate_max_buf_len`)
/// are not written but counted as trailing zeros.
pub fn preformat_exact_exp<'a>(sign: bool, v: FullDecoded, buf: &'a mut [u8], ndigits: usize) -> (r:
    PreFormatted<'a>)
    requires
        decoded_ok(v),
        old(buf)@.len() >= ndigits,
        v is Finite ==> ndigits >= 1,
    ensures
        special_result(sign, v, r),
        !(v is Finite) ==> final(buf)@ == old(buf)@,
        v is Finite ==> ({
            let d = v->Finite_0;
            let maxlen = 21 + (if d.exp < 0 {
                (-12 * d.exp) / 16
            } else {
                (5 * d.exp) / 16
            });
            let m = if ndigits < maxlen {
                ndigits as int
            } else {
                maxlen
            };
            match r {
                PreFormatted::Finite(sg, ds, z, k) => sg == sign && z == ndigits - ds@.len()
                    && exact_result(d, m, i16::MIN as int, ds@, k as int) && ds@.len() <= m
                    && ds@ == final(buf)@.subrange(0, ds@.len() as int),
                _ => false,
            }
        }),
{
    match v {
        FullDecoded::Nan => PreFormatted::NaN,
        FullDecoded::Infinite => PreFormatted::Inf(sign),
        FullDecoded::Zero => PreFormatted::Zero(sign),
        FullDecoded::Finite(d) => {
            let maxlen = estimate_max_buf_len(d.exp);
            let trunc = if ndigits < maxlen {
                ndigits
            } else {
                maxlen
            };
            let (n, k) = format_exact_in(&d, buf, trunc, i16::MIN);
            let whole: &'a [u8] = buf;
            let ds = slice_subrange(whole, 0, n);
            PreFormatted::Finite(sign, ds, ndigits - n, k)
        },
    }
}

/// Formats a classified value with `frac_digits` digits after the decimal
/// point, rounded half to even; a value that rounds to zero there gives
/// `Zero`. Requests of `0x8000` digits or more are not limited by the place.
pub fn preformat_exact_fixed<'a>(sign: bool, v: FullDecoded, buf: &'a mut [u8], frac_digits: usize)
    -> (r: PreFormatted<'a>)
    requires
        decoded_ok(v),
        old(buf)@.len() >= PREFORMAT_EXACT_FIXED_BASE_BUF_LEN + frac_digits,
        frac_digits + 32768 <= usize::MAX,
    ensures
        special_result(sign, v, r),
        !(v is Finite) ==> final(buf)@ == old(buf)@,
        v is Finite ==> ({
            let d = v->Finite_0;
            let maxlen = 21 + (if d.exp < 0 {
                (-12 * d.exp) / 16
            } else {
                (5 * d.exp) / 16
            });
            let m = if maxlen < old(buf)@.len() {
                maxlen
            } else {
                old(buf)@.len() as int
            };
            let limit: int = if frac_digits < 0x8000 {
                -frac_digits
            } else {
                i16::MIN as int
            };
            match r {
                PreFormatted::Zero(sg) => sg == sign && exact_rounds_to_zero(d, m, limit),
                PreFormatted::Finite(sg, ds, z, k) => sg == sign && ds@.len() > 0 && exact_result(
                    d,
                    m,
                    limit,
                    ds@,
                    k as int,
                ) && ds@ == final(buf)@.subrange(0, ds@.len() as int) && z == (if frac_digits + k
                    > ds@.len() {
                    frac_digits + k - ds@.len()
                } else {
                    0
                }),
                _ => false,
            }
        }),
{
    match v {
        FullDecoded::Nan => PreFormatted::NaN,
        FullDecoded::Infinite => PreFormatted::Inf(sign),
        FullDecoded::Zero => PreFormatted::Zero(sign),
        FullDecoded::Finite(d) => {
            let maxlen = estimate_max_buf_len(d.exp);
            let m = if maxlen < buf.len() {
                maxlen
            } else {
                buf.len()
            };
            let limit: i16 = if frac_digits < 0x8000 {
                -(frac_digits as i16)
            } else {
                i16::MIN
            };
            let (n, k) = format_exact_in(&d, buf, m, limit);
            let whole: &'a [u8] = buf;
            let ds = slice_subrange(whole, 0, n);
            proof {
                let x = crate::flt2dec::exact_int(d.mant as nat, d.exp as int);
                let s = crate::flt2dec::exact_exp(d.exp as int);
                let kv = crate::flt2dec::num_digits(x) + s;
                assert(crate::flt2dec::exact_place(kv, m as int, limit as int) >= limit);
            }
            if k <= limit {
                PreFormatted::Zero(sign)
            } else {
                // frac_digits + k - n, or nothing when that is not positive
                let zeros: usize = if k >= 0 {
                    let kk = k as usize;
                    if frac_digits + kk > n {
                        frac_digits + kk - n
                    } else {
                        0
                    }
                } else {
                    let kk = (-(k as i32)) as usize;
                    if frac_digits > kk + n {
                        frac_digits - kk - n
                    } else {
                        0
                    }
                };
                PreFormatted::Finite(sign, ds, zeros, k)
            }
        },
    }
}

/// The bits of the float of layout `f` nearest to the decimal `p` (half to
/// even), negated when `p.sign`; `None` when a byte is not a digit or the
/// value is beyond the largest finite float.
pub fn from_preparsed(f: Layout, p: &PreParsed) -> (r: Option<u64>)
    requires
        f == single() || f == double(),
        p.int_digits@.len() + p.frac_digits@.len() <= usize::MAX,
    ensures
        ({
            let ds = p.int_digits@ + p.frac_digits@;
            let e = p.exp - p.frac_digits@.len();
            let a = ratio_num(ds, e);
            let b = ratio_den(e);
            match r {
                Some(bits) => bignum::all_digits(ds) && nearest_bits(f, p.sign, a, b, bits as nat),
                None => !bignum::all_digits(ds) || overflows(f, a, b),
            }
        }),
{
    match convert(f, p.sign, p.int_digits, p.frac_digits, p.exp as i64) {
        Ok(bits) => Some(bits),
        Err(_) => None,
    }
}

/// The layout of `f32`.
pub fn single_layout() -> (r: Layout)
    ensures
        r == single(),
{
    Layout { frac_bits: 23, max_biased: 255, bias: 127 }
}

/// The layout of `f64`.
pub fn double_layout() -> (r: Layout)
    ensures
        r == double(),
{
    Layout { frac_bits: 52, max_biased: 2047, bias: 1023 }
}

} // verus!
