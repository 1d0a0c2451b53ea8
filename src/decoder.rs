//! Splitting the bit pattern of a binary float into its sign and a
//! classified value.
use vstd::prelude::*;
use crate::flt2dec::{shortest_ok, Decoded, FullDecoded};

verus! {

/// The layout of a binary interchange format: `frac_bits` stored fraction
/// bits and a biased exponent field whose all-ones value is `max_biased`.
#[derive(Copy, Clone)]
pub struct Layout {
    pub frac_bits: u64,
    pub max_biased: u64,
    pub bias: i16,
}

pub open spec fn single() -> Layout {
    Layout { frac_bits: 23, max_biased: 255, bias: 127 }
}

pub open spec fn double() -> Layout {
    Layout { frac_bits: 52, max_biased: 2047, bias: 1023 }
}

/// The classified value of the fields `frac` (stored fraction) and `biased`
/// (biased exponent) of a float in layout `f`. A finite value is
/// `mant * 2^exp`; its neighbours lie `2 * minus` and `2 * plus` units away,
/// so the interval holds what rounds to it; `inclusive` when the stored
/// fraction is even (ties go to even).
pub open spec fn classify(f: Layout, frac: nat, biased: nat) -> FullDecoded {
    let hidden = crate::bignum::pow2(f.frac_bits as nat);
    let even = frac % 2 == 0;
    if biased == f.max_biased {
        if frac == 0 {
            FullDecoded::Infinite
        } else {
            FullDecoded::Nan
        }
    } else if biased == 0 {
        if frac == 0 {
            FullDecoded::Zero
        } else {
            FullDecoded::Finite(
                Decoded {
                    mant: (2 * frac) as u64,
                    minus: 1,
                    plus: 1,
                    exp: (1 - f.bias - f.frac_bits - 1) as i16,
                    inclusive: even,
                },
            )
        }
    } else if frac == 0 && biased > 1 {
        // lowest value of a binade: the neighbour below is half as far
        FullDecoded::Finite(
            Decoded {
                mant: (4 * hidden) as u64,
                minus: 1,
                plus: 2,
                exp: (biased - f.bias - f.frac_bits - 2) as i16,
                inclusive: even,
            },
        )
    } else {
        FullDecoded::Finite(
            Decoded {
                mant: (2 * (hidden + frac)) as u64,
                minus: 1,
                plus: 1,
                exp: (biased - f.bias - f.frac_bits - 1) as i16,
                inclusive: even,
            },
        )
    }
}

/// Every finite value that decoding yields suits both formatting modes.
pub open spec fn decoded_ok(v: FullDecoded) -> bool {
    match v {
        FullDecoded::Finite(d) => shortest_ok(d),
        _ => true,
    }
}

/// Classifies the fields of a float of at most 52 fraction bits.
fn classify_fields(frac: u64, biased: u64, frac_bits: u64, max_biased: u64, bias: i16) -> (r:
    FullDecoded)
    requires
        (frac_bits == 23 && max_biased == 255 && bias == 127) || (frac_bits == 52 && max_biased
            == 2047 && bias == 1023),
        frac < crate::bignum::pow2(frac_bits as nat),
        biased <= max_biased,
    ensures
        r == classify(Layout { frac_bits, max_biased, bias }, frac as nat, biased as nat),
        decoded_ok(r),
{
    let hidden: u64 = if frac_bits == 23 {
        8388608
    } else {
        4503599627370496
    };
    proof {
        assert(crate::bignum::pow2(23) == 8388608) by {
            reveal_with_fuel(crate::bignum::pow2, 24);
        }
        assert(crate::bignum::pow2(52) == 4503599627370496) by {
            reveal_with_fuel(crate::bignum::pow2, 53);
        }
    }
    let even = frac % 2 == 0;
    if biased == max_biased {
        if frac == 0 {
            FullDecoded::Infinite
        } else {
            FullDecoded::Nan
        }
    } else if biased == 0 {
        if frac == 0 {
            FullDecoded::Zero
        } else {
            FullDecoded::Finite(
                Decoded {
                    mant: 2 * frac,
                    minus: 1,
                    plus: 1,
                    exp: (1 - bias as i32 - frac_bits as i32 - 1) as i16,
                    inclusive: even,
                },
            )
        }
    } else if frac == 0 && biased > 1 {
        FullDecoded::Finite(
            Decoded {
                mant: 4 * hidden,
                minus: 1,
                plus: 2,
                exp: (biased as i32 - bias as i32 - frac_bits as i32 - 2) as i16,
                inclusive: even,
            },
        )
    } else {
        FullDecoded::Finite(
            Decoded {
                mant: 2 * (hidden + frac),
                minus: 1,
                plus: 1,
                exp: (biased as i32 - bias as i32 - frac_bits as i32 - 1) as i16,
                inclusive: even,
            },
        )
    }
}

/// Decodes the bits of an `f32`: the sign (true when negative) and the
/// classified value.
pub fn decode_f32(bits: u32) -> (r: (bool, FullDecoded))
    ensures
        r.0 == (bits / 2147483648 == 1),
        r.1 == classify(single(), (bits % 8388608) as nat, ((bits / 8388608) % 256) as nat),
        decoded_ok(r.1),
{
    let frac: u64 = (bits % 8388608) as u64;
    let biased: u64 = ((bits / 8388608) % 256) as u64;
    proof {
        assert(crate::bignum::pow2(23) == 8388608) by {
            reveal_with_fuel(crate::bignum::pow2, 24);
        }
    }
    (bits / 2147483648 == 1, classify_fields(frac, biased, 23, 255, 127))
}

/// Decodes the bits of an `f64`: the sign (true when negative) and the
/// classified value.
pub fn decode_f64(bits: u64) -> (r: (bool, FullDecoded))
    ensures
        r.0 == (bits / 9223372036854775808 == 1),
        r.1 == classify(
            double(),
            (bits % 4503599627370496) as nat,
            ((bits / 4503599627370496) % 2048) as nat,
        ),
        decoded_ok(r.1),
{
    let frac: u64 = bits % 4503599627370496;
    let biased: u64 = (bits / 4503599627370496) % 2048;
    proof {
        assert(crate::bignum::pow2(52) == 4503599627370496) by {
            reveal_with_fuel(crate::bignum::pow2, 53);
        }
    }
    (bits / 9223372036854775808 == 1, classify_fields(frac, biased, 52, 2047, 1023))
}

/// Zero fields decode to zero whatever the sign bit says, and the sign is
/// reported apart: a negative zero stays negative.
pub proof fn lemma_signed_zero(bits: u64)
    requires
        bits % 9223372036854775808 == 0,
    ensures
        classify(double(), (bits % 4503599627370496) as nat, ((bits / 4503599627370496) % 2048) as nat)
            == FullDecoded::Zero,
        (bits / 9223372036854775808 == 1) == (bits == 9223372036854775808),
{
    assert(bits % 4503599627370496 == 0) by (nonlinear_arith)
        requires
            bits % 9223372036854775808 == 0,
    ;
    assert((bits / 4503599627370496) % 2048 == 0) by (nonlinear_arith)
        requires
            bits % 9223372036854775808 == 0,
    ;
}

} // verus!
