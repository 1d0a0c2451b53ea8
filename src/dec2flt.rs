//! Decimal digits to the nearest binary float.
//!
//! The decimal `int_digits.frac_digits * 10^exp` is the ratio `a / b` of two
//! naturals. The result is found by placing that ratio in its binade and
//! dividing, all in exact arithmetic.
use vstd::prelude::*;
use crate::bignum::{
    all_digits, digits_value, is_digit, lemma_pow2_add, lemma_pow2_pos, lemma_pow10_pos, pow10,
    pow2, Big, ZERO,
};
use crate::decoder::{double, single, Layout};

verus! {

/// Why a decimal has no float.
#[derive(Copy, Clone, Debug, PartialEq, Eq)]
pub enum ParseFloatError {
    /// A byte of the digits is not an ASCII digit.
    Invalid,
    /// The value is beyond the largest finite positive float.
    PosOverflow,
    /// The value is beyond the largest finite negative float.
    NegOverflow,
}

/// Numerator of the decimal: all digits, times `10^e` when `e >= 0`.
pub open spec fn ratio_num(ds: Seq<u8>, e: int) -> nat {
    if e >= 0 {
        digits_value(ds) * pow10(e as nat)
    } else {
        digits_value(ds)
    }
}

/// Denominator of the decimal: `10^-e` when `e < 0`.
pub open spec fn ratio_den(e: int) -> nat {
    if e >= 0 {
        1
    } else {
        pow10((-e) as nat)
    }
}

/// Precision (significant bits) of the layout.
pub open spec fn precision(f: Layout) -> nat {
    (f.frac_bits + 1) as nat
}

/// The exponent of the smallest subnormal's unit, negated.
pub open spec fn unit_shift(f: Layout) -> nat {
    (f.bias + f.frac_bits - 1) as nat
}

/// `a / b` (scaled by `2^unit_shift`) belongs to the binade whose unit is
/// `2^u` units of the smallest subnormal: it is below `2^(u + precision)`
/// units, and at least `2^(u + precision - 1)` units unless `u == 0`.
pub open spec fn placed(f: Layout, a: nat, b: nat, u: nat) -> bool {
    let a2 = a * pow2(unit_shift(f));
    &&& a2 < b * pow2(u + precision(f))
    &&& (u == 0 || a2 >= b * pow2((u + precision(f) - 1) as nat))
}

/// `a / b` rounded to the nearest integer, halfway cases to even.
pub open spec fn round_ratio(a: nat, b: nat) -> nat {
    let q = a / b;
    let r = a % b;
    if 2 * r > b || (2 * r == b && q % 2 == 1) {
        q + 1
    } else {
        q
    }
}

/// The bit pattern (without sign) of the value `m` units of `2^u` subnormal
/// units; a mantissa that rounded up to `2^precision` moves to the next binade.
pub open spec fn encode(f: Layout, u: nat, m: nat) -> nat {
    u * pow2(f.frac_bits as nat) + m
}

/// The bit pattern of the positive infinity.
pub open spec fn inf_bits(f: Layout) -> nat {
    (f.max_biased * pow2(f.frac_bits as nat)) as nat
}

/// The magnitude bits of the float nearest to `a / b` when `a / b` lies in
/// binade `u`.
pub open spec fn nearest_in(f: Layout, a: nat, b: nat, u: nat) -> nat {
    encode(f, u, round_ratio(a * pow2(unit_shift(f)), b * pow2(u)))
}

/// The sign bit of the layout when `sign` (negative), else nothing.
pub open spec fn sign_bit(f: Layout, sign: bool) -> nat {
    if !sign {
        0
    } else if f == single() {
        2147483648
    } else {
        9223372036854775808
    }
}

/// Whether every byte of `a` and `b` is an ASCII digit.
fn digits_only(a: &[u8], b: &[u8]) -> (r: bool)
    requires
        a@.len() + b@.len() <= usize::MAX,
    ensures
        r == all_digits(a@ + b@),
{
    let n = a.len();
    let total = a.len() + b.len();
    let ghost ds = a@ + b@;
    let mut i: usize = 0;
    while i < total
        invariant
            i <= total,
            n == a@.len(),
            total == a@.len() + b@.len(),
            ds == a@ + b@,
            forall|j: int| 0 <= j < i ==> is_digit(#[trigger] ds[j]),
        decreases total - i,
    {
        let c: u8 = if i < n {
            a[i]
        } else {
            b[i - n]
        };
        assert(c == ds[i as int]);
        if c < 48 || c > 57 {
            return false;
        }
        i = i + 1;
    }
    true
}

/// Finds the binade of `a / b`: the least `u <= max_biased` with
/// `a < b * 2^(u + p)`, returned with `b * 2^(u + p)`.
fn binade(a: &Big, b: &Big, p: usize, max_biased: u64) -> (r: (u64, Big))
    requires
        a.wf(),
        b.wf(),
    ensures
        r.1.wf(),
        r.0 <= max_biased,
        r.1.value() == b.value() * pow2((r.0 + p) as nat),
        r.0 < max_biased ==> a.value() < r.1.value(),
        r.0 == 0 || a.value() >= b.value() * pow2((r.0 + p - 1) as nat),
{
    let mut c = Big { digits: b.digits.clone() };
    proof {
        assert(c.digits@ == b.digits@);
    }
    c.mul_pow2(p);
    let mut u: u64 = 0;
    proof {
        assert(0 + p == p);
    }
    while u < max_biased && !matches!(a.cmp(&c), core::cmp::Ordering::Less)
        invariant
            a.wf(),
            b.wf(),
            c.wf(),
            u <= max_biased,
            c.value() == b.value() * pow2((u + p) as nat),
            u == 0 || a.value() >= b.value() * pow2((u + p - 1) as nat),
        ensures
            u <= max_biased,
            c.value() == b.value() * pow2((u + p) as nat),
            u < max_biased ==> a.value() < c.value(),
            u == 0 || a.value() >= b.value() * pow2((u + p - 1) as nat),
        decreases max_biased - u,
    {
        c.mul_small(2);
        proof {
            assert(pow2((u + 1 + p) as nat) == 2 * pow2((u + p) as nat));
            assert(b.value() * pow2((u + p) as nat) * 2 == b.value() * (2 * pow2((u + p) as nat)))
                by (nonlinear_arith);
        }
        u = u + 1;
    }
    (u, c)
}

/// Long division of `a` by `d` where the quotient is below `2^p`.
fn divide(a: Big, d: &Big, p: usize) -> (r: (u64, Big))
    requires
        a.wf(),
        d.wf(),
        d.value() >= 1,
        p == 24 || p == 53,
        a.value() < d.value() * pow2(p as nat),
    ensures
        r.1.wf(),
        r.0 == a.value() / d.value(),
        r.1.value() == a.value() % d.value(),
        r.0 < pow2(p as nat),
{
    let ghost a2 = a.value();
    let ghost dv = d.value();
    proof {
        assert(pow2(24) == 16777216) by {
            reveal_with_fuel(pow2, 25);
        }
        assert(pow2(53) == 9007199254740992) by {
            reveal_with_fuel(pow2, 54);
        }
    }
    let mut rem = a;
    let mut q: u64 = 0;
    let mut bit: u64 = if p == 24 {
        16777216
    } else {
        9007199254740992
    };
    let mut i: usize = p;
    proof {
        assert(0 * dv == 0) by (nonlinear_arith);
        lemma_pow2_pos(p as nat);
    }
    while i > 0
        invariant
            rem.wf(),
            d.wf(),
            d.value() == dv,
            dv >= 1,
            i <= p,
            p == 24 || p == 53,
            bit == pow2(i as nat),
            a2 == q * dv + rem.value(),
            rem.value() < dv * pow2(i as nat),
            a2 < dv * pow2(p as nat),
            pow2(p as nat) <= 9007199254740992,
            q < pow2(p as nat),
        decreases i,
    {
        i = i - 1;
        bit = bit / 2;
        let ghost w = pow2(i as nat);
        proof {
            assert(pow2((i + 1) as nat) == 2 * w);
            assert(dv * pow2((i + 1) as nat) == 2 * (dv * w)) by (nonlinear_arith)
                requires
                    pow2((i + 1) as nat) == 2 * w,
            ;
        }
        let mut t = Big { digits: d.digits.clone() };
        proof {
            assert(t.digits@ == d.digits@);
        }
        t.mul_pow2(i);
        if !matches!(rem.cmp(&t), core::cmp::Ordering::Less) {
            rem.sub(&t);
            proof {
                assert((q + w) * dv <= a2) by (nonlinear_arith)
                    requires
                        a2 == q * dv + rem.value() + dv * w,
                ;
                lemma_pow2_pos(p as nat);
                assert(q + w < pow2(p as nat)) by (nonlinear_arith)
                    requires
                        (q + w) * dv <= a2,
                        a2 < dv * pow2(p as nat),
                        dv >= 1,
                ;
                assert((q + w) * dv == q * dv + dv * w) by (nonlinear_arith);
            }
            q = q + bit;
        }
    }
    proof {
        assert(pow2(0) == 1);
        assert(dv * 1 == dv) by (nonlinear_arith);
        vstd::arithmetic::div_mod::lemma_fundamental_div_mod_converse(
            a2 as int,
            dv as int,
            q as int,
            rem.value() as int,
        );
    }
    (q, rem)
}

/// Rounds the quotient `q` (remainder `rem` of the divisor `d`) half to even
/// and encodes it in binade `u`.
fn round_encode(q: u64, rem: &Big, d: &Big, u: u64, frac_bits: u64) -> (r: u64)
    requires
        rem.wf(),
        d.wf(),
        frac_bits == 23 || frac_bits == 52,
        q < pow2((frac_bits + 1) as nat),
        rem.value() < d.value(),
        u <= 2047,
    ensures
        r == u * pow2(frac_bits as nat) + (if 2 * rem.value() > d.value() || (2 * rem.value()
            == d.value() && q % 2 == 1) {
            q + 1
        } else {
            q as int
        }),
{
    proof {
        assert(pow2(23) == 8388608) by {
            reveal_with_fuel(pow2, 24);
        }
        assert(pow2(52) == 4503599627370496) by {
            reveal_with_fuel(pow2, 53);
        }
        assert(pow2(24) == 16777216) by {
            reveal_with_fuel(pow2, 25);
        }
        assert(pow2(53) == 9007199254740992) by {
            reveal_with_fuel(pow2, 54);
        }
    }
    let mut r2 = Big { digits: rem.digits.clone() };
    proof {
        assert(r2.digits@ == rem.digits@);
    }
    r2.mul_small(2);
    let up: u64 = match r2.cmp(d) {
        core::cmp::Ordering::Greater => 1,
        core::cmp::Ordering::Equal => q % 2,
        core::cmp::Ordering::Less => 0,
    };
    let m: u64 = q + up;
    let unit: u64 = if frac_bits == 23 {
        8388608
    } else {
        4503599627370496
    };
    proof {
        assert(u * unit <= 2047 * 4503599627370496) by (nonlinear_arith)
            requires
                u <= 2047,
                unit <= 4503599627370496,
        ;
    }
    u * unit + m
}

/// `bits` (with the sign bit) is the float nearest to `a / b`.
pub open spec fn nearest_bits(f: Layout, sign: bool, a: nat, b: nat, bits: nat) -> bool {
    (a == 0 && bits == sign_bit(f, sign)) || exists|u: nat|
        placed(f, a, b, u) && nearest_in(f, a, b, u) < inf_bits(f) && bits == sign_bit(f, sign)
            + #[trigger] nearest_in(f, a, b, u)
}

/// The float nearest to `a / b > 0` would be beyond the largest finite one.
pub open spec fn overflows(f: Layout, a: nat, b: nat) -> bool {
    &&& a > 0
    &&& (exists|u: nat| placed(f, a, b, u) && #[trigger] nearest_in(f, a, b, u) >= inf_bits(f))
        || a * pow2(unit_shift(f)) >= b * pow2((f.max_biased + precision(f)) as nat)
}

/// `2^(3q) <= 10^q`.
proof fn lemma_pow2_below_pow10(q: nat)
    ensures
        pow2(3 * q) <= pow10(q),
    decreases q,
{
    if q > 0 {
        lemma_pow2_below_pow10((q - 1) as nat);
        assert(pow2(3 * q) == 8 * pow2(3 * (q - 1) as nat)) by {
            assert(pow2(3 * q) == 2 * pow2((3 * q - 1) as nat));
            assert(pow2((3 * q - 1) as nat) == 2 * pow2((3 * q - 2) as nat));
            assert(pow2((3 * q - 2) as nat) == 2 * pow2((3 * q - 3) as nat));
            assert((3 * q - 3) as nat == 3 * (q - 1) as nat);
        }
    }
}

proof fn lemma_pow2_mono(a: nat, b: nat)
    requires
        a <= b,
    ensures
        pow2(a) <= pow2(b),
    decreases b,
{
    if a < b {
        lemma_pow2_mono(a, (b - 1) as nat);
        lemma_pow2_pos((b - 1) as nat);
    }
}

/// A nonzero decimal times `10^e`, `e > 700`, is beyond every finite float.
proof fn lemma_far_above(f: Layout, d: nat, e: int)
    requires
        f == single() || f == double(),
        d >= 1,
        e > 700,
    ensures
        overflows(f, d * pow10(e as nat), 1),
{
    let a = d * pow10(e as nat);
    let top = (f.max_biased + precision(f)) as nat;
    lemma_pow2_mono(top, 2100);
    lemma_pow2_below_pow10(700);
    crate::bignum::lemma_pow10_mono(700, e as nat);
    lemma_pow2_pos(unit_shift(f));
    assert(a >= pow10(e as nat)) by (nonlinear_arith)
        requires
            a == d * pow10(e as nat),
            d >= 1,
    ;
    assert(a * pow2(unit_shift(f)) >= a) by (nonlinear_arith)
        requires
            pow2(unit_shift(f)) >= 1,
    ;
    assert(1 * pow2(top) == pow2(top)) by (nonlinear_arith);
    lemma_pow10_pos(e as nat);
}

/// A decimal of `nd` digits times `10^e`, `e < -(nd + 400)`, reads as zero.
proof fn lemma_far_below(f: Layout, sign: bool, d: nat, nd: nat, e: int)
    requires
        f == single() || f == double(),
        d < pow10(nd),
        e < -(nd + 400),
    ensures
        nearest_bits(f, sign, d, pow10((-e) as nat), sign_bit(f, sign)),
{
    let b = pow10((-e) as nat);
    let sh = unit_shift(f);
    let a2 = d * pow2(sh);
    lemma_pow2_mono(sh, 1077);
    lemma_pow2_below_pow10(359);
    crate::bignum::lemma_pow10_add(nd, 359);
    crate::bignum::lemma_pow10_add(nd + 359, 41);
    crate::bignum::lemma_pow10_mono(nd + 400, (-e) as nat);
    assert(pow10(41) >= 2) by {
        crate::bignum::lemma_pow10_mono(1, 41);
        assert(pow10(1) == 10 * pow10(0));
        assert(pow10(0) == 1);
    }
    lemma_pow2_pos(sh);
    assert(a2 < pow10(nd + 359)) by (nonlinear_arith)
        requires
            a2 == d * pow2(sh),
            d < pow10(nd),
            pow2(sh) <= pow10(359),
            pow2(sh) >= 1,
            pow10(nd + 359) == pow10(nd) * pow10(359),
    ;
    assert(2 * a2 < b) by (nonlinear_arith)
        requires
            a2 < pow10(nd + 359),
            pow10(nd + 359 + 41) == pow10(nd + 359) * pow10(41),
            pow10(41) >= 2,
            pow10(nd + 400) <= b,
    ;
    assert(pow2(0) == 1);
    assert(b * pow2(0) == b) by (nonlinear_arith)
        requires
            pow2(0) == 1,
    ;
    lemma_pow2_pos(precision(f));
    assert(a2 < b * pow2(0 + precision(f))) by (nonlinear_arith)
        requires
            2 * a2 < b,
            pow2(0 + precision(f)) >= 1,
    ;
    vstd::arithmetic::div_mod::lemma_fundamental_div_mod_converse(a2 as int, b as int, 0, a2 as int);
    assert(placed(f, d, b, 0));
    assert(round_ratio(a2, b * pow2(0)) == 0);
    assert(0 * pow2(f.frac_bits as nat) == 0) by (nonlinear_arith);
    assert(nearest_in(f, d, b, 0) == 0);
    assert(pow2(23) == 8388608) by {
        reveal_with_fuel(pow2, 24);
    }
    assert(pow2(52) == 4503599627370496) by {
        reveal_with_fuel(pow2, 53);
    }
    assert(sign_bit(f, sign) == sign_bit(f, sign) + nearest_in(f, d, b, 0));
}

/// The magnitude bits of the float nearest to `a / b`, or `None` when that
/// is beyond the largest finite float.
#[verifier::rlimit(100)]
fn nearest(f: Layout, a: Big, b: Big) -> (r: Option<u64>)
    requires
        f == single() || f == double(),
        a.wf(),
        b.wf(),
        b.value() >= 1,
    ensures
        match r {
            Some(bits) => bits < inf_bits(f) && exists|u: nat|
                placed(f, a.value(), b.value(), u) && nearest_in(f, a.value(), b.value(), u)
                    < inf_bits(f) && bits == #[trigger] nearest_in(f, a.value(), b.value(), u),
            None => (exists|u: nat|
                placed(f, a.value(), b.value(), u) && #[trigger] nearest_in(
                    f,
                    a.value(),
                    b.value(),
                    u,
                ) >= inf_bits(f)) || a.value() * pow2(unit_shift(f)) >= b.value() * pow2(
                (f.max_biased + precision(f)) as nat,
            ),
        },
{
    let ghost av = a.value();
    let ghost bv = b.value();
    let p: usize = (f.frac_bits + 1) as usize;
    let shift: usize = (f.bias as i64 + f.frac_bits as i64 - 1) as usize;
    let mut a = a;
    a.mul_pow2(shift);
    let ghost a2 = a.value();
    let (u, c) = binade(&a, &b, p, f.max_biased);
    if !matches!(a.cmp(&c), core::cmp::Ordering::Less) {
        return None;
    }
    assert(placed(f, av, bv, u as nat));
    let mut du = Big { digits: b.digits.clone() };
    proof {
        assert(du.digits@ == b.digits@);
    }
    du.mul_pow2(u as usize);
    let ghost dv = du.value();
    proof {
        lemma_pow2_pos(u as nat);
        assert(dv >= 1) by (nonlinear_arith)
            requires
                dv == bv * pow2(u as nat),
                bv >= 1,
                pow2(u as nat) >= 1,
        ;
        lemma_pow2_add(u as nat, p as nat);
        assert(a2 < dv * pow2(p as nat)) by (nonlinear_arith)
            requires
                a2 < bv * pow2((u + p) as nat),
                pow2((u + p) as nat) == pow2(u as nat) * pow2(p as nat),
                dv == bv * pow2(u as nat),
        ;
        assert(p == 24 || p == 53);
    }
    let (q, rem) = divide(a, &du, p);
    let bits = round_encode(q, &rem, &du, u, f.frac_bits);
    let inf: u64 = if f.frac_bits == 23 {
        2139095040
    } else {
        9218868437227405312
    };
    proof {
        assert(pow2(23) == 8388608) by {
            reveal_with_fuel(pow2, 24);
        }
        assert(pow2(52) == 4503599627370496) by {
            reveal_with_fuel(pow2, 53);
        }
        assert(bits == nearest_in(f, av, bv, u as nat));
        assert(inf == inf_bits(f));
    }
    if bits >= inf {
        None
    } else {
        proof {
            assert(placed(f, av, bv, u as nat) && nearest_in(f, av, bv, u as nat) < inf_bits(f)
                && bits == nearest_in(f, av, bv, u as nat));
        }
        Some(bits)
    }
}

/// Converts `sign int_digits.frac_digits * 10^exp` to the bits of the nearest
/// float of layout `f` (half to even); a value too small for the smallest
/// subnormal becomes a zero of the given sign.
pub fn convert(f: Layout, sign: bool, int_digits: &[u8], frac_digits: &[u8], exp: i64) -> (r:
    Result<u64, ParseFloatError>)
    requires
        f == single() || f == double(),
        int_digits@.len() + frac_digits@.len() <= usize::MAX,
    ensures
        !all_digits(int_digits@ + frac_digits@) <==> r == Err::<u64, ParseFloatError>(
            ParseFloatError::Invalid,
        ),
        all_digits(int_digits@ + frac_digits@) ==> ({
            let ds = int_digits@ + frac_digits@;
            let e = exp - frac_digits@.len();
            let a = ratio_num(ds, e);
            let b = ratio_den(e);
            match r {
                Ok(bits) => nearest_bits(f, sign, a, b, bits as nat),
                Err(ParseFloatError::PosOverflow) => !sign && overflows(f, a, b),
                Err(ParseFloatError::NegOverflow) => sign && overflows(f, a, b),
                Err(ParseFloatError::Invalid) => false,
            }
        }),
{
    if !digits_only(int_digits, frac_digits) {
        return Err(ParseFloatError::Invalid);
    }
    let n_frac = frac_digits.len();
    let ghost ds = int_digits@ + frac_digits@;
    proof {
        assert forall|j: int| 0 <= j < int_digits@.len() implies is_digit(
            #[trigger] int_digits@[j],
        ) by {
            assert(ds[j] == int_digits@[j]);
        }
        assert forall|j: int| 0 <= j < frac_digits@.len() implies is_digit(
            #[trigger] frac_digits@[j],
        ) by {
            assert(ds[int_digits@.len() + j] == frac_digits@[j]);
        }
    }
    let mut a = Big::from_digits(int_digits, frac_digits);
    let sbit: u64 = if !sign {
        0
    } else if f.frac_bits == 23 {
        2147483648
    } else {
        9223372036854775808
    };
    let ghost e = exp - n_frac;
    if a.is_zero() {
        proof {
            if e >= 0 {
                assert(0 * pow10(e as nat) == 0) by (nonlinear_arith);
            }
        }
        return Ok(sbit);
    }
    let nd: i128 = (int_digits.len() + n_frac) as i128;
    let big_e: i128 = exp as i128 - n_frac as i128;
    if big_e > 700 {
        proof {
            lemma_far_above(f, digits_value(ds), e as int);
        }
        if sign {
            return Err(ParseFloatError::NegOverflow);
        } else {
            return Err(ParseFloatError::PosOverflow);
        }
    }
    if big_e < -(nd + 400) {
        proof {
            crate::bignum::lemma_value_bound(ds);
            lemma_far_below(f, sign, digits_value(ds), ds.len(), e as int);
        }
        return Ok(sbit);
    }
    let mut b = Big::from_u64(1);
    if big_e >= 0 {
        a.mul_pow10(big_e as usize);
    } else {
        // -big_e <= nd + 400: at most 400 past what a usize counts
        let neg: i128 = -big_e;
        let first: usize = if neg > usize::MAX as i128 {
            usize::MAX
        } else {
            neg as usize
        };
        let rest: usize = (neg - first as i128) as usize;
        b.mul_pow10(first);
        b.mul_pow10(rest);
        proof {
            crate::bignum::lemma_pow10_add(first as nat, rest as nat);
            assert(1 * pow10(first as nat) == pow10(first as nat)) by (nonlinear_arith);
            assert(first + rest == -e);
        }
    }
    proof {
        assert(a.value() == ratio_num(ds, e as int));
        assert(b.value() == ratio_den(e as int));
        lemma_pow10_pos((-e) as nat);
        if e >= 0 {
            lemma_pow10_pos(e as nat);
            assert(digits_value(ds) * pow10(e as nat) > 0) by (nonlinear_arith)
                requires
                    digits_value(ds) > 0,
                    pow10(e as nat) >= 1,
            ;
        }
    }
    proof {
        assert(pow2(23) == 8388608) by {
            reveal_with_fuel(pow2, 24);
        }
        assert(pow2(52) == 4503599627370496) by {
            reveal_with_fuel(pow2, 53);
        }
    }
    proof {
        assert(pow2(23) == 8388608) by {
            reveal_with_fuel(pow2, 24);
        }
        assert(pow2(52) == 4503599627370496) by {
            reveal_with_fuel(pow2, 53);
        }
        if f == single() {
            assert(f.max_biased == 255 && f.frac_bits == 23);
            assert(f.max_biased * pow2(f.frac_bits as nat) == 2139095040) by (nonlinear_arith)
                requires
                    f.max_biased == 255,
                    pow2(f.frac_bits as nat) == 8388608,
            ;
        } else {
            assert(f.max_biased == 2047 && f.frac_bits == 52);
            assert(f.max_biased * pow2(f.frac_bits as nat) == 9218868437227405312) by (nonlinear_arith)
                requires
                    f.max_biased == 2047,
                    pow2(f.frac_bits as nat) == 4503599627370496,
            ;
        }
    }
    match nearest(f, a, b) {
        Some(bits) => Ok(sbit + bits),
        None => {
            if sign {
                Err(ParseFloatError::NegOverflow)
            } else {
                Err(ParseFloatError::PosOverflow)
            }
        },
    }
}

/// Halfway cases round to even.
pub proof fn lemma_round_ratio_half_even(a: nat, b: nat)
    requires
        b >= 1,
        2 * (a % b) == b,
    ensures
        round_ratio(a, b) % 2 == 0,
{
    let q = a / b;
    if q % 2 == 1 {
        assert((q + 1) % 2 == 0) by (nonlinear_arith)
            requires
                q % 2 == 1,
        ;
    }
}

/// A decimal worth zero reads as a zero that keeps its sign.
pub proof fn lemma_zero_keeps_sign(f: Layout, sign: bool, b: nat, bits: nat)
    requires
        f == single() || f == double(),
        b >= 1,
        nearest_bits(f, sign, 0, b, bits),
    ensures
        bits == sign_bit(f, sign),
{
    if exists|u: nat|
        placed(f, 0, b, u) && nearest_in(f, 0, b, u) < inf_bits(f) && bits == sign_bit(f, sign)
            + #[trigger] nearest_in(f, 0, b, u) {
        let u = choose|u: nat|
            placed(f, 0, b, u) && nearest_in(f, 0, b, u) < inf_bits(f) && bits == sign_bit(
                f,
                sign,
            ) + #[trigger] nearest_in(f, 0, b, u);
        assert(0 * pow2(unit_shift(f)) == 0) by (nonlinear_arith);
        if u > 0 {
            lemma_pow2_pos((u + precision(f) - 1) as nat);
            assert(b * pow2((u + precision(f) - 1) as nat) >= 1) by (nonlinear_arith)
                requires
                    b >= 1,
                    pow2((u + precision(f) - 1) as nat) >= 1,
            ;
        }
        assert(u == 0);
        lemma_pow2_pos(0);
        assert(b * pow2(0) >= 1) by (nonlinear_arith)
            requires
                b >= 1,
                pow2(0) >= 1,
        ;
        vstd::arithmetic::div_mod::lemma_fundamental_div_mod_converse(
            0,
            (b * pow2(0)) as int,
            0,
            0,
        );
        assert(round_ratio(0, b * pow2(0)) == 0);
        assert(0 * pow2(f.frac_bits as nat) == 0) by (nonlinear_arith);
    }
}

} // verus!
