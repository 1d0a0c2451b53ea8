//! Finite binary values to decimal digits: exact/fixed mode and shortest mode.
//!
//! A decoded value `mant * 2^exp` is first written exactly in decimal as
//! `exact_int * 10^exact_exp` (for a negative `exp`, `2^exp = 5^-exp / 10^-exp`),
//! and the digits are then read off that integer.
use vstd::prelude::*;
use vstd::arithmetic::div_mod::lemma_fundamental_div_mod_converse;
use crate::bignum::{
    all_digits, canonical, digits_value, dval, is_digit, lemma_canonical_lower, lemma_pow10_add,
    lemma_pow10_factor, lemma_pow10_mono, lemma_pow10_pos, lemma_split, lemma_subrange_digits,
    lemma_value_bound, lemma_value_head, lemma_value_zero, pow10, pow2, pow5, Big, ZERO,
};

verus! {

/// The smallest buffer that shortest mode needs.
pub const MAX_SIG_DIGITS: usize = 17;

/// A finite value `mant * 2^exp` with its rounding interval
/// `[(mant - minus) * 2^exp, (mant + plus) * 2^exp]`, closed when `inclusive`.
#[derive(Copy, Clone, Debug, PartialEq, Eq)]
pub struct Decoded {
    pub mant: u64,
    pub minus: u64,
    pub plus: u64,
    pub exp: i16,
    pub inclusive: bool,
}

/// A classified value.
#[derive(Copy, Clone, Debug, PartialEq, Eq)]
pub enum FullDecoded {
    Nan,
    Infinite,
    Zero,
    Finite(Decoded),
}

/// The binary exponent range that every supported float width decodes into.
pub open spec fn exp_in_range(exp: int) -> bool {
    -1100 <= exp <= 1000
}

/// The integer part of the exact decimal form of `mant * 2^exp`.
pub open spec fn exact_int(mant: nat, exp: int) -> nat {
    if exp >= 0 {
        mant * pow2(exp as nat)
    } else {
        mant * pow5((-exp) as nat)
    }
}

/// The decimal exponent of the exact decimal form of `mant * 2^exp`.
pub open spec fn exact_exp(exp: int) -> int {
    if exp >= 0 {
        0
    } else {
        exp
    }
}

/// Number of decimal digits of `x` (none for zero).
pub open spec fn num_digits(x: nat) -> nat
    decreases x,
{
    if x == 0 {
        0
    } else {
        1 + num_digits(x / 10)
    }
}

/// `x / 10^j` rounded to the nearest integer, halfway cases to even.
pub open spec fn round_div_pow10(x: nat, j: nat) -> nat {
    let q = x / pow10(j);
    let r = x % pow10(j);
    if 2 * r > pow10(j) || (2 * r == pow10(j) && q % 2 == 1) {
        q + 1
    } else {
        q
    }
}

/// `x * 10^s` counted in units of `10^p`, rounded half to even.
pub open spec fn rounded_at(x: nat, s: int, p: int) -> nat {
    if p >= s {
        round_div_pow10(x, (p - s) as nat)
    } else {
        x * pow10((s - p) as nat)
    }
}

/// The place of the last digit that exact mode keeps: at most `m`
/// significant digits of a value with `kv` integer digits, none below `10^limit`.
pub open spec fn exact_place(kv: int, m: int, limit: int) -> int {
    if limit > kv - m {
        limit
    } else {
        kv - m
    }
}

/// Mathematically, `mant * 2^exp == exact_int * 10^exact_exp`: both sides
/// times `10^-exp` (or `1`) agree.
pub proof fn lemma_exact_form(mant: nat, exp: int)
    ensures
        exp >= 0 ==> exact_int(mant, exp) == mant * pow2(exp as nat) && exact_exp(exp) == 0,
        exp < 0 ==> exact_int(mant, exp) * pow2((-exp) as nat) == mant * pow10((-exp) as nat),
{
    if exp < 0 {
        let a = (-exp) as nat;
        lemma_pow10_factor(a);
        assert(mant * pow5(a) * pow2(a) == mant * (pow2(a) * pow5(a))) by (nonlinear_arith);
    }
}

/// Increments the digit run `d[..n]` by one in its last place.
/// Returns `None` when the run keeps its length; when the run was all nines
/// it becomes `10..0` and the digit that a longer run would end with is
/// returned (`1` for an empty run, `0` otherwise).
fn round_up_prefix(d: &mut [u8], n: usize) -> (r: Option<u8>)
    requires
        n <= old(d)@.len(),
        all_digits(old(d)@.subrange(0, n as int)),
    ensures
        final(d)@.len() == old(d)@.len(),
        forall|j: int| n <= j < old(d)@.len() ==> final(d)@[j] == old(d)@[j],
        all_digits(final(d)@.subrange(0, n as int)),
        match r {
            None => digits_value(final(d)@.subrange(0, n as int)) == digits_value(
                old(d)@.subrange(0, n as int),
            ) + 1,
            Some(c) => digits_value(old(d)@.subrange(0, n as int)) + 1 == pow10(n as nat) && (
            n == 0 ==> c == 49) && (n > 0 ==> c == ZERO && final(d)@[0] == 49
                && digits_value(final(d)@.subrange(0, n as int)) == pow10((n - 1) as nat)),
        },
{
    let ghost o = d@;
    let mut i: usize = n;
    while i > 0
        invariant
            i <= n,
            n <= o.len(),
            d@ == o,
            forall|j: int| i <= j < n ==> d@[j] == 57,
        ensures
            i == 0 || d@[i - 1] != 57,
        decreases i,
    {
        if d[i - 1] != 57 {
            break;
        }
        i = i - 1;
    }
    let ghost pre = o.subrange(0, n as int);
    proof {
        lemma_nines(o.subrange(i as int, n as int));
        lemma_split(pre, i as int);
        assert(pre.subrange(i as int, n as int) =~= o.subrange(i as int, n as int));
        assert(pre.subrange(0, i as int) =~= o.subrange(0, i as int));
    }
    if i > 0 {
        // d[i-1] is not a nine: bump it and clear the nines after it
        let ghost head = o.subrange(0, i as int);
        d[i - 1] = d[i - 1] + 1;
        let mut j: usize = i;
        while j < n
            invariant
                1 <= i <= j <= n,
                n <= o.len(),
                d@.len() == o.len(),
                forall|t: int| 0 <= t < i - 1 ==> d@[t] == o[t],
                d@[i - 1] == o[i - 1] + 1,
                forall|t: int| i <= t < j ==> d@[t] == ZERO,
                forall|t: int| n <= t < o.len() ==> d@[t] == o[t],
            decreases n - j,
        {
            d[j] = ZERO;
            j = j + 1;
        }
        proof {
            let new = d@.subrange(0, n as int);
            assert(is_digit(o[i - 1]));
            assert(all_digits(new)) by {
                assert forall|t: int| 0 <= t < new.len() implies is_digit(#[trigger] new[t]) by {
                    if t < i - 1 {
                        assert(new[t] == o[t] && pre[t] == o[t]);
                        assert(is_digit(pre[t]));
                    } else if t == i - 1 {
                        assert(pre[t] == o[t]);
                        assert(is_digit(pre[t]));
                    }
                }
            }
            lemma_split(new, i as int);
            let nh = new.subrange(0, i as int);
            let nt = new.subrange(i as int, n as int);
            assert(nh.drop_last() =~= head.drop_last());
            assert(digits_value(nh) == digits_value(head) + 1);
            lemma_subrange_digits(new, i as int, n as int);
            lemma_value_zero(nt);
            assert(digits_value(nt) == 0);
            let p = pow10((n - i) as nat);
            assert(digits_value(head) * p + (p - 1) + 1 == (digits_value(head) + 1) * p)
                by (nonlinear_arith);
        }
        None
    } else if n > 0 {
        // all nines: 99..9 becomes 10..0
        d[0] = 49;
        let mut j: usize = 1;
        while j < n
            invariant
                1 <= j <= n,
                n <= o.len(),
                d@.len() == o.len(),
                d@[0] == 49,
                forall|t: int| 1 <= t < j ==> d@[t] == ZERO,
                forall|t: int| n <= t < o.len() ==> d@[t] == o[t],
            decreases n - j,
        {
            d[j] = ZERO;
            j = j + 1;
        }
        proof {
            let new = d@.subrange(0, n as int);
            assert(all_digits(new)) by {
                assert forall|t: int| 0 <= t < new.len() implies is_digit(#[trigger] new[t]) by {}
            }
            lemma_value_head(new);
            lemma_subrange_digits(new, 1, n as int);
            lemma_value_zero(new.subrange(1, n as int));
            assert(pre.subrange(0, 0).len() == 0);
            assert(digits_value(pre.subrange(0, 0)) == 0);
            assert(pre.subrange(0, n as int) =~= pre);
            let p = pow10((n - 1) as nat);
            assert(1 * p == p) by (nonlinear_arith);
        }
        Some(ZERO)
    } else {
        proof {
            assert(pre.len() == 0);
            assert(pow10(0) == 1);
        }
        Some(49)
    }
}

/// A run of nines is one below a power of ten.
proof fn lemma_nines(s: Seq<u8>)
    requires
        forall|j: int| 0 <= j < s.len() ==> s[j] == 57,
    ensures
        digits_value(s) + 1 == pow10(s.len()),
    decreases s.len(),
{
    if s.len() > 0 {
        let t = s.drop_last();
        lemma_nines(t);
        assert(dval(s.last()) == 9);
    }
}

/// When `d` contains decimal digits, increases the last digit and propagates
/// the carry. Returns the digit that a longer result would end with when the
/// carry runs out of digits (`99..9` becomes `10..0`, and an empty run rounds
/// up to `1`).
pub fn round_up(d: &mut [u8]) -> (r: Option<u8>)
    requires
        all_digits(old(d)@),
    ensures
        final(d)@.len() == old(d)@.len(),
        all_digits(final(d)@),
        match r {
            None => digits_value(final(d)@) == digits_value(old(d)@) + 1,
            Some(c) => digits_value(old(d)@) + 1 == pow10(old(d)@.len()) && (old(d)@.len() == 0
                ==> c == 49) && (old(d)@.len() > 0 ==> c == ZERO && final(d)@[0] == 49
                && digits_value(final(d)@) == pow10((old(d)@.len() - 1) as nat)),
        },
{
    let n = d.len();
    proof {
        assert(old(d)@.subrange(0, n as int) =~= old(d)@);
    }
    let r = round_up_prefix(d, n);
    proof {
        assert(d@.subrange(0, n as int) =~= d@);
    }
    r
}

/// Some digit of `t` from position `from` on is not `0`.
pub open spec fn nonzero_from(t: Seq<u8>, from: int) -> bool {
    exists|i: int| from <= i < t.len() && t[i] != ZERO
}

/// Whether cutting the digit run `t` after `n` digits rounds the kept part
/// up (half to even).
pub open spec fn cut_rounds_up(t: Seq<u8>, n: int) -> bool {
    n < t.len() && (t[n] > 53 || (t[n] == 53 && (nonzero_from(t, n + 1) || (n > 0 && dval(t[n
        - 1]) % 2 == 1))))
}

/// Keeping the first `n` digits of `t` and rounding by the rest is
/// `round_div_pow10` at the place of the cut.
pub proof fn lemma_cut(t: Seq<u8>, n: int)
    requires
        all_digits(t),
        0 <= n <= t.len(),
    ensures
        round_div_pow10(digits_value(t), (t.len() - n) as nat) == digits_value(t.subrange(0, n))
            + (if cut_rounds_up(t, n) {
            1nat
        } else {
            0nat
        }),
{
    let len = t.len() as int;
    let j = (len - n) as nat;
    let q = digits_value(t.subrange(0, n));
    let u = t.subrange(n, len);
    let r = digits_value(u);
    lemma_split(t, n);
    lemma_subrange_digits(t, n, len);
    lemma_value_bound(u);
    lemma_pow10_pos(j);
    lemma_fundamental_div_mod_converse(digits_value(t) as int, pow10(j) as int, q as int, r as int);
    if n > 0 {
        lemma_subrange_digits(t, 0, n);
        crate::bignum::lemma_value_parity(t.subrange(0, n));
        assert(t.subrange(0, n).last() == t[n - 1]);
    } else {
        assert(t.subrange(0, n).len() == 0);
        assert(q == 0);
    }
    if n == len {
        assert(u.len() == 0);
        assert(r == 0);
        assert(pow10(0) == 1);
    } else {
        let p = pow10((j - 1) as nat);
        assert(pow10(j) == 10 * p);
        lemma_value_head(u);
        let w = u.subrange(1, u.len() as int);
        lemma_subrange_digits(u, 1, u.len() as int);
        lemma_value_bound(w);
        lemma_value_zero(w);
        let c = dval(u[0]);
        assert(u[0] == t[n]);
        assert(is_digit(t[n]));
        let rw = digits_value(w);
        assert(r == c * p + rw);
        assert(rw > 0 <==> nonzero_from(t, n + 1)) by {
            if rw > 0 {
                let i = choose|i: int| 0 <= i < w.len() && w[i] != ZERO;
                assert(w[i] == t[n + 1 + i]);
            }
            if nonzero_from(t, n + 1) {
                let i = choose|i: int| n + 1 <= i < t.len() && t[i] != ZERO;
                assert(w[i - n - 1] == t[i]);
            }
        }
        if c > 5 {
            assert(2 * r > 10 * p) by (nonlinear_arith)
                requires
                    r == c * p + rw,
                    c >= 6,
                    p >= 1,
            ;
        } else if c < 5 {
            assert(2 * r < 10 * p) by (nonlinear_arith)
                requires
                    r == c * p + rw,
                    c <= 4,
                    rw < p,
            ;
        } else {
            assert(2 * r == 10 * p + 2 * rw) by (nonlinear_arith)
                requires
                    r == c * p + rw,
                    c == 5,
            ;
        }
    }
}

/// A canonical run has as many digits as its value.
pub proof fn lemma_num_digits(s: Seq<u8>)
    requires
        canonical(s),
    ensures
        num_digits(digits_value(s)) == s.len(),
    decreases s.len(),
{
    if s.len() > 0 {
        let t = s.drop_last();
        assert(is_digit(s.last()));
        let v = digits_value(s);
        let tv = digits_value(t);
        assert(v == tv * 10 + dval(s.last()));
        assert(v / 10 == tv) by {
            lemma_fundamental_div_mod_converse(v as int, 10, tv as int, dval(s.last()) as int);
        }
        lemma_canonical_lower(s);
        lemma_pow10_pos((s.len() - 1) as nat);
        assert(v > 0);
        if t.len() > 0 {
            assert(t[0] == s[0]);
            assert(canonical(t)) by {
                assert forall|i: int| 0 <= i < t.len() implies is_digit(#[trigger] t[i]) by {
                    assert(t[i] == s[i]);
                }
            }
            lemma_num_digits(t);
        } else {
            assert(tv == 0);
        }
    }
}

/// `2^e <= 10^e`, `5^e <= 10^e`.
proof fn lemma_small_powers(e: nat)
    ensures
        pow2(e) <= pow10(e),
        pow5(e) <= pow10(e),
    decreases e,
{
    if e > 0 {
        lemma_small_powers((e - 1) as nat);
    }
}

/// The exact decimal form of a decoded value: its digits, and the bounds
/// that keep the exponents in range.
fn exact_digits(mant: u64, exp: i16) -> (r: (Big, i32))
    requires
        mant >= 1,
        exp_in_range(exp as int),
    ensures
        r.0.wf(),
        r.0.value() == exact_int(mant as nat, exp as int),
        r.1 == exact_exp(exp as int),
        1 <= r.0.digits@.len() <= 1120,
        -1100 < r.0.digits@.len() + r.1 <= 1020,
{
    let mut x = Big::from_u64(mant);
    let s: i32;
    proof {
        assert(pow10(20) == 100000000000000000000nat) by {
            reveal_with_fuel(pow10, 21);
        }
    }
    let ghost bound: nat;
    if exp >= 0 {
        x.mul_pow2(exp as usize);
        s = 0;
        proof {
            lemma_small_powers(exp as nat);
            crate::bignum::lemma_pow2_pos(exp as nat);
            lemma_pow10_add(20, exp as nat);
            bound = (20 + exp) as nat;
            assert(mant * pow2(exp as nat) < pow10(20) * pow10(exp as nat)) by (nonlinear_arith)
                requires
                    mant < pow10(20),
                    pow2(exp as nat) <= pow10(exp as nat),
                    pow2(exp as nat) >= 1,
            {
            }
        }
    } else {
        x.mul_pow5((-(exp as i32)) as usize);
        s = exp as i32;
        proof {
            let a = (-exp) as nat;
            lemma_small_powers(a);
            lemma_pow10_add(20, a);
            bound = 20 + a;
            crate::bignum::lemma_pow5_pos(a);
            assert(mant * pow5(a) < pow10(20) * pow10(a)) by (nonlinear_arith)
                requires
                    mant < pow10(20),
                    pow5(a) <= pow10(a),
                    pow5(a) >= 1,
            {
            }
        }
    }
    proof {
        crate::bignum::lemma_pow2_pos(if exp >= 0 { exp as nat } else { 0 });
        let v = x.value();
        assert(v >= 1) by {
            if exp >= 0 {
                crate::bignum::lemma_pow2_pos(exp as nat);
                assert(mant * pow2(exp as nat) >= 1) by (nonlinear_arith)
                    requires
                        mant >= 1,
                        pow2(exp as nat) >= 1,
                ;
            } else {
                crate::bignum::lemma_pow5_pos((-exp) as nat);
                assert(mant * pow5((-exp) as nat) >= 1) by (nonlinear_arith)
                    requires
                        mant >= 1,
                        pow5((-exp) as nat) >= 1,
                ;
            }
        }
        assert(x.digits@.len() > 0);
        lemma_canonical_lower(x.digits@);
        if x.digits@.len() > bound + 1 {
            lemma_pow10_mono(bound, (x.digits@.len() - 1) as nat);
        }
        if exp < 0 {
            assert(x.digits@.len() <= 20 + (-exp) + 1);
        }
    }
    (x, s)
}

/// Exact and fixed mode: writes into `buf` the digits of `d` down to the
/// place `exact_place` (at most `buf.len()` digits, none below `10^limit`),
/// rounded half to even, and returns `(n, k)`: the digits `buf[..n]` stand
/// for `0.buf[..n] * 10^k`. A result that rounds to zero at that place has
/// no digits and `k == limit`.
pub fn format_exact(d: &Decoded, buf: &mut [u8], limit: i16) -> (r: (usize, i16))
    requires
        d.mant >= 1,
        exp_in_range(d.exp as int),
        old(buf)@.len() >= 1,
    ensures
        final(buf)@.len() == old(buf)@.len(),
        r.0 <= old(buf)@.len(),
        exact_result(*d, old(buf)@.len() as int, limit as int, final(buf)@.subrange(0, r.0 as int), r.1 as int),
{
    let m = buf.len();
    format_exact_in(d, buf, m, limit)
}

/// What exact mode owes: `ds` (with `k`) is the value of `d` rounded half to
/// even at the place `exact_place` for a budget of `m` digits and the limit.
pub open spec fn exact_result(d: Decoded, m: int, limit: int, ds: Seq<u8>, k: int) -> bool {
    let x = exact_int(d.mant as nat, d.exp as int);
    let s = exact_exp(d.exp as int);
    let kv = num_digits(x) + s;
    let p0 = exact_place(kv, m, limit);
    let rv = rounded_at(x, s, p0);
    let n = ds.len() as int;
    &&& all_digits(ds)
    &&& (n > 0 ==> ds[0] != ZERO)
    &&& (n == 0 <==> rv == 0)
    &&& (n == 0 ==> k == limit)
    &&& (n > 0 ==> (k - n == p0 && digits_value(ds) == rv) || (k - n == p0 + 1 && n == m
        && digits_value(ds) * 10 == rv))
}

/// Exact mode has no digit to write: the value rounds to zero at its place.
pub open spec fn exact_rounds_to_zero(d: Decoded, m: int, limit: int) -> bool {
    let x = exact_int(d.mant as nat, d.exp as int);
    let s = exact_exp(d.exp as int);
    rounded_at(x, s, exact_place(num_digits(x) + s, m, limit)) == 0
}

/// Exact mode on the first `m` bytes of `buf`.
pub fn format_exact_in(d: &Decoded, buf: &mut [u8], m: usize, limit: i16) -> (r: (usize, i16))
    requires
        d.mant >= 1,
        exp_in_range(d.exp as int),
        1 <= m <= old(buf)@.len(),
    ensures
        final(buf)@.len() == old(buf)@.len(),
        r.0 <= m,
        exact_result(*d, m as int, limit as int, final(buf)@.subrange(0, r.0 as int), r.1 as int),
        forall|j: int| r.0 <= j < old(buf)@.len() ==> final(buf)@[j] == old(buf)@[j],
{
    let (x, s) = exact_digits(d.mant, d.exp);
    let len = x.digits.len();
    let kv: i32 = len as i32 + s;
    let lim: i32 = limit as i32;
    let ghost xv = x.value();
    proof {
        lemma_num_digits(x.digits@);
        lemma_value_bound(x.digits@);
    }
    if kv < lim {
        proof {
            let j = (lim - s) as nat;
            assert(exact_place(kv as int, m as int, lim as int) == lim);
            lemma_pow10_mono(len as nat, (j - 1) as nat);
            assert(pow10(j) == 10 * pow10((j - 1) as nat));
            lemma_fundamental_div_mod_converse(xv as int, pow10(j) as int, 0, xv as int);
        }
        return (0, limit);
    }
    let avail: usize = (kv - lim) as usize;
    let n: usize = if avail < m {
        avail
    } else {
        m
    };
    let ghost p0 = exact_place(kv as int, m as int, lim as int);
    assert(p0 == kv - n);
    let mut i: usize = 0;
    while i < n
        invariant
            i <= n,
            n <= m,
            m <= buf@.len(),
            buf@.len() == old(buf)@.len(),
            len == x.digits@.len(),
            forall|j: int| i <= j < buf@.len() ==> buf@[j] == old(buf)@[j],
            forall|j: int| 0 <= j < i ==> buf@[j] == (if j < len {
                x.digits@[j]
            } else {
                ZERO
            }),
        decreases n - i,
    {
        let c: u8 = if i < len {
            x.digits[i]
        } else {
            ZERO
        };
        buf[i] = c;
        i = i + 1;
    }
    let up: bool = if n < len {
        let c = x.digits[n];
        if c > 53 {
            true
        } else if c < 53 {
            false
        } else {
            let mut j: usize = n + 1;
            while j < len
                invariant
                    n + 1 <= j <= len,
                    len == x.digits@.len(),
                    forall|t: int| n + 1 <= t < j ==> x.digits@[t] == ZERO,
                ensures
                    j < len ==> x.digits@[j as int] != ZERO,
                    j == len ==> forall|t: int| n + 1 <= t < len ==> x.digits@[t] == ZERO,
                decreases len - j,
            {
                if x.digits[j] != ZERO {
                    break;
                }
                j = j + 1;
            }
            j < len || (n > 0 && (buf[n - 1] - 48) % 2 == 1)
        }
    } else {
        false
    };
    let ghost ds0 = buf@.subrange(0, n as int);
    proof {
        if n <= len {
            assert(ds0 =~= x.digits@.subrange(0, n as int));
            lemma_subrange_digits(x.digits@, 0, n as int);
            lemma_cut(x.digits@, n as int);
            assert(up == cut_rounds_up(x.digits@, n as int)) by {
                if n > 0 {
                    assert(buf@[n - 1] == x.digits@[n - 1]);
                }
            }
            assert(p0 - s == len - n);
        } else {
            let z = ds0.subrange(len as int, n as int);
            assert(ds0.subrange(0, len as int) =~= x.digits@);
            assert(all_digits(ds0)) by {
                assert forall|t: int| 0 <= t < ds0.len() implies is_digit(#[trigger] ds0[t]) by {
                    if t < len {
                        assert(is_digit(x.digits@[t]));
                    }
                }
            }
            lemma_split(ds0, len as int);
            lemma_subrange_digits(ds0, len as int, n as int);
            lemma_value_zero(z);
        }
        if n > 0 {
            assert(ds0[0] == x.digits@[0]);
            lemma_canonical_lower(ds0);
            lemma_pow10_pos((n - 1) as nat);
        } else {
            assert(ds0.len() == 0);
            assert(digits_value(ds0) == 0);
        }
    }
    if up {
        let c = round_up_prefix(buf, n);
        match c {
            None => {
                proof {
                    let ds = buf@.subrange(0, n as int);
                    if n > 0 {
                        lemma_canonical_lower(ds);
                        lemma_canonical_lower(ds0);
                    }
                }
                (n, kv as i16)
            },
            Some(c) => {
                let k: i32 = kv + 1;
                if k > lim && n < m {
                    let ghost before = buf@;
                    buf[n] = c;
                    proof {
                        let ds = buf@.subrange(0, n + 1);
                        assert(ds.drop_last() =~= before.subrange(0, n as int));
                        assert(all_digits(ds)) by {
                            assert forall|t: int| 0 <= t < ds.len() implies is_digit(
                                #[trigger] ds[t],
                            ) by {
                                if t < n {
                                    assert(ds[t] == before.subrange(0, n as int)[t]);
                                }
                            }
                        }
                        if n == 0 {
                            assert(before.subrange(0, 0).len() == 0);
                            assert(digits_value(before.subrange(0, 0)) == 0);
                            assert(pow10(0) == 1);
                        } else {
                            assert(pow10(n as nat) == 10 * pow10((n - 1) as nat));
                        }
                    }
                    (n + 1, k as i16)
                } else {
                    proof {
                        assert(pow10(n as nat) == 10 * pow10((n - 1) as nat));
                    }
                    (n, k as i16)
                }
            },
        }
    } else {
        (n, kv as i16)
    }
}

/// `y` lies in the rounding interval `[lo, hi]` (open unless `incl`).
pub open spec fn in_interval(y: nat, lo: nat, hi: nat, incl: bool) -> bool {
    if incl {
        lo <= y <= hi
    } else {
        lo < y < hi
    }
}

/// Some multiple of `10^j` lies in the rounding interval.
pub open spec fn has_multiple(lo: nat, hi: nat, incl: bool, j: nat) -> bool {
    exists|c: nat| in_interval(#[trigger] (c * pow10(j)), lo, hi, incl)
}

/// What shortest mode needs of a decoded value: a nonempty interval around
/// a value of at most 54 significant bits, strictly above zero.
pub open spec fn shortest_ok(d: Decoded) -> bool {
    &&& 1 <= d.minus < d.mant
    &&& 1 <= d.plus <= d.mant
    &&& d.mant + d.plus <= 18014398509481986
    &&& exp_in_range(d.exp as int)
}

/// What shortest mode owes: `0.ds * 10^k` lies in the rounding interval of
/// `d`; no multiple of the next larger power of ten does (so no shorter run
/// would do); and it is one of the two multiples of its last place next to
/// the value, the nearer one (half to even) when both lie in the interval.
pub open spec fn shortest_result(d: Decoded, ds: Seq<u8>, k: int) -> bool {
    let x = exact_int(d.mant as nat, d.exp as int);
    let lo = exact_int((d.mant - d.minus) as nat, d.exp as int);
    let hi = exact_int((d.mant + d.plus) as nat, d.exp as int);
    let s = exact_exp(d.exp as int);
    let n = ds.len() as int;
    let p = k - n - s;
    let c = digits_value(ds);
    let f = x / pow10(p as nat);
    &&& n >= 1
    &&& all_digits(ds)
    &&& ds[0] != ZERO
    &&& p >= 0
    &&& in_interval(c * pow10(p as nat), lo, hi, d.inclusive)
    &&& !has_multiple(lo, hi, d.inclusive, (p + 1) as nat)
    &&& (c == f || c == f + 1)
    &&& (in_interval(f * pow10(p as nat), lo, hi, d.inclusive) && in_interval(
        (f + 1) * pow10(p as nat),
        lo,
        hi,
        d.inclusive,
    ) ==> c == round_div_pow10(x, p as nat))
}

/// The multiples of `10^j` just below (or at) and just above the value of `v`.
fn bracket(v: &Big, j: usize) -> (r: (Big, Big))
    requires
        v.wf(),
    ensures
        r.0.wf(),
        r.1.wf(),
        r.0.value() == (v.value() / pow10(j as nat)) * pow10(j as nat),
        r.1.value() == (v.value() / pow10(j as nat) + 1) * pow10(j as nat),
{
    let len = v.digits.len();
    let n: usize = if j < len {
        len - j
    } else {
        0
    };
    let mut pre: Vec<u8> = Vec::new();
    let mut i: usize = 0;
    while i < n
        invariant
            i <= n <= len,
            len == v.digits@.len(),
            pre@ == v.digits@.subrange(0, i as int),
        decreases n - i,
    {
        pre.push(v.digits[i]);
        i = i + 1;
        proof {
            assert(pre@ =~= v.digits@.subrange(0, i as int));
        }
    }
    let ghost f = digits_value(pre@);
    proof {
        lemma_subrange_digits(v.digits@, 0, n as int);
        lemma_pow10_pos(j as nat);
        lemma_value_bound(v.digits@);
        if j < len {
            lemma_split(v.digits@, n as int);
            lemma_subrange_digits(v.digits@, n as int, len as int);
            lemma_value_bound(v.digits@.subrange(n as int, len as int));
            lemma_fundamental_div_mod_converse(
                v.value() as int,
                pow10(j as nat) as int,
                f as int,
                digits_value(v.digits@.subrange(n as int, len as int)) as int,
            );
        } else {
            lemma_pow10_mono(len as nat, j as nat);
            assert(pre@.len() == 0);
            lemma_fundamental_div_mod_converse(
                v.value() as int,
                pow10(j as nat) as int,
                0,
                v.value() as int,
            );
        }
    }
    let mut a = Big { digits: pre.clone() };
    proof {
        assert(a.digits@ == pre@);
    }
    a.mul_pow10(j);
    let ghost pre0 = pre@;
    proof {
        assert(pre0.subrange(0, n as int) =~= pre0);
        assert(digits_value(pre0) == f);
    }
    let carry = round_up_prefix(pre.as_mut_slice(), n);
    proof {
        assert(pre@.subrange(0, n as int) =~= pre@);
    }
    match carry {
        None => {
            proof {
                assert(all_digits(pre@));
                assert(digits_value(pre@) == f + 1);
                if n > 0 {
                    assert(v.digits@.subrange(0, n as int)[0] == v.digits@[0]);
                    lemma_canonical_lower(v.digits@.subrange(0, n as int));
                    lemma_canonical_lower(pre@);
                }
                assert(canonical(pre@));
            }
        },
        Some(c) => {
            proof {
                crate::bignum::lemma_value_push(pre@, c);
                if n > 0 {
                    assert(pow10(n as nat) == 10 * pow10((n - 1) as nat));
                } else {
                    assert(pre@.len() == 0);
                    assert(digits_value(pre@) == 0);
                }
            }
            pre.push(c);
            proof {
                assert(pre@[0] != ZERO);
                assert(canonical(pre@));
            }
        },
    }
    let mut b = Big { digits: pre };
    b.mul_pow10(j);
    (a, b)
}

/// Whether `c` lies in the interval between `lo` and `hi`.
fn inside(c: &Big, lo: &Big, hi: &Big, incl: bool) -> (r: bool)
    requires
        c.wf(),
        lo.wf(),
        hi.wf(),
    ensures
        r == in_interval(c.value(), lo.value(), hi.value(), incl),
{
    let a = lo.cmp(c);
    let b = c.cmp(hi);
    if incl {
        !matches!(a, core::cmp::Ordering::Greater) && !matches!(b, core::cmp::Ordering::Greater)
    } else {
        matches!(a, core::cmp::Ordering::Less) && matches!(b, core::cmp::Ordering::Less)
    }
}

/// When neither multiple of `q` next to `x` lies in an interval that holds
/// `x`, no multiple of `q` does.
proof fn lemma_bracket_none(x: nat, lo: nat, hi: nat, incl: bool, j: nat)
    requires
        in_interval(x, lo, hi, incl),
        !in_interval((x / pow10(j)) * pow10(j), lo, hi, incl),
        !in_interval((x / pow10(j) + 1) * pow10(j), lo, hi, incl),
    ensures
        !has_multiple(lo, hi, incl, j),
{
    let q = pow10(j);
    lemma_pow10_pos(j);
    let f = x / q;
    assert(f * q <= x && x < (f + 1) * q) by (nonlinear_arith)
        requires
            q >= 1,
            f == x / q,
    ;
    assert forall|c: nat| !in_interval(#[trigger] (c * q), lo, hi, incl) by {
        if c <= f {
            assert(c * q <= f * q) by (nonlinear_arith)
                requires
                    c <= f,
            ;
        } else {
            assert(c * q >= (f + 1) * q) by (nonlinear_arith)
                requires
                    c >= f + 1,
            ;
        }
    }
}

/// An interval wider than `q` holds a multiple of `q`.
proof fn lemma_wide_interval(lo: nat, hi: nat, incl: bool, j: nat)
    requires
        hi > lo + pow10(j),
    ensures
        has_multiple(lo, hi, incl, j),
{
    let q = pow10(j);
    lemma_pow10_pos(j);
    let c = lo / q + 1;
    assert(lo < c * q <= lo + q) by (nonlinear_arith)
        requires
            q >= 1,
            c == lo / q + 1,
    ;
    assert(in_interval(c * q, lo, hi, incl));
}

/// Shortest mode: writes into `buf` the fewest digits whose value lies in the
/// rounding interval of `d`, choosing among the two candidates next to the
/// value the nearer one (half to even), and returns `(n, k)` with the value
/// `0.buf[..n] * 10^k`.
#[verifier::rlimit(50)]
pub fn format_shortest(d: &Decoded, buf: &mut [u8]) -> (r: (usize, i16))
    requires
        shortest_ok(*d),
        old(buf)@.len() >= MAX_SIG_DIGITS,
    ensures
        final(buf)@.len() == old(buf)@.len(),
        1 <= r.0 <= MAX_SIG_DIGITS,
        shortest_result(*d, final(buf)@.subrange(0, r.0 as int), r.1 as int),
        forall|j: int| r.0 <= j < old(buf)@.len() ==> final(buf)@[j] == old(buf)@[j],
{
    let incl = d.inclusive;
    let (v, s) = exact_digits(d.mant, d.exp);
    let (lo, s1) = exact_digits(d.mant - d.minus, d.exp);
    let (hi, s2) = exact_digits(d.mant + d.plus, d.exp);
    let len = v.digits.len();
    let ghost xv = v.value();
    let ghost lv = lo.value();
    let ghost hv = hi.value();
    let ghost x_unit: nat = if d.exp >= 0 {
        pow2(d.exp as nat)
    } else {
        pow5((-d.exp) as nat)
    };
    proof {
        if d.exp >= 0 {
            crate::bignum::lemma_pow2_pos(d.exp as nat);
        } else {
            crate::bignum::lemma_pow5_pos((-d.exp) as nat);
        }
        let m = d.mant as nat;
        let mi = d.minus as nat;
        let pl = d.plus as nat;
        assert(xv == m * x_unit && lv == (m - mi) * x_unit && hv == (m + pl) * x_unit);
        assert(lv < xv < hv && hv <= 2 * xv) by (nonlinear_arith)
            requires
                xv == m * x_unit,
                lv == (m - mi) * x_unit,
                hv == (m + pl) * x_unit,
                x_unit >= 1,
                1 <= mi < m,
                1 <= pl <= m,
        ;
        lemma_value_bound(v.digits@);
        assert(pow10((len + 1) as nat) == 10 * pow10(len as nat));
        assert(in_interval(xv, lv, hv, incl));
        // the value itself is a multiple of 10^0
        assert(pow10(0) == 1);
        assert(xv / pow10(0) == xv);
        assert(xv * 1 == xv);
        assert(in_interval(xv * pow10(0), lv, hv, incl));
        assert(lv >= 1) by {
            assert((d.mant - d.minus) as nat * x_unit >= 1) by (nonlinear_arith)
                requires
                    d.mant - d.minus >= 1,
                    x_unit >= 1,
            ;
        }
    }
    let mut p: usize = 0;
    while p < len
        invariant
            p <= len,
            len == v.digits@.len(),
            v.wf(),
            lo.wf(),
            hi.wf(),
            xv == v.value(),
            lv == lo.value(),
            hv == hi.value(),
            incl == d.inclusive,
            in_interval(xv, lv, hv, incl),
            has_multiple(lv, hv, incl, p as nat),
        ensures
            has_multiple(lv, hv, incl, p as nat),
            p == len || !has_multiple(lv, hv, incl, (p + 1) as nat),
        decreases len - p,
    {
        let (a, b) = bracket(&v, p + 1);
        let ina = inside(&a, &lo, &hi, incl);
        let inb = inside(&b, &lo, &hi, incl);
        if ina || inb {
            proof {
                let q = pow10((p + 1) as nat);
                let f = xv / q;
                if ina {
                    assert(in_interval(f * q, lv, hv, incl));
                } else {
                    assert(in_interval((f + 1) * q, lv, hv, incl));
                }
            }
            p = p + 1;
        } else {
            proof {
                lemma_bracket_none(xv, lv, hv, incl, (p + 1) as nat);
            }
            break;
        }
    }
    proof {
        if p == len {
            // above 10^len nothing fits: 10^(len+1) > 2 * x >= hi
            let q = pow10((len + 1) as nat);
            lemma_pow10_pos(len as nat);
            lemma_fundamental_div_mod_converse(xv as int, q as int, 0, xv as int);
            assert(0 * q == 0) by (nonlinear_arith);
            assert((0 + 1) * q == q) by (nonlinear_arith);
            lemma_bracket_none(xv, lv, hv, incl, (len + 1) as nat);
        }
    }
    let (a, b) = bracket(&v, p);
    let ina = inside(&a, &lo, &hi, incl);
    let inb = inside(&b, &lo, &hi, incl);
    let n: usize = len - p;
    let ghost q = pow10(p as nat);
    let ghost f = xv / q;
    proof {
        lemma_pow10_pos(p as nat);
        // one of the two neighbours of x at this level lies in the interval
        let c0 = choose|c: nat| in_interval(#[trigger] (c * q), lv, hv, incl);
        if !ina && !inb {
            lemma_bracket_none(xv, lv, hv, incl, p as nat);
        }
    }
    proof {
        // f is the run of the first n digits of x
        lemma_split(v.digits@, n as int);
        lemma_subrange_digits(v.digits@, 0, n as int);
        lemma_subrange_digits(v.digits@, n as int, len as int);
        lemma_value_bound(v.digits@.subrange(n as int, len as int));
        lemma_fundamental_div_mod_converse(
            xv as int,
            q as int,
            digits_value(v.digits@.subrange(0, n as int)) as int,
            digits_value(v.digits@.subrange(n as int, len as int)) as int,
        );
        assert(f == digits_value(v.digits@.subrange(0, n as int)));
        // the width of the interval bounds the candidates, hence the digit count
        let m = d.mant as nat;
        let mi = d.minus as nat;
        let pl = d.plus as nat;
        let cc: nat = if ina {
            f
        } else {
            f + 1
        };
        lemma_short_candidate(cc, p as nat, lv, hv, incl, m, mi, pl, x_unit);
        assert(pow10(17) == 100000000000000000nat) by {
            reveal_with_fuel(pow10, 18);
        }
        if n > 0 {
            lemma_canonical_lower(v.digits@.subrange(0, n as int));
            if n > 17 {
                lemma_pow10_mono(17, (n - 1) as nat);
            }
        }
    }
    let mut i: usize = 0;
    while i < n
        invariant
            i <= n <= len,
            n <= 17,
            len == v.digits@.len(),
            buf@.len() == old(buf)@.len(),
            buf@.len() >= MAX_SIG_DIGITS,
            forall|t: int| i <= t < buf@.len() ==> buf@[t] == old(buf)@[t],
            forall|t: int| 0 <= t < i ==> buf@[t] == v.digits@[t],
        decreases n - i,
    {
        buf[i] = v.digits[i];
        i = i + 1;
    }
    let pick_b: bool = if ina && inb {
        if n < len {
            let c = v.digits[n];
            if c > 53 {
                true
            } else if c < 53 {
                false
            } else {
                let mut j: usize = n + 1;
                while j < len
                    invariant
                        n + 1 <= j <= len,
                        len == v.digits@.len(),
                        forall|t: int| n + 1 <= t < j ==> v.digits@[t] == ZERO,
                    ensures
                        j < len ==> v.digits@[j as int] != ZERO,
                        j == len ==> forall|t: int| n + 1 <= t < len ==> v.digits@[t] == ZERO,
                    decreases len - j,
                {
                    if v.digits[j] != ZERO {
                        break;
                    }
                    j = j + 1;
                }
                j < len || (n > 0 && (v.digits[n - 1] - 48) % 2 == 1)
            }
        } else {
            false
        }
    } else {
        inb
    };
    let kv: i32 = len as i32 + s;
    let ghost ds0 = buf@.subrange(0, n as int);
    proof {
        assert(ds0 =~= v.digits@.subrange(0, n as int));
        lemma_cut(v.digits@, n as int);
        assert(pick_b == cut_rounds_up(v.digits@, n as int) || !(ina && inb));
        assert(len - n == p);
        if n == 0 {
            assert(f == 0);
            assert(0 * q == 0) by (nonlinear_arith);
            assert(!ina);
        }
        if n > 0 {
            assert(ds0[0] == v.digits@[0]);
        }
    }
    if pick_b {
        let c = round_up_prefix(buf, n);
        match c {
            None => {
                proof {
                    let ds = buf@.subrange(0, n as int);
                    if n > 0 {
                        lemma_canonical_lower(ds);
                        lemma_canonical_lower(ds0);
                    }
                }
                (n, kv as i16)
            },
            Some(c) => {
                proof {
                    if n > 0 {
                        // 10^n * 10^p would be a multiple of 10^(p+1) inside
                        lemma_pow10_add((n - 1) as nat, (p + 1) as nat);
                        lemma_pow10_add(n as nat, p as nat);
                        assert(((n - 1) + (p + 1)) as nat == (n + p) as nat);
                        let w = pow10((n - 1) as nat);
                        assert(in_interval(w * pow10((p + 1) as nat), lv, hv, incl));
                        assert(false);
                    }
                }
                let ghost before = buf@;
                buf[n] = c;
                proof {
                    let ds = buf@.subrange(0, 1);
                    assert(ds.drop_last().len() == 0);
                    assert(digits_value(ds.drop_last()) == 0);
                    assert(digits_value(ds) == 1);
                    assert(is_digit(ds[0]));
                    assert(all_digits(ds));
                    assert(1 * q == q);
                }
                (n + 1, (kv + 1) as i16)
            },
        }
    } else {
        (n, kv as i16)
    }
}

/// A candidate inside the interval at the place where the search stopped
/// is at most `5 * (mant + plus)`.
proof fn lemma_short_candidate(
    c: nat,
    p: nat,
    lo: nat,
    hi: nat,
    incl: bool,
    m: nat,
    mi: nat,
    pl: nat,
    x: nat,
)
    requires
        in_interval(c * pow10(p), lo, hi, incl),
        !has_multiple(lo, hi, incl, p + 1),
        hi == (m + pl) * x,
        lo == (m - mi) * x,
        1 <= mi <= m,
        pl >= 1,
        x >= 1,
    ensures
        c <= 5 * (m + pl),
{
    let q = pow10(p);
    assert(pow10(p + 1) == 10 * q);
    if hi > lo + pow10(p + 1) {
        lemma_wide_interval(lo, hi, incl, p + 1);
    }
    assert(hi - lo == (mi + pl) * x) by (nonlinear_arith)
        requires
            hi == (m + pl) * x,
            lo == (m - mi) * x,
            mi <= m,
    ;
    assert(c * q <= hi);
    assert(c * ((mi + pl) * x) <= c * (10 * q)) by (nonlinear_arith)
        requires
            (mi + pl) * x <= 10 * q,
    ;
    assert(c * (10 * q) <= 10 * hi) by (nonlinear_arith)
        requires
            c * q <= hi,
    ;
    assert(c * 2 <= 10 * (m + pl)) by (nonlinear_arith)
        requires
            c * ((mi + pl) * x) <= 10 * ((m + pl) * x),
            mi + pl >= 2,
            x >= 1,
    ;
}

/// An upper bound on the digits that exact mode can need for a value with
/// binary exponent `exp`: `21 + (5 * exp) / 16` for `exp >= 0` and
/// `21 + (12 * -exp) / 16` otherwise (as `log10(2) < 5/16`, `log10(5) < 12/16`).
pub fn estimate_max_buf_len(exp: i16) -> (r: usize)
    ensures
        r == 21 + (if exp < 0 {
            (-12 * exp) / 16
        } else {
            (5 * exp) / 16
        }),
{
    let c: i32 = if exp < 0 {
        -12
    } else {
        5
    };
    let t: i32 = c * (exp as i32);
    21 + (t as usize) / 16
}

/// Shortest output is short: its digits are worth at most
/// `5 * (mant + plus)`, so a value of at most 53 significant bits gets at
/// most 17 digits, and one of at most 24 bits at most 9.
pub proof fn lemma_shortest_length(d: Decoded, ds: Seq<u8>, k: int)
    requires
        shortest_ok(d),
        shortest_result(d, ds, k),
    ensures
        digits_value(ds) <= 5 * (d.mant + d.plus),
        ds.len() <= 17,
        d.mant + d.plus <= 33554434 ==> ds.len() <= 9,
{
    let s = exact_exp(d.exp as int);
    let p = (k - ds.len() - s) as nat;
    let x_unit: nat = if d.exp >= 0 {
        pow2(d.exp as nat)
    } else {
        pow5((-d.exp) as nat)
    };
    if d.exp >= 0 {
        crate::bignum::lemma_pow2_pos(d.exp as nat);
    } else {
        crate::bignum::lemma_pow5_pos((-d.exp) as nat);
    }
    let m = d.mant as nat;
    let mi = d.minus as nat;
    let pl = d.plus as nat;
    assert(exact_int((m + pl) as nat, d.exp as int) == (m + pl) * x_unit);
    assert(exact_int((m - mi) as nat, d.exp as int) == (m - mi) * x_unit);
    lemma_short_candidate(
        digits_value(ds),
        p,
        exact_int((m - mi) as nat, d.exp as int),
        exact_int((m + pl) as nat, d.exp as int),
        d.inclusive,
        m,
        mi,
        pl,
        x_unit,
    );
    crate::bignum::lemma_canonical_lower(ds);
    assert(pow10(17) == 100000000000000000nat) by {
        reveal_with_fuel(pow10, 18);
    }
    assert(pow10(9) == 1000000000nat) by {
        reveal_with_fuel(pow10, 10);
    }
    if ds.len() > 17 {
        lemma_pow10_mono(17, (ds.len() - 1) as nat);
    }
    if d.mant + d.plus <= 33554434 && ds.len() > 9 {
        lemma_pow10_mono(9, (ds.len() - 1) as nat);
    }
}

/// Shortest output lies in the rounding interval, whose half-widths are half
/// the gaps to the neighbouring floats: it is within half a gap of the value.
pub proof fn lemma_shortest_within_interval(d: Decoded, ds: Seq<u8>, k: int)
    requires
        shortest_ok(d),
        shortest_result(d, ds, k),
    ensures
        ({
            let x = exact_int(d.mant as nat, d.exp as int);
            let p = (k - ds.len() - exact_exp(d.exp as int)) as nat;
            let v = digits_value(ds) * pow10(p);
            &&& v <= x ==> x - v <= exact_int(d.minus as nat, d.exp as int)
            &&& v >= x ==> v - x <= exact_int(d.plus as nat, d.exp as int)
        }),
{
    let x_unit: nat = if d.exp >= 0 {
        pow2(d.exp as nat)
    } else {
        pow5((-d.exp) as nat)
    };
    let m = d.mant as nat;
    let mi = d.minus as nat;
    let pl = d.plus as nat;
    assert((m - mi) * x_unit == m * x_unit - mi * x_unit) by (nonlinear_arith)
        requires
            mi <= m,
    ;
    assert((m + pl) * x_unit == m * x_unit + pl * x_unit) by (nonlinear_arith);
}

/// Exact mode with room for every digit of the value writes the value
/// itself, followed by zeros: nothing is rounded.
pub proof fn lemma_exact_mode_exact(d: Decoded, m: int, ds: Seq<u8>, k: int)
    requires
        exact_result(d, m, i16::MIN as int, ds, k),
        d.mant >= 1,
        exp_in_range(d.exp as int),
        m >= num_digits(exact_int(d.mant as nat, d.exp as int)),
        m <= 30000,
    ensures
        ({
            let x = exact_int(d.mant as nat, d.exp as int);
            let s = exact_exp(d.exp as int);
            &&& ds.len() == m
            &&& k == num_digits(x) + s
            &&& digits_value(ds) == x * pow10((m - num_digits(x)) as nat)
        }),
{
    let x = exact_int(d.mant as nat, d.exp as int);
    let s = exact_exp(d.exp as int);
    let kv = num_digits(x) + s;
    let p0 = exact_place(kv, m, i16::MIN as int);
    lemma_exact_positive(d.mant as nat, d.exp as int);
    lemma_num_digits_bound(x);
    assert(s >= -1100);
    assert(p0 == kv - m);
    assert(p0 <= s);
    if p0 == s {
        assert(pow10(0) == 1);
        lemma_fundamental_div_mod_converse(x as int, 1, x as int, 0);
        assert(x * 1 == x) by (nonlinear_arith);
    } else {
        lemma_pow10_pos((s - p0) as nat);
        assert(x * pow10((s - p0) as nat) >= 1) by (nonlinear_arith)
            requires
                x >= 1,
                pow10((s - p0) as nat) >= 1,
        ;
    }
    let rv = rounded_at(x, s, p0);
    assert(rv == x * pow10((s - p0) as nat)) by {
        if p0 == s {
            assert(x * pow10(0) == x) by (nonlinear_arith)
                requires
                    pow10(0) == 1,
            ;
        }
    }
    let j = (s - p0) as nat;
    let l = num_digits(x);
    lemma_pow10_pos(j);
    lemma_value_bound_nat(x, l);
    lemma_value_lower_nat(x, l);
    lemma_pow10_add(j, l);
    lemma_pow10_add(j, (l - 1) as nat);
    assert((j + l) as nat == m as nat);
    assert(rv < pow10(m as nat)) by (nonlinear_arith)
        requires
            x < pow10(l),
            rv == x * pow10(j),
            pow10(m as nat) == pow10(j) * pow10(l),
            pow10(j) >= 1,
    ;
    assert(rv >= pow10((m - 1) as nat)) by (nonlinear_arith)
        requires
            x >= pow10((l - 1) as nat),
            rv == x * pow10(j),
            pow10((m - 1) as nat) == pow10(j) * pow10((l - 1) as nat),
    ;
    let n = ds.len();
    lemma_value_bound(ds);
    if n > 0 {
        lemma_canonical_lower(ds);
    }
    if n > 0 && k - n == p0 + 1 {
        // a carry would need ten times a value that already has m digits
        assert(digits_value(ds) * 10 == rv);
        assert(pow10(m as nat) == 10 * pow10((m - 1) as nat));
        assert(false);
    }
    lemma_pow10_pos((m - 1) as nat);
    assert(rv >= 1);
    assert(n > 0);
    assert(k - n == p0 && digits_value(ds) == rv);
    if n < m {
        lemma_pow10_mono(n, (m - 1) as nat);
    } else if n > m {
        lemma_pow10_mono(m as nat, (n - 1) as nat);
    }
    assert(n == m);
}

/// A positive number is at least ten to one less than the count of its digits.
proof fn lemma_value_lower_nat(x: nat, n: nat)
    requires
        n == num_digits(x),
        x >= 1,
    ensures
        n >= 1,
        x >= pow10((n - 1) as nat),
    decreases x,
{
    if x >= 10 {
        lemma_value_lower_nat(x / 10, num_digits(x / 10));
        assert(pow10((n - 1) as nat) == 10 * pow10((num_digits(x / 10) - 1) as nat));
    } else {
        assert(x / 10 == 0);
        assert(num_digits(0) == 0);
    }
}

/// `x >= 1` for a decoded value.
proof fn lemma_exact_positive(mant: nat, exp: int)
    requires
        mant >= 1,
    ensures
        exact_int(mant, exp) >= 1,
{
    if exp >= 0 {
        crate::bignum::lemma_pow2_pos(exp as nat);
        assert(mant * pow2(exp as nat) >= 1) by (nonlinear_arith)
            requires
                mant >= 1,
                pow2(exp as nat) >= 1,
        ;
    } else {
        crate::bignum::lemma_pow5_pos((-exp) as nat);
        assert(mant * pow5((-exp) as nat) >= 1) by (nonlinear_arith)
            requires
                mant >= 1,
                pow5((-exp) as nat) >= 1,
        ;
    }
}

/// A positive number has at least one digit.
proof fn lemma_num_digits_bound(x: nat)
    requires
        x >= 1,
    ensures
        num_digits(x) >= 1,
{
}

/// A number is below ten to the count of its digits.
proof fn lemma_value_bound_nat(x: nat, n: nat)
    requires
        n == num_digits(x),
    ensures
        x < pow10(n),
    decreases x,
{
    if x > 0 {
        lemma_value_bound_nat(x / 10, num_digits(x / 10));
        assert(pow10(n) == 10 * pow10(num_digits(x / 10)));
    }
}

/// Halfway cases round to even.
pub proof fn lemma_round_half_even(x: nat, j: nat)
    requires
        2 * (x % pow10(j)) == pow10(j),
    ensures
        round_div_pow10(x, j) % 2 == 0,
{
    let q = x / pow10(j);
    if q % 2 == 1 {
        assert(round_div_pow10(x, j) == q + 1);
        assert((q + 1) % 2 == 0) by (nonlinear_arith)
            requires
                q % 2 == 1,
        ;
    } else {
        assert(round_div_pow10(x, j) == q);
    }
}

} // verus!
