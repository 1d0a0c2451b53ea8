//! Arbitrary-size natural numbers held as ASCII decimal digits, most
//! significant first, together with the digit-sequence model that the
//! formatting and parsing kernels state their contracts over.
use vstd::prelude::*;

verus! {

/// ASCII code of the digit `0`.
pub const ZERO: u8 = 48;

pub open spec fn is_digit(c: u8) -> bool {
    48 <= c <= 57
}

pub open spec fn all_digits(s: Seq<u8>) -> bool {
    forall|i: int| 0 <= i < s.len() ==> is_digit(#[trigger] s[i])
}

/// Numeric value of an ASCII digit.
pub open spec fn dval(c: u8) -> nat {
    (c as int - 48) as nat
}

/// Value of a run of ASCII digits read in base ten, most significant first.
pub open spec fn digits_value(s: Seq<u8>) -> nat
    decreases s.len(),
{
    if s.len() == 0 {
        0
    } else {
        digits_value(s.drop_last()) * 10 + dval(s.last())
    }
}

pub open spec fn pow10(n: nat) -> nat
    decreases n,
{
    if n == 0 {
        1
    } else {
        10 * pow10((n - 1) as nat)
    }
}

pub open spec fn pow2(n: nat) -> nat
    decreases n,
{
    if n == 0 {
        1
    } else {
        2 * pow2((n - 1) as nat)
    }
}

pub open spec fn pow5(n: nat) -> nat
    decreases n,
{
    if n == 0 {
        1
    } else {
        5 * pow5((n - 1) as nat)
    }
}

/// A digit run without a leading zero (the empty run stands for zero).
pub open spec fn canonical(s: Seq<u8>) -> bool {
    all_digits(s) && (s.len() == 0 || s[0] != ZERO)
}

pub proof fn lemma_pow10_pos(n: nat)
    ensures
        pow10(n) >= 1,
    decreases n,
{
    if n > 0 {
        lemma_pow10_pos((n - 1) as nat);
    }
}

pub proof fn lemma_pow10_add(a: nat, b: nat)
    ensures
        pow10(a + b) == pow10(a) * pow10(b),
    decreases a,
{
    if a > 0 {
        let a1 = (a - 1) as nat;
        lemma_pow10_add(a1, b);
        assert(pow10(a + b) == 10 * pow10(a1 + b));
        assert(pow10(a) == 10 * pow10(a1));
        assert(10 * (pow10(a1) * pow10(b)) == (10 * pow10(a1)) * pow10(b)) by (nonlinear_arith);
    } else {
        assert(pow10(0) == 1);
        assert(a + b == b);
    }
}

pub proof fn lemma_pow10_mono(a: nat, b: nat)
    requires
        a <= b,
    ensures
        pow10(a) <= pow10(b),
    decreases b,
{
    if a < b {
        lemma_pow10_mono(a, (b - 1) as nat);
        lemma_pow10_pos((b - 1) as nat);
    }
}

pub proof fn lemma_pow2_add(a: nat, b: nat)
    ensures
        pow2(a + b) == pow2(a) * pow2(b),
    decreases a,
{
    if a > 0 {
        let a1 = (a - 1) as nat;
        lemma_pow2_add(a1, b);
        assert(pow2(a + b) == 2 * pow2(a1 + b));
        assert(pow2(a) == 2 * pow2(a1));
        assert(2 * (pow2(a1) * pow2(b)) == (2 * pow2(a1)) * pow2(b)) by (nonlinear_arith);
    } else {
        assert(pow2(0) == 1);
        assert(a + b == b);
    }
}

/// `10^n = 2^n * 5^n`.
pub proof fn lemma_pow10_factor(n: nat)
    ensures
        pow10(n) == pow2(n) * pow5(n),
    decreases n,
{
    if n > 0 {
        lemma_pow10_factor((n - 1) as nat);
        let a = pow2((n - 1) as nat);
        let b = pow5((n - 1) as nat);
        assert(pow2(n) == 2 * a);
        assert(pow5(n) == 5 * b);
        assert((2 * a) * (5 * b) == 10 * (a * b)) by (nonlinear_arith);
    } else {
        assert(pow10(0) == 1 && pow2(0) == 1 && pow5(0) == 1);
        assert(pow2(0) * pow5(0) == 1) by (nonlinear_arith)
            requires
                pow2(0) == 1 && pow5(0) == 1,
        ;
    }
}

pub proof fn lemma_pow2_pos(n: nat)
    ensures
        pow2(n) >= 1,
    decreases n,
{
    if n > 0 {
        lemma_pow2_pos((n - 1) as nat);
    }
}

pub proof fn lemma_pow5_pos(n: nat)
    ensures
        pow5(n) >= 1,
    decreases n,
{
    if n > 0 {
        lemma_pow5_pos((n - 1) as nat);
    }
}

/// A run of `n` digits is below `10^n`.
pub proof fn lemma_value_bound(s: Seq<u8>)
    requires
        all_digits(s),
    ensures
        digits_value(s) < pow10(s.len()),
    decreases s.len(),
{
    if s.len() > 0 {
        let t = s.drop_last();
        assert(all_digits(t)) by {
            assert forall|i: int| 0 <= i < t.len() implies is_digit(#[trigger] t[i]) by {
                assert(t[i] == s[i]);
            }
        }
        lemma_value_bound(t);
        assert(is_digit(s[s.len() - 1]));
        let a = digits_value(t);
        let p = pow10(t.len());
        assert(a + 1 <= p);
        assert(a * 10 + 10 <= p * 10) by (nonlinear_arith)
            requires
                a + 1 <= p,
        ;
    }
}

/// Splitting a run at `i`: the head counts `10^(len - i)` times.
pub proof fn lemma_split(s: Seq<u8>, i: int)
    requires
        0 <= i <= s.len(),
    ensures
        digits_value(s) == digits_value(s.subrange(0, i)) * pow10((s.len() - i) as nat)
            + digits_value(s.subrange(i, s.len() as int)),
    decreases s.len(),
{
    if i == s.len() {
        assert(s.subrange(0, i) =~= s);
        assert(s.subrange(i, s.len() as int).len() == 0);
        assert(digits_value(s.subrange(i, s.len() as int)) == 0);
        assert(pow10(0) == 1);
        let x = digits_value(s);
        assert(x * pow10(0) == x) by (nonlinear_arith)
            requires
                pow10(0) == 1,
        ;
    } else {
        let t = s.drop_last();
        lemma_split(t, i);
        assert(t.subrange(0, i) =~= s.subrange(0, i));
        let u = s.subrange(i, s.len() as int);
        assert(u.drop_last() =~= t.subrange(i, t.len() as int));
        assert(u.last() == s.last());
        let h = digits_value(s.subrange(0, i));
        let k = (t.len() - i) as nat;
        assert(pow10((s.len() - i) as nat) == 10 * pow10(k));
        let r = digits_value(t.subrange(i, t.len() as int));
        assert((h * pow10(k) + r) * 10 + dval(s.last()) == h * (10 * pow10(k)) + (r * 10 + dval(
            s.last(),
        ))) by (nonlinear_arith);
    }
}

/// The leading digit of a run counts `10^(len - 1)` times.
pub proof fn lemma_value_head(s: Seq<u8>)
    requires
        s.len() > 0,
    ensures
        digits_value(s) == dval(s[0]) * pow10((s.len() - 1) as nat) + digits_value(
            s.subrange(1, s.len() as int),
        ),
{
    lemma_split(s, 1);
    let h = s.subrange(0, 1);
    assert(h.drop_last().len() == 0);
    assert(digits_value(h.drop_last()) == 0);
    assert(h.last() == s[0]);
    assert(digits_value(h) == dval(s[0]));
}

/// Putting a digit in front of a run.
pub proof fn lemma_value_prepend(s: Seq<u8>, c: u8)
    requires
        all_digits(s),
        is_digit(c),
    ensures
        digits_value(s.insert(0, c)) == dval(c) * pow10(s.len()) + digits_value(s),
        all_digits(s.insert(0, c)),
{
    let t = s.insert(0, c);
    lemma_value_head(t);
    assert(t.subrange(1, t.len() as int) =~= s);
    assert forall|i: int| 0 <= i < t.len() implies is_digit(#[trigger] t[i]) by {
        if i > 0 {
            assert(t[i] == s[i - 1]);
        }
    }
}

/// Putting a digit after a run.
pub proof fn lemma_value_push(s: Seq<u8>, c: u8)
    requires
        all_digits(s),
        is_digit(c),
    ensures
        digits_value(s.push(c)) == digits_value(s) * 10 + dval(c),
        all_digits(s.push(c)),
{
    let t = s.push(c);
    assert(t.drop_last() =~= s);
    assert forall|i: int| 0 <= i < t.len() implies is_digit(#[trigger] t[i]) by {
        if i < s.len() {
            assert(t[i] == s[i]);
        }
    }
}

/// A canonical run of `n > 0` digits is at least `10^(n-1)`.
pub proof fn lemma_canonical_lower(s: Seq<u8>)
    requires
        all_digits(s),
        s.len() > 0,
    ensures
        s[0] != ZERO <==> digits_value(s) >= pow10((s.len() - 1) as nat),
{
    lemma_value_head(s);
    let r = s.subrange(1, s.len() as int);
    lemma_subrange_digits(s, 1, s.len() as int);
    lemma_value_bound(r);
    let p = pow10((s.len() - 1) as nat);
    assert(is_digit(s[0]));
    if s[0] != ZERO {
        assert(dval(s[0]) >= 1);
        assert(dval(s[0]) * p >= p) by (nonlinear_arith)
            requires
                dval(s[0]) >= 1,
        ;
    } else {
        assert(dval(s[0]) == 0);
        assert(dval(s[0]) * p == 0) by (nonlinear_arith)
            requires
                dval(s[0]) == 0,
        ;
    }
}

/// A run is worth zero exactly when all its digits are `0`.
pub proof fn lemma_value_zero(s: Seq<u8>)
    requires
        all_digits(s),
    ensures
        digits_value(s) == 0 <==> forall|i: int| 0 <= i < s.len() ==> #[trigger] s[i] == ZERO,
    decreases s.len(),
{
    if s.len() > 0 {
        let t = s.drop_last();
        assert(all_digits(t)) by {
            assert forall|i: int| 0 <= i < t.len() implies is_digit(#[trigger] t[i]) by {
                assert(t[i] == s[i]);
            }
        }
        lemma_value_zero(t);
        assert(is_digit(s[s.len() - 1]));
        if digits_value(s) == 0 {
            assert forall|i: int| 0 <= i < s.len() implies #[trigger] s[i] == ZERO by {
                if i < s.len() - 1 {
                    assert(t[i] == s[i]);
                }
            }
        }
        if forall|i: int| 0 <= i < s.len() ==> #[trigger] s[i] == ZERO {
            assert forall|i: int| 0 <= i < t.len() implies #[trigger] t[i] == ZERO by {
                assert(t[i] == s[i]);
            }
            assert(s[s.len() - 1] == ZERO);
        }
    }
}

/// Parity of a run is the parity of its last digit.
pub proof fn lemma_value_parity(s: Seq<u8>)
    requires
        s.len() > 0,
    ensures
        digits_value(s) % 2 == dval(s.last()) % 2,
{
    let a = digits_value(s.drop_last());
    let d = dval(s.last());
    assert((a * 10 + d) % 2 == d % 2) by (nonlinear_arith);
}

pub proof fn lemma_subrange_digits(s: Seq<u8>, i: int, j: int)
    requires
        all_digits(s),
        0 <= i <= j <= s.len(),
    ensures
        all_digits(s.subrange(i, j)),
{
    let t = s.subrange(i, j);
    assert forall|k: int| 0 <= k < t.len() implies is_digit(#[trigger] t[k]) by {
        assert(t[k] == s[i + k]);
    }
}

/// A natural number held as its decimal digits, most significant first,
/// without leading zeros (zero has no digits).
pub struct Big {
    pub digits: Vec<u8>,
}

impl Big {
    pub open spec fn wf(&self) -> bool {
        canonical(self.digits@)
    }

    pub open spec fn value(&self) -> nat {
        digits_value(self.digits@)
    }

    pub fn from_u64(x: u64) -> (r: Big)
        ensures
            r.wf(),
            r.value() == x,
    {
        let mut v: Vec<u8> = Vec::new();
        let mut y: u64 = x;
        proof {
            assert(pow10(0) == 1);
            assert(v@.len() == 0);
            assert(digits_value(v@) == 0);
            assert(y * pow10(0) == y) by (nonlinear_arith)
                requires
                    pow10(0) == 1,
            ;
        }
        while y > 0
            invariant
                all_digits(v@),
                y * pow10(v@.len()) + digits_value(v@) == x,
                v@.len() > 0 ==> (v@[0] != ZERO || y > 0),
            decreases y,
        {
            let c: u8 = (y % 10) as u8 + 48;
            proof {
                lemma_value_prepend(v@, c);
                let p = pow10(v@.len());
                assert(y * p == (y / 10) * (10 * p) + (y % 10) * p) by (nonlinear_arith);
            }
            v.insert(0, c);
            y = y / 10;
        }
        proof {
            assert(y * pow10(v@.len()) == 0) by (nonlinear_arith)
                requires
                    y == 0,
            ;
        }
        Big { digits: v }
    }

    pub fn is_zero(&self) -> (r: bool)
        requires
            self.wf(),
        ensures
            r == (self.value() == 0),
    {
        proof {
            if self.digits@.len() > 0 {
                lemma_canonical_lower(self.digits@);
                lemma_pow10_pos((self.digits@.len() - 1) as nat);
            }
        }
        self.digits.len() == 0
    }

    /// Multiplies in place by a nonzero factor below `2^32`.
    pub fn mul_small(&mut self, k: u32)
        requires
            old(self).wf(),
            k >= 1,
        ensures
            final(self).wf(),
            final(self).value() == old(self).value() * k,
    {
        let ghost o = self.digits@;
        let n = self.digits.len();
        let mut carry: u64 = 0;
        let mut i: usize = n;
        proof {
            assert(o.subrange(n as int, n as int).len() == 0);
            assert(digits_value(o.subrange(n as int, n as int)) == 0);
            assert(self.digits@.subrange(n as int, n as int).len() == 0);
            assert(0 * k == 0);
        }
        while i > 0
            invariant
                i <= n,
                n == o.len(),
                self.digits@.len() == n,
                all_digits(self.digits@),
                all_digits(o),
                forall|j: int| 0 <= j < i ==> self.digits@[j] == o[j],
                carry < k,
                digits_value(self.digits@.subrange(i as int, n as int)) + carry * pow10(
                    (n - i) as nat,
                ) == digits_value(o.subrange(i as int, n as int)) * k,
            decreases i,
        {
            i = i - 1;
            let d: u64 = (self.digits[i] - 48) as u64;
            assert(self.digits@[i as int] == o[i as int]);
            assert(is_digit(o[i as int]));
            assert(d * (k as u64) + carry < 10 * (k as u64)) by (nonlinear_arith)
                requires
                    d <= 9,
                    carry < k,
            ;
            let t: u64 = d * (k as u64) + carry;
            let c: u8 = (t % 10) as u8 + 48;
            let ghost before = self.digits@;
            self.digits.set(i, c);
            proof {
                let new = self.digits@;
                let ns = new.subrange(i as int, n as int);
                let os = o.subrange(i as int, n as int);
                lemma_value_head(ns);
                lemma_value_head(os);
                assert(ns.subrange(1, ns.len() as int) =~= before.subrange(i + 1, n as int));
                assert(os.subrange(1, os.len() as int) =~= o.subrange(i + 1, n as int));
                let p = pow10((n - i - 1) as nat);
                assert(pow10((n - i) as nat) == 10 * p);
                let vn = digits_value(before.subrange(i + 1, n as int));
                let vo = digits_value(o.subrange(i + 1, n as int));
                assert(dval(c) == t % 10);
                assert(dval(o[i as int]) == d);
                assert(vn + carry * p == vo * k);
                assert((t % 10) * p + vn + (t / 10) * (10 * p) == (d * p + vo) * k) by (
                nonlinear_arith)
                    requires
                        vn + carry * p == vo * k,
                        t == d * k + carry,
                ;
                assert forall|j: int| 0 <= j < n implies is_digit(#[trigger] new[j]) by {
                    if j != i {
                        assert(new[j] == before[j]);
                    }
                }
            }
            carry = t / 10;
        }
        proof {
            assert(self.digits@.subrange(0, n as int) =~= self.digits@);
            assert(o.subrange(0, n as int) =~= o);
        }
        while carry > 0
            invariant
                all_digits(self.digits@),
                self.digits@.len() >= n,
                carry * pow10(self.digits@.len()) + digits_value(self.digits@) == digits_value(o)
                    * k,
                self.digits@.len() > n ==> (self.digits@[0] != ZERO || carry > 0),
            decreases carry,
        {
            let c: u8 = (carry % 10) as u8 + 48;
            proof {
                lemma_value_prepend(self.digits@, c);
                let p = pow10(self.digits@.len());
                assert(carry * p == (carry / 10) * (10 * p) + (carry % 10) * p)
                    by (nonlinear_arith);
            }
            self.digits.insert(0, c);
            carry = carry / 10;
        }
        proof {
            assert(carry * pow10(self.digits@.len()) == 0) by (nonlinear_arith)
                requires
                    carry == 0,
            ;
            if self.digits@.len() == n && n > 0 {
                lemma_canonical_lower(o);
                let v = digits_value(o);
                assert(v * k >= v) by (nonlinear_arith)
                    requires
                        k >= 1,
                ;
                lemma_canonical_lower(self.digits@);
            }
        }
    }

    /// Builds the number written by the digits of `a` followed by those of `b`.
    pub fn from_digits(a: &[u8], b: &[u8]) -> (r: Big)
        requires
            all_digits(a@),
            all_digits(b@),
            a@.len() + b@.len() <= usize::MAX,
        ensures
            r.wf(),
            r.value() == digits_value(a@ + b@),
    {
        let ghost ab = a@ + b@;
        let mut v: Vec<u8> = Vec::new();
        let mut i: usize = 0;
        let total = a.len() + b.len();
        proof {
            assert(ab.subrange(0, 0).len() == 0);
            assert(digits_value(ab.subrange(0, 0)) == 0);
        }
        while i < total
            invariant
                total == ab.len(),
                ab == a@ + b@,
                all_digits(ab),
                i <= total,
                canonical(v@),
                digits_value(v@) == digits_value(ab.subrange(0, i as int)),
            decreases total - i,
        {
            let c: u8 = if i < a.len() { a[i] } else { b[i - a.len()] };
            assert(c == ab[i as int]);
            proof {
                let pre = ab.subrange(0, i as int);
                lemma_subrange_digits(ab, 0, i as int);
                lemma_value_push(pre, c);
                assert(ab.subrange(0, i + 1) =~= pre.push(c));
            }
            if v.len() > 0 || c != ZERO {
                proof {
                    lemma_value_push(v@, c);
                }
                v.push(c);
            } else {
                proof {
                    assert(dval(c) == 0);
                }
            }
            i = i + 1;
        }
        proof {
            assert(ab.subrange(0, total as int) =~= ab);
        }
        Big { digits: v }
    }

    /// Multiplies in place by `10^n`.
    pub fn mul_pow10(&mut self, n: usize)
        requires
            old(self).wf(),
        ensures
            final(self).wf(),
            final(self).value() == old(self).value() * pow10(n as nat),
    {
        if self.digits.len() == 0 {
            proof {
                assert(0 * pow10(n as nat) == 0) by (nonlinear_arith);
            }
            return;
        }
        let ghost v0 = self.value();
        let mut i: usize = 0;
        proof {
            assert(v0 * pow10(0) == v0) by (nonlinear_arith)
                requires
                    pow10(0) == 1,
            ;
        }
        while i < n
            invariant
                i <= n,
                self.wf(),
                self.digits@.len() > 0,
                self.value() == v0 * pow10(i as nat),
            decreases n - i,
        {
            proof {
                lemma_value_push(self.digits@, ZERO);
                assert(pow10((i + 1) as nat) == 10 * pow10(i as nat));
                assert(v0 * pow10(i as nat) * 10 == v0 * (10 * pow10(i as nat)))
                    by (nonlinear_arith);
            }
            self.digits.push(ZERO);
            i = i + 1;
        }
    }

    /// Multiplies in place by `2^n`.
    pub fn mul_pow2(&mut self, n: usize)
        requires
            old(self).wf(),
        ensures
            final(self).wf(),
            final(self).value() == old(self).value() * pow2(n as nat),
    {
        let ghost v0 = self.value();
        let mut i: usize = 0;
        proof {
            assert(v0 * pow2(0) == v0) by (nonlinear_arith)
                requires
                    pow2(0) == 1,
            ;
        }
        while i < n
            invariant
                i <= n,
                self.wf(),
                self.value() == v0 * pow2(i as nat),
            decreases n - i,
        {
            self.mul_small(2);
            proof {
                assert(pow2((i + 1) as nat) == 2 * pow2(i as nat));
                assert(v0 * pow2(i as nat) * 2 == v0 * (2 * pow2(i as nat))) by (nonlinear_arith);
            }
            i = i + 1;
        }
    }

    /// Multiplies in place by `5^n`.
    pub fn mul_pow5(&mut self, n: usize)
        requires
            old(self).wf(),
        ensures
            final(self).wf(),
            final(self).value() == old(self).value() * pow5(n as nat),
    {
        let ghost v0 = self.value();
        let mut i: usize = 0;
        proof {
            assert(v0 * pow5(0) == v0) by (nonlinear_arith)
                requires
                    pow5(0) == 1,
            ;
        }
        while i < n
            invariant
                i <= n,
                self.wf(),
                self.value() == v0 * pow5(i as nat),
            decreases n - i,
        {
            self.mul_small(5);
            proof {
                assert(pow5((i + 1) as nat) == 5 * pow5(i as nat));
                assert(v0 * pow5(i as nat) * 5 == v0 * (5 * pow5(i as nat))) by (nonlinear_arith);
            }
            i = i + 1;
        }
    }

    /// Three-way comparison of the values.
    pub fn cmp(&self, other: &Big) -> (r: core::cmp::Ordering)
        requires
            self.wf(),
            other.wf(),
        ensures
            (r == core::cmp::Ordering::Less) == (self.value() < other.value()),
            (r == core::cmp::Ordering::Equal) == (self.value() == other.value()),
            (r == core::cmp::Ordering::Greater) == (self.value() > other.value()),
    {
        if self.digits.len() != other.digits.len() {
            proof {
                lemma_value_bound(self.digits@);
                lemma_value_bound(other.digits@);
                if self.digits@.len() > 0 {
                    lemma_canonical_lower(self.digits@);
                }
                if other.digits@.len() > 0 {
                    lemma_canonical_lower(other.digits@);
                }
                if self.digits@.len() < other.digits@.len() {
                    lemma_pow10_mono(self.digits@.len(), (other.digits@.len() - 1) as nat);
                } else {
                    lemma_pow10_mono(other.digits@.len(), (self.digits@.len() - 1) as nat);
                }
            }
            if self.digits.len() < other.digits.len() {
                return core::cmp::Ordering::Less;
            } else {
                return core::cmp::Ordering::Greater;
            }
        }
        let n = self.digits.len();
        let mut i: usize = 0;
        while i < n
            invariant
                i <= n,
                n == self.digits@.len(),
                n == other.digits@.len(),
                all_digits(self.digits@),
                all_digits(other.digits@),
                forall|j: int| 0 <= j < i ==> self.digits@[j] == other.digits@[j],
            decreases n - i,
        {
            if self.digits[i] != other.digits[i] {
                proof {
                    if self.digits@[i as int] < other.digits@[i as int] {
                        lemma_first_difference(self.digits@, other.digits@, i as int);
                    } else {
                        lemma_first_difference(other.digits@, self.digits@, i as int);
                    }
                }
                if self.digits[i] < other.digits[i] {
                    return core::cmp::Ordering::Less;
                } else {
                    return core::cmp::Ordering::Greater;
                }
            }
            i = i + 1;
        }
        proof {
            assert(self.digits@ =~= other.digits@);
        }
        core::cmp::Ordering::Equal
    }

    /// Subtracts `other`, which must not exceed `self`.
    pub fn sub(&mut self, other: &Big)
        requires
            old(self).wf(),
            other.wf(),
            other.value() <= old(self).value(),
        ensures
            final(self).wf(),
            final(self).value() == old(self).value() - other.value(),
    {
        let ghost o = self.digits@;
        let n = self.digits.len();
        let m = other.digits.len();
        proof {
            lemma_value_bound(o);
            if m > 0 {
                lemma_canonical_lower(other.digits@);
                if m > n {
                    lemma_pow10_mono(n as nat, (m - 1) as nat);
                }
            }
        }
        // `other` padded with leading zeros to `n` digits
        let mut b: Vec<u8> = Vec::new();
        let mut j: usize = 0;
        proof {
            assert(b@.len() == 0);
            assert(digits_value(b@) == 0);
        }
        while j < n - m
            invariant
                m <= n,
                j <= n - m,
                b@.len() == j,
                all_digits(b@),
                digits_value(b@) == 0,
            decreases n - m - j,
        {
            proof {
                lemma_value_push(b@, ZERO);
            }
            b.push(ZERO);
            j = j + 1;
        }
        let mut k: usize = 0;
        proof {
            assert(other.digits@.subrange(0, 0).len() == 0);
            assert(digits_value(other.digits@.subrange(0, 0)) == 0);
            assert(0 * pow10(0) == 0);
        }
        while k < m
            invariant
                m <= n,
                k <= m,
                b@.len() == n - m + k,
                all_digits(b@),
                all_digits(other.digits@),
                m == other.digits@.len(),
                digits_value(b@) == digits_value(other.digits@.subrange(0, k as int)),
            decreases m - k,
        {
            let c = other.digits[k];
            proof {
                lemma_value_push(b@, c);
                let pre = other.digits@.subrange(0, k as int);
                lemma_subrange_digits(other.digits@, 0, k as int);
                lemma_value_push(pre, c);
                assert(other.digits@.subrange(0, k + 1) =~= pre.push(c));
            }
            b.push(c);
            k = k + 1;
        }
        proof {
            assert(other.digits@.subrange(0, m as int) =~= other.digits@);
        }
        let ghost bv = b@;
        let mut borrow: u8 = 0;
        let mut i: usize = n;
        proof {
            assert(o.subrange(n as int, n as int).len() == 0);
            assert(bv.subrange(n as int, n as int).len() == 0);
            assert(self.digits@.subrange(n as int, n as int).len() == 0);
            assert(digits_value(o.subrange(n as int, n as int)) == 0);
            assert(digits_value(bv.subrange(n as int, n as int)) == 0);
            assert(0 * pow10(0) == 0);
        }
        while i > 0
            invariant
                i <= n,
                n == o.len(),
                n == bv.len(),
                b@ == bv,
                self.digits@.len() == n,
                all_digits(self.digits@),
                all_digits(o),
                all_digits(bv),
                forall|j: int| 0 <= j < i ==> self.digits@[j] == o[j],
                borrow <= 1,
                digits_value(self.digits@.subrange(i as int, n as int)) + digits_value(
                    bv.subrange(i as int, n as int),
                ) == digits_value(o.subrange(i as int, n as int)) + borrow * pow10(
                    (n - i) as nat,
                ),
            decreases i,
        {
            i = i - 1;
            let x: u8 = self.digits[i] - 48;
            let y: u8 = b[i] - 48 + borrow;
            assert(self.digits@[i as int] == o[i as int]);
            assert(is_digit(o[i as int]));
            assert(is_digit(bv[i as int]));
            let c: u8;
            let nb: u8;
            if x >= y {
                c = x - y + 48;
                nb = 0;
            } else {
                c = x + 10 - y + 48;
                nb = 1;
            }
            let ghost before = self.digits@;
            self.digits.set(i, c);
            proof {
                let new = self.digits@;
                let ns = new.subrange(i as int, n as int);
                let os = o.subrange(i as int, n as int);
                let bs = bv.subrange(i as int, n as int);
                lemma_value_head(ns);
                lemma_value_head(os);
                lemma_value_head(bs);
                assert(ns.subrange(1, ns.len() as int) =~= before.subrange(i + 1, n as int));
                assert(os.subrange(1, os.len() as int) =~= o.subrange(i + 1, n as int));
                assert(bs.subrange(1, bs.len() as int) =~= bv.subrange(i + 1, n as int));
                let p = pow10((n - i - 1) as nat);
                assert(pow10((n - i) as nat) == 10 * p);
                let vn = digits_value(before.subrange(i + 1, n as int));
                let vo = digits_value(o.subrange(i + 1, n as int));
                let vb = digits_value(bv.subrange(i + 1, n as int));
                assert(vn + vb == vo + borrow * p);
                assert(dval(c) + dval(bv[i as int]) + borrow == x + nb * 10);
                assert(dval(c) * p + vn + dval(bv[i as int]) * p + vb == x * p + vo + nb * (10
                    * p)) by (nonlinear_arith)
                    requires
                        vn + vb == vo + borrow * p,
                        dval(c) + dval(bv[i as int]) + borrow == x + nb * 10,
                ;
                assert(dval(o[i as int]) == x);
                assert forall|j: int| 0 <= j < n implies is_digit(#[trigger] new[j]) by {
                    if j != i {
                        assert(new[j] == before[j]);
                    }
                }
            }
            borrow = nb;
        }
        proof {
            assert(self.digits@.subrange(0, n as int) =~= self.digits@);
            assert(o.subrange(0, n as int) =~= o);
            assert(bv.subrange(0, n as int) =~= bv);
            lemma_value_bound(self.digits@);
            if borrow == 1 {
                assert(pow10(n as nat) >= 1) by {
                    lemma_pow10_pos(n as nat);
                }
            }
        }
        self.strip();
    }

    /// Removes leading zeros.
    fn strip(&mut self)
        requires
            all_digits(old(self).digits@),
        ensures
            final(self).wf(),
            final(self).value() == digits_value(old(self).digits@),
    {
        let n = self.digits.len();
        let mut f: usize = 0;
        while f < n && self.digits[f] == ZERO
            invariant
                f <= n,
                n == self.digits@.len(),
                forall|j: int| 0 <= j < f ==> self.digits@[j] == ZERO,
            decreases n - f,
        {
            f = f + 1;
        }
        let mut v: Vec<u8> = Vec::new();
        let mut i: usize = f;
        while i < n
            invariant
                f <= i <= n,
                n == self.digits@.len(),
                v@ == self.digits@.subrange(f as int, i as int),
            decreases n - i,
        {
            v.push(self.digits[i]);
            i = i + 1;
            proof {
                assert(v@ =~= self.digits@.subrange(f as int, i as int));
            }
        }
        proof {
            let s = self.digits@;
            lemma_split(s, f as int);
            let z = s.subrange(0, f as int);
            lemma_subrange_digits(s, 0, f as int);
            lemma_subrange_digits(s, f as int, n as int);
            lemma_value_zero(z);
            assert(digits_value(z) == 0);
            assert(0 * pow10((n - f) as nat) == 0);
        }
        self.digits = v;
    }
}

/// At the first position where two equally long runs differ, the smaller
/// digit makes the smaller value.
pub proof fn lemma_first_difference(a: Seq<u8>, b: Seq<u8>, i: int)
    requires
        all_digits(a),
        all_digits(b),
        a.len() == b.len(),
        0 <= i < a.len(),
        forall|j: int| 0 <= j < i ==> a[j] == b[j],
        a[i] < b[i],
    ensures
        digits_value(a) < digits_value(b),
{
    let n = a.len() as int;
    lemma_split(a, i);
    lemma_split(b, i);
    assert(a.subrange(0, i) =~= b.subrange(0, i));
    let sa = a.subrange(i, n);
    let sb = b.subrange(i, n);
    lemma_value_head(sa);
    lemma_value_head(sb);
    lemma_subrange_digits(a, i + 1, n);
    lemma_subrange_digits(b, i + 1, n);
    assert(sa.subrange(1, sa.len() as int) =~= a.subrange(i + 1, n));
    assert(sb.subrange(1, sb.len() as int) =~= b.subrange(i + 1, n));
    lemma_value_bound(a.subrange(i + 1, n));
    let p = pow10((n - i - 1) as nat);
    let ra = digits_value(a.subrange(i + 1, n));
    let rb = digits_value(b.subrange(i + 1, n));
    assert(dval(a[i]) + 1 <= dval(b[i]));
    assert(dval(a[i]) * p + ra < dval(b[i]) * p + rb) by (nonlinear_arith)
        requires
            dval(a[i]) + 1 <= dval(b[i]),
            ra < p,
    ;
    let h = digits_value(a.subrange(0, i));
    let q = pow10((n - i) as nat);
    assert(h * q + (dval(a[i]) * p + ra) < h * q + (dval(b[i]) * p + rb));
}

} // verus!
