//! Exact decimal amounts.
//!
//! `Dec` holds what the arithmetic reads of a `rust_decimal::Decimal`: a signed
//! mantissa below 2^96 in magnitude and a scale (number of fractional digits)
//! of at most 28, so that its value is `mantissa / 10^scale`.  Every operation
//! that only the decimal crate can compute goes through a wrapper that converts
//! to `Decimal`, makes the call and converts back.
//!
//! Values are compared in *units*: the value times 10^28, an integer for every
//! well-formed `Dec` (see [`Dec::val`]).
use vstd::prelude::*;
use rust_decimal::Decimal;

verus! {

/// 10^n.
pub open spec fn pow10(n: nat) -> int
    decreases n,
{
    if n == 0 {
        1
    } else {
        10 * pow10((n - 1) as nat)
    }
}

/// Largest mantissa magnitude a decimal can carry: 2^96 - 1.
pub open spec fn max_mantissa() -> int {
    79228162514264337593543950335
}

/// Whether the exact value `v` (in units of 10^-28) can be written with at most
/// `s` fractional digits and a mantissa below 2^96.
pub open spec fn fits_at(v: int, s: nat) -> bool {
    s <= 28 && v % pow10((28 - s) as nat) == 0 && -max_mantissa() <= v / pow10(
        (28 - s) as nat,
    ) <= max_mantissa()
}

pub open spec fn max_nat(a: nat, b: nat) -> nat {
    if a >= b {
        a
    } else {
        b
    }
}

pub proof fn lemma_pow10_28()
    ensures
        pow10(28) == 10000000000000000000000000000int,
        pow10(28) < max_mantissa(),
{
    reveal_with_fuel(pow10, 29);
}

pub proof fn lemma_pow10_pos(n: nat)
    ensures
        pow10(n) > 0,
    decreases n,
{
    if n > 0 {
        lemma_pow10_pos((n - 1) as nat);
    }
}

pub proof fn lemma_pow10_add(a: nat, b: nat)
    ensures
        pow10(a + b) == pow10(a) * pow10(b),
    decreases a,
{
    if a > 0 {
        let a1 = (a - 1) as nat;
        lemma_pow10_add(a1, b);
        assert((a + b) as nat == (a1 + b + 1) as nat);
        assert(pow10(a + b) == 10 * pow10(a1 + b));
        let x = pow10(a1);
        let y = pow10(b);
        assert(10 * (x * y) == (10 * x) * y) by (nonlinear_arith);
    }
}

pub proof fn lemma_pow10_mono(a: nat, b: nat)
    requires
        a <= b,
    ensures
        pow10(a) <= pow10(b),
    decreases b,
{
    lemma_pow10_pos(b);
    if a < b {
        lemma_pow10_mono(a, (b - 1) as nat);
    }
}

/// An exact decimal number `mantissa / 10^scale`.
#[derive(Clone, Copy, Debug)]
pub struct Dec {
    m: i128,
    s: u32,
}

impl Dec {
    #[verifier::type_invariant]
    spec fn inv(self) -> bool {
        &&& self.s <= 28
        &&& -max_mantissa() <= self.m <= max_mantissa()
    }

    /// Well-formedness (what every executable `Dec` satisfies).
    pub closed spec fn wf(self) -> bool {
        self.inv()
    }

    /// Every executable decimal is well formed (a no-op that records it).
    pub fn note_wf(&self)
        ensures
            self.wf(),
    {
        proof {
            use_type_invariant(self);
        }
    }

    /// The mantissa.
    pub closed spec fn mant(self) -> int {
        self.m as int
    }

    /// The number of fractional digits.
    pub closed spec fn scl(self) -> nat {
        self.s as nat
    }

    /// The value in units of 10^-28.
    pub open spec fn val(self) -> int {
        self.mant() * pow10((28 - self.scl()) as nat)
    }

    pub proof fn lemma_wf(self)
        requires
            self.wf(),
        ensures
            self.scl() <= 28,
            -max_mantissa() <= self.mant() <= max_mantissa(),
    {
    }

    /// The value of a well-formed decimal is representable at its own scale.
    pub proof fn lemma_fits_own(self)
        requires
            self.wf(),
        ensures
            fits_at(self.val(), self.scl()),
    {
        let k = (28 - self.scl()) as nat;
        lemma_pow10_pos(k);
        vstd::arithmetic::div_mod::lemma_mod_multiples_basic(self.mant(), pow10(k));
        vstd::arithmetic::div_mod::lemma_div_multiples_vanish(self.mant(), pow10(k));
        assert(self.mant() * pow10(k) == pow10(k) * self.mant()) by (nonlinear_arith);
    }

    /// The decimal zero (mantissa 0, scale 0).
    pub closed spec fn zero_val() -> Dec {
        Dec { m: 0, s: 0 }
    }

    /// The decimal one (mantissa 1, scale 0).
    pub closed spec fn one_val() -> Dec {
        Dec { m: 1, s: 0 }
    }

    pub proof fn lemma_zero_one()
        ensures
            Dec::zero_val().wf(),
            Dec::zero_val().val() == 0,
            Dec::zero_val().scl() == 0,
            Dec::one_val().wf(),
            Dec::one_val().val() == pow10(28),
            Dec::one_val().scl() == 0,
    {
        assert(Dec::zero_val().val() == 0 * pow10(28));
        assert(Dec::one_val().val() == 1 * pow10(28));
    }

    /// Zero.
    pub fn zero() -> (r: Dec)
        ensures
            r == Dec::zero_val(),
            r.wf(),
            r.val() == 0,
            r.scl() == 0,
    {
        let r = Dec { m: 0, s: 0 };
        assert(r.mant() == 0);
        assert(r.val() == 0 * pow10(28));
        r
    }

    /// One.
    pub fn one() -> (r: Dec)
        ensures
            r == Dec::one_val(),
            r.wf(),
            r.val() == pow10(28),
            r.scl() == 0,
    {
        let r = Dec { m: 1, s: 0 };
        assert(r.mant() == 1 && r.scl() == 0);
        assert(r.val() == 1 * pow10(28));
        r
    }

    /// An integer.
    pub fn from_i64(n: i64) -> (r: Dec)
        ensures
            r.wf(),
            r.mant() == n,
            r.scl() == 0,
            r.val() == n * pow10(28),
    {
        Dec { m: n as i128, s: 0 }
    }

    /// `mantissa / 10^scale`, when the parts are in range.
    pub fn new(mantissa: i128, scale: u32) -> (r: Option<Dec>)
        ensures
            r is Some <==> (scale <= 28 && -max_mantissa() <= mantissa <= max_mantissa()),
            r matches Some(d) ==> d.mant() == mantissa && d.scl() == scale && d.wf(),
    {
        if scale <= 28 && -79228162514264337593543950335i128 <= mantissa
            && mantissa <= 79228162514264337593543950335i128 {
            Some(Dec { m: mantissa, s: scale })
        } else {
            None
        }
    }

    pub fn mantissa(&self) -> (r: i128)
        ensures
            r == self.mant(),
    {
        self.m
    }

    pub fn scale(&self) -> (r: u32)
        ensures
            r == self.scl(),
    {
        self.s
    }

    pub fn is_zero(&self) -> (r: bool)
        ensures
            r == (self.val() == 0),
    {
        proof {
            lemma_pow10_pos((28 - self.scl()) as nat);
            if self.m != 0 {
                assert(self.mant() * pow10((28 - self.scl()) as nat) != 0) by (nonlinear_arith)
                    requires
                        self.mant() != 0,
                        pow10((28 - self.scl()) as nat) > 0,
                ;
            }
        }
        self.m == 0
    }

    /// The negation of a decimal (mantissa negated, scale kept).
    pub closed spec fn neg_val(self) -> Dec {
        Dec { m: (-self.m) as i128, s: self.s }
    }

    pub proof fn lemma_negation(self)
        requires
            self.wf(),
        ensures
            self.neg_val().wf(),
            self.neg_val().val() == -self.val(),
            self.neg_val().scl() == self.scl(),
    {
        assert((-self.mant()) * pow10((28 - self.scl()) as nat) == -(self.mant() * pow10(
            (28 - self.scl()) as nat,
        ))) by (nonlinear_arith);
    }

    /// Negation (always exact).
    pub fn neg(&self) -> (r: Dec)
        ensures
            r == self.neg_val(),
            r.wf(),
            r.val() == -self.val(),
            r.scl() == self.scl(),
    {
        proof {
            use_type_invariant(self);
            assert((-self.mant()) * pow10((28 - self.scl()) as nat) == -(self.mant() * pow10(
                (28 - self.scl()) as nat,
            ))) by (nonlinear_arith);
        }
        Dec { m: -self.m, s: self.s }
    }

    /// Absolute value (always exact).
    pub fn abs(&self) -> (r: Dec)
        ensures
            r == (if self.val() < 0 {
                self.neg_val()
            } else {
                *self
            }),
            r.wf(),
            r.val() == (if self.val() < 0 {
                -self.val()
            } else {
                self.val()
            }),
            r.scl() == self.scl(),
    {
        proof {
            use_type_invariant(self);
            lemma_pow10_pos((28 - self.scl()) as nat);
            lemma_sign_of_val(*self);
        }
        if self.m < 0 {
            self.neg()
        } else {
            *self
        }
    }

    /// `self < other` by value.
    pub fn lt(&self, other: &Dec) -> (r: bool)
        ensures
            r == (self.val() < other.val()),
    {
        dec_lt(*self, *other)
    }

    /// `self <= other` by value.
    pub fn le(&self, other: &Dec) -> (r: bool)
        ensures
            r == (self.val() <= other.val()),
    {
        !dec_lt(*other, *self)
    }

    /// Equality by value (`1.0 == 1.00`).
    pub fn eq_val(&self, other: &Dec) -> (r: bool)
        ensures
            r == (self.val() == other.val()),
    {
        dec_eq(*self, *other)
    }

    /// The smaller of two values (the first on a tie).
    pub fn min(self, other: Dec) -> (r: Dec)
        ensures
            r == (if other.val() < self.val() {
                other
            } else {
                self
            }),
    {
        if other.lt(&self) {
            other
        } else {
            self
        }
    }

    /// The larger of two values (the first on a tie).
    pub fn max(self, other: Dec) -> (r: Dec)
        ensures
            r == (if self.val() < other.val() {
                other
            } else {
                self
            }),
    {
        if self.lt(&other) {
            other
        } else {
            self
        }
    }
}

proof fn lemma_sign_of_val(d: Dec)
    requires
        pow10((28 - d.scl()) as nat) > 0,
    ensures
        (d.mant() < 0) == (d.val() < 0),
{
    let p = pow10((28 - d.scl()) as nat);
    if d.mant() < 0 {
        assert(d.mant() * p < 0) by (nonlinear_arith)
            requires
                d.mant() < 0,
                p > 0,
        ;
    } else {
        assert(d.mant() * p >= 0) by (nonlinear_arith)
            requires
                d.mant() >= 0,
                p > 0,
        ;
    }
}

impl PartialEq for Dec {
    fn eq(&self, other: &Dec) -> (r: bool) {
        self.eq_val(other)
    }
}

impl vstd::std_specs::cmp::PartialEqSpecImpl for Dec {
    open spec fn obeys_eq_spec() -> bool {
        true
    }

    open spec fn eq_spec(&self, other: &Dec) -> bool {
        self.val() == other.val()
    }
}

/// A well-formed decimal with at most `s` fractional digits has a value that is a
/// multiple of 10^(28 - s).
pub proof fn lemma_val_multiple(d: Dec, s: nat)
    requires
        d.wf(),
        d.scl() <= s <= 28,
    ensures
        d.val() % pow10((28 - s) as nat) == 0,
        d.val() == (d.mant() * pow10((s - d.scl()) as nat)) * pow10((28 - s) as nat),
{
    let a = (s - d.scl()) as nat;
    let b = (28 - s) as nat;
    lemma_pow10_add(a, b);
    assert((a + b) as nat == (28 - d.scl()) as nat);
    lemma_pow10_pos(a);
    lemma_pow10_pos(b);
    let pa = pow10(a);
    let pb = pow10(b);
    let m = d.mant();
    assert(m * (pa * pb) == (m * pa) * pb) by (nonlinear_arith);
    vstd::arithmetic::div_mod::lemma_mod_multiples_basic(m * pa, pb);
}

/// Representability at a scale carries over to any smaller scale at which the value
/// is still a whole number of digits.
pub proof fn lemma_fits_mono(v: int, s: nat, t: nat)
    requires
        s <= t <= 28,
        v % pow10((28 - s) as nat) == 0,
        fits_at(v, t),
    ensures
        fits_at(v, s),
{
    let p = pow10((28 - t) as nat);
    let q = pow10((t - s) as nat);
    lemma_pow10_pos((28 - t) as nat);
    lemma_pow10_pos((t - s) as nat);
    lemma_pow10_add((t - s) as nat, (28 - t) as nat);
    assert(((t - s) + (28 - t)) as nat == (28 - s) as nat);
    let pq = pow10((28 - s) as nat);
    assert(pq == q * p);
    assert(pq > 0) by (nonlinear_arith)
        requires
            pq == q * p,
            q > 0,
            p > 0,
    ;
    let k = v / pq;
    vstd::arithmetic::div_mod::lemma_fundamental_div_mod(v, pq);
    assert(v == pq * k);
    assert(v == p * (q * k)) by (nonlinear_arith)
        requires
            v == pq * k,
            pq == q * p,
    ;
    vstd::arithmetic::div_mod::lemma_div_multiples_vanish(q * k, p);
    assert(v / p == q * k);
    // |k| <= |q * k| since q >= 1
    assert(-max_mantissa() <= k <= max_mantissa()) by (nonlinear_arith)
        requires
            q >= 1,
            -max_mantissa() <= q * k <= max_mantissa(),
    ;
}

/// Sum and difference of multiples of 10^k are multiples of 10^k.
pub proof fn lemma_multiple_add(x: int, y: int, k: nat)
    requires
        x % pow10(k) == 0,
        y % pow10(k) == 0,
    ensures
        (x + y) % pow10(k) == 0,
        (x - y) % pow10(k) == 0,
        (-x) % pow10(k) == 0,
{
    lemma_pow10_pos(k);
    let p = pow10(k);
    vstd::arithmetic::div_mod::lemma_fundamental_div_mod(x, p);
    vstd::arithmetic::div_mod::lemma_fundamental_div_mod(y, p);
    let a = x / p;
    let b = y / p;
    assert(x + y == p * (a + b)) by (nonlinear_arith)
        requires
            x == p * a,
            y == p * b,
    ;
    assert(x - y == p * (a - b)) by (nonlinear_arith)
        requires
            x == p * a,
            y == p * b,
    ;
    assert(-x == p * (-a)) by (nonlinear_arith)
        requires
            x == p * a,
    ;
    vstd::arithmetic::div_mod::lemma_mod_multiples_basic(a + b, p);
    vstd::arithmetic::div_mod::lemma_mod_multiples_basic(a - b, p);
    vstd::arithmetic::div_mod::lemma_mod_multiples_basic(-a, p);
    assert((a + b) * p == p * (a + b)) by (nonlinear_arith);
    assert((a - b) * p == p * (a - b)) by (nonlinear_arith);
    assert((-a) * p == p * (-a)) by (nonlinear_arith);
}

/// A sum that fits at a scale `s` bounding both operands' fits at the larger of
/// their scales (so `Decimal` addition is exact there).
pub proof fn lemma_add_exact(a: Dec, b: Dec, s: nat)
    requires
        a.wf(),
        b.wf(),
        a.scl() <= s,
        b.scl() <= s,
        fits_at(a.val() + b.val(), s),
    ensures
        fits_at(a.val() + b.val(), max_nat(a.scl(), b.scl())),
{
    let t = max_nat(a.scl(), b.scl());
    lemma_val_multiple(a, t);
    lemma_val_multiple(b, t);
    lemma_multiple_add(a.val(), b.val(), (28 - t) as nat);
    lemma_fits_mono(a.val() + b.val(), t, s);
}

/// A difference that fits at a scale `s` bounding both operands' fits at the larger
/// of their scales.
pub proof fn lemma_sub_exact(a: Dec, b: Dec, s: nat)
    requires
        a.wf(),
        b.wf(),
        a.scl() <= s,
        b.scl() <= s,
        fits_at(a.val() - b.val(), s),
    ensures
        fits_at(a.val() - b.val(), max_nat(a.scl(), b.scl())),
{
    let t = max_nat(a.scl(), b.scl());
    lemma_val_multiple(a, t);
    lemma_val_multiple(b, t);
    lemma_multiple_add(a.val(), b.val(), (28 - t) as nat);
    lemma_fits_mono(a.val() - b.val(), t, s);
}

// ----------------------------------------------------------------------------
// Results of the decimal crate's operations, by name.
// ----------------------------------------------------------------------------
/// What `Decimal::checked_add` returns for two decimals.
pub uninterp spec fn dec_add_result(a: Dec, b: Dec) -> Option<Dec>;

/// What `Decimal::checked_sub` returns for two decimals.
pub uninterp spec fn dec_sub_result(a: Dec, b: Dec) -> Option<Dec>;

/// What `Decimal::checked_mul` returns for two decimals.
pub uninterp spec fn dec_mul_result(a: Dec, b: Dec) -> Option<Dec>;

/// What `Decimal::checked_div` returns for two decimals.
pub uninterp spec fn dec_div_result(a: Dec, b: Dec) -> Option<Dec>;

/// What `Decimal::from_str` returns for a text.
pub uninterp spec fn dec_parse_result(s: Seq<char>) -> Option<Dec>;

/// What `Decimal::from_scientific` returns for a text.
pub uninterp spec fn dec_parse_sci_result(s: Seq<char>) -> Option<Dec>;

/// What `Decimal::round_dp` returns.
pub uninterp spec fn dec_round_result(a: Dec, dp: u32) -> Dec;

/// The text `Decimal::normalize` followed by `to_string` gives.
pub uninterp spec fn dec_text_result(a: Dec) -> Seq<char>;

/// The value truncated toward zero (an integer).
pub open spec fn trunc_int(d: Dec) -> int {
    if d.mant() >= 0 {
        d.mant() / pow10(d.scl())
    } else {
        -((-d.mant()) / pow10(d.scl()))
    }
}

/// `Decimal::checked_add`: the sum; exact whenever the exact sum can be written at
/// the larger of the two scales (its scale then is at most that).
#[verifier::external_body]
pub fn dec_checked_add(a: Dec, b: Dec) -> (r: Option<Dec>)
    ensures
        r == dec_add_result(a, b),
        r matches Some(x) ==> x.wf(),
        r is None ==> !fits_at(a.val() + b.val(), max_nat(a.scl(), b.scl())),
        r matches Some(x) ==> (fits_at(a.val() + b.val(), max_nat(a.scl(), b.scl())) ==> x.val()
            == a.val() + b.val() && x.scl() <= max_nat(a.scl(), b.scl())),
{
    let x = Decimal::from_i128_with_scale(a.m, a.s);
    let y = Decimal::from_i128_with_scale(b.m, b.s);
    match x.checked_add(y) {
        Some(z) => Some(Dec { m: z.mantissa(), s: z.scale() }),
        None => None,
    }
}

/// `Decimal::checked_sub`: the difference; exact whenever the exact difference can
/// be written at the larger of the two scales.
#[verifier::external_body]
pub fn dec_checked_sub(a: Dec, b: Dec) -> (r: Option<Dec>)
    ensures
        r == dec_sub_result(a, b),
        r matches Some(x) ==> x.wf(),
        r is None ==> !fits_at(a.val() - b.val(), max_nat(a.scl(), b.scl())),
        r matches Some(x) ==> (fits_at(a.val() - b.val(), max_nat(a.scl(), b.scl())) ==> x.val()
            == a.val() - b.val() && x.scl() <= max_nat(a.scl(), b.scl())),
{
    let x = Decimal::from_i128_with_scale(a.m, a.s);
    let y = Decimal::from_i128_with_scale(b.m, b.s);
    match x.checked_sub(y) {
        Some(z) => Some(Dec { m: z.mantissa(), s: z.scale() }),
        None => None,
    }
}

/// `Decimal::checked_mul`: the product; exact (at scale `a.scale + b.scale`, or 0
/// for a zero product) whenever that scale is at most 28 and the product of the
/// mantissas stays below 2^96.
#[verifier::external_body]
pub fn dec_checked_mul(a: Dec, b: Dec) -> (r: Option<Dec>)
    ensures
        r == dec_mul_result(a, b),
        r matches Some(x) ==> x.wf(),
        r is None ==> !(a.scl() + b.scl() <= 28 && -max_mantissa() <= a.mant() * b.mant()
            <= max_mantissa()),
        r matches Some(x) ==> ((a.scl() + b.scl() <= 28 && -max_mantissa() <= a.mant() * b.mant()
            <= max_mantissa()) ==> x.val() * pow10(28) == a.val() * b.val() && x.scl() <= a.scl()
            + b.scl()),
{
    let x = Decimal::from_i128_with_scale(a.m, a.s);
    let y = Decimal::from_i128_with_scale(b.m, b.s);
    match x.checked_mul(y) {
        Some(z) => Some(Dec { m: z.mantissa(), s: z.scale() }),
        None => None,
    }
}

/// `Decimal::checked_div` (the divisor is not zero): the quotient, rounded to what
/// the crate can carry; nothing more is stated of its value.
#[verifier::external_body]
pub fn dec_checked_div(a: Dec, b: Dec) -> (r: Option<Dec>)
    requires
        b.val() != 0,
    ensures
        r == dec_div_result(a, b),
        r matches Some(x) ==> x.wf(),
{
    let x = Decimal::from_i128_with_scale(a.m, a.s);
    let y = Decimal::from_i128_with_scale(b.m, b.s);
    match x.checked_div(y) {
        Some(z) => Some(Dec { m: z.mantissa(), s: z.scale() }),
        None => None,
    }
}

/// `a < b` on `Decimal`: compares the values.
#[verifier::external_body]
pub fn dec_lt(a: Dec, b: Dec) -> (r: bool)
    ensures
        r == (a.val() < b.val()),
{
    Decimal::from_i128_with_scale(a.m, a.s) < Decimal::from_i128_with_scale(b.m, b.s)
}

/// `a == b` on `Decimal`: compares the values (`1.0 == 1.00`).
#[verifier::external_body]
pub fn dec_eq(a: Dec, b: Dec) -> (r: bool)
    ensures
        r == (a.val() == b.val()),
{
    Decimal::from_i128_with_scale(a.m, a.s) == Decimal::from_i128_with_scale(b.m, b.s)
}

/// `Decimal::from_str`: parses a decimal text.
#[verifier::external_body]
pub fn dec_parse(s: &str) -> (r: Option<Dec>)
    ensures
        r == dec_parse_result(s@),
        r matches Some(x) ==> x.wf(),
{
    match <Decimal as core::str::FromStr>::from_str(s) {
        Ok(z) => Some(Dec { m: z.mantissa(), s: z.scale() }),
        Err(_) => None,
    }
}

/// `Decimal::from_scientific`: parses a text in scientific notation (`1e3`).
#[verifier::external_body]
pub fn dec_parse_sci(s: &str) -> (r: Option<Dec>)
    ensures
        r == dec_parse_sci_result(s@),
        r matches Some(x) ==> x.wf(),
{
    match Decimal::from_scientific(s) {
        Ok(z) => Some(Dec { m: z.mantissa(), s: z.scale() }),
        Err(_) => None,
    }
}

/// `Decimal::round_dp` (banker's rounding to `dp` fractional digits); a value that
/// already has at most `dp` digits is unchanged.
#[verifier::external_body]
pub fn dec_round_dp(a: Dec, dp: u32) -> (r: Dec)
    ensures
        r == dec_round_result(a, dp),
        r.wf(),
        a.scl() <= dp ==> r.val() == a.val(),
{
    let z = Decimal::from_i128_with_scale(a.m, a.s).round_dp(dp);
    Dec { m: z.mantissa(), s: z.scale() }
}

/// `Decimal::to_i64`: the value truncated toward zero, when that fits in an `i64`.
#[verifier::external_body]
pub fn dec_to_i64(a: Dec) -> (r: Option<i64>)
    ensures
        r == (if i64::MIN <= trunc_int(a) <= i64::MAX {
            Some(trunc_int(a) as i64)
        } else {
            None::<i64>
        }),
{
    rust_decimal::prelude::ToPrimitive::to_i64(&Decimal::from_i128_with_scale(a.m, a.s))
}

/// `Decimal::to_u32`: the value truncated toward zero when it is not negative and
/// fits in a `u32`.
#[verifier::external_body]
pub fn dec_to_u32(a: Dec) -> (r: Option<u32>)
    ensures
        r == (if a.mant() >= 0 && trunc_int(a) <= u32::MAX {
            Some(trunc_int(a) as u32)
        } else {
            None::<u32>
        }),
{
    rust_decimal::prelude::ToPrimitive::to_u32(&Decimal::from_i128_with_scale(a.m, a.s))
}

/// `Decimal::normalize` then `to_string`: the shortest plain text of the value.
#[verifier::external_body]
pub fn dec_text(a: Dec) -> (r: String)
    ensures
        r@ == dec_text_result(a),
{
    Decimal::from_i128_with_scale(a.m, a.s).normalize().to_string()
}

/// `a + b`; the caller rules out overflow (where `Decimal` addition panics).
pub fn dec_add(a: Dec, b: Dec) -> (r: Dec)
    requires
        dec_add_result(a, b) is Some,
    ensures
        r == dec_add_result(a, b)->0,
        r.wf(),
        fits_at(a.val() + b.val(), max_nat(a.scl(), b.scl())) ==> r.val() == a.val() + b.val()
            && r.scl() <= max_nat(a.scl(), b.scl()),
{
    dec_checked_add(a, b).unwrap()
}

/// `a - b`; the caller rules out overflow.
pub fn dec_sub(a: Dec, b: Dec) -> (r: Dec)
    requires
        dec_sub_result(a, b) is Some,
    ensures
        r == dec_sub_result(a, b)->0,
        r.wf(),
        fits_at(a.val() - b.val(), max_nat(a.scl(), b.scl())) ==> r.val() == a.val() - b.val()
            && r.scl() <= max_nat(a.scl(), b.scl()),
{
    dec_checked_sub(a, b).unwrap()
}

/// `a * b`; the caller rules out overflow.
pub fn dec_mul(a: Dec, b: Dec) -> (r: Dec)
    requires
        dec_mul_result(a, b) is Some,
    ensures
        r == dec_mul_result(a, b)->0,
        r.wf(),
        (a.scl() + b.scl() <= 28 && -max_mantissa() <= a.mant() * b.mant() <= max_mantissa())
            ==> r.val() * pow10(28) == a.val() * b.val() && r.scl() <= a.scl() + b.scl(),
{
    dec_checked_mul(a, b).unwrap()
}

/// `a / b`; the caller rules out a zero divisor and overflow.
pub fn dec_div(a: Dec, b: Dec) -> (r: Dec)
    requires
        b.val() != 0,
        dec_div_result(a, b) is Some,
    ensures
        r == dec_div_result(a, b)->0,
        r.wf(),
{
    dec_checked_div(a, b).unwrap()
}

} // verus!
