//! Exact decimal numbers.
//!
//! A [`Num`] is a signed decimal `±mag · 10^-scale` with an unsigned 64-bit
//! magnitude and a scale of at most 18 fractional digits, kept normalized:
//! the magnitude of a fractional number never ends in a zero digit, and zero
//! itself is stored with scale zero and a positive sign.  Normalization makes
//! the representation canonical, so two `Num`s denote the same number exactly
//! when they are structurally equal.
//!
//! Arithmetic is exact or rejected: addition, subtraction and multiplication
//! fail only when the exact result does not fit the representation, and
//! division fails when the exact quotient has no in-range decimal form (or the
//! divisor is zero).  Nothing is ever rounded.

use vstd::prelude::*;
use vstd::arithmetic::div_mod::{
    lemma_div_multiples_vanish, lemma_fundamental_div_mod, lemma_mod_multiples_basic,
};
use vstd::arithmetic::mul::{
    lemma_mul_equality_converse, lemma_mul_is_associative, lemma_mul_is_commutative,
    lemma_mul_strict_inequality, lemma_mul_unary_negation, lemma_mul_upper_bound,
};

verus! {

/// Mathematical mirror of [`Num`]: the number `m / 10^s`.
pub struct SpecNum {
    pub m: int,
    pub s: nat,
}

/// `10^e`.
pub open spec fn pow10(e: nat) -> nat
    decreases e,
{
    if e == 0 {
        1
    } else {
        10 * pow10((e - 1) as nat)
    }
}

pub proof fn lemma_pow10_pos(e: nat)
    ensures
        pow10(e) >= 1,
    decreases e,
{
    if e > 0 {
        lemma_pow10_pos((e - 1) as nat);
    }
}

pub proof fn lemma_pow10_add(a: nat, b: nat)
    ensures
        pow10(a + b) == pow10(a) * pow10(b),
    decreases a,
{
    if a == 0 {
        assert(pow10(0 + b) == 1 * pow10(b));
    } else {
        lemma_pow10_add((a - 1) as nat, b);
        assert(pow10(a + b) == 10 * pow10((a + b - 1) as nat));
        lemma_mul_is_associative(10, pow10((a - 1) as nat) as int, pow10(b) as int);
    }
}

pub proof fn lemma_pow10_mono(a: nat, b: nat)
    requires
        a <= b,
    ensures
        pow10(a) <= pow10(b),
    decreases b,
{
    if a < b {
        lemma_pow10_mono(a, (b - 1) as nat);
        lemma_pow10_pos((b - 1) as nat);
    }
}

/// `10^18`, the largest scale a `Num` may carry.
pub proof fn lemma_pow10_18()
    ensures
        pow10(18) == 1_000_000_000_000_000_000,
{
    reveal_with_fuel(pow10, 20);
}

impl SpecNum {
    /// A well-formed, normalized decimal: scale at most 18, no trailing zero
    /// digit in the magnitude of a fractional number, zero stored as `0 / 10^0`,
    /// magnitude within 64 bits.
    pub open spec fn wf(self) -> bool {
        &&& self.s <= 18
        &&& -0xffff_ffff_ffff_ffff <= self.m <= 0xffff_ffff_ffff_ffff
        &&& self.s > 0 ==> self.m % 10 != 0
        &&& self.m == 0 ==> self.s == 0
    }

    /// Numeric equality of two decimals, by cross multiplication.
    pub open spec fn same_value(self, other: SpecNum) -> bool {
        self.m * pow10(other.s) == other.m * pow10(self.s)
    }

    /// Numeric order of two decimals, by cross multiplication.
    pub open spec fn lt(self, other: SpecNum) -> bool {
        self.m * pow10(other.s) < other.m * pow10(self.s)
    }
}

/// Strips factors of ten out of `m`, lowering the scale, until the scale is
/// zero or the last digit of `m` is nonzero.  The denoted number is unchanged.
pub open spec fn spec_norm(m: int, s: nat) -> SpecNum
    decreases s,
{
    if s > 0 && m % 10 == 0 {
        spec_norm(m / 10, (s - 1) as nat)
    } else {
        SpecNum { m, s }
    }
}

pub proof fn lemma_norm_same_value(m: int, s: nat)
    ensures
        spec_norm(m, s).same_value(SpecNum { m, s }),
        spec_norm(m, s).s <= s,
    decreases s,
{
    if s > 0 && m % 10 == 0 {
        lemma_norm_same_value(m / 10, (s - 1) as nat);
        let n = spec_norm(m / 10, (s - 1) as nat);
        // n.m * pow10(s - 1) == (m / 10) * pow10(n.s)
        // goal: n.m * pow10(s) == m * pow10(n.s)
        lemma_fundamental_div_mod(m, 10);
        assert(m == 10 * (m / 10));
        assert(pow10(s) == 10 * pow10((s - 1) as nat));
        assert(n.m * pow10(s) == n.m * (10 * pow10((s - 1) as nat)));
        lemma_mul_is_associative(n.m, 10, pow10((s - 1) as nat) as int);
        lemma_mul_is_commutative(n.m, 10);
        lemma_mul_is_associative(10, n.m, pow10((s - 1) as nat) as int);
        assert(n.m * pow10(s) == 10 * (n.m * pow10((s - 1) as nat)));
        assert(n.m * pow10((s - 1) as nat) == (m / 10) * pow10(n.s));
        lemma_mul_is_associative(10, m / 10, pow10(n.s) as int);
        assert(10 * ((m / 10) * pow10(n.s)) == (10 * (m / 10)) * pow10(n.s));
    }
}

pub proof fn lemma_norm_props(m: int, s: nat)
    ensures
        spec_norm(m, s).s > 0 ==> spec_norm(m, s).m % 10 != 0,
        spec_norm(m, s).m == 0 ==> spec_norm(m, s).s == 0,
        m >= 0 ==> 0 <= spec_norm(m, s).m <= m,
        m < 0 ==> m <= spec_norm(m, s).m < 0,
    decreases s,
{
    if s > 0 && m % 10 == 0 {
        lemma_fundamental_div_mod(m, 10);
        lemma_norm_props(m / 10, (s - 1) as nat);
    } else {
        if m == 0 && s > 0 {
            assert(0int % 10 == 0);
        }
    }
}

pub proof fn lemma_norm_wf(m: int, s: nat)
    requires
        s <= 18,
        -0xffff_ffff_ffff_ffff <= m <= 0xffff_ffff_ffff_ffff,
    ensures
        spec_norm(m, s).wf(),
{
    lemma_norm_same_value(m, s);
    lemma_norm_props(m, s);
}

/// Normalization of the negation mirrors normalization of the number.
pub proof fn lemma_norm_neg(m: int, s: nat)
    requires
        m >= 0,
    ensures
        spec_norm(-m, s).m == -spec_norm(m, s).m,
        spec_norm(-m, s).s == spec_norm(m, s).s,
    decreases s,
{
    if s > 0 {
        if m % 10 == 0 {
            let k = m / 10;
            lemma_fundamental_div_mod(m, 10);
            assert(m == 10 * k);
            lemma_mul_unary_negation(10, k);
            assert(-m == 10 * (-k));
            lemma_mod_multiples_basic(-k, 10);
            assert((10 * (-k)) % 10 == 0);
            lemma_div_multiples_vanish(-k, 10);
            assert((10 * (-k)) / 10 == -k);
            lemma_norm_neg(k, (s - 1) as nat);
        } else {
            // -m is not a multiple of ten either
            if (-m) % 10 == 0 {
                let j = (-m) / 10;
                lemma_fundamental_div_mod(-m, 10);
                assert(-m == 10 * j);
                lemma_mul_unary_negation(10, j);
                assert(m == 10 * (-j));
                lemma_mod_multiples_basic(-j, 10);
                assert(false);
            }
        }
    }
}

/// A well-formed decimal is determined by its value: equal values mean equal
/// representations.
pub proof fn lemma_canonical(a: SpecNum, b: SpecNum)
    requires
        a.wf(),
        b.wf(),
        a.same_value(b),
    ensures
        a == b,
{
    if a.s <= b.s {
        lemma_canonical_ordered(a, b);
    } else {
        lemma_pow10_pos(a.s);
        lemma_pow10_pos(b.s);
        lemma_canonical_ordered(b, a);
    }
}

proof fn lemma_canonical_ordered(a: SpecNum, b: SpecNum)
    requires
        a.wf(),
        b.wf(),
        a.same_value(b),
        a.s <= b.s,
    ensures
        a == b,
{
    let d = (b.s - a.s) as nat;
    lemma_pow10_add(a.s, d);
    lemma_pow10_pos(a.s);
    lemma_pow10_pos(d);
    assert(pow10(b.s) == pow10(a.s) * pow10(d));
    // a.m * (pow10(a.s) * pow10(d)) == b.m * pow10(a.s)
    lemma_mul_is_commutative(pow10(a.s) as int, pow10(d) as int);
    lemma_mul_is_associative(a.m, pow10(d) as int, pow10(a.s) as int);
    assert(a.m * pow10(b.s) == (a.m * pow10(d)) * pow10(a.s));
    lemma_mul_is_commutative(a.m * pow10(d), pow10(a.s) as int);
    lemma_mul_is_commutative(b.m, pow10(a.s) as int);
    lemma_mul_equality_converse(pow10(a.s) as int, a.m * pow10(d), b.m);
    assert(a.m * pow10(d) == b.m);
    if d > 0 {
        assert(pow10(d) == 10 * pow10((d - 1) as nat));
        lemma_mul_is_associative(a.m, 10, pow10((d - 1) as nat) as int);
        lemma_mul_is_commutative(a.m, 10);
        lemma_mul_is_associative(10, a.m, pow10((d - 1) as nat) as int);
        assert(b.m == 10 * (a.m * pow10((d - 1) as nat)));
        lemma_mod_multiples_basic(a.m * pow10((d - 1) as nat), 10);
        assert(b.m % 10 == 0);
        assert(b.s > 0);
        assert(false);
    }
    assert(pow10(d) == 1);
    assert(a.m * 1 == a.m);
}

/// An exact decimal number `±mag · 10^-scale`.
#[derive(Debug, Clone, Copy, PartialEq, Eq, Structural)]
pub struct Num {
    neg: bool,
    mag: u64,
    scale: u32,
}

impl View for Num {
    type V = SpecNum;

    closed spec fn view(&self) -> SpecNum {
        SpecNum {
            m: if self.neg {
                -(self.mag as int)
            } else {
                self.mag as int
            },
            s: self.scale as nat,
        }
    }
}

impl Num {
    /// Zero is stored with a positive sign bit.
    pub closed spec fn sign_ok(self) -> bool {
        self.neg ==> self.mag > 0
    }

    /// The representation invariant; every `Num` the library hands out
    /// satisfies it, and every operation requires it.
    pub open spec fn wf(self) -> bool {
        &&& self@.wf()
        &&& self.sign_ok()
    }
}

/// `10^e` as a machine word.
fn pow10_u64(e: u32) -> (r: u64)
    requires
        e <= 18,
    ensures
        r as nat == pow10(e as nat),
        r >= 1,
{
    let mut r: u64 = 1;
    let mut i: u32 = 0;
    while i < e
        invariant
            i <= e <= 18,
            r as nat == pow10(i as nat),
        decreases e - i,
    {
        proof {
            lemma_pow10_mono((i + 1) as nat, 18);
            lemma_pow10_18();
        }
        r = r * 10;
        i = i + 1;
    }
    proof {
        lemma_pow10_pos(e as nat);
    }
    r
}

/// Strips trailing zero digits from a magnitude, as [`spec_norm`] does.
fn norm_mag(mag0: u128, s0: u32) -> (r: (u128, u32))
    ensures
        r.0 as int == spec_norm(mag0 as int, s0 as nat).m,
        r.1 as nat == spec_norm(mag0 as int, s0 as nat).s,
        r.0 <= mag0,
        r.1 <= s0,
{
    let mut mag = mag0;
    let mut s = s0;
    while s > 0 && mag % 10 == 0
        invariant
            spec_norm(mag as int, s as nat) == spec_norm(mag0 as int, s0 as nat),
            mag <= mag0,
            s <= s0,
        decreases s,
    {
        mag = mag / 10;
        s = s - 1;
    }
    (mag, s)
}

impl Num {
    /// The decimal `m / 10^s`, normalized.
    pub fn new(m: i64, s: u32) -> (r: Num)
        requires
            s <= 18,
        ensures
            r.wf(),
            r@ == spec_norm(m as int, s as nat),
    {
        let neg = m < 0;
        let mag: u64 = if m >= 0 {
            m as u64
        } else {
            (-(m as i128)) as u64
        };
        let (nmag, ns) = norm_mag(mag as u128, s);
        proof {
            lemma_norm_props(mag as int, s as nat);
            lemma_norm_wf(mag as int, s as nat);
            if neg {
                lemma_norm_neg(mag as int, s as nat);
                lemma_norm_wf(m as int, s as nat);
            }
        }
        Num { neg: neg && nmag > 0, mag: nmag as u64, scale: ns }
    }

    /// The integer `v` as a decimal.
    pub fn from_i64(v: i64) -> (r: Num)
        ensures
            r.wf(),
            r@ == (SpecNum { m: v as int, s: 0 }),
    {
        Num::new(v, 0)
    }

    /// Whether this is the number zero.
    pub fn is_zero(&self) -> (r: bool)
        requires
            self.wf(),
        ensures
            r == (self@.m == 0),
    {
        self.mag == 0
    }

    /// Structural equality coincides with numeric equality on well-formed
    /// decimals, so equality needs no arithmetic at all.
    pub fn num_eq(&self, other: &Num) -> (r: bool)
        requires
            self.wf(),
            other.wf(),
        ensures
            r == self@.same_value(other@),
    {
        proof {
            if self@ == other@ {
                // views equal: same_value follows directly
            } else {
                if self@.same_value(other@) {
                    lemma_canonical(self@, other@);
                }
            }
        }
        self.neg == other.neg && self.mag == other.mag && self.scale == other.scale
    }
}

/// Numeric order of two decimals.
pub open spec fn spec_cmp(a: SpecNum, b: SpecNum) -> core::cmp::Ordering {
    if a.lt(b) {
        core::cmp::Ordering::Less
    } else if b.lt(a) {
        core::cmp::Ordering::Greater
    } else {
        core::cmp::Ordering::Equal
    }
}

impl Num {
    /// Compares two decimals numerically.
    pub fn num_cmp(&self, other: &Num) -> (r: core::cmp::Ordering)
        requires
            self.wf(),
            other.wf(),
        ensures
            r == spec_cmp(self@, other@),
    {
        let pa = pow10_u64(other.scale);
        let pb = pow10_u64(self.scale);
        proof {
            lemma_pow10_mono(other.scale as nat, 18);
            lemma_pow10_mono(self.scale as nat, 18);
            lemma_pow10_18();
            lemma_mul_upper_bound(
                self.mag as int,
                0xffff_ffff_ffff_ffff,
                pa as int,
                1_000_000_000_000_000_000,
            );
            lemma_mul_upper_bound(
                other.mag as int,
                0xffff_ffff_ffff_ffff,
                pb as int,
                1_000_000_000_000_000_000,
            );
        }
        let la: u128 = (self.mag as u128) * (pa as u128);
        let lb: u128 = (other.mag as u128) * (pb as u128);
        proof {
            lemma_mul_unary_negation(self.mag as int, pa as int);
            lemma_mul_unary_negation(other.mag as int, pb as int);
            if self.mag > 0 {
                lemma_mul_strict_inequality(0, self.mag as int, pa as int);
            }
            if other.mag > 0 {
                lemma_mul_strict_inequality(0, other.mag as int, pb as int);
            }
        }
        match (self.neg, other.neg) {
            (false, false) => {
                if la < lb {
                    core::cmp::Ordering::Less
                } else if la == lb {
                    core::cmp::Ordering::Equal
                } else {
                    core::cmp::Ordering::Greater
                }
            },
            (true, true) => {
                if lb < la {
                    core::cmp::Ordering::Less
                } else if la == lb {
                    core::cmp::Ordering::Equal
                } else {
                    core::cmp::Ordering::Greater
                }
            },
            (true, false) => core::cmp::Ordering::Less,
            (false, true) => core::cmp::Ordering::Greater,
        }
    }
}

/// Negation preserves well-formedness.
pub proof fn lemma_neg_wf(n: SpecNum)
    requires
        n.wf(),
    ensures
        (SpecNum { m: -n.m, s: n.s }).wf(),
{
    if n.s > 0 {
        if (-n.m) % 10 == 0 {
            let j = (-n.m) / 10;
            lemma_fundamental_div_mod(-n.m, 10);
            assert(-n.m == 10 * j);
            lemma_mul_unary_negation(10, j);
            assert(n.m == 10 * (-j));
            lemma_mod_multiples_basic(-j, 10);
            assert(false);
        }
    }
}

/// The larger of two scales.
pub open spec fn spec_max_s(a: nat, b: nat) -> nat {
    if a >= b {
        a
    } else {
        b
    }
}

/// The exact sum, if it fits the representation.
pub open spec fn spec_add(a: SpecNum, b: SpecNum) -> Option<SpecNum> {
    let s = spec_max_s(a.s, b.s);
    let raw = a.m * pow10((s - a.s) as nat) + b.m * pow10((s - b.s) as nat);
    let n = spec_norm(raw, s);
    if -0xffff_ffff_ffff_ffff <= n.m <= 0xffff_ffff_ffff_ffff {
        Some(n)
    } else {
        None
    }
}

/// The exact difference, if it fits the representation.
pub open spec fn spec_sub(a: SpecNum, b: SpecNum) -> Option<SpecNum> {
    spec_add(a, SpecNum { m: -b.m, s: b.s })
}

/// The exact product, if it fits the representation.
pub open spec fn spec_mul(a: SpecNum, b: SpecNum) -> Option<SpecNum> {
    let n = spec_norm(a.m * b.m, a.s + b.s);
    if n.s <= 18 && -0xffff_ffff_ffff_ffff <= n.m <= 0xffff_ffff_ffff_ffff {
        Some(n)
    } else {
        None
    }
}

/// One step of the quotient search: multiply the dividend by ten until the
/// divisor divides it exactly, the scale budget of eighteen fractional
/// digits runs out, or the scaled dividend leaves the 128-bit working
/// precision.  The search is not complete: a representable quotient whose
/// scaled dividend exceeds the working precision — possible only when both
/// operands carry magnitudes and scales near their limits — is reported as
/// not found.
pub open spec fn spec_div_loop(cur: int, den: int, left: nat, k: nat) -> Option<SpecNum>
    decreases left,
{
    if cur % den == 0 {
        let n = spec_norm(cur / den, k);
        if n.m <= 0xffff_ffff_ffff_ffff {
            Some(n)
        } else {
            None
        }
    } else if left == 0 {
        None
    } else if cur * 10 > 0xffff_ffff_ffff_ffff_ffff_ffff_ffff_ffff {
        None
    } else {
        spec_div_loop(cur * 10, den, (left - 1) as nat, k + 1)
    }
}

/// The exact quotient, if the divisor is nonzero and the quotient has an
/// in-range decimal form that the bounded search of [`spec_div_loop`]
/// finds.
pub open spec fn spec_div(a: SpecNum, b: SpecNum) -> Option<SpecNum> {
    if b.m == 0 {
        None
    } else {
        let num_n = vstd::math::abs(a.m) * pow10(b.s);
        let den = vstd::math::abs(b.m) * pow10(a.s);
        match spec_div_loop(num_n as int, den as int, 18, 0) {
            Option::None => None,
            Option::Some(n) => Some(
                SpecNum {
                    m: if ((a.m < 0) != (b.m < 0)) && n.m != 0 {
                        -n.m
                    } else {
                        n.m
                    },
                    s: n.s,
                },
            ),
        }
    }
}

impl Num {
    /// The negation of this decimal.
    pub fn neg_num(&self) -> (r: Num)
        requires
            self.wf(),
        ensures
            r.wf(),
            r@ == (SpecNum { m: -self@.m, s: self@.s }),
    {
        proof {
            lemma_neg_wf(self@);
        }
        Num { neg: !self.neg && self.mag > 0, mag: self.mag, scale: self.scale }
    }

    /// Aligns the magnitude to the common scale `s`.
    fn aligned_mag(&self, s: u32) -> (r: u128)
        requires
            self.wf(),
            self.scale <= s <= 18,
        ensures
            r as int == self.mag as int * pow10((s - self.scale) as nat),
            r <= 0xffff_ffff_ffff_ffff * 1_000_000_000_000_000_000,
    {
        let p = pow10_u64(s - self.scale);
        proof {
            lemma_pow10_mono((s - self.scale) as nat, 18);
            lemma_pow10_18();
            lemma_mul_upper_bound(
                self.mag as int,
                0xffff_ffff_ffff_ffff,
                p as int,
                1_000_000_000_000_000_000,
            );
            vstd::arithmetic::mul::lemma_mul_nonnegative(self.mag as int, p as int);
        }
        (self.mag as u128) * (p as u128)
    }

    /// Adds two decimals exactly; `None` when the exact sum does not fit.
    pub fn try_add(&self, other: &Num) -> (r: Option<Num>)
        requires
            self.wf(),
            other.wf(),
        ensures
            match r {
                Option::Some(n) => n.wf() && spec_add(self@, other@) == Some(n@),
                Option::None => spec_add(self@, other@) is None,
            },
    {
        let s: u32 = if self.scale >= other.scale {
            self.scale
        } else {
            other.scale
        };
        let la = self.aligned_mag(s);
        let lb = other.aligned_mag(s);
        let ghost ia: int = self@.m * pow10((s - self.scale) as nat);
        let ghost ib: int = other@.m * pow10((s - other.scale) as nat);
        proof {
            lemma_mul_unary_negation(self.mag as int, pow10((s - self.scale) as nat) as int);
            lemma_mul_unary_negation(other.mag as int, pow10((s - other.scale) as nat) as int);
            assert(ia == if self.neg {
                -(la as int)
            } else {
                la as int
            });
            assert(ib == if other.neg {
                -(lb as int)
            } else {
                lb as int
            });
        }
        let (mag, neg): (u128, bool) = if self.neg == other.neg {
            (la + lb, self.neg)
        } else {
            if la >= lb {
                (la - lb, self.neg)
            } else {
                (lb - la, other.neg)
            }
        };
        proof {
            assert(ia + ib == if neg {
                -(mag as int)
            } else {
                mag as int
            });
        }
        let (nmag, ns) = norm_mag(mag, s);
        proof {
            lemma_norm_props(mag as int, s as nat);
            if neg {
                lemma_norm_neg(mag as int, s as nat);
            }
        }
        if nmag <= 0xffff_ffff_ffff_ffffu128 {
            proof {
                lemma_norm_same_value(mag as int, s as nat);
                assert(spec_norm(mag as int, s as nat).wf());
                if neg {
                    lemma_neg_wf(spec_norm(mag as int, s as nat));
                }
            }
            Some(Num { neg: neg && nmag > 0, mag: nmag as u64, scale: ns })
        } else {
            None
        }
    }

    /// Subtracts two decimals exactly; `None` when the exact difference does
    /// not fit.
    pub fn try_sub(&self, other: &Num) -> (r: Option<Num>)
        requires
            self.wf(),
            other.wf(),
        ensures
            match r {
                Option::Some(n) => n.wf() && spec_sub(self@, other@) == Some(n@),
                Option::None => spec_sub(self@, other@) is None,
            },
    {
        let negated = other.neg_num();
        self.try_add(&negated)
    }

    /// Multiplies two decimals exactly; `None` when the exact product does not
    /// fit.
    pub fn try_mul(&self, other: &Num) -> (r: Option<Num>)
        requires
            self.wf(),
            other.wf(),
        ensures
            match r {
                Option::Some(n) => n.wf() && spec_mul(self@, other@) == Some(n@),
                Option::None => spec_mul(self@, other@) is None,
            },
    {
        proof {
            lemma_mul_upper_bound(
                self.mag as int,
                0xffff_ffff_ffff_ffff,
                other.mag as int,
                0xffff_ffff_ffff_ffff,
            );
            vstd::arithmetic::mul::lemma_mul_nonnegative(self.mag as int, other.mag as int);
        }
        let pm: u128 = (self.mag as u128) * (other.mag as u128);
        let s: u32 = self.scale + other.scale;
        let neg = self.neg != other.neg;
        proof {
            lemma_mul_unary_negation(self.mag as int, other.mag as int);
            lemma_mul_unary_negation(-(self.mag as int), other.mag as int);
            assert(self@.m * other@.m == if neg && pm > 0 {
                -(pm as int)
            } else {
                pm as int
            });
            if self.mag == 0 || other.mag == 0 {
                vstd::arithmetic::mul::lemma_mul_by_zero_is_zero(self.mag as int);
                vstd::arithmetic::mul::lemma_mul_by_zero_is_zero(other.mag as int);
            }
        }
        let (nmag, ns) = norm_mag(pm, s);
        proof {
            lemma_norm_props(pm as int, s as nat);
            if neg && pm > 0 {
                lemma_norm_neg(pm as int, s as nat);
            }
        }
        if ns <= 18 && nmag <= 0xffff_ffff_ffff_ffffu128 {
            proof {
                lemma_norm_same_value(pm as int, s as nat);
                assert(spec_norm(pm as int, s as nat).wf());
                if neg && pm > 0 {
                    lemma_neg_wf(spec_norm(pm as int, s as nat));
                }
            }
            Some(Num { neg: neg && nmag > 0, mag: nmag as u64, scale: ns })
        } else {
            None
        }
    }

    /// Divides two decimals exactly.  `None` when the divisor is zero, when
    /// the exact quotient has no decimal form with at most eighteen
    /// fractional digits and a 64-bit mantissa, or — for operands whose
    /// magnitudes and scales sit near their limits — when the quotient
    /// search leaves its 128-bit working precision before finding the form;
    /// [`spec_div`] states the search, cutoff included, so the contract is
    /// exact.  An accepted quotient is always the exact one.
    pub fn try_div(&self, other: &Num) -> (r: Option<Num>)
        requires
            self.wf(),
            other.wf(),
        ensures
            match r {
                Option::Some(n) => n.wf() && spec_div(self@, other@) == Some(n@),
                Option::None => spec_div(self@, other@) is None,
            },
    {
        if other.mag == 0 {
            return None;
        }
        let num_n = self.aligned_if(other.scale);
        let den = other.aligned_if(self.scale);
        proof {
            if den == 0 {
                vstd::arithmetic::mul::lemma_mul_nonzero(
                    other.mag as int,
                    pow10(self.scale as nat) as int,
                );
                lemma_pow10_pos(self.scale as nat);
            }
        }
        let neg = self.neg != other.neg;
        match div_loop(num_n, den, 18, 0) {
            Option::None => None,
            Option::Some((nm, ns)) => {
                proof {
                    lemma_div_loop_wf(num_n as int, den as int, 18, 0);
                    if neg && nm > 0 {
                        let sn = SpecNum { m: nm as int, s: ns as nat };
                        lemma_neg_wf(sn);
                    }
                }
                Some(Num { neg: neg && nm > 0, mag: nm, scale: ns })
            },
        }
    }

    /// Aligns the magnitude by the other operand's scale (for division).
    fn aligned_if(&self, other_scale: u32) -> (r: u128)
        requires
            self.wf(),
            other_scale <= 18,
        ensures
            r as int == self.mag as int * pow10(other_scale as nat),
    {
        let p = pow10_u64(other_scale);
        proof {
            lemma_pow10_mono(other_scale as nat, 18);
            lemma_pow10_18();
            lemma_mul_upper_bound(
                self.mag as int,
                0xffff_ffff_ffff_ffff,
                p as int,
                1_000_000_000_000_000_000,
            );
            vstd::arithmetic::mul::lemma_mul_nonnegative(self.mag as int, p as int);
        }
        (self.mag as u128) * (p as u128)
    }
}

/// The quotient search is sound: what it returns is normalized, in range, and
/// bears the scale it reports.
proof fn lemma_div_loop_wf(cur: int, den: int, left: nat, k: nat)
    requires
        cur >= 0,
        den > 0,
        k + left <= 18,
    ensures
        match spec_div_loop(cur, den, left, k) {
            Option::Some(n) => n.wf() && n.m >= 0,
            Option::None => true,
        },
    decreases left,
{
    if cur % den == 0 {
        vstd::arithmetic::div_mod::lemma_div_pos_is_pos(cur, den);
        lemma_norm_props(cur / den, k);
        lemma_norm_same_value(cur / den, k);
    } else if left == 0 {
    } else if cur * 10 > 0xffff_ffff_ffff_ffff_ffff_ffff_ffff_ffff {
    } else {
        lemma_div_loop_wf(cur * 10, den, (left - 1) as nat, k + 1);
    }
}

/// Runs the quotient search of [`spec_div_loop`] on machine words.
fn div_loop(cur: u128, den: u128, left: u32, k: u32) -> (r: Option<(u64, u32)>)
    requires
        den > 0,
        k + left <= 18,
    ensures
        match r {
            Option::Some(p) => spec_div_loop(cur as int, den as int, left as nat, k as nat)
                == Some(SpecNum { m: p.0 as int, s: p.1 as nat }),
            Option::None => spec_div_loop(cur as int, den as int, left as nat, k as nat) is None,
        },
    decreases left,
{
    if cur % den == 0 {
        let q = cur / den;
        let (nm, ns) = norm_mag(q, k);
        proof {
            lemma_norm_props(q as int, k as nat);
        }
        if nm <= 0xffff_ffff_ffff_ffffu128 {
            Some(((nm as u64), ns))
        } else {
            None
        }
    } else if left == 0 {
        None
    } else {
        match cur.checked_mul(10) {
            Option::None => None,
            Option::Some(c) => div_loop(c, den, left - 1, k + 1),
        }
    }
}

/// Whether `c` is an ASCII decimal digit.
pub open spec fn is_digit(c: char) -> bool {
    48 <= (c as u32) <= 57
}

/// The numeric value of an ASCII digit.
pub open spec fn digit_val(c: char) -> nat
    recommends
        is_digit(c),
{
    ((c as u32) - 48) as nat
}

/// The ASCII digit for a value below ten.
pub open spec fn digit_char(d: nat) -> char
    recommends
        d < 10,
{
    if d == 0 {
        '0'
    } else if d == 1 {
        '1'
    } else if d == 2 {
        '2'
    } else if d == 3 {
        '3'
    } else if d == 4 {
        '4'
    } else if d == 5 {
        '5'
    } else if d == 6 {
        '6'
    } else if d == 7 {
        '7'
    } else if d == 8 {
        '8'
    } else {
        '9'
    }
}

/// The value of a big-endian digit string.
pub open spec fn digits_to_nat(s: Seq<char>) -> nat
    decreases s.len(),
{
    if s.len() == 0 {
        0
    } else {
        10 * digits_to_nat(s.drop_last()) + digit_val(s.last())
    }
}

/// Whether every character of `s` is an ASCII digit.
pub open spec fn all_digits(s: Seq<char>) -> bool {
    forall|i: int| 0 <= i < s.len() ==> is_digit(#[trigger] s[i])
}

/// The shortest decimal rendering of `n`, most significant digit first.
pub open spec fn digits_of(n: nat) -> Seq<char>
    decreases n,
{
    if n < 10 {
        seq![digit_char(n)]
    } else {
        digits_of(n / 10) + seq![digit_char(n % 10)]
    }
}

/// Exactly `s` digits of the fraction `f`, zero padded on the left.
pub open spec fn frac_digits(f: nat, s: nat) -> Seq<char>
    decreases s,
{
    if s == 0 {
        Seq::empty()
    } else {
        frac_digits(f / 10, (s - 1) as nat).push(digit_char(f % 10))
    }
}

/// The canonical rendering of an unsigned decimal `mag / 10^s`.
pub open spec fn spec_mag_text(mag: nat, s: nat) -> Seq<char> {
    if s == 0 {
        digits_of(mag)
    } else {
        digits_of(mag / pow10(s)) + seq!['.'] + frac_digits(mag % pow10(s), s)
    }
}

/// The canonical decimal rendering of a number: the integer part, then a dot
/// and the fractional digits when the scale is positive, with a leading minus
/// for negative numbers.
pub open spec fn spec_num_text(n: SpecNum) -> Seq<char> {
    if n.m < 0 {
        seq!['-'] + spec_mag_text((-n.m) as nat, n.s)
    } else {
        spec_mag_text(n.m as nat, n.s)
    }
}

/// One ASCII digit as a string slice.
fn digit_str(d: u64) -> (r: &'static str)
    requires
        d < 10,
    ensures
        r@ == seq![digit_char(d as nat)],
{
    proof {
        reveal_strlit("0");
        reveal_strlit("1");
        reveal_strlit("2");
        reveal_strlit("3");
        reveal_strlit("4");
        reveal_strlit("5");
        reveal_strlit("6");
        reveal_strlit("7");
        reveal_strlit("8");
        reveal_strlit("9");
    }
    let r: &'static str = match d {
        0 => "0",
        1 => "1",
        2 => "2",
        3 => "3",
        4 => "4",
        5 => "5",
        6 => "6",
        7 => "7",
        8 => "8",
        _ => "9",
    };
    proof {
        assert(r@ =~= seq![digit_char(d as nat)]);
    }
    r
}

/// Renders `n` in decimal.
pub(crate) fn digits_string(n: u64) -> (r: String)
    ensures
        r@ == digits_of(n as nat),
    decreases n,
{
    if n < 10 {
        String::from_str(digit_str(n))
    } else {
        let mut r = digits_string(n / 10);
        r.append(digit_str(n % 10));
        proof {
            assert(r@ =~= digits_of(n as nat));
        }
        r
    }
}

/// Renders exactly `s` digits of the fraction `f`, zero padded.
fn frac_string(f: u64, s: u32) -> (r: String)
    ensures
        r@ == frac_digits(f as nat, s as nat),
    decreases s,
{
    if s == 0 {
        String::new()
    } else {
        let mut r = frac_string(f / 10, s - 1);
        r.append(digit_str(f % 10));
        proof {
            assert(r@ =~= frac_digits(f as nat, s as nat));
        }
        r
    }
}

impl Num {
    /// The unsigned integer `v` as a decimal.
    pub fn from_u64(v: u64) -> (r: Num)
        ensures
            r.wf(),
            r@ == (SpecNum { m: v as int, s: 0 }),
    {
        Num { neg: false, mag: v, scale: 0 }
    }

    /// The decimal `mag / 10^scale`, normalized.
    pub fn from_mag_scale(mag: u64, scale: u32) -> (r: Num)
        requires
            scale <= 18,
        ensures
            r.wf(),
            r@ == spec_norm(mag as int, scale as nat),
    {
        let (nm, ns) = norm_mag(mag as u128, scale);
        proof {
            lemma_norm_wf(mag as int, scale as nat);
        }
        Num { neg: false, mag: nm as u64, scale: ns }
    }

    /// The canonical decimal rendering of this number.
    pub fn to_text(&self) -> (r: String)
        requires
            self.wf(),
        ensures
            r@ == spec_num_text(self@),
    {
        let body: String = if self.scale == 0 {
            digits_string(self.mag)
        } else {
            let p = pow10_u64(self.scale);
            let mut b = digits_string(self.mag / p);
            b.append(".");
            let frac = frac_string(self.mag % p, self.scale);
            b.append(frac.as_str());
            proof {
                reveal_strlit(".");
                assert(b@ =~= spec_mag_text(self.mag as nat, self.scale as nat));
            }
            b
        };
        if self.neg {
            let r = String::from_str("-").concat(body.as_str());
            proof {
                reveal_strlit("-");
                assert(r@ =~= spec_num_text(self@));
            }
            r
        } else {
            body
        }
    }
}

/// The index an array or string subscript denotes: the integer part of the
/// number, with negative numbers clamped to zero.
pub open spec fn spec_trunc(n: SpecNum) -> nat {
    if n.m < 0 {
        0
    } else {
        (n.m / pow10(n.s) as int) as nat
    }
}

impl Num {
    /// Truncates this number to an unsigned index.
    pub fn trunc_index(&self) -> (r: u64)
        requires
            self.wf(),
        ensures
            r as nat == spec_trunc(self@),
    {
        if self.neg {
            0
        } else {
            let p = pow10_u64(self.scale);
            proof {
                vstd::arithmetic::div_mod::lemma_div_pos_is_pos(self.mag as int, p as int);
            }
            self.mag / p
        }
    }
}

/// The first position of `c` in `s` at or after `from`, or the length of `s`
/// if there is none.
pub open spec fn find_char(s: Seq<char>, c: char, from: int) -> int
    decreases s.len() - from,
{
    if from < 0 || from >= s.len() {
        s.len() as int
    } else if s[from] == c {
        from
    } else {
        find_char(s, c, from + 1)
    }
}

proof fn lemma_find_char_is(s: Seq<char>, c: char, from: int, at: int)
    requires
        0 <= from <= at <= s.len(),
        forall|j: int| from <= j < at ==> s[j] != c,
        at < s.len() ==> s[at] == c,
        at == s.len() || s[at] == c,
    ensures
        find_char(s, c, from) == if at < s.len() {
            at
        } else {
            s.len() as int
        },
    decreases at - from,
{
    if from < at {
        lemma_find_char_is(s, c, from + 1, at);
    }
}

/// The signed decimal literal `s` as a number: an optional leading minus, a
/// nonempty run of digits, and optionally a dot followed by a nonempty run of
/// digits.  `None` when `s` has any other shape or the value does not fit.
pub open spec fn spec_str_to_num(s: Seq<char>) -> Option<SpecNum> {
    if s.len() > 0 && s[0] == '-' {
        match spec_str_to_num_u(s.drop_first()) {
            Option::None => None,
            Option::Some(n) => Some(spec_norm(-n.m, n.s)),
        }
    } else {
        spec_str_to_num_u(s)
    }
}

/// The unsigned decimal literal `s` as a number.
pub open spec fn spec_str_to_num_u(s: Seq<char>) -> Option<SpecNum> {
    let d = find_char(s, '.', 0);
    if d == s.len() {
        if s.len() > 0 && all_digits(s) {
            spec_digits_to_num(s, Seq::empty())
        } else {
            None
        }
    } else {
        let ip = s.subrange(0, d);
        let fp = s.subrange(d + 1, s.len() as int);
        if ip.len() > 0 && fp.len() > 0 && all_digits(ip) && all_digits(fp) {
            spec_digits_to_num(ip, fp)
        } else {
            None
        }
    }
}

/// The number with integer digits `ip` and fraction digits `fp`, if it fits.
pub open spec fn spec_digits_to_num(ip: Seq<char>, fp: Seq<char>) -> Option<SpecNum> {
    let v = digits_to_nat(ip + fp);
    if fp.len() <= 18 && v <= 0xffff_ffff_ffff_ffff {
        Some(spec_norm(v as int, fp.len()))
    } else {
        None
    }
}

/// Characterization of [`find_char`]: nothing before the result matches, and
/// the result either matches or is the length.
proof fn lemma_find_char_props(s: Seq<char>, c: char, from: int)
    requires
        0 <= from <= s.len(),
    ensures
        from <= find_char(s, c, from) <= s.len(),
        forall|j: int| from <= j < find_char(s, c, from) ==> s[j] != c,
        find_char(s, c, from) < s.len() ==> s[find_char(s, c, from)] == c,
    decreases s.len() - from,
{
    if from < s.len() && s[from] != c {
        lemma_find_char_props(s, c, from + 1);
    }
}

/// Appending digits never lowers the value of a digit string.
pub(crate) proof fn lemma_digits_append(a: Seq<char>, b: Seq<char>)
    ensures
        digits_to_nat(a) <= digits_to_nat(a + b),
    decreases b.len(),
{
    if b.len() == 0 {
        assert(a + b =~= a);
    } else {
        lemma_digits_append(a, b.drop_last());
        assert((a + b).drop_last() =~= a + b.drop_last());
    }
}

/// One digit extends the value by one decimal place.
proof fn lemma_digits_push(p: Seq<char>, c: char)
    ensures
        digits_to_nat(p.push(c)) == 10 * digits_to_nat(p) + digit_val(c),
{
    assert((p.push(c)).drop_last() =~= p);
    assert((p.push(c)).last() == c);
}

/// Reads the decimal literal `s` as an exact number.  Accepts an optional
/// leading minus, a nonempty run of digits, and optionally a dot followed by a
/// nonempty run of digits; rejects anything else, and any value that does not
/// fit the representation.
pub fn str_to_num(s: &str) -> (r: Option<Num>)
    ensures
        match r {
            Option::Some(n) => n.wf() && spec_str_to_num(s@) == Some(n@),
            Option::None => spec_str_to_num(s@) is None,
        },
{
    let len = s.unicode_len();
    let neg = len > 0 && s.get_char(0) == '-';
    let start: usize = if neg {
        1
    } else {
        0
    };
    let ghost body: Seq<char> = s@.subrange(start as int, len as int);
    proof {
        if neg {
            assert(body =~= s@.drop_first());
        } else {
            assert(body =~= s@);
        }
    }
    // End of the run of integer digits.
    let mut i1 = start;
    while i1 < len && is_digit_exec(s.get_char(i1))
        invariant
            start <= i1 <= len,
            len == s@.len(),
            start <= 1,
            forall|j: int| start <= j < i1 ==> is_digit(#[trigger] s@[j]),
        decreases len - i1,
    {
        i1 = i1 + 1;
    }
    if i1 == start {
        // no integer digits at all
        proof {
            lemma_no_num(s@, body, start as int, start as int, len as int);
        }
        return None;
    }
    let (dot, fstart, fend): (bool, usize, usize) = if i1 == len {
        (false, i1, i1)
    } else if s.get_char(i1) != '.' {
        proof {
            lemma_no_num(s@, body, start as int, i1 as int, len as int);
        }
        return None;
    } else {
        // fractional digits after the dot
        let mut j1 = i1 + 1;
        while j1 < len && is_digit_exec(s.get_char(j1))
            invariant
                i1 + 1 <= j1 <= len,
                len == s@.len(),
                forall|j: int| i1 + 1 <= j < j1 ==> is_digit(#[trigger] s@[j]),
            decreases len - j1,
        {
            j1 = j1 + 1;
        }
        if j1 == i1 + 1 || j1 < len {
            proof {
                lemma_frac_bad(s@, body, start as int, i1 as int, j1 as int, len as int);
            }
            return None;
        }
        (true, i1 + 1, len)
    };
    let ghost ip: Seq<char> = s@.subrange(start as int, i1 as int);
    let ghost fp: Seq<char> = s@.subrange(fstart as int, fend as int);
    proof {
        lemma_shape_good(s@, body, start as int, i1 as int, fstart as int, fend as int, dot);
    }
    // the value of the digits, integer part then fraction
    let a1 = match digits_value(s, start, i1, 0, Ghost(Seq::empty())) {
        Option::Some(a) => a,
        Option::None => {
            proof {
                assert(Seq::<char>::empty() + ip =~= ip);
                lemma_digits_append(ip, fp);
            }
            return None;
        },
    };
    proof {
        assert(Seq::<char>::empty() + ip =~= ip);
        assert(a1 as nat == digits_to_nat(ip));
    }
    let acc = match digits_value(s, fstart, fend, a1, Ghost(ip)) {
        Option::Some(a) => a,
        Option::None => {
            return None;
        },
    };
    let scale_u = fend - fstart;
    if scale_u > 18 {
        return None;
    }
    let (nm, ns) = norm_mag(acc as u128, scale_u as u32);
    proof {
        lemma_norm_wf(acc as int, scale_u as nat);
        let n = spec_norm(acc as int, scale_u as nat);
        if neg {
            lemma_norm_neg(acc as int, scale_u as nat);
            lemma_neg_wf(n);
            assert(spec_norm(-n.m, n.s) == SpecNum { m: -n.m, s: n.s });
        }
    }
    Some(Num { neg: neg && nm > 0, mag: nm as u64, scale: ns })
}

/// Whether `c` is an ASCII decimal digit.
fn is_digit_exec(c: char) -> (r: bool)
    ensures
        r == is_digit(c),
{
    let u = c as u32;
    48 <= u && u <= 57
}

/// When the integer digit run ends at a character that is neither a dot nor
/// the end of the input (or is empty), the literal is malformed.
proof fn lemma_no_num(s: Seq<char>, body: Seq<char>, start: int, i1: int, len: int)
    requires
        0 <= start <= i1 <= len,
        len == s.len(),
        body == s.subrange(start, len),
        forall|j: int| start <= j < i1 ==> is_digit(#[trigger] s[j]),
        i1 == start || (i1 < len && s[i1] != '.' && !is_digit(s[i1])),
        i1 == start && start < len ==> (s[start] == '.' || !is_digit(s[start])),
    ensures
        spec_str_to_num_u(body) is None,
{
    let d = find_char(body, '.', 0);
    lemma_find_char_props(body, '.', 0);
    if body.len() == 0 {
    } else if d == body.len() {
        // no dot anywhere: some character is not a digit
        if i1 == start {
            assert(body[0] == s[start]);
            assert(!is_digit(body[0]));
        } else {
            assert(body[i1 - start] == s[i1]);
            assert(!is_digit(body[i1 - start]));
        }
    } else {
        let ip = body.subrange(0, d);
        if i1 == start {
            if d == 0 {
                assert(ip.len() == 0);
            } else {
                assert(ip[0] == s[start]);
                assert(body[0] != '.');
                assert(!is_digit(ip[0]));
                assert(!all_digits(ip));
            }
        } else {
            // the non-digit, non-dot character sits before any dot
            assert(s[i1] != '.');
            assert(body[i1 - start] != '.');
            assert(d != i1 - start);
            if d < i1 - start {
                assert(is_digit(s[d + start]));
                assert(body[d] == s[d + start]);
            }
            assert(d > i1 - start);
            assert(ip[i1 - start] == s[i1]);
            assert(!all_digits(ip));
        }
    }
}

/// When the fraction run is empty or stops before the end, the literal is
/// malformed.
proof fn lemma_frac_bad(s: Seq<char>, body: Seq<char>, start: int, i1: int, j1: int, len: int)
    requires
        0 <= start < i1 < len,
        i1 + 1 <= j1 <= len,
        len == s.len(),
        body == s.subrange(start, len),
        forall|j: int| start <= j < i1 ==> is_digit(#[trigger] s[j]),
        s[i1] == '.',
        forall|j: int| i1 + 1 <= j < j1 ==> is_digit(#[trigger] s[j]),
        j1 == i1 + 1 || (j1 < len && !is_digit(s[j1])),
        j1 == i1 + 1 && j1 < len ==> !is_digit(s[j1]) || s[j1] == '.',
        j1 < len || j1 == i1 + 1,
    ensures
        spec_str_to_num_u(body) is None,
{
    let d = find_char(body, '.', 0);
    lemma_find_char_props(body, '.', 0);
    assert(body[i1 - start] == '.');
    assert(d <= i1 - start);
    assert(forall|j: int| 0 <= j < i1 - start ==> is_digit(#[trigger] body[j]) && body[j] != '.');
    assert(d == i1 - start);
    let fp = body.subrange(d + 1, body.len() as int);
    if j1 == i1 + 1 {
        if j1 == len {
            assert(fp.len() == 0);
        } else {
            assert(fp[0] == s[i1 + 1]);
            if is_digit(s[j1]) {
                assert(false);
            }
            assert(!all_digits(fp));
        }
    } else {
        assert(fp[j1 - (i1 + 1)] == s[j1]);
        assert(!all_digits(fp));
    }
}

/// When the shape checks pass, the spec parse reduces to the digit value.
proof fn lemma_shape_good(
    s: Seq<char>,
    body: Seq<char>,
    start: int,
    i1: int,
    fstart: int,
    fend: int,
    dot: bool,
)
    requires
        0 <= start < i1 <= s.len(),
        body == s.subrange(start, s.len() as int),
        forall|j: int| start <= j < i1 ==> is_digit(#[trigger] s[j]),
        dot ==> i1 < s.len() && s[i1] == '.' && fstart == i1 + 1 && fend == s.len() && fstart
            < fend,
        dot ==> forall|j: int| fstart <= j < fend ==> is_digit(#[trigger] s[j]),
        !dot ==> i1 == s.len() && fstart == i1 && fend == i1,
    ensures
        spec_str_to_num_u(body) == spec_digits_to_num(
            s.subrange(start, i1),
            s.subrange(fstart, fend),
        ),
{
    let d = find_char(body, '.', 0);
    lemma_find_char_props(body, '.', 0);
    if dot {
        assert(body[i1 - start] == '.');
        assert(forall|j: int| 0 <= j < i1 - start ==> is_digit(#[trigger] body[j]) && body[j]
            != '.');
        assert(d == i1 - start);
        assert(body.subrange(0, d) =~= s.subrange(start, i1));
        assert(body.subrange(d + 1, body.len() as int) =~= s.subrange(fstart, fend));
        assert(all_digits(s.subrange(start, i1)));
        assert(all_digits(s.subrange(fstart, fend)));
        assert(s.subrange(start, i1).len() > 0);
        assert(s.subrange(fstart, fend).len() > 0);
    } else {
        assert(forall|j: int| 0 <= j < body.len() ==> is_digit(#[trigger] body[j]) && body[j]
            != '.');
        assert(d == body.len());
        assert(body =~= s.subrange(start, i1));
        assert(s.subrange(fstart, fend) =~= Seq::<char>::empty());
        assert(all_digits(body));
    }
}




/// Accumulates the value of the digit run `s[from..to]` onto the digits of
/// `prefix`; `None` when the combined value does not fit a 64-bit word.
pub(crate) fn digits_value(
    s: &str,
    from: usize,
    to: usize,
    acc0: u64,
    Ghost(prefix): Ghost<Seq<char>>,
) -> (r: Option<u64>)
    requires
        from <= to <= s@.len(),
        forall|j: int| from <= j < to ==> is_digit(#[trigger] s@[j]),
        acc0 as nat == digits_to_nat(prefix),
    ensures
        match r {
            Option::Some(a) => a as nat == digits_to_nat(prefix + s@.subrange(from as int, to as int)),
            Option::None => digits_to_nat(prefix + s@.subrange(from as int, to as int))
                > 0xffff_ffff_ffff_ffff,
        },
{
    let mut acc = acc0;
    let mut i = from;
    proof {
        assert(prefix + s@.subrange(from as int, from as int) =~= prefix);
    }
    while i < to
        invariant
            from <= i <= to <= s@.len(),
            forall|j: int| from <= j < to ==> is_digit(#[trigger] s@[j]),
            acc as nat == digits_to_nat(prefix + s@.subrange(from as int, i as int)),
        decreases to - i,
    {
        let c = s.get_char(i);
        let d = (c as u32) - 48;
        proof {
            lemma_digits_push(prefix + s@.subrange(from as int, i as int), s@[i as int]);
            assert(prefix + s@.subrange(from as int, i + 1) =~= (prefix + s@.subrange(
                from as int,
                i as int,
            )).push(s@[i as int]));
        }
        let hi = match acc.checked_mul(10) {
            Option::Some(h) => h,
            Option::None => {
                proof {
                    lemma_run_overflow(s@, prefix, from as int, i as int, to as int);
                }
                return None;
            },
        };
        acc = match hi.checked_add(d as u64) {
            Option::Some(a) => a,
            Option::None => {
                proof {
                    lemma_run_overflow(s@, prefix, from as int, i as int, to as int);
                }
                return None;
            },
        };
        i = i + 1;
    }
    Some(acc)
}

/// Overflow while accumulating a digit run: the full value cannot fit.
proof fn lemma_run_overflow(s: Seq<char>, prefix: Seq<char>, from: int, i: int, to: int)
    requires
        0 <= from <= i < to <= s.len(),
        10 * digits_to_nat(prefix + s.subrange(from, i)) + digit_val(s[i])
            > 0xffff_ffff_ffff_ffff,
        is_digit(s[i]),
    ensures
        digits_to_nat(prefix + s.subrange(from, to)) > 0xffff_ffff_ffff_ffff,
{
    let p = prefix + s.subrange(from, i);
    lemma_digits_push(p, s[i]);
    assert(p.push(s[i]) =~= prefix + s.subrange(from, i + 1));
    assert(prefix + s.subrange(from, to) =~= (prefix + s.subrange(from, i + 1)) + s.subrange(
        i + 1,
        to,
    ));
    lemma_digits_append(prefix + s.subrange(from, i + 1), s.subrange(i + 1, to));
}

} // verus!
