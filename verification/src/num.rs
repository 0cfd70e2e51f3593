//! Bounded-precision non-negative decimal arithmetic.
//!
//! A [`Num`] is a non-negative decimal value `mantissa / 10^scale`, kept in
//! canonical form: whenever the scale is positive, the mantissa is not
//! divisible by ten, so every value has exactly one representation. All
//! arithmetic is checked — an operation whose exact result cannot be
//! represented reports an error instead of wrapping or rounding.

use vstd::prelude::*;
use crate::error::BRC20Error;

verus! {

/// Maximum count of fractional digits a parsed decimal may carry.
pub const MAX_DECIMAL_WIDTH: u32 = 18;

/// 10 raised to `e`, in spec arithmetic.
pub open spec fn pow10(e: nat) -> nat
    decreases e,
{
    if e == 0 {
        1
    } else {
        10 * pow10((e - 1) as nat)
    }
}

/// Strips factors of ten from `m` into the scale until the pair is canonical:
/// either the scale is zero or the mantissa is not divisible by ten.
pub open spec fn canon(m: nat, s: nat) -> (nat, nat)
    decreases s,
{
    if s == 0 || m % 10 != 0 {
        (m, s)
    } else {
        canon(m / 10, (s - 1) as nat)
    }
}

/// A non-negative decimal value `mantissa / 10^scale` in canonical form.
#[derive(Clone, Copy, Debug, PartialEq, Eq, Structural)]
pub struct Num {
    pub mantissa: u128,
    pub scale: u32,
}

impl Num {
    /// Canonical form: a positive scale implies a mantissa not divisible by
    /// ten (so zero is always `(0, 0)` and trailing zeros never linger).
    pub open spec fn well_formed(self) -> bool {
        self.scale == 0 || self.mantissa % 10 != 0
    }

    pub open spec fn spec_mantissa(self) -> nat {
        self.mantissa as nat
    }

    pub open spec fn spec_scale(self) -> nat {
        self.scale as nat
    }

    /// Builds the canonical `Num` for the value `mantissa / 10^scale`.
    pub fn new(mantissa: u128, scale: u32) -> (r: Num)
        ensures
            r.well_formed(),
            (r.spec_mantissa(), r.spec_scale()) == canon(mantissa as nat, scale as nat),
    {
        let mut m = mantissa;
        let mut s = scale;
        while s != 0 && m % 10 == 0
            invariant
                canon(m as nat, s as nat) == canon(mantissa as nat, scale as nat),
            decreases s,
        {
            m = m / 10;
            s = s - 1;
        }
        Num { mantissa: m, scale: s }
    }
}

pub proof fn lemma_pow10_pos(e: nat)
    ensures
        pow10(e) >= 1,
    decreases e,
{
    if e > 0 {
        lemma_pow10_pos((e - 1) as nat);
    }
}

pub proof fn lemma_pow10_mono(a: nat, b: nat)
    requires
        a <= b,
    ensures
        pow10(a) <= pow10(b),
    decreases b,
{
    if a < b {
        lemma_pow10_mono(a, (b - 1) as nat);
        lemma_pow10_pos((b - 1) as nat);
    }
}

pub proof fn lemma_pow10_split(a: nat, b: nat)
    ensures
        pow10(a + b) == pow10(a) * pow10(b),
    decreases a,
{
    if a == 0 {
        assert(pow10(a) == 1);
        assert(a + b == b);
        assert(1 * pow10(b) == pow10(b)) by (nonlinear_arith);
        assert(pow10(a + b) == pow10(a) * pow10(b));
    } else {
        let a1 = (a - 1) as nat;
        lemma_pow10_split(a1, b);
        assert(a + b == (a1 + b) + 1);
        assert(pow10((a1 + b) + 1) == 10 * pow10(a1 + b));
        assert(pow10(a + b) == 10 * pow10(a1 + b));
        assert(10 * (pow10(a1) * pow10(b)) == (10 * pow10(a1)) * pow10(b)) by (nonlinear_arith);
        assert(pow10(a) == 10 * pow10(a1));
        assert(pow10(a + b) == pow10(a) * pow10(b));
    }
}

/// A canonical pair keeps its mantissa and scale at or below the original's.
pub proof fn lemma_canon_le(m: nat, s: nat)
    ensures
        canon(m, s).0 <= m,
        canon(m, s).1 <= s,
    decreases s,
{
    if !(s == 0 || m % 10 != 0) {
        lemma_canon_le(m / 10, (s - 1) as nat);
    }
}

/// Canonicalization yields a canonical pair and preserves the denoted value.
pub proof fn lemma_canon_value(m: nat, s: nat)
    ensures
        canon(m, s).1 == 0 || canon(m, s).0 % 10 != 0,
        canon(m, s).0 * pow10(s) == m * pow10(canon(m, s).1),
    decreases s,
{
    if s == 0 || m % 10 != 0 {
    } else {
        let (m2, s2) = canon(m / 10, (s - 1) as nat);
        lemma_canon_value(m / 10, (s - 1) as nat);
        // m == 10 * (m / 10) because m % 10 == 0
        assert(m == 10 * (m / 10));
        assert(pow10(s) == 10 * pow10((s - 1) as nat));
        assert(m2 * (10 * pow10((s - 1) as nat)) == 10 * (m2 * pow10((s - 1) as nat)))
            by (nonlinear_arith);
        assert(10 * ((m / 10) * pow10(s2)) == (10 * (m / 10)) * pow10(s2)) by (nonlinear_arith);
    }
}

/// Two canonical pairs that denote the same value are the same pair.
pub proof fn lemma_canonical_unique(m1: nat, s1: nat, m2: nat, s2: nat)
    requires
        s1 == 0 || m1 % 10 != 0,
        s2 == 0 || m2 % 10 != 0,
        m1 * pow10(s2) == m2 * pow10(s1),
    ensures
        m1 == m2,
        s1 == s2,
{
    if s1 == s2 {
        lemma_pow10_pos(s1);
        assert(m1 == m2) by (nonlinear_arith)
            requires
                m1 * pow10(s2) == m2 * pow10(s1),
                s1 == s2,
                pow10(s1) >= 1,
        ;
    } else if s1 < s2 {
        lemma_canonical_unique_ordered(m1, s1, m2, s2);
        // m2 is a positive multiple of ten in canonical form: impossible,
        // and m1 == 0 would force s1 == 0 and m2 == 0, again impossible
        assert(m1 == m2 && s1 == s2);
    } else {
        lemma_canonical_unique_ordered(m2, s2, m1, s1);
        assert(m1 == m2 && s1 == s2);
    }
}

proof fn lemma_canonical_unique_ordered(m1: nat, s1: nat, m2: nat, s2: nat)
    requires
        m1 * pow10(s2) == m2 * pow10(s1),
        s1 < s2,
    ensures
        m2 % 10 == 0,
        m2 == 0 ==> m1 == 0,
{
    let d = (s2 - s1) as nat;
    lemma_pow10_split(d, s1);
    lemma_pow10_pos(s1);
    lemma_pow10_pos((d - 1) as nat);
    // m1 * pow10(d) * pow10(s1) == m2 * pow10(s1), so m2 == m1 * pow10(d)
    assert(m1 * (pow10(d) * pow10(s1)) == (m1 * pow10(d)) * pow10(s1)) by (nonlinear_arith);
    assert(m2 == m1 * pow10(d)) by (nonlinear_arith)
        requires
            (m1 * pow10(d)) * pow10(s1) == m2 * pow10(s1),
            pow10(s1) >= 1,
    ;
    // pow10(d) has a factor of ten, so m2 is divisible by ten
    assert(pow10(d) == 10 * pow10((d - 1) as nat));
    assert(m2 == (m1 * pow10((d - 1) as nat)) * 10) by (nonlinear_arith)
        requires
            m2 == m1 * (10 * pow10((d - 1) as nat)),
    ;
    assert(m2 % 10 == 0) by (nonlinear_arith)
        requires
            m2 == (m1 * pow10((d - 1) as nat)) * 10,
    ;
    assert(m2 == 0 ==> m1 == 0) by (nonlinear_arith)
        requires
            m2 == m1 * pow10(d),
            pow10(d) >= 1,
    ;
}

/// The mantissa of `n`, rescaled from `n.scale` up to the common scale `s`.
pub open spec fn aligned(n: Num, s: nat) -> nat
    recommends
        n.scale <= s,
{
    (n.mantissa * pow10((s - n.scale) as nat)) as nat
}

pub open spec fn max_scale(a: Num, b: Num) -> nat {
    if a.scale >= b.scale {
        a.scale as nat
    } else {
        b.scale as nat
    }
}

pub open spec fn num_of_pair(p: (nat, nat)) -> Num {
    Num { mantissa: p.0 as u128, scale: p.1 as u32 }
}

/// The exact sum of `a` and `b`, or `None` when its canonical mantissa
/// cannot be computed within the machine representation.
pub open spec fn spec_add(a: Num, b: Num) -> Option<Num> {
    let s = max_scale(a, b);
    let sum = aligned(a, s) + aligned(b, s);
    if sum <= u128::MAX {
        Some(num_of_pair(canon(sum, s)))
    } else {
        None
    }
}

/// Whether `a` denotes a strictly smaller value than `b`.
pub open spec fn spec_lt(a: Num, b: Num) -> bool {
    aligned(a, max_scale(a, b)) < aligned(b, max_scale(a, b))
}

/// The exact difference `a - b`, or `None` when `a < b` or the aligned
/// minuend does not fit the machine representation.
pub open spec fn spec_sub(a: Num, b: Num) -> Option<Num> {
    let s = max_scale(a, b);
    let ma = aligned(a, s);
    let mb = aligned(b, s);
    if mb <= ma && ma <= u128::MAX {
        Some(num_of_pair(canon((ma - mb) as nat, s)))
    } else {
        None
    }
}

/// The exact product of `a` and `b`, or `None` when the raw product or the
/// raw scale does not fit the machine representation.
pub open spec fn spec_mul(a: Num, b: Num) -> Option<Num> {
    if a.mantissa * b.mantissa <= u128::MAX && a.scale + b.scale <= u32::MAX {
        Some(num_of_pair(canon((a.mantissa * b.mantissa) as nat, (a.scale + b.scale) as nat)))
    } else {
        None
    }
}

/// `10^e` when it fits a `u128`, `None` otherwise.
pub(crate) fn pow10_u128(e: u32) -> (r: Option<u128>)
    ensures
        match r {
            Some(p) => p == pow10(e as nat),
            None => pow10(e as nat) > u128::MAX,
        },
{
    let mut acc: u128 = 1;
    let mut i: u32 = 0;
    while i < e
        invariant
            i <= e,
            acc == pow10(i as nat),
        decreases e - i,
    {
        match acc.checked_mul(10) {
            Some(next) => {
                acc = next;
                i = i + 1;
            },
            None => {
                proof {
                    lemma_pow10_mono((i + 1) as nat, e as nat);
                }
                return None;
            },
        }
    }
    Some(acc)
}

impl Num {
    /// `self`'s mantissa rescaled to scale `s`, or `None` when it exceeds
    /// the machine representation.
    fn aligned_mantissa(&self, s: u32) -> (r: Option<u128>)
        requires
            self.scale <= s,
        ensures
            match r {
                Some(m) => m == aligned(*self, s as nat),
                None => aligned(*self, s as nat) > u128::MAX,
            },
    {
        if self.mantissa == 0 {
            return Some(0);
        }
        let k = s - self.scale;
        match pow10_u128(k) {
            Some(p) => self.mantissa.checked_mul(p),
            None => {
                proof {
                    let kn = k as nat;
                    assert(self.mantissa * pow10(kn) >= 1 * pow10(kn)) by (nonlinear_arith)
                        requires
                            self.mantissa >= 1,
                            pow10(kn) >= 0,
                    ;
                }
                None
            },
        }
    }

    /// Exact addition. Never fails on protocol-bounded values; reports an
    /// `Overflow` only when the exact sum cannot be held by the machine
    /// representation.
    pub fn checked_add(&self, other: &Num) -> (r: Result<Num, BRC20Error>)
        requires
            self.well_formed(),
            other.well_formed(),
        ensures
            match r {
                Ok(c) => c.well_formed() && spec_add(*self, *other) == Some(c),
                Err(e) => spec_add(*self, *other) is None && (e matches BRC20Error::Overflow {
                    op,
                    org,
                    other: rhs,
                } && op@ == "checked_add"@ && org == *self && rhs == *other),
            },
    {
        let s = if self.scale >= other.scale {
            self.scale
        } else {
            other.scale
        };
        let overflow = BRC20Error::Overflow {
            op: overflow_op_name(0),
            org: self.clone(),
            other: other.clone(),
        };
        let ma = match self.aligned_mantissa(s) {
            Some(m) => m,
            None => {
                return Err(overflow);
            },
        };
        let mb = match other.aligned_mantissa(s) {
            Some(m) => m,
            None => {
                return Err(overflow);
            },
        };
        match ma.checked_add(mb) {
            Some(sum) => {
                let c = Num::new(sum, s);
                proof {
                    lemma_canon_le(sum as nat, s as nat);
                }
                Ok(c)
            },
            None => Err(overflow),
        }
    }

    /// Exact subtraction. Fails with `Underflow` when `self < other` — the
    /// guard against double-spending — and with `Overflow` only when the
    /// aligned minuend cannot be held by the machine representation.
    pub fn checked_sub(&self, other: &Num) -> (r: Result<Num, BRC20Error>)
        requires
            self.well_formed(),
            other.well_formed(),
        ensures
            match r {
                Ok(c) => c.well_formed() && spec_sub(*self, *other) == Some(c),
                Err(e) => spec_sub(*self, *other) is None && (if spec_lt(*self, *other) {
                    e == BRC20Error::Underflow { org: *self, other: *other }
                } else {
                    e matches BRC20Error::Overflow { op, org, other: rhs } && op@
                        == "checked_sub"@ && org == *self && rhs == *other
                }),
            },
    {
        let s = if self.scale >= other.scale {
            self.scale
        } else {
            other.scale
        };
        let ma = match self.aligned_mantissa(s) {
            Some(m) => m,
            None => {
                // the minuend exceeds the machine representation; the
                // subtrahend fits (its scale is the common scale), so this
                // is not an underflow
                proof {
                    assert(pow10(0) == 1);
                    if self.scale >= other.scale {
                        // then the minuend is its own mantissa, which fits
                        assert(aligned(*self, s as nat) == self.mantissa * 1);
                    }
                    assert(s == other.scale);
                    assert(aligned(*other, s as nat) == other.mantissa * 1);
                    assert(aligned(*other, s as nat) <= u128::MAX);
                }
                return Err(BRC20Error::Overflow {
                    op: overflow_op_name(1),
                    org: self.clone(),
                    other: other.clone(),
                });
            },
        };
        let mb = match other.aligned_mantissa(s) {
            Some(m) => m,
            None => {
                return Err(BRC20Error::Underflow { org: self.clone(), other: other.clone() });
            },
        };
        if ma < mb {
            return Err(BRC20Error::Underflow { org: self.clone(), other: other.clone() });
        }
        let c = Num::new(ma - mb, s);
        proof {
            lemma_canon_le((ma - mb) as nat, s as nat);
        }
        Ok(c)
    }

    /// Exact multiplication; fails with `Overflow` only when the raw product
    /// or the raw scale cannot be held by the machine representation.
    pub fn checked_mul(&self, other: &Num) -> (r: Result<Num, BRC20Error>)
        requires
            self.well_formed(),
            other.well_formed(),
        ensures
            match r {
                Ok(c) => c.well_formed() && spec_mul(*self, *other) == Some(c),
                Err(e) => spec_mul(*self, *other) is None && (e matches BRC20Error::Overflow {
                    op,
                    org,
                    other: rhs,
                } && op@ == "checked_mul"@ && org == *self && rhs == *other),
            },
    {
        let overflow = BRC20Error::Overflow {
            op: overflow_op_name(2),
            org: self.clone(),
            other: other.clone(),
        };
        let m = match self.mantissa.checked_mul(other.mantissa) {
            Some(m) => m,
            None => {
                return Err(overflow);
            },
        };
        let s = match self.scale.checked_add(other.scale) {
            Some(s) => s,
            None => {
                return Err(overflow);
            },
        };
        let c = Num::new(m, s);
        proof {
            lemma_canon_le(m as nat, s as nat);
        }
        Ok(c)
    }
}

/// The exact `exp`-th power of `a`, built by repeated exact multiplication.
/// The zeroth power is the protocol's quirk: it is zero, not one, for every
/// base, and must stay so for compatibility.
pub open spec fn spec_powu(a: Num, exp: nat) -> Option<Num>
    decreases exp,
{
    if exp == 0 {
        Some(Num { mantissa: 0, scale: 0 })
    } else if exp == 1 {
        Some(a)
    } else {
        match spec_powu(a, (exp - 1) as nat) {
            Some(p) => spec_mul(p, a),
            None => None,
        }
    }
}

/// Once a power fails to fit the machine representation, every higher power
/// fails too.
proof fn lemma_powu_none_mono(a: Num, e1: nat, e2: nat)
    requires
        1 <= e1 <= e2,
        spec_powu(a, e1) is None,
    ensures
        spec_powu(a, e2) is None,
    decreases e2,
{
    if e2 > e1 {
        lemma_powu_none_mono(a, e1, (e2 - 1) as nat);
    }
}

/// The whole-number part of `a`: its mantissa with the fraction divided off.
pub open spec fn spec_int_part(a: Num) -> nat {
    a.mantissa as nat / pow10(a.scale as nat)
}

/// The sign of a decimal value. A `Num` is never negative, so `Minus` is
/// never returned; it is kept so that callers can match exhaustively.
#[derive(Clone, Copy, Debug, PartialEq, Eq, Structural)]
pub enum Sign {
    Minus,
    NoSign,
    Plus,
}

impl Num {
    /// Exact exponentiation by a non-negative integer. By protocol decree the
    /// zeroth power of anything is zero.
    pub fn checked_powu(&self, exp: u64) -> (r: Result<Num, BRC20Error>)
        requires
            self.well_formed(),
        ensures
            exp == 0 ==> r == Ok::<Num, BRC20Error>(Num { mantissa: 0, scale: 0 }),
            match r {
                Ok(c) => c.well_formed() && spec_powu(*self, exp as nat) == Some(c),
                Err(e) => spec_powu(*self, exp as nat) is None && (e
                    matches BRC20Error::Overflow { op, org, other } && op@ == "checked_powu"@
                    && org == *self && other == *self),
            },
    {
        if exp == 0 {
            return Ok(Num { mantissa: 0, scale: 0 });
        }
        let mut result = self.clone();
        let mut i: u64 = 1;
        while i < exp
            invariant
                1 <= i <= exp,
                self.well_formed(),
                result.well_formed(),
                spec_powu(*self, i as nat) == Some(result),
            decreases exp - i,
        {
            match result.checked_mul(self) {
                Ok(next) => {
                    result = next;
                    i = i + 1;
                },
                Err(_) => {
                    proof {
                        assert(spec_powu(*self, (i + 1) as nat) is None);
                        lemma_powu_none_mono(*self, (i + 1) as nat, exp as nat);
                    }
                    return Err(BRC20Error::Overflow {
                        op: overflow_op_name(3),
                        org: self.clone(),
                        other: self.clone(),
                    });
                },
            }
        }
        Ok(result)
    }

    /// The whole-number part of `self`, which always fits a `u128` because
    /// the mantissa does.
    pub(crate) fn int_part_u128(&self) -> (r: u128)
        ensures
            r == spec_int_part(*self),
    {
        if self.scale == 0 {
            proof {
                assert(pow10(0) == 1);
            }
            self.mantissa
        } else {
            match pow10_u128(self.scale) {
                Some(p) => {
                    proof {
                        lemma_pow10_pos(self.scale as nat);
                    }
                    self.mantissa / p
                },
                None => {
                    proof {
                        assert(self.mantissa as nat / pow10(self.scale as nat) == 0)
                            by (nonlinear_arith)
                            requires
                                pow10(self.scale as nat) > self.mantissa as nat,
                        ;
                    }
                    0
                },
            }
        }
    }

    /// Narrows the whole-number part to a `u8`; fails with `Overflow` when
    /// it is above `u8::MAX`.
    pub fn checked_to_u8(&self) -> (r: Result<u8, BRC20Error>)
        ensures
            match r {
                Ok(v) => spec_int_part(*self) <= 255 && v == spec_int_part(*self),
                Err(e) => spec_int_part(*self) > 255 && (e matches BRC20Error::Overflow {
                    op,
                    org,
                    other,
                } && op@ == "to_u8"@ && org == *self && other == (Num { mantissa: 255, scale: 0 })),
            },
    {
        let ip = self.int_part_u128();
        if ip <= 255 {
            Ok(ip as u8)
        } else {
            Err(BRC20Error::Overflow {
                op: overflow_op_name(4),
                org: self.clone(),
                other: Num { mantissa: 255, scale: 0 },
            })
        }
    }

    /// The whole-number part as a `u128`. The conversion is total here — the
    /// mantissa already fits — but stays on the checked path for symmetry.
    pub fn checked_to_u128(&self) -> (r: Result<u128, BRC20Error>)
        ensures
            r == Ok::<u128, BRC20Error>((spec_int_part(*self)) as u128),
    {
        Ok(self.int_part_u128())
    }

    /// The sign of the value: `NoSign` for zero, `Plus` otherwise, never
    /// `Minus`.
    pub fn sign(&self) -> (r: Sign)
        ensures
            r == (if self.mantissa == 0 {
                Sign::NoSign
            } else {
                Sign::Plus
            }),
            r != Sign::Minus,
    {
        if self.mantissa == 0 {
            Sign::NoSign
        } else {
            Sign::Plus
        }
    }

    /// The count of fractional digits of the canonical representation.
    pub fn scale(&self) -> (r: i64)
        ensures
            r == self.scale as i64,
    {
        self.scale as i64
    }

    /// Whether `self` denotes a strictly smaller value than `other`.
    pub fn lt(&self, other: &Num) -> (r: bool)
        requires
            self.well_formed(),
            other.well_formed(),
        ensures
            r == spec_lt(*self, *other),
    {
        let s = if self.scale >= other.scale {
            self.scale
        } else {
            other.scale
        };
        proof {
            assert(pow10(0) == 1);
        }
        match self.aligned_mantissa(s) {
            Some(x) => {
                match other.aligned_mantissa(s) {
                    Some(y) => x < y,
                    None => {
                        // the other side exceeds the machine representation,
                        // ours does not, so ours is smaller
                        proof {
                            if self.scale < other.scale {
                                assert(aligned(*other, s as nat) == other.mantissa * 1);
                            }
                            assert(aligned(*self, s as nat) == self.mantissa * 1);
                        }
                        true
                    },
                }
            },
            None => {
                // our side exceeds the machine representation; the other is
                // its own mantissa and fits, so ours is larger
                proof {
                    if self.scale >= other.scale {
                        assert(aligned(*self, s as nat) == self.mantissa * 1);
                    }
                    assert(aligned(*other, s as nat) == other.mantissa * 1);
                }
                false
            },
        }
    }

    /// Whether the value is zero.
    pub fn is_zero(&self) -> (r: bool)
        ensures
            r == (self.mantissa == 0),
    {
        self.mantissa == 0
    }
}

impl From<u64> for Num {
    /// A whole number as a decimal with no fractional digits.
    fn from(n: u64) -> (r: Num) {
        Num { mantissa: n as u128, scale: 0 }
    }
}

impl vstd::std_specs::convert::FromSpecImpl<u64> for Num {
    open spec fn obeys_from_spec() -> bool {
        true
    }

    open spec fn from_spec(n: u64) -> Num {
        Num { mantissa: n as u128, scale: 0 }
    }
}

impl From<u128> for Num {
    /// A whole number as a decimal with no fractional digits.
    fn from(n: u128) -> (r: Num) {
        Num { mantissa: n, scale: 0 }
    }
}

impl vstd::std_specs::convert::FromSpecImpl<u128> for Num {
    open spec fn obeys_from_spec() -> bool {
        true
    }

    open spec fn from_spec(n: u128) -> Num {
        Num { mantissa: n, scale: 0 }
    }
}

/// Multiplication by a positive factor can be cancelled.
proof fn lemma_mul_cancel(x: nat, y: nat, k: nat)
    requires
        k >= 1,
        x * k == y * k,
    ensures
        x == y,
{
    assert(x == y) by (nonlinear_arith)
        requires
            k >= 1,
            x * k == y * k,
    ;
}

/// Rescaling to `s2` and then on to `s` is the same as rescaling to `s`.
proof fn lemma_aligned_rescale(n: Num, s2: nat, s: nat)
    requires
        n.scale <= s2 <= s,
    ensures
        aligned(n, s2) * pow10((s - s2) as nat) == aligned(n, s),
{
    let d1 = (s2 - n.scale) as nat;
    let d2 = (s - s2) as nat;
    lemma_pow10_split(d1, d2);
    assert((n.mantissa * pow10(d1)) * pow10(d2) == n.mantissa * (pow10(d1) * pow10(d2)))
        by (nonlinear_arith);
    assert(d1 + d2 == (s - n.scale) as nat);
}

/// Addition followed by subtraction of the same operand returns exactly the
/// first operand — no rounding drift: whenever `a.checked_add(b)` yields `c`,
/// `c.checked_sub(b)` yields `a` back, bit for bit.
pub proof fn lemma_add_sub_round_trip(a: Num, b: Num, c: Num)
    requires
        a.well_formed(),
        b.well_formed(),
        spec_add(a, b) == Some(c),
    ensures
        spec_sub(c, b) == Some(a),
{
    let s = max_scale(a, b);
    let suma = aligned(a, s);
    let sumb = aligned(b, s);
    let sum = (suma + sumb) as nat;
    lemma_canon_le(sum, s);
    lemma_canon_value(sum, s);
    let (cm, cs) = canon(sum, s);
    assert(c.mantissa == cm && c.scale == cs);

    let s2 = max_scale(c, b);
    assert(cs <= s && b.scale <= s && s2 <= s);
    let k = (s - s2) as nat;
    lemma_pow10_pos(k);

    // the sum rescaled from the canonical scale back up to s is `sum` itself
    lemma_aligned_rescale(c, s2 as nat, s);
    assert(aligned(c, s) == sum) by {
        // cm * pow10(s) == sum * pow10(cs), so cm * pow10(s - cs) == sum
        let d = (s - cs) as nat;
        lemma_pow10_split(d, cs);
        lemma_pow10_pos(cs);
        assert(cm * (pow10(d) * pow10(cs)) == (cm * pow10(d)) * pow10(cs)) by (nonlinear_arith);
        lemma_mul_cancel((cm * pow10(d)) as nat, sum, pow10(cs));
    }
    lemma_aligned_rescale(b, s2 as nat, s);

    let mc2 = aligned(c, s2);
    let mb2 = aligned(b, s2);
    // mc2 * pow10(k) == sum and mb2 * pow10(k) == sumb
    assert(mc2 * pow10(k) == sum);
    assert(mb2 * pow10(k) == sumb);
    assert(mb2 <= mc2 && mc2 <= sum) by (nonlinear_arith)
        requires
            mc2 * pow10(k) == sum,
            mb2 * pow10(k) == sumb,
            sumb <= sum,
            pow10(k) >= 1,
    ;
    assert(mc2 <= u128::MAX);

    // the difference at scale s2 rescales to the original first operand
    let diff = (mc2 - mb2) as nat;
    assert(diff * pow10(k) == suma) by (nonlinear_arith)
        requires
            mc2 * pow10(k) == sum,
            mb2 * pow10(k) == sumb,
            sum == suma + sumb,
            diff == mc2 - mb2,
    ;

    // canonicalizing the difference gives back exactly `a`
    lemma_canon_resolves(a, diff, s2 as nat, s);
}

/// A value written as `d / 10^s2`, equal to a well-formed `a` when both are
/// rescaled to a common scale `s`, canonicalizes to exactly `a`'s pair.
proof fn lemma_canon_resolves(a: Num, d: nat, s2: nat, s: nat)
    requires
        a.well_formed(),
        a.scale <= s,
        s2 <= s,
        d * pow10((s - s2) as nat) == a.mantissa * pow10((s - a.scale) as nat),
    ensures
        canon(d, s2) == (a.mantissa as nat, a.scale as nat),
{
    let k = (s - s2) as nat;
    lemma_canon_value(d, s2);
    let (dm, ds) = canon(d, s2);
    lemma_canon_le(d, s2);
    let sa = a.scale as nat;
    let da = (s - sa) as nat;
    assert(dm * pow10(sa) == a.mantissa * pow10(ds)) by {
        // dm * pow10(s2) == d * pow10(ds) and d * pow10(k) == a.m * pow10(da)
        assert(dm * pow10(s2) == d * pow10(ds));
        lemma_pow10_split(s2, k);
        lemma_pow10_split(sa, da);
        lemma_pow10_split(ds, da);
        assert(dm * pow10(s2 + k) == (dm * pow10(s2)) * pow10(k)) by (nonlinear_arith)
            requires
                pow10(s2 + k) == pow10(s2) * pow10(k),
        ;
        assert((d * pow10(ds)) * pow10(k) == (d * pow10(k)) * pow10(ds)) by (nonlinear_arith);
        assert((a.mantissa * pow10(da)) * pow10(ds) == (a.mantissa * pow10(ds)) * pow10(da))
            by (nonlinear_arith);
        assert(dm * pow10(s2 + k) == (a.mantissa * pow10(ds)) * pow10(da));
        assert(s2 + k == s);
        assert(dm * pow10(s) == (dm * pow10(sa)) * pow10(da)) by (nonlinear_arith)
            requires
                pow10(s) == pow10(sa) * pow10(da),
        ;
        lemma_pow10_pos(da);
        lemma_mul_cancel((dm * pow10(sa)) as nat, (a.mantissa * pow10(ds)) as nat, pow10(da));
    }
    lemma_canonical_unique(dm, ds, a.mantissa as nat, sa);
}

/// A `Num` read off a canonical pair rescales back to the value the pair
/// was canonicalized from.
proof fn lemma_canon_aligned(v: nat, s: nat, c: Num)
    requires
        (c.spec_mantissa(), c.spec_scale()) == canon(v, s),
    ensures
        c.spec_scale() <= s,
        aligned(c, s) == v,
{
    lemma_canon_le(v, s);
    lemma_canon_value(v, s);
    let cm = c.mantissa as nat;
    let cs = c.scale as nat;
    let d = (s - cs) as nat;
    lemma_pow10_split(d, cs);
    lemma_pow10_pos(cs);
    assert(cm * (pow10(d) * pow10(cs)) == (cm * pow10(d)) * pow10(cs)) by (nonlinear_arith);
    lemma_mul_cancel((cm * pow10(d)) as nat, v, pow10(cs));
}

/// Exact addition, read at any common width `w`: the sum's mantissa at `w`
/// is the operands' mantissas at `w`, added.
pub proof fn lemma_add_exact_at(a: Num, b: Num, c: Num, w: nat)
    requires
        spec_add(a, b) == Some(c),
        a.scale <= w,
        b.scale <= w,
    ensures
        c.spec_scale() <= w,
        aligned(c, w) == aligned(a, w) + aligned(b, w),
{
    let s = max_scale(a, b);
    let sum = (aligned(a, s) + aligned(b, s)) as nat;
    lemma_canon_le(sum, s);
    lemma_canon_aligned(sum, s, c);
    lemma_aligned_rescale(c, s, w);
    lemma_aligned_rescale(a, s, w);
    lemma_aligned_rescale(b, s, w);
    let p = pow10((w - s) as nat);
    assert(sum * p == aligned(a, s) * p + aligned(b, s) * p) by (nonlinear_arith)
        requires
            sum == aligned(a, s) + aligned(b, s),
    ;
}

/// Exact subtraction, read at any common width `w`.
pub proof fn lemma_sub_exact_at(a: Num, b: Num, c: Num, w: nat)
    requires
        spec_sub(a, b) == Some(c),
        a.scale <= w,
        b.scale <= w,
    ensures
        c.spec_scale() <= w,
        aligned(c, w) + aligned(b, w) == aligned(a, w),
{
    let s = max_scale(a, b);
    let diff = (aligned(a, s) - aligned(b, s)) as nat;
    lemma_canon_le(diff, s);
    lemma_canon_aligned(diff, s, c);
    lemma_aligned_rescale(c, s, w);
    lemma_aligned_rescale(a, s, w);
    lemma_aligned_rescale(b, s, w);
    let p = pow10((w - s) as nat);
    assert(diff * p + aligned(b, s) * p == aligned(a, s) * p) by (nonlinear_arith)
        requires
            diff + aligned(b, s) == aligned(a, s),
    ;
}

/// The value order, read at any common width `w`.
pub proof fn lemma_lt_at(a: Num, b: Num, w: nat)
    requires
        a.scale <= w,
        b.scale <= w,
    ensures
        spec_lt(a, b) <==> aligned(a, w) < aligned(b, w),
{
    let s = max_scale(a, b);
    lemma_aligned_rescale(a, s, w);
    lemma_aligned_rescale(b, s, w);
    let p = pow10((w - s) as nat);
    lemma_pow10_pos((w - s) as nat);
    assert(aligned(a, s) < aligned(b, s) <==> aligned(a, s) * p < aligned(b, s) * p)
        by (nonlinear_arith)
        requires
            p >= 1,
    ;
}

/// Addition never fails on protocol-bounded operands: when both scales are
/// within the protocol's fractional width and the operands' mantissas,
/// brought to that width, sum within the machine representation — as every
/// pair of ledger amounts does — the exact sum exists. The checked path is
/// kept for symmetry, not because these inputs can fail.
pub proof fn lemma_add_succeeds_within_bounds(a: Num, b: Num)
    requires
        a.well_formed(),
        b.well_formed(),
        a.scale <= MAX_DECIMAL_WIDTH,
        b.scale <= MAX_DECIMAL_WIDTH,
        aligned(a, MAX_DECIMAL_WIDTH as nat) + aligned(b, MAX_DECIMAL_WIDTH as nat) <= u128::MAX,
    ensures
        spec_add(a, b) is Some,
{
    let s = max_scale(a, b);
    let w = MAX_DECIMAL_WIDTH as nat;
    lemma_aligned_rescale(a, s, w);
    lemma_aligned_rescale(b, s, w);
    let p = pow10((w - s) as nat);
    lemma_pow10_pos((w - s) as nat);
    assert((aligned(a, s) + aligned(b, s)) * p == aligned(a, w) + aligned(b, w))
        by (nonlinear_arith)
        requires
            aligned(a, s) * p == aligned(a, w),
            aligned(b, s) * p == aligned(b, w),
    ;
    assert(aligned(a, s) + aligned(b, s) <= aligned(a, w) + aligned(b, w)) by (nonlinear_arith)
        requires
            (aligned(a, s) + aligned(b, s)) * p == aligned(a, w) + aligned(b, w),
            p >= 1,
    ;
}

/// Subtraction followed by addition of the same operand returns exactly the
/// minuend: whenever `a.checked_sub(b)` yields `c`, `b.checked_add(c)`
/// yields `a` back, bit for bit.
pub proof fn lemma_sub_add_round_trip(a: Num, b: Num, c: Num)
    requires
        a.well_formed(),
        b.well_formed(),
        spec_sub(a, b) == Some(c),
    ensures
        spec_add(b, c) == Some(a),
{
    let s = max_scale(a, b);
    let ma = aligned(a, s);
    let mb = aligned(b, s);
    let diff = (ma - mb) as nat;
    lemma_canon_le(diff, s);
    lemma_canon_value(diff, s);
    let (cm, cs) = canon(diff, s);
    assert(c.mantissa == cm && c.scale == cs);

    let s2 = max_scale(b, c);
    assert(cs <= s && b.scale <= s && s2 <= s);
    let k = (s - s2) as nat;
    lemma_pow10_pos(k);

    // the difference rescaled from the canonical scale back up to s
    lemma_aligned_rescale(c, s2, s);
    assert(aligned(c, s) == diff) by {
        let dd = (s - cs) as nat;
        lemma_pow10_split(dd, cs);
        lemma_pow10_pos(cs);
        assert(cm * (pow10(dd) * pow10(cs)) == (cm * pow10(dd)) * pow10(cs)) by (nonlinear_arith);
        lemma_mul_cancel((cm * pow10(dd)) as nat, diff, pow10(cs));
    }
    lemma_aligned_rescale(b, s2, s);

    let mb2 = aligned(b, s2);
    let mc2 = aligned(c, s2);
    assert(mb2 * pow10(k) == mb);
    assert(mc2 * pow10(k) == diff);
    let sum2 = (mb2 + mc2) as nat;
    assert(sum2 * pow10(k) == ma) by (nonlinear_arith)
        requires
            mb2 * pow10(k) == mb,
            mc2 * pow10(k) == diff,
            ma == mb + diff,
            sum2 == mb2 + mc2,
    ;
    assert(sum2 <= ma) by (nonlinear_arith)
        requires
            sum2 * pow10(k) == ma,
            pow10(k) >= 1,
    ;
    assert(ma <= u128::MAX);

    // canonicalizing the sum gives back exactly `a`
    lemma_canon_resolves(a, sum2, s2, s);
}

/// The operation names carried by `Overflow` errors.
fn overflow_op_name(which: u8) -> (r: String)
    ensures
        which == 0 ==> r@ == "checked_add"@,
        which == 1 ==> r@ == "checked_sub"@,
        which == 2 ==> r@ == "checked_mul"@,
        which == 3 ==> r@ == "checked_powu"@,
        which == 4 ==> r@ == "to_u8"@,
        which == 5 ==> r@ == "to_u128"@,
{
    if which == 0 {
        String::from_str("checked_add")
    } else if which == 1 {
        String::from_str("checked_sub")
    } else if which == 2 {
        String::from_str("checked_mul")
    } else if which == 3 {
        String::from_str("checked_powu")
    } else if which == 4 {
        String::from_str("to_u8")
    } else {
        String::from_str("to_u128")
    }
}

} // verus!
