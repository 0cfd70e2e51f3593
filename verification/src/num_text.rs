//! Parsing and rendering of decimal text for [`Num`].
//!
//! A valid decimal string is `digit+ ('.' digit+)?` — no sign, no exponent,
//! no bare leading point. Parsing normalizes trailing fractional zeros away;
//! rendering emits the canonical form, so the two round-trip exactly.

use vstd::prelude::*;
use crate::error::BRC20Error;
use crate::num::{canon, pow10, pow10_u128, Num, MAX_DECIMAL_WIDTH};
use crate::num::lemma_pow10_pos;

verus! {

/// Whether `c` is a decimal digit.
pub open spec fn is_digit(c: char) -> bool {
    48 <= c as int && c as int <= 57
}

/// The numeric value of a digit character.
pub open spec fn digit_val(c: char) -> nat {
    (c as int - 48) as nat
}

/// The digit character for a value below ten.
pub open spec fn digit_char(d: nat) -> char {
    ((48 + d) as u8) as char
}

/// Whether every character of `s` in `[from, to)` is a digit.
pub open spec fn all_digits_range(s: Seq<char>, from: int, to: int) -> bool {
    forall|j: int| from <= j < to ==> is_digit(s[j])
}

/// The value of a string of digit characters, most significant first.
pub open spec fn digits_val(s: Seq<char>) -> nat
    decreases s.len(),
{
    if s.len() == 0 {
        0
    } else {
        digits_val(s.drop_last()) * 10 + digit_val(s.last())
    }
}

/// The index of the first `'.'` at or after `i`, or `s.len()` if none.
pub open spec fn first_dot(s: Seq<char>, i: int) -> int
    decreases s.len() - i,
{
    if i < 0 || i >= s.len() {
        s.len() as int
    } else if s[i] == '.' {
        i
    } else {
        first_dot(s, i + 1)
    }
}

/// The as-written mantissa and fractional width of a valid decimal string,
/// or `None` for anything that is not `digit+ ('.' digit+)?`.
pub open spec fn spec_parse_dec(s: Seq<char>) -> Option<(nat, nat)> {
    let d = first_dot(s, 0);
    if d == s.len() {
        if s.len() >= 1 && all_digits_range(s, 0, s.len() as int) {
            Some((digits_val(s), 0))
        } else {
            None
        }
    } else {
        let ip = s.subrange(0, d);
        let fp = s.subrange(d + 1, s.len() as int);
        if 1 <= d && fp.len() >= 1 && all_digits_range(s, 0, d) && all_digits_range(
            s,
            d + 1,
            s.len() as int,
        ) {
            Some((digits_val(ip + fp), fp.len()))
        } else {
            None
        }
    }
}

/// The decimal digits of `v`, most significant first, without leading zeros
/// (a single `'0'` for zero).
pub open spec fn dec_digits(v: nat) -> Seq<char>
    decreases v,
{
    if v < 10 {
        seq![digit_char(v)]
    } else {
        dec_digits(v / 10).push(digit_char(v % 10))
    }
}

/// Exactly `w` decimal digits of `v`, most significant first, zero-padded.
pub open spec fn dec_digits_pad(v: nat, w: nat) -> Seq<char>
    decreases w,
{
    if w == 0 {
        Seq::empty()
    } else {
        dec_digits_pad(v / 10, (w - 1) as nat).push(digit_char(v % 10))
    }
}

/// The canonical text of `n`: the whole part, then — only when the scale is
/// positive — a point and exactly `scale` fractional digits.
pub open spec fn spec_render(n: Num) -> Seq<char> {
    if n.scale == 0 {
        dec_digits(n.mantissa as nat)
    } else {
        dec_digits((n.mantissa as nat) / pow10(n.scale as nat)) + seq!['.'] + dec_digits_pad(
            (n.mantissa as nat) % pow10(n.scale as nat),
            n.scale as nat,
        )
    }
}

proof fn lemma_digits_val_push(t: Seq<char>, c: char)
    ensures
        digits_val(t.push(c)) == digits_val(t) * 10 + digit_val(c),
{
    assert(t.push(c).drop_last() =~= t);
    assert(t.push(c).last() == c);
}

/// A prefix of a digit string is worth no more than the whole string.
proof fn lemma_digits_val_prefix(u: Seq<char>, i: int)
    requires
        0 <= i <= u.len(),
    ensures
        digits_val(u.subrange(0, i)) <= digits_val(u),
    decreases u.len() - i,
{
    if i == u.len() {
        assert(u.subrange(0, i) =~= u);
    } else {
        lemma_digits_val_prefix(u, i + 1);
        assert(u.subrange(0, i + 1) =~= u.subrange(0, i).push(u[i]));
        lemma_digits_val_push(u.subrange(0, i), u[i]);
    }
}

/// Trailing zero digits multiply the value of the head by a power of ten.
proof fn lemma_strip_zeros(u: Seq<char>, e: int)
    requires
        0 <= e <= u.len(),
        forall|j: int| e <= j < u.len() ==> u[j] == '0',
    ensures
        digits_val(u) == digits_val(u.subrange(0, e)) * pow10((u.len() - e) as nat),
    decreases u.len() - e,
{
    if e == u.len() {
        assert(u.subrange(0, e) =~= u);
        assert(pow10(0) == 1);
        assert(digits_val(u) * 1 == digits_val(u)) by (nonlinear_arith);
    } else {
        let h = u.drop_last();
        lemma_strip_zeros(h, e);
        assert(h.subrange(0, e) =~= u.subrange(0, e));
        assert(u.last() == '0');
        assert(digit_val('0') == 0);
        let k = (u.len() - 1 - e) as nat;
        assert(digits_val(u) == digits_val(h) * 10);
        assert((digits_val(u.subrange(0, e)) * pow10(k)) * 10 == digits_val(u.subrange(0, e)) * (10
            * pow10(k))) by (nonlinear_arith);
        assert(pow10((k + 1) as nat) == 10 * pow10(k));
        assert(digits_val(u) == digits_val(u.subrange(0, e)) * pow10((k + 1) as nat));
        assert((u.len() - e) as nat == (k + 1) as nat);
    }
}

/// Shifting `k` factors of ten from the mantissa into the scale does not
/// change the canonical form.
proof fn lemma_canon_shift(v: nat, k: nat, w: nat)
    requires
        k <= w,
    ensures
        canon(v * pow10(k), w) == canon(v, (w - k) as nat),
    decreases k,
{
    if k == 0 {
        assert(pow10(0) == 1);
        assert(v * 1 == v) by (nonlinear_arith);
    } else {
        let k1 = (k - 1) as nat;
        assert(pow10(k) == 10 * pow10(k1));
        assert(v * (10 * pow10(k1)) == (v * pow10(k1)) * 10) by (nonlinear_arith);
        let m = v * pow10(k);
        assert(m == (v * pow10(k1)) * 10);
        assert(m % 10 == 0 && m / 10 == v * pow10(k1)) by (nonlinear_arith)
            requires
                m == (v * pow10(k1)) * 10,
        ;
        lemma_canon_shift(v, k1, (w - 1) as nat);
    }
}

/// Scanning from `a` to `b` finds no dot, so the first dot is the same.
proof fn lemma_first_dot_skip(s: Seq<char>, a: int, b: int)
    requires
        0 <= a <= b <= s.len(),
        forall|j: int| a <= j < b ==> s[j] != '.',
    ensures
        first_dot(s, a) == first_dot(s, b),
    decreases b - a,
{
    if a < b {
        lemma_first_dot_skip(s, a + 1, b);
    }
}

/// The first dot lies at or after where the scan for it starts.
proof fn lemma_first_dot_ge(s: Seq<char>, i: int)
    requires
        0 <= i <= s.len(),
    ensures
        first_dot(s, i) >= i,
    decreases s.len() - i,
{
    if i < s.len() && s[i] != '.' {
        lemma_first_dot_ge(s, i + 1);
    }
}

/// Canonicalization only shrinks the mantissa, so a canonical mantissa
/// beyond `u128` means the original was beyond it too.
proof fn lemma_canon_ge(m: nat, s: nat)
    ensures
        canon(m, s).0 > u128::MAX ==> m > u128::MAX,
    decreases s,
{
    if !(s == 0 || m % 10 != 0) {
        lemma_canon_ge(m / 10, (s - 1) as nat);
    }
}

impl Num {
    /// Parses a decimal string of the shape `digit+ ('.' digit+)?`. Strings
    /// with a bare leading point, a sign, other non-numeric content, more
    /// than `MAX_DECIMAL_WIDTH` fractional digits, or a normalized mantissa
    /// too large for the machine representation are rejected with
    /// `InvalidNum`, echoing the offending text.
    pub fn from_str(s: &str) -> (r: Result<Num, BRC20Error>)
        ensures
            match r {
                Ok(n) => {
                    &&& n.well_formed()
                    &&& spec_parse_dec(s@) matches Some(p) && p.1 <= MAX_DECIMAL_WIDTH && (
                    n.spec_mantissa(), n.spec_scale()) == canon(p.0, p.1)
                },
                Err(e) => {
                    &&& (e matches BRC20Error::InvalidNum(t) && t@ == s@)
                    &&& match spec_parse_dec(s@) {
                        Some(p) => p.1 > MAX_DECIMAL_WIDTH || canon(p.0, p.1).0 > u128::MAX,
                        None => true,
                    }
                },
            },
    {
        let n = s.unicode_len();
        if n == 0 {
            return Err(BRC20Error::InvalidNum(s.to_owned()));
        }
        // first pass: every character is a digit, except at most one
        // interior dot
        let mut i: usize = 0;
        let mut dot: usize = n;
        while i < n
            invariant
                0 < n == s@.len(),
                0 <= i <= n,
                dot == n || (1 <= dot < i),
                dot < n ==> s@[dot as int] == '.',
                forall|j: int| 0 <= j < i && j != dot ==> is_digit(#[trigger] s@[j]),
                forall|j: int| 0 <= j < i && j != dot ==> s@[j] != '.',
            decreases n - i,
        {
            let c = s.get_char(i);
            if c == '.' {
                if dot != n || i == 0 {
                    proof {
                        let d0 = first_dot(s@, 0);
                        if i == 0 {
                            assert(d0 == 0);
                        } else {
                            lemma_first_dot_skip(s@, 0, dot as int);
                            assert(d0 == dot);
                            // the second dot sits inside the would-be
                            // fraction, so that is not all digits
                            assert(!is_digit(s@[i as int]));
                            assert(!all_digits_range(s@, dot + 1, s@.len() as int));
                        }
                    }
                    return Err(BRC20Error::InvalidNum(s.to_owned()));
                }
                dot = i;
            } else if (c as u32) < 48 || (c as u32) > 57 {
                proof {
                    let d0 = first_dot(s@, 0);
                    assert(!is_digit(s@[i as int]));
                    if dot < n {
                        lemma_first_dot_skip(s@, 0, dot as int);
                        assert(d0 == dot);
                        assert(!all_digits_range(s@, dot + 1, s@.len() as int));
                    } else {
                        lemma_first_dot_skip(s@, 0, i as int);
                        if first_dot(s@, i as int) == s@.len() {
                            assert(!all_digits_range(s@, 0, s@.len() as int));
                        } else {
                            // the first dot lies beyond i, so i falls in the
                            // whole part
                            lemma_first_dot_ge(s@, i + 1);
                            assert(!all_digits_range(s@, 0, d0));
                        }
                    }
                }
                return Err(BRC20Error::InvalidNum(s.to_owned()));
            }
            i = i + 1;
        }
        if dot < n && dot + 1 == n {
            // nothing after the dot
            proof {
                lemma_first_dot_skip(s@, 0, dot as int);
            }
            return Err(BRC20Error::InvalidNum(s.to_owned()));
        }
        proof {
            if dot < n {
                lemma_first_dot_skip(s@, 0, dot as int);
            } else {
                lemma_first_dot_skip(s@, 0, n as int);
            }
        }
        if dot == n {
            // plain integer: no normalization of the whole part
            match acc_digits(s, n, n) {
                Some(m) => {
                    proof {
                        assert(s@.subrange(0, n as int) =~= s@);
                    }
                    Ok(Num { mantissa: m, scale: 0 })
                },
                None => {
                    proof {
                        assert(s@.subrange(0, n as int) =~= s@);
                    }
                    Err(BRC20Error::InvalidNum(s.to_owned()))
                },
            }
        } else {
            let fw = n - dot - 1;
            if fw > MAX_DECIMAL_WIDTH as usize {
                return Err(BRC20Error::InvalidNum(s.to_owned()));
            }
            // normalize: drop trailing fractional zeros
            let mut end = n;
            while end > dot + 1 && s.get_char(end - 1) == '0'
                invariant
                    dot + 1 <= end <= n <= s@.len(),
                    forall|j: int| end <= j < n ==> s@[j] == '0',
                decreases end,
            {
                end = end - 1;
            }
            let scale = end - dot - 1;
            proof {
                let full = s@.subrange(0, dot as int) + s@.subrange(dot + 1, n as int);
                let kept = s@.subrange(0, dot as int) + s@.subrange(dot + 1, end as int);
                assert(kept =~= full.subrange(0, (end - 1) as int));
                assert(forall|j: int| end - 1 <= j < full.len() ==> full[j] == '0');
                lemma_strip_zeros(full, (end - 1) as int);
                lemma_canon_shift(digits_val(kept), (n - end) as nat, fw as nat);
                assert(digits_val(full) == digits_val(kept) * pow10((n - end) as nat));
                assert(canon(digits_val(full), fw as nat) == canon(digits_val(kept), scale as nat));
            }
            match acc_digits(s, end, dot) {
                Some(m) => {
                    proof {
                        let kept = s@.subrange(0, dot as int) + s@.subrange(dot + 1, end as int);
                        if scale > 0 {
                            // the kept fraction ends in a non-zero digit, so
                            // the mantissa is not divisible by ten
                            let last = s@[end - 1];
                            assert(kept.len() > 0 && kept.last() == last);
                            assert(is_digit(last) && last != '0');
                            assert(digit_val(last) != 0);
                            assert(kept =~= kept.drop_last().push(last));
                            lemma_digits_val_push(kept.drop_last(), last);
                            assert(m % 10 == digit_val(last)) by (nonlinear_arith)
                                requires
                                    m == digits_val(kept.drop_last()) * 10 + digit_val(last),
                                    digit_val(last) < 10,
                            ;
                        }
                        assert(canon(m as nat, scale as nat) == (m as nat, scale as nat));
                    }
                    Ok(Num { mantissa: m, scale: scale as u32 })
                },
                None => {
                    proof {
                        let full = s@.subrange(0, dot as int) + s@.subrange(dot + 1, n as int);
                        let kept = s@.subrange(0, dot as int) + s@.subrange(dot + 1, end as int);
                        assert(canon(digits_val(full), fw as nat).0 == canon(
                            digits_val(kept),
                            scale as nat,
                        ).0);
                        lemma_canon_ge(digits_val(kept), scale as nat);
                    }
                    Err(BRC20Error::InvalidNum(s.to_owned()))
                },
            }
        }
    }
}

/// Relies on String::push: appends the given character to the end of the
/// string.
#[verifier::external_body]
fn push_char(s: &mut String, c: char)
    ensures
        final(s)@ == old(s)@.push(c),
{
    s.push(c);
}

/// The characters of `v`, assembled into an owned string.
pub(crate) fn chars_to_string(v: &Vec<char>) -> (r: String)
    ensures
        r@ == v@,
{
    let mut rs = String::new();
    let mut i: usize = 0;
    while i < v.len()
        invariant
            i <= v@.len(),
            rs@ == v@.subrange(0, i as int),
        decreases v@.len() - i,
    {
        let c = v[i];
        push_char(&mut rs, c);
        proof {
            assert(v@.subrange(0, (i + 1) as int) =~= v@.subrange(0, i as int).push(v@[i as int]));
        }
        i = i + 1;
    }
    proof {
        assert(v@.subrange(0, v@.len() as int) =~= v@);
    }
    rs
}

/// Appends the decimal digits of `v`, most significant first.
fn push_digits(out: &mut Vec<char>, v: u128)
    ensures
        final(out)@ == old(out)@ + dec_digits(v as nat),
    decreases v,
{
    if v < 10 {
        out.push((48 + v as u8) as char);
        proof {
            assert(out@ =~= old(out)@ + dec_digits(v as nat));
        }
    } else {
        push_digits(out, v / 10);
        out.push((48 + (v % 10) as u8) as char);
        proof {
            assert(out@ =~= old(out)@ + dec_digits(v as nat));
        }
    }
}

/// Appends exactly `w` decimal digits of `v`, zero-padded at the front.
fn push_digits_pad(out: &mut Vec<char>, v: u128, w: u32)
    ensures
        final(out)@ == old(out)@ + dec_digits_pad(v as nat, w as nat),
    decreases w,
{
    if w == 0 {
        proof {
            assert(out@ =~= old(out)@ + dec_digits_pad(v as nat, 0));
        }
    } else {
        push_digits_pad(out, v / 10, w - 1);
        out.push((48 + (v % 10) as u8) as char);
        proof {
            assert(out@ =~= old(out)@ + dec_digits_pad(v as nat, w as nat));
        }
    }
}

impl Num {
    /// Renders the canonical text of the value: P1's "numerically
    /// normalized form" — trailing fractional zeros are already gone from
    /// the canonical representation, and a zero whole part keeps its
    /// leading zero digit.
    pub fn to_string(&self) -> (r: String)
        ensures
            r@ == spec_render(*self),
    {
        let mut out: Vec<char> = Vec::new();
        let ip = self.int_part_u128();
        push_digits(&mut out, ip);
        if self.scale > 0 {
            out.push('.');
            let frac = match pow10_u128(self.scale) {
                Some(p) => {
                    proof {
                        lemma_pow10_pos(self.scale as nat);
                    }
                    self.mantissa % p
                },
                None => {
                    proof {
                        assert(self.mantissa as nat % pow10(self.scale as nat)
                            == self.mantissa as nat) by (nonlinear_arith)
                            requires
                                pow10(self.scale as nat) > self.mantissa as nat,
                        ;
                    }
                    self.mantissa
                },
            };
            push_digits_pad(&mut out, frac, self.scale);
            proof {
                let ga = dec_digits((self.mantissa as nat) / pow10(self.scale as nat));
                let gb = dec_digits_pad(
                    (self.mantissa as nat) % pow10(self.scale as nat),
                    self.scale as nat,
                );
                assert(out@ =~= (ga + seq!['.']) + gb);
                assert(spec_render(*self) == (ga + seq!['.']) + gb);
            }
        } else {
            proof {
                assert(pow10(0) == 1);
                assert(self.mantissa as nat / 1 == self.mantissa as nat) by (nonlinear_arith);
                assert(out@ =~= spec_render(*self));
            }
        }
        chars_to_string(&out)
    }
}

/// The digits of a number are digits, there is at least one, none is a dot,
/// and they read back to the number itself.
proof fn lemma_dec_digits_props(v: nat)
    ensures
        dec_digits(v).len() >= 1,
        forall|j: int|
            0 <= j < dec_digits(v).len() ==> is_digit(#[trigger] dec_digits(v)[j]) && dec_digits(
                v,
            )[j] != '.',
        digits_val(dec_digits(v)) == v,
    decreases v,
{
    if v < 10 {
        let s = seq![digit_char(v)];
        assert(dec_digits(v) == s);
        assert(48 + v < 256);
        assert(is_digit(digit_char(v)) && digit_char(v) != '.');
        assert(digit_val(digit_char(v)) == v);
        assert(s.len() == 1 && s.last() == digit_char(v));
        assert(s.drop_last() =~= Seq::<char>::empty());
        assert(digits_val(Seq::<char>::empty()) == 0);
        assert(digits_val(s) == 0 * 10 + digit_val(digit_char(v)));
    } else {
        lemma_dec_digits_props(v / 10);
        let c = digit_char(v % 10);
        assert(is_digit(c) && c != '.');
        lemma_digits_val_push(dec_digits(v / 10), c);
        assert(digit_val(c) == v % 10);
        assert((v / 10) * 10 + v % 10 == v) by (nonlinear_arith);
    }
}

/// A zero-padded digit block has exactly the asked width, holds only
/// digits, and — when the value fits the width — reads back to the value.
proof fn lemma_pad_props(v: nat, w: nat)
    ensures
        dec_digits_pad(v, w).len() == w,
        forall|j: int|
            0 <= j < w ==> is_digit(#[trigger] dec_digits_pad(v, w)[j]) && dec_digits_pad(
                v,
                w,
            )[j] != '.',
        v < pow10(w) ==> digits_val(dec_digits_pad(v, w)) == v,
    decreases w,
{
    if w > 0 {
        lemma_pad_props(v / 10, (w - 1) as nat);
        let c = digit_char(v % 10);
        assert(is_digit(c) && c != '.');
        lemma_digits_val_push(dec_digits_pad(v / 10, (w - 1) as nat), c);
        assert(digit_val(c) == v % 10);
        if v < pow10(w) {
            assert(pow10(w) == 10 * pow10((w - 1) as nat));
            assert(v / 10 < pow10((w - 1) as nat)) by (nonlinear_arith)
                requires
                    v < 10 * pow10((w - 1) as nat),
            ;
            assert((v / 10) * 10 + v % 10 == v) by (nonlinear_arith);
        }
    }
}

/// Concatenated digit strings read as the head shifted left by the tail's
/// width, plus the tail.
proof fn lemma_digits_val_concat(a: Seq<char>, b: Seq<char>)
    ensures
        digits_val(a + b) == digits_val(a) * pow10(b.len()) + digits_val(b),
    decreases b.len(),
{
    if b.len() == 0 {
        assert(a + b =~= a);
        assert(pow10(0) == 1);
        assert(digits_val(a) * 1 == digits_val(a)) by (nonlinear_arith);
    } else {
        let b1 = b.drop_last();
        lemma_digits_val_concat(a, b1);
        assert(a + b =~= (a + b1).push(b.last()));
        lemma_digits_val_push(a + b1, b.last());
        let k = b1.len() as nat;
        assert((digits_val(a) * pow10(k) + digits_val(b1)) * 10 == digits_val(a) * (10 * pow10(k))
            + digits_val(b1) * 10) by (nonlinear_arith);
        assert(pow10((k + 1) as nat) == 10 * pow10(k));
        assert(digits_val(b) == digits_val(b1) * 10 + digit_val(b.last()));
    }
}

/// P1, the parsing side: the canonical text of a well-formed value parses
/// back to exactly its mantissa and scale, and canonicalization leaves a
/// well-formed value untouched. Together with the contracts of `from_str`
/// and `to_string` this pins the full round trip: for every valid decimal
/// string, parsing and re-rendering yields the normalized form, and parsing
/// that form gives the same value back.
pub proof fn lemma_parse_of_render(n: Num)
    requires
        n.well_formed(),
    ensures
        spec_parse_dec(spec_render(n)) == Some((n.spec_mantissa(), n.spec_scale())),
        canon(n.spec_mantissa(), n.spec_scale()) == (n.spec_mantissa(), n.spec_scale()),
{
    let m = n.mantissa as nat;
    let sc = n.scale as nat;
    if n.scale == 0 {
        let s = dec_digits(m);
        lemma_dec_digits_props(m);
        lemma_first_dot_skip(s, 0, s.len() as int);
        assert(first_dot(s, 0) == s.len());
        assert(all_digits_range(s, 0, s.len() as int));
        assert(spec_render(n) == s);
        assert(pow10(0) == 1);
        assert(m / 1 == m && m % 1 == 0) by (nonlinear_arith);
    } else {
        let p = pow10(sc);
        lemma_pow10_pos(sc);
        let ipart = m / p;
        let fpart = m % p;
        assert(m % p < p) by (nonlinear_arith)
            requires
                p >= 1,
        ;
        let a = dec_digits(ipart);
        let b = dec_digits_pad(fpart, sc);
        let s = a + seq!['.'] + b;
        assert(spec_render(n) == s);
        lemma_dec_digits_props(ipart);
        lemma_pad_props(fpart, sc);
        let d = a.len() as int;
        assert(forall|j: int| 0 <= j < d ==> s[j] == a[j] && s[j] != '.');
        lemma_first_dot_skip(s, 0, d);
        assert(s[d] == '.');
        assert(first_dot(s, 0) == d);
        assert(d < s.len());
        let ip = s.subrange(0, d);
        let fp = s.subrange(d + 1, s.len() as int);
        assert(ip =~= a);
        assert(fp =~= b);
        assert(all_digits_range(s, 0, d));
        assert(all_digits_range(s, d + 1, s.len() as int)) by {
            assert(forall|j: int|
                d + 1 <= j < s.len() ==> s[j] == b[j - d - 1] && is_digit(#[trigger] s[j]));
        }
        assert(ip + fp =~= a + b);
        lemma_digits_val_concat(a, b);
        assert(digits_val(a) == ipart && digits_val(b) == fpart);
        assert(b.len() == sc);
        assert(ipart * p + fpart == m) by (nonlinear_arith)
            requires
                ipart == m / p,
                fpart == m % p,
                p >= 1,
        ;
        assert(digits_val(ip + fp) == m);
        assert(spec_parse_dec(s) == Some((m, sc)));
    }
}

/// Accumulates the value of the digits of `s` below `end`, skipping the one
/// at `dot` if it lies below `end`; `None` when the value exceeds `u128`.
fn acc_digits(s: &str, end: usize, dot: usize) -> (r: Option<u128>)
    requires
        end <= s@.len(),
        forall|j: int| 0 <= j < end && j != dot ==> is_digit(#[trigger] s@[j]),
    ensures
        ({
            let t = if dot < end {
                s@.subrange(0, dot as int) + s@.subrange(dot + 1, end as int)
            } else {
                s@.subrange(0, end as int)
            };
            match r {
                Some(m) => m == digits_val(t),
                None => digits_val(t) > u128::MAX,
            }
        }),
{
    let ghost t = if dot < end {
        s@.subrange(0, dot as int) + s@.subrange(dot + 1, end as int)
    } else {
        s@.subrange(0, end as int)
    };
    let mut acc: u128 = 0;
    let mut i: usize = 0;
    while i < end
        invariant
            i <= end <= s@.len(),
            forall|j: int| 0 <= j < end && j != dot ==> is_digit(#[trigger] s@[j]),
            t == (if dot < end {
                s@.subrange(0, dot as int) + s@.subrange(dot + 1, end as int)
            } else {
                s@.subrange(0, end as int)
            }),
            acc == digits_val(
                if i <= dot {
                    s@.subrange(0, i as int)
                } else {
                    s@.subrange(0, dot as int) + s@.subrange(dot + 1, i as int)
                },
            ),
        decreases end - i,
    {
        let ghost ti = if i <= dot {
            s@.subrange(0, i as int)
        } else {
            s@.subrange(0, dot as int) + s@.subrange(dot + 1, i as int)
        };
        if i == dot {
            proof {
                assert(s@.subrange(0, dot as int) + s@.subrange(dot + 1, (i + 1) as int)
                    =~= s@.subrange(0, i as int));
            }
        } else {
            let c = s.get_char(i);
            let d = (c as u32) - 48;
            proof {
                assert(is_digit(s@[i as int]));
                assert(d == digit_val(s@[i as int]) && d < 10);
                let ti1 = if i + 1 <= dot {
                    s@.subrange(0, (i + 1) as int)
                } else {
                    s@.subrange(0, dot as int) + s@.subrange(dot + 1, (i + 1) as int)
                };
                assert(ti1 =~= ti.push(s@[i as int]));
                lemma_digits_val_push(ti, s@[i as int]);
            }
            let step = match acc.checked_mul(10) {
                Some(v) => v.checked_add(d as u128),
                None => None,
            };
            match step {
                Some(v) => {
                    acc = v;
                },
                None => {
                    proof {
                        let ti1 = if i + 1 <= dot {
                            s@.subrange(0, (i + 1) as int)
                        } else {
                            s@.subrange(0, dot as int) + s@.subrange(dot + 1, (i + 1) as int)
                        };
                        assert(digits_val(ti1) > u128::MAX);
                        assert(ti1 =~= t.subrange(0, ti1.len() as int));
                        lemma_digits_val_prefix(t, ti1.len() as int);
                    }
                    return None;
                },
            }
        }
        i = i + 1;
    }
    proof {
        if dot < end {
        } else {
            assert(s@.subrange(0, end as int) =~= t);
        }
    }
    Some(acc)
}

} // verus!
