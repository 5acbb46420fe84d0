//! Refresh rates as exact decimals.
//!
//! A rate like `143.86` is kept as integer units, an integer fraction and the
//! fraction's digit count, normalized so that the fraction carries no trailing
//! zero. Comparison is exact numeric comparison of the decimals.

use vstd::prelude::*;
use crate::num::{is_digit_char, digit_val, digits_val, dec_str, pad_dec, append_u64, append_pad};

verus! {

/// Ten to the power `e`.
pub open spec fn pow10(e: nat) -> nat
    decreases e,
{
    if e == 0 {
        1
    } else {
        10 * pow10((e - 1) as nat)
    }
}

/// An exact decimal refresh rate: `units . fraction`, where `fraction` is
/// rendered with leading zeros to `frac_len` digits.
#[derive(Clone, Copy, PartialEq, Eq, Structural, Debug)]
pub struct Rate {
    pub units: u64,
    pub frac: u64,
    pub frac_len: u8,
}

impl Rate {
    /// Normal form: the fraction fits its digit count, carries no trailing
    /// zero, and is small enough for exact 128-bit comparison.
    pub open spec fn wf(self) -> bool {
        &&& self.frac_len <= 19
        &&& (self.frac as nat) < pow10(self.frac_len as nat)
        &&& (self.frac_len == 0 ==> self.frac == 0)
        &&& (self.frac_len > 0 ==> self.frac % 10 != 0)
    }

    /// The characters `units . fraction` (no dot when the fraction is empty).
    pub open spec fn text(self) -> Seq<char> {
        if self.frac_len == 0 {
            dec_str(self.units as nat)
        } else {
            dec_str(self.units as nat) + seq!['.'] + pad_dec(
                self.frac as nat,
                self.frac_len as nat,
            )
        }
    }

    pub fn new(units: u64, frac: u64, frac_len: u8) -> (r: Rate)
        requires
            frac_len <= 19,
            (frac as nat) < pow10(frac_len as nat),
            frac_len == 0 ==> frac == 0,
            frac_len > 0 ==> frac % 10 != 0,
        ensures
            r == (Rate { units, frac, frac_len }),
            r.wf(),
    {
        Rate { units, frac, frac_len }
    }

    /// Appends this rate's decimal text to `s`.
    pub fn append_text(&self, s: &mut String)
        ensures
            final(s)@ == old(s)@ + self.text(),
    {
        append_u64(s, self.units);
        if self.frac_len > 0 {
            s.append(".");
            proof {
                reveal_strlit(".");
            }
            append_pad(s, self.frac, self.frac_len as u64);
            assert(final(s)@ =~= old(s)@ + self.text());
        } else {
            assert(final(s)@ =~= old(s)@ + self.text());
        }
    }

    /// Renders this rate as a plain decimal string.
    pub fn to_text(&self) -> (r: String)
        ensures
            r@ == self.text(),
    {
        let mut s = String::new();
        self.append_text(&mut s);
        assert(s@ =~= self.text());
        s
    }

    /// `self <= other` as decimals.
    pub fn le(&self, other: &Rate) -> (r: bool)
        requires
            self.wf(),
            other.wf(),
        ensures
            r == rate_le(*self, *other),
    {
        if self.units != other.units {
            self.units < other.units
        } else {
            let pa = pow10_u64(other.frac_len);
            let pb = pow10_u64(self.frac_len);
            proof {
                assert((self.frac as int) * (pa as int) <= (u64::MAX as int) * (
                u64::MAX as int)) by (nonlinear_arith)
                    requires
                        self.frac as int <= u64::MAX as int,
                        0 <= pa as int <= u64::MAX as int,
                ;
                assert((other.frac as int) * (pb as int) <= (u64::MAX as int) * (
                u64::MAX as int)) by (nonlinear_arith)
                    requires
                        other.frac as int <= u64::MAX as int,
                        0 <= pb as int <= u64::MAX as int,
                ;
            }
            let a = (self.frac as u128) * (pa as u128);
            let b = (other.frac as u128) * (pb as u128);
            a <= b
        }
    }
}

/// Total order on rates: numeric order of the decimals, by cross-multiplying
/// the fractions to a common scale.
pub open spec fn rate_le(a: Rate, b: Rate) -> bool {
    if a.units != b.units {
        a.units < b.units
    } else {
        (a.frac as nat) * pow10(b.frac_len as nat) <= (b.frac as nat) * pow10(a.frac_len as nat)
    }
}

/// pow10 never exceeds `u64::MAX` for exponents up to 19.
pub proof fn lemma_pow10_le(e: nat)
    requires
        e <= 19,
    ensures
        pow10(e) <= 10_000_000_000_000_000_000,
        pow10(e) >= 1,
    decreases e,
{
    if e > 0 {
        lemma_pow10_le((e - 1) as nat);
        reveal_with_fuel(pow10, 21);
        assert(pow10(19) == 10_000_000_000_000_000_000);
        lemma_pow10_mono(e, 19);
    }
}

/// pow10 is monotone.
pub proof fn lemma_pow10_mono(a: nat, b: nat)
    requires
        a <= b,
    ensures
        pow10(a) <= pow10(b),
        pow10(a) >= 1,
    decreases b,
{
    if a == b {
        if a > 0 {
            lemma_pow10_mono((a - 1) as nat, (a - 1) as nat);
        }
    } else {
        lemma_pow10_mono(a, (b - 1) as nat);
    }
}

/// A run of `n` digits is worth less than ten to the `n`.
pub proof fn lemma_digits_val_bound(s: Seq<char>)
    requires
        forall|i: int| 0 <= i < s.len() ==> is_digit_char(#[trigger] s[i]),
    ensures
        digits_val(s) < pow10(s.len()),
    decreases s.len(),
{
    if s.len() == 0 {
    } else {
        assert(forall|i: int|
            0 <= i < s.drop_last().len() ==> is_digit_char(#[trigger] s.drop_last()[i]));
        lemma_digits_val_bound(s.drop_last());
        assert(is_digit_char(s.last()));
        assert(digit_val(s.last()) <= 9);
        assert(digits_val(s) == digits_val(s.drop_last()) * 10 + digit_val(s.last()));
        assert(digits_val(s.drop_last()) * 10 <= (pow10(s.drop_last().len()) - 1) * 10)
            by (nonlinear_arith)
            requires
                digits_val(s.drop_last()) <= pow10(s.drop_last().len()) - 1,
        ;
        assert(pow10(s.len()) == 10 * pow10(s.drop_last().len()));
    }
}

fn pow10_u64(e: u8) -> (r: u64)
    requires
        e <= 19,
    ensures
        r == pow10(e as nat),
{
    proof {
        reveal_with_fuel(pow10, 21);
    }
    let mut r: u64 = 1;
    let mut i: u8 = 0;
    while i < e
        invariant
            i <= e <= 19,
            r == pow10(i as nat),
        decreases e - i,
    {
        proof {
            lemma_pow10_mono(i as nat + 1, 19);
            reveal_with_fuel(pow10, 21);
        }
        r = r * 10;
        i = i + 1;
    }
    r
}

/// `rate_le` is reflexive and total; it is a genuine linear order on
/// well-formed rates.
pub proof fn lemma_rate_le_total(a: Rate, b: Rate)
    ensures
        rate_le(a, a),
        rate_le(a, b) || rate_le(b, a),
{
}

/// `rate_le` is transitive.
pub proof fn lemma_rate_le_trans(a: Rate, b: Rate, c: Rate)
    requires
        rate_le(a, b),
        rate_le(b, c),
    ensures
        rate_le(a, c),
{
    if a.units == b.units && b.units == c.units {
        lemma_pow10_mono(0, a.frac_len as nat);
        lemma_pow10_mono(0, b.frac_len as nat);
        lemma_pow10_mono(0, c.frac_len as nat);
        assert((a.frac as nat) * pow10(c.frac_len as nat) <= (c.frac as nat) * pow10(
            a.frac_len as nat,
        )) by (nonlinear_arith)
            requires
                (a.frac as nat) * pow10(b.frac_len as nat) <= (b.frac as nat) * pow10(
                    a.frac_len as nat,
                ),
                (b.frac as nat) * pow10(c.frac_len as nat) <= (c.frac as nat) * pow10(
                    b.frac_len as nat,
                ),
                pow10(a.frac_len as nat) >= 1,
                pow10(b.frac_len as nat) >= 1,
                pow10(c.frac_len as nat) >= 1,
        ;
    }
}

/// The maximum of a sequence of rates, as the parser selects it: each new
/// rate replaces the running maximum when it is at least as large, so among
/// equal maxima the last one seen is kept.
pub open spec fn max_rate(s: Seq<Rate>) -> Option<Rate>
    decreases s.len(),
{
    if s.len() == 0 {
        None
    } else {
        match max_rate(s.drop_last()) {
            None => Some(s.last()),
            Some(m) => if rate_le(m, s.last()) {
                Some(s.last())
            } else {
                Some(m)
            },
        }
    }
}

/// The selected rate is absent exactly on an empty list, is itself one of the
/// listed rates, and is numerically greatest among them.
pub proof fn lemma_max_rate(s: Seq<Rate>)
    ensures
        max_rate(s) is None <==> s.len() == 0,
        max_rate(s) matches Some(m) ==> s.contains(m) && forall|i: int|
            0 <= i < s.len() ==> rate_le(s[i], m),
    decreases s.len(),
{
    if s.len() > 0 {
        lemma_max_rate(s.drop_last());
        let m = max_rate(s)->Some_0;
        match max_rate(s.drop_last()) {
            None => {
                assert(s[0] == s.last());
                assert(s.contains(m));
            },
            Some(p) => {
                assert(s.drop_last().contains(p) ==> exists|i: int|
                    0 <= i < s.len() - 1 && s[i] == p);
                assert(forall|i: int| 0 <= i < s.len() - 1 ==> s[i] == s.drop_last()[i]);
                lemma_rate_le_total(p, s.last());
                assert forall|i: int| 0 <= i < s.len() implies rate_le(s[i], m) by {
                    if i < s.len() - 1 {
                        if rate_le(p, s.last()) {
                            lemma_rate_le_trans(s[i], p, s.last());
                        }
                    } else {
                        if !rate_le(p, s.last()) {
                            lemma_rate_le_total(p, s.last());
                        } else {
                            lemma_rate_le_total(s.last(), s.last());
                        }
                    }
                }
                assert(s.contains(m)) by {
                    if rate_le(p, s.last()) {
                        assert(s[s.len() - 1] == m);
                    } else {
                        let i = choose|i: int| 0 <= i < s.len() - 1 && s.drop_last()[i] == p;
                        assert(s[i] == p);
                    }
                }
            },
        }
    }
}

} // verus!
