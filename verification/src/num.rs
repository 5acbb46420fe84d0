//! Decimal digits: values of digit runs, and rendering integers as text.

use vstd::prelude::*;

verus! {

/// `c` is an ASCII decimal digit.
pub open spec fn is_digit_char(c: char) -> bool {
    '0' <= c && c <= '9'
}

/// Numeric value of one digit character.
pub open spec fn digit_val(c: char) -> nat
    recommends
        is_digit_char(c),
{
    ((c as u32) - ('0' as u32)) as nat
}

/// Value of a run of digit characters, most significant first.
pub open spec fn digits_val(s: Seq<char>) -> nat
    decreases s.len(),
{
    if s.len() == 0 {
        0
    } else {
        digits_val(s.drop_last()) * 10 + digit_val(s.last())
    }
}

/// Extending a digit run by one character multiplies its value by ten and
/// adds the new digit.
pub proof fn lemma_digits_val_step(l: Seq<char>, from: int, j: int)
    requires
        0 <= from <= j < l.len(),
    ensures
        digits_val(l.subrange(from, j + 1)) == digits_val(l.subrange(from, j)) * 10 + digit_val(
            l[j],
        ),
{
    assert(l.subrange(from, j + 1).drop_last() =~= l.subrange(from, j));
    assert(l.subrange(from, j + 1).last() == l[j]);
}

/// A digit run is worth at least as much as any of its prefixes.
pub proof fn lemma_digits_val_mono(l: Seq<char>, from: int, j: int, to: int)
    requires
        0 <= from <= j <= to <= l.len(),
    ensures
        digits_val(l.subrange(from, to)) >= digits_val(l.subrange(from, j)),
    decreases to - j,
{
    if j < to {
        lemma_digits_val_mono(l, from, j + 1, to);
        lemma_digits_val_step(l, from, j);
    }
}

/// The digit character for a value below ten.
pub open spec fn digit_char(d: nat) -> char
    recommends
        d < 10,
{
    if d == 0 {
        '0'
    } else if d == 1 {
        '1'
    } else if d == 2 {
        '2'
    } else if d == 3 {
        '3'
    } else if d == 4 {
        '4'
    } else if d == 5 {
        '5'
    } else if d == 6 {
        '6'
    } else if d == 7 {
        '7'
    } else if d == 8 {
        '8'
    } else {
        '9'
    }
}

/// Shortest decimal rendering of `n` (a single `0` for zero).
pub open spec fn dec_str(n: nat) -> Seq<char>
    decreases n,
{
    if n < 10 {
        seq![digit_char(n)]
    } else {
        dec_str(n / 10).push(digit_char(n % 10))
    }
}

/// Decimal rendering of `n` padded with leading zeros to exactly `width` digits.
pub open spec fn pad_dec(n: nat, width: nat) -> Seq<char>
    decreases width,
{
    if width == 0 {
        Seq::empty()
    } else {
        pad_dec(n / 10, (width - 1) as nat).push(digit_char(n % 10))
    }
}

fn append_digit(s: &mut String, d: u64)
    requires
        d < 10,
    ensures
        final(s)@ == old(s)@.push(digit_char(d as nat)),
{
    if d == 0 {
        s.append("0");
        proof {
            reveal_strlit("0");
            assert(s@ =~= old(s)@.push(digit_char(d as nat)));
        }
    } else if d == 1 {
        s.append("1");
        proof {
            reveal_strlit("1");
            assert(s@ =~= old(s)@.push(digit_char(d as nat)));
        }
    } else if d == 2 {
        s.append("2");
        proof {
            reveal_strlit("2");
            assert(s@ =~= old(s)@.push(digit_char(d as nat)));
        }
    } else if d == 3 {
        s.append("3");
        proof {
            reveal_strlit("3");
            assert(s@ =~= old(s)@.push(digit_char(d as nat)));
        }
    } else if d == 4 {
        s.append("4");
        proof {
            reveal_strlit("4");
            assert(s@ =~= old(s)@.push(digit_char(d as nat)));
        }
    } else if d == 5 {
        s.append("5");
        proof {
            reveal_strlit("5");
            assert(s@ =~= old(s)@.push(digit_char(d as nat)));
        }
    } else if d == 6 {
        s.append("6");
        proof {
            reveal_strlit("6");
            assert(s@ =~= old(s)@.push(digit_char(d as nat)));
        }
    } else if d == 7 {
        s.append("7");
        proof {
            reveal_strlit("7");
            assert(s@ =~= old(s)@.push(digit_char(d as nat)));
        }
    } else if d == 8 {
        s.append("8");
        proof {
            reveal_strlit("8");
            assert(s@ =~= old(s)@.push(digit_char(d as nat)));
        }
    } else {
        s.append("9");
        proof {
            reveal_strlit("9");
            assert(s@ =~= old(s)@.push(digit_char(d as nat)));
        }
    }
}

/// Appends the shortest decimal rendering of `n` to `s`.
pub fn append_u64(s: &mut String, n: u64)
    ensures
        final(s)@ == old(s)@ + dec_str(n as nat),
    decreases n,
{
    if n < 10 {
        append_digit(s, n);
        assert(s@ =~= old(s)@ + dec_str(n as nat));
    } else {
        append_u64(s, n / 10);
        append_digit(s, n % 10);
        assert(s@ =~= old(s)@ + dec_str(n as nat));
    }
}

/// Appends `n` rendered with leading zeros to exactly `width` digits.
pub fn append_pad(s: &mut String, n: u64, width: u64)
    ensures
        final(s)@ == old(s)@ + pad_dec(n as nat, width as nat),
    decreases width,
{
    if width == 0 {
        assert(s@ =~= old(s)@ + pad_dec(n as nat, 0));
    } else {
        append_pad(s, n / 10, width - 1);
        append_digit(s, n % 10);
        assert(s@ =~= old(s)@ + pad_dec(n as nat, width as nat));
    }
}

} // verus!
