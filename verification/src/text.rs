//! Rendering of identifiers, amounts and booleans as text: the pieces the
//! tabular output format is put together from.

use vstd::prelude::*;
use vstd::string::StringExecFns;

use crate::types::MonetaryAmount;

verus! {

/// The digit character for a value below ten.
pub open spec fn digit_char(d: int) -> char {
    if d == 0 {
        '0'
    } else if d == 1 {
        '1'
    } else if d == 2 {
        '2'
    } else if d == 3 {
        '3'
    } else if d == 4 {
        '4'
    } else if d == 5 {
        '5'
    } else if d == 6 {
        '6'
    } else if d == 7 {
        '7'
    } else if d == 8 {
        '8'
    } else {
        '9'
    }
}

/// The decimal digits of a non-negative number, most significant first.
pub open spec fn dec_digits(n: int) -> Seq<char>
    decreases n,
{
    if n < 10 {
        seq![digit_char(n)]
    } else {
        dec_digits(n / 10).push(digit_char(n % 10))
    }
}

/// An amount rendered with exactly four digits after the decimal point:
/// an optional minus sign, the whole part, a point, and the ten-thousandths
/// zero-padded to four digits.
pub open spec fn amount_text(units: int) -> Seq<char> {
    let abs = if units < 0 {
        -units
    } else {
        units
    };
    let sign: Seq<char> = if units < 0 {
        seq!['-']
    } else {
        Seq::empty()
    };
    let frac = abs % 10000;
    sign + dec_digits(abs / 10000) + seq!['.'] + seq![
        digit_char(frac / 1000),
        digit_char((frac / 100) % 10),
        digit_char((frac / 10) % 10),
        digit_char(frac % 10),
    ]
}

/// A boolean rendered as its literal.
pub open spec fn bool_text(b: bool) -> Seq<char> {
    if b {
        seq!['t', 'r', 'u', 'e']
    } else {
        seq!['f', 'a', 'l', 's', 'e']
    }
}

/// The digit as a one-character string slice.
fn digit_str(d: u64) -> (r: &'static str)
    requires
        d < 10,
    ensures
        r@ == seq![digit_char(d as int)],
{
    proof {
        reveal_strlit("0");
        reveal_strlit("1");
        reveal_strlit("2");
        reveal_strlit("3");
        reveal_strlit("4");
        reveal_strlit("5");
        reveal_strlit("6");
        reveal_strlit("7");
        reveal_strlit("8");
        reveal_strlit("9");
    }
    match d {
        0 => "0",
        1 => "1",
        2 => "2",
        3 => "3",
        4 => "4",
        5 => "5",
        6 => "6",
        7 => "7",
        8 => "8",
        _ => "9",
    }
}

/// Appends the decimal digits of `n` to `s`.
fn push_u64(n: u64, s: &mut String)
    ensures
        final(s)@ == old(s)@ + dec_digits(n as int),
    decreases n,
{
    if n < 10 {
        s.append(digit_str(n));
    } else {
        push_u64(n / 10, s);
        s.append(digit_str(n % 10));
        proof {
            assert(s@ =~= old(s)@ + dec_digits(n as int));
        }
    }
}

/// The decimal digits of `n` as a string.
pub fn u64_string(n: u64) -> (r: String)
    ensures
        r@ == dec_digits(n as int),
{
    let mut s = String::new();
    push_u64(n, &mut s);
    proof {
        assert(s@ =~= dec_digits(n as int));
    }
    s
}

/// An amount as a string with exactly four digits after the decimal point.
pub fn amount_string(m: MonetaryAmount) -> (r: String)
    ensures
        r@ == amount_text(m@),
{
    let units = m.value();
    let abs: u64 = if units >= 0 {
        units as u64
    } else {
        (-(units as i128)) as u64
    };
    let mut s = String::new();
    if units < 0 {
        proof {
            reveal_strlit("-");
        }
        s.append("-");
    }
    push_u64(abs / 10000, &mut s);
    proof {
        reveal_strlit(".");
    }
    s.append(".");
    let frac = abs % 10000;
    s.append(digit_str(frac / 1000));
    s.append(digit_str((frac / 100) % 10));
    s.append(digit_str((frac / 10) % 10));
    s.append(digit_str(frac % 10));
    proof {
        assert(s@ =~= amount_text(m@));
    }
    s
}

/// A boolean as its literal string.
pub fn bool_string(b: bool) -> (r: String)
    ensures
        r@ == bool_text(b),
{
    proof {
        reveal_strlit("true");
        reveal_strlit("false");
    }
    let r = if b {
        String::from_str("true")
    } else {
        String::from_str("false")
    };
    proof {
        assert(r@ =~= bool_text(b));
    }
    r
}

/// No character of a rendered number is a separator, a quote or a line
/// break, and the rendering is never empty.
pub proof fn lemma_dec_digits_plain(n: int)
    ensures
        dec_digits(n).len() > 0,
        forall|i: int| 0 <= i < dec_digits(n).len() ==> plain_char(#[trigger] dec_digits(n)[i]),
    decreases n,
{
    if n >= 10 {
        lemma_dec_digits_plain(n / 10);
    }
}

/// Whether a character may stand in a tabular field without quoting.
pub open spec fn plain_char(c: char) -> bool {
    c != ',' && c != '"' && c != '\n' && c != '\r'
}

/// Whether a piece of text may stand as one tabular field: non-empty and
/// free of separators, quotes and line breaks.
pub open spec fn plain_field(f: Seq<char>) -> bool {
    f.len() > 0 && forall|i: int| 0 <= i < f.len() ==> plain_char(#[trigger] f[i])
}

/// A rendered amount is a plain field.
pub proof fn lemma_amount_text_plain(units: int)
    ensures
        plain_field(amount_text(units)),
{
    let abs = if units < 0 {
        -units
    } else {
        units
    };
    lemma_dec_digits_plain(abs / 10000);
    assert forall|i: int| 0 <= i < amount_text(units).len() implies plain_char(
        #[trigger] amount_text(units)[i],
    ) by {
        let sign_len: int = if units < 0 {
            1
        } else {
            0
        };
        let ds = dec_digits(abs / 10000);
        if i < sign_len {
            assert(amount_text(units)[i] == '-');
        } else if i < sign_len + ds.len() {
            assert(amount_text(units)[i] == ds[i - sign_len]);
        }
    }
}

/// A rendered boolean is a plain field.
pub proof fn lemma_bool_text_plain(b: bool)
    ensures
        plain_field(bool_text(b)),
{
}

} // verus!
