//! Building the texts that the status rows show: decimal numbers, fixed-point
//! numbers with three decimals, dotted quads and comma-separated lists.

use vstd::prelude::*;

verus! {

/// The character of one decimal digit.
pub open spec fn digit_char(d: nat) -> char
    recommends
        d < 10,
{
    if d == 0 {
        '0'
    } else if d == 1 {
        '1'
    } else if d == 2 {
        '2'
    } else if d == 3 {
        '3'
    } else if d == 4 {
        '4'
    } else if d == 5 {
        '5'
    } else if d == 6 {
        '6'
    } else if d == 7 {
        '7'
    } else if d == 8 {
        '8'
    } else {
        '9'
    }
}

/// The decimal numeral of `n`, without leading zeros.
pub open spec fn decimal(n: nat) -> Seq<char>
    decreases n,
{
    if n < 10 {
        seq![digit_char(n)]
    } else {
        decimal(n / 10).push(digit_char(n % 10))
    }
}

/// `n` written in thousandths: the whole part, a dot, and exactly three
/// decimals.
pub open spec fn milli_text(n: nat) -> Seq<char> {
    decimal(n / 1000).push('.').push(digit_char((n / 100) % 10)).push(
        digit_char((n / 10) % 10),
    ).push(digit_char(n % 10))
}

/// The four bytes of `addr`, most significant first, as decimal numbers
/// separated by dots.
pub open spec fn dotted_quad(addr: u32) -> Seq<char> {
    decimal((addr as nat) / 16777216) + seq!['.'] + decimal(((addr as nat) / 65536) % 256)
        + seq!['.'] + decimal(((addr as nat) / 256) % 256) + seq!['.'] + decimal(
        (addr as nat) % 256,
    )
}

/// The items of `parts` in order, with `sep` between each two neighbours.
pub open spec fn joined(parts: Seq<Seq<char>>, sep: Seq<char>) -> Seq<char>
    decreases parts.len(),
{
    if parts.len() == 0 {
        Seq::empty()
    } else if parts.len() == 1 {
        parts[0]
    } else {
        joined(parts.drop_last(), sep) + sep + parts.last()
    }
}

/// `String::push` of the standard library: appends one character.
#[verifier::external_body]
pub(crate) fn push_char(s: &mut String, c: char)
    ensures
        final(s)@ == old(s)@.push(c),
{
    s.push(c)
}

/// `String::push_str` of the standard library: appends a string slice.
#[verifier::external_body]
pub(crate) fn push_text(s: &mut String, t: &str)
    ensures
        final(s)@ == old(s)@ + t@,
{
    s.push_str(t)
}

/// The character of the decimal digit `d`.
pub fn digit(d: u8) -> (c: char)
    requires
        d < 10,
    ensures
        c == digit_char(d as nat),
{
    if d == 0 {
        '0'
    } else if d == 1 {
        '1'
    } else if d == 2 {
        '2'
    } else if d == 3 {
        '3'
    } else if d == 4 {
        '4'
    } else if d == 5 {
        '5'
    } else if d == 6 {
        '6'
    } else if d == 7 {
        '7'
    } else if d == 8 {
        '8'
    } else {
        '9'
    }
}

/// Appends the decimal numeral of `n` to `s`.
pub fn push_decimal(s: &mut String, n: u64)
    ensures
        final(s)@ == old(s)@ + decimal(n as nat),
    decreases n,
{
    if n >= 10 {
        push_decimal(s, n / 10);
    }
    let d: u8 = (n % 10) as u8;
    push_char(s, digit(d));
    proof {
        assert(final(s)@ =~= old(s)@ + decimal(n as nat));
    }
}

/// The decimal numeral of `n`.
pub fn decimal_string(n: u64) -> (s: String)
    ensures
        s@ == decimal(n as nat),
{
    let mut s = String::new();
    push_decimal(&mut s, n);
    proof {
        assert(s@ =~= decimal(n as nat));
    }
    s
}

/// A fresh string with the characters of `t`.
pub fn text_of(t: &str) -> (s: String)
    ensures
        s@ == t@,
{
    t.to_owned()
}

/// `n` thousandths as text: the whole part, a dot, three decimals.
pub fn milli_string(n: u64) -> (s: String)
    ensures
        s@ == milli_text(n as nat),
{
    let mut s = String::new();
    push_decimal(&mut s, n / 1000);
    push_char(&mut s, '.');
    push_char(&mut s, digit(((n / 100) % 10) as u8));
    push_char(&mut s, digit(((n / 10) % 10) as u8));
    push_char(&mut s, digit((n % 10) as u8));
    proof {
        assert(s@ =~= milli_text(n as nat));
    }
    s
}

/// Appends the dotted quad of `addr` to `s`.
pub fn push_dotted_quad(s: &mut String, addr: u32)
    ensures
        final(s)@ == old(s)@ + dotted_quad(addr),
{
    push_decimal(s, (addr / 16777216) as u64);
    push_char(s, '.');
    push_decimal(s, ((addr / 65536) % 256) as u64);
    push_char(s, '.');
    push_decimal(s, ((addr / 256) % 256) as u64);
    push_char(s, '.');
    push_decimal(s, (addr % 256) as u64);
    proof {
        assert(final(s)@ =~= old(s)@ + dotted_quad(addr));
    }
}

/// The views of a sequence of strings, in order.
pub open spec fn texts_of(texts: Seq<String>) -> Seq<Seq<char>> {
    texts.map_values(|t: String| t@)
}

/// The items of `parts` in order, with `sep` between each two neighbours.
pub fn join_texts(parts: &Vec<String>, sep: &str) -> (s: String)
    ensures
        s@ == joined(texts_of(parts@), sep@),
{
    let mut s = String::new();
    let mut i: usize = 0;
    while i < parts.len()
        invariant
            i <= parts.len(),
            s@ == joined(texts_of(parts@.take(i as int)), sep@),
        decreases parts.len() - i,
    {
        if i > 0 {
            push_text(&mut s, sep);
        }
        push_text(&mut s, parts[i].as_str());
        proof {
            let before = texts_of(parts@.take(i as int));
            let after = texts_of(parts@.take(i + 1));
            assert(after.drop_last() =~= before);
            assert(after.last() == parts@[i as int]@);
            if i == 0 {
                assert(s@ =~= after[0]);
            }
        }
        i += 1;
    }
    proof {
        assert(parts@.take(parts.len() as int) =~= parts@);
    }
    s
}

} // verus!
