use vstd::prelude::*;
use vstd::string::StringExecFns;

verus! {

/// The character that writes the digit `d` in lower-case hexadecimal; for `d` below
/// ten this is also its decimal digit.
pub open spec fn digit_char(d: int) -> char {
    if d == 0 {
        '0'
    } else if d == 1 {
        '1'
    } else if d == 2 {
        '2'
    } else if d == 3 {
        '3'
    } else if d == 4 {
        '4'
    } else if d == 5 {
        '5'
    } else if d == 6 {
        '6'
    } else if d == 7 {
        '7'
    } else if d == 8 {
        '8'
    } else if d == 9 {
        '9'
    } else if d == 10 {
        'a'
    } else if d == 11 {
        'b'
    } else if d == 12 {
        'c'
    } else if d == 13 {
        'd'
    } else if d == 14 {
        'e'
    } else {
        'f'
    }
}

/// A byte as two lower-case hexadecimal digits.
pub open spec fn hex_pair(byte: u8) -> Seq<char> {
    seq![digit_char(byte as int / 16), digit_char(byte as int % 16)]
}

/// A number in decimal, without leading zeros.
pub open spec fn decimal(n: nat) -> Seq<char>
    decreases n,
{
    if n < 10 {
        seq![digit_char(n as int)]
    } else {
        decimal(n / 10).push(digit_char((n % 10) as int))
    }
}

/// `count` zeros.
pub open spec fn zeros(count: int) -> Seq<char> {
    Seq::new(if count > 0 { count as nat } else { 0 }, |i: int| '0')
}

/// A number in decimal, with zeros in front until it has at least `width` digits.
pub open spec fn zero_padded(n: nat, width: nat) -> Seq<char> {
    zeros(width - decimal(n).len()) + decimal(n)
}

/// The one-character text of a digit below sixteen.
pub(crate) fn digit_text(d: u8) -> (text: &'static str)
    requires
        d < 16,
    ensures
        text@ == seq![digit_char(d as int)],
{
    proof {
        reveal_strlit("0");
        reveal_strlit("1");
        reveal_strlit("2");
        reveal_strlit("3");
        reveal_strlit("4");
        reveal_strlit("5");
        reveal_strlit("6");
        reveal_strlit("7");
        reveal_strlit("8");
        reveal_strlit("9");
        reveal_strlit("a");
        reveal_strlit("b");
        reveal_strlit("c");
        reveal_strlit("d");
        reveal_strlit("e");
        reveal_strlit("f");
    }
    match d {
        0 => "0",
        1 => "1",
        2 => "2",
        3 => "3",
        4 => "4",
        5 => "5",
        6 => "6",
        7 => "7",
        8 => "8",
        9 => "9",
        10 => "a",
        11 => "b",
        12 => "c",
        13 => "d",
        14 => "e",
        _ => "f",
    }
}

/// Appends a byte as two hexadecimal digits.
pub(crate) fn append_hex_pair(text: &mut String, byte: u8)
    ensures
        final(text)@ == old(text)@ + hex_pair(byte),
{
    text.append(digit_text(byte / 16));
    text.append(digit_text(byte % 16));
}

/// Number of decimal digits of `n`.
pub(crate) fn decimal_len(n: usize) -> (len: usize)
    ensures
        len == decimal(n as nat).len(),
        1 <= len <= n + 1,
    decreases n,
{
    if n < 10 {
        1
    } else {
        1 + decimal_len(n / 10)
    }
}

/// Appends `n` in decimal.
pub(crate) fn append_decimal(text: &mut String, n: usize)
    ensures
        final(text)@ == old(text)@ + decimal(n as nat),
    decreases n,
{
    if n >= 10 {
        append_decimal(text, n / 10);
    }
    text.append(digit_text((n % 10) as u8));
}

/// Appends `n` in decimal, padded with zeros in front to at least `width` digits.
pub(crate) fn append_zero_padded(text: &mut String, n: usize, width: usize)
    ensures
        final(text)@ == old(text)@ + zero_padded(n as nat, width as nat),
{
    let len = decimal_len(n);
    let mut written = len;
    while written < width
        invariant
            len <= written,
            written <= width || written == len,
            text@ == old(text)@ + zeros(written - len),
        decreases width - written,
    {
        proof {
            reveal_strlit("0");
        }
        text.append("0");
        written = written + 1;
    }
    append_decimal(text, n);
}

} // verus!
