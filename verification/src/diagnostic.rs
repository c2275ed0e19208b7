//! Positioned diagnostics shared by the scanner and the parser.
//!
//! Both stages report a failure as the same multi-line text: a headline that
//! names the offending character and its position, the source line, and a
//! caret marker under the offending column.

use vstd::prelude::*;
use vstd::string::*;

verus! {

/// The character that writes the decimal digit `d`.
pub open spec fn digit_char(d: nat) -> char {
    if d == 0 {
        '0'
    } else if d == 1 {
        '1'
    } else if d == 2 {
        '2'
    } else if d == 3 {
        '3'
    } else if d == 4 {
        '4'
    } else if d == 5 {
        '5'
    } else if d == 6 {
        '6'
    } else if d == 7 {
        '7'
    } else if d == 8 {
        '8'
    } else {
        '9'
    }
}

/// The decimal numeral of `n`, most significant digit first, without padding.
pub open spec fn decimal(n: nat) -> Seq<char>
    decreases n,
{
    if n < 10 {
        seq![digit_char(n)]
    } else {
        decimal(n / 10).push(digit_char(n % 10))
    }
}

/// A run of `n` space characters.
pub open spec fn spaces(n: nat) -> Seq<char> {
    Seq::new(n, |i: int| ' ')
}

/// The diagnostic text for the character `found` at position `pos` of `source`.
pub open spec fn diagnostic(source: Seq<char>, found: char, pos: nat) -> Seq<char> {
    "Invalid character '"@ + seq![found] + "' at pos "@ + decimal(pos) + "\n\n"@ + source + "\n"@
        + spaces(pos) + "^^^\n"@
}

/// The character at index `i` of `s`, counted in characters.
pub open spec fn char_at(s: Seq<char>, i: nat) -> Option<char> {
    if i < s.len() {
        Some(s[i as int])
    } else {
        None
    }
}

fn digit(d: usize) -> (c: char)
    requires
        d < 10,
    ensures
        c == digit_char(d as nat),
{
    if d == 0 {
        '0'
    } else if d == 1 {
        '1'
    } else if d == 2 {
        '2'
    } else if d == 3 {
        '3'
    } else if d == 4 {
        '4'
    } else if d == 5 {
        '5'
    } else if d == 6 {
        '6'
    } else if d == 7 {
        '7'
    } else if d == 8 {
        '8'
    } else {
        '9'
    }
}

/// Appends the decimal numeral of `n` to `out`.
pub fn push_decimal(out: &mut String, n: usize)
    ensures
        final(out)@ == old(out)@ + decimal(n as nat),
    decreases n,
{
    if n >= 10 {
        push_decimal(out, n / 10);
    }
    out.push(digit(n % 10));
}

/// Appends `n` spaces to `out`.
pub fn push_spaces(out: &mut String, n: usize)
    ensures
        final(out)@ == old(out)@ + spaces(n as nat),
{
    let mut k: usize = 0;
    while k < n
        invariant
            k <= n,
            out@ == old(out)@ + spaces(k as nat),
        decreases n - k,
    {
        out.push(' ');
        k += 1;
    }
}

/// Looks up the character at index `i` of `s`, counted in characters.
pub fn get_char_at_index(s: &String, i: usize) -> (c: Option<char>)
    ensures
        c == char_at(s@, i as nat),
{
    if i < s.as_str().unicode_len() {
        Some(s.as_str().get_char(i))
    } else {
        None
    }
}

/// Builds the diagnostic for the character `found` at position `pos` of `source`.
pub fn invalid_char_error(source: &String, found: char, pos: usize) -> (msg: String)
    ensures
        msg@ == diagnostic(source@, found, pos as nat),
{
    let mut msg = String::from_str("Invalid character '");
    msg.push(found);
    msg.append("' at pos ");
    push_decimal(&mut msg, pos);
    msg.append("\n\n");
    msg.append(source.as_str());
    msg.append("\n");
    push_spaces(&mut msg, pos);
    msg.append("^^^\n");
    msg
}

} // verus!
