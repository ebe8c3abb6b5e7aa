//! Building the textual lines handed to the renderer: a path, one space, and
//! a decimal weight.

use vstd::prelude::*;

verus! {

/// Relies on String::push: appends one character at the end of the string.
#[verifier::external_body]
pub(crate) fn push_char(s: &mut String, c: char)
    ensures
        final(s)@ == old(s)@.push(c),
{
    s.push(c);
}

/// The character for one decimal digit.
pub open spec fn spec_digit(d: int) -> char {
    ((0x30 + d) as u8) as char
}

/// The decimal numeral of a non-negative number, most significant digit
/// first, with no leading zeros (a single zero for zero itself).
pub open spec fn spec_dec(n: int) -> Seq<char>
    decreases n,
{
    if n < 10 {
        seq![spec_digit(n)]
    } else {
        spec_dec(n / 10).push(spec_digit(n % 10))
    }
}

/// Formats a number as its decimal numeral.
pub fn u64_to_string(n: u64) -> (r: String)
    ensures
        r@ == spec_dec(n as int),
    decreases n,
{
    let digit: u8 = (n % 10) as u8;
    let c = (0x30 + digit) as char;
    assert(c == spec_digit(n as int % 10));
    if n < 10 {
        let mut s = String::new();
        push_char(&mut s, c);
        assert(s@ =~= seq![spec_digit(n as int)]);
        s
    } else {
        let mut s = u64_to_string(n / 10);
        push_char(&mut s, c);
        s
    }
}

/// The textual form of one weighted line: the path, a space, the weight.
pub open spec fn spec_line_text(name: Seq<char>, duration: u64) -> Seq<char> {
    name + seq![' '] + spec_dec(duration as int)
}

/// Formats one weighted line, or nothing if the weight is zero: zero-weight
/// lines carry no visual information and are dropped from all output.
pub fn format_line(name: &str, duration: u64) -> (r: Option<String>)
    ensures
        duration == 0 ==> r is None,
        duration != 0 ==> (r matches Some(s) && s@ == spec_line_text(name@, duration)),
{
    if duration == 0 {
        None
    } else {
        let mut s = name.to_owned();
        push_char(&mut s, ' ');
        let num = u64_to_string(duration);
        s.append(num.as_str());
        assert(s@ =~= spec_line_text(name@, duration));
        Some(s)
    }
}

} // verus!
