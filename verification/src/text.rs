//! Texts of messages.

use vstd::prelude::*;

verus! {

/// The character of a decimal digit.
pub open spec fn digit(d: int) -> char {
    ('0' as u32 + d) as char
}

/// The decimal notation of `n`.
pub open spec fn decimal(n: int) -> Seq<char>
    decreases n,
{
    if n < 10 {
        seq![digit(n)]
    } else {
        decimal(n / 10).push(digit(n % 10))
    }
}

/// Calls the standard library's `to_string` of `usize`, which gives the
/// decimal notation.
#[verifier::external_body]
pub(crate) fn decimal_text(n: usize) -> (r: String)
    ensures
        r@ == decimal(n as int),
{
    n.to_string()
}

/// The text `head`, `a` in decimal, `middle`, `b` in decimal, `tail`.
pub(crate) fn with_numbers(head: &str, a: usize, middle: &str, b: usize, tail: &str) -> (r: String)
    ensures
        r@ == head@ + decimal(a as int) + middle@ + decimal(b as int) + tail@,
{
    let mut out = head.to_owned();
    let first = decimal_text(a);
    let second = decimal_text(b);
    out.append(first.as_str());
    out.append(middle);
    out.append(second.as_str());
    out.append(tail);
    out
}

/// The text `head` and `a` in decimal.
pub(crate) fn with_number(head: &str, a: usize) -> (r: String)
    ensures
        r@ == head@ + decimal(a as int),
{
    let mut out = head.to_owned();
    let first = decimal_text(a);
    out.append(first.as_str());
    out
}

/// The text `head`, `a` in decimal, `tail`.
pub(crate) fn with_number_inside(head: &str, a: usize, tail: &str) -> (r: String)
    ensures
        r@ == head@ + decimal(a as int) + tail@,
{
    let mut out = with_number(head, a);
    out.append(tail);
    out
}

} // verus!
