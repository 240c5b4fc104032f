//! Text that the client shows or sends: lowercase hex and decimal numbers.
use vstd::prelude::*;
use vstd::string::StringExecFns;

use crate::decimal::nat_text;

verus! {

/// The lowercase hex digit of `d`.
pub open spec fn hex_digit(d: int) -> char {
    if d < 10 {
        (d + 48) as char
    } else {
        (d + 87) as char
    }
}

/// Two lowercase hex digits for each byte, high nibble first.
pub open spec fn hex_text(b: Seq<u8>) -> Seq<char>
    decreases b.len(),
{
    if b.len() == 0 {
        Seq::empty()
    } else {
        hex_text(b.drop_last()) + seq![hex_digit(b.last() as int / 16), hex_digit(b.last() as int % 16)]
    }
}

/// The characters of ASCII bytes.
pub open spec fn ascii_chars(b: Seq<u8>) -> Seq<char> {
    Seq::new(b.len(), |i: int| b[i] as char)
}

/// Relies on `hex::encode`: two lowercase hex digits for each byte, high nibble first.
#[verifier::external_body]
pub(crate) fn hex_encode(b: &[u8]) -> (r: String)
    ensures
        r@ == hex_text(b@),
{
    hex::encode(b)
}

/// Relies on `String::push`: appends one character.
#[verifier::external_body]
pub(crate) fn push_char(s: &mut String, c: char)
    ensures
        final(s)@ == old(s)@.push(c),
{
    s.push(c)
}

/// Appends the characters of ASCII bytes.
pub fn push_ascii(s: &mut String, b: &[u8])
    ensures
        final(s)@ == old(s)@ + ascii_chars(b@),
{
    let mut k: usize = 0;
    while k < b.len()
        invariant
            k <= b@.len(),
            s@ == old(s)@ + ascii_chars(b@.subrange(0, k as int)),
        decreases b@.len() - k,
    {
        push_char(s, b[k] as char);
        k = k + 1;
        assert(ascii_chars(b@.subrange(0, k as int)) =~= ascii_chars(b@.subrange(0, k - 1)).push(
            b@[k - 1] as char,
        ));
        assert(s@ =~= old(s)@ + ascii_chars(b@.subrange(0, k as int)));
    }
    assert(b@.subrange(0, k as int) =~= b@);
}

/// Appends the decimal text of `n`.
pub fn push_decimal(s: &mut String, n: u64)
    ensures
        final(s)@ == old(s)@ + ascii_chars(nat_text(n as nat)),
{
    let mut digits: Vec<u8> = Vec::new();
    crate::decimal::write_nat(&mut digits, n);
    assert(digits@ =~= nat_text(n as nat));
    push_ascii(s, digits.as_slice());
}

/// Appends `t`.
pub fn push_str(s: &mut String, t: &str)
    ensures
        final(s)@ == old(s)@ + t@,
{
    s.append(t);
}

} // verus!
