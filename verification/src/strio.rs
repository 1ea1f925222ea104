//! Conversions between bytes, numbers and strings that rest on std.

use vstd::prelude::*;

verus! {

/// The decimal digits of a number, most significant first.
pub open spec fn dec_chars(n: nat) -> Seq<char>
    decreases n,
{
    let digit = seq![((n % 10 + 48) as u8) as char];
    if n < 10 {
        digit
    } else {
        dec_chars(n / 10) + digit
    }
}

/// Relies on the `Display` implementation of `usize`, through `format!`:
/// it writes the decimal digits of the value, most significant first, with
/// no sign and no padding.
#[verifier::external_body]
pub fn usize_to_string(v: usize) -> (r: String)
    ensures
        r@ == dec_chars(v as nat),
{
    format!("{}", v)
}

/// Relies on `String::from_utf8`: it returns a string holding exactly the
/// given bytes when they are valid UTF-8, and an error otherwise.
#[verifier::external_body]
pub fn bytes_to_string(v: Vec<u8>) -> (r: Option<String>)
    ensures
        r is Some <==> vstd::utf8::valid_utf8(v@),
        r is Some ==> vstd::utf8::encode_utf8(r->Some_0@) == v@,
{
    match String::from_utf8(v) {
        Result::Ok(s) => Option::Some(s),
        Result::Err(_) => Option::None,
    }
}

} // verus!
