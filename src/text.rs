use vstd::prelude::*;
use vstd::utf8::{decode_utf8, encode_utf8, is_ascii_chars, valid_utf8};

verus! {

#[verifier::external_type_specification]
#[verifier::external_body]
pub struct ExFromUtf8Error(std::string::FromUtf8Error);

/// Relies on `String::from_utf8`: it succeeds exactly when the bytes are valid
/// UTF-8, and the string then holds the characters they encode.
#[verifier::external_body]
pub(crate) fn string_from_utf8(bytes: Vec<u8>) -> (r: Result<String, std::string::FromUtf8Error>)
    ensures
        r is Ok <==> valid_utf8(bytes@),
        r matches Ok(s) ==> s@ == decode_utf8(bytes@),
{
    String::from_utf8(bytes)
}

/// The character of a decimal digit.
pub open spec fn digit_char(d: nat) -> char {
    ((48 + d) as u8) as char
}

/// The decimal form of `n`, without leading zeros.
pub open spec fn decimal_of(n: nat) -> Seq<char>
    decreases n,
{
    if n < 10 {
        seq![digit_char(n)]
    } else {
        decimal_of(n / 10) + seq![digit_char(n % 10)]
    }
}

/// The decimal digits of `n`, as ASCII bytes.
fn decimal_bytes(n: u32) -> (r: Vec<u8>)
    ensures
        r@.map_values(|b: u8| b as char) == decimal_of(n as nat),
        forall|i: int| 0 <= i < r@.len() ==> 48 <= #[trigger] r@[i] <= 57,
{
    let mut tail: Vec<u8> = Vec::new();
    let mut m: u32 = n;
    while m >= 10
        invariant
            decimal_of(n as nat) == decimal_of(m as nat) + tail@.map_values(|b: u8| b as char),
            forall|i: int| 0 <= i < tail@.len() ==> 48 <= #[trigger] tail@[i] <= 57,
        decreases m,
    {
        let d: u8 = (m % 10) as u8;
        let ghost old_tail = tail@;
        tail.insert(0, 48 + d);
        assert(tail@.map_values(|b: u8| b as char) =~= seq![digit_char((m % 10) as nat)]
            + old_tail.map_values(|b: u8| b as char));
        assert(decimal_of(m as nat) == decimal_of((m / 10) as nat) + seq![digit_char((m % 10) as nat)]);
        m = m / 10;
    }
    let ghost old_tail = tail@;
    tail.insert(0, 48 + m as u8);
    assert(tail@.map_values(|b: u8| b as char) =~= seq![digit_char(m as nat)] + old_tail.map_values(
        |b: u8| b as char,
    ));
    assert(decimal_of(m as nat) == seq![digit_char(m as nat)]);
    tail
}

/// The decimal form of `n`.
pub(crate) fn decimal_string(n: u32) -> (r: String)
    ensures
        r@ == decimal_of(n as nat),
{
    let bytes = decimal_bytes(n);
    proof {
        broadcast use vstd::utf8::group_utf8_lib;

        let chars = decimal_of(n as nat);
        assert(is_ascii_chars(chars));
        assert(encode_utf8(chars) =~= bytes@);
    }
    let r = string_from_utf8(bytes);
    r.unwrap()
}

} // verus!
