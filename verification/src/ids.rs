//! Identifiers. A UUID is held as its 128-bit value; its text is the
//! hyphenated lowercase form the `uuid` crate writes and reads.

use vstd::prelude::*;

verus! {

pub open spec fn pow16(n: nat) -> int
    decreases n,
{
    if n == 0 {
        1
    } else {
        16 * pow16((n - 1) as nat)
    }
}

/// The `k`-th hexadecimal digit of `u`, counting from the most significant (0..32).
pub open spec fn nibble(u: u128, k: int) -> int {
    (u as int / pow16((31 - k) as nat)) % 16
}

pub open spec fn hex_digit(n: int) -> char {
    if n < 10 {
        (48 + n) as char
    } else {
        (87 + n) as char
    }
}

/// Position among the 32 digits of text position `i` of the hyphenated form.
pub open spec fn digit_index(i: int) -> int {
    if i < 8 {
        i
    } else if i < 13 {
        i - 1
    } else if i < 18 {
        i - 2
    } else if i < 23 {
        i - 3
    } else {
        i - 4
    }
}

/// The hyphenated lowercase text of a UUID (`8-4-4-4-12` hexadecimal digits).
pub open spec fn uuid_text(u: u128) -> Seq<char> {
    Seq::new(
        36,
        |i: int|
            if i == 8 || i == 13 || i == 18 || i == 23 {
                '-'
            } else {
                hex_digit(nibble(u, digit_index(i)))
            },
    )
}

/// What `uuid::Uuid::parse_str` gives for a text: the UUID's value, or nothing when
/// the text is not a UUID in one of the forms the crate accepts.
pub uninterp spec fn uuid_parse(s: Seq<char>) -> Option<u128>;

/// `uuid::Uuid::from_u128(u).hyphenated().to_string()`: claimed to be the hyphenated
/// lowercase hexadecimal text of `u`, most significant digit first, as the crate
/// documents for `from_u128` and `hyphenated`, and to parse back to `u` (`parse_str`
/// reads the hyphenated form).
#[verifier::external_body]
pub(crate) fn format_uuid(u: u128) -> (r: String)
    ensures
        r@ == uuid_text(u),
        uuid_parse(r@) == Some(u),
{
    uuid::Uuid::from_u128(u).hyphenated().to_string()
}

/// `uuid::Uuid::parse_str(s)` as a 128-bit value: claimed to equal `uuid_parse(s)`, and
/// to give back `u` for the hyphenated text of `u` (the crate parses every form it
/// writes).
#[verifier::external_body]
pub(crate) fn parse_uuid(s: &str) -> (r: Option<u128>)
    ensures
        r == uuid_parse(s@),
        forall|u: u128| s@ == uuid_text(u) ==> r == Some(u),
{
    match uuid::Uuid::parse_str(s) {
        Ok(u) => Some(u.as_u128()),
        Err(_) => None,
    }
}

/// A fresh random (version 4) UUID, `uuid::Uuid::new_v4()`. Nothing is claimed of
/// its value.
#[verifier::external_body]
pub(crate) fn new_uuid() -> (r: u128) {
    uuid::Uuid::new_v4().as_u128()
}

} // verus!
