//! Nominal identities: 128-bit uuids and their text.

use vstd::prelude::*;

use crate::digest::{hex_text, hex_value};

verus! {

broadcast use {vstd::string::group_string_axioms, vstd::array::group_array_axioms};

/// Whether text is the hyphenated form of a uuid: hexadecimal digits in groups
/// of eight, four, four, four and twelve.
pub open spec fn is_hyphenated_uuid(text: Seq<char>) -> bool {
    text.len() == 36 && forall|i: int|
        0 <= i < 36 ==> if i == 8 || i == 13 || i == 18 || i == 23 {
            #[trigger] text[i] == '-'
        } else {
            hex_value(text[i]) is Some
        }
}

/// Whether a character is a given lowercase letter in either case.
pub open spec fn is_letter(c: char, lower: char) -> bool {
    c == lower || c as int == lower as int - 32
}

/// Whether text begins with `urn:uuid:`, its letters in either case.
pub open spec fn has_urn_prefix(text: Seq<char>) -> bool {
    text.len() >= 9 && is_letter(text[0], 'u') && is_letter(text[1], 'r') && is_letter(
        text[2],
        'n',
    ) && text[3] == ':' && is_letter(text[4], 'u') && is_letter(text[5], 'u') && is_letter(
        text[6],
        'i',
    ) && is_letter(text[7], 'd') && text[8] == ':'
}

/// Whether text is a uuid: 32 hexadecimal digits, the hyphenated form, the
/// hyphenated form in braces, or the hyphenated form behind `urn:uuid:`.
pub open spec fn is_uuid_text(text: Seq<char>) -> bool {
    ||| text.len() == 32 && forall|i: int| 0 <= i < 32 ==> hex_value(#[trigger] text[i]) is Some
    ||| is_hyphenated_uuid(text)
    ||| text.len() == 38 && text[0] == '{' && text[37] == '}' && is_hyphenated_uuid(
        text.subrange(1, 37),
    )
    ||| text.len() == 45 && has_urn_prefix(text) && is_hyphenated_uuid(text.subrange(9, 45))
}

/// Calls `uuid::Uuid::parse_str`, which succeeds on exactly the four textual
/// forms of a uuid.
#[verifier::external_body]
pub(crate) fn parses_as_uuid(text: &str) -> (r: bool)
    ensures
        r == is_uuid_text(text@),
{
    uuid::Uuid::parse_str(text).is_ok()
}

/// The hyphenated lowercase text of a uuid.
pub open spec fn uuid_text(bytes: Seq<u8>) -> Seq<char> {
    let hex = hex_text(bytes);
    hex.subrange(0, 8) + seq!['-'] + hex.subrange(8, 12) + seq!['-'] + hex.subrange(12, 16)
        + seq!['-'] + hex.subrange(16, 20) + seq!['-'] + hex.subrange(20, 32)
}

/// Calls the `Display` of `uuid::Uuid`, which writes the hyphenated form in
/// lowercase.
#[verifier::external_body]
pub(crate) fn uuid_to_text(bytes: &[u8; 16]) -> (r: String)
    ensures
        r@ == uuid_text(bytes@),
{
    uuid::Uuid::from_bytes(*bytes).to_string()
}

} // verus!
