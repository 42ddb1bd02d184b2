//! Content hashes: 32 bytes, rendered as 64 hexadecimal digits.

use vstd::prelude::*;

use crate::order::{bytes_before, bytes_lt, bytes_same};

verus! {

broadcast use vstd::array::group_array_axioms;

/// A 256-bit content hash.
#[derive(Debug, Clone, Copy, PartialEq, Eq, Hash)]
pub struct Digest {
    /// The raw bytes.
    pub bytes: [u8; 32],
}

impl View for Digest {
    type V = Seq<u8>;

    open spec fn view(&self) -> Seq<u8> {
        self.bytes@
    }
}

/// What BLAKE3 hashes a byte string to.
pub uninterp spec fn blake3_hash(input: Seq<u8>) -> Seq<u8>;

/// Calls `blake3::hash`: the 32-byte BLAKE3 hash of the input, which is a
/// function of the input alone.
#[verifier::external_body]
fn blake3_digest(input: &[u8]) -> (r: Digest)
    ensures
        r@ == blake3_hash(input@),
{
    Digest { bytes: *blake3::hash(input).as_bytes() }
}

/// The lowercase hexadecimal digit of a value below sixteen.
pub open spec fn hex_digit(n: int) -> char {
    if n < 10 {
        ('0' as int + n) as char
    } else {
        ('a' as int + n - 10) as char
    }
}

/// The hexadecimal rendering of a byte string, high digit first.
pub open spec fn hex_text(bytes: Seq<u8>) -> Seq<char> {
    Seq::new(
        2 * bytes.len(),
        |i: int|
            if i % 2 == 0 {
                hex_digit(bytes[i / 2] as int / 16)
            } else {
                hex_digit(bytes[i / 2] as int % 16)
            },
    )
}

/// The value of a hexadecimal digit of either case.
pub open spec fn hex_value(c: char) -> Option<int> {
    if '0' <= c <= '9' {
        Some(c as int - '0' as int)
    } else if 'a' <= c <= 'f' {
        Some(c as int - 'a' as int + 10)
    } else if 'A' <= c <= 'F' {
        Some(c as int - 'A' as int + 10)
    } else {
        None
    }
}

/// Whether text is the hexadecimal rendering, in either case, of 32 bytes.
pub open spec fn is_hash_hex(text: Seq<char>) -> bool {
    text.len() == 64 && forall|i: int| 0 <= i < 64 ==> hex_value(#[trigger] text[i]) is Some
}

/// The 32 bytes that 64 hexadecimal digits stand for.
pub open spec fn hash_hex_bytes(text: Seq<char>) -> Seq<u8> {
    Seq::new(
        32,
        |i: int| (16 * hex_value(text[2 * i])->0 + hex_value(text[2 * i + 1])->0) as u8,
    )
}

/// Calls `blake3::Hash::to_hex`, which renders the 32 bytes as 64 lowercase
/// hexadecimal digits, the high digit of each byte first.
#[verifier::external_body]
fn blake3_to_hex(digest: &Digest) -> (r: String)
    ensures
        r@ == hex_text(digest@),
{
    blake3::Hash::from_bytes(digest.bytes).to_hex().to_string()
}

/// Calls `blake3::Hash::from_hex`, which accepts exactly 64 hexadecimal digits
/// of either case and gives the bytes they stand for.
#[verifier::external_body]
fn blake3_from_hex(text: &str) -> (r: Option<Digest>)
    ensures
        r is Some <==> is_hash_hex(text@),
        r is Some ==> r->0@ == hash_hex_bytes(text@),
{
    match blake3::Hash::from_hex(text) {
        Ok(hash) => Some(Digest { bytes: *hash.as_bytes() }),
        Err(_) => None,
    }
}

/// Reading a rendered hash gives the hash back.
pub proof fn hex_roundtrip(bytes: Seq<u8>)
    requires
        bytes.len() == 32,
    ensures
        is_hash_hex(hex_text(bytes)),
        hash_hex_bytes(hex_text(bytes)) == bytes,
{
    let text = hex_text(bytes);
    assert forall|i: int| 0 <= i < 64 implies hex_value(#[trigger] text[i]) is Some by {}
    assert forall|i: int| 0 <= i < 32 implies hash_hex_bytes(text)[i] == bytes[i] by {
        let b = bytes[i] as int;
        assert(text[2 * i] == hex_digit(b / 16));
        assert(text[2 * i + 1] == hex_digit(b % 16));
        assert(hex_value(text[2 * i]) == Some(b / 16));
        assert(hex_value(text[2 * i + 1]) == Some(b % 16));
    }
    assert(hash_hex_bytes(text) =~= bytes);
}

impl Digest {
    /// The hash of a byte string.
    pub fn of(input: &[u8]) -> (r: Digest)
        ensures
            r@ == blake3_hash(input@),
    {
        blake3_digest(input)
    }

    /// Wrap raw bytes.
    pub fn from_bytes(bytes: [u8; 32]) -> (r: Digest)
        ensures
            r.bytes == bytes,
            r@ == bytes@,
    {
        Digest { bytes }
    }

    /// The raw bytes.
    pub fn as_bytes(&self) -> (r: &[u8; 32])
        ensures
            *r == self.bytes,
            r@ == self@,
    {
        &self.bytes
    }

    /// The 64 lowercase hexadecimal digits of the hash.
    pub fn to_hex(&self) -> (r: String)
        ensures
            r@ == hex_text(self@),
    {
        blake3_to_hex(self)
    }

    /// The hash that 64 hexadecimal digits, of either case, stand for; `None`
    /// for any other text.
    pub fn from_hex(text: &str) -> (r: Option<Digest>)
        ensures
            r is Some <==> is_hash_hex(text@),
            r is Some ==> r->0@ == hash_hex_bytes(text@),
    {
        blake3_from_hex(text)
    }

    /// Whether two hashes are the same.
    pub fn same(&self, other: &Digest) -> (r: bool)
        ensures
            r == (self@ == other@),
            r == (*self == *other),
    {
        let r = bytes_same(self.bytes.as_slice(), other.bytes.as_slice());
        proof {
            if self@ == other@ {
                assert forall|i: int| 0 <= i < 32 implies self.bytes[i] == other.bytes[i] by {
                    assert(self@[i] == other@[i]);
                }
                assert(self.bytes =~= other.bytes);
            }
        }
        r
    }

    /// Whether this hash precedes another in the order of their bytes.
    pub fn before(&self, other: &Digest) -> (r: bool)
        ensures
            r == bytes_lt(self@, other@),
    {
        bytes_before(self.bytes.as_slice(), other.bytes.as_slice())
    }
}

} // verus!
