//! The byte encoding that manifests, stored objects and pre-link forms share:
//! little-endian `u32` lengths, length-prefixed text, fixed-size hashes, and
//! one tag byte before an optional part.
//!
//! An encoded value is read back exactly, and no two byte strings read back as
//! the same value.

use vstd::bytes::*;
use vstd::prelude::*;
use vstd::utf8::*;

use crate::digest::Digest;

verus! {

broadcast use {
    vstd::string::group_string_axioms,
    vstd::array::group_array_axioms,
    vstd::slice::group_slice_axioms,
};

/// Why bytes could not be read.
#[derive(Debug, Clone, Copy, PartialEq, Eq, Structural)]
pub enum WireError {
    /// The input ended too early.
    Truncated,
    /// Text was not valid UTF-8.
    InvalidUtf8,
    /// An unexpected tag byte.
    BadTag(u8),
    /// An embedded object did not decode, or was of the wrong sort.
    BadObject(ObjectFault),
}

/// What is wrong with the bytes of a stored object.
#[derive(Debug, Clone, Copy, PartialEq, Eq, Structural)]
pub enum ObjectFault {
    /// The input ended too early.
    Truncated,
    /// Text was not valid UTF-8.
    InvalidUtf8,
    /// An unexpected tag byte.
    BadTag(u8),
    /// Bytes remained after a complete object.
    TrailingBytes,
    /// A constant that no object can hold.
    UnsupportedConstant,
    /// A group-internal reference to a member that the group does not have.
    BadInternalRef(u32),
    /// An object of another sort stood where a plain function was expected.
    NotPlain,
}

/// Calls `std::str::from_utf8`: text for exactly the valid UTF-8 byte strings,
/// holding the characters that the bytes encode.
#[verifier::external_body]
fn text_from_utf8(raw: &[u8]) -> (r: Option<String>)
    ensures
        r is Some <==> valid_utf8(raw@),
        r is Some ==> r->0@ == decode_utf8(raw@),
{
    match std::str::from_utf8(raw) {
        Ok(text) => Some(text.to_string()),
        Err(_) => None,
    }
}

/// Bytes being read, and how far the reading has come.
pub struct Reader<'a> {
    /// All of the input.
    pub bytes: &'a [u8],
    /// How many bytes have been read.
    pub pos: usize,
}

impl<'a> Reader<'a> {
    /// Whether the position lies within the input.
    pub open spec fn wf(&self) -> bool {
        self.pos <= self.bytes@.len()
    }

    /// What is left to read.
    pub open spec fn rest(&self) -> Seq<u8> {
        self.bytes@.skip(self.pos as int)
    }

    /// Start reading.
    pub fn new(bytes: &'a [u8]) -> (r: Reader<'a>)
        ensures
            r.wf(),
            r.bytes@ == bytes@,
            r.pos == 0,
            r.rest() == bytes@,
    {
        let r = Reader { bytes, pos: 0 };
        assert(r.rest() =~= bytes@);
        r
    }

    /// How many bytes are left.
    pub fn remaining(&self) -> (r: usize)
        requires
            self.wf(),
        ensures
            r == self.rest().len(),
    {
        self.bytes.len() - self.pos
    }

    /// Read `n` bytes.
    pub fn take(&mut self, n: usize) -> (r: Result<&'a [u8], WireError>)
        requires
            old(self).wf(),
        ensures
            final(self).wf(),
            final(self).bytes@ == old(self).bytes@,
            match r {
                Ok(raw) => n <= old(self).rest().len() && raw@ == old(self).rest().take(n as int)
                    && final(self).rest() == old(self).rest().skip(n as int),
                Err(e) => e == WireError::Truncated && old(self).rest().len() < n,
            },
    {
        let left: usize = self.bytes.len() - self.pos;
        if n > left {
            return Err(WireError::Truncated);
        }
        let end: usize = self.pos + n;
        let raw = vstd::slice::slice_subrange(self.bytes, self.pos, end);
        proof {
            assert(raw@ =~= self.rest().take(n as int));
            assert(self.bytes@.skip(end as int) =~= self.rest().skip(n as int));
        }
        self.pos = end;
        Ok(raw)
    }
}

/// A type with a canonical byte encoding.
pub trait Wire: Sized {
    /// What is encoded, apart from its representation in memory.
    type W;

    /// The content of a value.
    spec fn content(&self) -> Self::W;

    /// Whether every length in the content fits its `u32` prefix.
    spec fn fits(w: Self::W) -> bool;

    /// The encoding of a content.
    spec fn bytes(w: Self::W) -> Seq<u8>;

    /// The content that a byte string begins with and the number of bytes it
    /// takes, or why there is none.
    spec fn parse(s: Seq<u8>) -> Result<(Self::W, int), WireError>;

    /// An encoding reads back as what was encoded, whatever follows it.
    proof fn reads_back(w: Self::W, tail: Seq<u8>)
        requires
            Self::fits(w),
        ensures
            Self::parse(Self::bytes(w) + tail) == Ok::<(Self::W, int), WireError>(
                (w, Self::bytes(w).len() as int),
            ),
    ;

    /// What was read is exactly the encoding of the content read.
    proof fn reads_only_encodings(s: Seq<u8>)
        ensures
            Self::parse(s) matches Ok((w, n)) ==> 0 <= n <= s.len() && Self::fits(w)
                && Self::bytes(w) == s.take(n),
    ;

    /// What is cut short reads as the whole does, or ends too early.
    proof fn cut_short(s: Seq<u8>, k: int)
        requires
            0 <= k <= s.len(),
        ensures
            Self::parse(s.take(k)) == Err::<(Self::W, int), WireError>(WireError::Truncated)
                || Self::parse(s.take(k)) == Self::parse(s),
    ;

    /// Append the encoding.
    fn put(&self, out: &mut Vec<u8>)
        ensures
            final(out)@ == old(out)@ + Self::bytes(self.content()),
    ;

    /// Read a value.
    fn get(r: &mut Reader<'_>) -> (res: Result<Self, WireError>)
        requires
            old(r).wf(),
        ensures
            final(r).wf(),
            final(r).bytes@ == old(r).bytes@,
            match Self::parse(old(r).rest()) {
                Ok((w, n)) => res is Ok && res->Ok_0.content() == w && final(r).rest() == old(
                    r,
                ).rest().skip(n),
                Err(e) => res matches Err(f) && f == e,
            },
    ;
}

// ── bytes and integers ──────────────────────────────────────────────────────

impl Wire for u8 {
    type W = u8;

    open spec fn content(&self) -> u8 {
        *self
    }

    open spec fn fits(w: u8) -> bool {
        true
    }

    open spec fn bytes(w: u8) -> Seq<u8> {
        seq![w]
    }

    open spec fn parse(s: Seq<u8>) -> Result<(u8, int), WireError> {
        if s.len() == 0 {
            Err(WireError::Truncated)
        } else {
            Ok((s[0], 1))
        }
    }

    proof fn reads_back(w: u8, tail: Seq<u8>) {
    }

    proof fn reads_only_encodings(s: Seq<u8>) {
        if s.len() > 0 {
            assert(seq![s[0]] =~= s.take(1));
        }
    }

    proof fn cut_short(s: Seq<u8>, k: int) {
        if k > 0 {
            assert(s.take(k)[0] == s[0]);
        }
    }

    fn put(&self, out: &mut Vec<u8>) {
        out.push(*self);
        assert(out@ =~= old(out)@ + seq![*self]);
    }

    fn get(r: &mut Reader<'_>) -> (res: Result<u8, WireError>) {
        let raw = r.take(1)?;
        Ok(raw[0])
    }
}

/// The little-endian bytes of a `u32`.
pub open spec fn u32_bytes(n: u32) -> Seq<u8> {
    spec_u32_to_le_bytes(n)
}

impl Wire for u32 {
    type W = u32;

    open spec fn content(&self) -> u32 {
        *self
    }

    open spec fn fits(w: u32) -> bool {
        true
    }

    open spec fn bytes(w: u32) -> Seq<u8> {
        u32_bytes(w)
    }

    open spec fn parse(s: Seq<u8>) -> Result<(u32, int), WireError> {
        if s.len() < 4 {
            Err(WireError::Truncated)
        } else {
            Ok((spec_u32_from_le_bytes(s.take(4)), 4))
        }
    }

    proof fn reads_back(w: u32, tail: Seq<u8>) {
        lemma_auto_spec_u32_to_from_le_bytes();
        assert((u32_bytes(w) + tail).take(4) =~= u32_bytes(w));
    }

    proof fn reads_only_encodings(s: Seq<u8>) {
        lemma_auto_spec_u32_to_from_le_bytes();
    }

    proof fn cut_short(s: Seq<u8>, k: int) {
        if k >= 4 {
            assert(s.take(k).take(4) =~= s.take(4));
        }
    }

    fn put(&self, out: &mut Vec<u8>) {
        let mut raw = u32_to_le_bytes(*self);
        out.append(&mut raw);
    }

    fn get(r: &mut Reader<'_>) -> (res: Result<u32, WireError>) {
        let raw = r.take(4)?;
        Ok(u32_from_le_bytes(raw))
    }
}

impl Wire for u16 {
    type W = u16;

    open spec fn content(&self) -> u16 {
        *self
    }

    open spec fn fits(w: u16) -> bool {
        true
    }

    open spec fn bytes(w: u16) -> Seq<u8> {
        spec_u16_to_le_bytes(w)
    }

    open spec fn parse(s: Seq<u8>) -> Result<(u16, int), WireError> {
        if s.len() < 2 {
            Err(WireError::Truncated)
        } else {
            Ok((spec_u16_from_le_bytes(s.take(2)), 2))
        }
    }

    proof fn reads_back(w: u16, tail: Seq<u8>) {
        lemma_auto_spec_u16_to_from_le_bytes();
        assert((spec_u16_to_le_bytes(w) + tail).take(2) =~= spec_u16_to_le_bytes(w));
    }

    proof fn reads_only_encodings(s: Seq<u8>) {
        lemma_auto_spec_u16_to_from_le_bytes();
    }

    proof fn cut_short(s: Seq<u8>, k: int) {
        if k >= 2 {
            assert(s.take(k).take(2) =~= s.take(2));
        }
    }

    fn put(&self, out: &mut Vec<u8>) {
        let mut raw = u16_to_le_bytes(*self);
        out.append(&mut raw);
    }

    fn get(r: &mut Reader<'_>) -> (res: Result<u16, WireError>) {
        let raw = r.take(2)?;
        Ok(u16_from_le_bytes(raw))
    }
}

impl Wire for u64 {
    type W = u64;

    open spec fn content(&self) -> u64 {
        *self
    }

    open spec fn fits(w: u64) -> bool {
        true
    }

    open spec fn bytes(w: u64) -> Seq<u8> {
        spec_u64_to_le_bytes(w)
    }

    open spec fn parse(s: Seq<u8>) -> Result<(u64, int), WireError> {
        if s.len() < 8 {
            Err(WireError::Truncated)
        } else {
            Ok((spec_u64_from_le_bytes(s.take(8)), 8))
        }
    }

    proof fn reads_back(w: u64, tail: Seq<u8>) {
        lemma_auto_spec_u64_to_from_le_bytes();
        assert((spec_u64_to_le_bytes(w) + tail).take(8) =~= spec_u64_to_le_bytes(w));
    }

    proof fn reads_only_encodings(s: Seq<u8>) {
        lemma_auto_spec_u64_to_from_le_bytes();
    }

    proof fn cut_short(s: Seq<u8>, k: int) {
        if k >= 8 {
            assert(s.take(k).take(8) =~= s.take(8));
        }
    }

    fn put(&self, out: &mut Vec<u8>) {
        let mut raw = u64_to_le_bytes(*self);
        out.append(&mut raw);
    }

    fn get(r: &mut Reader<'_>) -> (res: Result<u64, WireError>) {
        let raw = r.take(8)?;
        Ok(u64_from_le_bytes(raw))
    }
}

impl Wire for bool {
    type W = bool;

    open spec fn content(&self) -> bool {
        *self
    }

    open spec fn fits(w: bool) -> bool {
        true
    }

    open spec fn bytes(w: bool) -> Seq<u8> {
        if w {
            seq![1u8]
        } else {
            seq![0u8]
        }
    }

    open spec fn parse(s: Seq<u8>) -> Result<(bool, int), WireError> {
        if s.len() == 0 {
            Err(WireError::Truncated)
        } else if s[0] == 0 {
            Ok((false, 1))
        } else if s[0] == 1 {
            Ok((true, 1))
        } else {
            Err(WireError::BadTag(s[0]))
        }
    }

    proof fn reads_back(w: bool, tail: Seq<u8>) {
    }

    proof fn reads_only_encodings(s: Seq<u8>) {
        if s.len() > 0 {
            assert(seq![s[0]] =~= s.take(1));
        }
    }

    proof fn cut_short(s: Seq<u8>, k: int) {
        if k > 0 {
            assert(s.take(k)[0] == s[0]);
        }
    }

    fn put(&self, out: &mut Vec<u8>) {
        if *self {
            out.push(1);
        } else {
            out.push(0);
        }
        assert(out@ =~= old(out)@ + Self::bytes(*self));
    }

    fn get(r: &mut Reader<'_>) -> (res: Result<bool, WireError>) {
        let raw = r.take(1)?;
        match raw[0] {
            0 => Ok(false),
            1 => Ok(true),
            other => Err(WireError::BadTag(other)),
        }
    }
}

// ── fixed-size byte strings ─────────────────────────────────────────────────

/// What reading `n` raw bytes gives.
pub open spec fn parse_raw(s: Seq<u8>, n: int) -> Result<(Seq<u8>, int), WireError> {
    if s.len() < n {
        Err(WireError::Truncated)
    } else {
        Ok((s.take(n), n))
    }
}

/// Append raw bytes.
pub fn put_raw(raw: &[u8], out: &mut Vec<u8>)
    ensures
        final(out)@ == old(out)@ + raw@,
{
    let mut i: usize = 0;
    let ghost start = out@;
    assert(start + raw@.take(0) =~= start);
    while i < raw.len()
        invariant
            i <= raw@.len(),
            out@ == start + raw@.take(i as int),
        decreases raw@.len() - i,
    {
        out.push(raw[i]);
        assert(out@ =~= start + raw@.take(i + 1));
        i = i + 1;
    }
    assert(raw@.take(raw@.len() as int) =~= raw@);
}

/// A copy of some bytes.
pub fn copy_bytes(raw: &Vec<u8>) -> (r: Vec<u8>)
    ensures
        r@ == raw@,
{
    vstd::slice::slice_to_vec(raw.as_slice())
}

impl Wire for [u8; 32] {
    type W = Seq<u8>;

    open spec fn content(&self) -> Seq<u8> {
        self@
    }

    open spec fn fits(w: Seq<u8>) -> bool {
        w.len() == 32
    }

    open spec fn bytes(w: Seq<u8>) -> Seq<u8> {
        w
    }

    open spec fn parse(s: Seq<u8>) -> Result<(Seq<u8>, int), WireError> {
        parse_raw(s, 32)
    }

    proof fn reads_back(w: Seq<u8>, tail: Seq<u8>) {
        assert((w + tail).take(32) =~= w);
    }

    proof fn reads_only_encodings(s: Seq<u8>) {
    }

    proof fn cut_short(s: Seq<u8>, k: int) {
        if k >= 32 {
            assert(s.take(k).take(32) =~= s.take(32));
        }
    }

    fn put(&self, out: &mut Vec<u8>) {
        put_raw(self.as_slice(), out);
    }

    fn get(r: &mut Reader<'_>) -> (res: Result<[u8; 32], WireError>) {
        let ghost s = r.rest();
        assert(Self::parse(s) == parse_raw(s, 32));
        let raw = r.take(32)?;
        let mut h: [u8; 32] = [0u8; 32];
        let mut i: usize = 0;
        while i < 32
            invariant
                i <= 32,
                raw@.len() == 32,
                forall|j: int| 0 <= j < i ==> h@[j] == raw@[j],
            decreases 32 - i,
        {
            h[i] = raw[i];
            i = i + 1;
        }
        assert(h@ =~= raw@);
        assert(h.content() == s.take(32));
        Ok(h)
    }
}

impl Wire for [u8; 16] {
    type W = Seq<u8>;

    open spec fn content(&self) -> Seq<u8> {
        self@
    }

    open spec fn fits(w: Seq<u8>) -> bool {
        w.len() == 16
    }

    open spec fn bytes(w: Seq<u8>) -> Seq<u8> {
        w
    }

    open spec fn parse(s: Seq<u8>) -> Result<(Seq<u8>, int), WireError> {
        parse_raw(s, 16)
    }

    proof fn reads_back(w: Seq<u8>, tail: Seq<u8>) {
        assert((w + tail).take(16) =~= w);
    }

    proof fn reads_only_encodings(s: Seq<u8>) {
    }

    proof fn cut_short(s: Seq<u8>, k: int) {
        if k >= 16 {
            assert(s.take(k).take(16) =~= s.take(16));
        }
    }

    fn put(&self, out: &mut Vec<u8>) {
        put_raw(self.as_slice(), out);
    }

    fn get(r: &mut Reader<'_>) -> (res: Result<[u8; 16], WireError>) {
        let ghost s = r.rest();
        assert(Self::parse(s) == parse_raw(s, 16));
        let raw = r.take(16)?;
        let mut h: [u8; 16] = [0u8; 16];
        let mut i: usize = 0;
        while i < 16
            invariant
                i <= 16,
                raw@.len() == 16,
                forall|j: int| 0 <= j < i ==> h@[j] == raw@[j],
            decreases 16 - i,
        {
            h[i] = raw[i];
            i = i + 1;
        }
        assert(h@ =~= raw@);
        assert(h.content() == s.take(16));
        Ok(h)
    }
}

impl Wire for Digest {
    type W = Seq<u8>;

    open spec fn content(&self) -> Seq<u8> {
        self@
    }

    open spec fn fits(w: Seq<u8>) -> bool {
        w.len() == 32
    }

    open spec fn bytes(w: Seq<u8>) -> Seq<u8> {
        w
    }

    open spec fn parse(s: Seq<u8>) -> Result<(Seq<u8>, int), WireError> {
        parse_raw(s, 32)
    }

    proof fn reads_back(w: Seq<u8>, tail: Seq<u8>) {
        assert((w + tail).take(32) =~= w);
    }

    proof fn reads_only_encodings(s: Seq<u8>) {
    }

    proof fn cut_short(s: Seq<u8>, k: int) {
        if k >= 32 {
            assert(s.take(k).take(32) =~= s.take(32));
        }
    }

    fn put(&self, out: &mut Vec<u8>) {
        put_raw(self.bytes.as_slice(), out);
    }

    fn get(r: &mut Reader<'_>) -> (res: Result<Digest, WireError>) {
        let bytes = <[u8; 32] as Wire>::get(r)?;
        Ok(Digest { bytes })
    }
}

// ── length-prefixed parts ───────────────────────────────────────────────────

/// A length-prefixed byte string.
pub open spec fn blob_bytes(raw: Seq<u8>) -> Seq<u8> {
    u32_bytes(raw.len() as u32) + raw
}

/// Reading a length-prefixed byte string.
pub open spec fn parse_blob(s: Seq<u8>) -> Result<(Seq<u8>, int), WireError> {
    match u32::parse(s) {
        Err(e) => Err(e),
        Ok((n, _)) => if s.len() - 4 < n {
            Err(WireError::Truncated)
        } else {
            Ok((s.subrange(4, 4 + n as int), 4 + n as int))
        },
    }
}

/// A length-prefixed byte string reads back, whatever follows it.
pub proof fn blob_reads_back(raw: Seq<u8>, tail: Seq<u8>)
    requires
        raw.len() <= u32::MAX,
    ensures
        parse_blob(blob_bytes(raw) + tail) == Ok::<(Seq<u8>, int), WireError>(
            (raw, blob_bytes(raw).len() as int),
        ),
        blob_bytes(raw).len() == 4 + raw.len(),
{
    lemma_auto_spec_u32_to_from_le_bytes();
    let n = raw.len() as u32;
    let s = blob_bytes(raw) + tail;
    <u32 as Wire>::reads_back(n, raw + tail);
    assert(s =~= u32_bytes(n) + (raw + tail));
    assert(s.subrange(4, 4 + n as int) =~= raw);
}

/// What was read as a length-prefixed byte string is its encoding.
pub proof fn blob_reads_only_encodings(s: Seq<u8>)
    ensures
        parse_blob(s) matches Ok((raw, n)) ==> 0 <= n <= s.len() && raw.len() <= u32::MAX
            && blob_bytes(raw) == s.take(n),
{
    lemma_auto_spec_u32_to_from_le_bytes();
    if let Ok((raw, n)) = parse_blob(s) {
        assert(raw.len() as u32 == spec_u32_from_le_bytes(s.take(4)));
        assert(u32_bytes(raw.len() as u32) == s.take(4));
        assert(blob_bytes(raw) =~= s.take(n));
    }
}

/// A length-prefixed byte string that is cut short reads as the whole does, or
/// ends too early.
pub proof fn blob_cut_short(s: Seq<u8>, k: int)
    requires
        0 <= k <= s.len(),
    ensures
        parse_blob(s.take(k)) == Err::<(Seq<u8>, int), WireError>(WireError::Truncated)
            || parse_blob(s.take(k)) == parse_blob(s),
{
    <u32 as Wire>::cut_short(s, k);
    if let Ok((raw, n)) = parse_blob(s.take(k)) {
        assert(s.take(k).subrange(4, n) =~= s.subrange(4, n));
    }
}

/// Append a length-prefixed byte string.
pub fn put_blob(raw: &[u8], out: &mut Vec<u8>)
    ensures
        final(out)@ == old(out)@ + blob_bytes(raw@),
{
    let n: u32 = raw.len() as u32;
    n.put(out);
    put_raw(raw, out);
    assert(out@ =~= old(out)@ + blob_bytes(raw@));
}

/// Read a length-prefixed byte string.
pub fn get_blob<'a>(r: &mut Reader<'a>) -> (res: Result<&'a [u8], WireError>)
    requires
        old(r).wf(),
    ensures
        final(r).wf(),
        final(r).bytes@ == old(r).bytes@,
        match parse_blob(old(r).rest()) {
            Ok((raw, n)) => res is Ok && res->Ok_0@ == raw && final(r).rest() == old(
                r,
            ).rest().skip(n),
            Err(e) => res matches Err(f) && f == e,
        },
{
    let ghost s = r.rest();
    let n = u32::get(r)?;
    let len: usize = n as usize;
    let raw = r.take(len)?;
    proof {
        assert(raw@ =~= s.subrange(4, 4 + n as int));
        assert(r.rest() =~= s.skip(4 + n as int));
    }
    Ok(raw)
}

impl Wire for String {
    type W = Seq<char>;

    open spec fn content(&self) -> Seq<char> {
        self@
    }

    open spec fn fits(w: Seq<char>) -> bool {
        encode_utf8(w).len() <= u32::MAX
    }

    open spec fn bytes(w: Seq<char>) -> Seq<u8> {
        blob_bytes(encode_utf8(w))
    }

    open spec fn parse(s: Seq<u8>) -> Result<(Seq<char>, int), WireError> {
        match parse_blob(s) {
            Err(e) => Err(e),
            Ok((raw, n)) => if valid_utf8(raw) {
                Ok((decode_utf8(raw), n))
            } else {
                Err(WireError::InvalidUtf8)
            },
        }
    }

    proof fn reads_back(w: Seq<char>, tail: Seq<u8>) {
        blob_reads_back(encode_utf8(w), tail);
        encode_utf8_valid_utf8(w);
        encode_utf8_decode_utf8(w);
    }

    proof fn reads_only_encodings(s: Seq<u8>) {
        blob_reads_only_encodings(s);
        if let Ok((raw, n)) = parse_blob(s) {
            if valid_utf8(raw) {
                decode_utf8_encode_utf8(raw);
            }
        }
    }

    proof fn cut_short(s: Seq<u8>, k: int) {
        blob_cut_short(s, k);
    }

    fn put(&self, out: &mut Vec<u8>) {
        put_blob(self.as_str().as_bytes(), out);
    }

    fn get(r: &mut Reader<'_>) -> (res: Result<String, WireError>) {
        let raw = get_blob(r)?;
        match text_from_utf8(raw) {
            Some(text) => Ok(text),
            None => Err(WireError::InvalidUtf8),
        }
    }
}

// ── pairs ───────────────────────────────────────────────────────────────────

impl<A: Wire, B: Wire> Wire for (A, B) {
    type W = (A::W, B::W);

    open spec fn content(&self) -> (A::W, B::W) {
        (self.0.content(), self.1.content())
    }

    open spec fn fits(w: (A::W, B::W)) -> bool {
        A::fits(w.0) && B::fits(w.1)
    }

    open spec fn bytes(w: (A::W, B::W)) -> Seq<u8> {
        A::bytes(w.0) + B::bytes(w.1)
    }

    open spec fn parse(s: Seq<u8>) -> Result<((A::W, B::W), int), WireError> {
        match A::parse(s) {
            Err(e) => Err(e),
            Ok((a, n)) => match B::parse(s.skip(n)) {
                Err(e) => Err(e),
                Ok((b, m)) => Ok(((a, b), n + m)),
            },
        }
    }

    proof fn reads_back(w: (A::W, B::W), tail: Seq<u8>) {
        let a = A::bytes(w.0);
        let b = B::bytes(w.1);
        A::reads_back(w.0, b + tail);
        B::reads_back(w.1, tail);
        assert((a + b) + tail =~= a + (b + tail));
        assert((a + (b + tail)).skip(a.len() as int) =~= b + tail);
    }

    proof fn reads_only_encodings(s: Seq<u8>) {
        A::reads_only_encodings(s);
        if let Ok((a, n)) = A::parse(s) {
            B::reads_only_encodings(s.skip(n));
            if let Ok((b, m)) = B::parse(s.skip(n)) {
                assert(A::bytes(a) + B::bytes(b) =~= s.take(n + m));
            }
        }
    }

    proof fn cut_short(s: Seq<u8>, k: int) {
        A::cut_short(s, k);
        A::reads_only_encodings(s.take(k));
        if let Ok((_, n)) = A::parse(s.take(k)) {
            assert(s.take(k).skip(n) =~= s.skip(n).take(k - n));
            B::cut_short(s.skip(n), k - n);
        }
    }

    fn put(&self, out: &mut Vec<u8>) {
        self.0.put(out);
        self.1.put(out);
        assert(out@ =~= old(out)@ + Self::bytes(self.content()));
    }

    fn get(r: &mut Reader<'_>) -> (res: Result<(A, B), WireError>) {
        let ghost s = r.rest();
        let a = A::get(r)?;
        let b = B::get(r)?;
        proof {
            A::reads_only_encodings(s);
            if let Ok((x, n)) = A::parse(s) {
                B::reads_only_encodings(s.skip(n));
                if let Ok((y, m)) = B::parse(s.skip(n)) {
                    assert(s.skip(n).skip(m) =~= s.skip(n + m));
                }
            }
        }
        Ok((a, b))
    }
}

// ── triples ─────────────────────────────────────────────────────────────────

impl<A: Wire, B: Wire, C: Wire> Wire for (A, B, C) {
    type W = (A::W, B::W, C::W);

    open spec fn content(&self) -> (A::W, B::W, C::W) {
        (self.0.content(), self.1.content(), self.2.content())
    }

    open spec fn fits(w: (A::W, B::W, C::W)) -> bool {
        A::fits(w.0) && B::fits(w.1) && C::fits(w.2)
    }

    open spec fn bytes(w: (A::W, B::W, C::W)) -> Seq<u8> {
        <(A, (B, C)) as Wire>::bytes((w.0, (w.1, w.2)))
    }

    open spec fn parse(s: Seq<u8>) -> Result<((A::W, B::W, C::W), int), WireError> {
        match <(A, (B, C)) as Wire>::parse(s) {
            Err(e) => Err(e),
            Ok((w, n)) => Ok(((w.0, w.1.0, w.1.1), n)),
        }
    }

    proof fn reads_back(w: (A::W, B::W, C::W), tail: Seq<u8>) {
        <(A, (B, C)) as Wire>::reads_back((w.0, (w.1, w.2)), tail);
    }

    proof fn reads_only_encodings(s: Seq<u8>) {
        <(A, (B, C)) as Wire>::reads_only_encodings(s);
    }

    proof fn cut_short(s: Seq<u8>, k: int) {
        <(A, (B, C)) as Wire>::cut_short(s, k);
    }

    fn put(&self, out: &mut Vec<u8>) {
        self.0.put(out);
        self.1.put(out);
        self.2.put(out);
        assert(out@ =~= old(out)@ + Self::bytes(self.content()));
    }

    fn get(r: &mut Reader<'_>) -> (res: Result<(A, B, C), WireError>) {
        let (a, (b, c)) = <(A, (B, C)) as Wire>::get(r)?;
        Ok((a, b, c))
    }
}

// ── optional parts ──────────────────────────────────────────────────────────

/// The content of an optional value.
pub open spec fn option_content<T: Wire>(v: Option<T>) -> Option<T::W> {
    match v {
        Some(x) => Some(x.content()),
        None => None,
    }
}

impl<T: Wire> Wire for Option<T> {
    type W = Option<T::W>;

    open spec fn content(&self) -> Option<T::W> {
        option_content(*self)
    }

    open spec fn fits(w: Option<T::W>) -> bool {
        w matches Some(x) ==> T::fits(x)
    }

    open spec fn bytes(w: Option<T::W>) -> Seq<u8> {
        match w {
            Some(x) => seq![1u8] + T::bytes(x),
            None => seq![0u8],
        }
    }

    open spec fn parse(s: Seq<u8>) -> Result<(Option<T::W>, int), WireError> {
        if s.len() == 0 {
            Err(WireError::Truncated)
        } else if s[0] == 0 {
            Ok((None, 1))
        } else if s[0] == 1 {
            match T::parse(s.skip(1)) {
                Err(e) => Err(e),
                Ok((x, n)) => Ok((Some(x), 1 + n)),
            }
        } else {
            Err(WireError::BadTag(s[0]))
        }
    }

    proof fn reads_back(w: Option<T::W>, tail: Seq<u8>) {
        if let Some(x) = w {
            T::reads_back(x, tail);
            assert((Self::bytes(w) + tail).skip(1) =~= T::bytes(x) + tail);
        }
    }

    proof fn reads_only_encodings(s: Seq<u8>) {
        if s.len() > 0 {
            T::reads_only_encodings(s.skip(1));
            if s[0] == 0 {
                assert(seq![0u8] =~= s.take(1));
            } else if s[0] == 1 {
                if let Ok((x, n)) = T::parse(s.skip(1)) {
                    assert(seq![1u8] + T::bytes(x) =~= s.take(1 + n));
                }
            }
        }
    }

    proof fn cut_short(s: Seq<u8>, k: int) {
        if k > 0 {
            assert(s.take(k)[0] == s[0]);
            assert(s.take(k).skip(1) =~= s.skip(1).take(k - 1));
            T::cut_short(s.skip(1), k - 1);
        }
    }

    fn put(&self, out: &mut Vec<u8>) {
        match self {
            Some(x) => {
                out.push(1);
                x.put(out);
            },
            None => {
                out.push(0);
            },
        }
        assert(out@ =~= old(out)@ + Self::bytes(self.content()));
    }

    fn get(r: &mut Reader<'_>) -> (res: Result<Option<T>, WireError>) {
        let ghost s = r.rest();
        let raw = r.take(1)?;
        match raw[0] {
            0 => Ok(None),
            1 => {
                let x = T::get(r)?;
                proof {
                    T::reads_only_encodings(s.skip(1));
                    if let Ok((y, n)) = T::parse(s.skip(1)) {
                        assert(s.skip(1).skip(n) =~= s.skip(1 + n));
                    }
                }
                Ok(Some(x))
            },
            other => Err(WireError::BadTag(other)),
        }
    }
}

// ── counted lists ───────────────────────────────────────────────────────────

/// The contents of a list of values.
pub open spec fn contents<T: Wire>(s: Seq<T>) -> Seq<T::W> {
    Seq::new(s.len(), |i: int| s[i].content())
}

/// The encodings of a list of contents, one behind the other.
pub open spec fn list_bytes<T: Wire>(ws: Seq<T::W>) -> Seq<u8>
    decreases ws.len(),
{
    if ws.len() == 0 {
        seq![]
    } else {
        T::bytes(ws[0]) + list_bytes::<T>(ws.drop_first())
    }
}

/// Reading `n` values, one behind the other.
pub open spec fn parse_list<T: Wire>(s: Seq<u8>, n: nat) -> Result<(Seq<T::W>, int), WireError>
    decreases n,
{
    if n == 0 {
        Ok((seq![], 0))
    } else {
        match T::parse(s) {
            Err(e) => Err(e),
            Ok((w, k)) => match parse_list::<T>(s.skip(k), (n - 1) as nat) {
                Err(e) => Err(e),
                Ok((ws, m)) => Ok((seq![w] + ws, k + m)),
            },
        }
    }
}

proof fn lemma_list_bytes_snoc<T: Wire>(ws: Seq<T::W>, w: T::W)
    ensures
        list_bytes::<T>(ws.push(w)) == list_bytes::<T>(ws) + T::bytes(w),
    decreases ws.len(),
{
    reveal_with_fuel(list_bytes, 2);
    if ws.len() == 0 {
        assert(ws.push(w).drop_first() =~= Seq::<T::W>::empty());
        assert(list_bytes::<T>(ws.push(w)) =~= list_bytes::<T>(ws) + T::bytes(w));
    } else {
        lemma_list_bytes_snoc::<T>(ws.drop_first(), w);
        assert(ws.push(w).drop_first() =~= ws.drop_first().push(w));
        assert(list_bytes::<T>(ws.push(w)) =~= list_bytes::<T>(ws) + T::bytes(w));
    }
}

proof fn lemma_list_reads_back<T: Wire>(ws: Seq<T::W>, tail: Seq<u8>)
    requires
        forall|i: int| 0 <= i < ws.len() ==> T::fits(#[trigger] ws[i]),
    ensures
        parse_list::<T>(list_bytes::<T>(ws) + tail, ws.len()) == Ok::<
            (Seq<T::W>, int),
            WireError,
        >((ws, list_bytes::<T>(ws).len() as int)),
    decreases ws.len(),
{
    if ws.len() == 0 {
        assert(ws =~= seq![]);
    } else {
        let a = T::bytes(ws[0]);
        let b = list_bytes::<T>(ws.drop_first());
        T::reads_back(ws[0], b + tail);
        lemma_list_reads_back::<T>(ws.drop_first(), tail);
        assert((a + b) + tail =~= a + (b + tail));
        assert((a + (b + tail)).skip(a.len() as int) =~= b + tail);
        assert(seq![ws[0]] + ws.drop_first() =~= ws);
    }
}

proof fn lemma_list_reads_only_encodings<T: Wire>(s: Seq<u8>, n: nat)
    ensures
        parse_list::<T>(s, n) matches Ok((ws, m)) ==> 0 <= m <= s.len() && ws.len() == n && (
        forall|i: int| 0 <= i < ws.len() ==> T::fits(#[trigger] ws[i])) && list_bytes::<T>(ws)
            == s.take(m),
    decreases n,
{
    if n > 0 {
        T::reads_only_encodings(s);
        if let Ok((w, k)) = T::parse(s) {
            lemma_list_reads_only_encodings::<T>(s.skip(k), (n - 1) as nat);
            if let Ok((ws, m)) = parse_list::<T>(s.skip(k), (n - 1) as nat) {
                let all = seq![w] + ws;
                assert(all.drop_first() =~= ws);
                assert forall|i: int| 0 <= i < all.len() implies T::fits(#[trigger] all[i]) by {
                    if i > 0 {
                        assert(all[i] == ws[i - 1]);
                    }
                }
                assert(list_bytes::<T>(all) =~= s.take(k + m));
            }
        }
    } else {
        assert(s.take(0) =~= seq![]);
    }
}

proof fn lemma_list_cut_short<T: Wire>(s: Seq<u8>, n: nat, k: int)
    requires
        0 <= k <= s.len(),
    ensures
        parse_list::<T>(s.take(k), n) == Err::<(Seq<T::W>, int), WireError>(WireError::Truncated)
            || parse_list::<T>(s.take(k), n) == parse_list::<T>(s, n),
    decreases n,
{
    if n > 0 {
        T::cut_short(s, k);
        T::reads_only_encodings(s.take(k));
        if let Ok((_, m)) = T::parse(s.take(k)) {
            assert(s.take(k).skip(m) =~= s.skip(m).take(k - m));
            lemma_list_cut_short::<T>(s.skip(m), (n - 1) as nat, k - m);
        }
    }
}

impl<T: Wire> Wire for Vec<T> {
    type W = Seq<T::W>;

    open spec fn content(&self) -> Seq<T::W> {
        contents(self@)
    }

    open spec fn fits(w: Seq<T::W>) -> bool {
        w.len() <= u32::MAX && forall|i: int| 0 <= i < w.len() ==> T::fits(#[trigger] w[i])
    }

    open spec fn bytes(w: Seq<T::W>) -> Seq<u8> {
        u32_bytes(w.len() as u32) + list_bytes::<T>(w)
    }

    open spec fn parse(s: Seq<u8>) -> Result<(Seq<T::W>, int), WireError> {
        match u32::parse(s) {
            Err(e) => Err(e),
            Ok((n, k)) => match parse_list::<T>(s.skip(k), n as nat) {
                Err(e) => Err(e),
                Ok((ws, m)) => Ok((ws, k + m)),
            },
        }
    }

    proof fn reads_back(w: Seq<T::W>, tail: Seq<u8>) {
        let a = u32_bytes(w.len() as u32);
        let b = list_bytes::<T>(w);
        <u32 as Wire>::reads_back(w.len() as u32, b + tail);
        lemma_list_reads_back::<T>(w, tail);
        assert((a + b) + tail =~= a + (b + tail));
        assert((a + (b + tail)).skip(a.len() as int) =~= b + tail);
    }

    proof fn reads_only_encodings(s: Seq<u8>) {
        <u32 as Wire>::reads_only_encodings(s);
        if let Ok((n, k)) = u32::parse(s) {
            lemma_list_reads_only_encodings::<T>(s.skip(k), n as nat);
            if let Ok((ws, m)) = parse_list::<T>(s.skip(k), n as nat) {
                assert(ws.len() as u32 == n);
                assert(Self::bytes(ws) =~= s.take(k + m));
            }
        }
    }

    proof fn cut_short(s: Seq<u8>, k: int) {
        <u32 as Wire>::cut_short(s, k);
        if let Ok((n, m)) = u32::parse(s.take(k)) {
            assert(s.take(k).skip(m) =~= s.skip(m).take(k - m));
            lemma_list_cut_short::<T>(s.skip(m), n as nat, k - m);
        }
    }

    fn put(&self, out: &mut Vec<u8>) {
        let n: u32 = self.len() as u32;
        n.put(out);
        let ghost start = out@;
        let ghost ws = self.content();
        let mut i: usize = 0;
        assert(ws.take(0) =~= seq![]);
        assert(start + list_bytes::<T>(ws.take(0)) =~= start);
        while i < self.len()
            invariant
                i <= self@.len(),
                ws == contents(self@),
                out@ == start + list_bytes::<T>(ws.take(i as int)),
            decreases self@.len() - i,
        {
            self[i].put(out);
            proof {
                lemma_list_bytes_snoc::<T>(ws.take(i as int), ws[i as int]);
                assert(ws.take(i + 1) =~= ws.take(i as int).push(ws[i as int]));
                assert(out@ =~= start + list_bytes::<T>(ws.take(i + 1)));
            }
            i = i + 1;
        }
        assert(ws.take(ws.len() as int) =~= ws);
        assert(out@ =~= old(out)@ + Self::bytes(ws));
    }

    fn get(r: &mut Reader<'_>) -> (res: Result<Vec<T>, WireError>) {
        let ghost s = r.rest();
        let n = u32::get(r)?;
        let left: usize = r.remaining();
        let mut out: Vec<T> = if (n as usize) < left {
            Vec::with_capacity(n as usize)
        } else {
            Vec::with_capacity(left)
        };
        let ghost start = r.rest();
        let ghost all = r.bytes@;
        let mut i: u32 = 0;
        let ghost mut used: int = 0;
        assert(start.skip(0) =~= start);
        proof {
            lemma_list_reads_only_encodings::<T>(start, n as nat);
            if let Ok((ws, m)) = parse_list::<T>(start, n as nat) {
                assert(contents(out@) + ws =~= ws);
            }
        }
        while i < n
            invariant
                i <= n,
                r.wf(),
                r.bytes@ == all,
                all == old(r).bytes@,
                s == old(r).rest(),
                u32::parse(s) == Ok::<(u32, int), WireError>((n, 4)),
                start == s.skip(4),
                0 <= used <= start.len(),
                r.rest() == start.skip(used),
                out@.len() == i,
                match parse_list::<T>(start.skip(used), (n - i) as nat) {
                    Ok((ws, m)) => parse_list::<T>(start, n as nat) == Ok::<
                        (Seq<T::W>, int),
                        WireError,
                    >((contents(out@) + ws, used + m)),
                    Err(e) => parse_list::<T>(start, n as nat) == Err::<(Seq<T::W>, int), WireError>(
                        e,
                    ),
                },
            decreases n - i,
        {
            let ghost before = start.skip(used);
            let ghost done = contents(out@);
            match T::get(r) {
                Err(e) => {
                    return Err(e);
                },
                Ok(x) => {
                    proof {
                        T::reads_only_encodings(before);
                        let (w, k) = T::parse(before)->Ok_0;
                        assert(before.skip(k) =~= start.skip(used + k));
                        used = used + k;
                        if let Ok((ws, m)) = parse_list::<T>(before.skip(k), (n - i - 1) as nat) {
                            assert(done + (seq![w] + ws) =~= done.push(w) + ws);
                        }
                    }
                    out.push(x);
                    assert(contents(out@) =~= done.push(x.content()));
                },
            }
            i = i + 1;
        }
        proof {
            assert(contents(out@) + Seq::<T::W>::empty() =~= contents(out@));
            assert(s.skip(4).skip(used) =~= s.skip(4 + used));
        }
        Ok(out)
    }
}

} // verus!
