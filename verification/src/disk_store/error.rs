//! Why an operation on a store failed.

use vstd::prelude::*;

use crate::digest::{hex_text, Digest};
use crate::disk_store::files::FORMAT_MARKER;
use crate::wire::ObjectFault;
use crate::text::{owned, push_text};

verus! {

broadcast use vstd::string::group_string_axioms;

/// What Rust shows of text where it is shown for debugging: in quotes, with
/// escapes.
pub uninterp spec fn debug_rendering(s: Seq<char>) -> Seq<char>;

/// Calls `std::fmt::Debug` of `str`: the text in quotes, with whatever is not
/// printable escaped, which is a function of the text alone.
#[verifier::external_body]
fn debug_text(s: &str) -> (r: String)
    ensures
        r@ == debug_rendering(s@),
{
    format!("{s:?}")
}

/// Why an operation on a store failed.
#[derive(Debug)]
pub enum DiskStoreError {
    /// The host could not read or write.
    Io(String),
    /// An object cannot be decoded.
    Object { hash: Digest, error: ObjectFault },
    /// A file does not hold what its name says.
    Corrupt { expected: Digest, actual: Digest },
    /// A redirect to a group that does not hold it.
    BadRedirect { member: Digest, group: Digest },
    /// Another format version.
    UnknownFormat(String),
    /// A line of `names` that is none.
    MalformedNames(String),
    /// A line of `signatures` that is none.
    MalformedSignatures(String),
    /// A line of `migrations` that is none.
    MalformedMigrations(String),
    /// A build manifest that cannot be decoded.
    MalformedManifest(String),
    /// A tag name that is none.
    InvalidTagName(String),
}

/// What a [`DiskStoreError`] says.
pub enum StoreFault {
    /// The host could not read or write.
    Io(Seq<char>),
    /// An object cannot be decoded.
    Object { hash: Seq<u8>, error: ObjectFault },
    /// A file does not hold what its name says.
    Corrupt { expected: Seq<u8>, actual: Seq<u8> },
    /// A redirect to a group that does not hold it.
    BadRedirect { member: Seq<u8>, group: Seq<u8> },
    /// Another format version.
    UnknownFormat(Seq<char>),
    /// A line of `names` that is none.
    MalformedNames(Seq<char>),
    /// A line of `signatures` that is none.
    MalformedSignatures(Seq<char>),
    /// A line of `migrations` that is none.
    MalformedMigrations(Seq<char>),
    /// A build manifest that cannot be decoded.
    MalformedManifest(Seq<char>),
    /// A tag name that is none.
    InvalidTagName(Seq<char>),
}

impl View for DiskStoreError {
    type V = StoreFault;

    open spec fn view(&self) -> StoreFault {
        match *self {
            DiskStoreError::Io(t) => StoreFault::Io(t@),
            DiskStoreError::Object { hash, error } => StoreFault::Object { hash: hash@, error },
            DiskStoreError::Corrupt { expected, actual } => StoreFault::Corrupt {
                expected: expected@,
                actual: actual@,
            },
            DiskStoreError::BadRedirect { member, group } => StoreFault::BadRedirect {
                member: member@,
                group: group@,
            },
            DiskStoreError::UnknownFormat(t) => StoreFault::UnknownFormat(t@),
            DiskStoreError::MalformedNames(t) => StoreFault::MalformedNames(t@),
            DiskStoreError::MalformedSignatures(t) => StoreFault::MalformedSignatures(t@),
            DiskStoreError::MalformedMigrations(t) => StoreFault::MalformedMigrations(t@),
            DiskStoreError::MalformedManifest(t) => StoreFault::MalformedManifest(t@),
            DiskStoreError::InvalidTagName(t) => StoreFault::InvalidTagName(t@),
        }
    }
}

/// The text of a fault.
pub open spec fn fault_text(f: StoreFault) -> Seq<char> {
    match f {
        StoreFault::Io(t) => "store I/O error: "@ + t,
        StoreFault::Object { hash, error } => "object "@ + hex_text(hash) + " is malformed: "@
            + error.text(),
        StoreFault::Corrupt { expected, actual } => "object file is corrupt: stored at "@
            + hex_text(expected) + " but content hashes to "@ + hex_text(actual),
        StoreFault::BadRedirect { member, group } => "redirect at "@ + hex_text(member)
            + " points at group "@ + hex_text(group) + ", which does not derive it"@,
        StoreFault::UnknownFormat(t) => "unknown store format "@ + debug_rendering(t)
            + " (expected "@ + debug_rendering(FORMAT_MARKER@) + ")"@,
        StoreFault::MalformedNames(t) => "malformed names entry: "@ + debug_rendering(t),
        StoreFault::MalformedSignatures(t) => "malformed signatures entry: "@ + debug_rendering(t),
        StoreFault::MalformedMigrations(t) => "malformed migrations entry: "@ + debug_rendering(t),
        StoreFault::MalformedManifest(t) => "malformed build manifest: "@ + t,
        StoreFault::InvalidTagName(t) => "invalid tag name "@ + debug_rendering(t)
            + " (use letters, digits, `.`, `_`, `-`)"@,
    }
}

/// Text behind text.
fn labelled(label: &str, text: &str) -> (r: String)
    ensures
        r@ == label@ + text@,
{
    let mut out = owned(label);
    push_text(&mut out, text);
    out
}

impl DiskStoreError {
    /// The text of the error.
    pub fn message(&self) -> (r: String)
        ensures
            r@ == fault_text(self@),
    {
        match self {
            DiskStoreError::Io(t) => labelled("store I/O error: ", t.as_str()),
            DiskStoreError::Object { hash, error } => {
                let mut out = labelled("object ", hash.to_hex().as_str());
                push_text(&mut out, " is malformed: ");
                push_text(&mut out, error.message().as_str());
                out
            },
            DiskStoreError::Corrupt { expected, actual } => {
                let mut out = labelled(
                    "object file is corrupt: stored at ",
                    expected.to_hex().as_str(),
                );
                push_text(&mut out, " but content hashes to ");
                push_text(&mut out, actual.to_hex().as_str());
                out
            },
            DiskStoreError::BadRedirect { member, group } => {
                let mut out = labelled("redirect at ", member.to_hex().as_str());
                push_text(&mut out, " points at group ");
                push_text(&mut out, group.to_hex().as_str());
                push_text(&mut out, ", which does not derive it");
                out
            },
            DiskStoreError::UnknownFormat(t) => {
                let mut out = labelled("unknown store format ", debug_text(t.as_str()).as_str());
                push_text(&mut out, " (expected ");
                push_text(&mut out, debug_text(FORMAT_MARKER).as_str());
                push_text(&mut out, ")");
                out
            },
            DiskStoreError::MalformedNames(t) => labelled(
                "malformed names entry: ",
                debug_text(t.as_str()).as_str(),
            ),
            DiskStoreError::MalformedSignatures(t) => labelled(
                "malformed signatures entry: ",
                debug_text(t.as_str()).as_str(),
            ),
            DiskStoreError::MalformedMigrations(t) => labelled(
                "malformed migrations entry: ",
                debug_text(t.as_str()).as_str(),
            ),
            DiskStoreError::MalformedManifest(t) => labelled(
                "malformed build manifest: ",
                t.as_str(),
            ),
            DiskStoreError::InvalidTagName(t) => {
                let mut out = labelled("invalid tag name ", debug_text(t.as_str()).as_str());
                push_text(&mut out, " (use letters, digits, `.`, `_`, `-`)");
                out
            },
        }
    }
}

} // verus!
