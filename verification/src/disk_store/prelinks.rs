//! The pre-link forms of a store.
//!
//! A form lies under the hash of its encoding. The forms can be made anew at any
//! time, so one that is not intact counts as none, and is removed.

use vstd::prelude::*;

use crate::compiler::prelink::{prelink_parse, PrelinkModule, PrelinkView};
use crate::digest::{blake3_hash, Digest};
use crate::disk_store::error::{fault_text, DiskStoreError, StoreFault};
use crate::disk_store::files::{hash_path, join_hash_path, ChangeView, FileChange};
use crate::disk_store::manifests::{keys_of, lists_keys};
use crate::disk_store::objects::{DiskStore, StoreView};
use crate::ordmap::Key;
use crate::wire::put_raw;

verus! {

broadcast use {vstd::string::group_string_axioms, vstd::array::group_array_axioms};

/// With the file of a form, unless it is there.
pub open spec fn with_prelink(v: StoreView, bytes: Seq<u8>) -> StoreView {
    let h = blake3_hash(bytes);
    if v.prelinks.contains_key(h) {
        v
    } else {
        StoreView {
            prelinks: v.prelinks.insert(h, bytes),
            journal: v.journal.push(ChangeView::Write(hash_path(v.root, "prelink"@, h), bytes)),
            ..v
        }
    }
}

/// Without the file of a form.
pub open spec fn without_prelink(v: StoreView, h: Seq<u8>) -> StoreView {
    StoreView {
        prelinks: v.prelinks.remove(h),
        journal: v.journal.push(ChangeView::Remove(hash_path(v.root, "prelink"@, h))),
        ..v
    }
}

/// The form under a hash, if it is there and intact.
pub open spec fn prelink_at(prelinks: Map<Seq<u8>, Seq<u8>>, h: Seq<u8>) -> Option<PrelinkView> {
    if prelinks.contains_key(h) && blake3_hash(prelinks[h]) == h {
        match prelink_parse(prelinks[h]) {
            Ok(m) => Some(m),
            Err(_) => None,
        }
    } else {
        None
    }
}

/// What is wrong with the file of a form, if something is.
pub open spec fn blob_fault(prelinks: Map<Seq<u8>, Seq<u8>>, h: Seq<u8>) -> Option<Seq<char>> {
    if !prelinks.contains_key(h) {
        None
    } else if blake3_hash(prelinks[h]) != h {
        Some(
            fault_text(
                StoreFault::Corrupt { expected: h, actual: blake3_hash(prelinks[h]) },
            ),
        )
    } else {
        match prelink_parse(prelinks[h]) {
            Ok(_) => None,
            Err(e) => Some(e.text()),
        }
    }
}

impl DiskStore {
    /// What is wrong with the file of a form, if something is.
    pub fn prelink_problem(&self, hash: &Digest) -> (r: Option<String>)
        ensures
            match blob_fault(self@.prelinks, hash@) {
                Some(t) => r matches Some(x) && x@ == t,
                None => r is None,
            },
    {
        let bytes = match self.prelinks.get(hash) {
            None => {
                return None;
            },
            Some(b) => b,
        };
        assert(self@.prelinks[hash@] == bytes@);
        let actual = Digest::of(bytes.as_slice());
        if !actual.same(hash) {
            let e = DiskStoreError::Corrupt { expected: *hash, actual };
            return Some(e.message());
        }
        match PrelinkModule::decode(bytes.as_slice()) {
            Ok(_) => None,
            Err(e) => Some(e.message()),
        }
    }

    /// The path of the file of a form.
    pub fn prelink_path(&self, hash: &Digest) -> (r: String)
        ensures
            r@ == hash_path(self@.root, "prelink"@, hash@),
    {
        join_hash_path(self.root.as_str(), "prelink", hash)
    }

    /// Write the encoding of a form under its hash, unless it is there. The
    /// result is the hash.
    pub fn put_prelink(&mut self, bytes: &[u8]) -> (r: Digest)
        ensures
            r@ == blake3_hash(bytes@),
            final(self)@ == with_prelink(old(self)@, bytes@),
    {
        let ghost was = self@;
        let hash = Digest::of(bytes);
        if !self.prelinks.contains_key(&hash) {
            let path = self.prelink_path(&hash);
            let mut held: Vec<u8> = Vec::new();
            put_raw(bytes, &mut held);
            assert(held@ =~= bytes@);
            let mut sent: Vec<u8> = Vec::new();
            put_raw(bytes, &mut sent);
            assert(sent@ =~= bytes@);
            self.journal.push(FileChange::Write(path, sent));
            self.prelinks.insert(hash, held);
        }
        assert(self@ =~= with_prelink(was, bytes@));
        hash
    }

    /// The form under a hash, if it is there and intact. A file that is not
    /// intact is removed, so that it is written anew.
    pub fn get_prelink(&mut self, hash: &Digest) -> (r: Option<PrelinkModule>)
        ensures
            match prelink_at(old(self)@.prelinks, hash@) {
                Some(m) => r matches Some(x) && x@ == m && final(self)@ == old(self)@,
                None => r is None && final(self)@ == (if old(self)@.prelinks.contains_key(hash@) {
                    without_prelink(old(self)@, hash@)
                } else {
                    old(self)@
                }),
            },
    {
        let ghost was = self@;
        let found: Option<PrelinkModule> = match self.prelinks.get(hash) {
            None => {
                return None;
            },
            Some(bytes) => {
                assert(was.prelinks[hash@] == bytes@);
                let actual = Digest::of(bytes.as_slice());
                if actual.same(hash) {
                    match PrelinkModule::decode(bytes.as_slice()) {
                        Ok(m) => Some(m),
                        Err(_) => None,
                    }
                } else {
                    None
                }
            },
        };
        match found {
            Some(m) => Some(m),
            None => {
                let path = self.prelink_path(hash);
                self.journal.push(FileChange::Remove(path));
                self.prelinks.remove(hash);
                assert(self@ =~= without_prelink(was, hash@));
                None
            },
        }
    }

    /// The hashes of the forms, in order.
    pub fn all_prelink_hashes(&self) -> (r: Vec<Digest>)
        ensures
            lists_keys(r@, self@.prelinks.dom()),
    {
        assert(self@.prelinks.dom() =~= self.prelinks@.dom());
        keys_of(&self.prelinks)
    }
}

} // verus!
