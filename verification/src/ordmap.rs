//! A map kept sorted by its keys, so that walking it is deterministic.

use vstd::prelude::*;
use vstd::utf8::*;

use crate::digest::Digest;
use crate::order::{
    enumerates, increasing, bytes_before, bytes_lt, bytes_lt_irreflexive, bytes_lt_total,
    bytes_lt_transitive, text_bytes_injective,
};

verus! {

broadcast use {vstd::string::group_string_axioms, vstd::array::group_array_axioms};

/// A type whose values serve as map keys: each has a model, and models are
/// told apart and ordered by their bytes.
pub trait Key: Sized {
    /// What a key is, apart from its representation.
    type M;

    /// The model of a key.
    spec fn model(&self) -> Self::M;

    /// The bytes that order a model.
    spec fn order_bytes(m: Self::M) -> Seq<u8>;

    /// Two models with the same bytes are the same.
    proof fn order_bytes_injective(a: Self::M, b: Self::M)
        ensures
            Self::order_bytes(a) == Self::order_bytes(b) ==> a == b,
    ;

    /// The bytes that order this key.
    fn key_bytes(&self) -> (r: &[u8])
        ensures
            r@ == Self::order_bytes(self.model()),
    ;
}

impl Key for String {
    type M = Seq<char>;

    open spec fn model(&self) -> Seq<char> {
        self@
    }

    open spec fn order_bytes(m: Seq<char>) -> Seq<u8> {
        encode_utf8(m)
    }

    proof fn order_bytes_injective(a: Seq<char>, b: Seq<char>) {
        text_bytes_injective(a, b);
    }

    fn key_bytes(&self) -> (r: &[u8]) {
        self.as_str().as_bytes()
    }
}

impl Key for Digest {
    type M = Seq<u8>;

    open spec fn model(&self) -> Seq<u8> {
        self@
    }

    open spec fn order_bytes(m: Seq<u8>) -> Seq<u8> {
        m
    }

    proof fn order_bytes_injective(a: Seq<u8>, b: Seq<u8>) {
    }

    fn key_bytes(&self) -> (r: &[u8]) {
        self.bytes.as_slice()
    }
}

/// Whether the keys of `entries` increase strictly.
pub open spec fn keys_increase<K: Key, V>(entries: Seq<(K, V)>) -> bool {
    forall|i: int, j: int|
        0 <= i < j < entries.len() ==> bytes_lt(
            K::order_bytes(#[trigger] entries[i].0.model()),
            K::order_bytes(#[trigger] entries[j].0.model()),
        )
}

/// Whether some entry has the key `m`.
pub open spec fn has_key<K: Key, V>(entries: Seq<(K, V)>, m: K::M) -> bool {
    exists|i: int| 0 <= i < entries.len() && (#[trigger] entries[i]).0.model() == m
}

/// The position of the entry with the key `m`.
pub open spec fn key_position<K: Key, V>(entries: Seq<(K, V)>, m: K::M) -> int {
    choose|i: int| 0 <= i < entries.len() && (#[trigger] entries[i]).0.model() == m
}

/// The map that `entries` hold.
pub open spec fn entries_map<K: Key, V>(entries: Seq<(K, V)>) -> Map<K::M, V> {
    Map::new(|m: K::M| has_key(entries, m), |m: K::M| entries[key_position(entries, m)].1)
}

/// In strictly increasing entries each entry is found under its own key.
pub proof fn entry_found<K: Key, V>(entries: Seq<(K, V)>, i: int)
    requires
        keys_increase(entries),
        0 <= i < entries.len(),
    ensures
        entries_map(entries).contains_key(entries[i].0.model()),
        entries_map(entries)[entries[i].0.model()] == entries[i].1,
        key_position(entries, entries[i].0.model()) == i,
{
    let m = entries[i].0.model();
    assert(entries[i].0.model() == m);
    let j = key_position(entries, m);
    bytes_lt_irreflexive(K::order_bytes(m));
    assert(j == i) by {
        if j < i {
            assert(bytes_lt(K::order_bytes(entries[j].0.model()), K::order_bytes(entries[i].0.model())));
        } else if i < j {
            assert(bytes_lt(K::order_bytes(entries[i].0.model()), K::order_bytes(entries[j].0.model())));
        }
    }
}

/// A map whose entries are kept in increasing order of their keys.
#[derive(Debug)]
pub struct OrdMap<K: Key, V> {
    entries: Vec<(K, V)>,
}

impl<K: Key, V> View for OrdMap<K, V> {
    type V = Map<K::M, V>;

    closed spec fn view(&self) -> Map<K::M, V> {
        entries_map(self.entries@)
    }
}

impl<K: Key, V> OrdMap<K, V> {
    /// The entries in increasing order of their keys.
    pub closed spec fn seq(&self) -> Seq<(K, V)> {
        self.entries@
    }

    #[verifier::type_invariant]
    spec fn sorted(self) -> bool {
        keys_increase(self.entries@)
    }

    /// The map is what its entries hold.
    pub proof fn entries_are_the_map(self)
        ensures
            self@ == entries_map(self.seq()),
    {
    }

    /// A map with no entries.
    pub fn new() -> (r: OrdMap<K, V>)
        ensures
            r@ == Map::<K::M, V>::empty(),
            r.seq() == Seq::<(K, V)>::empty(),
    {
        let r = OrdMap { entries: Vec::new() };
        assert(r@ =~= Map::<K::M, V>::empty());
        r
    }

    /// The entries in increasing order of their keys.
    pub fn items(&self) -> (r: &Vec<(K, V)>)
        ensures
            r@ == self.seq(),
            keys_increase(r@),
            self@ == entries_map(r@),
    {
        proof {
            use_type_invariant(self);
        }
        &self.entries
    }

    /// The number of entries.
    pub fn len(&self) -> (r: usize)
        ensures
            r == self.seq().len(),
    {
        self.entries.len()
    }

    /// Whether there are no entries.
    pub fn is_empty(&self) -> (r: bool)
        ensures
            r == (self@ == Map::<K::M, V>::empty()),
            r == (self.seq().len() == 0),
    {
        let r = self.entries.len() == 0;
        proof {
            if r {
                assert(self@ =~= Map::<K::M, V>::empty());
            } else {
                assert(has_key(self.entries@, self.entries@[0].0.model()));
                assert(self@.contains_key(self.entries@[0].0.model()));
            }
        }
        r
    }

    /// The first position whose key does not precede `key`.
    fn lower_bound(&self, key: &[u8], m: Ghost<K::M>) -> (r: usize)
        requires
            key@ == K::order_bytes(m@),
        ensures
            r <= self.entries@.len(),
            forall|i: int|
                0 <= i < r ==> bytes_lt(K::order_bytes(#[trigger] self.entries@[i].0.model()), key@),
            forall|i: int|
                r <= i < self.entries@.len() ==> !bytes_lt(
                    K::order_bytes(#[trigger] self.entries@[i].0.model()),
                    key@,
                ),
    {
        proof {
            use_type_invariant(self);
        }
        let mut low: usize = 0;
        let mut high: usize = self.entries.len();
        while low < high
            invariant
                low <= high <= self.entries@.len(),
                key@ == K::order_bytes(m@),
                keys_increase(self.entries@),
                forall|i: int|
                    0 <= i < low ==> bytes_lt(
                        K::order_bytes(#[trigger] self.entries@[i].0.model()),
                        key@,
                    ),
                forall|i: int|
                    high <= i < self.entries@.len() ==> !bytes_lt(
                        K::order_bytes(#[trigger] self.entries@[i].0.model()),
                        key@,
                    ),
            decreases high - low,
        {
            let mid: usize = low + (high - low) / 2;
            if bytes_before(self.entries[mid].0.key_bytes(), key) {
                assert forall|i: int| 0 <= i < mid + 1 implies bytes_lt(
                    K::order_bytes(#[trigger] self.entries@[i].0.model()),
                    key@,
                ) by {
                    if i < mid {
                        bytes_lt_transitive(
                            K::order_bytes(self.entries@[i].0.model()),
                            K::order_bytes(self.entries@[mid as int].0.model()),
                            key@,
                        );
                    }
                }
                low = mid + 1;
            } else {
                assert forall|i: int| mid <= i < self.entries@.len() implies !bytes_lt(
                    K::order_bytes(#[trigger] self.entries@[i].0.model()),
                    key@,
                ) by {
                    if i > mid && bytes_lt(K::order_bytes(self.entries@[i].0.model()), key@) {
                        bytes_lt_transitive(
                            K::order_bytes(self.entries@[mid as int].0.model()),
                            K::order_bytes(self.entries@[i].0.model()),
                            key@,
                        );
                    }
                }
                high = mid;
            }
        }
        low
    }

    /// The position of the entry whose key has the given bytes.
    fn find(&self, key: &[u8], m: Ghost<K::M>) -> (r: Option<usize>)
        requires
            key@ == K::order_bytes(m@),
        ensures
            r is Some <==> self@.contains_key(m@),
            r is Some ==> r->0 < self.entries@.len() && self.entries@[r->0 as int].0.model() == m@
                && self@[m@] == self.entries@[r->0 as int].1,
    {
        proof {
            use_type_invariant(self);
        }
        let at: usize = self.lower_bound(key, m);
        if at < self.entries.len() && !bytes_before(key, self.entries[at].0.key_bytes()) {
            proof {
                let k = self.entries@[at as int].0.model();
                bytes_lt_total(K::order_bytes(k), key@);
                K::order_bytes_injective(k, m@);
                entry_found(self.entries@, at as int);
            }
            Some(at)
        } else {
            proof {
                if has_key(self.entries@, m@) {
                    let j = key_position(self.entries@, m@);
                    bytes_lt_irreflexive(key@);
                    assert(self.entries@[j].0.model() == m@);
                    assert(j >= at);
                    if j > at {
                        assert(bytes_lt(
                            K::order_bytes(self.entries@[at as int].0.model()),
                            K::order_bytes(self.entries@[j].0.model()),
                        ));
                    }
                }
            }
            None
        }
    }

    /// The value bound to a key.
    pub fn get(&self, key: &K) -> (r: Option<&V>)
        ensures
            r == (if self@.contains_key(key.model()) {
                Some(&self@[key.model()])
            } else {
                None
            }),
    {
        match self.find(key.key_bytes(), Ghost(key.model())) {
            Some(at) => Some(&self.entries[at].1),
            None => None,
        }
    }

    /// Whether a key is bound.
    pub fn contains_key(&self, key: &K) -> (r: bool)
        ensures
            r == self@.contains_key(key.model()),
    {
        self.find(key.key_bytes(), Ghost(key.model())).is_some()
    }

    /// Bind a key, replacing what it was bound to.
    pub fn insert(&mut self, key: K, value: V)
        ensures
            final(self)@ == old(self)@.insert(key.model(), value),
    {
        let ghost before = self@;
        proof {
            use_type_invariant(&*self);
        }
        let found = self.find(key.key_bytes(), Ghost(key.model()));
        let at: usize = self.lower_bound(key.key_bytes(), Ghost(key.model()));
        let mut entries: Vec<(K, V)> = Vec::new();
        std::mem::swap(&mut entries, &mut self.entries);
        let ghost first = entries@;
        let ghost m = key.model();
        match found {
            Some(pos) => {
                entries.remove(pos);
                entries.insert(pos, (key, value));
                proof {
                    assert(entries@ =~= first.update(pos as int, (key, value)));
                    lemma_replace(first, pos as int, (key, value));
                }
            },
            None => {
                entries.insert(at, (key, value));
                proof {
                    assert forall|i: int| at <= i < first.len() implies bytes_lt(
                        K::order_bytes(m),
                        K::order_bytes(#[trigger] first[i].0.model()),
                    ) by {
                        bytes_lt_total(K::order_bytes(m), K::order_bytes(first[i].0.model()));
                        K::order_bytes_injective(m, first[i].0.model());
                        assert(first[i].0.model() == m ==> has_key(first, m));
                    }
                    lemma_insert(first, at as int, (key, value));
                }
            },
        }
        self.entries = entries;
    }

    /// Bind a key unless it is bound already.
    pub fn insert_if_absent(&mut self, key: K, value: V)
        ensures
            final(self)@ == (if old(self)@.contains_key(key.model()) {
                old(self)@
            } else {
                old(self)@.insert(key.model(), value)
            }),
    {
        if !self.contains_key(&key) {
            self.insert(key, value);
        }
    }

    /// Unbind a key.
    pub fn remove(&mut self, key: &K) -> (r: Option<V>)
        ensures
            final(self)@ == old(self)@.remove(key.model()),
            r == (if old(self)@.contains_key(key.model()) {
                Some(old(self)@[key.model()])
            } else {
                None
            }),
    {
        let ghost before = self@;
        proof {
            use_type_invariant(&*self);
        }
        match self.find(key.key_bytes(), Ghost(key.model())) {
            Some(at) => {
                let mut entries: Vec<(K, V)> = Vec::new();
                std::mem::swap(&mut entries, &mut self.entries);
                let ghost first = entries@;
                let (_, value) = entries.remove(at);
                proof {
                    lemma_remove(first, at as int);
                }
                self.entries = entries;
                Some(value)
            },
            None => {
                assert(before.remove(key.model()) =~= before);
                None
            },
        }
    }
}

/// Two lists with strictly increasing keys that have the same keys have them in
/// the same places.
pub proof fn increasing_keys_are_unique<K: Key, V, W>(a: Seq<(K, V)>, b: Seq<(K, W)>)
    requires
        keys_increase(a),
        keys_increase(b),
        forall|m: K::M| #[trigger] has_key(a, m) == has_key(b, m),
    ensures
        a.len() == b.len(),
        forall|i: int| 0 <= i < a.len() ==> (#[trigger] a[i]).0.model() == b[i].0.model(),
    decreases a.len(),
{
    if a.len() == 0 {
        if b.len() > 0 {
            assert(has_key(b, b[0].0.model()));
            assert(has_key(a, b[0].0.model()));
        }
    } else {
        let x = a.last().0.model();
        assert(a[a.len() - 1].0.model() == x);
        assert(has_key(a, x));
        assert(has_key(b, x));
        let j = choose|j: int| 0 <= j < b.len() && (#[trigger] b[j]).0.model() == x;
        let y = b.last().0.model();
        assert(b[b.len() - 1].0.model() == y);
        assert(has_key(b, y));
        assert(has_key(a, y));
        let i = choose|i: int| 0 <= i < a.len() && (#[trigger] a[i]).0.model() == y;
        if j < b.len() - 1 {
            assert(bytes_lt(K::order_bytes(x), K::order_bytes(y)));
            if i < a.len() - 1 {
                assert(bytes_lt(K::order_bytes(y), K::order_bytes(x)));
                bytes_lt_transitive(K::order_bytes(x), K::order_bytes(y), K::order_bytes(x));
            }
            bytes_lt_irreflexive(K::order_bytes(x));
        }
        assert(x == y);
        let c = a.drop_last();
        let d = b.drop_last();
        assert forall|m: K::M| #[trigger] has_key(c, m) == has_key(d, m) by {
            bytes_lt_irreflexive(K::order_bytes(x));
            if has_key(c, m) {
                let k = choose|k: int| 0 <= k < c.len() && (#[trigger] c[k]).0.model() == m;
                assert(a[k].0.model() == m);
                assert(has_key(a, m));
                assert(has_key(b, m));
                let l = choose|l: int| 0 <= l < b.len() && (#[trigger] b[l]).0.model() == m;
                assert(d[l].0.model() == m);
            }
            if has_key(d, m) {
                let k = choose|k: int| 0 <= k < d.len() && (#[trigger] d[k]).0.model() == m;
                assert(b[k].0.model() == m);
                assert(has_key(b, m));
                assert(has_key(a, m));
                let l = choose|l: int| 0 <= l < a.len() && (#[trigger] a[l]).0.model() == m;
                assert(c[l].0.model() == m);
            }
        }
        increasing_keys_are_unique(c, d);
        assert forall|k: int| 0 <= k < a.len() implies (#[trigger] a[k]).0.model()
            == b[k].0.model() by {
            if k < c.len() {
                assert(c[k].0.model() == d[k].0.model());
            }
        }
    }
}

proof fn lemma_replace<K: Key, V>(s: Seq<(K, V)>, at: int, e: (K, V))
    requires
        keys_increase(s),
        0 <= at < s.len(),
        s[at].0.model() == e.0.model(),
    ensures
        keys_increase(s.update(at, e)),
        entries_map(s.update(at, e)) == entries_map(s).insert(e.0.model(), e.1),
{
    let t = s.update(at, e);
    assert forall|i: int, j: int| 0 <= i < j < t.len() implies bytes_lt(
        K::order_bytes(#[trigger] t[i].0.model()),
        K::order_bytes(#[trigger] t[j].0.model()),
    ) by {
        assert(t[i].0.model() == s[i].0.model());
        assert(t[j].0.model() == s[j].0.model());
    }
    assert forall|m: K::M|
        #![trigger has_key(t, m)]
        #![trigger entries_map(s).insert(e.0.model(), e.1).contains_key(m)]
        has_key(t, m) == entries_map(s).insert(e.0.model(), e.1).contains_key(m) by {
        if has_key(t, m) {
            let i = key_position(t, m);
            assert(s[i].0.model() == m);
        }
        if has_key(s, m) {
            let i = key_position(s, m);
            assert(t[i].0.model() == m);
        }
        assert(t[at].0.model() == e.0.model());
    }
    assert forall|i: int| 0 <= i < t.len() implies entries_map(s).insert(e.0.model(), e.1)[(
    #[trigger] t[i]).0.model()] == t[i].1 by {
        entry_found(s, i);
        if i != at {
            bytes_lt_irreflexive(K::order_bytes(e.0.model()));
            if i < at {
                assert(bytes_lt(K::order_bytes(s[i].0.model()), K::order_bytes(s[at].0.model())));
            } else {
                assert(bytes_lt(K::order_bytes(s[at].0.model()), K::order_bytes(s[i].0.model())));
            }
        }
    }
    lemma_map_is(t, entries_map(s).insert(e.0.model(), e.1));
}

proof fn lemma_map_is<K: Key, V>(s: Seq<(K, V)>, m: Map<K::M, V>)
    requires
        keys_increase(s),
        forall|k: K::M| #[trigger] has_key(s, k) == m.contains_key(k),
        forall|i: int| 0 <= i < s.len() ==> m[(#[trigger] s[i]).0.model()] == s[i].1,
    ensures
        entries_map(s) == m,
{
    assert forall|k: K::M| entries_map(s).contains_key(k) == m.contains_key(k) by {
        assert(has_key(s, k) == m.contains_key(k));
    }
    assert forall|k: K::M| entries_map(s).contains_key(k) implies entries_map(s)[k] == m[k] by {
        let i = key_position(s, k);
        assert(has_key(s, k));
        assert(s[i].0.model() == k);
    }
    assert(entries_map(s) =~= m);
}

proof fn lemma_insert<K: Key, V>(s: Seq<(K, V)>, at: int, e: (K, V))
    requires
        keys_increase(s),
        0 <= at <= s.len(),
        forall|i: int|
            0 <= i < at ==> bytes_lt(
                K::order_bytes(#[trigger] s[i].0.model()),
                K::order_bytes(e.0.model()),
            ),
        forall|i: int|
            at <= i < s.len() ==> bytes_lt(
                K::order_bytes(e.0.model()),
                K::order_bytes(#[trigger] s[i].0.model()),
            ),
    ensures
        keys_increase(s.insert(at, e)),
        entries_map(s.insert(at, e)) == entries_map(s).insert(e.0.model(), e.1),
{
    let t = s.insert(at, e);
    let m = entries_map(s).insert(e.0.model(), e.1);
    assert forall|i: int, j: int| 0 <= i < j < t.len() implies bytes_lt(
        K::order_bytes(#[trigger] t[i].0.model()),
        K::order_bytes(#[trigger] t[j].0.model()),
    ) by {
        let p = if i < at { i } else { i - 1 };
        let q = if j < at { j } else { j - 1 };
        if i != at {
            assert(t[i].0.model() == s[p].0.model());
        }
        if j != at {
            assert(t[j].0.model() == s[q].0.model());
        }
    }
    assert forall|k: K::M| #[trigger] has_key(t, k) == m.contains_key(k) by {
        if has_key(t, k) {
            let i = key_position(t, k);
            let p = if i < at { i } else { i - 1 };
            if i != at {
                assert(s[p].0.model() == k);
            }
        }
        if has_key(s, k) {
            let p = key_position(s, k);
            let i = if p < at { p } else { p + 1 };
            assert(t[i].0.model() == k);
        }
        assert(t[at].0.model() == e.0.model());
    }
    assert forall|i: int| 0 <= i < t.len() implies m[(#[trigger] t[i]).0.model()] == t[i].1 by {
        if i != at {
            let p = if i < at { i } else { i - 1 };
            assert(t[i] == s[p]);
            entry_found(s, p);
            bytes_lt_irreflexive(K::order_bytes(e.0.model()));
        }
    }
    lemma_map_is(t, m);
}

proof fn lemma_remove<K: Key, V>(s: Seq<(K, V)>, at: int)
    requires
        keys_increase(s),
        0 <= at < s.len(),
    ensures
        keys_increase(s.remove(at)),
        entries_map(s.remove(at)) == entries_map(s).remove(s[at].0.model()),
{
    let t = s.remove(at);
    let m = entries_map(s).remove(s[at].0.model());
    assert forall|i: int, j: int| 0 <= i < j < t.len() implies bytes_lt(
        K::order_bytes(#[trigger] t[i].0.model()),
        K::order_bytes(#[trigger] t[j].0.model()),
    ) by {
        let p = if i < at { i } else { i + 1 };
        let q = if j < at { j } else { j + 1 };
        assert(t[i].0.model() == s[p].0.model());
        assert(t[j].0.model() == s[q].0.model());
    }
    assert forall|k: K::M| #[trigger] has_key(t, k) == m.contains_key(k) by {
        if has_key(t, k) {
            let i = key_position(t, k);
            let p = if i < at { i } else { i + 1 };
            assert(s[p].0.model() == k);
            entry_found(s, p);
            entry_found(s, at);
        }
        if has_key(s, k) && k != s[at].0.model() {
            let p = key_position(s, k);
            let i = if p < at { p } else { p - 1 };
            assert(t[i].0.model() == k);
        }
    }
    assert forall|i: int| 0 <= i < t.len() implies m[(#[trigger] t[i]).0.model()] == t[i].1 by {
        let p = if i < at { i } else { i + 1 };
        assert(t[i] == s[p]);
        entry_found(s, p);
        entry_found(s, at);
    }
    lemma_map_is(t, m);
}

impl<V> OrdMap<String, V> {
    /// The value bound to a name.
    pub fn get_text(&self, key: &str) -> (r: Option<&V>)
        ensures
            r == (if self@.contains_key(key@) {
                Some(&self@[key@])
            } else {
                None
            }),
    {
        match self.find(key.as_bytes(), Ghost(key@)) {
            Some(at) => Some(&self.entries[at].1),
            None => None,
        }
    }
}

/// The keys of the first `upto` entries that meet a condition, in order.
pub open spec fn picked<V>(
    entries: Seq<(String, V)>,
    upto: int,
    keep: spec_fn(Seq<char>) -> bool,
) -> Seq<Seq<char>>
    decreases upto,
{
    if upto <= 0 {
        seq![]
    } else if keep(entries[upto - 1].0@) {
        picked(entries, upto - 1, keep).push(entries[upto - 1].0@)
    } else {
        picked(entries, upto - 1, keep)
    }
}

proof fn lemma_picked_prefix<V>(
    entries: Seq<(String, V)>,
    upto: int,
    keep: spec_fn(Seq<char>) -> bool,
)
    requires
        keys_increase(entries),
        0 <= upto <= entries.len(),
    ensures
        increasing(picked(entries, upto, keep)),
        forall|n: Seq<char>| #[trigger]
            picked(entries, upto, keep).contains(n) <==> keep(n) && exists|i: int|
                0 <= i < upto && (#[trigger] entries[i]).0@ == n,
    decreases upto,
{
    if upto > 0 {
        lemma_picked_prefix(entries, upto - 1, keep);
        let p = picked(entries, upto - 1, keep);
        let q = picked(entries, upto, keep);
        let last = entries[upto - 1].0@;
        assert forall|i: int, j: int| 0 <= i < j < q.len() implies crate::order::text_lt(
            #[trigger] q[i],
            #[trigger] q[j],
        ) by {
            if j < p.len() {
                assert(q[i] == p[i]);
                assert(q[j] == p[j]);
            } else {
                assert(q[i] == p[i]);
                assert(p.contains(p[i]));
                let k = choose|k: int| 0 <= k < upto - 1 && (#[trigger] entries[k]).0@ == p[i];
                assert(entries[k].0.model() == p[i]);
                assert(entries[upto - 1].0.model() == last);
            }
        }
        assert forall|n: Seq<char>| #[trigger] q.contains(n) <==> keep(n) && exists|i: int|
            0 <= i < upto && (#[trigger] entries[i]).0@ == n by {
            if q.contains(n) {
                let i = q.index_of(n);
                if i < p.len() {
                    assert(p.contains(p[i]));
                } else {
                    assert(entries[upto - 1].0@ == n);
                }
            }
            if keep(n) && exists|i: int| 0 <= i < upto && (#[trigger] entries[i]).0@ == n {
                let i = choose|i: int| 0 <= i < upto && (#[trigger] entries[i]).0@ == n;
                if i < upto - 1 {
                    assert(p.contains(n));
                    let k = p.index_of(n);
                    assert(q[k] == n);
                } else {
                    assert(q[q.len() - 1] == n);
                }
            }
        }
    }
}

/// The picked keys of a map list the keys that meet the condition.
pub proof fn picked_enumerates<V>(entries: Seq<(String, V)>, keep: spec_fn(Seq<char>) -> bool)
    requires
        keys_increase(entries),
    ensures
        enumerates(
            picked(entries, entries.len() as int, keep),
            Set::new(|n: Seq<char>| entries_map(entries).contains_key(n) && keep(n)),
        ),
{
    lemma_picked_prefix(entries, entries.len() as int, keep);
    let p = picked(entries, entries.len() as int, keep);
    let set = Set::new(|n: Seq<char>| entries_map(entries).contains_key(n) && keep(n));
    assert forall|n: Seq<char>| p.contains(n) <==> set.contains(n) by {
        if p.contains(n) {
            let i = choose|i: int| 0 <= i < entries.len() && (#[trigger] entries[i]).0@ == n;
            assert(entries[i].0.model() == n);
        }
        if has_key(entries, n) {
            let i = key_position(entries, n);
            assert(entries[i].0@ == n);
        }
    }
}

} // verus!
