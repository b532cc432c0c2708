use vstd::prelude::*;
use crate::base::error::Error;
use crate::util::cstring::{str_from_utf8, until_nul, CString};
use vstd::utf8::valid_utf8;

verus! {

/// Byte-string equality.
pub fn bytes_eq(a: &[u8], b: &[u8]) -> (r: bool)
    ensures
        r == (a@ == b@),
{
    if a.len() != b.len() {
        return false;
    }
    let mut i: usize = 0;
    while i < a.len()
        invariant
            a@.len() == b@.len(),
            0 <= i <= a@.len(),
            a@.take(i as int) == b@.take(i as int),
        decreases a@.len() - i,
    {
        if a[i] != b[i] {
            assert(a@[i as int] != b@[i as int]);
            return false;
        }
        assert(a@.take(i + 1) =~= a@.take(i as int).push(a@[i as int]));
        assert(b@.take(i + 1) =~= b@.take(i as int).push(b@[i as int]));
        i += 1;
    }
    assert(a@ =~= a@.take(a@.len() as int));
    assert(b@ =~= b@.take(b@.len() as int));
    true
}

/// A fresh vector holding the given bytes.
pub fn copy_bytes(s: &[u8]) -> (r: Vec<u8>)
    ensures
        r@ == s@,
{
    let mut r: Vec<u8> = Vec::with_capacity(s.len());
    let mut i: usize = 0;
    while i < s.len()
        invariant
            0 <= i <= s@.len(),
            r@ == s@.take(i as int),
        decreases s@.len() - i,
    {
        r.push(s[i]);
        i += 1;
        assert(r@ =~= s@.take(i as int));
    }
    assert(s@.take(s@.len() as int) =~= s@);
    r
}

/// The order of keys in a database: the first differing byte decides, and a proper prefix
/// comes first.
pub open spec fn key_lt(a: Seq<u8>, b: Seq<u8>) -> bool
    decreases a.len(),
{
    if b.len() == 0 {
        false
    } else if a.len() == 0 {
        true
    } else if a[0] < b[0] {
        true
    } else if a[0] > b[0] {
        false
    } else {
        key_lt(a.skip(1), b.skip(1))
    }
}

/// The key order is strict.
pub proof fn lemma_key_lt_irreflexive(a: Seq<u8>)
    ensures
        !key_lt(a, a),
    decreases a.len(),
{
    if a.len() > 0 {
        lemma_key_lt_irreflexive(a.skip(1));
    }
}

/// The key order is transitive.
pub proof fn lemma_key_lt_transitive(a: Seq<u8>, b: Seq<u8>, c: Seq<u8>)
    requires
        key_lt(a, b),
        key_lt(b, c),
    ensures
        key_lt(a, c),
    decreases a.len(),
{
    if a.len() > 0 && a[0] == b[0] && b[0] == c[0] {
        lemma_key_lt_transitive(a.skip(1), b.skip(1), c.skip(1));
    }
}

/// Any two different keys are ordered one way or the other.
pub proof fn lemma_key_lt_total(a: Seq<u8>, b: Seq<u8>)
    requires
        a != b,
    ensures
        key_lt(a, b) || key_lt(b, a),
    decreases a.len(),
{
    if a.len() == 0 {
        assert(b.len() > 0) by {
            if b.len() == 0 {
                assert(a =~= b);
            }
        }
    } else if b.len() > 0 && a[0] == b[0] {
        if a.skip(1) == b.skip(1) {
            assert(a =~= seq![a[0]] + a.skip(1));
            assert(b =~= seq![b[0]] + b.skip(1));
        }
        lemma_key_lt_total(a.skip(1), b.skip(1));
    }
}

/// The key order is asymmetric.
pub proof fn lemma_key_lt_asymmetric(a: Seq<u8>, b: Seq<u8>)
    requires
        key_lt(a, b),
    ensures
        !key_lt(b, a),
{
    if key_lt(b, a) {
        lemma_key_lt_transitive(a, b, a);
        lemma_key_lt_irreflexive(a);
    }
}

/// Whether `a` comes before `b` in the key order.
pub fn key_less(a: &[u8], b: &[u8]) -> (r: bool)
    ensures
        r == key_lt(a@, b@),
{
    let mut i: usize = 0;
    assert(a@.skip(0) =~= a@);
    assert(b@.skip(0) =~= b@);
    while i < a.len() && i < b.len()
        invariant
            i <= a@.len(),
            i <= b@.len(),
            key_lt(a@, b@) == key_lt(a@.skip(i as int), b@.skip(i as int)),
        decreases a@.len() - i,
    {
        let ghost sa = a@.skip(i as int);
        let ghost sb = b@.skip(i as int);
        assert(sa.skip(1) =~= a@.skip(i + 1));
        assert(sb.skip(1) =~= b@.skip(i + 1));
        if a[i] < b[i] {
            return true;
        }
        if a[i] > b[i] {
            return false;
        }
        i += 1;
    }
    i < b.len()
}

/// A key of `m` within the bound (after `lower` when `strict`, else at or after it).
pub open spec fn in_range(lower: Seq<u8>, strict: bool, k: Seq<u8>) -> bool {
    if strict {
        key_lt(lower, k)
    } else {
        !key_lt(k, lower)
    }
}

/// `k` is the least key of `m` within the bound.
pub open spec fn is_least_in_range(m: Map<Seq<u8>, Seq<u8>>, lower: Seq<u8>, strict: bool, k: Seq<u8>) -> bool {
    &&& m.contains_key(k)
    &&& in_range(lower, strict, k)
    &&& forall|k2: Seq<u8>| #[trigger] m.contains_key(k2) && in_range(lower, strict, k2) ==> !key_lt(k2, k)
}

/// The least key of `m` within the bound, if any.
pub open spec fn least_in_range(m: Map<Seq<u8>, Seq<u8>>, lower: Seq<u8>, strict: bool) -> Option<Seq<u8>> {
    if exists|k: Seq<u8>| is_least_in_range(m, lower, strict, k) {
        Some(choose|k: Seq<u8>| is_least_in_range(m, lower, strict, k))
    } else {
        None
    }
}

/// There is only one least key.
pub proof fn lemma_least_unique(m: Map<Seq<u8>, Seq<u8>>, lower: Seq<u8>, strict: bool, a: Seq<u8>, b: Seq<u8>)
    requires
        is_least_in_range(m, lower, strict, a),
        is_least_in_range(m, lower, strict, b),
    ensures
        a == b,
{
    if a != b {
        lemma_key_lt_total(a, b);
    }
}

/// The contents of a key-value database: byte-string keys mapped to byte-string values.
pub struct KvStore {
    entries: Vec<(Vec<u8>, Vec<u8>)>,
}

impl KvStore {
    /// The key of entry `i`.
    pub closed spec fn key_at(&self, i: int) -> Seq<u8> {
        self.entries@[i].0@
    }

    /// No key is stored twice.
    pub closed spec fn wf(&self) -> bool {
        forall|i: int, j: int|
            0 <= i < self.entries@.len() && 0 <= j < self.entries@.len() && i != j
                ==> self.entries@[i].0@ != self.entries@[j].0@
    }

    /// The stored pairs as a map from keys to values.
    pub closed spec fn view(&self) -> Map<Seq<u8>, Seq<u8>> {
        Map::new(
            |k: Seq<u8>| exists|i: int| 0 <= i < self.entries@.len() && self.entries@[i].0@ == k,
            |k: Seq<u8>|
                self.entries@[choose|i: int| 0 <= i < self.entries@.len() && self.entries@[i].0@
                    == k].1@,
        )
    }

    proof fn lemma_view_at(&self, i: int)
        requires
            self.wf(),
            0 <= i < self.entries@.len(),
        ensures
            self.view().contains_key(self.entries@[i].0@),
            self.view()[self.entries@[i].0@] == self.entries@[i].1@,
    {
        let k = self.entries@[i].0@;
        assert(exists|j: int| 0 <= j < self.entries@.len() && self.entries@[j].0@ == k);
        let j = choose|j: int| 0 <= j < self.entries@.len() && self.entries@[j].0@ == k;
        assert(i == j);
    }

    /// An empty store.
    pub fn new() -> (r: Self)
        ensures
            r.wf(),
            r@ == Map::<Seq<u8>, Seq<u8>>::empty(),
    {
        let r = KvStore { entries: Vec::new() };
        assert(r@ =~= Map::<Seq<u8>, Seq<u8>>::empty());
        r
    }

    fn find(&self, key: &[u8]) -> (r: Option<usize>)
        requires
            self.wf(),
        ensures
            r matches Some(i) ==> i < self.entries@.len() && self.entries@[i as int].0@ == key@,
            r is None ==> !self@.contains_key(key@),
    {
        let mut i: usize = 0;
        while i < self.entries.len()
            invariant
                0 <= i <= self.entries@.len(),
                forall|j: int| 0 <= j < i ==> self.entries@[j].0@ != key@,
            decreases self.entries@.len() - i,
        {
            if bytes_eq(self.entries[i].0.as_slice(), key) {
                return Some(i);
            }
            i += 1;
        }
        None
    }

    /// The value stored under `key`, if any.
    pub fn get(&self, key: &[u8]) -> (r: Option<&[u8]>)
        requires
            self.wf(),
        ensures
            r matches Some(v) ==> self@.contains_key(key@) && v@ == self@[key@],
            r is None ==> !self@.contains_key(key@),
    {
        match self.find(key) {
            Some(i) => {
                proof { self.lemma_view_at(i as int); }
                Some(self.entries[i].1.as_slice())
            },
            None => None,
        }
    }

    /// Stores `value` under `key`, replacing what was there.
    pub fn put(&mut self, key: &[u8], value: &[u8])
        requires
            old(self).wf(),
        ensures
            final(self).wf(),
            final(self)@ == old(self)@.insert(key@, value@),
    {
        let ghost before = *self;
        let v = copy_bytes(value);
        match self.find(key) {
            Some(i) => {
                let k = copy_bytes(key);
                self.entries.set(i, (k, v));
                proof {
                    assert forall|j: int| 0 <= j < self.entries@.len() && j != i implies
                        self.entries@[j] == before.entries@[j] by {}
                    assert(self.wf());
                    assert forall|kk: Seq<u8>| #[trigger] self@.contains_key(kk)
                        <==> before@.insert(key@, value@).contains_key(kk) by {
                        if before@.contains_key(kk) && kk != key@ {
                            let j = choose|j: int| 0 <= j < before.entries@.len()
                                && before.entries@[j].0@ == kk;
                            assert(self.entries@[j].0@ == kk);
                        }
                        if kk == key@ {
                            assert(self.entries@[i as int].0@ == kk);
                        }
                    }
                    assert forall|kk: Seq<u8>| #[trigger] self@.contains_key(kk) implies self@[kk]
                        == before@.insert(key@, value@)[kk] by {
                        let j = choose|j: int| 0 <= j < self.entries@.len() && self.entries@[j].0@
                            == kk;
                        self.lemma_view_at(j);
                        if j != i {
                            before.lemma_view_at(j);
                        }
                    }
                    assert(self@ =~= before@.insert(key@, value@));
                }
            },
            None => {
                let k = copy_bytes(key);
                self.entries.push((k, v));
                proof {
                    let n = before.entries@.len();
                    assert forall|j: int| 0 <= j < n implies self.entries@[j] == before.entries@[j]
                        by {}
                    assert forall|a: int, b: int|
                        0 <= a < self.entries@.len() && 0 <= b < self.entries@.len() && a != b
                            implies self.entries@[a].0@ != self.entries@[b].0@ by {
                        if a == n {
                            assert(!before@.contains_key(key@));
                            if self.entries@[b].0@ == key@ {
                                assert(before.entries@[b].0@ == key@);
                            }
                        } else if b == n {
                            if self.entries@[a].0@ == key@ {
                                assert(before.entries@[a].0@ == key@);
                            }
                        }
                    }
                    assert(self.wf());
                    assert forall|kk: Seq<u8>| #[trigger] self@.contains_key(kk)
                        <==> before@.insert(key@, value@).contains_key(kk) by {
                        if before@.contains_key(kk) {
                            let j = choose|j: int| 0 <= j < before.entries@.len()
                                && before.entries@[j].0@ == kk;
                            assert(self.entries@[j].0@ == kk);
                        }
                        if kk == key@ {
                            assert(self.entries@[n as int].0@ == kk);
                        }
                        if self@.contains_key(kk) && kk != key@ {
                            let j = choose|j: int| 0 <= j < self.entries@.len()
                                && self.entries@[j].0@ == kk;
                            assert(j != n);
                            assert(before.entries@[j].0@ == kk);
                        }
                    }
                    assert forall|kk: Seq<u8>| #[trigger] self@.contains_key(kk) implies self@[kk]
                        == before@.insert(key@, value@)[kk] by {
                        let j = choose|j: int| 0 <= j < self.entries@.len() && self.entries@[j].0@
                            == kk;
                        self.lemma_view_at(j);
                        if j != n {
                            before.lemma_view_at(j);
                        }
                    }
                    assert(self@ =~= before@.insert(key@, value@));
                }
            },
        }
    }

    /// Removes `key`; true when it was there.
    pub fn del(&mut self, key: &[u8]) -> (r: bool)
        requires
            old(self).wf(),
        ensures
            final(self).wf(),
            final(self)@ == old(self)@.remove(key@),
            r == old(self)@.contains_key(key@),
    {
        let ghost before = *self;
        match self.find(key) {
            Some(i) => {
                self.entries.remove(i);
                proof {
                    before.lemma_view_at(i as int);
                    let n = before.entries@.len();
                    assert forall|j: int| 0 <= j < self.entries@.len() implies self.entries@[j]
                        == before.entries@[if j < i { j } else { j + 1 }] by {}
                    assert(self.wf());
                    assert forall|kk: Seq<u8>| #[trigger] self@.contains_key(kk)
                        <==> before@.remove(key@).contains_key(kk) by {
                        if before@.contains_key(kk) && kk != key@ {
                            let j = choose|j: int| 0 <= j < before.entries@.len()
                                && before.entries@[j].0@ == kk;
                            assert(j != i);
                            let j2 = if j < i { j } else { j - 1 };
                            assert(self.entries@[j2].0@ == kk);
                        }
                        if self@.contains_key(kk) {
                            let j = choose|j: int| 0 <= j < self.entries@.len()
                                && self.entries@[j].0@ == kk;
                            let j1 = if j < i { j } else { j + 1 };
                            assert(before.entries@[j1].0@ == kk);
                            assert(j1 != i);
                        }
                    }
                    assert forall|kk: Seq<u8>| #[trigger] self@.contains_key(kk) implies self@[kk]
                        == before@.remove(key@)[kk] by {
                        let j = choose|j: int| 0 <= j < self.entries@.len() && self.entries@[j].0@
                            == kk;
                        self.lemma_view_at(j);
                        let j1 = if j < i { j } else { j + 1 };
                        before.lemma_view_at(j1);
                    }
                    assert(self@ =~= before@.remove(key@));
                }
                true
            },
            None => {
                assert(self@ =~= before@.remove(key@));
                false
            },
        }
    }

    /// An independent copy of the store.
    pub fn duplicate(&self) -> (r: KvStore)
        requires
            self.wf(),
        ensures
            r.wf(),
            r@ == self@,
    {
        let mut entries: Vec<(Vec<u8>, Vec<u8>)> = Vec::new();
        let mut i: usize = 0;
        while i < self.entries.len()
            invariant
                0 <= i <= self.entries@.len(),
                entries@.len() == i,
                forall|j: int| 0 <= j < i ==> #[trigger] entries@[j].0@ == self.entries@[j].0@
                    && entries@[j].1@ == self.entries@[j].1@,
            decreases self.entries@.len() - i,
        {
            let k = copy_bytes(self.entries[i].0.as_slice());
            let v = copy_bytes(self.entries[i].1.as_slice());
            entries.push((k, v));
            i += 1;
        }
        let r = KvStore { entries };
        proof {
            assert forall|kk: Seq<u8>| #[trigger] r@.contains_key(kk) <==> self@.contains_key(kk)
                by {
                if r@.contains_key(kk) {
                    let j = choose|j: int| 0 <= j < r.entries@.len() && r.entries@[j].0@ == kk;
                    assert(self.entries@[j].0@ == kk);
                }
                if self@.contains_key(kk) {
                    let j = choose|j: int| 0 <= j < self.entries@.len() && self.entries@[j].0@
                        == kk;
                    assert(r.entries@[j].0@ == kk);
                }
            }
            assert forall|kk: Seq<u8>| #[trigger] r@.contains_key(kk) implies r@[kk] == self@[kk]
                by {
                let j = choose|j: int| 0 <= j < r.entries@.len() && r.entries@[j].0@ == kk;
                r.lemma_view_at(j);
                self.lemma_view_at(j);
            }
            assert(r@ =~= self@);
        }
        r
    }
}

impl KvStore {
    /// The entry holding the least key within the bound (see `least_in_range`), if any.
    fn least_index(&self, lower: &[u8], strict: bool) -> (r: Option<usize>)
        requires
            self.wf(),
        ensures
            match r {
                Some(i) => i < self.entries@.len() && least_in_range(self@, lower@, strict) == Some(
                    self.entries@[i as int].0@),
                None => least_in_range(self@, lower@, strict) is None,
            },
    {
        let mut best: Option<usize> = None;
        let mut i: usize = 0;
        while i < self.entries.len()
            invariant
                self.wf(),
                0 <= i <= self.entries@.len(),
                match best {
                    Some(b) => b < i && in_range(lower@, strict, self.entries@[b as int].0@)
                        && forall|j: int| 0 <= j < i && #[trigger] in_range(lower@, strict,
                        self.entries@[j].0@) ==> !key_lt(self.entries@[j].0@, self.entries@[b as int].0@),
                    None => forall|j: int| 0 <= j < i ==> !#[trigger] in_range(lower@, strict,
                        self.entries@[j].0@),
                },
            decreases self.entries@.len() - i,
        {
            let k = self.entries[i].0.as_slice();
            let ok = if strict {
                key_less(lower, k)
            } else {
                !key_less(k, lower)
            };
            if ok {
                match best {
                    None => {
                        proof { lemma_key_lt_irreflexive(self.entries@[i as int].0@); }
                        best = Some(i);
                    },
                    Some(b) => {
                        if key_less(k, self.entries[b].0.as_slice()) {
                            proof {
                                assert forall|j: int| 0 <= j < i + 1 && #[trigger] in_range(lower@,
                                    strict, self.entries@[j].0@) implies !key_lt(self.entries@[j].0@,
                                    self.entries@[i as int].0@) by {
                                    if j < i {
                                        if key_lt(self.entries@[j].0@, self.entries@[i as int].0@) {
                                            lemma_key_lt_transitive(self.entries@[j].0@,
                                                self.entries@[i as int].0@, self.entries@[b as int].0@);
                                        }
                                    } else {
                                        lemma_key_lt_irreflexive(self.entries@[i as int].0@);
                                    }
                                }
                            }
                            best = Some(i);
                        } else {
                            proof {
                                assert forall|j: int| 0 <= j < i + 1 && #[trigger] in_range(lower@,
                                    strict, self.entries@[j].0@) implies !key_lt(self.entries@[j].0@,
                                    self.entries@[b as int].0@) by {
                                    if j == i {
                                    }
                                }
                            }
                        }
                    },
                }
            }
            i += 1;
        }
        proof {
            match best {
                Some(b) => {
                    let k = self.entries@[b as int].0@;
                    self.lemma_view_at(b as int);
                    assert forall|k2: Seq<u8>| #[trigger] self@.contains_key(k2) && in_range(lower@,
                        strict, k2) implies !key_lt(k2, k) by {
                        let j = choose|j: int| 0 <= j < self.entries@.len() && self.entries@[j].0@ == k2;
                        assert(in_range(lower@, strict, self.entries@[j].0@));
                    }
                    assert(is_least_in_range(self@, lower@, strict, k));
                    let c = choose|k3: Seq<u8>| is_least_in_range(self@, lower@, strict, k3);
                    lemma_least_unique(self@, lower@, strict, c, k);
                },
                None => {
                    if exists|k3: Seq<u8>| is_least_in_range(self@, lower@, strict, k3) {
                        let k3 = choose|k3: Seq<u8>| is_least_in_range(self@, lower@, strict, k3);
                        let j = choose|j: int| 0 <= j < self.entries@.len() && self.entries@[j].0@ == k3;
                        assert(in_range(lower@, strict, self.entries@[j].0@));
                    }
                },
            }
        }
        best
    }
}

/// What the contents give back after a write (see `KvStore::put`, `KvStore::del` and
/// `KvStore::get`): a value put under a key is read back under it, a deleted key reads as
/// absent, and every other key reads as before.
pub proof fn lemma_read_after_write(m: Map<Seq<u8>, Seq<u8>>, k: Seq<u8>, v: Seq<u8>, other: Seq<u8>)
    requires
        other != k,
    ensures
        m.insert(k, v).contains_key(k) && m.insert(k, v)[k] == v,
        !m.remove(k).contains_key(k),
        m.insert(k, v).contains_key(other) == m.contains_key(other),
        m.remove(k).contains_key(other) == m.contains_key(other),
        m.contains_key(other) ==> m.insert(k, v)[other] == m[other] && m.remove(k)[other] == m[other],
{
}

/// A transaction on a database: a working copy of its contents, writable or read-only.
pub struct LmdbTxn {
    store: KvStore,
    write: bool,
}

impl LmdbTxn {
    /// What the transaction sees.
    pub closed spec fn view(&self) -> Map<Seq<u8>, Seq<u8>> {
        self.store@
    }

    /// Whether writes are allowed.
    pub closed spec fn is_write(&self) -> bool {
        self.write
    }

    /// The transaction's contents are well formed.
    pub closed spec fn wf(&self) -> bool {
        self.store.wf()
    }

    /// A transaction over the given contents.
    pub fn new(store: KvStore, write: bool) -> (r: Self)
        requires
            store.wf(),
        ensures
            r.wf(),
            r@ == store@,
            r.is_write() == write,
    {
        LmdbTxn { store, write }
    }

    /// The value stored under `key`, if any.
    pub fn get(&self, key: &[u8]) -> (r: Result<Option<&[u8]>, Error>)
        requires
            self.wf(),
        ensures
            r is Ok,
            r matches Ok(Some(v)) ==> self@.contains_key(key@) && v@ == self@[key@],
            r matches Ok(None) ==> !self@.contains_key(key@),
    {
        Ok(self.store.get(key))
    }

    /// Stores `value` under `key`; fails with `IllegalState` in a read-only transaction.
    pub fn put(&mut self, key: &[u8], value: &[u8]) -> (r: Result<(), Error>)
        requires
            old(self).wf(),
        ensures
            final(self).wf(),
            final(self).is_write() == old(self).is_write(),
            old(self).is_write() ==> r is Ok && final(self)@ == old(self)@.insert(key@, value@),
            !old(self).is_write() ==> r == Err::<(), Error>(Error::IllegalState) && final(self)@
                == old(self)@,
    {
        if !self.write {
            return Err(Error::IllegalState);
        }
        self.store.put(key, value);
        Ok(())
    }

    /// Removes `key`, telling whether it was there; fails with `IllegalState` in a read-only
    /// transaction.
    pub fn del(&mut self, key: &[u8]) -> (r: Result<bool, Error>)
        requires
            old(self).wf(),
        ensures
            final(self).wf(),
            final(self).is_write() == old(self).is_write(),
            old(self).is_write() ==> r == Ok::<bool, Error>(old(self)@.contains_key(key@))
                && final(self)@ == old(self)@.remove(key@),
            !old(self).is_write() ==> r == Err::<bool, Error>(Error::IllegalState) && final(self)@
                == old(self)@,
    {
        if !self.write {
            return Err(Error::IllegalState);
        }
        Ok(self.store.del(key))
    }

    /// Whether the transaction is writable.
    pub fn is_write_flag(&self) -> (r: bool)
        ensures
            r == self.is_write(),
    {
        self.write
    }

    /// Gives back the contents, to be made durable by the database.
    pub fn into_store(self) -> (r: KvStore)
        requires
            self.wf(),
        ensures
            r.wf(),
            r@ == self@,
    {
        self.store
    }

    /// An independent transaction with the same contents.
    pub fn duplicate(&self) -> (r: LmdbTxn)
        requires
            self.wf(),
        ensures
            r.wf(),
            r@ == self@,
            r.is_write() == self.is_write(),
    {
        LmdbTxn { store: self.store.duplicate(), write: self.write }
    }
}


/// Where a cursor stands: before its first key, at a key it has visited, or past its last
/// key.
pub enum CursorPos {
    Start,
    At(Vec<u8>),
    Done,
}

/// A cursor's position as plain values.
pub enum PosView {
    Start,
    At(Seq<u8>),
    Done,
}

/// The key a cursor over `m` from `start` visits next from position `p`: the least key at or
/// after `start` first, then the least key after the one it stands at.
pub open spec fn next_key(m: Map<Seq<u8>, Seq<u8>>, start: Seq<u8>, p: PosView) -> Option<Seq<u8>> {
    match p {
        PosView::Start => least_in_range(m, start, false),
        PosView::At(k) => least_in_range(m, k, true),
        PosView::Done => None,
    }
}

/// Where a cursor stands after visiting the given next key (or finding none).
pub open spec fn pos_after(next: Option<Seq<u8>>) -> PosView {
    match next {
        Some(k) => PosView::At(k),
        None => PosView::Done,
    }
}

/// The front of `old` overwritten with as much of `data` as fits.
pub open spec fn copy_front(old: Seq<u8>, data: Seq<u8>) -> Seq<u8> {
    let n = if data.len() < old.len() { data.len() } else { old.len() };
    data.take(n as int) + old.skip(n as int)
}

/// Copies as much of `src` as fits to the front of `dst`.
fn copy_prefix(dst: &mut [u8], src: &[u8])
    ensures
        final(dst)@ == copy_front(old(dst)@, src@),
{
    let n = if src.len() < dst.len() { src.len() } else { dst.len() };
    let mut i: usize = 0;
    while i < n
        invariant
            n <= src@.len(),
            n <= dst@.len(),
            dst@.len() == old(dst)@.len(),
            n == (if src@.len() < old(dst)@.len() { src@.len() } else { old(dst)@.len() }),
            i <= n,
            dst@ == src@.take(i as int) + old(dst)@.skip(i as int),
        decreases n - i,
    {
        dst[i] = src[i];
        i += 1;
        assert(dst@ =~= src@.take(i as int) + old(dst)@.skip(i as int));
    }
}

/// A cursor over a snapshot of a transaction's contents: it visits the keys from a start key
/// on, in key order.
pub struct LmdbCursor {
    store: KvStore,
    start: Vec<u8>,
    prefix: CString,
    pos: CursorPos,
}

impl LmdbCursor {
    /// The contents the cursor walks.
    pub closed spec fn contents(&self) -> Map<Seq<u8>, Seq<u8>> {
        self.store@
    }

    /// The key the walk starts at.
    pub closed spec fn start(&self) -> Seq<u8> {
        self.start@
    }

    /// The prefix that `next` requires of the keys it gives.
    pub closed spec fn prefix(&self) -> Seq<u8> {
        self.prefix@
    }

    /// Where the cursor stands.
    pub closed spec fn position(&self) -> PosView {
        match self.pos {
            CursorPos::Start => PosView::Start,
            CursorPos::At(k) => PosView::At(k@),
            CursorPos::Done => PosView::Done,
        }
    }

    /// The cursor is well formed.
    pub closed spec fn wf(&self) -> bool {
        self.store.wf()
    }

    /// Moves to the next key: gives its entry, or none when the walk is over.
    fn advance(&mut self) -> (r: Option<usize>)
        requires
            old(self).wf(),
        ensures
            final(self).wf(),
            final(self).contents() == old(self).contents(),
            final(self).start() == old(self).start(),
            final(self).prefix() == old(self).prefix(),
            final(self).store == old(self).store,
            final(self).position() == pos_after(next_key(old(self).contents(), old(self).start(),
                old(self).position())),
            match r {
                Some(i) => i < old(self).store.entries@.len() && next_key(old(self).contents(),
                    old(self).start(), old(self).position()) == Some(old(self).store.entries@[i as int].0@),
                None => next_key(old(self).contents(), old(self).start(), old(self).position()) is None,
            },
    {
        let found = match &self.pos {
            CursorPos::Start => self.store.least_index(self.start.as_slice(), false),
            CursorPos::At(k) => self.store.least_index(k.as_slice(), true),
            CursorPos::Done => None,
        };
        match found {
            Some(i) => {
                let k = copy_bytes(self.store.entries[i].0.as_slice());
                self.pos = CursorPos::At(k);
            },
            None => {
                self.pos = CursorPos::Done;
            },
        }
        found
    }

    /// Copies the next key and its value into `key` and `value` (as much of each as fits)
    /// and gives their full lengths; `None` when the walk is over. No prefix is required of
    /// the key.
    pub fn next_bytes(&mut self, key: &mut [u8], value: &mut [u8]) -> (r: Result<Option<(usize, usize)>, Error>)
        requires
            old(self).wf(),
        ensures
            final(self).wf(),
            final(self).contents() == old(self).contents(),
            final(self).start() == old(self).start(),
            final(self).prefix() == old(self).prefix(),
            final(self).position() == pos_after(next_key(old(self).contents(), old(self).start(),
                old(self).position())),
            match next_key(old(self).contents(), old(self).start(), old(self).position()) {
                Some(k) => r == Ok::<Option<(usize, usize)>, Error>(Some((k.len() as usize, old(
                    self).contents()[k].len() as usize))) && final(key)@ == copy_front(old(key)@, k)
                    && final(value)@ == copy_front(old(value)@, old(self).contents()[k]),
                None => r == Ok::<Option<(usize, usize)>, Error>(None) && final(key)@ == old(key)@
                    && final(value)@ == old(value)@,
            },
    {
        match self.advance() {
            Some(i) => {
                proof { self.store.lemma_view_at(i as int); }
                let k = self.store.entries[i].0.as_slice();
                let v = self.store.entries[i].1.as_slice();
                copy_prefix(key, k);
                copy_prefix(value, v);
                Ok(Some((k.len(), v.len())))
            },
            None => Ok(None),
        }
    }

    /// The next key and its value, each up to its first zero byte, when the key (so cut)
    /// starts with the cursor's prefix; `None` when it does not or when the walk is over.
    pub fn next(&mut self) -> (r: Option<(CString, CString)>)
        requires
            old(self).wf(),
        ensures
            final(self).wf(),
            final(self).contents() == old(self).contents(),
            final(self).start() == old(self).start(),
            final(self).prefix() == old(self).prefix(),
            final(self).position() == pos_after(next_key(old(self).contents(), old(self).start(),
                old(self).position())),
            match next_key(old(self).contents(), old(self).start(), old(self).position()) {
                Some(k) => if until_nul(k).len() >= old(self).prefix().len() && until_nul(k).take(
                    old(self).prefix().len() as int) == old(self).prefix() {
                    r matches Some((kc, vc)) && kc@ == until_nul(k) && vc@ == until_nul(
                        old(self).contents()[k])
                } else {
                    r is None
                },
                None => r is None,
            },
    {
        match self.advance() {
            Some(i) => {
                proof { self.store.lemma_view_at(i as int); }
                let kc = match CString::from_slice(self.store.entries[i].0.as_slice()) {
                    Ok(c) => c,
                    Err(_) => return None,
                };
                let kb = match kc.as_bytes() {
                    Ok(b) => b,
                    Err(_) => return None,
                };
                let pb = match self.prefix.as_bytes() {
                    Ok(b) => b,
                    Err(_) => return None,
                };
                if !crate::base::misc::slice_starts_with(kb.as_slice(), pb.as_slice()) {
                    return None;
                }
                let vc = match CString::from_slice(self.store.entries[i].1.as_slice()) {
                    Ok(c) => c,
                    Err(_) => return None,
                };
                Some((kc, vc))
            },
            None => None,
        }
    }
}

impl LmdbTxn {
    /// A cursor over a snapshot of the transaction's contents, starting at `key` and
    /// requiring (in `next`) the prefix `key` up to its first zero byte; `IllegalState`
    /// when `key` is not valid UTF-8.
    pub fn iter(&self, key: &[u8]) -> (r: Result<LmdbCursor, Error>)
        requires
            self.wf(),
        ensures
            !valid_utf8(key@) ==> r == Err::<LmdbCursor, Error>(Error::IllegalState),
            valid_utf8(key@) ==> (r matches Ok(c) && c.wf() && c.contents() == self@ && c.start()
                == key@ && c.prefix() == until_nul(key@) && c.position() == PosView::Start),
    {
        if str_from_utf8(key).is_none() {
            return Err(Error::IllegalState);
        }
        let prefix = match CString::from_slice(key) {
            Ok(c) => c,
            Err(_) => return Err(Error::IllegalState),
        };
        Ok(LmdbCursor { store: self.store.duplicate(), start: copy_bytes(key), prefix, pos: CursorPos::Start })
    }
}

} // verus!
