use vstd::prelude::*;
use crate::base::error::Error;
use crate::lmdb::txn::{KvStore, LmdbTxn};

verus! {

/// A database: its committed contents, kept in memory, and the path, name and map size it was
/// opened with (recorded; nothing is written to disk).
pub struct Lmdb {
    path: String,
    name: String,
    map_size: usize,
    store: KvStore,
}

impl Lmdb {
    /// The committed contents.
    pub closed spec fn view(&self) -> Map<Seq<u8>, Seq<u8>> {
        self.store@
    }

    /// The configured map size.
    pub closed spec fn spec_size(&self) -> usize {
        self.map_size
    }

    /// The database is well formed.
    pub closed spec fn wf(&self) -> bool {
        self.store.wf()
    }

    /// The directory the database lives in.
    pub closed spec fn spec_path(&self) -> Seq<char> {
        self.path@
    }

    /// The database's name.
    pub closed spec fn spec_name(&self) -> Seq<char> {
        self.name@
    }

    /// An empty database named `name` in directory `path`, with the given map size; the
    /// contents live in memory only.
    pub fn new(path: &str, name: &str, map_size: usize) -> (r: Result<Self, Error>)
        ensures
            r matches Ok(db) ==> db.wf() && db@ == Map::<Seq<u8>, Seq<u8>>::empty()
                && db.spec_size() == map_size && db.spec_path() == path@ && db.spec_name()
                == name@,
            r is Ok,
    {
        Ok(Lmdb { path: path.to_owned(), name: name.to_owned(), map_size, store: KvStore::new() })
    }

    /// A writable transaction over the committed contents.
    pub fn write(&self) -> (r: Result<LmdbTxn, Error>)
        requires
            self.wf(),
        ensures
            r matches Ok(t) ==> t.wf() && t@ == self@ && t.is_write(),
            r is Ok,
    {
        Ok(LmdbTxn::new(self.store.duplicate(), true))
    }

    /// A read-only transaction over the committed contents.
    pub fn read(&self) -> (r: Result<LmdbTxn, Error>)
        requires
            self.wf(),
        ensures
            r matches Ok(t) ==> t.wf() && t@ == self@ && !t.is_write(),
            r is Ok,
    {
        Ok(LmdbTxn::new(self.store.duplicate(), false))
    }

    /// Makes a writable transaction's contents the committed contents; a read-only
    /// transaction is simply dropped.
    pub fn commit(&mut self, txn: LmdbTxn) -> (r: Result<(), Error>)
        requires
            old(self).wf(),
            txn.wf(),
        ensures
            r is Ok,
            final(self).wf(),
            final(self).spec_size() == old(self).spec_size(),
            txn.is_write() ==> final(self)@ == txn@,
            !txn.is_write() ==> final(self)@ == old(self)@,
    {
        if txn.is_write_txn() {
            self.store = txn.into_store();
        }
        Ok(())
    }

    /// Changes the map size, keeping the contents.
    pub fn resize(&mut self, nsize: usize) -> (r: Result<(), Error>)
        ensures
            r is Ok,
            final(self).spec_size() == nsize,
            final(self)@ == old(self)@,
            final(self).wf() == old(self).wf(),
    {
        self.map_size = nsize;
        Ok(())
    }

    /// The committed value stored under `key`, if any.
    pub fn get(&self, key: &[u8]) -> (r: Option<&[u8]>)
        requires
            self.wf(),
        ensures
            r matches Some(v) ==> self@.contains_key(key@) && v@ == self@[key@],
            r is None ==> !self@.contains_key(key@),
    {
        self.store.get(key)
    }

    /// The configured map size.
    pub fn size(&self) -> (r: usize)
        ensures
            r == self.spec_size(),
    {
        self.map_size
    }
}

impl LmdbTxn {
    /// Whether the transaction is writable.
    pub fn is_write_txn(&self) -> (r: bool)
        ensures
            r == self.is_write(),
    {
        self.is_write_flag()
    }
}

} // verus!
