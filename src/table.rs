//! The identifier-keyed map of file records, held in a `hashbrown::HashMap`.

use crate::file::JsFile;
use vstd::prelude::*;

verus! {

/// A map from identifiers to file records.
#[verifier::external_body]
pub struct FileTable {
    map: hashbrown::HashMap<usize, JsFile>,
}

/// What a table holds.
pub uninterp spec fn table_contents(t: FileTable) -> Map<usize, JsFile>;

impl FileTable {
    /// Relies on `hashbrown::HashMap::new`: an empty map.
    #[verifier::external_body]
    pub(crate) fn new() -> (r: FileTable)
        ensures
            table_contents(r) =~= Map::empty(),
    {
        FileTable { map: hashbrown::HashMap::new() }
    }

    /// Relies on `hashbrown::HashMap::get`: the value stored under the key, if any.
    #[verifier::external_body]
    pub(crate) fn get(&self, id: usize) -> (r: Option<&JsFile>)
        ensures
            r is Some <==> table_contents(*self).contains_key(id),
            r is Some ==> *r->0 == table_contents(*self)[id],
    {
        self.map.get(&id)
    }

    /// Relies on `hashbrown::HashMap::insert`: the key now maps to the value.
    #[verifier::external_body]
    pub(crate) fn insert(&mut self, id: usize, file: JsFile)
        ensures
            table_contents(*final(self)) == table_contents(*old(self)).insert(id, file),
    {
        self.map.insert(id, file);
    }

    /// Relies on `hashbrown::HashMap::remove`: takes the value out under the key.
    #[verifier::external_body]
    pub(crate) fn remove(&mut self, id: usize) -> (r: Option<JsFile>)
        ensures
            table_contents(*final(self)) == table_contents(*old(self)).remove(id),
            r is Some <==> table_contents(*old(self)).contains_key(id),
            r is Some ==> r->0 == table_contents(*old(self))[id],
    {
        self.map.remove(&id)
    }

    /// Relies on `hashbrown::HashMap::keys`: every key once, in no set order.
    #[verifier::external_body]
    pub(crate) fn keys(&self) -> (r: Vec<usize>)
        ensures
            r@.no_duplicates(),
            forall|k: usize| table_contents(*self).contains_key(k) <==> r@.contains(k),
    {
        self.map.keys().copied().collect()
    }

    /// Relies on `hashbrown::HashMap::len`: the number of keys.
    #[verifier::external_body]
    pub(crate) fn len(&self) -> (r: usize)
        ensures
            r == table_contents(*self).dom().len(),
    {
        self.map.len()
    }
}

} // verus!
