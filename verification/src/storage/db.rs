//! The in-memory table of keys and values.

use std::sync::Arc;

use ahash::AHashMap;
use vstd::prelude::*;

use crate::storage::table;
use crate::wire;

verus! {

/// Entries that a new table has room for.
pub const INITIAL_CAPACITY: usize = 0x10_0000;

/// The table. Its view is the map from keys to values.
pub struct Db {
    map: AHashMap<Box<[u8]>, Arc<[u8]>>,
}

impl View for Db {
    type V = Map<Seq<u8>, Seq<u8>>;

    closed spec fn view(&self) -> Map<Seq<u8>, Seq<u8>> {
        table::table_contents(self.map)
    }
}

impl Default for Db {
    fn default() -> (r: Self)
        ensures
            r@ == table::no_entries(),
    {
        Db::new()
    }
}

/// Overwrites `buf` with the bytes of `v`.
fn copy_bytes(buf: &mut [u8], v: &[u8])
    requires
        old(buf)@.len() == v@.len(),
    ensures
        final(buf)@ == v@,
{
    let mut i: usize = 0;
    while i < v.len()
        invariant
            buf@.len() == v@.len(),
            i <= v@.len(),
            forall|j: int| 0 <= j < i ==> buf@[j] == v@[j],
        decreases v@.len() - i,
    {
        buf[i] = v[i];
        i = i + 1;
    }
    assert(buf@ =~= v@);
}

impl Db {
    /// An empty table.
    pub fn new() -> (r: Self)
        ensures
            r@ == table::no_entries(),
    {
        Db { map: table::table_with_capacity(INITIAL_CAPACITY) }
    }

    /// The number of keys.
    pub fn len(&self) -> (r: usize)
        ensures
            table::counts(r as nat, self@),
    {
        table::table_len(&self.map)
    }

    /// The value of a key.
    pub fn get(&self, k: &[u8]) -> (r: Option<&Arc<[u8]>>)
        ensures
            match r {
                Some(v) => self@.contains_key(k@) && (**v)@ == self@[k@],
                None => !self@.contains_key(k@),
            },
    {
        table::table_get(&self.map, k)
    }

    /// Gives a key a value. An old value is overwritten in place when the size
    /// matches and no reader holds it; otherwise a fresh allocation replaces it.
    pub fn put(&mut self, k: &[u8], v: &[u8])
        ensures
            final(self)@ == old(self)@.insert(k@, v@),
    {
        match table::table_get_mut(&mut self.map, k) {
            Some(slot) => {
                if slot.len() == v.len() {
                    match table::sole_bytes(slot) {
                        Some(buf) => copy_bytes(buf, v),
                        None => {
                            *slot = wire::shared_bytes(v);
                        },
                    }
                } else {
                    *slot = wire::shared_bytes(v);
                }
            },
            None => {
                table::table_insert(&mut self.map, k, v);
            },
        }
    }

    /// Takes a key out and returns its value.
    pub fn remove(&mut self, k: &[u8]) -> (r: Option<Arc<[u8]>>)
        ensures
            final(self)@ == old(self)@.remove(k@),
            match r {
                Some(v) => old(self)@.contains_key(k@) && (*v)@ == old(self)@[k@],
                None => !old(self)@.contains_key(k@),
            },
    {
        table::table_remove(&mut self.map, k)
    }

    /// Takes a key out and returns its value, without a log record.
    pub fn remove_raw(&mut self, k: &[u8]) -> (r: Option<Arc<[u8]>>)
        ensures
            final(self)@ == old(self)@.remove(k@),
            match r {
                Some(v) => old(self)@.contains_key(k@) && (*v)@ == old(self)@[k@],
                None => !old(self)@.contains_key(k@),
            },
    {
        table::table_remove(&mut self.map, k)
    }

    /// Takes a key out and returns it with its value.
    pub fn remove_entry(&mut self, k: &[u8]) -> (r: Option<(Box<[u8]>, Arc<[u8]>)>)
        ensures
            final(self)@ == old(self)@.remove(k@),
            match r {
                Some(e) => old(self)@.contains_key(k@) && (*e.0)@ == k@ && (*e.1)@ == old(
                    self,
                )@[k@],
                None => !old(self)@.contains_key(k@),
            },
    {
        table::table_remove_entry(&mut self.map, k)
    }

    /// Every key with its value, once each, in no particular order.
    pub fn iter(&self) -> (r: Vec<(&[u8], &[u8])>)
        ensures
            table::lists(table::pairs(r@), self@),
    {
        table::table_iter(&self.map)
    }

    /// Gives a key a value without a log record; recovery fills the table so.
    pub fn insert_raw(&mut self, k: &[u8], v: &[u8])
        ensures
            final(self)@ == old(self)@.insert(k@, v@),
    {
        table::table_insert(&mut self.map, k, v);
    }
}

} // verus!
