//! The hash table behind the store: `ahash::AHashMap` from byte strings to
//! shared byte strings, with its contents as a map of sequences.

use std::sync::Arc;

use ahash::AHashMap;
use vstd::prelude::*;

verus! {

/// `ahash::RandomState`, the table's hasher. Nothing here looks inside it.
#[verifier::external_type_specification]
#[verifier::external_body]
pub struct ExRandomState(ahash::RandomState);

/// `ahash::AHashMap`. What it holds is named by `table_contents`.
#[verifier::external_type_specification]
#[verifier::external_body]
#[verifier::reject_recursive_types(K)]
#[verifier::reject_recursive_types(V)]
#[verifier::reject_recursive_types(S)]
pub struct ExAHashMap<K, V, S>(ahash::AHashMap<K, V, S>);

/// The keys and values that a table holds, each as its bytes.
pub uninterp spec fn table_contents(m: AHashMap<Box<[u8]>, Arc<[u8]>>) -> Map<Seq<u8>, Seq<u8>>;

/// `order` goes through `m`: every entry once, nothing else.
pub open spec fn lists(order: Seq<(Seq<u8>, Seq<u8>)>, m: Map<Seq<u8>, Seq<u8>>) -> bool {
    &&& m.dom().finite()
    &&& order.len() == m.len()
    &&& forall|i: int|
        0 <= i < order.len() ==> m.contains_key((#[trigger] order[i]).0) && m[order[i].0]
            == order[i].1
    &&& forall|i: int, j: int|
        0 <= i < j < order.len() ==> (#[trigger] order[i]).0 != (#[trigger] order[j]).0
    &&& forall|k: Seq<u8>|
        m.contains_key(k) ==> exists|i: int| 0 <= i < order.len() && (#[trigger] order[i]).0 == k
}

/// The contents of an empty table.
pub open spec fn no_entries() -> Map<Seq<u8>, Seq<u8>> {
    Map::empty()
}

/// `m` holds `n` entries.
pub open spec fn counts(n: nat, m: Map<Seq<u8>, Seq<u8>>) -> bool {
    m.dom().finite() && m.len() == n
}

/// Borrowed pairs as pairs of sequences.
pub open spec fn pairs(v: Seq<(&[u8], &[u8])>) -> Seq<(Seq<u8>, Seq<u8>)> {
    v.map_values(|p: (&[u8], &[u8])| (p.0@, p.1@))
}

/// `AHashMap::with_capacity`: an empty table. Larger capacities than the bound
/// are not asked for; the allocation of a very large one would panic.
#[verifier::external_body]
pub(crate) fn table_with_capacity(capacity: usize) -> (m: AHashMap<Box<[u8]>, Arc<[u8]>>)
    requires
        capacity <= 0x10_0000,
    ensures
        table_contents(m) == no_entries(),
{
    AHashMap::with_capacity(capacity)
}

/// `HashMap::len`, reached through `AHashMap`'s `Deref`: the number of entries.
#[verifier::external_body]
pub(crate) fn table_len(m: &AHashMap<Box<[u8]>, Arc<[u8]>>) -> (r: usize)
    ensures
        counts(r as nat, table_contents(*m)),
{
    m.len()
}

/// `AHashMap::get`: the value of a key, if the table holds it.
#[verifier::external_body]
pub(crate) fn table_get<'a>(m: &'a AHashMap<Box<[u8]>, Arc<[u8]>>, k: &[u8]) -> (r: Option<
    &'a Arc<[u8]>,
>)
    ensures
        match r {
            Some(v) => table_contents(*m).contains_key(k@) && (**v)@ == table_contents(*m)[k@],
            None => !table_contents(*m).contains_key(k@),
        },
{
    m.get(k)
}

/// `AHashMap::get_mut`: the place of a key's value, if the table holds it.
/// Whatever ends up in that place is the key's value afterwards, and no other
/// entry changes.
#[verifier::external_body]
pub(crate) fn table_get_mut<'a>(
    m: &'a mut AHashMap<Box<[u8]>, Arc<[u8]>>,
    k: &[u8],
) -> (r: Option<&'a mut Arc<[u8]>>)
    ensures
        match r {
            Some(v) => {
                &&& table_contents(*old(m)).contains_key(k@)
                &&& (**v)@ == table_contents(*old(m))[k@]
                &&& table_contents(*final(m)) == table_contents(*old(m)).insert(k@, (**final(v))@)
            },
            None => {
                &&& !table_contents(*old(m)).contains_key(k@)
                &&& table_contents(*final(m)) == table_contents(*old(m))
            },
        },
{
    m.get_mut(k)
}

/// `AHashMap::insert`: the key has the new value afterwards, and no other entry
/// changes. The value that was replaced is dropped.
#[verifier::external_body]
pub(crate) fn table_insert(m: &mut AHashMap<Box<[u8]>, Arc<[u8]>>, k: &[u8], v: &[u8])
    ensures
        table_contents(*final(m)) == table_contents(*old(m)).insert(k@, v@),
{
    m.insert(k.into(), v.into());
}

/// `AHashMap::remove`: the key is gone afterwards, no other entry changes, and
/// the value it had comes back.
#[verifier::external_body]
pub(crate) fn table_remove(m: &mut AHashMap<Box<[u8]>, Arc<[u8]>>, k: &[u8]) -> (r: Option<
    Arc<[u8]>,
>)
    ensures
        table_contents(*final(m)) == table_contents(*old(m)).remove(k@),
        match r {
            Some(v) => table_contents(*old(m)).contains_key(k@) && (*v)@ == table_contents(
                *old(m),
            )[k@],
            None => !table_contents(*old(m)).contains_key(k@),
        },
{
    m.remove(k)
}

/// `HashMap::remove_entry`, reached through `AHashMap`'s `DerefMut`: as
/// `remove`, and the key that the table held comes back too.
#[verifier::external_body]
pub(crate) fn table_remove_entry(m: &mut AHashMap<Box<[u8]>, Arc<[u8]>>, k: &[u8]) -> (r: Option<
    (Box<[u8]>, Arc<[u8]>),
>)
    ensures
        table_contents(*final(m)) == table_contents(*old(m)).remove(k@),
        match r {
            Some(e) => table_contents(*old(m)).contains_key(k@) && (*e.0)@ == k@ && (*e.1)@
                == table_contents(*old(m))[k@],
            None => !table_contents(*old(m)).contains_key(k@),
        },
{
    m.remove_entry(k)
}

/// `HashMap::iter`, reached through `AHashMap`'s `Deref`: every entry once, in
/// an order that is left open.
#[verifier::external_body]
pub(crate) fn table_iter<'a>(m: &'a AHashMap<Box<[u8]>, Arc<[u8]>>) -> (r: Vec<
    (&'a [u8], &'a [u8]),
>)
    ensures
        lists(pairs(r@), table_contents(*m)),
{
    m.iter().map(|(k, v)| (k.as_ref(), v.as_ref())).collect()
}

/// `Arc::get_mut`: the bytes themselves where this is the only handle on them,
/// else nothing. Which of the two holds is left open.
#[verifier::external_body]
pub(crate) fn sole_bytes(a: &mut Arc<[u8]>) -> (r: Option<&mut [u8]>)
    ensures
        match r {
            Some(b) => (*b)@ == (**old(a))@ && (**final(a))@ == (*final(b))@,
            None => *final(a) == *old(a),
        },
{
    Arc::get_mut(a)
}

} // verus!
