//! The operations that the kernel owns, keyed by the number that their
//! completions carry: `slab::Slab`, with its contents as a map.

use slab::Slab;
use vstd::prelude::*;

use crate::stage3::io_work::IoWork;

verus! {

/// The deepest ring that the kernel sets up.
pub const MAX_RING_DEPTH: usize = 32768;

/// `slab::Slab`. What it holds is named by `slab_contents`.
#[verifier::external_type_specification]
#[verifier::external_body]
#[verifier::reject_recursive_types(T)]
pub struct ExSlab<T>(slab::Slab<T>);

/// The operations that a slab holds, by key.
pub uninterp spec fn slab_contents(s: Slab<IoWork>) -> Map<usize, IoWork>;

/// The contents of an empty slab.
pub open spec fn no_work() -> Map<usize, IoWork> {
    Map::empty()
}

/// `m` holds `n` operations.
pub open spec fn holds(n: nat, m: Map<usize, IoWork>) -> bool {
    m.dom().finite() && m.len() == n
}

/// `Slab::with_capacity`: an empty slab. Larger capacities than the bound are
/// not asked for; the allocation of a very large one would panic.
#[verifier::external_body]
pub(crate) fn slab_with_capacity(capacity: usize) -> (s: Slab<IoWork>)
    requires
        capacity <= MAX_RING_DEPTH,
    ensures
        slab_contents(s) == no_work(),
{
    Slab::with_capacity(capacity)
}

/// `Slab::len`: the number of operations held.
#[verifier::external_body]
pub(crate) fn slab_len(s: &Slab<IoWork>) -> (r: usize)
    ensures
        holds(r as nat, slab_contents(*s)),
{
    s.len()
}

/// `Slab::is_empty`: whether nothing is held.
#[verifier::external_body]
pub(crate) fn slab_is_empty(s: &Slab<IoWork>) -> (r: bool)
    ensures
        r == (slab_contents(*s) == no_work()),
{
    s.is_empty()
}

/// `Slab::insert`: the operation is held under a key that was free before.
/// Which one that is, is left open. More than the bound are never held at once;
/// a slab that cannot grow would panic.
#[verifier::external_body]
pub(crate) fn slab_insert(s: &mut Slab<IoWork>, work: IoWork) -> (key: usize)
    requires
        slab_contents(*old(s)).len() < MAX_RING_DEPTH,
    ensures
        !slab_contents(*old(s)).contains_key(key),
        slab_contents(*final(s)) == slab_contents(*old(s)).insert(key, work),
{
    s.insert(work)
}

/// `Slab::remove`: hands out the operation under a key and frees the key. It
/// panics on a key that is free.
#[verifier::external_body]
pub(crate) fn slab_remove(s: &mut Slab<IoWork>, key: usize) -> (work: IoWork)
    requires
        slab_contents(*old(s)).contains_key(key),
    ensures
        work == slab_contents(*old(s))[key],
        slab_contents(*final(s)) == slab_contents(*old(s)).remove(key),
{
    s.remove(key)
}

/// `Slab::get`: the operation under a key, if the key is in use.
#[verifier::external_body]
pub(crate) fn slab_get(s: &Slab<IoWork>, key: usize) -> (r: Option<&IoWork>)
    ensures
        match r {
            Some(work) => slab_contents(*s).contains_key(key) && *work == slab_contents(*s)[key],
            None => !slab_contents(*s).contains_key(key),
        },
{
    s.get(key)
}

} // verus!
