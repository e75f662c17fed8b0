//! Trusted view of the slab allocator that backs the registry's tables.
//!
//! The registry keys servers and clients by the compact, id-reusing integer
//! handles of `slab::Slab`. The slab itself is outside code; each operation
//! the registry uses is wrapped here with a contract over the slab's
//! contents, stated as a map from occupied key to stored value.

use vstd::prelude::*;
use crate::entries::{ClientEntry, ServerSlot};

verus! {

/// Declares the outside type slab::Slab so that it can stand in fields and
/// signatures; its contents are visible only through the names below.
#[verifier::external_type_specification]
#[verifier::external_body]
#[verifier::reject_recursive_types(T)]
pub struct ExSlab<T>(slab::Slab<T>);

/// What the server table holds: the value at each occupied key.
pub uninterp spec fn server_slots(s: slab::Slab<ServerSlot>) -> Map<usize, ServerSlot>;

/// What the client table holds: the value at each occupied key.
pub uninterp spec fn client_slots(s: slab::Slab<ClientEntry>) -> Map<usize, ClientEntry>;

/// Relies on slab::Slab::new: the new slab is empty.
#[verifier::external_body]
pub(crate) fn server_slab_new() -> (r: slab::Slab<ServerSlot>)
    ensures
        server_slots(r) == (Map::<usize, ServerSlot>::empty()),
{
    slab::Slab::new()
}

/// Relies on slab::Slab::insert: the value is stored at a previously vacant
/// key, which is returned.
#[verifier::external_body]
pub(crate) fn server_slab_insert(s: &mut slab::Slab<ServerSlot>, v: ServerSlot) -> (key: usize)
    ensures
        !server_slots(*old(s)).contains_key(key),
        server_slots(*final(s)) == server_slots(*old(s)).insert(key, v),
{
    s.insert(v)
}

/// Relies on slab::Slab::remove: the value at an occupied key is taken out
/// and its key released.
#[verifier::external_body]
pub(crate) fn server_slab_remove(s: &mut slab::Slab<ServerSlot>, key: usize) -> (v: ServerSlot)
    requires
        server_slots(*old(s)).contains_key(key),
    ensures
        v == server_slots(*old(s))[key],
        server_slots(*final(s)) == server_slots(*old(s)).remove(key),
{
    s.remove(key)
}

/// Relies on slab::Slab::contains: whether a key is occupied.
#[verifier::external_body]
pub(crate) fn server_slab_contains(s: &slab::Slab<ServerSlot>, key: usize) -> (r: bool)
    ensures
        r <==> server_slots(*s).contains_key(key),
{
    s.contains(key)
}

/// Relies on slab::Slab's Index impl: the value at an occupied key.
#[verifier::external_body]
pub(crate) fn server_slab_get(s: &slab::Slab<ServerSlot>, key: usize) -> (r: &ServerSlot)
    requires
        server_slots(*s).contains_key(key),
    ensures
        *r == server_slots(*s)[key],
{
    &s[key]
}

/// Relies on slab::Slab's IndexMut impl: replaces the value at an occupied
/// key.
#[verifier::external_body]
pub(crate) fn server_slab_set(s: &mut slab::Slab<ServerSlot>, key: usize, v: ServerSlot)
    requires
        server_slots(*old(s)).contains_key(key),
    ensures
        server_slots(*final(s)) == server_slots(*old(s)).insert(key, v),
{
    s[key] = v;
}

/// Relies on slab::Slab::iter: yields each occupied key once, in increasing
/// key order.
#[verifier::external_body]
pub(crate) fn server_slab_keys(s: &slab::Slab<ServerSlot>) -> (r: Vec<usize>)
    ensures
        forall|k: usize| r@.contains(k) <==> server_slots(*s).contains_key(k),
        forall|i: int, j: int| 0 <= i < j < r@.len() ==> r@[i] < r@[j],
{
    s.iter().map(|kv: (usize, &ServerSlot)| kv.0).collect()
}

/// Relies on slab::Slab::new: the new slab is empty.
#[verifier::external_body]
pub(crate) fn client_slab_new() -> (r: slab::Slab<ClientEntry>)
    ensures
        client_slots(r) == (Map::<usize, ClientEntry>::empty()),
{
    slab::Slab::new()
}

/// Relies on slab::Slab::insert: the value is stored at a previously vacant
/// key, which is returned.
#[verifier::external_body]
pub(crate) fn client_slab_insert(s: &mut slab::Slab<ClientEntry>, v: ClientEntry) -> (key: usize)
    ensures
        !client_slots(*old(s)).contains_key(key),
        client_slots(*final(s)) == client_slots(*old(s)).insert(key, v),
{
    s.insert(v)
}

/// Relies on slab::Slab::remove: the value at an occupied key is taken out
/// and its key released.
#[verifier::external_body]
pub(crate) fn client_slab_remove(s: &mut slab::Slab<ClientEntry>, key: usize) -> (v: ClientEntry)
    requires
        client_slots(*old(s)).contains_key(key),
    ensures
        v == client_slots(*old(s))[key],
        client_slots(*final(s)) == client_slots(*old(s)).remove(key),
{
    s.remove(key)
}

/// Relies on slab::Slab::contains: whether a key is occupied.
#[verifier::external_body]
pub(crate) fn client_slab_contains(s: &slab::Slab<ClientEntry>, key: usize) -> (r: bool)
    ensures
        r <==> client_slots(*s).contains_key(key),
{
    s.contains(key)
}

/// Relies on slab::Slab's IndexMut impl: borrows the value at an occupied
/// key for mutation.
#[verifier::external_body]
pub(crate) fn client_slab_get_mut<'a>(s: &'a mut slab::Slab<ClientEntry>, key: usize) -> (r:
    &'a mut ClientEntry)
    requires
        client_slots(*old(s)).contains_key(key),
    ensures
        *r == client_slots(*old(s))[key],
        client_slots(*final(s)) == client_slots(*old(s)).insert(key, *final(r)),
{
    &mut s[key]
}

/// Relies on slab::Slab::iter: yields each occupied key once, in increasing
/// key order.
#[verifier::external_body]
pub(crate) fn client_slab_keys(s: &slab::Slab<ClientEntry>) -> (r: Vec<usize>)
    ensures
        forall|k: usize| r@.contains(k) <==> client_slots(*s).contains_key(k),
        forall|i: int, j: int| 0 <= i < j < r@.len() ==> r@[i] < r@[j],
{
    s.iter().map(|kv: (usize, &ClientEntry)| kv.0).collect()
}

} // verus!
