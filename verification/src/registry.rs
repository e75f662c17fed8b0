//! The shared server registry with per-client dirty/lost bookkeeping.
//!
//! The registry holds the in-memory tables: servers keyed by a stable,
//! compact, reusable id; clients likewise; for every client the set of
//! server ids whose latest state it has not seen (`dirty`) and the list of
//! server ids that disappeared since its last transmission (`lost`).
//!
//! Alongside the tables the registry tracks, in ghost state, what each
//! client has been told so far; the central invariant says that replaying a
//! client's pending dirty/lost bookkeeping on top of that brings the client
//! exactly to the current advertised state. Draining a delta therefore
//! converges every client to the registry's state, which is the heart of
//! the delta protocol's correctness.
//!
//! An id whose server is gone but which some client still has in `lost`
//! stays allocated as a tombstone, so the id cannot be reused until every
//! such client has drained the corresponding shutdown report.

use vstd::prelude::*;
use crate::addr::Addr;
use crate::client::{Event, EventV, Message, Server, ServerV};
use crate::dirty::{dirty_drain, dirty_insert, dirty_new, dirty_order, dirty_swap_remove};
use crate::entries::{ClientEntry, ServerEntry, ServerSlot};
use crate::store::{
    client_slab_contains, client_slab_get_mut, client_slab_insert,
    client_slab_keys, client_slab_new, client_slab_remove, server_slab_contains, server_slab_get,
    server_slab_insert, server_slab_keys, server_slab_new, server_slab_remove, server_slab_set,
    client_slots, server_slots,
};

verus! {

/// What one advertised server looks like to clients: its address and its
/// latest state bytes.
pub type Published = (Addr, Seq<u8>);

impl ServerSlot {
    /// A live server that has sent its first heartbeat, and so may be
    /// advertised to clients.
    pub open spec fn is_advertised(self) -> bool {
        self matches ServerSlot::Live(e) && e.address is Some
    }

    /// The address and state an advertised slot publishes.
    pub open spec fn published(self) -> Published
        recommends
            self.is_advertised(),
    {
        (self->0.address->0, self->0.state@)
    }
}

/// The ids a client still has to be told about, in order.
pub open spec fn dirty_ids(c: ClientEntry) -> Seq<usize> {
    dirty_order(c.dirty)
}

/// The ids whose disappearance a client still has to be told about, in
/// order.
pub open spec fn lost_ids(c: ClientEntry) -> Seq<usize> {
    c.lost@
}

/// The map a client would reach from `view` after hearing about every
/// pending lost id (dropping it) and every pending dirty id (adopting its
/// current advertised value).
pub open spec fn pending_applied(
    view: Map<usize, Published>,
    c: ClientEntry,
    adv: Map<usize, Published>,
) -> Map<usize, Published> {
    view.remove_keys(lost_ids(c).to_set()).union_prefer_right(
        Map::new(|id: usize| dirty_ids(c).contains(id), |id: usize| adv[id]),
    )
}

/// The process-global registry. All operations are bounded, non-blocking
/// work; callers serialize them behind one mutex and broadcast their
/// change-notification primitive whenever an operation reports a change.
pub struct Registry {
    servers: slab::Slab<ServerSlot>,
    clients: slab::Slab<ClientEntry>,
    /// For each client, what it has been told so far: the advertised
    /// servers as of its last drained delta, less what it has since been
    /// told to forget.
    views: Ghost<Map<usize, Map<usize, Published>>>,
}

impl Registry {
    /// The server table: live entries and tombstones, by id.
    pub closed spec fn servers_map(self) -> Map<usize, ServerSlot> {
        server_slots(self.servers)
    }

    /// The client table, by id.
    pub closed spec fn clients_map(self) -> Map<usize, ClientEntry> {
        client_slots(self.clients)
    }

    /// What each client has been told so far.
    pub closed spec fn client_views(self) -> Map<usize, Map<usize, Published>> {
        self.views@
    }

    /// The advertised servers: live entries with an address, by id.
    pub open spec fn advertised(self) -> Map<usize, Published> {
        Map::new(
            |id: usize| self.servers_map().contains_key(id) && self.servers_map()[id]
                .is_advertised(),
            |id: usize| self.servers_map()[id].published(),
        )
    }

    /// Well-formedness of one client's bookkeeping.
    pub open spec fn client_wf(self, c: usize) -> bool {
        let cl = self.clients_map()[c];
        &&& dirty_ids(cl).no_duplicates()
        &&& forall|id: usize| dirty_ids(cl).contains(id) ==> self.advertised().contains_key(id)
        &&& lost_ids(cl).no_duplicates()
        &&& forall|id: usize| lost_ids(cl).contains(id) ==> self.servers_map().contains_key(id)
            && self.servers_map()[id] is Dead
        &&& pending_applied(self.client_views()[c], cl, self.advertised()) == self.advertised()
    }

    /// Well-formedness of one tombstone: the clients waiting on it are
    /// exactly those that still carry the id in `lost`, and there is at
    /// least one of them — an unreferenced slot would have been freed.
    pub open spec fn dead_wf(self, id: usize) -> bool {
        let w = self.servers_map()[id]->waiting@;
        &&& w.no_duplicates()
        &&& w.len() > 0
        &&& forall|c: usize| w.contains(c) <==> (self.clients_map().contains_key(c) && lost_ids(
            self.clients_map()[c],
        ).contains(id))
    }

    /// The registry invariant.
    pub open spec fn wf(self) -> bool {
        &&& self.client_views().dom() == self.clients_map().dom()
        &&& forall|c: usize| #[trigger] self.clients_map().contains_key(c) ==> self.client_wf(c)
        &&& forall|id: usize| self.servers_map().contains_key(id) && (#[trigger] self.servers_map()[
            id
        ]) is Dead ==> self.dead_wf(id)
    }

    /// An empty registry.
    pub fn new() -> (r: Registry)
        ensures
            r.wf(),
            r.servers_map() == (Map::<usize, ServerSlot>::empty()),
            r.clients_map() == (Map::<usize, ClientEntry>::empty()),
    {
        let r = Registry {
            servers: server_slab_new(),
            clients: client_slab_new(),
            views: Ghost(Map::empty()),
        };
        proof {
            assert(r.client_views().dom() =~= r.clients_map().dom());
        }
        r
    }

    /// Whether `id` names a live server.
    pub fn is_live_server(&self, id: usize) -> (r: bool)
        ensures
            r <==> (self.servers_map().contains_key(id) && self.servers_map()[id] is Live),
    {
        if server_slab_contains(&self.servers, id) {
            match server_slab_get(&self.servers, id) {
                ServerSlot::Live(_) => true,
                ServerSlot::Dead { .. } => false,
            }
        } else {
            false
        }
    }

    /// Whether `id` names a client.
    pub fn is_client(&self, id: usize) -> (r: bool)
        ensures
            r <==> self.clients_map().contains_key(id),
    {
        client_slab_contains(&self.clients, id)
    }

    /// Allocate a slot for a game server that has just completed its
    /// handshake. The entry starts with no address and empty state, so it
    /// is not yet advertised and no client is marked dirty.
    pub fn insert_server(&mut self) -> (id: usize)
        requires
            old(self).wf(),
        ensures
            final(self).wf(),
            !old(self).servers_map().contains_key(id),
            final(self).servers_map().dom() == old(self).servers_map().dom().insert(id),
            final(self).servers_map()[id] matches ServerSlot::Live(e) && e.address is None
                && e.state@ == Seq::<u8>::empty(),
            forall|k: usize| k != id && old(self).servers_map().contains_key(k)
                ==> final(self).servers_map()[k] == old(self).servers_map()[k],
            final(self).clients_map() == old(self).clients_map(),
            final(self).client_views() == old(self).client_views(),
            final(self).advertised() == old(self).advertised(),
    {
        let entry = ServerEntry { address: None, state: Vec::new() };
        let id = server_slab_insert(&mut self.servers, ServerSlot::Live(entry));
        proof {
            assert(self.servers_map().dom() =~= old(self).servers_map().dom().insert(id));
            assert(self.advertised() =~= old(self).advertised());
            assert forall|c: usize| #[trigger] self.clients_map().contains_key(c) implies self
                .client_wf(c) by {
                assert(old(self).client_wf(c));
                assert forall|k: usize| lost_ids(self.clients_map()[c]).contains(k) implies self
                    .servers_map().contains_key(k) && self.servers_map()[k] is Dead by {
                    assert(old(self).servers_map().contains_key(k));
                }
            }
            assert forall|k: usize| self.servers_map().contains_key(k) && (#[trigger] self
                .servers_map()[k]) is Dead implies self.dead_wf(k) by {
                assert(k != id);
                assert(old(self).dead_wf(k));
            }
        }
        id
    }
}

/// Byte-for-byte comparison of two state payloads.
fn bytes_eq(a: &Vec<u8>, b: &Vec<u8>) -> (r: bool)
    ensures
        r <==> a@ == b@,
{
    if a.len() != b.len() {
        return false;
    }
    let mut i: usize = 0;
    while i < a.len()
        invariant
            a.len() == b.len(),
            i <= a.len(),
            forall|j: int| 0 <= j < i ==> a@[j] == b@[j],
        decreases a.len() - i,
    {
        if a[i] != b[i] {
            return false;
        }
        i = i + 1;
    }
    proof {
        assert(a@ =~= b@);
    }
    true
}

/// A fresh copy of a state payload.
fn copy_bytes(v: &Vec<u8>) -> (r: Vec<u8>)
    ensures
        r@ == v@,
{
    let mut out: Vec<u8> = Vec::new();
    let mut i: usize = 0;
    while i < v.len()
        invariant
            i <= v.len(),
            out@ == v@.take(i as int),
        decreases v.len() - i,
    {
        out.push(v[i]);
        proof {
            assert(out@ =~= v@.take(i + 1));
        }
        i = i + 1;
    }
    proof {
        assert(v@.take(v@.len() as int) =~= v@);
    }
    out
}

/// Marking one more id dirty for a client keeps it converging: replaying
/// the new bookkeeping on top of what the client was told reaches the new
/// advertised state.
proof fn lemma_pending_after_update(
    view: Map<usize, Published>,
    oc: ClientEntry,
    nc: ClientEntry,
    adv: Map<usize, Published>,
    id: usize,
    val: Published,
)
    requires
        lost_ids(nc) == lost_ids(oc),
        dirty_ids(nc) == if dirty_ids(oc).contains(id) {
            dirty_ids(oc)
        } else {
            dirty_ids(oc).push(id)
        },
        pending_applied(view, oc, adv) == adv,
    ensures
        pending_applied(view, nc, adv.insert(id, val)) == adv.insert(id, val),
{
    let adv2 = adv.insert(id, val);
    let lostset = lost_ids(oc).to_set();
    let left = view.remove_keys(lostset);
    let dm1 = Map::new(|x: usize| dirty_ids(oc).contains(x), |x: usize| adv[x]);
    let dm2 = Map::new(|x: usize| dirty_ids(nc).contains(x), |x: usize| adv2[x]);
    let p1 = pending_applied(view, oc, adv);
    let p2 = pending_applied(view, nc, adv2);
    assert(p1 == left.union_prefer_right(dm1));
    assert(p2 == left.union_prefer_right(dm2));
    assert forall|x: usize| #[trigger] dirty_ids(nc).contains(x) implies (x == id || dirty_ids(
        oc,
    ).contains(x)) by {
        if !dirty_ids(oc).contains(id) {
            let i = choose|i: int|
                0 <= i < dirty_ids(nc).len() && #[trigger] dirty_ids(nc)[i] == x;
            if i < dirty_ids(oc).len() {
                assert(dirty_ids(oc)[i] == x);
                assert(dirty_ids(oc).contains(x));
            } else {
                assert(x == id);
            }
        }
    }
    assert forall|x: usize| #[trigger] dirty_ids(oc).contains(x) implies dirty_ids(nc).contains(
        x,
    ) by {
        let i = choose|i: int| 0 <= i < dirty_ids(oc).len() && #[trigger] dirty_ids(oc)[i] == x;
        assert(dirty_ids(nc)[i] == x);
        assert(dirty_ids(nc).contains(x));
    }
    assert(dirty_ids(nc).contains(id)) by {
        if !dirty_ids(oc).contains(id) {
            assert(dirty_ids(nc)[dirty_ids(nc).len() - 1] == id);
        }
    }
    assert(p2 =~= adv2) by {
        assert forall|x: usize| #[trigger] p2.contains_key(x) implies adv2.contains_key(x)
            && p2[x] == adv2[x] by {
            if dm2.contains_key(x) {
                assert(p2[x] == dm2[x]);
                assert(dm2[x] == adv2[x]);
                if x != id {
                    assert(dirty_ids(oc).contains(x));
                    assert(dm1.contains_key(x));
                    assert(p1.contains_key(x));
                    assert(adv.contains_key(x));
                    assert(adv2.contains_key(x));
                }
            } else {
                assert(left.contains_key(x));
                assert(p2[x] == left[x]);
                assert(x != id);
                assert(!dm1.contains_key(x));
                assert(p1.contains_key(x) && p1[x] == left[x]);
                assert(adv.contains_key(x) && adv[x] == left[x]);
                assert(adv2.contains_key(x) && adv2[x] == adv[x]);
            }
        }
        assert forall|x: usize| #[trigger] adv2.contains_key(x) implies p2.contains_key(x) by {
            if x == id {
                assert(dm2.contains_key(x));
            } else {
                assert(adv.contains_key(x));
                assert(p1.contains_key(x));
                if dm1.contains_key(x) {
                    assert(dm2.contains_key(x));
                } else {
                    assert(left.contains_key(x));
                }
            }
        }
    }
}

/// Mark `id` dirty for client `k`: append it to the client's dirty-set
/// unless already pending. The client's lost list and every other client
/// are untouched.
fn mark_dirty(clients: &mut slab::Slab<ClientEntry>, k: usize, id: usize)
    requires
        client_slots(*old(clients)).contains_key(k),
    ensures
        client_slots(*final(clients)).dom() == client_slots(*old(clients)).dom(),
        forall|c: usize| c != k && client_slots(*old(clients)).contains_key(c)
            ==> client_slots(*final(clients))[c] == client_slots(*old(clients))[c],
        lost_ids(client_slots(*final(clients))[k]) == lost_ids(client_slots(*old(clients))[k]),
        dirty_ids(client_slots(*final(clients))[k]) == (if dirty_ids(
            client_slots(*old(clients))[k],
        ).contains(id) {
            dirty_ids(client_slots(*old(clients))[k])
        } else {
            dirty_ids(client_slots(*old(clients))[k]).push(id)
        }),
{
    let c = client_slab_get_mut(clients, k);
    dirty_insert(&mut c.dirty, id);
    proof {
        assert(client_slots(*clients).dom() =~= client_slots(*old(clients)).dom());
    }
}

impl Registry {
    /// Record a heartbeat: set the server's address and state, and if
    /// either changed, mark the id dirty for every client. Returns whether
    /// anything changed; the caller broadcasts its change notification on
    /// `true`.
    pub fn update_server(&mut self, id: usize, addr: Addr, state: Vec<u8>) -> (changed: bool)
        requires
            old(self).wf(),
            old(self).servers_map().contains_key(id),
            old(self).servers_map()[id] is Live,
        ensures
            final(self).wf(),
            changed <==> !(old(self).servers_map()[id].is_advertised()
                && old(self).servers_map()[id].published() == ((addr, state@))),
            !changed ==> *final(self) == *old(self),
            final(self).servers_map().dom() == old(self).servers_map().dom(),
            final(self).servers_map()[id] matches ServerSlot::Live(e) && e.address == Some(addr)
                && e.state@ == state@,
            forall|k: usize| k != id && old(self).servers_map().contains_key(k)
                ==> final(self).servers_map()[k] == old(self).servers_map()[k],
            final(self).advertised() == old(self).advertised().insert(id, ((addr, state@))),
            final(self).client_views() == old(self).client_views(),
            final(self).clients_map().dom() == old(self).clients_map().dom(),
            forall|c: usize| #[trigger] old(self).clients_map().contains_key(c) ==> lost_ids(
                final(self).clients_map()[c],
            ) == lost_ids(old(self).clients_map()[c]),
            changed ==> forall|c: usize| #[trigger] old(self).clients_map().contains_key(c)
                ==> dirty_ids(final(self).clients_map()[c]) == (if dirty_ids(
                old(self).clients_map()[c],
            ).contains(id) {
                dirty_ids(old(self).clients_map()[c])
            } else {
                dirty_ids(old(self).clients_map()[c]).push(id)
            }),
            !changed ==> forall|c: usize| #[trigger] old(self).clients_map().contains_key(c)
                ==> dirty_ids(final(self).clients_map()[c]) == dirty_ids(
                old(self).clients_map()[c],
            ),
    {
        let changed: bool;
        {
            let cur = server_slab_get(&self.servers, id);
            changed = match cur {
                ServerSlot::Live(e) => {
                    match &e.address {
                        Some(a0) => !(a0.same(&addr) && bytes_eq(&e.state, &state)),
                        None => true,
                    }
                }
                ServerSlot::Dead { .. } => {
                    proof {
                        assert(false);
                    }
                    true
                }
            };
        }
        if !changed {
            proof {
                assert(final(self).advertised() =~= old(self).advertised().insert(
                    id,
                    ((addr, state@)),
                ));
            }
            return false;
        }
        server_slab_set(
            &mut self.servers,
            id,
            ServerSlot::Live(ServerEntry { address: Some(addr), state }),
        );
        proof {
            assert(self.servers_map().dom() =~= old(self).servers_map().dom());
            assert(self.advertised() =~= old(self).advertised().insert(id, ((addr, state@))));
        }
        let ghost adv2 = self.advertised();
        let ghost srv_after = self.servers;
        let ghost old_clients = client_slots(self.clients);
        let keys = client_slab_keys(&self.clients);
        let mut i: usize = 0;
        while i < keys.len()
            invariant
                i <= keys.len(),
                self.servers == srv_after,
                self.views == old(self).views,
                self.advertised() == adv2,
                forall|k: usize| keys@.contains(k) <==> old_clients.contains_key(k),
                forall|a: int, b: int| 0 <= a < b < keys@.len() ==> keys@[a] < keys@[b],
                client_slots(self.clients).dom() == old_clients.dom(),
                forall|c: usize| #[trigger] old_clients.contains_key(c) ==> {
                    let oc = old_clients[c];
                    let nc = client_slots(self.clients)[c];
                    if keys@.take(i as int).contains(c) {
                        lost_ids(nc) == lost_ids(oc) && dirty_ids(nc) == (if dirty_ids(
                            oc,
                        ).contains(id) {
                            dirty_ids(oc)
                        } else {
                            dirty_ids(oc).push(id)
                        })
                    } else {
                        nc == oc
                    }
                },
            decreases keys.len() - i,
        {
            let k = keys[i];
            proof {
                assert(keys@.contains(keys@[i as int]));
                assert(old_clients.contains_key(k));
                assert(keys@.take(i as int).contains(k) ==> false) by {
                    if keys@.take(i as int).contains(k) {
                        let j = choose|j: int| 0 <= j < i && #[trigger] keys@.take(i as int)[j]
                            == k;
                        assert(keys@[j] == k && keys@[i as int] == k);
                    }
                }
            }
            let ghost pre = client_slots(self.clients);
            mark_dirty(&mut self.clients, k, id);
            proof {
                assert(pre[k] == old_clients[k]);
                assert(keys@.take(i + 1) =~= keys@.take(i as int).push(k));
                assert forall|c2: usize| #[trigger] old_clients.contains_key(c2) implies {
                    let oc = old_clients[c2];
                    let nc = client_slots(self.clients)[c2];
                    if keys@.take(i + 1).contains(c2) {
                        lost_ids(nc) == lost_ids(oc) && dirty_ids(nc) == (if dirty_ids(
                            oc,
                        ).contains(id) {
                            dirty_ids(oc)
                        } else {
                            dirty_ids(oc).push(id)
                        })
                    } else {
                        nc == oc
                    }
                } by {
                    if c2 != k {
                        assert(client_slots(self.clients)[c2] == pre[c2]);
                        assert(keys@.take(i + 1).contains(c2) == keys@.take(i as int).contains(
                            c2,
                        )) by {
                            if keys@.take(i + 1).contains(c2) && c2 != k {
                                let j = choose|j: int|
                                    0 <= j < i + 1 && #[trigger] keys@.take(i + 1)[j] == c2;
                                assert(j < i);
                                assert(keys@.take(i as int)[j] == c2);
                                assert(keys@.take(i as int).contains(c2));
                            }
                            if keys@.take(i as int).contains(c2) {
                                let j = choose|j: int|
                                    0 <= j < i && #[trigger] keys@.take(i as int)[j] == c2;
                                assert(keys@.take(i + 1)[j] == c2);
                                assert(keys@.take(i + 1).contains(c2));
                            }
                        }
                    } else {
                        assert(keys@.take(i + 1).contains(k)) by {
                            assert(keys@.take(i + 1)[i as int] == k);
                        }
                        assert(lost_ids(client_slots(self.clients)[k]) == lost_ids(
                            old_clients[k],
                        ));
                    }
                }
            }
            i = i + 1;
        }
        proof {
            assert(keys@.take(keys@.len() as int) =~= keys@);
            let oldr = *old(self);
            assert forall|c: usize| #[trigger] self.clients_map().contains_key(c) implies self
                .client_wf(c) by {
                assert(old_clients.contains_key(c));
                assert(keys@.contains(c));
                assert(oldr.client_wf(c));
                let oc = old_clients[c];
                let nc = self.clients_map()[c];
                assert(lost_ids(nc) == lost_ids(oc) && dirty_ids(nc) == (if dirty_ids(
                    oc,
                ).contains(id) {
                    dirty_ids(oc)
                } else {
                    dirty_ids(oc).push(id)
                }));
                assert(dirty_ids(nc).no_duplicates());
                assert forall|x: usize| dirty_ids(nc).contains(x) implies self
                    .advertised().contains_key(x) by {
                    if x != id {
                        assert(dirty_ids(oc).contains(x)) by {
                            let j = choose|j: int| 0 <= j < dirty_ids(nc).len() && dirty_ids(
                                nc,
                            )[j] == x;
                            if j < dirty_ids(oc).len() {
                                assert(dirty_ids(oc)[j] == x);
                            }
                        }
                        assert(oldr.advertised().contains_key(x));
                        assert(self.advertised().contains_key(x));
                    } else {
                        assert(self.advertised().contains_key(id));
                    }
                }
                assert forall|x: usize| lost_ids(nc).contains(x) implies self
                    .servers_map().contains_key(x) && self.servers_map()[x] is Dead by {
                    assert(lost_ids(oc).contains(x));
                    assert(oldr.servers_map().contains_key(x) && oldr.servers_map()[x] is Dead);
                    assert(x != id);
                    assert(self.servers_map()[x] == oldr.servers_map()[x]);
                }
                lemma_pending_after_update(
                    oldr.client_views()[c],
                    oc,
                    nc,
                    oldr.advertised(),
                    id,
                    (addr, state@),
                );
            }
            assert forall|k: usize| self.servers_map().contains_key(k) && (#[trigger] self
                .servers_map()[k]) is Dead implies self.dead_wf(k) by {
                assert(k != id);
                assert(oldr.servers_map()[k] is Dead);
                assert(oldr.dead_wf(k));
                let w = self.servers_map()[k]->waiting@;
                assert forall|c: usize| w.contains(c) <==> (self.clients_map().contains_key(c)
                    && lost_ids(self.clients_map()[c]).contains(k)) by {
                    if self.clients_map().contains_key(c) {
                        assert(old_clients.contains_key(c));
                        assert(keys@.contains(c));
                        assert(lost_ids(self.clients_map()[c]) == lost_ids(old_clients[c]));
                    }
                }
            }
            assert(self.client_views().dom() == self.clients_map().dom());
        }
        true
    }
}

/// Membership in a pushed sequence: the old elements plus the new one.
proof fn lemma_push_contains(s: Seq<usize>, v: usize)
    ensures
        forall|x: usize| #[trigger] s.push(v).contains(x) <==> (s.contains(x) || x == v),
{
    assert forall|x: usize| #[trigger] s.push(v).contains(x) implies (s.contains(x) || x == v) by {
        let i = choose|i: int| 0 <= i < s.push(v).len() && #[trigger] s.push(v)[i] == x;
        if i < s.len() {
            assert(s[i] == x);
        }
    }
    assert forall|x: usize| s.contains(x) || x == v implies #[trigger] s.push(v).contains(x) by {
        if x == v {
            assert(s.push(v)[s.len() as int] == x);
        } else {
            let i = choose|i: int| 0 <= i < s.len() && #[trigger] s[i] == x;
            assert(s.push(v)[i] == x);
        }
    }
}

/// Pushing an element not yet present keeps a sequence duplicate-free.
proof fn lemma_push_no_dup(s: Seq<usize>, v: usize)
    requires
        s.no_duplicates(),
        !s.contains(v),
    ensures
        s.push(v).no_duplicates(),
{
    let t = s.push(v);
    assert forall|i: int, j: int| 0 <= i < t.len() && 0 <= j < t.len() && i != j implies t[i]
        != t[j] by {
        if i < s.len() && j < s.len() {
        } else if i < s.len() {
            assert(s.contains(s[i]));
        } else if j < s.len() {
            assert(s.contains(s[j]));
        }
    }
}

/// What swap-removal does to a duplicate-free sequence: the element is
/// gone, the rest stay, and no duplicate appears.
proof fn lemma_swap_remove_effect(s: Seq<usize>, t: Seq<usize>, v: usize)
    requires
        s.no_duplicates(),
        s.contains(v),
        exists|i: int| 0 <= i < s.len() && s[i] == v && t == s.update(i, s.last()).drop_last(),
    ensures
        t.no_duplicates(),
        forall|x: usize| #[trigger] t.contains(x) <==> (s.contains(x) && x != v),
{
    let i = choose|i: int| 0 <= i < s.len() && s[i] == v && t == s.update(i, s.last()).drop_last();
    let n = s.len() as int;
    assert(t.len() == n - 1);
    assert forall|j: int| 0 <= j < n - 1 implies t[j] == (if j == i {
        s[n - 1]
    } else {
        s[j]
    }) by {}
    assert forall|a: int, b: int| 0 <= a < t.len() && 0 <= b < t.len() && a != b implies t[a]
        != t[b] by {}
    assert forall|x: usize| #[trigger] t.contains(x) implies (s.contains(x) && x != v) by {
        let j = choose|j: int| 0 <= j < t.len() && #[trigger] t[j] == x;
        if j == i {
            assert(s[n - 1] == x);
        } else {
            assert(s[j] == x);
        }
    }
    assert forall|x: usize| s.contains(x) && x != v implies #[trigger] t.contains(x) by {
        let j = choose|j: int| 0 <= j < s.len() && #[trigger] s[j] == x;
        assert(j != i);
        if j == n - 1 {
            assert(i < n - 1) by {
                if i == n - 1 {
                    assert(s[i] == v);
                }
            }
            assert(t[i] == x);
        } else {
            assert(t[j] == x);
        }
    }
}

/// Marking a server lost keeps the client converging toward the registry
/// state with the server removed.
proof fn lemma_pending_after_remove(
    view: Map<usize, Published>,
    oc: ClientEntry,
    nc: ClientEntry,
    adv: Map<usize, Published>,
    id: usize,
)
    requires
        lost_ids(nc) == lost_ids(oc).push(id),
        forall|x: usize| #[trigger] dirty_ids(nc).contains(x) <==> (dirty_ids(oc).contains(x)
            && x != id),
        pending_applied(view, oc, adv) == adv,
    ensures
        pending_applied(view, nc, adv.remove(id)) == adv.remove(id),
{
    let adv2 = adv.remove(id);
    let lost1 = lost_ids(oc).to_set();
    let lost2 = lost_ids(nc).to_set();
    let left1 = view.remove_keys(lost1);
    let left2 = view.remove_keys(lost2);
    let dm1 = Map::new(|x: usize| dirty_ids(oc).contains(x), |x: usize| adv[x]);
    let dm2 = Map::new(|x: usize| dirty_ids(nc).contains(x), |x: usize| adv2[x]);
    let p1 = pending_applied(view, oc, adv);
    let p2 = pending_applied(view, nc, adv2);
    lemma_push_contains(lost_ids(oc), id);
    assert(lost2 =~= lost1.insert(id));
    assert(p2 =~= adv2) by {
        assert forall|x: usize| #[trigger] p2.contains_key(x) implies adv2.contains_key(x)
            && p2[x] == adv2[x] by {
            assert(x != id);
            if dm2.contains_key(x) {
                assert(dm1.contains_key(x));
                assert(p1.contains_key(x) && p1[x] == adv[x]);
                assert(p2[x] == adv2[x]);
            } else {
                assert(left2.contains_key(x));
                assert(left1.contains_key(x) && left1[x] == left2[x]);
                assert(!dm1.contains_key(x));
                assert(p1.contains_key(x) && p1[x] == left1[x]);
                assert(adv.contains_key(x) && adv[x] == left1[x]);
            }
        }
        assert forall|x: usize| #[trigger] adv2.contains_key(x) implies p2.contains_key(x)
            by {
            assert(x != id);
            assert(adv.contains_key(x));
            assert(p1.contains_key(x));
            if dm1.contains_key(x) {
                assert(dm2.contains_key(x));
            } else {
                assert(left1.contains_key(x));
                assert(left2.contains_key(x));
            }
        }
    }
}

/// Mark `id` lost for client `k`: drop it from the dirty-set and append it
/// to the lost list. Every other client is untouched.
fn mark_lost(clients: &mut slab::Slab<ClientEntry>, k: usize, id: usize)
    requires
        client_slots(*old(clients)).contains_key(k),
        dirty_ids(client_slots(*old(clients))[k]).no_duplicates(),
    ensures
        client_slots(*final(clients)).dom() == client_slots(*old(clients)).dom(),
        forall|c: usize| c != k && client_slots(*old(clients)).contains_key(c)
            ==> client_slots(*final(clients))[c] == client_slots(*old(clients))[c],
        lost_ids(client_slots(*final(clients))[k]) == lost_ids(
            client_slots(*old(clients))[k],
        ).push(id),
        dirty_ids(client_slots(*final(clients))[k]).no_duplicates(),
        forall|x: usize| #[trigger] dirty_ids(client_slots(*final(clients))[k]).contains(x)
            <==> (dirty_ids(client_slots(*old(clients))[k]).contains(x) && x != id),
{
    let ghost oc = client_slots(*clients)[k];
    let c = client_slab_get_mut(clients, k);
    let removed = dirty_swap_remove(&mut c.dirty, id);
    c.lost.push(id);
    proof {
        assert(client_slots(*clients).dom() =~= client_slots(*old(clients)).dom());
        if removed {
            lemma_swap_remove_effect(
                dirty_ids(oc),
                dirty_ids(client_slots(*clients)[k]),
                id,
            );
        }
    }
}

impl Registry {
    /// Remove a server whose connection ended, for any reason. If the
    /// server was advertised, every client is told: the id leaves its
    /// dirty-set and joins its lost list, and the slot stays behind as a
    /// tombstone until all those reports have been drained. The caller
    /// broadcasts its change notification afterwards.
    pub fn remove_server(&mut self, id: usize)
        requires
            old(self).wf(),
            old(self).servers_map().contains_key(id),
            old(self).servers_map()[id] is Live,
        ensures
            final(self).wf(),
            final(self).advertised() == old(self).advertised().remove(id),
            final(self).client_views() == old(self).client_views(),
            final(self).clients_map().dom() == old(self).clients_map().dom(),
            !(final(self).servers_map().contains_key(id) && final(self).servers_map()[id]
                is Live),
            forall|k: usize| k != id && old(self).servers_map().contains_key(k)
                ==> final(self).servers_map().contains_key(k) && final(self).servers_map()[k]
                == old(self).servers_map()[k],
            forall|k: usize| #[trigger] final(self).servers_map().contains_key(k)
                ==> old(self).servers_map().contains_key(k),
            old(self).servers_map()[id].is_advertised() ==> forall|c: usize|
                #[trigger] old(self).clients_map().contains_key(c) ==> lost_ids(
                final(self).clients_map()[c],
            ) == lost_ids(old(self).clients_map()[c]).push(id) && (forall|x: usize|
                #[trigger] dirty_ids(final(self).clients_map()[c]).contains(x) <==> (dirty_ids(
                old(self).clients_map()[c],
            ).contains(x) && x != id)),
            !old(self).servers_map()[id].is_advertised() ==> final(self).clients_map() == old(
                self,
            ).clients_map(),
    {
        let advertised: bool;
        {
            let cur = server_slab_get(&self.servers, id);
            advertised = match cur {
                ServerSlot::Live(e) => e.address.is_some(),
                ServerSlot::Dead { .. } => {
                    proof {
                        assert(false);
                    }
                    false
                }
            };
        }
        if !advertised {
            server_slab_remove(&mut self.servers, id);
            proof {
                let oldr = *old(self);
                assert(self.advertised() =~= oldr.advertised().remove(id));
                assert forall|c: usize| #[trigger] self.clients_map().contains_key(c) implies
                    self.client_wf(c) by {
                    assert(oldr.client_wf(c));
                    let cl = self.clients_map()[c];
                    assert forall|x: usize| lost_ids(cl).contains(x) implies self
                        .servers_map().contains_key(x) && self.servers_map()[x] is Dead by {
                        assert(oldr.servers_map().contains_key(x) && oldr.servers_map()[x]
                            is Dead);
                        assert(x != id);
                    }
                    assert(self.advertised() == oldr.advertised());
                }
                assert forall|k: usize| self.servers_map().contains_key(k) && (#[trigger] self
                    .servers_map()[k]) is Dead implies self.dead_wf(k) by {
                    assert(k != id);
                    assert(oldr.servers_map()[k] is Dead);
                    assert(oldr.dead_wf(k));
                }
            }
            return;
        }
        let ghost srv_before = self.servers;
        let ghost old_clients = client_slots(self.clients);
        let keys = client_slab_keys(&self.clients);
        let mut waiting: Vec<usize> = Vec::new();
        let mut i: usize = 0;
        while i < keys.len()
            invariant
                i <= keys.len(),
                self.servers == srv_before,
                self.views == old(self).views,
                waiting@ == keys@.take(i as int),
                forall|k: usize| keys@.contains(k) <==> old_clients.contains_key(k),
                forall|a: int, b: int| 0 <= a < b < keys@.len() ==> keys@[a] < keys@[b],
                client_slots(self.clients).dom() == old_clients.dom(),
                forall|c: usize| #[trigger] old_clients.contains_key(c) ==> dirty_ids(
                    old_clients[c],
                ).no_duplicates(),
                forall|c: usize| #[trigger] old_clients.contains_key(c) ==> {
                    let oc = old_clients[c];
                    let nc = client_slots(self.clients)[c];
                    if keys@.take(i as int).contains(c) {
                        lost_ids(nc) == lost_ids(oc).push(id) && dirty_ids(nc).no_duplicates()
                            && (forall|x: usize| #[trigger] dirty_ids(nc).contains(x) <==> (
                        dirty_ids(oc).contains(x) && x != id))
                    } else {
                        nc == oc
                    }
                },
            decreases keys.len() - i,
        {
            let k = keys[i];
            proof {
                assert(keys@.contains(keys@[i as int]));
                assert(old_clients.contains_key(k));
                assert(keys@.take(i as int).contains(k) ==> false) by {
                    if keys@.take(i as int).contains(k) {
                        let j = choose|j: int| 0 <= j < i && #[trigger] keys@.take(i as int)[j]
                            == k;
                        assert(keys@[j] == k && keys@[i as int] == k);
                    }
                }
            }
            let ghost pre = client_slots(self.clients);
            mark_lost(&mut self.clients, k, id);
            waiting.push(k);
            proof {
                assert(pre[k] == old_clients[k]);
                assert(waiting@ =~= keys@.take(i + 1));
                assert(keys@.take(i + 1) =~= keys@.take(i as int).push(k));
                assert forall|c2: usize| #[trigger] old_clients.contains_key(c2) implies {
                    let oc = old_clients[c2];
                    let nc = client_slots(self.clients)[c2];
                    if keys@.take(i + 1).contains(c2) {
                        lost_ids(nc) == lost_ids(oc).push(id) && dirty_ids(nc).no_duplicates()
                            && (forall|x: usize| #[trigger] dirty_ids(nc).contains(x) <==> (
                        dirty_ids(oc).contains(x) && x != id))
                    } else {
                        nc == oc
                    }
                } by {
                    if c2 != k {
                        assert(client_slots(self.clients)[c2] == pre[c2]);
                        assert(keys@.take(i + 1).contains(c2) == keys@.take(i as int).contains(
                            c2,
                        )) by {
                            if keys@.take(i + 1).contains(c2) && c2 != k {
                                let j = choose|j: int|
                                    0 <= j < i + 1 && #[trigger] keys@.take(i + 1)[j] == c2;
                                assert(j < i);
                                assert(keys@.take(i as int)[j] == c2);
                                assert(keys@.take(i as int).contains(c2));
                            }
                            if keys@.take(i as int).contains(c2) {
                                let j = choose|j: int|
                                    0 <= j < i && #[trigger] keys@.take(i as int)[j] == c2;
                                assert(keys@.take(i + 1)[j] == c2);
                                assert(keys@.take(i + 1).contains(c2));
                            }
                        }
                    } else {
                        assert(keys@.take(i + 1).contains(k)) by {
                            assert(keys@.take(i + 1)[i as int] == k);
                        }
                    }
                }
            }
            i = i + 1;
        }
        proof {
            assert(keys@.take(keys@.len() as int) =~= keys@);
        }
        if waiting.len() > 0 {
            server_slab_set(&mut self.servers, id, ServerSlot::Dead { waiting });
        } else {
            server_slab_remove(&mut self.servers, id);
        }
        proof {
            let oldr = *old(self);
            assert(self.advertised() =~= oldr.advertised().remove(id));
            assert forall|c: usize| #[trigger] self.clients_map().contains_key(c) implies self
                .client_wf(c) by {
                assert(old_clients.contains_key(c));
                assert(keys@.contains(c));
                assert(oldr.client_wf(c));
                let oc = old_clients[c];
                let nc = self.clients_map()[c];
                assert(lost_ids(nc) == lost_ids(oc).push(id));
                assert forall|x: usize| dirty_ids(nc).contains(x) implies self
                    .advertised().contains_key(x) by {
                    assert(dirty_ids(oc).contains(x) && x != id);
                    assert(oldr.advertised().contains_key(x));
                }
                assert(lost_ids(nc).no_duplicates()) by {
                    assert(!lost_ids(oc).contains(id)) by {
                        if lost_ids(oc).contains(id) {
                            assert(oldr.servers_map()[id] is Dead);
                        }
                    }
                    lemma_push_no_dup(lost_ids(oc), id);
                }
                assert forall|x: usize| lost_ids(nc).contains(x) implies self
                    .servers_map().contains_key(x) && self.servers_map()[x] is Dead by {
                    lemma_push_contains(lost_ids(oc), id);
                    if x != id {
                        assert(lost_ids(oc).contains(x));
                        assert(oldr.servers_map().contains_key(x) && oldr.servers_map()[x]
                            is Dead);
                        assert(self.servers_map()[x] == oldr.servers_map()[x]);
                    } else {
                        assert(keys@.len() > 0);
                        assert(self.servers_map().contains_key(id) && self.servers_map()[id]
                            is Dead);
                    }
                }
                lemma_pending_after_remove(
                    oldr.client_views()[c],
                    oc,
                    nc,
                    oldr.advertised(),
                    id,
                );
            }
            assert forall|k: usize| self.servers_map().contains_key(k) && (#[trigger] self
                .servers_map()[k]) is Dead implies self.dead_wf(k) by {
                if k != id {
                    assert(oldr.servers_map()[k] is Dead);
                    assert(oldr.dead_wf(k));
                    let w = self.servers_map()[k]->waiting@;
                    assert forall|c: usize| w.contains(c) <==> (self.clients_map().contains_key(
                        c,
                    ) && lost_ids(self.clients_map()[c]).contains(k)) by {
                        if self.clients_map().contains_key(c) {
                            assert(old_clients.contains_key(c));
                            assert(keys@.contains(c));
                            lemma_push_contains(lost_ids(old_clients[c]), id);
                            assert(lost_ids(self.clients_map()[c]).contains(k) == lost_ids(
                                old_clients[c],
                            ).contains(k));
                        }
                    }
                } else {
                    let w = self.servers_map()[id]->waiting@;
                    assert(w == keys@);
                    assert(w.no_duplicates()) by {
                        assert forall|a: int, b: int|
                            0 <= a < w.len() && 0 <= b < w.len() && a != b implies w[a] != w[b]
                            by {}
                    }
                    assert forall|c: usize| w.contains(c) <==> (self.clients_map().contains_key(
                        c,
                    ) && lost_ids(self.clients_map()[c]).contains(id)) by {
                        if self.clients_map().contains_key(c) {
                            assert(old_clients.contains_key(c));
                            assert(keys@.contains(c));
                            lemma_push_contains(lost_ids(old_clients[c]), id);
                        }
                    }
                }
            }
            assert(self.client_views().dom() == self.clients_map().dom());
        }
    }

    /// Admit a game client. Its dirty-set starts as the set of currently
    /// advertised servers — so its first delta is a complete snapshot — and
    /// its lost list starts empty.
    pub fn insert_client(&mut self) -> (id: usize)
        requires
            old(self).wf(),
        ensures
            final(self).wf(),
            !old(self).clients_map().contains_key(id),
            final(self).clients_map().dom() == old(self).clients_map().dom().insert(id),
            forall|c: usize| c != id && old(self).clients_map().contains_key(c)
                ==> final(self).clients_map()[c] == old(self).clients_map()[c],
            dirty_ids(final(self).clients_map()[id]).no_duplicates(),
            forall|x: usize| #[trigger] dirty_ids(final(self).clients_map()[id]).contains(x)
                <==> old(self).advertised().contains_key(x),
            lost_ids(final(self).clients_map()[id]) == Seq::<usize>::empty(),
            final(self).servers_map() == old(self).servers_map(),
            final(self).advertised() == old(self).advertised(),
            final(self).client_views() == old(self).client_views().insert(
                id,
                (Map::<usize, Published>::empty()),
            ),
    {
        let keys = server_slab_keys(&self.servers);
        let mut ds = dirty_new();
        let mut i: usize = 0;
        while i < keys.len()
            invariant
                i <= keys.len(),
                forall|k: usize| keys@.contains(k) <==> server_slots(self.servers).contains_key(
                    k,
                ),
                forall|a: int, b: int| 0 <= a < b < keys@.len() ==> keys@[a] < keys@[b],
                dirty_order(ds).no_duplicates(),
                forall|x: usize| #[trigger] dirty_order(ds).contains(x) <==> (keys@.take(
                    i as int,
                ).contains(x) && self.advertised().contains_key(x)),
            decreases keys.len() - i,
        {
            let k = keys[i];
            proof {
                assert(keys@.contains(keys@[i as int]));
                assert(keys@.take(i as int).contains(k) ==> false) by {
                    if keys@.take(i as int).contains(k) {
                        let j = choose|j: int| 0 <= j < i && #[trigger] keys@.take(i as int)[j]
                            == k;
                        assert(keys@[j] == k && keys@[i as int] == k);
                    }
                }
            }
            let slot = server_slab_get(&self.servers, k);
            let is_adv = match slot {
                ServerSlot::Live(e) => e.address.is_some(),
                ServerSlot::Dead { .. } => false,
            };
            let ghost pre = dirty_order(ds);
            if is_adv {
                dirty_insert(&mut ds, k);
                proof {
                    lemma_push_contains(pre, k);
                }
            }
            proof {
                assert(keys@.take(i + 1) =~= keys@.take(i as int).push(k));
                lemma_push_contains(keys@.take(i as int), k);
                assert forall|x: usize| #[trigger] dirty_order(ds).contains(x) <==> (keys@.take(
                    i + 1,
                ).contains(x) && self.advertised().contains_key(x)) by {
                    assert(self.advertised().contains_key(k) == is_adv);
                }
            }
            i = i + 1;
        }
        proof {
            assert(keys@.take(keys@.len() as int) =~= keys@);
        }
        let entry = ClientEntry { dirty: ds, lost: Vec::new() };
        let ghost dsv = dirty_order(entry.dirty);
        let id = client_slab_insert(&mut self.clients, entry);
        self.views = Ghost(self.views@.insert(id, Map::empty()));
        proof {
            let oldr = *old(self);
            assert(self.client_views().dom() =~= self.clients_map().dom());
            assert(self.clients_map().dom() =~= oldr.clients_map().dom().insert(id));
            assert(self.advertised() == oldr.advertised());
            let nc = self.clients_map()[id];
            assert(dirty_ids(nc) == dsv);
            assert(lost_ids(nc) =~= Seq::<usize>::empty());
            assert forall|c: usize| #[trigger] self.clients_map().contains_key(c) implies self
                .client_wf(c) by {
                if c != id {
                    assert(oldr.clients_map().contains_key(c));
                    assert(oldr.client_wf(c));
                    assert(self.clients_map()[c] == oldr.clients_map()[c]);
                    assert(self.client_views()[c] == oldr.client_views()[c]);
                } else {
                    assert(pending_applied(
                        (Map::<usize, Published>::empty()),
                        nc,
                        self.advertised(),
                    ) =~= self.advertised()) by {
                        let adv = self.advertised();
                        let dm = Map::new(
                            |x: usize| dirty_ids(nc).contains(x),
                            |x: usize| adv[x],
                        );
                        assert(lost_ids(nc).to_set() =~= Set::<usize>::empty());
                        assert forall|x: usize|
                            #[trigger] pending_applied(
                                (Map::<usize, Published>::empty()),
                                nc,
                                adv,
                            ).contains_key(x) == adv.contains_key(x) by {
                            assert(dm.contains_key(x) == adv.contains_key(x));
                        }
                    }
                }
            }
            assert forall|k: usize| self.servers_map().contains_key(k) && (#[trigger] self
                .servers_map()[k]) is Dead implies self.dead_wf(k) by {
                assert(oldr.servers_map()[k] is Dead);
                assert(oldr.dead_wf(k));
                let w = self.servers_map()[k]->waiting@;
                assert forall|c: usize| w.contains(c) <==> (self.clients_map().contains_key(c)
                    && lost_ids(self.clients_map()[c]).contains(k)) by {
                    if c == id {
                        assert(!oldr.clients_map().contains_key(id));
                        assert(!w.contains(id));
                        assert(!lost_ids(nc).contains(k));
                    }
                }
            }
        }
        id
    }
}

/// Client `c` has drained the shutdown report for dead server `dead_id`:
/// take it off the tombstone's waiting list, and free the slot — releasing
/// the id for reuse — once nobody is left waiting.
fn release_lost(servers: &mut slab::Slab<ServerSlot>, dead_id: usize, c: usize)
    requires
        server_slots(*old(servers)).contains_key(dead_id),
        server_slots(*old(servers))[dead_id] is Dead,
        server_slots(*old(servers))[dead_id]->waiting@.contains(c),
        server_slots(*old(servers))[dead_id]->waiting@.no_duplicates(),
    ensures
        forall|k: usize| k != dead_id && server_slots(*old(servers)).contains_key(k)
            ==> server_slots(*final(servers)).contains_key(k) && server_slots(
            *final(servers),
        )[k] == server_slots(*old(servers))[k],
        forall|k: usize| #[trigger] server_slots(*final(servers)).contains_key(k)
            ==> server_slots(*old(servers)).contains_key(k),
        server_slots(*old(servers))[dead_id]->waiting@.len() == 1 ==> !server_slots(
            *final(servers),
        ).contains_key(dead_id),
        server_slots(*old(servers))[dead_id]->waiting@.len() > 1 ==> server_slots(
            *final(servers),
        ).contains_key(dead_id) && server_slots(*final(servers))[dead_id] is Dead
            && server_slots(*final(servers))[dead_id]->waiting@.no_duplicates() && server_slots(
            *final(servers),
        )[dead_id]->waiting@.len() > 0 && (forall|x: usize| #[trigger] server_slots(
            *final(servers),
        )[dead_id]->waiting@.contains(x) <==> (server_slots(
            *old(servers),
        )[dead_id]->waiting@.contains(x) && x != c)),
{
    let ghost w = server_slots(*servers)[dead_id]->waiting@;
    let mut nw: Vec<usize> = Vec::new();
    {
        let slot = server_slab_get(servers, dead_id);
        match slot {
            ServerSlot::Dead { waiting } => {
                let mut j: usize = 0;
                while j < waiting.len()
                    invariant
                        j <= waiting.len(),
                        waiting@ == w,
                        w.no_duplicates(),
                        nw@.no_duplicates(),
                        forall|x: usize| #[trigger] nw@.contains(x) <==> (w.take(
                            j as int,
                        ).contains(x) && x != c),
                        nw@.len() == (if w.take(j as int).contains(c) {
                            j - 1
                        } else {
                            j as int
                        }),
                    decreases waiting.len() - j,
                {
                    let x = waiting[j];
                    proof {
                        assert(w.take(j as int).contains(x) ==> false) by {
                            if w.take(j as int).contains(x) {
                                let a = choose|a: int|
                                    0 <= a < j && #[trigger] w.take(j as int)[a] == x;
                                assert(w[a] == x && w[j as int] == x);
                            }
                        }
                        assert(!nw@.contains(x));
                    }
                    let ghost pre = nw@;
                    if x != c {
                        nw.push(x);
                        proof {
                            lemma_push_contains(pre, x);
                            lemma_push_no_dup(pre, x);
                        }
                    }
                    proof {
                        assert(w.take(j + 1) =~= w.take(j as int).push(x));
                        lemma_push_contains(w.take(j as int), x);
                    }
                    j = j + 1;
                }
                proof {
                    assert(w.take(w.len() as int) =~= w);
                }
            }
            ServerSlot::Live(_) => {
                proof {
                    assert(false);
                }
            }
        }
    }
    if nw.len() == 0 {
        server_slab_remove(servers, dead_id);
        proof {
            assert(w.len() == 1) by {
                if w.len() > 1 {
                    let a = choose|a: int| 0 <= a < w.len() && #[trigger] w[a] == c;
                    let b = if a == 0 {
                        1int
                    } else {
                        0int
                    };
                    assert(w.contains(w[b]));
                    assert(w[b] != c);
                    assert(nw@.contains(w[b]));
                }
            }
        }
    } else {
        server_slab_set(servers, dead_id, ServerSlot::Dead { waiting: nw });
        proof {
            assert(w.len() > 1) by {
                if w.len() == 1 {
                    assert(w[0] == c) by {
                        let a = choose|a: int| 0 <= a < w.len() && #[trigger] w[a] == c;
                    }
                    assert(nw@.len() > 0);
                    let x = nw@[0];
                    assert(nw@.contains(x));
                    assert(w.contains(x) && x != c);
                    let a = choose|a: int| 0 <= a < w.len() && #[trigger] w[a] == x;
                }
            }
        }
    }
}

impl Registry {
    /// Remove a client whose connection ended: free its slot and drop its
    /// claims on any tombstones, freeing those whose last waiter it was.
    /// No broadcast is needed.
    pub fn remove_client(&mut self, id: usize)
        requires
            old(self).wf(),
            old(self).clients_map().contains_key(id),
        ensures
            final(self).wf(),
            final(self).clients_map().dom() == old(self).clients_map().dom().remove(id),
            forall|c: usize| c != id && old(self).clients_map().contains_key(c)
                ==> final(self).clients_map()[c] == old(self).clients_map()[c],
            final(self).client_views() == old(self).client_views().remove(id),
            final(self).advertised() == old(self).advertised(),
            forall|k: usize| old(self).servers_map().contains_key(k) && old(self).servers_map()[
                k
            ] is Live ==> final(self).servers_map().contains_key(k) && final(self).servers_map()[
                k
            ] == old(self).servers_map()[k],
            forall|k: usize| #[trigger] final(self).servers_map().contains_key(k)
                ==> old(self).servers_map().contains_key(k),
    {
        proof {
            assert(old(self).client_wf(id));
        }
        let centry = client_slab_remove(&mut self.clients, id);
        self.views = Ghost(self.views@.remove(id));
        let ghost oldr = *old(self);
        let ghost lost = centry.lost@;
        let ghost cl_after = self.clients;
        let ghost views_after = self.views@;
        proof {
            assert(lost_ids(oldr.clients_map()[id]) == lost);
            assert forall|j: int| 0 <= j < lost.len() implies oldr.servers_map().contains_key(
                #[trigger] lost[j],
            ) && oldr.servers_map()[lost[j]] is Dead && oldr.dead_wf(lost[j]) by {
                assert(lost_ids(oldr.clients_map()[id]).contains(lost[j]));
                assert(oldr.servers_map()[lost[j]] is Dead);
            }
        }
        let mut i: usize = 0;
        while i < centry.lost.len()
            invariant
                i <= centry.lost.len(),
                centry.lost@ == lost,
                self.clients == cl_after,
                self.views@ == views_after,
                lost.no_duplicates(),
                forall|j: int| 0 <= j < lost.len() ==> oldr.servers_map().contains_key(
                    #[trigger] lost[j],
                ) && oldr.servers_map()[lost[j]] is Dead && oldr.dead_wf(lost[j]),
                oldr.clients_map().contains_key(id),
                lost_ids(oldr.clients_map()[id]) == lost,
                forall|k: usize| !lost.contains(k) && oldr.servers_map().contains_key(k)
                    ==> server_slots(self.servers).contains_key(k) && server_slots(
                    self.servers,
                )[k] == oldr.servers_map()[k],
                forall|k: usize| #[trigger] server_slots(self.servers).contains_key(k)
                    ==> oldr.servers_map().contains_key(k),
                forall|j: int| i <= j < lost.len() ==> server_slots(
                    self.servers,
                ).contains_key(#[trigger] lost[j]) && server_slots(self.servers)[lost[j]]
                    == oldr.servers_map()[lost[j]],
                forall|j: int| 0 <= j < i ==> released(
                    oldr.servers_map(),
                    server_slots(self.servers),
                    #[trigger] lost[j],
                    id,
                ),
            decreases centry.lost.len() - i,
        {
            let k = centry.lost[i];
            proof {
                assert(oldr.dead_wf(lost[i as int]));
                assert(oldr.servers_map()[k]->waiting@.contains(id));
                assert(lost.take(i as int).contains(k) ==> false) by {
                    if lost.take(i as int).contains(k) {
                        let a = choose|a: int| 0 <= a < i && #[trigger] lost.take(i as int)[a]
                            == k;
                        assert(lost[a] == k && lost[i as int] == k);
                    }
                }
            }
            let ghost pre = server_slots(self.servers);
            release_lost(&mut self.servers, k, id);
            proof {
                assert forall|j: int| 0 <= j < i + 1 implies released(
                    oldr.servers_map(),
                    server_slots(self.servers),
                    #[trigger] lost[j],
                    id,
                ) by {
                    if j < i {
                        assert(lost[j] != k);
                        assert(released(oldr.servers_map(), pre, lost[j], id));
                        if pre.contains_key(lost[j]) {
                            assert(server_slots(self.servers)[lost[j]] == pre[lost[j]]);
                        }
                    }
                }
            }
            i = i + 1;
        }
        proof {
            assert(lost.take(lost.len() as int) =~= lost);
            assert(self.advertised() =~= oldr.advertised()) by {
                assert forall|k: usize|
                    #![trigger self.advertised().contains_key(k)]
                    #![trigger oldr.advertised().contains_key(k)]
                    (self.advertised().contains_key(k) == oldr.advertised().contains_key(k)) && (
                self.advertised().contains_key(k) ==> self.advertised()[k]
                    == oldr.advertised()[k]) by {
                    if lost.contains(k) {
                        assert(oldr.servers_map()[k] is Dead);
                        if server_slots(self.servers).contains_key(k) {
                            let j = choose|j: int|
                                0 <= j < lost.len() && #[trigger] lost[j] == k;
                            assert(released(oldr.servers_map(), server_slots(self.servers), k,
                                id));
                            assert(server_slots(self.servers)[k] is Dead);
                        }
                    } else {
                        if oldr.servers_map().contains_key(k) {
                            assert(server_slots(self.servers).contains_key(k) && server_slots(
                                self.servers,
                            )[k] == oldr.servers_map()[k]);
                        }
                    }
                }
            }
            assert forall|k: usize| oldr.servers_map().contains_key(k) && oldr.servers_map()[k]
                is Live implies server_slots(self.servers).contains_key(k) && server_slots(
                self.servers,
            )[k] == oldr.servers_map()[k] by {
                assert(!lost.contains(k)) by {
                    if lost.contains(k) {
                        let j = choose|j: int| 0 <= j < lost.len() && #[trigger] lost[j] == k;
                        assert(oldr.servers_map()[lost[j]] is Dead);
                    }
                }
            }
            assert(self.clients_map().dom() =~= oldr.clients_map().dom().remove(id));
            assert forall|c: usize| #[trigger] self.clients_map().contains_key(c) implies self
                .client_wf(c) by {
                assert(c != id);
                assert(oldr.client_wf(c));
                let cl = self.clients_map()[c];
                assert(cl == oldr.clients_map()[c]);
                assert(self.client_views()[c] == oldr.client_views()[c]);
                assert forall|x: usize| lost_ids(cl).contains(x) implies self
                    .servers_map().contains_key(x) && self.servers_map()[x] is Dead by {
                    assert(oldr.servers_map().contains_key(x) && oldr.servers_map()[x]
                        is Dead);
                    if lost.contains(x) {
                        assert(oldr.dead_wf(x));
                        let w = oldr.servers_map()[x]->waiting@;
                        assert(w.contains(c) && w.contains(id));
                        assert(released(oldr.servers_map(), server_slots(self.servers), x, id));
                        assert(w.len() > 1) by {
                            if w.len() == 1 {
                                let a = choose|a: int| 0 <= a < w.len() && #[trigger] w[a] == c;
                                let b = choose|b: int| 0 <= b < w.len() && #[trigger] w[b]
                                    == id;
                            }
                        }
                    }
                }
            }
            assert forall|k: usize| self.servers_map().contains_key(k) && (#[trigger] self
                .servers_map()[k]) is Dead implies self.dead_wf(k) by {
                assert(oldr.servers_map().contains_key(k));
                assert(oldr.servers_map()[k] is Dead) by {
                    if oldr.servers_map()[k] is Live {
                        assert(!lost.contains(k));
                    }
                }
                assert(oldr.dead_wf(k));
                let ow = oldr.servers_map()[k]->waiting@;
                let w = self.servers_map()[k]->waiting@;
                if lost.contains(k) {
                    assert(released(oldr.servers_map(), server_slots(self.servers), k, id));
                    assert forall|c2: usize| w.contains(c2) <==> (self
                        .clients_map().contains_key(c2) && lost_ids(
                        self.clients_map()[c2],
                    ).contains(k)) by {
                        assert(w.contains(c2) <==> (ow.contains(c2) && c2 != id));
                        if c2 != id && self.clients_map().contains_key(c2) {
                            assert(self.clients_map()[c2] == oldr.clients_map()[c2]);
                        }
                    }
                } else {
                    assert(w == ow);
                    assert(!ow.contains(id)) by {
                        if ow.contains(id) {
                            assert(lost_ids(oldr.clients_map()[id]).contains(k));
                        }
                    }
                    assert forall|c2: usize| w.contains(c2) <==> (self
                        .clients_map().contains_key(c2) && lost_ids(
                        self.clients_map()[c2],
                    ).contains(k)) by {
                        if c2 != id && self.clients_map().contains_key(c2) {
                            assert(self.clients_map()[c2] == oldr.clients_map()[c2]);
                        }
                    }
                }
            }
            assert(self.client_views().dom() =~= self.clients_map().dom());
        }
    }
}

/// The Shutdown deltas reporting a run of lost ids, in order.
pub open spec fn shutdown_deltas(lost: Seq<usize>) -> Seq<ServerV> {
    lost.map_values(|k: usize| ServerV { id: k as u64, event: EventV::Shutdown })
}

/// The Update deltas reporting a run of dirty ids, in order, each carrying
/// the server's current advertised address and state.
pub open spec fn update_deltas(dirty: Seq<usize>, adv: Map<usize, Published>) -> Seq<ServerV> {
    dirty.map_values(
        |k: usize| ServerV { id: k as u64, event: EventV::Update(adv[k].0@, adv[k].1) },
    )
}

impl Registry {
    /// Drain one client's pending bookkeeping into a message: a Shutdown
    /// for every lost id, in disappearance order, followed by an Update for
    /// every dirty id with the server's current address and state. The
    /// client's dirty-set and lost list are left empty, and every drained
    /// tombstone this client was the last waiter on is freed.
    pub fn take_delta(&mut self, id: usize) -> (m: Message)
        requires
            old(self).wf(),
            old(self).clients_map().contains_key(id),
        ensures
            final(self).wf(),
            m@ == shutdown_deltas(lost_ids(old(self).clients_map()[id])) + update_deltas(
                dirty_ids(old(self).clients_map()[id]),
                old(self).advertised(),
            ),
            final(self).clients_map().dom() == old(self).clients_map().dom(),
            forall|c: usize| c != id && old(self).clients_map().contains_key(c)
                ==> final(self).clients_map()[c] == old(self).clients_map()[c],
            dirty_ids(final(self).clients_map()[id]) == Seq::<usize>::empty(),
            lost_ids(final(self).clients_map()[id]) == Seq::<usize>::empty(),
            final(self).advertised() == old(self).advertised(),
            final(self).client_views() == old(self).client_views().insert(
                id,
                old(self).advertised(),
            ),
            forall|k: usize| old(self).servers_map().contains_key(k) && old(self).servers_map()[
                k
            ] is Live ==> final(self).servers_map().contains_key(k) && final(self).servers_map()[
                k
            ] == old(self).servers_map()[k],
            forall|k: usize| #[trigger] final(self).servers_map().contains_key(k)
                ==> old(self).servers_map().contains_key(k),
    {
        proof {
            assert(old(self).client_wf(id));
        }
        let ghost oldr = *old(self);
        let mut lost: Vec<usize> = Vec::new();
        let dirtyv: Vec<usize>;
        {
            let c = client_slab_get_mut(&mut self.clients, id);
            core::mem::swap(&mut lost, &mut c.lost);
            dirtyv = dirty_drain(&mut c.dirty);
        }
        let ghost lostg = lost@;
        let ghost dirtyg = dirtyv@;
        let ghost cl_mid = self.clients;
        proof {
            assert(lostg == lost_ids(oldr.clients_map()[id]));
            assert(dirtyg == dirty_ids(oldr.clients_map()[id]));
            assert(client_slots(cl_mid).dom() =~= oldr.clients_map().dom());
            assert forall|j: int| 0 <= j < lostg.len() implies oldr.servers_map().contains_key(
                #[trigger] lostg[j],
            ) && oldr.servers_map()[lostg[j]] is Dead && oldr.dead_wf(lostg[j]) by {
                assert(lost_ids(oldr.clients_map()[id]).contains(lostg[j]));
                assert(oldr.servers_map()[lostg[j]] is Dead);
            }
        }
        let mut out: Vec<Server> = Vec::new();
        let mut i: usize = 0;
        while i < lost.len()
            invariant
                i <= lost.len(),
                lost@ == lostg,
                self.clients == cl_mid,
                self.views == oldr.views,
                lostg.no_duplicates(),
                oldr.clients_map().contains_key(id),
                lost_ids(oldr.clients_map()[id]) == lostg,
                forall|j: int| 0 <= j < lostg.len() ==> oldr.servers_map().contains_key(
                    #[trigger] lostg[j],
                ) && oldr.servers_map()[lostg[j]] is Dead && oldr.dead_wf(lostg[j]),
                out@.len() == i,
                forall|n: int| 0 <= n < i ==> #[trigger] out@[n]@ == (ServerV {
                    id: lostg[n] as u64,
                    event: EventV::Shutdown,
                }),
                forall|k: usize| !lostg.contains(k) && oldr.servers_map().contains_key(k)
                    ==> server_slots(self.servers).contains_key(k) && server_slots(
                    self.servers,
                )[k] == oldr.servers_map()[k],
                forall|k: usize| #[trigger] server_slots(self.servers).contains_key(k)
                    ==> oldr.servers_map().contains_key(k),
                forall|j: int| i <= j < lostg.len() ==> server_slots(
                    self.servers,
                ).contains_key(#[trigger] lostg[j]) && server_slots(self.servers)[lostg[j]]
                    == oldr.servers_map()[lostg[j]],
                forall|j: int| 0 <= j < i ==> released(
                    oldr.servers_map(),
                    server_slots(self.servers),
                    #[trigger] lostg[j],
                    id,
                ),
            decreases lost.len() - i,
        {
            let k = lost[i];
            proof {
                assert(oldr.dead_wf(lostg[i as int]));
                assert(oldr.servers_map()[k]->waiting@.contains(id));
                assert(lostg.take(i as int).contains(k) ==> false) by {
                    if lostg.take(i as int).contains(k) {
                        let a = choose|a: int| 0 <= a < i && #[trigger] lostg.take(i as int)[a]
                            == k;
                        assert(lostg[a] == k && lostg[i as int] == k);
                    }
                }
            }
            out.push(Server { id: k as u64, event: Event::Shutdown });
            let ghost pre = server_slots(self.servers);
            release_lost(&mut self.servers, k, id);
            proof {
                assert forall|j: int| 0 <= j < i + 1 implies released(
                    oldr.servers_map(),
                    server_slots(self.servers),
                    #[trigger] lostg[j],
                    id,
                ) by {
                    if j < i {
                        assert(lostg[j] != k);
                        assert(released(oldr.servers_map(), pre, lostg[j], id));
                        if pre.contains_key(lostg[j]) {
                            assert(server_slots(self.servers)[lostg[j]] == pre[lostg[j]]);
                        }
                    }
                }
            }
            i = i + 1;
        }
        proof {
            assert(lostg.take(lostg.len() as int) =~= lostg);
            assert(self.advertised() =~= oldr.advertised()) by {
                assert forall|k: usize|
                    #![trigger self.advertised().contains_key(k)]
                    #![trigger oldr.advertised().contains_key(k)]
                    (self.advertised().contains_key(k) == oldr.advertised().contains_key(k)) && (
                self.advertised().contains_key(k) ==> self.advertised()[k]
                    == oldr.advertised()[k]) by {
                    if lostg.contains(k) {
                        assert(oldr.servers_map()[k] is Dead);
                        if server_slots(self.servers).contains_key(k) {
                            let j = choose|j: int|
                                0 <= j < lostg.len() && #[trigger] lostg[j] == k;
                            assert(released(oldr.servers_map(), server_slots(self.servers), k,
                                id));
                            assert(server_slots(self.servers)[k] is Dead);
                        }
                    } else {
                        if oldr.servers_map().contains_key(k) {
                            assert(server_slots(self.servers).contains_key(k) && server_slots(
                                self.servers,
                            )[k] == oldr.servers_map()[k]);
                        }
                    }
                }
            }
            assert forall|x: usize| #[trigger] dirtyg.contains(x) implies server_slots(
                self.servers,
            ).contains_key(x) && server_slots(self.servers)[x].is_advertised() && server_slots(
                self.servers,
            )[x].published() == oldr.advertised()[x] by {
                assert(dirty_ids(oldr.clients_map()[id]).contains(x));
                assert(oldr.advertised().contains_key(x));
                assert(oldr.servers_map()[x] is Live);
                assert(!lostg.contains(x)) by {
                    if lostg.contains(x) {
                        let j = choose|j: int| 0 <= j < lostg.len() && #[trigger] lostg[j] == x;
                        assert(oldr.servers_map()[lostg[j]] is Dead);
                    }
                }
            }
        }
        let mut j: usize = 0;
        while j < dirtyv.len()
            invariant
                j <= dirtyv.len(),
                dirtyv@ == dirtyg,
                forall|x: usize| #[trigger] dirtyg.contains(x) ==> server_slots(
                    self.servers,
                ).contains_key(x) && server_slots(self.servers)[x].is_advertised()
                    && server_slots(self.servers)[x].published() == oldr.advertised()[x],
                out@.len() == lostg.len() + j,
                forall|n: int| 0 <= n < lostg.len() ==> #[trigger] out@[n]@ == (ServerV {
                    id: lostg[n] as u64,
                    event: EventV::Shutdown,
                }),
                forall|n: int| 0 <= n < j ==> #[trigger] out@[lostg.len() + n]@ == (ServerV {
                    id: dirtyg[n] as u64,
                    event: EventV::Update(
                        oldr.advertised()[dirtyg[n]].0@,
                        oldr.advertised()[dirtyg[n]].1,
                    ),
                }),
            decreases dirtyv.len() - j,
        {
            let k = dirtyv[j];
            proof {
                assert(dirtyg.contains(dirtyg[j as int]));
            }
            let ev: Event;
            {
                let slot = server_slab_get(&self.servers, k);
                ev = match slot {
                    ServerSlot::Live(e) => match &e.address {
                        Some(a) => Event::Update(*a, copy_bytes(&e.state)),
                        None => {
                            proof {
                                assert(false);
                            }
                            Event::Shutdown
                        }
                    },
                    ServerSlot::Dead { .. } => {
                        proof {
                            assert(false);
                        }
                        Event::Shutdown
                    }
                };
            }
            proof {
                assert(server_slots(self.servers)[k].is_advertised());
                assert(server_slots(self.servers)[k].published() == oldr.advertised()[k]);
                assert(ev@ == EventV::Update(
                    oldr.advertised()[k].0@,
                    oldr.advertised()[k].1,
                ));
            }
            out.push(Server { id: k as u64, event: ev });
            j = j + 1;
        }
        self.views = Ghost(self.views@.insert(id, oldr.advertised()));
        let m = Message { servers: out };
        proof {
            assert(m@ =~= shutdown_deltas(lostg) + update_deltas(dirtyg, oldr.advertised()))
                by {
                assert forall|n: int| 0 <= n < out@.len() implies m@[n] == (shutdown_deltas(
                    lostg,
                ) + update_deltas(dirtyg, oldr.advertised()))[n] by {
                    assert(m@[n] == out@[n]@);
                    if n < lostg.len() {
                        assert(out@[n]@ == (ServerV {
                            id: lostg[n] as u64,
                            event: EventV::Shutdown,
                        }));
                        assert(shutdown_deltas(lostg)[n] == (ServerV {
                            id: lostg[n] as u64,
                            event: EventV::Shutdown,
                        }));
                    } else {
                        let n2 = n - lostg.len();
                        assert(out@[lostg.len() + n2]@ == (ServerV {
                            id: dirtyg[n2] as u64,
                            event: EventV::Update(
                                oldr.advertised()[dirtyg[n2]].0@,
                                oldr.advertised()[dirtyg[n2]].1,
                            ),
                        }));
                        assert(update_deltas(dirtyg, oldr.advertised())[n2] == (ServerV {
                            id: dirtyg[n2] as u64,
                            event: EventV::Update(
                                oldr.advertised()[dirtyg[n2]].0@,
                                oldr.advertised()[dirtyg[n2]].1,
                            ),
                        }));
                    }
                }
            }
            assert(m@ == shutdown_deltas(lostg) + update_deltas(dirtyg, oldr.advertised()));
            let nc = self.clients_map()[id];
            assert(dirty_ids(nc) =~= Seq::<usize>::empty());
            assert(lost_ids(nc) =~= Seq::<usize>::empty());
            assert(self.clients_map().dom() =~= oldr.clients_map().dom());
            assert forall|c: usize| #[trigger] self.clients_map().contains_key(c) implies self
                .client_wf(c) by {
                if c == id {
                    assert(pending_applied(self.client_views()[id], nc, self.advertised())
                        =~= self.advertised()) by {
                        assert(self.client_views()[id] == oldr.advertised());
                        assert(lost_ids(nc).to_set() =~= Set::<usize>::empty());
                        assert(self.advertised() == oldr.advertised());
                    }
                } else {
                    assert(oldr.client_wf(c));
                    let cl = self.clients_map()[c];
                    assert(cl == oldr.clients_map()[c]);
                    assert(self.client_views()[c] == oldr.client_views()[c]);
                    assert forall|x: usize| lost_ids(cl).contains(x) implies self
                        .servers_map().contains_key(x) && self.servers_map()[x] is Dead by {
                        assert(oldr.servers_map().contains_key(x) && oldr.servers_map()[x]
                            is Dead);
                        if lostg.contains(x) {
                            assert(oldr.dead_wf(x));
                            let w = oldr.servers_map()[x]->waiting@;
                            assert(w.contains(c) && w.contains(id));
                            assert(released(oldr.servers_map(), server_slots(self.servers), x,
                                id));
                            assert(w.len() > 1) by {
                                if w.len() == 1 {
                                    let a = choose|a: int| 0 <= a < w.len() && #[trigger] w[a]
                                        == c;
                                    let b = choose|b: int| 0 <= b < w.len() && #[trigger] w[b]
                                        == id;
                                }
                            }
                        } else {
                            assert(server_slots(self.servers)[x] == oldr.servers_map()[x]);
                        }
                    }
                }
            }
            assert forall|k: usize| self.servers_map().contains_key(k) && (#[trigger] self
                .servers_map()[k]) is Dead implies self.dead_wf(k) by {
                assert(oldr.servers_map().contains_key(k));
                assert(oldr.servers_map()[k] is Dead) by {
                    if oldr.servers_map()[k] is Live {
                        assert(!lostg.contains(k)) by {
                            if lostg.contains(k) {
                                let j2 = choose|j2: int|
                                    0 <= j2 < lostg.len() && #[trigger] lostg[j2] == k;
                            }
                        }
                    }
                }
                assert(oldr.dead_wf(k));
                let ow = oldr.servers_map()[k]->waiting@;
                let w = self.servers_map()[k]->waiting@;
                if lostg.contains(k) {
                    assert(released(oldr.servers_map(), server_slots(self.servers), k, id));
                    assert forall|c2: usize| w.contains(c2) <==> (self
                        .clients_map().contains_key(c2) && lost_ids(
                        self.clients_map()[c2],
                    ).contains(k)) by {
                        assert(w.contains(c2) <==> (ow.contains(c2) && c2 != id));
                        if c2 != id && self.clients_map().contains_key(c2) {
                            assert(self.clients_map()[c2] == oldr.clients_map()[c2]);
                        }
                    }
                } else {
                    assert(w == ow);
                    assert(!ow.contains(id)) by {
                        if ow.contains(id) {
                            assert(lost_ids(oldr.clients_map()[id]).contains(k));
                        }
                    }
                    assert forall|c2: usize| w.contains(c2) <==> (self
                        .clients_map().contains_key(c2) && lost_ids(
                        self.clients_map()[c2],
                    ).contains(k)) by {
                        if c2 != id && self.clients_map().contains_key(c2) {
                            assert(self.clients_map()[c2] == oldr.clients_map()[c2]);
                        }
                    }
                }
            }
            assert(self.client_views().dom() =~= self.clients_map().dom());
            assert forall|k: usize| oldr.servers_map().contains_key(k) && oldr.servers_map()[k]
                is Live implies server_slots(self.servers).contains_key(k) && server_slots(
                self.servers,
            )[k] == oldr.servers_map()[k] by {
                assert(!lostg.contains(k)) by {
                    if lostg.contains(k) {
                        let j2 = choose|j2: int| 0 <= j2 < lostg.len() && #[trigger] lostg[j2]
                            == k;
                    }
                }
            }
        }
        m
    }
}

/// What one step of tombstone release leaves at `k`: either the slot was
/// freed (its last waiter left) or `c` alone left its waiting list.
pub open spec fn released(
    before: Map<usize, ServerSlot>,
    after: Map<usize, ServerSlot>,
    k: usize,
    c: usize,
) -> bool {
    let ow = before[k]->waiting@;
    if ow.len() == 1 {
        !after.contains_key(k)
    } else {
        &&& after.contains_key(k)
        &&& after[k] is Dead
        &&& after[k]->waiting@.no_duplicates()
        &&& after[k]->waiting@.len() > 0
        &&& forall|x: usize| #[trigger] after[k]->waiting@.contains(x) <==> (ow.contains(x)
            && x != c)
    }
}

} // verus!
