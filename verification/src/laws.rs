//! The registry's central guarantees, stated and proved once.
//!
//! These lemmas hold of every well-formed registry, which every registry
//! operation preserves. They are the library's statement of what the delta
//! protocol achieves: no message ever names a dangling id, no message
//! reports an id twice, and replaying one drained delta on top of what a
//! client was already told reproduces the advertised state exactly.

use vstd::prelude::*;
use crate::addr::AddrV;
use crate::client::{EventV, Message, ServerV};
use crate::codec::{
    dec_message, enc_message, lemma_message_encodable, lemma_message_roundtrip,
};
use crate::registry::{
    dirty_ids, lost_ids, pending_applied, shutdown_deltas, update_deltas, Published, Registry,
};

verus! {

/// No dangling ids: in a well-formed registry, every id in any client's
/// dirty-set names a live, advertised server, and no id in any client's
/// lost list names a live server.
pub proof fn lemma_no_dangling_ids(reg: Registry, c: usize, x: usize)
    requires
        reg.wf(),
        reg.clients_map().contains_key(c),
    ensures
        dirty_ids(reg.clients_map()[c]).contains(x) ==> reg.servers_map().contains_key(x)
            && reg.servers_map()[x].is_advertised(),
        lost_ids(reg.clients_map()[c]).contains(x) ==> !(reg.servers_map().contains_key(x)
            && reg.servers_map()[x] is Live),
{
    assert(reg.client_wf(c));
    if dirty_ids(reg.clients_map()[c]).contains(x) {
        assert(reg.advertised().contains_key(x));
    }
}

/// No double-reporting: among the deltas one drain produces for a client —
/// the Shutdowns for its lost ids followed by the Updates for its dirty
/// ids — each server id occurs at most once.
pub proof fn lemma_no_double_reporting(reg: Registry, c: usize)
    requires
        reg.wf(),
        reg.clients_map().contains_key(c),
    ensures
        ({
            let ds = shutdown_deltas(lost_ids(reg.clients_map()[c])) + update_deltas(
                dirty_ids(reg.clients_map()[c]),
                reg.advertised(),
            );
            forall|a: int, b: int| 0 <= a < b < ds.len() ==> ds[a].id != ds[b].id
        }),
{
    assert(reg.client_wf(c));
    let cl = reg.clients_map()[c];
    let lost = lost_ids(cl);
    let dirty = dirty_ids(cl);
    let ds = shutdown_deltas(lost) + update_deltas(dirty, reg.advertised());
    assert forall|a: int, b: int| 0 <= a < b < ds.len() implies ds[a].id != ds[b].id by {
        let la = lost.len() as int;
        if a < la && b < la {
            assert(ds[a].id == lost[a] as u64 && ds[b].id == lost[b] as u64);
            assert(lost[a] != lost[b]);
        } else if a < la {
            assert(ds[a].id == lost[a] as u64 && ds[b].id == dirty[b - la] as u64);
            assert(lost.contains(lost[a]) && dirty.contains(dirty[b - la]));
            assert(reg.servers_map()[lost[a]] is Dead);
            assert(reg.advertised().contains_key(dirty[b - la]));
            assert(lost[a] != dirty[b - la]);
        } else {
            assert(ds[a].id == dirty[a - la] as u64 && ds[b].id == dirty[b - la] as u64);
            assert(dirty[a - la] != dirty[b - la]);
        }
    }
}

// ---------------------------------------------------------------------------
// Delta convergence
// ---------------------------------------------------------------------------

/// A client's accumulated picture of the fleet, as read off the wire:
/// server id to address and state.
pub type ClientView = Map<u64, (AddrV, Seq<u8>)>;

/// One delta applied to a client's picture: a Shutdown forgets the id, an
/// Update adopts the carried address and state.
pub open spec fn apply_delta(v: ClientView, d: ServerV) -> ClientView {
    match d.event {
        EventV::Shutdown => v.remove(d.id),
        EventV::Update(a, s) => v.insert(d.id, (a, s)),
    }
}

/// A whole message applied to a client's picture, delta by delta, in
/// order.
pub open spec fn apply_deltas(v: ClientView, ds: Seq<ServerV>) -> ClientView
    decreases ds.len(),
{
    if ds.len() == 0 {
        v
    } else {
        apply_deltas(apply_delta(v, ds[0]), ds.skip(1))
    }
}

/// A registry-side map of published servers, as a client sees it on the
/// wire: ids widened to the wire's 64 bits, addresses by their octets.
pub open spec fn wire_view(m: Map<usize, Published>) -> ClientView {
    Map::new(
        |k: u64| k <= usize::MAX && m.contains_key(k as usize),
        |k: u64| ((m[k as usize].0@, m[k as usize].1)),
    )
}

/// Whether some id in `s` reads as `k` on the wire.
pub open spec fn seq_has64(s: Seq<usize>, k: u64) -> bool {
    exists|j: int| 0 <= j < s.len() && #[trigger] s[j] as u64 == k
}

/// The wire round trip of a drained delta, end to end: the message a drain
/// produces for client `c` encodes to bytes that decode back to exactly
/// its deltas, and replaying those deltas on the client's accumulated
/// picture reproduces the advertised state.
pub proof fn lemma_wire_roundtrip_converges(reg: Registry, c: usize, m: &Message)
    requires
        reg.wf(),
        reg.clients_map().contains_key(c),
        m@ == shutdown_deltas(lost_ids(reg.clients_map()[c])) + update_deltas(
            dirty_ids(reg.clients_map()[c]),
            reg.advertised(),
        ),
    ensures
        dec_message(enc_message(m@)) == Some(m@),
        apply_deltas(wire_view(reg.client_views()[c]), m@) == wire_view(reg.advertised()),
{
    lemma_message_encodable(m);
    lemma_message_roundtrip(m@);
    lemma_delta_convergence(reg, c);
}

proof fn lemma_apply_concat(v: ClientView, a: Seq<ServerV>, b: Seq<ServerV>)
    ensures
        apply_deltas(v, a + b) == apply_deltas(apply_deltas(v, a), b),
    decreases a.len(),
{
    if a.len() == 0 {
        assert(a + b =~= b);
    } else {
        assert((a + b)[0] == a[0]);
        assert((a + b).skip(1) =~= a.skip(1) + b);
        lemma_apply_concat(apply_delta(v, a[0]), a.skip(1), b);
    }
}

proof fn lemma_apply_shutdowns(v: ClientView, lost: Seq<usize>)
    ensures
        forall|k: u64| #[trigger] apply_deltas(v, shutdown_deltas(lost)).contains_key(k) <==> (
        v.contains_key(k) && !seq_has64(lost, k)),
        forall|k: u64| #[trigger] apply_deltas(v, shutdown_deltas(lost)).contains_key(k)
            ==> apply_deltas(v, shutdown_deltas(lost))[k] == v[k],
    decreases lost.len(),
{
    let ds = shutdown_deltas(lost);
    if lost.len() == 0 {
        assert(ds.len() == 0);
        assert forall|k: u64| !seq_has64(lost, k) by {}
    } else {
        assert(ds[0] == (ServerV { id: lost[0] as u64, event: EventV::Shutdown }));
        let v2 = v.remove(lost[0] as u64);
        assert(apply_delta(v, ds[0]) == v2);
        assert(ds.skip(1) =~= shutdown_deltas(lost.skip(1)));
        lemma_apply_shutdowns(v2, lost.skip(1));
        assert(apply_deltas(v, ds) == apply_deltas(v2, shutdown_deltas(lost.skip(1))));
        assert forall|k: u64| #[trigger] seq_has64(lost, k) <==> (k == lost[0] as u64
            || seq_has64(lost.skip(1), k)) by {
            if seq_has64(lost, k) {
                let j = choose|j: int| 0 <= j < lost.len() && #[trigger] lost[j] as u64 == k;
                if j > 0 {
                    assert(lost.skip(1)[j - 1] as u64 == k);
                }
            }
            if seq_has64(lost.skip(1), k) {
                let j = choose|j: int|
                    0 <= j < lost.skip(1).len() && #[trigger] lost.skip(1)[j] as u64 == k;
                assert(lost[j + 1] as u64 == k);
            }
        }
    }
}

proof fn lemma_apply_updates(v: ClientView, dirty: Seq<usize>, adv: Map<usize, Published>)
    requires
        forall|x: usize| #[trigger] dirty.contains(x) ==> adv.contains_key(x),
    ensures
        forall|k: u64| #[trigger] apply_deltas(v, update_deltas(dirty, adv)).contains_key(k)
            <==> (v.contains_key(k) || seq_has64(dirty, k)),
        forall|k: u64| #[trigger] apply_deltas(v, update_deltas(dirty, adv)).contains_key(k)
            ==> apply_deltas(v, update_deltas(dirty, adv))[k] == (if seq_has64(dirty, k) {
            ((adv[k as usize].0@, adv[k as usize].1))
        } else {
            v[k]
        }),
    decreases dirty.len(),
{
    let ds = update_deltas(dirty, adv);
    if dirty.len() == 0 {
        assert(ds.len() == 0);
        assert forall|k: u64| !seq_has64(dirty, k) by {}
    } else {
        let d0 = dirty[0];
        assert(dirty.contains(d0));
        assert(ds[0] == (ServerV {
            id: d0 as u64,
            event: EventV::Update(adv[d0].0@, adv[d0].1),
        }));
        let v2 = v.insert(d0 as u64, (adv[d0].0@, adv[d0].1));
        assert(apply_delta(v, ds[0]) == v2);
        assert(ds.skip(1) =~= update_deltas(dirty.skip(1), adv));
        assert forall|x: usize| #[trigger] dirty.skip(1).contains(x) implies adv.contains_key(
            x,
        ) by {
            let j = choose|j: int|
                0 <= j < dirty.skip(1).len() && #[trigger] dirty.skip(1)[j] == x;
            assert(dirty[j + 1] == x);
            assert(dirty.contains(x));
        }
        lemma_apply_updates(v2, dirty.skip(1), adv);
        assert(apply_deltas(v, ds) == apply_deltas(v2, update_deltas(dirty.skip(1), adv)));
        assert forall|k: u64| #[trigger] seq_has64(dirty, k) <==> (k == d0 as u64 || seq_has64(
            dirty.skip(1),
            k,
        )) by {
            if seq_has64(dirty, k) {
                let j = choose|j: int| 0 <= j < dirty.len() && #[trigger] dirty[j] as u64 == k;
                if j > 0 {
                    assert(dirty.skip(1)[j - 1] as u64 == k);
                }
            }
            if seq_has64(dirty.skip(1), k) {
                let j = choose|j: int|
                    0 <= j < dirty.skip(1).len() && #[trigger] dirty.skip(1)[j] as u64 == k;
                assert(dirty[j + 1] as u64 == k);
            }
        }
        assert forall|k: u64| #[trigger] apply_deltas(v, ds).contains_key(k) implies apply_deltas(
            v,
            ds,
        )[k] == (if seq_has64(dirty, k) {
            ((adv[k as usize].0@, adv[k as usize].1))
        } else {
            v[k]
        }) by {
            if !seq_has64(dirty.skip(1), k) && k == d0 as u64 {
                assert(k as usize == d0);
                assert(apply_deltas(v, ds)[k] == v2[k]);
            }
        }
    }
}

/// Delta convergence: replaying one drained delta message — the Shutdowns
/// for the client's lost ids followed by the Updates for its dirty ids —
/// on top of what the client has already been told yields exactly the
/// registry's advertised state: an Update for every live advertised server
/// it lacks, a Shutdown for every server lost since its last transmission,
/// and nothing else.
pub proof fn lemma_delta_convergence(reg: Registry, c: usize)
    requires
        reg.wf(),
        reg.clients_map().contains_key(c),
    ensures
        apply_deltas(
            wire_view(reg.client_views()[c]),
            shutdown_deltas(lost_ids(reg.clients_map()[c])) + update_deltas(
                dirty_ids(reg.clients_map()[c]),
                reg.advertised(),
            ),
        ) == wire_view(reg.advertised()),
{
    assert(reg.client_wf(c));
    let cl = reg.clients_map()[c];
    let view = reg.client_views()[c];
    let adv = reg.advertised();
    let lost = lost_ids(cl);
    let dirty = dirty_ids(cl);
    let wv = wire_view(view);
    let r1 = apply_deltas(wv, shutdown_deltas(lost));
    let r2 = apply_deltas(r1, update_deltas(dirty, adv));
    lemma_apply_concat(wv, shutdown_deltas(lost), update_deltas(dirty, adv));
    lemma_apply_shutdowns(wv, lost);
    lemma_apply_updates(r1, dirty, adv);
    assert forall|x: usize| #[trigger] lost.contains(x) implies !adv.contains_key(x) by {
        assert(reg.servers_map()[x] is Dead);
    }
    let p = pending_applied(view, cl, adv);
    assert(p == adv);
    let dm = Map::new(|x: usize| dirty.contains(x), |x: usize| adv[x]);
    let left = view.remove_keys(lost.to_set());
    assert(r2 =~= wire_view(adv)) by {
        assert forall|k: u64| #[trigger] r2.contains_key(k) <==> wire_view(adv).contains_key(
            k,
        ) by {
            if k <= usize::MAX {
                let u = k as usize;
                assert(u as u64 == k);
                assert(seq_has64(lost, k) <==> lost.contains(u)) by {
                    if seq_has64(lost, k) {
                        let j = choose|j: int| 0 <= j < lost.len() && #[trigger] lost[j] as u64
                            == k;
                        assert(lost[j] == u);
                    }
                    if lost.contains(u) {
                        let j = choose|j: int| 0 <= j < lost.len() && #[trigger] lost[j] == u;
                        assert(lost[j] as u64 == k);
                    }
                }
                assert(seq_has64(dirty, k) <==> dirty.contains(u)) by {
                    if seq_has64(dirty, k) {
                        let j = choose|j: int|
                            0 <= j < dirty.len() && #[trigger] dirty[j] as u64 == k;
                        assert(dirty[j] == u);
                    }
                    if dirty.contains(u) {
                        let j = choose|j: int| 0 <= j < dirty.len() && #[trigger] dirty[j] == u;
                        assert(dirty[j] as u64 == k);
                    }
                }
                assert(r2.contains_key(k) <==> ((view.contains_key(u) && !lost.contains(u))
                    || dirty.contains(u)));
                assert(adv.contains_key(u) <==> (left.contains_key(u) || dm.contains_key(u)));
                assert(left.contains_key(u) <==> (view.contains_key(u) && !lost.contains(u)));
            } else {
                assert(!wv.contains_key(k));
                assert(!seq_has64(dirty, k)) by {
                    if seq_has64(dirty, k) {
                        let j = choose|j: int|
                            0 <= j < dirty.len() && #[trigger] dirty[j] as u64 == k;
                    }
                }
                assert(!r2.contains_key(k));
                assert(!wire_view(adv).contains_key(k));
            }
        }
        assert forall|k: u64| #[trigger] r2.contains_key(k) implies r2[k] == wire_view(adv)[k]
            by {
            let u = k as usize;
            assert(k <= usize::MAX) by {
                if k > usize::MAX {
                    assert(!wire_view(adv).contains_key(k));
                }
            }
            assert(u as u64 == k);
            assert(seq_has64(dirty, k) <==> dirty.contains(u)) by {
                if seq_has64(dirty, k) {
                    let j = choose|j: int| 0 <= j < dirty.len() && #[trigger] dirty[j] as u64
                        == k;
                    assert(dirty[j] == u);
                }
                if dirty.contains(u) {
                    let j = choose|j: int| 0 <= j < dirty.len() && #[trigger] dirty[j] == u;
                    assert(dirty[j] as u64 == k);
                }
            }
            if dirty.contains(u) {
                assert(r2[k] == ((adv[u].0@, adv[u].1)));
                assert(wire_view(adv)[k] == ((adv[u].0@, adv[u].1)));
            } else {
                assert(r2[k] == r1[k]);
                assert(r1[k] == wv[k]);
                assert(wv.contains_key(k));
                assert(view.contains_key(u));
                assert(seq_has64(lost, k) <==> lost.contains(u)) by {
                    if seq_has64(lost, k) {
                        let j = choose|j: int| 0 <= j < lost.len() && #[trigger] lost[j] as u64
                            == k;
                        assert(lost[j] == u);
                    }
                    if lost.contains(u) {
                        let j = choose|j: int| 0 <= j < lost.len() && #[trigger] lost[j] == u;
                        assert(lost[j] as u64 == k);
                    }
                }
                assert(!lost.contains(u));
                assert(left.contains_key(u) && left[u] == view[u]);
                assert(!dm.contains_key(u));
                assert(p[u] == left[u]);
                assert(adv[u] == view[u]);
                assert(wv[k] == ((view[u].0@, view[u].1)));
                assert(wire_view(adv)[k] == ((adv[u].0@, adv[u].1)));
            }
        }
    }
}

} // verus!
