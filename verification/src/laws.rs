//! What holds of every consistent state of a monitor.

use vstd::prelude::*;
use crate::connection::ConnectionView;
use crate::fleet::available;
use crate::fleet::chain_of;
use crate::fleet::fleet_wf;
use crate::fleet::holds;
use crate::fleet::index_of;
use crate::fleet::lemma_at;
use crate::fleet::lemma_terminal;
use crate::fleet::resolved;
use crate::fleet::terminal_of;
use crate::election::lemma_pick_in_range;
use crate::election::weighted_pick;
use crate::monitor::authoritative;
use crate::monitor::eligible;
use crate::monitor::lemma_eligible_of;
use crate::params::PathParams;
use crate::monitor::belongs;
use crate::monitor::in_order;
use crate::monitor::key_of;
use crate::monitor::lemma_put_in_order;
use crate::monitor::MonitorView;

verus! {

/// Every connection is listed in the bucket of its own path and in the
/// bucket that aggregates both TLS kinds of that path, and in no other
/// bucket.
pub proof fn lemma_bucket_containment(v: MonitorView, i: int, b: int)
    requires
        v.wf(),
        0 <= i < v.conns.len(),
        0 <= b < v.buckets.len(),
    ensures
        v.buckets[b].list.contains(v.conns[i].uid()) <==> belongs(
            v.conns[i].params,
            v.buckets[b].params,
        ),
{
    let uid = v.conns[i].uid();
    let list = v.buckets[b].list;
    if list.contains(uid) {
        let k = choose|k: int| 0 <= k < list.len() && list[k] == uid;
        assert(holds(v.conns, v.buckets[b].list[k]));
        lemma_at(v.conns, i);
    }
}

/// Once the pending sorts are done, every bucket is in order by score and
/// no sort is pending, provided that the buckets for which no sort was
/// pending were in order before.
pub proof fn lemma_sorted_after_sort(v: MonitorView, w: MonitorView)
    requires
        v.wf(),
        v.sorted_into(w),
        forall|b: int|
            0 <= b < v.buckets.len() && !(#[trigger] v.buckets[b]).sort ==> in_order(
                v.conns,
                v.buckets[b].list,
            ),
    ensures
        forall|b: int|
            0 <= b < w.buckets.len() ==> in_order(w.conns, (#[trigger] w.buckets[b]).list)
                && !w.buckets[b].sort,
{
    assert forall|b: int| 0 <= b < w.buckets.len() implies in_order(
        w.conns,
        (#[trigger] w.buckets[b]).list,
    ) && !w.buckets[b].sort by {
        if v.buckets[b].sort {
            lemma_put_in_order(v.conns, v.buckets[b].list, w.buckets[b].list);
        }
    }
}

/// Following the links from any connection ends, within as many hops as the
/// service has connections, at a connection that defers to nobody.
pub proof fn lemma_delegate_chain_ends(v: MonitorView, i: int)
    requires
        v.wf(),
        0 <= i < v.conns.len(),
    ensures
        chain_of(v.conns, v.conns[i].uid()).len() <= v.conns.len(),
        holds(v.conns, terminal_of(v.conns, v.conns[i].uid())),
        resolved(v.conns, v.conns[i]).is_delegate(),
{
    lemma_at(v.conns, i);
    lemma_terminal(v.conns, v.conns[i].uid());
}

/// For every physical node on a network that the registry names, exactly
/// one connection speaks: the registered one defers to nobody and knows the
/// node, and it is the only connection that does.
pub proof fn lemma_one_delegate(v: MonitorView, e: int, k: int)
    requires
        v.wf(),
        0 <= e < v.delegates.len(),
        0 <= k < v.conns.len(),
    ensures
        holds(v.conns, v.delegates[e].1),
        authoritative(v.conn(v.delegates[e].1)),
        key_of(v.conn(v.delegates[e].1)) == v.delegates[e].0,
        authoritative(v.conns[k]) && key_of(v.conns[k]) == v.delegates[e].0 ==> v.conns[k].uid()
            == v.delegates[e].1,
{
    assert(holds(v.conns, v.delegates[e].1));
    if authoritative(v.conns[k]) && key_of(v.conns[k]) == v.delegates[e].0 {
        let entry = (key_of(v.conns[k]), v.conns[k].uid());
        assert(v.delegates.contains(entry));
        let x = choose|x: int| 0 <= x < v.delegates.len() && v.delegates[x] == entry;
        if x != e {
            assert(v.delegates[x].0 != v.delegates[e].0);
        }
    }
}

/// Whoever is elected defers to nobody and is available.
pub proof fn lemma_elected_sound(v: MonitorView, params: PathParams, draw: nat)
    requires
        v.wf(),
    ensures
        v.elected(params, draw) matches Some(c) ==> c.is_delegate() && available(v.conns, c),
{
    let cands = v.candidates(params);
    if cands.len() > 0 {
        lemma_pick_in_range(cands.len(), draw);
        lemma_eligible_of(v.conns, v.bucket(params));
        let u = cands[weighted_pick(cands.len(), draw) as int];
        assert(eligible(v.conns, u));
    }
}

/// A connection that is available is connected, and the connection it
/// ultimately defers to is online, serves fewer clients than its capacity
/// and fewer sockets than its descriptor limit.
pub proof fn lemma_available(conns: Seq<ConnectionView>, c: ConnectionView)
    requires
        fleet_wf(conns),
        c.wf(),
        available(conns, c),
    ensures
        c.is_connected,
        resolved(conns, c).is_online,
        resolved(conns, c).caps is Some,
        resolved(conns, c).clients < resolved(conns, c).caps.unwrap().capacity,
        resolved(conns, c).clients + resolved(conns, c).peers < resolved(
            conns,
            c,
        ).caps.unwrap().fd_limit,
{
    if holds(conns, c.uid()) {
        lemma_terminal(conns, c.uid());
        let t = index_of(conns, terminal_of(conns, c.uid()));
        assert(conns[t].wf());
    }
}

} // verus!
