//! Reconciling the fleet twice with the same list of descriptors changes
//! nothing the second time.

use vstd::prelude::*;
use crate::connection::fresh_connection;
use crate::connection::ConnectionView;
use crate::connection::TransitionView;
use crate::fleet::can_bind;
use crate::fleet::fleet_wf;
use crate::fleet::holds;
use crate::fleet::index_of;
use crate::fleet::lemma_at;
use crate::fleet::lemma_fleet_link;
use crate::fleet::lemma_fleet_push;
use crate::fleet::lemma_fleet_transition;
use crate::fleet::lemma_fleet_without;
use crate::fleet::released;
use crate::fleet::unique;
use crate::fleet::with_link;
use crate::monitor::claimed;
use crate::monitor::follows;
use crate::monitor::has_connection;
use crate::monitor::leader_at;
use crate::monitor::leader_of;
use crate::monitor::leads;
use crate::monitor::lemma_same_members;
use crate::monitor::pairs_of;
use crate::monitor::pairs_upto;
use crate::monitor::same_members;
use crate::monitor::unwanted;
use crate::monitor::unwanted_upto;
use crate::monitor::wanted;
use crate::monitor::MonitorView;
use crate::node::NodeView;
use crate::registry::lemma_unregistered;
use crate::registry::unregistered;
use crate::registry::Entry;

verus! {

/// A connection that defers to nobody and knows nothing of its node.
pub open spec fn cleared(c: ConnectionView) -> ConnectionView {
    ConnectionView { delegate: None, caps: None, ..c }
}

/// Whether a connection is named first in one of the pairs.
pub open spec fn listed(pairs: Seq<(u64, u64)>, uid: u64) -> bool {
    exists|x: int| 0 <= x < pairs.len() && (#[trigger] pairs[x]).0 == uid
}

/// Two states differ in nothing but the state of their connections.
pub open spec fn same_frame(v: MonitorView, w: MonitorView) -> bool {
    &&& w.verbose == v.verbose
    &&& w.service == v.service
    &&& w.buckets == v.buckets
    &&& same_members(v.conns, w.conns)
}

/// What setting the link of a connection changes.
pub proof fn lemma_rebound_frame(v: MonitorView, uid: u64, target: Option<u64>)
    requires
        fleet_wf(v.conns),
    ensures
        same_frame(v, v.rebound(uid, target)),
        fleet_wf(v.rebound(uid, target).conns),
        forall|k: int|
            0 <= k < v.conns.len() && (#[trigger] v.conns[k]).uid() != uid ==> v.rebound(
                uid,
                target,
            ).conns[k] == v.conns[k],
        forall|k: int|
            0 <= k < v.conns.len() && (#[trigger] v.conns[k]).uid() == uid ==> v.rebound(
                uid,
                target,
            ).conns[k] == (if can_bind(v.conns, uid, target) {
                ConnectionView { delegate: target, caps: None, ..v.conns[k] }
            } else {
                v.conns[k]
            }),
        v.rebound(uid, target).delegates == (if can_bind(v.conns, uid, target) {
            unregistered(v.delegates, uid)
        } else {
            v.delegates
        }),
{
    let w = v.rebound(uid, target);
    if can_bind(v.conns, uid, target) {
        let a = with_link(v.conns, uid, target);
        lemma_fleet_link(v.conns, uid, target);
        lemma_fleet_transition(a, uid, TransitionView::ClearCaps);
        let i = index_of(v.conns, uid);
        lemma_at(v.conns, i);
        assert forall|k: int| 0 <= k < v.conns.len() implies (#[trigger] v.conns[k]).node
            == w.conns[k].node && v.conns[k].params == w.conns[k].params by {}
        assert forall|k: int| 0 <= k < v.conns.len() && (#[trigger] v.conns[k]).uid()
            == uid implies w.conns[k] == (ConnectionView {
            delegate: target,
            caps: None,
            ..v.conns[k]
        }) by {
            lemma_at(v.conns, k);
        }
        assert forall|k: int| 0 <= k < v.conns.len() && (#[trigger] v.conns[k]).uid()
            != uid implies w.conns[k] == v.conns[k] by {
            lemma_at(v.conns, k);
        }
    } else {
        assert forall|k: int| 0 <= k < v.conns.len() implies (#[trigger] v.conns[k]).node
            == w.conns[k].node && v.conns[k].params == w.conns[k].params by {}
    }
}

/// Two fleets with the same members name the same connections as those
/// that are to defer to a connection of another transport.
pub proof fn lemma_pairs_same(a: Seq<ConnectionView>, b: Seq<ConnectionView>, n: int)
    requires
        same_members(a, b),
        0 <= n <= a.len(),
    ensures
        pairs_upto(a, n) == pairs_upto(b, n),
    decreases n,
{
    if n > 0 {
        lemma_pairs_same(a, b, n - 1);
        let i = n - 1;
        assert forall|j: int| 0 <= j < a.len() implies leads(a, i, j) == leads(b, i, j) by {
            assert(a[j].node == b[j].node);
            assert(a[i].node == b[i].node);
        }
        assert forall|j: int| leader_at(a, i, j) == leader_at(b, i, j) by {
            if leader_at(a, i, j) {
                assert forall|k: int| 0 <= k < j implies !#[trigger] leads(b, i, k) by {
                    assert(!leads(a, i, k));
                }
            }
            if leader_at(b, i, j) {
                assert forall|k: int| 0 <= k < j implies !#[trigger] leads(a, i, k) by {
                    assert(!leads(b, i, k));
                }
            }
        }
        assert(a[i].node == b[i].node);
        if follows(a, i) {
            let x = choose|j: int| leader_at(a, i, j);
            assert(leader_at(b, i, x));
            let y = leader_of(b, i);
            let z = leader_of(a, i);
            assert(leader_at(b, i, y));
            assert(leader_at(a, i, y));
            if y < z {
                assert(!leads(a, i, y));
            }
            if z < y {
                assert(!leads(a, i, z));
            }
            assert(a[z].node == b[z].node);
        } else {
            if follows(b, i) {
                let x = choose|j: int| leader_at(b, i, j);
                assert(leader_at(a, i, x));
            }
        }
    }
}

/// The connections named first in the pairs of a fleet are part of it.
pub proof fn lemma_pairs_held(conns: Seq<ConnectionView>, n: int)
    requires
        0 <= n <= conns.len(),
    ensures
        forall|x: int|
            0 <= x < pairs_upto(conns, n).len() ==> holds(
                conns,
                (#[trigger] pairs_upto(conns, n)[x]).0,
            ),
    decreases n,
{
    if n > 0 {
        lemma_pairs_held(conns, n - 1);
        let p = pairs_upto(conns, n);
        let q = pairs_upto(conns, n - 1);
        assert forall|x: int| 0 <= x < p.len() implies holds(conns, (#[trigger] p[x]).0) by {
            if x < q.len() {
                assert(p[x] == q[x]);
            } else {
                assert(conns[n - 1].uid() == p[x].0);
            }
        }
    }
}

/// The registry without the entries of every connection named first in the
/// pairs.
pub open spec fn dropped(reg: Seq<Entry>, pairs: Seq<(u64, u64)>) -> Seq<Entry>
    decreases pairs.len(),
{
    if pairs.len() == 0 {
        reg
    } else {
        unregistered(dropped(reg, pairs.drop_last()), pairs.last().0)
    }
}

/// What a registry holds once the entries of the listed connections are
/// dropped: no entry of a listed connection.
pub proof fn lemma_dropped(reg: Seq<Entry>, pairs: Seq<(u64, u64)>)
    ensures
        forall|i: int|
            0 <= i < dropped(reg, pairs).len() ==> !listed(pairs, (#[trigger] dropped(reg, pairs)[i]).1),
        (forall|i: int| 0 <= i < reg.len() ==> !listed(pairs, (#[trigger] reg[i]).1)) ==> dropped(
            reg,
            pairs,
        ) == reg,
    decreases pairs.len(),
{
    if pairs.len() > 0 {
        let head = pairs.drop_last();
        let uid = pairs.last().0;
        lemma_dropped(reg, head);
        let d = dropped(reg, head);
        lemma_unregistered(d, uid);
        let r = dropped(reg, pairs);
        assert(r == unregistered(d, uid));
        assert forall|i: int| 0 <= i < r.len() implies !listed(pairs, (#[trigger] r[i]).1) by {
            let e = r[i];
            assert(r.contains(e));
            crate::registry::lemma_unregistered_entry(d, uid, e);
            assert(d.contains(e) && e.1 != uid);
            let i0 = choose|i0: int| 0 <= i0 < d.len() && d[i0] == e;
            assert(!listed(head, d[i0].1));
            if listed(pairs, e.1) {
                let x = choose|x: int| 0 <= x < pairs.len() && (#[trigger] pairs[x]).0 == e.1;
                if x < head.len() {
                    assert(head[x].0 == e.1);
                }
            }
        }
        if forall|i: int| 0 <= i < reg.len() ==> !listed(pairs, (#[trigger] reg[i]).1) {
            assert forall|i: int| 0 <= i < reg.len() implies !listed(head, (#[trigger] reg[i]).1) by {
                if listed(head, reg[i].1) {
                    let x = choose|x: int| 0 <= x < head.len() && (#[trigger] head[x]).0 == reg[i].1;
                    assert(pairs[x].0 == reg[i].1);
                }
            }
            assert(d == reg);
            assert forall|i: int| 0 <= i < d.len() implies (#[trigger] d[i]).1 != uid by {
                if d[i].1 == uid {
                    assert(pairs[pairs.len() - 1].0 == uid);
                    assert(listed(pairs, reg[i].1));
                }
            }
        }
    }
}

/// What releasing the listed connections leaves: each of them defers to
/// nobody and knows nothing of its node, none of them is registered, and
/// nothing else has changed.
pub proof fn lemma_released_all(v: MonitorView, pairs: Seq<(u64, u64)>)
    requires
        fleet_wf(v.conns),
        forall|x: int| 0 <= x < pairs.len() ==> holds(v.conns, (#[trigger] pairs[x]).0),
    ensures
        same_frame(v, v.released_all(pairs)),
        fleet_wf(v.released_all(pairs).conns),
        v.released_all(pairs).delegates == dropped(v.delegates, pairs),
        forall|k: int|
            0 <= k < v.conns.len() ==> (#[trigger] v.released_all(pairs).conns[k]) == (if listed(
                pairs,
                v.conns[k].uid(),
            ) {
                cleared(v.conns[k])
            } else {
                v.conns[k]
            }),
    decreases pairs.len(),
{
    if pairs.len() == 0 {
        assert forall|k: int| 0 <= k < v.conns.len() implies (#[trigger] v.conns[k]).node
            == v.conns[k].node && v.conns[k].params == v.conns[k].params by {}
    } else {
        let head = pairs.drop_last();
        let uid = pairs.last().0;
        assert forall|x: int| 0 <= x < head.len() implies holds(v.conns, (#[trigger] head[x]).0) by {
            assert(head[x] == pairs[x]);
        }
        lemma_released_all(v, head);
        let m = v.released_all(head);
        let w = v.released_all(pairs);
        lemma_rebound_frame(m, uid, None);
        lemma_same_members(v.conns, m.conns);
        assert(holds(v.conns, pairs[pairs.len() - 1].0));
        assert(can_bind(m.conns, uid, None));
        assert forall|k: int| 0 <= k < v.conns.len() implies (#[trigger] v.conns[k]).node
            == w.conns[k].node && v.conns[k].params == w.conns[k].params by {
            assert(v.conns[k].node == m.conns[k].node);
            assert(m.conns[k].node == w.conns[k].node);
        }
        assert forall|k: int| 0 <= k < v.conns.len() implies (#[trigger] w.conns[k]) == (if listed(
            pairs,
            v.conns[k].uid(),
        ) {
            cleared(v.conns[k])
        } else {
            v.conns[k]
        }) by {
            let u = v.conns[k].uid();
            assert(m.conns[k].node == v.conns[k].node);
            assert(m.conns[k].uid() == u);
            if u == uid {
                assert(pairs[pairs.len() - 1].0 == u);
                assert(listed(pairs, u));
            } else {
                assert(w.conns[k] == m.conns[k]);
                if listed(head, u) {
                    let x = choose|x: int| 0 <= x < head.len() && (#[trigger] head[x]).0 == u;
                    assert(pairs[x].0 == u);
                }
                if listed(pairs, u) {
                    let x = choose|x: int| 0 <= x < pairs.len() && (#[trigger] pairs[x]).0 == u;
                    assert(head[x].0 == u);
                }
            }
        }
    }
}

/// What binding the listed connections changes: nothing but the links of
/// the listed connections and what these know of their node; and where no
/// listed connection was registered, the registry stays as it is.
pub proof fn lemma_bound_all(v: MonitorView, pairs: Seq<(u64, u64)>)
    requires
        fleet_wf(v.conns),
        forall|i: int| 0 <= i < v.delegates.len() ==> !listed(pairs, (#[trigger] v.delegates[i]).1),
    ensures
        same_frame(v, v.bound_all(pairs)),
        fleet_wf(v.bound_all(pairs).conns),
        v.bound_all(pairs).delegates == v.delegates,
        forall|k: int|
            0 <= k < v.conns.len() ==> cleared(#[trigger] v.bound_all(pairs).conns[k]) == cleared(
                v.conns[k],
            ),
        forall|k: int|
            0 <= k < v.conns.len() && !listed(pairs, (#[trigger] v.conns[k]).uid()) ==> v.bound_all(
                pairs,
            ).conns[k] == v.conns[k],
    decreases pairs.len(),
{
    if pairs.len() == 0 {
        assert forall|k: int| 0 <= k < v.conns.len() implies (#[trigger] v.conns[k]).node
            == v.conns[k].node && v.conns[k].params == v.conns[k].params by {}
    } else {
        let head = pairs.drop_last();
        let uid = pairs.last().0;
        let target = Some(pairs.last().1);
        assert forall|i: int| 0 <= i < v.delegates.len() implies !listed(
            head,
            (#[trigger] v.delegates[i]).1,
        ) by {
            if listed(head, v.delegates[i].1) {
                let x = choose|x: int| 0 <= x < head.len() && (#[trigger] head[x]).0 == v.delegates[i].1;
                assert(pairs[x].0 == v.delegates[i].1);
            }
        }
        lemma_bound_all(v, head);
        let m = v.bound_all(head);
        let w = v.bound_all(pairs);
        lemma_rebound_frame(m, uid, target);
        assert(w.delegates == v.delegates) by {
            lemma_unregistered(m.delegates, uid);
            assert forall|i: int| 0 <= i < m.delegates.len() implies (#[trigger] m.delegates[i]).1
                != uid by {
                if m.delegates[i].1 == uid {
                    assert(pairs[pairs.len() - 1].0 == uid);
                    assert(listed(pairs, v.delegates[i].1));
                }
            }
        }
        assert forall|k: int| 0 <= k < v.conns.len() implies (#[trigger] v.conns[k]).node
            == w.conns[k].node && v.conns[k].params == w.conns[k].params by {
            assert(v.conns[k].node == m.conns[k].node);
            assert(m.conns[k].node == w.conns[k].node);
        }
        assert forall|k: int| 0 <= k < v.conns.len() implies cleared(#[trigger] w.conns[k])
            == cleared(v.conns[k]) by {
            assert(cleared(m.conns[k]) == cleared(v.conns[k]));
            assert(m.conns[k].node == v.conns[k].node);
        }
        assert forall|k: int|
            0 <= k < v.conns.len() && !listed(pairs, (#[trigger] v.conns[k]).uid()) implies w.conns[k]
            == v.conns[k] by {
            let u = v.conns[k].uid();
            assert(m.conns[k].node == v.conns[k].node);
            if listed(head, u) {
                let x = choose|x: int| 0 <= x < head.len() && (#[trigger] head[x]).0 == u;
                assert(pairs[x].0 == u);
            }
            if u == uid {
                assert(pairs[pairs.len() - 1].0 == u);
            }
        }
    }
}

/// Binding the connections of a fleet across transports a second time
/// changes nothing.
pub proof fn lemma_cross_bound_twice(v: MonitorView)
    requires
        fleet_wf(v.conns),
    ensures
        fleet_wf(v.cross_bound().conns),
        same_frame(v, v.cross_bound()),
        v.cross_bound().cross_bound() == v.cross_bound(),
{
    let pairs = pairs_of(v.conns);
    lemma_pairs_held(v.conns, v.conns.len() as int);
    lemma_released_all(v, pairs);
    let r = v.released_all(pairs);
    lemma_dropped(v.delegates, pairs);
    lemma_bound_all(r, pairs);
    let u = r.bound_all(pairs);
    assert(u == v.cross_bound());
    assert(same_members(v.conns, u.conns)) by {
        assert forall|k: int| 0 <= k < v.conns.len() implies (#[trigger] v.conns[k]).node
            == u.conns[k].node && v.conns[k].params == u.conns[k].params by {
            assert(v.conns[k].node == r.conns[k].node);
            assert(r.conns[k].node == u.conns[k].node);
        }
    }
    lemma_pairs_same(v.conns, u.conns, v.conns.len() as int);
    assert(pairs_of(u.conns) == pairs);
    lemma_same_members(v.conns, u.conns);
    assert forall|x: int| 0 <= x < pairs.len() implies holds(u.conns, (#[trigger] pairs[x]).0) by {
        assert(holds(v.conns, pairs[x].0));
    }
    lemma_released_all(u, pairs);
    let r2 = u.released_all(pairs);
    lemma_dropped(u.delegates, pairs);
    assert(r2.conns =~= r.conns) by {
        assert forall|k: int| 0 <= k < r.conns.len() implies r2.conns[k] == r.conns[k] by {
            assert(u.conns[k].node == v.conns[k].node);
            assert(r.conns[k].node == v.conns[k].node);
            assert(cleared(u.conns[k]) == cleared(r.conns[k]));
            if !listed(pairs, v.conns[k].uid()) {
                assert(u.conns[k] == r.conns[k]);
            }
        }
    }
    assert(r2 == r);
}

/// What taking the listed connections out leaves: connections that were
/// there before, are not listed, and are still the connections of the same
/// nodes.
pub proof fn lemma_removed_all(v: MonitorView, uids: Seq<u64>)
    requires
        fleet_wf(v.conns),
    ensures
        fleet_wf(v.removed_all(uids).conns),
        v.removed_all(uids).service == v.service,
        v.removed_all(uids).verbose == v.verbose,
        forall|k: int|
            0 <= k < v.removed_all(uids).conns.len() ==> {
                let c = #[trigger] v.removed_all(uids).conns[k];
                &&& holds(v.conns, c.uid())
                &&& !uids.contains(c.uid())
                &&& c.node == v.conn(c.uid()).node
                &&& c.params == v.conn(c.uid()).params
                &&& (match v.conn(c.uid()).delegate {
                    Some(d) => uids.contains(d),
                    None => false,
                } || c == v.conn(c.uid()))
            },
        forall|u: u64|
            holds(v.conns, u) && !uids.contains(u) ==> holds(v.removed_all(uids).conns, u),
    decreases uids.len(),
{
    if uids.len() > 0 {
        let head = uids.drop_last();
        let u = uids.last();
        lemma_removed_all(v, head);
        let m = v.removed_all(head);
        let w = v.removed_all(uids);
        lemma_fleet_without(m.conns, u);
        assert forall|u: u64| holds(v.conns, u) && !uids.contains(u) implies holds(w.conns, u) by {
            if head.contains(u) {
                let i = choose|i: int| 0 <= i < head.len() && head[i] == u;
                assert(uids[i] == u);
            }
            assert(holds(m.conns, u));
            assert(uids[uids.len() - 1] == uids.last());
        }
        assert forall|k: int| 0 <= k < w.conns.len() implies {
            let c = #[trigger] w.conns[k];
            &&& holds(v.conns, c.uid())
            &&& !uids.contains(c.uid())
            &&& c.node == v.conn(c.uid()).node
            &&& c.params == v.conn(c.uid()).params
            &&& (match v.conn(c.uid()).delegate {
                Some(d) => uids.contains(d),
                None => false,
            } || c == v.conn(c.uid()))
        } by {
            let c = w.conns[k];
            let x = c.uid();
            lemma_at(w.conns, k);
            if holds(m.conns, u) {
                assert(holds(m.conns, x) && x != u);
                let j = index_of(m.conns, x);
                assert(c == released(m.conns[j], u));
                assert(m.conns[j].uid() == x);
            } else {
                assert(w == m);
            }
            let j = index_of(m.conns, x);
            let d = m.conns[j];
            assert(holds(v.conns, d.uid()));
            assert(!head.contains(d.uid()));
            assert(uids[uids.len() - 1] == u);
            match v.conn(x).delegate {
                Some(t) => {
                    if head.contains(t) {
                        let i = choose|i: int| 0 <= i < head.len() && head[i] == t;
                        assert(uids[i] == t);
                    }
                },
                None => {},
            }
            if uids.contains(x) {
                let i = choose|i: int| 0 <= i < uids.len() && uids[i] == x;
                if i < head.len() {
                    assert(head[i] == x);
                } else {
                    // the connection taken out last is not there any more
                    assert(x == u);
                    assert(!holds(m.conns, u));
                }
            }
        }
    }
}

/// A connection that is not wanted is among the unwanted.
pub proof fn lemma_unwanted_has(conns: Seq<ConnectionView>, nodes: Seq<NodeView>, n: int, j: int)
    requires
        0 <= j < n <= conns.len(),
        !wanted(conns[j], nodes),
    ensures
        unwanted_upto(conns, nodes, n).contains(conns[j].uid()),
    decreases n,
{
    let list = unwanted_upto(conns, nodes, n);
    if j == n - 1 {
        assert(list[list.len() - 1] == conns[j].uid());
    } else {
        lemma_unwanted_has(conns, nodes, n - 1, j);
        let prev = unwanted_upto(conns, nodes, n - 1);
        let i = choose|i: int| 0 <= i < prev.len() && prev[i] == conns[j].uid();
        assert(list[i] == conns[j].uid());
    }
}

/// Where every connection is wanted, none is unwanted.
pub proof fn lemma_unwanted_none(conns: Seq<ConnectionView>, nodes: Seq<NodeView>, n: int)
    requires
        0 <= n <= conns.len(),
        forall|k: int| 0 <= k < n ==> wanted(#[trigger] conns[k], nodes),
    ensures
        unwanted_upto(conns, nodes, n) == Seq::<u64>::empty(),
    decreases n,
{
    if n > 0 {
        lemma_unwanted_none(conns, nodes, n - 1);
    }
}

/// A connection wanted by some descriptors is wanted by more.
pub proof fn lemma_wanted_more(c: ConnectionView, nodes: Seq<NodeView>)
    requires
        nodes.len() > 0,
        wanted(c, nodes.drop_last()),
    ensures
        wanted(c, nodes),
{
    let head = nodes.drop_last();
    let k = choose|k: int| 0 <= k < head.len() && (#[trigger] head[k]).uid == c.uid() && head[k].params == c.params;
    assert(nodes[k] == head[k]);
}

/// What letting connections join leaves: the connections that were there,
/// as they were, followed by new connections that the descriptors ask for;
/// and every descriptor that may have a connection has one.
pub proof fn lemma_enlisted_all(v: MonitorView, nodes: Seq<NodeView>)
    requires
        fleet_wf(v.conns),
    ensures
        fleet_wf(v.enlisted_all(nodes).conns),
        v.enlisted_all(nodes).service == v.service,
        v.enlisted_all(nodes).verbose == v.verbose,
        v.conns.len() <= v.enlisted_all(nodes).conns.len(),
        forall|k: int|
            0 <= k < v.conns.len() ==> (#[trigger] v.enlisted_all(nodes).conns[k]) == v.conns[k],
        forall|k: int|
            v.conns.len() <= k < v.enlisted_all(nodes).conns.len() ==> wanted(
                #[trigger] v.enlisted_all(nodes).conns[k],
                nodes,
            ),
        forall|x: int|
            0 <= x < nodes.len() && (#[trigger] nodes[x]).wf() && nodes[x].service == v.service
                && crate::params::strict_params().contains(nodes[x].params) ==> holds(
                v.enlisted_all(nodes).conns,
                nodes[x].uid,
            ),
    decreases nodes.len(),
{
    if nodes.len() > 0 {
        let head = nodes.drop_last();
        let node = nodes.last();
        lemma_enlisted_all(v, head);
        let m = v.enlisted_all(head);
        let w = v.enlisted_all(nodes);
        let c = fresh_connection(node, m.verbose);
        if m.accepts(node) {
            lemma_fleet_push(m.conns, c);
            assert(w.conns == m.conns.push(c));
        } else {
            assert(w == m);
        }
        assert forall|k: int| v.conns.len() <= k < w.conns.len() implies wanted(
            #[trigger] w.conns[k],
            nodes,
        ) by {
            if k < m.conns.len() {
                assert(w.conns[k] == m.conns[k]);
                lemma_wanted_more(m.conns[k], nodes);
            } else {
                assert(w.conns[k] == c);
                assert(nodes[nodes.len() - 1].uid == c.uid());
            }
        }
        assert forall|x: int|
            0 <= x < nodes.len() && (#[trigger] nodes[x]).wf() && nodes[x].service == v.service
                && crate::params::strict_params().contains(nodes[x].params) implies holds(
            w.conns,
            nodes[x].uid,
        ) by {
            if x < head.len() {
                assert(head[x] == nodes[x]);
                assert(holds(m.conns, nodes[x].uid));
                if m.accepts(node) {
                    let i = index_of(m.conns, nodes[x].uid);
                    assert(w.conns[i].uid() == nodes[x].uid);
                }
            } else {
                if m.accepts(node) {
                    assert(w.conns[m.conns.len() as int].uid() == node.uid);
                }
            }
        }
    }
}

/// Where none of the descriptors may get a connection, letting connections
/// join changes nothing.
pub proof fn lemma_enlisted_none(v: MonitorView, nodes: Seq<NodeView>)
    requires
        forall|x: int| 0 <= x < nodes.len() ==> !v.accepts(#[trigger] nodes[x]),
    ensures
        v.enlisted_all(nodes) == v,
    decreases nodes.len(),
{
    if nodes.len() > 0 {
        let head = nodes.drop_last();
        assert forall|x: int| 0 <= x < head.len() implies !v.accepts(#[trigger] head[x]) by {
            assert(head[x] == nodes[x]);
        }
        lemma_enlisted_none(v, head);
        assert(!v.accepts(nodes[nodes.len() - 1]));
    }
}

/// Reconciling the fleet with a list of descriptors, and then once more
/// with the same list, leaves the same connections, in the same state and
/// with the same links, as reconciling it once.
pub proof fn lemma_update_idempotent(v: MonitorView, list: Seq<NodeView>)
    requires
        v.wf(),
    ensures
        v.updated(list).updated(list) == v.updated(list),
{
    let mine = claimed(list, v.service);
    let gone = unwanted(v.conns, mine);
    let p = v.pruned(list);
    let e = p.enlisted_all(mine);
    let u = e.cross_bound();
    assert(u == v.updated(list));
    lemma_removed_all(v, gone);
    assert forall|k: int| 0 <= k < p.conns.len() implies wanted(#[trigger] p.conns[k], mine) by {
        let c = p.conns[k];
        let j = index_of(v.conns, c.uid());
        if !wanted(v.conns[j], mine) {
            lemma_unwanted_has(v.conns, mine, v.conns.len() as int, j);
        }
        let x = choose|x: int| 0 <= x < mine.len() && (#[trigger] mine[x]).uid == v.conns[j].uid() && mine[x].params == v.conns[j].params;
        assert(mine[x].uid == c.uid() && mine[x].params == c.params);
    }
    lemma_enlisted_all(p, mine);
    lemma_cross_bound_twice(e);
    lemma_same_members(e.conns, u.conns);
    assert forall|k: int| 0 <= k < u.conns.len() implies wanted(#[trigger] u.conns[k], mine) by {
        assert(e.conns[k].node == u.conns[k].node);
        let c = e.conns[k];
        if k < p.conns.len() {
            assert(e.conns[k] == p.conns[k]);
        }
        let x = choose|x: int| 0 <= x < mine.len() && (#[trigger] mine[x]).uid == c.uid() && mine[x].params == c.params;
        assert(mine[x].uid == u.conns[k].uid());
    }
    lemma_unwanted_none(u.conns, mine, u.conns.len() as int);
    assert(u.stopped_by(list) == Seq::<u64>::empty());
    assert(u.pruned(list) == u);
    assert forall|x: int| 0 <= x < mine.len() implies !u.accepts(#[trigger] mine[x]) by {
        if mine[x].wf() && mine[x].service == u.service && crate::params::strict_params().contains(
            mine[x].params,
        ) {
            assert(holds(e.conns, mine[x].uid));
        }
    }
    lemma_enlisted_none(u, mine);
}

/// Reconciling the fleet leaves untouched every connection that one of the
/// descriptors of the service asks for, unless the connection it deferred
/// to has gone, or it is itself one of those that are bound across
/// transports.
pub proof fn lemma_update_keeps(v: MonitorView, list: Seq<NodeView>, i: int)
    requires
        v.wf(),
        0 <= i < v.conns.len(),
        wanted(v.conns[i], claimed(list, v.service)),
        v.conns[i].delegate matches Some(d) ==> !v.stopped_by(list).contains(d),
        !follows(v.updated(list).conns, index_of(v.updated(list).conns, v.conns[i].uid())),
    ensures
        holds(v.updated(list).conns, v.conns[i].uid()),
        v.updated(list).conn(v.conns[i].uid()) == v.conns[i],
{
    let mine = claimed(list, v.service);
    let gone = unwanted(v.conns, mine);
    let p = v.pruned(list);
    let e = p.enlisted_all(mine);
    let u = e.cross_bound();
    let c = v.conns[i];
    let uid = c.uid();
    lemma_at(v.conns, i);
    lemma_removed_all(v, gone);
    lemma_unwanted_only(v.conns, mine, v.conns.len() as int, uid);
    assert(holds(p.conns, uid));
    let k = index_of(p.conns, uid);
    assert(p.conns[k].uid() == uid);
    assert(p.conns[k] == c);
    lemma_enlisted_all(p, mine);
    assert(e.conns[k] == c);
    lemma_at(e.conns, k);
    let pairs = pairs_of(e.conns);
    lemma_pairs_held(e.conns, e.conns.len() as int);
    lemma_released_all(e, pairs);
    let r = e.released_all(pairs);
    lemma_dropped(e.delegates, pairs);
    lemma_bound_all(r, pairs);
    assert(u == r.bound_all(pairs));
    lemma_same_members(e.conns, r.conns);
    lemma_same_members(r.conns, u.conns);
    assert(same_members(e.conns, u.conns)) by {
        assert forall|x: int| 0 <= x < e.conns.len() implies (#[trigger] e.conns[x]).node
            == u.conns[x].node && e.conns[x].params == u.conns[x].params by {
            assert(e.conns[x].node == r.conns[x].node);
            assert(r.conns[x].node == u.conns[x].node);
        }
    }
    lemma_pairs_same(e.conns, u.conns, e.conns.len() as int);
    assert(index_of(u.conns, uid) == k);
    if listed(pairs, uid) {
        lemma_listed_follows(u.conns, u.conns.len() as int, uid);
        lemma_at(u.conns, k);
    }
    assert(r.conns[k] == e.conns[k]);
    assert(r.conns[k].uid() == uid);
}

/// A connection that is wanted is not among the unwanted.
pub proof fn lemma_unwanted_only(conns: Seq<ConnectionView>, nodes: Seq<NodeView>, n: int, uid: u64)
    requires
        0 <= n <= conns.len(),
        unique(conns),
        forall|k: int| 0 <= k < n && (#[trigger] conns[k]).uid() == uid ==> wanted(conns[k], nodes),
    ensures
        !unwanted_upto(conns, nodes, n).contains(uid),
    decreases n,
{
    if n > 0 {
        lemma_unwanted_only(conns, nodes, n - 1, uid);
        let list = unwanted_upto(conns, nodes, n);
        let prev = unwanted_upto(conns, nodes, n - 1);
        if list.contains(uid) {
            let i = choose|i: int| 0 <= i < list.len() && list[i] == uid;
            if i < prev.len() {
                assert(prev[i] == uid);
            } else {
                assert(conns[n - 1].uid() == uid);
            }
        }
    }
}

/// The connections named first in the pairs of a fleet are those that are
/// to defer to a connection of another transport.
pub proof fn lemma_listed_follows(conns: Seq<ConnectionView>, n: int, uid: u64)
    requires
        0 <= n <= conns.len(),
        listed(pairs_upto(conns, n), uid),
    ensures
        exists|k: int| 0 <= k < n && (#[trigger] conns[k]).uid() == uid && follows(conns, k),
    decreases n,
{
    let pairs = pairs_upto(conns, n);
    let x = choose|x: int| 0 <= x < pairs.len() && (#[trigger] pairs[x]).0 == uid;
    if n > 0 {
        let prev = pairs_upto(conns, n - 1);
        if x < prev.len() {
            assert(prev[x] == pairs[x]);
            assert(prev[x].0 == uid);
            lemma_listed_follows(conns, n - 1, uid);
        } else {
            assert(conns[n - 1].uid() == uid);
        }
    }
}

/// A descriptor that gets a connection when the fleet is reconciled had
/// none before, and it is one of the descriptors of the list.
pub proof fn lemma_accepted_is_new(v: MonitorView, list: Seq<NodeView>, k: int)
    requires
        v.wf(),
        0 <= k < claimed(list, v.service).len(),
        v.pruned(list).enlisted_all(claimed(list, v.service).subrange(0, k)).accepts(
            claimed(list, v.service)[k],
        ),
    ensures
        !has_connection(v.conns, claimed(list, v.service)[k]),
        exists|j: int| 0 <= j < list.len() && list[j] == claimed(list, v.service)[k],
        claimed(list, v.service)[k].service == v.service,
{
    let mine = claimed(list, v.service);
    let node = mine[k];
    let gone = unwanted(v.conns, mine);
    let p = v.pruned(list);
    assert(mine.contains(node));
    crate::monitor::lemma_claimed_member(list, v.service, node);
    assert(list.contains(node));
    lemma_removed_all(v, gone);
    lemma_enlisted_all(p, mine.subrange(0, k));
    let e = p.enlisted_all(mine.subrange(0, k));
    if has_connection(v.conns, node) {
        let i = choose|i: int|
            0 <= i < v.conns.len() && (#[trigger] v.conns[i]).uid() == node.uid && v.conns[i].params
                == node.params;
        lemma_at(v.conns, i);
        assert forall|x: int|
            0 <= x < v.conns.len() && (#[trigger] v.conns[x]).uid() == node.uid implies wanted(
            v.conns[x],
            mine,
        ) by {
            assert(x == i);
            assert(mine[k].uid == v.conns[x].uid());
        }
        lemma_unwanted_only(v.conns, mine, v.conns.len() as int, node.uid);
        assert(holds(p.conns, node.uid));
        let y = index_of(p.conns, node.uid);
        assert(e.conns[y] == p.conns[y]);
        assert(e.conns[y].uid() == node.uid);
    }
}

} // verus!
