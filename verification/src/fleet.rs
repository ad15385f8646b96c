//! The connections of one service and the links between them.

use vstd::prelude::*;
use crate::connection::Connection;
use crate::connection::ConnectionView;
use crate::connection::Transition;
use crate::graph::acyclic;
use crate::graph::lemma_acyclic_bind;
use crate::graph::lemma_acyclic_insert;
use crate::graph::lemma_acyclic_without;
use crate::graph::lemma_path_shape;
use crate::graph::lemma_walk_ends;
use crate::graph::path;
use crate::graph::step;
use crate::graph::walk;
use crate::graph::without;
use crate::graph::Links;

verus! {

/// Whether a connection of the given identity is among `conns`.
pub open spec fn holds(conns: Seq<ConnectionView>, uid: u64) -> bool {
    exists|i: int| 0 <= i < conns.len() && #[trigger] conns[i].uid() == uid
}

/// The position of the connection of the given identity.
pub open spec fn index_of(conns: Seq<ConnectionView>, uid: u64) -> int {
    choose|i: int| 0 <= i < conns.len() && #[trigger] conns[i].uid() == uid
}

/// No two connections share an identity.
pub open spec fn unique(conns: Seq<ConnectionView>) -> bool {
    forall|i: int, j: int|
        0 <= i < conns.len() && 0 <= j < conns.len() && i != j ==> #[trigger] conns[i].uid()
            != #[trigger] conns[j].uid()
}

/// The delegate graph of the connections.
pub open spec fn links_of(conns: Seq<ConnectionView>) -> Links {
    Map::new(|u: u64| holds(conns, u), |u: u64| conns[index_of(conns, u)].delegate)
}

/// The connections are consistent, distinct, and their links form no cycle
/// and lead to connections of the fleet.
pub open spec fn fleet_wf(conns: Seq<ConnectionView>) -> bool {
    &&& unique(conns)
    &&& forall|i: int| 0 <= i < conns.len() ==> (#[trigger] conns[i]).wf()
    &&& acyclic(links_of(conns))
}

/// The identities met when following the links from `uid`, `uid` first.
pub open spec fn chain_of(conns: Seq<ConnectionView>, uid: u64) -> Seq<u64> {
    path(links_of(conns), uid, conns.len())
}

/// The identity of the connection at which the links from `uid` end. The
/// walk is bounded by the number of connections.
pub open spec fn terminal_of(conns: Seq<ConnectionView>, uid: u64) -> u64 {
    walk(links_of(conns), uid, conns.len())
}

/// The connection that `c` ultimately defers to: the one at which the links
/// from `c` end, or `c` itself if it is not part of the fleet.
pub open spec fn resolved(conns: Seq<ConnectionView>, c: ConnectionView) -> ConnectionView {
    if holds(conns, c.uid()) {
        conns[index_of(conns, terminal_of(conns, c.uid()))]
    } else {
        c
    }
}

/// Whether `uid` may be made to defer to `target`: both are part of the
/// fleet and the links from `target` do not lead to `uid`.
pub open spec fn can_bind(conns: Seq<ConnectionView>, uid: u64, target: Option<u64>) -> bool {
    holds(conns, uid) && match target {
        Some(y) => holds(conns, y) && !chain_of(conns, y).contains(uid),
        None => true,
    }
}

/// The fleet in which `uid` defers to `target`, where that may be; else the
/// fleet as it is.
pub open spec fn with_link(conns: Seq<ConnectionView>, uid: u64, target: Option<u64>) -> Seq<
    ConnectionView,
> {
    if can_bind(conns, uid, target) {
        conns.update(index_of(conns, uid), conns[index_of(conns, uid)].bound_to(target))
    } else {
        conns
    }
}

/// A connection after the connection `uid` left the fleet: if it deferred to
/// `uid` it defers to nobody and has to learn about its node anew.
pub open spec fn released(c: ConnectionView, uid: u64) -> ConnectionView {
    if c.delegate == Some(uid) {
        ConnectionView { delegate: None, caps: None, ..c }
    } else {
        c
    }
}

/// The fleet without the connection `uid`.
pub open spec fn without_conn(conns: Seq<ConnectionView>, uid: u64) -> Seq<ConnectionView> {
    if holds(conns, uid) {
        conns.remove(index_of(conns, uid)).map_values(|c: ConnectionView| released(c, uid))
    } else {
        conns
    }
}

/// The fleet after a transition of the connection `uid`.
pub open spec fn with_transition(
    conns: Seq<ConnectionView>,
    uid: u64,
    t: crate::connection::TransitionView,
) -> Seq<ConnectionView> {
    if holds(conns, uid) {
        conns.update(index_of(conns, uid), conns[index_of(conns, uid)].after(t))
    } else {
        conns
    }
}

pub proof fn lemma_at(conns: Seq<ConnectionView>, i: int)
    requires
        unique(conns),
        0 <= i < conns.len(),
    ensures
        holds(conns, conns[i].uid()),
        index_of(conns, conns[i].uid()) == i,
        links_of(conns).contains_key(conns[i].uid()),
        links_of(conns)[conns[i].uid()] == conns[i].delegate,
{
    let u = conns[i].uid();
    assert(holds(conns, u));
    let j = index_of(conns, u);
    assert(0 <= j < conns.len() && conns[j].uid() == u);
}

pub proof fn lemma_index(conns: Seq<ConnectionView>, uid: u64)
    requires
        holds(conns, uid),
    ensures
        0 <= index_of(conns, uid) < conns.len(),
        conns[index_of(conns, uid)].uid() == uid,
{
}

/// The graph of a fleet has no more connections than the fleet.
pub proof fn lemma_dom(conns: Seq<ConnectionView>)
    ensures
        links_of(conns).dom().finite(),
        links_of(conns).dom().len() <= conns.len(),
{
    let uids = conns.map_values(|c: ConnectionView| c.uid());
    assert(links_of(conns).dom() =~= uids.to_set()) by {
        assert forall|u: u64| links_of(conns).dom().contains(u) == uids.to_set().contains(
            u,
        ) by {
            if holds(conns, u) {
                let i = index_of(conns, u);
                assert(uids[i] == u);
            }
            if uids.to_set().contains(u) {
                let i = choose|i: int| 0 <= i < uids.len() && uids[i] == u;
                assert(conns[i].uid() == u);
            }
        }
    }
    vstd::seq_lib::seq_to_set_is_finite(uids);
    uids.lemma_cardinality_of_set();
}

/// In a consistent fleet the links from every connection end, within as many
/// hops as there are connections, at a connection of the fleet that defers to
/// nobody.
pub proof fn lemma_terminal(conns: Seq<ConnectionView>, uid: u64)
    requires
        fleet_wf(conns),
        holds(conns, uid),
    ensures
        holds(conns, terminal_of(conns, uid)),
        conns[index_of(conns, terminal_of(conns, uid))].delegate is None,
        conns[index_of(conns, terminal_of(conns, uid))].uid() == terminal_of(conns, uid),
        chain_of(conns, uid).len() <= conns.len(),
        chain_of(conns, uid).no_duplicates(),
{
    lemma_dom(conns);
    lemma_walk_ends(links_of(conns), uid, conns.len());
    crate::graph::lemma_path_short(links_of(conns), uid, conns.len());
    lemma_index(conns, terminal_of(conns, uid));
}

/// Adding a connection that defers to nobody and whose identity is new keeps
/// a fleet consistent.
pub proof fn lemma_fleet_push(conns: Seq<ConnectionView>, c: ConnectionView)
    requires
        fleet_wf(conns),
        c.wf(),
        c.delegate is None,
        !holds(conns, c.uid()),
    ensures
        fleet_wf(conns.push(c)),
        forall|u: u64| holds(conns.push(c), u) == (holds(conns, u) || u == c.uid()),
        forall|u: u64| holds(conns, u) ==> index_of(conns.push(c), u) == index_of(conns, u),
        index_of(conns.push(c), c.uid()) == conns.len(),
        links_of(conns.push(c)) == links_of(conns).insert(c.uid(), None),
{
    let after = conns.push(c);
    assert(unique(after)) by {
        assert forall|i: int, j: int|
            0 <= i < after.len() && 0 <= j < after.len() && i != j implies #[trigger] after[i].uid()
            != #[trigger] after[j].uid() by {
            if i < conns.len() && j < conns.len() {
                assert(conns[i].uid() != conns[j].uid());
            } else if i < conns.len() {
                assert(conns[i].uid() != c.uid());
            } else {
                assert(conns[j].uid() != c.uid());
            }
        }
    }
    assert forall|u: u64| holds(after, u) == (holds(conns, u) || u == c.uid()) by {
        if holds(conns, u) {
            let i = index_of(conns, u);
            assert(after[i].uid() == u);
        }
        if u == c.uid() {
            assert(after[conns.len() as int].uid() == u);
        }
        if holds(after, u) {
            let i = index_of(after, u);
            if i < conns.len() {
                assert(conns[i].uid() == u);
            }
        }
    }
    assert forall|u: u64| holds(conns, u) implies index_of(after, u) == index_of(conns, u) by {
        let i = index_of(conns, u);
        assert(after[i].uid() == u);
        lemma_at(after, i);
    }
    lemma_at(after, conns.len() as int);
    assert(links_of(after) =~= links_of(conns).insert(c.uid(), None)) by {
        assert forall|u: u64| holds(after, u) implies #[trigger] links_of(after)[u] == links_of(
            conns,
        ).insert(c.uid(), None)[u] by {
            let i = index_of(after, u);
            lemma_at(after, i);
            if i < conns.len() {
                assert(conns[i].uid() == u);
                lemma_at(conns, i);
            }
        }
    }
    lemma_acyclic_insert(links_of(conns), c.uid());
    assert forall|k: int| 0 <= k < after.len() implies (#[trigger] after[k]).wf() by {
        if k < conns.len() {
            assert(conns[k].wf());
        }
    }
}

/// A link that may be made keeps a fleet consistent.
pub proof fn lemma_fleet_link(conns: Seq<ConnectionView>, uid: u64, target: Option<u64>)
    requires
        fleet_wf(conns),
    ensures
        fleet_wf(with_link(conns, uid, target)),
        with_link(conns, uid, target).len() == conns.len(),
        forall|u: u64| holds(with_link(conns, uid, target), u) == holds(conns, u),
        forall|u: u64|
            holds(conns, u) ==> index_of(with_link(conns, uid, target), u) == index_of(conns, u),
{
    if can_bind(conns, uid, target) {
        let i = index_of(conns, uid);
        let c = conns[i].bound_to(target);
        lemma_links_update(conns, i, c);
        lemma_dom(conns);
        lemma_at(conns, i);
        match target {
            Some(y) => {
                lemma_acyclic_bind(links_of(conns), uid, y, conns.len());
            },
            None => {
                lemma_acyclic_insert(links_of(conns), uid);
            },
        }
        let after = conns.update(i, c);
        assert forall|k: int| 0 <= k < after.len() implies (#[trigger] after[k]).wf() by {
            assert(conns[k].wf());
        }
    }
}

/// A transition of one connection keeps a fleet consistent and its links as
/// they are.
pub proof fn lemma_fleet_transition(
    conns: Seq<ConnectionView>,
    uid: u64,
    t: crate::connection::TransitionView,
)
    requires
        fleet_wf(conns),
        t.wf(),
    ensures
        fleet_wf(with_transition(conns, uid, t)),
        with_transition(conns, uid, t).len() == conns.len(),
        links_of(with_transition(conns, uid, t)) == links_of(conns),
        forall|u: u64| holds(with_transition(conns, uid, t), u) == holds(conns, u),
        forall|u: u64|
            holds(conns, u) ==> index_of(with_transition(conns, uid, t), u) == index_of(conns, u),
{
    if holds(conns, uid) {
        let i = index_of(conns, uid);
        let c = conns[i].after(t);
        lemma_at(conns, i);
        lemma_links_update(conns, i, c);
        assert(links_of(conns).insert(uid, c.delegate) =~= links_of(conns));
        let after = conns.update(i, c);
        assert forall|k: int| 0 <= k < after.len() implies (#[trigger] after[k]).wf() by {
            assert(conns[k].wf());
        }
    }
}

/// Taking a connection out keeps a fleet consistent; what stays is what was
/// there, released from the connection that left.
pub proof fn lemma_fleet_without(conns: Seq<ConnectionView>, uid: u64)
    requires
        fleet_wf(conns),
    ensures
        fleet_wf(without_conn(conns, uid)),
        forall|u: u64| holds(without_conn(conns, uid), u) == (holds(conns, u) && u != uid),
        forall|u: u64|
            holds(conns, u) && u != uid ==> without_conn(conns, uid)[index_of(
                without_conn(conns, uid),
                u,
            )] == released(conns[index_of(conns, u)], uid),
{
    if holds(conns, uid) {
        let i = index_of(conns, uid);
        let after = without_conn(conns, uid);
        let cut = conns.remove(i);
        lemma_links_without(conns, uid);
        lemma_acyclic_without(links_of(conns), uid);
        assert forall|j: int| 0 <= j < after.len() implies (#[trigger] after[j]).wf() by {
            assert(after[j] == released(cut[j], uid));
            assert(cut[j] == conns[if j < i { j } else { j + 1 }]);
            assert(conns[if j < i { j } else { j + 1 }].wf());
        }
        assert forall|u: u64| holds(conns, u) && u != uid implies after[index_of(after, u)]
            == released(conns[index_of(conns, u)], uid) by {
            let k = index_of(after, u);
            let k2 = if k < i { k } else { k + 1 };
            assert(after[k] == released(cut[k], uid));
            assert(cut[k] == conns[k2]);
            assert(after[k].uid() == u);
            lemma_at(conns, k2);
        }
    } else {
        let r = choose|r: Map<u64, nat>| crate::graph::is_ranking(links_of(conns), r);
        assert forall|u: u64| holds(conns, u) && u != uid implies conns[index_of(conns, u)]
            == released(conns[index_of(conns, u)], uid) by {
            assert(links_of(conns).contains_key(u));
            if conns[index_of(conns, u)].delegate == Some(uid) {
                assert(links_of(conns).contains_key(uid));
            }
        }
    }
}

/// The connections of one service, each with the state of its monitor and
/// its link to the connection it defers to.
#[derive(Debug)]
pub struct Fleet {
    conns: Vec<Connection>,
}

impl View for Fleet {
    type V = Seq<ConnectionView>;

    closed spec fn view(&self) -> Seq<ConnectionView> {
        self.conns@.map_values(|c: Connection| c@)
    }
}

impl Fleet {
    /// The fleet is consistent.
    pub open spec fn wf(&self) -> bool {
        fleet_wf(self@)
    }

    /// A fleet without connections.
    pub fn new() -> (fleet: Fleet)
        ensures
            fleet@ == Seq::<ConnectionView>::empty(),
            fleet.wf(),
    {
        let fleet = Fleet { conns: Vec::new() };
        proof {
            assert(fleet@ =~= Seq::<ConnectionView>::empty());
            let r = Map::<u64, nat>::empty();
            assert(crate::graph::is_ranking(links_of(fleet@), r));
        }
        fleet
    }

    /// Returns the number of connections.
    pub fn len(&self) -> (n: usize)
        ensures
            n == self@.len(),
    {
        self.conns.len()
    }

    /// Returns the connection at a position.
    pub fn get(&self, index: usize) -> (c: &Connection)
        requires
            index < self@.len(),
        ensures
            c@ == self@[index as int],
    {
        &self.conns[index]
    }

    /// Finds the position of the connection of the given identity.
    pub fn find(&self, uid: u64) -> (found: Option<usize>)
        ensures
            match found {
                Some(i) => i < self@.len() && self@[i as int].uid() == uid && forall|j: int|
                    0 <= j < i ==> self@[j].uid() != uid,
                None => !holds(self@, uid),
            },
    {
        let mut i: usize = 0;
        while i < self.conns.len()
            invariant
                i <= self.conns.len(),
                forall|j: int| 0 <= j < i ==> (#[trigger] self@[j]).uid() != uid,
            decreases self.conns.len() - i,
        {
            if self.conns[i].uid() == uid {
                return Some(i);
            }
            i += 1;
        }
        None
    }

    /// Returns the connection of the given identity.
    pub fn lookup(&self, uid: u64) -> (found: Option<&Connection>)
        requires
            self.wf(),
        ensures
            match found {
                Some(c) => holds(self@, uid) && c@ == self@[index_of(self@, uid)],
                None => !holds(self@, uid),
            },
    {
        match self.find(uid) {
            Some(i) => {
                proof {
                    lemma_at(self@, i as int);
                }
                Some(&self.conns[i])
            },
            None => None,
        }
    }

    /// Adds a connection that defers to nobody and whose identity is new.
    pub fn push(&mut self, c: Connection)
        requires
            old(self).wf(),
            c@.wf(),
            c@.delegate is None,
            !holds(old(self)@, c@.uid()),
        ensures
            final(self)@ == old(self)@.push(c@),
            final(self).wf(),
    {
        proof {
            lemma_fleet_push(self@, c@);
        }
        let ghost before = self@;
        let ghost cv = c@;
        self.conns.push(c);
        proof {
            assert(self@ =~= before.push(cv));
        }
    }
}

/// The links of a fleet in which one connection changed but kept its
/// identity: only the link of that connection may differ.
pub proof fn lemma_links_update(conns: Seq<ConnectionView>, i: int, c: ConnectionView)
    requires
        unique(conns),
        0 <= i < conns.len(),
        c.uid() == conns[i].uid(),
    ensures
        unique(conns.update(i, c)),
        links_of(conns.update(i, c)) == links_of(conns).insert(c.uid(), c.delegate),
        forall|u: u64| holds(conns.update(i, c), u) == holds(conns, u),
        forall|u: u64| holds(conns, u) ==> index_of(conns.update(i, c), u) == index_of(conns, u),
{
    let after = conns.update(i, c);
    assert(unique(after)) by {
        assert forall|a: int, b: int|
            0 <= a < after.len() && 0 <= b < after.len() && a != b implies #[trigger] after[a].uid()
            != #[trigger] after[b].uid() by {
            assert(after[a].uid() == conns[a].uid());
            assert(after[b].uid() == conns[b].uid());
        }
    }
    assert forall|u: u64| holds(after, u) == holds(conns, u) by {
        if holds(conns, u) {
            let k = index_of(conns, u);
            assert(after[k].uid() == u);
        }
        if holds(after, u) {
            let k = index_of(after, u);
            assert(conns[k].uid() == u);
        }
    }
    assert forall|u: u64| holds(conns, u) implies index_of(after, u) == index_of(conns, u) by {
        let k = index_of(conns, u);
        assert(after[k].uid() == u);
        lemma_at(after, k);
    }
    assert(links_of(after) =~= links_of(conns).insert(c.uid(), c.delegate)) by {
        lemma_at(conns, i);
        assert forall|u: u64| holds(after, u) implies #[trigger] links_of(after)[u] == links_of(
            conns,
        ).insert(c.uid(), c.delegate)[u] by {
            let k = index_of(after, u);
            lemma_at(after, k);
            lemma_at(conns, k);
        }
    }
}

/// The links of a fleet that a connection left.
pub proof fn lemma_links_without(conns: Seq<ConnectionView>, uid: u64)
    requires
        unique(conns),
        holds(conns, uid),
    ensures
        unique(without_conn(conns, uid)),
        links_of(without_conn(conns, uid)) == without(links_of(conns), uid),
        forall|u: u64| holds(without_conn(conns, uid), u) == (holds(conns, u) && u != uid),
{
    let i = index_of(conns, uid);
    let after = without_conn(conns, uid);
    let cut = conns.remove(i);
    assert(after.len() == conns.len() - 1);
    assert forall|k: int| 0 <= k < after.len() implies #[trigger] after[k].uid() == conns[if k
        < i {
        k
    } else {
        k + 1
    }].uid() by {
        assert(after[k] == released(cut[k], uid));
    }
    assert(unique(after)) by {
        assert forall|a: int, b: int|
            0 <= a < after.len() && 0 <= b < after.len() && a != b implies #[trigger] after[a].uid()
            != #[trigger] after[b].uid() by {
            let a2 = if a < i { a } else { a + 1 };
            let b2 = if b < i { b } else { b + 1 };
            assert(after[a].uid() == conns[a2].uid());
            assert(after[b].uid() == conns[b2].uid());
        }
    }
    assert forall|u: u64| holds(after, u) == (holds(conns, u) && u != uid) by {
        if holds(conns, u) && u != uid {
            let k = index_of(conns, u);
            let k2 = if k < i { k } else { k - 1 };
            assert(after[k2].uid() == conns[k].uid());
        }
        if holds(after, u) {
            let k = index_of(after, u);
            let k2 = if k < i { k } else { k + 1 };
            assert(after[k].uid() == conns[k2].uid());
            assert(conns[k2].uid() == u);
            if u == uid {
                assert(conns[i].uid() == conns[k2].uid());
            }
        }
    }
    assert(links_of(after) =~= without(links_of(conns), uid)) by {
        assert forall|u: u64| holds(after, u) implies #[trigger] links_of(after)[u] == without(
            links_of(conns),
            uid,
        )[u] by {
            let k = index_of(after, u);
            let k2 = if k < i { k } else { k + 1 };
            lemma_at(after, k);
            assert(after[k].uid() == conns[k2].uid());
            lemma_at(conns, k2);
            assert(after[k] == released(cut[k], uid));
        }
    }
}

impl Fleet {
    /// Returns the position of the connection at which the links from the
    /// connection at `start` end. At most as many hops are made as there are
    /// connections.
    pub fn terminal_index(&self, start: usize) -> (t: usize)
        requires
            self.wf(),
            start < self@.len(),
        ensures
            t < self@.len(),
            self@[t as int].uid() == terminal_of(self@, self@[start as int].uid()),
            t as int == index_of(self@, terminal_of(self@, self@[start as int].uid())),
    {
        let n = self.conns.len();
        let ghost g = links_of(self@);
        let ghost origin = self@[start as int].uid();
        let mut cur = start;
        let mut hops: usize = 0;
        while hops < n
            invariant
                self.wf(),
                n == self@.len(),
                g == links_of(self@),
                hops <= n,
                cur < n,
                walk(g, origin, n as nat) == walk(g, self@[cur as int].uid(), (n - hops) as nat),
            decreases n - hops,
        {
            let ghost u = self@[cur as int].uid();
            proof {
                lemma_at(self@, cur as int);
            }
            match self.conns[cur].link() {
                None => {
                    proof {
                        assert(step(g, u) is None);
                        assert(path(g, u, (n - hops) as nat) =~= seq![u]);
                        assert(path(g, u, 0) =~= seq![u]);
                    }
                    hops = n;
                },
                Some(d) => {
                    match self.find(d) {
                        None => {
                            proof {
                                assert(step(g, u) is None);
                                assert(path(g, u, (n - hops) as nat) =~= seq![u]);
                                assert(path(g, u, 0) =~= seq![u]);
                            }
                            hops = n;
                        },
                        Some(j) => {
                            proof {
                                lemma_at(self@, j as int);
                                assert(step(g, u) == Some(d));
                                let rest = path(g, d, (n - hops - 1) as nat);
                                lemma_path_shape(g, d, (n - hops - 1) as nat);
                                assert(path(g, u, (n - hops) as nat) == seq![u] + rest);
                                assert((seq![u] + rest).last() == rest.last());
                            }
                            cur = j;
                            hops += 1;
                        },
                    }
                },
            }
        }
        proof {
            assert(path(g, self@[cur as int].uid(), 0) =~= seq![self@[cur as int].uid()]);
            lemma_at(self@, cur as int);
        }
        cur
    }

    /// Tells whether the links from the connection at `start` lead to the
    /// connection `uid`.
    fn leads_to(&self, start: usize, uid: u64) -> (b: bool)
        requires
            self.wf(),
            start < self@.len(),
        ensures
            b == chain_of(self@, self@[start as int].uid()).contains(uid),
    {
        let n = self.conns.len();
        let ghost g = links_of(self@);
        let ghost origin = self@[start as int].uid();
        let mut cur = start;
        let mut hops: usize = 0;
        let mut found = false;
        while hops < n && !found
            invariant
                self.wf(),
                n == self@.len(),
                g == links_of(self@),
                hops <= n,
                cur < n,
                start < n,
                origin == self@[start as int].uid(),
                found ==> path(g, origin, n as nat).contains(uid),
                !found ==> (path(g, origin, n as nat).contains(uid) <==> path(
                    g,
                    self@[cur as int].uid(),
                    (n - hops) as nat,
                ).contains(uid)),
            decreases (n - hops) + (if found { 0int } else { 1int }),
        {
            let ghost u = self@[cur as int].uid();
            let ghost p = path(g, u, (n - hops) as nat);
            proof {
                lemma_at(self@, cur as int);
                lemma_path_shape(g, u, (n - hops) as nat);
            }
            if self.conns[cur].uid() == uid {
                proof {
                    assert(p[0] == uid);
                    assert(p.contains(uid));
                }
                found = true;
            } else {
                let mut next: Option<usize> = None;
                match self.conns[cur].link() {
                    None => {},
                    Some(d) => {
                        match self.find(d) {
                            None => {},
                            Some(j) => {
                                proof {
                                    lemma_at(self@, j as int);
                                }
                                next = Some(j);
                            },
                        }
                    },
                }
                match next {
                    None => {
                        proof {
                            assert(step(g, u) is None);
                            assert(p =~= seq![u]);
                            assert(u != uid);
                            if p.contains(uid) {
                                let k = choose|k: int| 0 <= k < p.len() && p[k] == uid;
                                assert(p[k] == u);
                            }
                            assert(!p.contains(uid));
                            assert(!path(g, origin, n as nat).contains(uid));
                        }
                        return false;
                    },
                    Some(j) => {
                        proof {
                            let d = self@[j as int].uid();
                            assert(step(g, u) == Some(d));
                            let rest = path(g, d, (n - hops - 1) as nat);
                            assert(p == seq![u] + rest);
                            if rest.contains(uid) {
                                let k = choose|k: int| 0 <= k < rest.len() && rest[k] == uid;
                                assert(p[k + 1] == uid);
                            }
                            if p.contains(uid) {
                                let k = choose|k: int| 0 <= k < p.len() && p[k] == uid;
                                assert(k > 0);
                                assert(rest[k - 1] == uid);
                            }
                        }
                        cur = j;
                        hops += 1;
                    },
                }
            }
        }
        if !found {
            proof {
                let u = self@[cur as int].uid();
                assert(path(g, u, 0) =~= seq![u]);
                if path(g, u, 0).contains(uid) {
                    let k = choose|k: int| 0 <= k < path(g, u, 0).len() && path(g, u, 0)[k] == uid;
                    assert(u == uid);
                }
                if u == uid {
                    assert(path(g, u, 0)[0] == uid);
                }
            }
            found = self.conns[cur].uid() == uid;
        }
        found
    }
}

/// The connections that `uid` defers to, directly and indirectly, nearest
/// first; the last is the one that defers to nobody.
pub open spec fn delegators_of(conns: Seq<ConnectionView>, uid: u64) -> Seq<ConnectionView> {
    Seq::new(
        (chain_of(conns, uid).len() - 1) as nat,
        |k: int| conns[index_of(conns, chain_of(conns, uid)[k + 1])],
    )
}

/// Whether the connection may be handed to a client: it is connected, and
/// the connection it ultimately defers to is online and has room.
pub open spec fn available(conns: Seq<ConnectionView>, c: ConnectionView) -> bool {
    c.is_connected && resolved(conns, c).is_online && resolved(conns, c).has_room()
}

/// The score by which connections are ordered: the socket count of the
/// connection that `c` ultimately defers to. Lower is better.
pub open spec fn score_of(conns: Seq<ConnectionView>, c: ConnectionView) -> u64 {
    resolved(conns, c).sockets()
}

impl Fleet {
    /// Lists the connections in the order in which they joined.
    pub fn connections(&self) -> (list: Vec<&Connection>)
        ensures
            list@.len() == self@.len(),
            forall|i: int| 0 <= i < list@.len() ==> (#[trigger] list@[i])@ == self@[i],
    {
        let mut out: Vec<&Connection> = Vec::new();
        let mut i: usize = 0;
        while i < self.conns.len()
            invariant
                i <= self.conns.len(),
                out@.len() == i,
                forall|k: int| 0 <= k < i ==> (#[trigger] out@[k])@ == self@[k],
            decreases self.conns.len() - i,
        {
            out.push(&self.conns[i]);
            i += 1;
        }
        out
    }

    /// Lists the connections that the connection at `start` defers to,
    /// directly and indirectly, nearest first.
    pub fn delegators(&self, start: usize) -> (list: Vec<&Connection>)
        requires
            self.wf(),
            start < self@.len(),
        ensures
            list@.len() == delegators_of(self@, self@[start as int].uid()).len(),
            forall|k: int|
                0 <= k < list@.len() ==> (#[trigger] list@[k])@ == delegators_of(
                    self@,
                    self@[start as int].uid(),
                )[k],
    {
        let n = self.conns.len();
        let ghost g = links_of(self@);
        let ghost origin = self@[start as int].uid();
        let ghost full = path(g, origin, n as nat);
        let ghost mut seen: Seq<u64> = seq![origin];
        let mut out: Vec<&Connection> = Vec::new();
        let mut cur = start;
        let mut hops: usize = 0;
        proof {
            assert(seen.drop_last() + path(g, origin, n as nat) =~= full);
        }
        while hops < n
            invariant
                self.wf(),
                n == self@.len(),
                g == links_of(self@),
                full == path(g, origin, n as nat),
                hops <= n,
                cur < n,
                seen.len() == out@.len() + 1,
                seen.last() == self@[cur as int].uid(),
                full == seen.drop_last() + path(g, self@[cur as int].uid(), (n - hops) as nat),
                forall|k: int|
                    0 <= k < out@.len() ==> (#[trigger] out@[k])@ == self@[index_of(
                        self@,
                        seen[k + 1],
                    )],
            decreases n - hops,
        {
            let ghost u = self@[cur as int].uid();
            let mut next: Option<usize> = None;
            proof {
                lemma_at(self@, cur as int);
            }
            match self.conns[cur].link() {
                None => {},
                Some(d) => {
                    match self.find(d) {
                        None => {},
                        Some(j) => {
                            proof {
                                lemma_at(self@, j as int);
                            }
                            next = Some(j);
                        },
                    }
                },
            }
            match next {
                None => {
                    proof {
                        assert(step(g, u) is None);
                        assert(path(g, u, (n - hops) as nat) =~= seq![u]);
                        assert(path(g, u, 0) =~= seq![u]);
                    }
                    hops = n;
                },
                Some(j) => {
                    proof {
                        let d = self@[j as int].uid();
                        assert(step(g, u) == Some(d));
                        let rest = path(g, d, (n - hops - 1) as nat);
                        assert(path(g, u, (n - hops) as nat) == seq![u] + rest);
                        let grown = seen.push(d);
                        assert(grown.drop_last() =~= seen);
                        assert(seen =~= seen.drop_last() + seq![u]);
                        assert(seen.drop_last() + (seq![u] + rest) =~= (seen.drop_last() + seq![u])
                            + rest);
                        seen = grown;
                    }
                    out.push(&self.conns[j]);
                    cur = j;
                    hops += 1;
                },
            }
        }
        proof {
            let u = self@[cur as int].uid();
            assert(path(g, u, 0) =~= seq![u]);
            assert(seen =~= seen.drop_last() + seq![u]);
            assert(full == seen);
            assert(chain_of(self@, origin) == full);
        }
        out
    }

    /// Lets the connection `uid` defer to `target`, or to nobody. A link that
    /// would close a cycle, or that names a connection the fleet does not
    /// hold, is refused and the fleet stays as it is.
    pub fn bind(&mut self, uid: u64, target: Option<u64>) -> (done: bool)
        requires
            old(self).wf(),
        ensures
            done == can_bind(old(self)@, uid, target),
            final(self)@ == with_link(old(self)@, uid, target),
            final(self).wf(),
    {
        let ghost before = self@;
        proof {
            lemma_fleet_link(before, uid, target);
        }
        match self.find(uid) {
            None => false,
            Some(i) => {
                proof {
                    lemma_at(before, i as int);
                }
                let ok = match target {
                    None => true,
                    Some(y) => match self.find(y) {
                        None => false,
                        Some(j) => {
                            proof {
                                lemma_at(before, j as int);
                            }
                            !self.leads_to(j, uid)
                        },
                    },
                };
                if ok {
                    self.conns[i].bind_delegate(target);
                    proof {
                        assert(self@ =~= before.update(i as int, before[i as int].bound_to(target)));
                    }
                }
                ok
            },
        }
    }

    /// Applies a transition to the connection `uid`, if the fleet holds it.
    pub fn apply(&mut self, uid: u64, t: Transition) -> (done: bool)
        requires
            old(self).wf(),
        ensures
            t@.wf(),
            done == holds(old(self)@, uid),
            final(self)@ == with_transition(old(self)@, uid, t@),
            final(self).wf(),
    {
        let ghost before = self@;
        let ghost tv = t@;
        match &t {
            Transition::Caps(c) => {
                c.attest();
            },
            _ => {},
        }
        proof {
            lemma_fleet_transition(before, uid, tv);
        }
        match self.find(uid) {
            None => false,
            Some(i) => {
                proof {
                    lemma_at(before, i as int);
                }
                self.conns[i].apply(t);
                proof {
                    assert(self@ =~= before.update(i as int, before[i as int].after(tv)));
                }
                true
            },
        }
    }

    /// Takes the connection `uid` out of the fleet. The connections that
    /// deferred to it defer to nobody afterwards and forget what their node
    /// reported, so that they look for a delegate anew.
    pub fn remove(&mut self, uid: u64) -> (removed: Option<Connection>)
        requires
            old(self).wf(),
        ensures
            final(self)@ == without_conn(old(self)@, uid),
            final(self).wf(),
            match removed {
                Some(c) => holds(old(self)@, uid) && c@ == old(self)@[index_of(old(self)@, uid)],
                None => !holds(old(self)@, uid),
            },
    {
        let ghost before = self@;
        match self.find(uid) {
            None => None,
            Some(i) => {
                proof {
                    lemma_at(before, i as int);
                }
                let gone = self.conns.remove(i);
                let ghost cut = before.remove(i as int);
                proof {
                    assert(self@ =~= cut);
                }
                let mut k: usize = 0;
                while k < self.conns.len()
                    invariant
                        k <= self.conns.len(),
                        self@.len() == cut.len(),
                        forall|j: int| 0 <= j < k ==> (#[trigger] self@[j]) == released(cut[j], uid),
                        forall|j: int| k <= j < self@.len() ==> (#[trigger] self@[j]) == cut[j],
                    decreases self.conns.len() - k,
                {
                    let ghost now = self@;
                    if self.conns[k].link() == Some(uid) {
                        proof {
                            assert(now[k as int] == cut[k as int]);
                        }
                        self.conns[k].bind_delegate(None);
                        let ghost mid = self@;
                        proof {
                            assert(mid =~= now.update(k as int, now[k as int].bound_to(None)));
                        }
                        self.conns[k].apply(Transition::ClearCaps);
                        proof {
                            assert(self@ =~= mid.update(
                                k as int,
                                mid[k as int].after(crate::connection::TransitionView::ClearCaps),
                            ));
                            assert(self@[k as int] == released(cut[k as int], uid));
                            assert(self@ =~= now.update(k as int, released(cut[k as int], uid)));
                        }
                    }
                    k += 1;
                }
                proof {
                    assert(self@ =~= without_conn(before, uid));
                    lemma_fleet_without(before, uid);
                }
                Some(gone)
            },
        }
    }
}

impl Connection {
    /// Returns the connection that this one ultimately defers to: the links
    /// are followed, for at most as many hops as the fleet has connections,
    /// to the connection that defers to nobody.
    pub fn delegate<'a>(&'a self, fleet: &'a Fleet) -> (d: &'a Connection)
        requires
            fleet.wf(),
        ensures
            d@ == resolved(fleet@, self@),
    {
        match fleet.find(self.uid()) {
            None => self,
            Some(i) => {
                proof {
                    lemma_at(fleet@, i as int);
                }
                let t = fleet.terminal_index(i);
                fleet.get(t)
            },
        }
    }

    /// Returns the score of the connection: the socket count of the
    /// connection it ultimately defers to.
    pub fn score(&self, fleet: &Fleet) -> (score: u64)
        requires
            fleet.wf(),
        ensures
            score == score_of(fleet@, self@),
    {
        self.delegate(fleet).sockets()
    }

    /// Tells whether the connection may be handed to a client.
    pub fn is_available(&self, fleet: &Fleet) -> (b: bool)
        requires
            fleet.wf(),
        ensures
            b == available(fleet@, self@),
    {
        let delegate = self.delegate(fleet);
        self.is_connected() && delegate.is_online() && delegate.has_room()
    }

    /// Lists the connections that this one defers to, directly and
    /// indirectly, nearest first; the last one defers to nobody.
    pub fn resolve_delegators<'a>(&'a self, fleet: &'a Fleet) -> (list: Vec<&'a Connection>)
        requires
            fleet.wf(),
        ensures
            list@.len() == delegators_of(fleet@, self@.uid()).len(),
            forall|k: int|
                0 <= k < list@.len() ==> (#[trigger] list@[k])@ == delegators_of(
                    fleet@,
                    self@.uid(),
                )[k],
    {
        match fleet.find(self.uid()) {
            None => {
                proof {
                    let g = links_of(fleet@);
                    assert(step(g, self@.uid()) is None);
                    if fleet@.len() > 0 {
                        assert(path(g, self@.uid(), fleet@.len()) =~= seq![self@.uid()]);
                    }
                }
                Vec::new()
            },
            Some(i) => {
                proof {
                    lemma_at(fleet@, i as int);
                }
                fleet.delegators(i)
            },
        }
    }
}

} // verus!
