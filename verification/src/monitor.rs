//! The monitor of one service: its connections, its selection buckets, the
//! flags that ask for a bucket to be put in order again, and the registry of
//! delegates.

use vstd::prelude::*;
use crate::args::Args;
use crate::connection::Connection;
use crate::connection::ConnectionView;
use crate::delegate::Delegate;
use crate::election::output_of;
use crate::election::pick_weighted;
use crate::election::random_below;
use crate::election::total_weight;
use crate::election::weight_sum;
use crate::election::weighted_pick;
use crate::election::Output;
use crate::fleet::available;
use crate::connection::connectable;
use crate::connection::fresh_connection;
use crate::connection::Transition;
use crate::connection::TransitionView;
use crate::error::Error;
use crate::error::ErrorView;
use crate::fleet::can_bind;
use crate::fleet::chain_of;
use crate::fleet::lemma_fleet_link;
use crate::fleet::lemma_fleet_transition;
use crate::fleet::links_of;
use crate::fleet::unique;
use crate::fleet::with_link;
use crate::fleet::with_transition;
use crate::probe::PollAction;
use crate::probe::Reply;
use crate::probe::ReplyView;
use crate::probe::Request;
use crate::probe::Step;
use crate::probe::StepView;
use crate::rpc::Caps;
use crate::rpc::CapsView;
use crate::rpc::Connections;
use crate::fleet::fleet_wf;
use crate::fleet::lemma_fleet_push;
use crate::fleet::lemma_fleet_without;
use crate::fleet::released;
use crate::fleet::without_conn;
use crate::node::node_views;
use crate::node::Node;
use crate::node::NodeView;
use crate::fleet::lemma_at;
use crate::fleet::score_of;
use crate::order::sorted_by;
use crate::order::stable_sort;
use crate::order::stably_sorted;
use crate::order::Scored;
use crate::fleet::holds;
use crate::fleet::index_of;
use crate::fleet::Fleet;
use crate::registry::distinct_keys;
use crate::registry::find_registered;
use crate::registry::lemma_strip;
use crate::registry::lemma_unregistered;
use crate::registry::registered_under;
use crate::registry::strip;
use crate::registry::strip_list;
use crate::registry::unregister;
use crate::registry::unregistered;
use crate::registry::Entry;
use crate::params::all_params;
use crate::params::lemma_strict_has_buckets;
use crate::params::strict_params;
use crate::params::PathParams;
use crate::services::Service;
use crate::transport::TlsKind;
use crate::transport::TransportKind;

verus! {

/// One selection bucket: the connections that serve one path, best first,
/// and whether the bucket is due to be put in order again.
#[derive(Debug)]
pub struct Bucket {
    params: PathParams,
    list: Vec<u64>,
    sort: bool,
}

/// The mathematical value of a [`Bucket`].
pub struct BucketView {
    /// The path the bucket serves.
    pub params: PathParams,
    /// The identities of its connections, in selection order.
    pub list: Seq<u64>,
    /// Whether a sort is pending.
    pub sort: bool,
}

impl View for Bucket {
    type V = BucketView;

    closed spec fn view(&self) -> BucketView {
        BucketView { params: self.params, list: self.list@, sort: self.sort }
    }
}

/// The monitor of one service.
#[derive(Debug)]
pub struct Monitor {
    verbose: bool,
    service: Service,
    fleet: Fleet,
    buckets: Vec<Bucket>,
    delegates: Vec<(Delegate, u64)>,
}

/// The mathematical value of a [`Monitor`].
pub struct MonitorView {
    pub verbose: bool,
    pub service: Service,
    /// The connections, in the order in which they joined.
    pub conns: Seq<ConnectionView>,
    /// The buckets, one for each path, in the order of the paths.
    pub buckets: Seq<BucketView>,
    /// The registry of delegates: for each physical node on a network, the
    /// identity of the connection that speaks for it.
    pub delegates: Seq<(Delegate, u64)>,
}

/// Whether a connection with path `own` belongs in the bucket of path
/// `bucket`: its own bucket and the one that aggregates both TLS kinds.
pub open spec fn belongs(own: PathParams, bucket: PathParams) -> bool {
    bucket == own || bucket == own.spec_to_tls(TlsKind::Any)
}

/// The key under which a connection that knows its node is registered.
pub open spec fn key_of(c: ConnectionView) -> Delegate {
    Delegate { system_id: c.system_id(), network_id: c.node.network }
}

/// Whether a connection speaks for a physical node: it defers to nobody and
/// knows what its node reported.
pub open spec fn authoritative(c: ConnectionView) -> bool {
    c.is_delegate() && c.caps is Some
}

impl MonitorView {
    /// There is one bucket for each path, in the order of the paths.
    pub open spec fn buckets_wf(self) -> bool {
        &&& self.buckets.len() == all_params().len()
        &&& forall|b: int|
            0 <= b < self.buckets.len() ==> (#[trigger] self.buckets[b]).params == all_params()[b]
    }

    /// Every connection is listed, once, in the bucket of its own path and
    /// in the bucket that aggregates both TLS kinds, and nowhere else; and
    /// the buckets list nothing but connections.
    pub open spec fn containment(self) -> bool {
        &&& forall|b: int|
            0 <= b < self.buckets.len() ==> (#[trigger] self.buckets[b]).list.no_duplicates()
        &&& forall|b: int, k: int|
            0 <= b < self.buckets.len() && 0 <= k < self.buckets[b].list.len() ==> holds(
                self.conns,
                #[trigger] self.buckets[b].list[k],
            ) && belongs(
                self.conns[index_of(self.conns, self.buckets[b].list[k])].params,
                self.buckets[b].params,
            )
        &&& forall|i: int, b: int|
            0 <= i < self.conns.len() && 0 <= b < self.buckets.len() && belongs(
                (#[trigger] self.conns[i]).params,
                (#[trigger] self.buckets[b]).params,
            ) ==> self.buckets[b].list.contains(self.conns[i].uid())
    }

    /// Every connection belongs to the service and to a path of concrete TLS
    /// kind that has a bucket.
    pub open spec fn members_wf(self) -> bool {
        forall|i: int|
            0 <= i < self.conns.len() ==> (#[trigger] self.conns[i]).node.service == self.service
                && strict_params().contains(self.conns[i].params)
    }

    /// The registry names each physical node once; each registered
    /// connection defers to nobody and knows its node as the one it is
    /// registered for; and every connection that defers to nobody and knows
    /// its node is the one registered for that node.
    pub open spec fn registry_wf(self) -> bool {
        &&& distinct_keys(self.delegates)
        &&& forall|i: int|
            0 <= i < self.delegates.len() ==> holds(self.conns, (#[trigger] self.delegates[i]).1)
                && authoritative(self.conns[index_of(self.conns, self.delegates[i].1)]) && key_of(
                self.conns[index_of(self.conns, self.delegates[i].1)],
            ) == self.delegates[i].0
        &&& forall|k: int|
            0 <= k < self.conns.len() && authoritative(#[trigger] self.conns[k])
                ==> self.delegates.contains((key_of(self.conns[k]), self.conns[k].uid()))
    }

    /// The state of the monitor is consistent.
    pub open spec fn wf(self) -> bool {
        &&& fleet_wf(self.conns)
        &&& self.buckets_wf()
        &&& self.containment()
        &&& self.members_wf()
        &&& self.registry_wf()
    }

    /// The position of the bucket of a path, or the number of buckets if the
    /// path has none.
    pub open spec fn bucket_index(self, params: PathParams) -> int {
        if exists|b: int| self.first_bucket_at(params, b) {
            choose|b: int| self.first_bucket_at(params, b)
        } else {
            self.buckets.len() as int
        }
    }

    /// Whether `b` is the position of the first bucket of a path.
    pub open spec fn first_bucket_at(self, params: PathParams, b: int) -> bool {
        &&& 0 <= b < self.buckets.len()
        &&& self.buckets[b].params == params
        &&& forall|k: int| 0 <= k < b ==> (#[trigger] self.buckets[k]).params != params
    }

    /// Whether a path has a bucket.
    pub open spec fn has_bucket(self, params: PathParams) -> bool {
        self.bucket_index(params) < self.buckets.len()
    }

    /// The state in which a sort is pending for the bucket of `params`, if
    /// there is one, and for the bucket that aggregates both TLS kinds of it.
    pub open spec fn scheduled(self, params: PathParams) -> MonitorView {
        MonitorView {
            buckets: Seq::new(
                self.buckets.len(),
                |b: int| if self.buckets[b].params == params || self.buckets[b].params
                    == params.spec_to_tls(TlsKind::Any) {
                    BucketView { sort: true, ..self.buckets[b] }
                } else {
                    self.buckets[b]
                },
            ),
            ..self
        }
    }
}

impl View for Monitor {
    type V = MonitorView;

    closed spec fn view(&self) -> MonitorView {
        MonitorView {
            verbose: self.verbose,
            service: self.service,
            conns: self.fleet@,
            buckets: self.buckets@.map_values(|b: Bucket| b@),
            delegates: self.delegates@,
        }
    }
}

/// The state of a monitor that was just created.
pub open spec fn fresh_monitor(verbose: bool, service: Service) -> MonitorView {
    MonitorView {
        verbose,
        service,
        conns: Seq::empty(),
        buckets: Seq::new(
            all_params().len(),
            |b: int| BucketView { params: all_params()[b], list: Seq::empty(), sort: false },
        ),
        delegates: Seq::empty(),
    }
}

impl Monitor {
    /// The state of the monitor is consistent.
    pub open spec fn wf(&self) -> bool {
        self@.wf()
    }

    /// Creates the monitor of a service: no connections, an empty bucket for
    /// each path, no sort pending, no delegate registered.
    pub fn new(args: &Args, service: Service) -> (m: Monitor)
        ensures
            m@ == fresh_monitor(args.verbose, service),
            m.wf(),
    {
        let all = PathParams::iter_tls_any();
        let mut buckets: Vec<Bucket> = Vec::new();
        let mut i: usize = 0;
        while i < all.len()
            invariant
                i <= all.len(),
                all@ == all_params(),
                buckets@.len() == i,
                forall|b: int|
                    0 <= b < i ==> (#[trigger] buckets@[b])@ == (BucketView {
                        params: all_params()[b],
                        list: Seq::empty(),
                        sort: false,
                    }),
            decreases all.len() - i,
        {
            buckets.push(Bucket { params: all[i], list: Vec::new(), sort: false });
            i += 1;
        }
        let m = Monitor {
            verbose: args.verbose,
            service,
            fleet: Fleet::new(),
            buckets,
            delegates: Vec::new(),
        };
        proof {
            assert(m@.buckets =~= fresh_monitor(args.verbose, service).buckets);
            assert(m@.delegates =~= Seq::<(Delegate, u64)>::empty());
        }
        m
    }

    /// Tells whether verbose mode is on.
    pub fn verbose(&self) -> (b: bool)
        ensures
            b == self@.verbose,
    {
        self.verbose
    }

    /// Returns the service of the monitor.
    pub fn service(&self) -> (s: Service)
        ensures
            s == self@.service,
    {
        self.service
    }

    /// Returns the registry of delegates.
    pub fn delegates(&self) -> (reg: &Vec<(Delegate, u64)>)
        ensures
            reg@ == self@.delegates,
    {
        &self.delegates
    }

    /// Returns the connections and the links between them.
    pub fn fleet(&self) -> (fleet: &Fleet)
        ensures
            fleet@ == self@.conns,
    {
        &self.fleet
    }

    /// Returns the connection of the given identity.
    pub fn connection(&self, uid: u64) -> (found: Option<&Connection>)
        requires
            self.wf(),
        ensures
            match found {
                Some(c) => holds(self@.conns, uid) && c@ == self@.conns[index_of(self@.conns, uid)],
                None => !holds(self@.conns, uid),
            },
    {
        self.fleet.lookup(uid)
    }

    /// Tells whether a sort is pending for the bucket of a path.
    pub fn is_sort_scheduled(&self, params: &PathParams) -> (pending: bool)
        ensures
            pending == (self@.has_bucket(*params) && self@.buckets[self@.bucket_index(
                *params,
            )].sort),
    {
        match self.find_bucket(params) {
            Some(b) => self.buckets[b].sort,
            None => false,
        }
    }

    /// Finds the position of the bucket of a path.
    pub fn find_bucket(&self, params: &PathParams) -> (found: Option<usize>)
        ensures
            match found {
                Some(b) => b as int == self@.bucket_index(*params) && self@.has_bucket(*params)
                    && self@.buckets[b as int].params == *params,
                None => !self@.has_bucket(*params),
            },
    {
        let mut b: usize = 0;
        while b < self.buckets.len()
            invariant
                b <= self.buckets.len(),
                forall|k: int| 0 <= k < b ==> (#[trigger] self@.buckets[k]).params != *params,
            decreases self.buckets.len() - b,
        {
            if self.buckets[b].params == *params {
                proof {
                    assert(self@.first_bucket_at(*params, b as int));
                    let k = self@.bucket_index(*params);
                    assert(self@.first_bucket_at(*params, k));
                    if k < b {
                        assert(self@.buckets[k].params != *params);
                    }
                    if b < k {
                        assert(self@.buckets[b as int].params != *params);
                    }
                }
                return Some(b);
            }
            b += 1;
        }
        proof {
            if exists|k: int| self@.first_bucket_at(*params, k) {
                let k = choose|k: int| self@.first_bucket_at(*params, k);
                assert(self@.buckets[k].params != *params);
            }
        }
        None
    }
}

/// The score of the connection of the given identity.
pub open spec fn score_by_uid(conns: Seq<ConnectionView>, uid: u64) -> u64 {
    score_of(conns, conns[index_of(conns, uid)])
}

/// The connections of a list, each with its score.
pub open spec fn scored(conns: Seq<ConnectionView>, list: Seq<u64>) -> Seq<Scored> {
    list.map_values(|u: u64| (score_by_uid(conns, u), u))
}

/// `after` lists the connections of `before`, lower scores first,
/// connections of equal score in the order they had.
pub open spec fn put_in_order(conns: Seq<ConnectionView>, before: Seq<u64>, after: Seq<u64>) -> bool {
    stably_sorted(scored(conns, before), scored(conns, after))
}

/// The scores along a list never fall.
pub open spec fn in_order(conns: Seq<ConnectionView>, list: Seq<u64>) -> bool {
    forall|i: int, j: int|
        0 <= i < j < list.len() ==> score_by_uid(conns, #[trigger] list[i]) <= score_by_uid(
            conns,
            #[trigger] list[j],
        )
}

/// A list put in order holds the same connections as before, each once if
/// that was so before, and its scores never fall.
pub proof fn lemma_put_in_order(conns: Seq<ConnectionView>, before: Seq<u64>, after: Seq<u64>)
    requires
        put_in_order(conns, before, after),
    ensures
        after.len() == before.len(),
        in_order(conns, after),
        forall|x: u64| after.contains(x) == before.contains(x),
        before.no_duplicates() ==> after.no_duplicates(),
{
    let sb = scored(conns, before);
    let sa = scored(conns, after);
    let (perm, inv) = choose|perm: Seq<int>, inv: Seq<int>| sorted_by(sb, sa, perm, inv);
    assert forall|k: int| 0 <= k < after.len() implies #[trigger] after[k] == before[perm[k]] by {
        assert(sa[k] == sb[perm[k]]);
    }
    assert forall|i: int, j: int| 0 <= i < j < after.len() implies score_by_uid(
        conns,
        #[trigger] after[i],
    ) <= score_by_uid(conns, #[trigger] after[j]) by {
        assert(crate::order::before_in(sa, perm, i, j));
    }
    assert forall|x: u64| after.contains(x) == before.contains(x) by {
        if after.contains(x) {
            let k = choose|k: int| 0 <= k < after.len() && after[k] == x;
            assert(before[perm[k]] == x);
        }
        if before.contains(x) {
            let k = choose|k: int| 0 <= k < before.len() && before[k] == x;
            assert(after[inv[k]] == before[perm[inv[k]]]);
        }
    }
    if before.no_duplicates() {
        assert forall|a: int, b: int|
            0 <= a < after.len() && 0 <= b < after.len() && a != b implies after[a] != after[b] by {
            assert(after[a] == before[perm[a]]);
            assert(after[b] == before[perm[b]]);
            if perm[a] == perm[b] {
                assert(inv[perm[a]] == a);
                assert(inv[perm[b]] == b);
            }
        }
    }
}

impl MonitorView {
    /// The identities listed in the bucket of a path; none if the path has no
    /// bucket.
    pub open spec fn bucket(self, params: PathParams) -> Seq<u64> {
        if self.has_bucket(params) {
            self.buckets[self.bucket_index(params)].list
        } else {
            Seq::empty()
        }
    }

    /// `after` is this state once every pending sort has been done: every
    /// bucket that was due is in order, every other bucket is as it was, and
    /// no sort is pending.
    pub open spec fn sorted_into(self, after: MonitorView) -> bool {
        &&& after.verbose == self.verbose
        &&& after.service == self.service
        &&& after.conns == self.conns
        &&& after.delegates == self.delegates
        &&& after.buckets.len() == self.buckets.len()
        &&& forall|b: int|
            0 <= b < self.buckets.len() ==> {
                &&& (#[trigger] after.buckets[b]).params == self.buckets[b].params
                &&& !after.buckets[b].sort
                &&& if self.buckets[b].sort {
                    put_in_order(self.conns, self.buckets[b].list, after.buckets[b].list)
                } else {
                    after.buckets[b].list == self.buckets[b].list
                }
            }
    }
}

impl Monitor {
    /// Asks for the bucket of `params`, and for the bucket that aggregates
    /// both TLS kinds of it, to be put in order again. Both buckets must
    /// be there.
    pub fn schedule_sort(&mut self, params_tls_kind: &PathParams)
        requires
            old(self)@.has_bucket(*params_tls_kind),
            old(self)@.has_bucket(params_tls_kind.spec_to_tls(TlsKind::Any)),
        ensures
            final(self)@ == old(self)@.scheduled(*params_tls_kind),
            old(self).wf() ==> final(self).wf(),
    {
        let any = params_tls_kind.to_tls(TlsKind::Any);
        let ghost before = self@;
        let mut b: usize = 0;
        while b < self.buckets.len()
            invariant
                b <= self.buckets.len(),
                any == params_tls_kind.spec_to_tls(TlsKind::Any),
                self@.verbose == before.verbose,
                self@.service == before.service,
                self@.conns == before.conns,
                self@.delegates == before.delegates,
                self@.buckets.len() == before.buckets.len(),
                forall|k: int|
                    0 <= k < b ==> (#[trigger] self@.buckets[k]) == before.scheduled(
                        *params_tls_kind,
                    ).buckets[k],
                forall|k: int|
                    b <= k < self@.buckets.len() ==> (#[trigger] self@.buckets[k])
                        == before.buckets[k],
            decreases self.buckets.len() - b,
        {
            let p = self.buckets[b].params;
            let ghost now = self@;
            if p == *params_tls_kind || p == any {
                self.buckets[b].sort = true;
                proof {
                    assert(self@.buckets =~= now.buckets.update(
                        b as int,
                        BucketView { sort: true, ..now.buckets[b as int] },
                    ));
                }
            }
            b += 1;
        }
        proof {
            assert(self@.buckets =~= before.scheduled(*params_tls_kind).buckets);
            if before.wf() {
                lemma_scheduled_wf(before, *params_tls_kind);
            }
        }
    }

    /// Returns the score of the connection of the given identity; zero if
    /// there is no such connection.
    fn score_by_uid(&self, uid: u64) -> (score: u64)
        requires
            fleet_wf(self@.conns),
        ensures
            holds(self@.conns, uid) ==> score == score_by_uid(self@.conns, uid),
    {
        match self.fleet.lookup(uid) {
            Some(c) => c.score(&self.fleet),
            None => 0,
        }
    }

    /// Does every pending sort: each bucket that is due is put in order, by
    /// score, lowest first, connections of equal score keeping their order;
    /// afterwards no sort is pending.
    pub fn sort_pending(&mut self)
        requires
            old(self).wf(),
        ensures
            old(self)@.sorted_into(final(self)@),
            final(self).wf(),
    {
        let ghost before = self@;
        let mut b: usize = 0;
        while b < self.buckets.len()
            invariant
                b <= self.buckets.len(),
                before.wf(),
                self@.verbose == before.verbose,
                self@.service == before.service,
                self@.conns == before.conns,
                self@.delegates == before.delegates,
                self@.buckets.len() == before.buckets.len(),
                forall|k: int|
                    0 <= k < b ==> {
                        &&& (#[trigger] self@.buckets[k]).params == before.buckets[k].params
                        &&& !self@.buckets[k].sort
                        &&& if before.buckets[k].sort {
                            put_in_order(before.conns, before.buckets[k].list, self@.buckets[k].list)
                        } else {
                            self@.buckets[k].list == before.buckets[k].list
                        }
                    },
                forall|k: int|
                    b <= k < self@.buckets.len() ==> (#[trigger] self@.buckets[k])
                        == before.buckets[k],
            decreases self.buckets.len() - b,
        {
            if self.buckets[b].sort {
                let ghost list = before.buckets[b as int].list;
                let mut entries: Vec<Scored> = Vec::new();
                let mut k: usize = 0;
                while k < self.buckets[b as usize].list.len()
                    invariant
                        b < self.buckets.len(),
                        before.wf(),
                        self@.conns == before.conns,
                        self@.buckets.len() == before.buckets.len(),
                        self@.buckets[b as int] == before.buckets[b as int],
                        list == before.buckets[b as int].list,
                        k <= list.len(),
                        entries@ == scored(before.conns, list).subrange(0, k as int),
                    decreases list.len() - k,
                {
                    let uid = self.buckets[b].list[k];
                    proof {
                        assert(holds(before.conns, before.buckets[b as int].list[k as int]));
                    }
                    let score = self.score_by_uid(uid);
                    entries.push((score, uid));
                    proof {
                        assert(entries@ =~= scored(before.conns, list).subrange(0, k as int + 1));
                    }
                    k += 1;
                }
                proof {
                    assert(entries@ =~= scored(before.conns, list));
                }
                stable_sort(&mut entries);
                let ghost sorted = entries@;
                let mut out: Vec<u64> = Vec::new();
                let mut k: usize = 0;
                while k < entries.len()
                    invariant
                        k <= entries.len(),
                        entries@ == sorted,
                        out@.len() == k,
                        forall|x: int| 0 <= x < k ==> #[trigger] out@[x] == sorted[x].1,
                    decreases entries.len() - k,
                {
                    out.push(entries[k].1);
                    k += 1;
                }
                proof {
                    let sb = scored(before.conns, list);
                    let (perm, inv) = choose|perm: Seq<int>, inv: Seq<int>|
                        sorted_by(sb, sorted, perm, inv);
                    assert(scored(before.conns, out@) =~= sorted) by {
                        assert forall|x: int| 0 <= x < sorted.len() implies scored(
                            before.conns,
                            out@,
                        )[x] == sorted[x] by {
                            assert(sorted[x] == sb[perm[x]]);
                        }
                    }
                    assert(put_in_order(before.conns, list, out@));
                }
                let ghost now = self@;
                self.buckets[b].list = out;
                self.buckets[b].sort = false;
                proof {
                    assert(self@.buckets =~= now.buckets.update(
                        b as int,
                        BucketView { list: out@, sort: false, ..now.buckets[b as int] },
                    ));
                }
            }
            b += 1;
        }
        proof {
            let after = self@;
            assert(before.sorted_into(after));
            assert forall|x: int| 0 <= x < after.buckets.len() implies {
                &&& (#[trigger] after.buckets[x]).list.no_duplicates()
                &&& after.buckets[x].list.len() == before.buckets[x].list.len()
                &&& forall|u: u64| after.buckets[x].list.contains(u) == before.buckets[x].list.contains(u)
            } by {
                assert(before.buckets[x].list.no_duplicates());
                if before.buckets[x].sort {
                    lemma_put_in_order(before.conns, before.buckets[x].list, after.buckets[x].list);
                }
            }
            assert(after.buckets_wf()) by {
                assert forall|x: int| 0 <= x < after.buckets.len() implies (
                #[trigger] after.buckets[x]).params == all_params()[x] by {
                    assert(before.buckets[x].params == all_params()[x]);
                }
            }
            assert(after.containment()) by {
                assert forall|x: int, k: int|
                    0 <= x < after.buckets.len() && 0 <= k < after.buckets[x].list.len() implies holds(
                    after.conns,
                    #[trigger] after.buckets[x].list[k],
                ) && belongs(
                    after.conns[index_of(after.conns, after.buckets[x].list[k])].params,
                    after.buckets[x].params,
                ) by {
                    let u = after.buckets[x].list[k];
                    assert(after.buckets[x].list.contains(u));
                    assert(before.buckets[x].list.contains(u));
                    let k0 = choose|k0: int|
                        0 <= k0 < before.buckets[x].list.len() && before.buckets[x].list[k0] == u;
                    assert(holds(before.conns, before.buckets[x].list[k0]));
                }
                assert forall|i: int, x: int|
                    0 <= i < after.conns.len() && 0 <= x < after.buckets.len() && belongs(
                        (#[trigger] after.conns[i]).params,
                        (#[trigger] after.buckets[x]).params,
                    ) implies after.buckets[x].list.contains(after.conns[i].uid()) by {
                    assert(belongs(before.conns[i].params, before.buckets[x].params));
                    assert(before.buckets[x].list.contains(before.conns[i].uid()));
                }
            }
        }
    }
}

/// Whether a connection may be elected: it is part of the fleet, defers to
/// nobody and is available.
pub open spec fn eligible(conns: Seq<ConnectionView>, uid: u64) -> bool {
    holds(conns, uid) && conns[index_of(conns, uid)].is_delegate() && available(
        conns,
        conns[index_of(conns, uid)],
    )
}

/// The connections of a list that may be elected, in the order of the list.
pub open spec fn eligible_of(conns: Seq<ConnectionView>, list: Seq<u64>) -> Seq<u64>
    decreases list.len(),
{
    if list.len() == 0 {
        Seq::empty()
    } else if eligible(conns, list.last()) {
        eligible_of(conns, list.drop_last()).push(list.last())
    } else {
        eligible_of(conns, list.drop_last())
    }
}

/// Every connection among the eligible ones of a list is eligible and is
/// part of the list.
pub proof fn lemma_eligible_of(conns: Seq<ConnectionView>, list: Seq<u64>)
    ensures
        forall|k: int|
            0 <= k < eligible_of(conns, list).len() ==> eligible(
                conns,
                #[trigger] eligible_of(conns, list)[k],
            ) && list.contains(eligible_of(conns, list)[k]),
    decreases list.len(),
{
    if list.len() > 0 {
        lemma_eligible_of(conns, list.drop_last());
        let rest = eligible_of(conns, list.drop_last());
        assert forall|k: int| 0 <= k < eligible_of(conns, list).len() implies eligible(
            conns,
            #[trigger] eligible_of(conns, list)[k],
        ) && list.contains(eligible_of(conns, list)[k]) by {
            if k < rest.len() {
                let u = rest[k];
                assert(list.drop_last().contains(u));
                let j = choose|j: int| 0 <= j < list.drop_last().len() && list.drop_last()[j] == u;
                assert(list[j] == u);
            } else {
                assert(list[list.len() - 1] == list.last());
            }
        }
    }
}

impl MonitorView {
    /// The connections that may be elected for a path, best first.
    pub open spec fn candidates(self, params: PathParams) -> Seq<u64> {
        eligible_of(self.conns, self.bucket(params))
    }

    /// The connection elected for a path by a draw: none if there is no
    /// candidate, else the candidate that the draw picks by weight.
    pub open spec fn elected(self, params: PathParams, draw: nat) -> Option<ConnectionView> {
        let c = self.candidates(params);
        if c.len() == 0 {
            None
        } else {
            Some(self.conns[index_of(self.conns, c[weighted_pick(c.len(), draw) as int])])
        }
    }
}

impl Monitor {
    /// Lists the connections that may be elected for a path, best first:
    /// those in the bucket of the path that defer to nobody and are
    /// available.
    pub fn candidates(&self, params: &PathParams) -> (list: Vec<&Connection>)
        requires
            self.wf(),
        ensures
            list@.len() == self@.candidates(*params).len(),
            forall|k: int|
                0 <= k < list@.len() ==> (#[trigger] list@[k])@ == self@.conns[index_of(
                    self@.conns,
                    self@.candidates(*params)[k],
                )],
    {
        let mut out: Vec<&Connection> = Vec::new();
        match self.find_bucket(params) {
            None => {},
            Some(b) => {
                let ghost list = self@.buckets[b as int].list;
                let mut k: usize = 0;
                proof {
                    assert(list.subrange(0, 0) =~= Seq::<u64>::empty());
                }
                while k < self.buckets[b].list.len()
                    invariant
                        self.wf(),
                        b < self.buckets.len(),
                        list == self@.buckets[b as int].list,
                        k <= list.len(),
                        out@.len() == eligible_of(self@.conns, list.subrange(0, k as int)).len(),
                        forall|x: int|
                            0 <= x < out@.len() ==> (#[trigger] out@[x])@ == self@.conns[index_of(
                                self@.conns,
                                eligible_of(self@.conns, list.subrange(0, k as int))[x],
                            )],
                    decreases list.len() - k,
                {
                    let uid = self.buckets[b].list[k];
                    proof {
                        assert(list.subrange(0, k as int + 1).drop_last() =~= list.subrange(
                            0,
                            k as int,
                        ));
                        assert(list.subrange(0, k as int + 1).last() == uid);
                        assert(holds(self@.conns, self@.buckets[b as int].list[k as int]));
                    }
                    match self.fleet.lookup(uid) {
                        None => {},
                        Some(c) => {
                            if c.is_delegate() && c.is_available(&self.fleet) {
                                out.push(c);
                            }
                        },
                    }
                    k += 1;
                }
                proof {
                    assert(list.subrange(0, list.len() as int) =~= list);
                }
            },
        }
        out
    }

    /// Elects a connection for a path by a given draw: the candidate that
    /// the draw picks by weight, where the best of `n` candidates weighs
    /// `n` and the last weighs one. Whoever is elected defers to nobody and
    /// is available.
    pub fn elect(&self, params: &PathParams, draw: u128) -> (chosen: Option<&Connection>)
        requires
            self.wf(),
        ensures
            match chosen {
                Some(c) => self@.elected(*params, draw as nat) == Some(c@) && c@.is_delegate()
                    && available(self@.conns, c@),
                None => self@.elected(*params, draw as nat) is None,
            },
    {
        let list = self.candidates(params);
        if list.len() == 0 {
            None
        } else {
            let i = pick_weighted(list.len(), draw);
            proof {
                lemma_eligible_of(self@.conns, self@.bucket(*params));
                let u = self@.candidates(*params)[i as int];
                assert(eligible(self@.conns, u));
            }
            Some(list[i])
        }
    }

    /// Elects a connection for a path by a random draw and returns the JSON
    /// object that names its node. There is a result if and only if the
    /// path has a candidate, and it names one of the candidates.
    pub fn election(&self, params: &PathParams) -> (json: Option<String>)
        requires
            self.wf(),
        ensures
            json is Some <==> self@.candidates(*params).len() > 0,
            json matches Some(s) ==> exists|k: int|
                0 <= k < self@.candidates(*params).len() && s@ == output_of(
                    self@.conns[index_of(self@.conns, #[trigger] self@.candidates(*params)[k])],
                ),
    {
        let n = self.candidates(params).len();
        if n == 0 {
            return None;
        }
        let total = weight_sum(n);
        proof {
            assert(total_weight(n as nat) > 0);
        }
        let draw = random_below(total);
        match self.elect(params, draw) {
            None => None,
            Some(c) => {
                let json = Output::from_connection(c).to_json();
                proof {
                    crate::election::lemma_pick_in_range(n as nat, draw as nat);
                    let k = weighted_pick(n as nat, draw as nat) as int;
                    assert(c@ == self@.conns[index_of(self@.conns, self@.candidates(*params)[k])]);
                }
                json
            },
        }
    }
}

impl MonitorView {
    /// The state without the connection `uid`: it is gone from the fleet,
    /// from every bucket and from the registry, and the connections that
    /// deferred to it are released.
    pub open spec fn without(self, uid: u64) -> MonitorView {
        if holds(self.conns, uid) {
            MonitorView {
                conns: without_conn(self.conns, uid),
                buckets: Seq::new(
                    self.buckets.len(),
                    |b: int| BucketView { list: strip(self.buckets[b].list, uid), ..self.buckets[b] },
                ),
                delegates: unregistered(self.delegates, uid),
                ..self
            }
        } else {
            self
        }
    }

    /// Whether a connection for `node` may join: the node is consistent,
    /// belongs to the service and to a path of concrete TLS kind that has a
    /// bucket, and no connection of its identity is there yet.
    pub open spec fn accepts(self, node: NodeView) -> bool {
        &&& node.wf()
        &&& node.service == self.service
        &&& strict_params().contains(node.params)
        &&& !holds(self.conns, node.uid)
    }

    /// Whether a connection for `node` would join but cannot be made,
    /// because connections cannot be made over its transport.
    pub open spec fn turns_down(self, node: NodeView) -> bool {
        self.accepts(node) && !connectable(node.transport_kind)
    }

    /// The state with a new connection for `node`, where it may join: the
    /// connection is offline and defers to nobody, and is listed last in the
    /// bucket of its path and in the bucket that aggregates both TLS kinds.
    pub open spec fn enlisted(self, node: NodeView) -> MonitorView {
        if self.accepts(node) {
            MonitorView {
                conns: self.conns.push(fresh_connection(node, self.verbose)),
                buckets: Seq::new(
                    self.buckets.len(),
                    |b: int| if belongs(node.params, self.buckets[b].params) {
                        BucketView { list: self.buckets[b].list.push(node.uid), ..self.buckets[b] }
                    } else {
                        self.buckets[b]
                    },
                ),
                ..self
            }
        } else {
            self
        }
    }
}

/// Taking a connection out keeps the state of a monitor consistent.
pub proof fn lemma_without_wf(v: MonitorView, uid: u64)
    requires
        v.wf(),
    ensures
        v.without(uid).wf(),
{
    if holds(v.conns, uid) {
        let w = v.without(uid);
        lemma_fleet_without(v.conns, uid);
        lemma_unregistered(v.delegates, uid);
        assert forall|b: int| 0 <= b < w.buckets.len() implies {
            &&& (#[trigger] w.buckets[b]).list.no_duplicates()
            &&& forall|x: u64| w.buckets[b].list.contains(x) == (v.buckets[b].list.contains(x) && x != uid)
        } by {
            lemma_strip(v.buckets[b].list, uid);
            assert(v.buckets[b].list.no_duplicates());
        }
        assert(w.buckets_wf()) by {
            assert forall|b: int| 0 <= b < w.buckets.len() implies (#[trigger] w.buckets[b]).params
                == all_params()[b] by {
                assert(v.buckets[b].params == all_params()[b]);
            }
        }
        assert(w.containment()) by {
            assert forall|b: int, k: int|
                0 <= b < w.buckets.len() && 0 <= k < w.buckets[b].list.len() implies holds(
                w.conns,
                #[trigger] w.buckets[b].list[k],
            ) && belongs(
                w.conns[index_of(w.conns, w.buckets[b].list[k])].params,
                w.buckets[b].params,
            ) by {
                let u = w.buckets[b].list[k];
                assert(w.buckets[b].list.contains(u));
                assert(v.buckets[b].list.contains(u));
                let k0 = choose|k0: int| 0 <= k0 < v.buckets[b].list.len() && v.buckets[b].list[k0] == u;
                assert(holds(v.conns, v.buckets[b].list[k0]));
            }
            assert forall|i: int, b: int|
                0 <= i < w.conns.len() && 0 <= b < w.buckets.len() && belongs(
                    (#[trigger] w.conns[i]).params,
                    (#[trigger] w.buckets[b]).params,
                ) implies w.buckets[b].list.contains(w.conns[i].uid()) by {
                let u = w.conns[i].uid();
                lemma_at(w.conns, i);
                assert(holds(v.conns, u) && u != uid);
                let j = index_of(v.conns, u);
                assert(w.conns[i] == released(v.conns[j], uid));
                assert(belongs(v.conns[j].params, v.buckets[b].params));
                assert(v.buckets[b].list.contains(v.conns[j].uid()));
            }
        }
        assert(w.members_wf()) by {
            assert forall|i: int| 0 <= i < w.conns.len() implies (#[trigger] w.conns[i]).node.service
                == w.service && strict_params().contains(w.conns[i].params) by {
                let u = w.conns[i].uid();
                lemma_at(w.conns, i);
                let j = index_of(v.conns, u);
                assert(w.conns[i] == released(v.conns[j], uid));
                assert(v.conns[j].node.service == v.service);
            }
        }
        assert(w.registry_wf()) by {
            assert forall|i: int| 0 <= i < w.delegates.len() implies holds(
                w.conns,
                (#[trigger] w.delegates[i]).1,
            ) && authoritative(w.conns[index_of(w.conns, w.delegates[i].1)]) && key_of(
                w.conns[index_of(w.conns, w.delegates[i].1)],
            ) == w.delegates[i].0 by {
                let e = w.delegates[i];
                assert(w.delegates.contains(e));
                assert(v.delegates.contains(e));
                let i0 = choose|i0: int| 0 <= i0 < v.delegates.len() && v.delegates[i0] == e;
                assert(holds(v.conns, v.delegates[i0].1));
                let j = index_of(v.conns, e.1);
                assert(w.conns[index_of(w.conns, e.1)] == released(v.conns[j], uid));
            }
            assert forall|k: int|
                0 <= k < w.conns.len() && authoritative(#[trigger] w.conns[k]) implies w.delegates.contains(
                (key_of(w.conns[k]), w.conns[k].uid()),
            ) by {
                let u = w.conns[k].uid();
                lemma_at(w.conns, k);
                let j = index_of(v.conns, u);
                assert(w.conns[k] == released(v.conns[j], uid));
                assert(authoritative(v.conns[j]));
                assert(v.delegates.contains((key_of(v.conns[j]), v.conns[j].uid())));
            }
        }
    }
}

/// Letting a connection for a node join keeps the state of a monitor
/// consistent.
pub proof fn lemma_enlisted_wf(v: MonitorView, node: NodeView)
    requires
        v.wf(),
    ensures
        v.enlisted(node).wf(),
{
    if v.accepts(node) {
        let w = v.enlisted(node);
        let c = fresh_connection(node, v.verbose);
        lemma_fleet_push(v.conns, c);
        assert(w.buckets_wf()) by {
            assert forall|b: int| 0 <= b < w.buckets.len() implies (#[trigger] w.buckets[b]).params
                == all_params()[b] by {
                assert(v.buckets[b].params == all_params()[b]);
            }
        }
        assert forall|b: int| 0 <= b < v.buckets.len() implies !(#[trigger] v.buckets[b]).list.contains(
            node.uid,
        ) by {
            if v.buckets[b].list.contains(node.uid) {
                let k = choose|k: int| 0 <= k < v.buckets[b].list.len() && v.buckets[b].list[k] == node.uid;
                assert(holds(v.conns, v.buckets[b].list[k]));
            }
        }
        assert(w.containment()) by {
            assert forall|b: int| 0 <= b < w.buckets.len() implies (#[trigger] w.buckets[b]).list.no_duplicates() by {
                let old = v.buckets[b].list;
                assert(old.no_duplicates());
                assert(!old.contains(node.uid));
                if belongs(node.params, v.buckets[b].params) {
                    let l = old.push(node.uid);
                    assert forall|x: int, y: int| 0 <= x < l.len() && 0 <= y < l.len() && x != y implies l[x]
                        != l[y] by {
                        if x < old.len() && y < old.len() {
                            assert(old[x] != old[y]);
                        } else if x < old.len() {
                            assert(old.contains(old[x]));
                        } else {
                            assert(old.contains(old[y]));
                        }
                    }
                }
            }
            assert forall|b: int, k: int|
                0 <= b < w.buckets.len() && 0 <= k < w.buckets[b].list.len() implies holds(
                w.conns,
                #[trigger] w.buckets[b].list[k],
            ) && belongs(
                w.conns[index_of(w.conns, w.buckets[b].list[k])].params,
                w.buckets[b].params,
            ) by {
                if k < v.buckets[b].list.len() {
                    assert(holds(v.conns, v.buckets[b].list[k]));
                    let u = v.buckets[b].list[k];
                    assert(w.buckets[b].list[k] == u);
                    assert(w.conns[index_of(v.conns, u)] == v.conns[index_of(v.conns, u)]);
                } else {
                    assert(w.buckets[b].list[k] == node.uid);
                    assert(w.conns[v.conns.len() as int] == c);
                }
            }
            assert forall|i: int, b: int|
                0 <= i < w.conns.len() && 0 <= b < w.buckets.len() && belongs(
                    (#[trigger] w.conns[i]).params,
                    (#[trigger] w.buckets[b]).params,
                ) implies w.buckets[b].list.contains(w.conns[i].uid()) by {
                if i < v.conns.len() {
                    assert(belongs(v.conns[i].params, v.buckets[b].params));
                    let old = v.buckets[b].list;
                    assert(old.contains(v.conns[i].uid()));
                    let k = choose|k: int| 0 <= k < old.len() && old[k] == v.conns[i].uid();
                    assert(w.buckets[b].list[k] == v.conns[i].uid());
                } else {
                    let l = w.buckets[b].list;
                    assert(l[l.len() - 1] == node.uid);
                }
            }
        }
        assert(w.members_wf()) by {
            assert forall|i: int| 0 <= i < w.conns.len() implies (#[trigger] w.conns[i]).node.service
                == w.service && strict_params().contains(w.conns[i].params) by {
                if i < v.conns.len() {
                    assert(v.conns[i].node.service == v.service);
                }
            }
        }
        assert(w.registry_wf()) by {
            assert forall|i: int| 0 <= i < w.delegates.len() implies holds(
                w.conns,
                (#[trigger] w.delegates[i]).1,
            ) && authoritative(w.conns[index_of(w.conns, w.delegates[i].1)]) && key_of(
                w.conns[index_of(w.conns, w.delegates[i].1)],
            ) == w.delegates[i].0 by {
                assert(holds(v.conns, v.delegates[i].1));
                let j = index_of(v.conns, v.delegates[i].1);
                assert(w.conns[j] == v.conns[j]);
            }
            assert forall|k: int|
                0 <= k < w.conns.len() && authoritative(#[trigger] w.conns[k]) implies w.delegates.contains(
                (key_of(w.conns[k]), w.conns[k].uid()),
            ) by {
                if k < v.conns.len() {
                    assert(authoritative(v.conns[k]));
                }
            }
        }
    }
}

impl Monitor {
    /// Takes the connection `uid` out: it leaves the fleet, every bucket and
    /// the registry; the connections that deferred to it defer to nobody
    /// afterwards and learn about their node anew.
    pub fn remove(&mut self, uid: u64) -> (removed: Option<Connection>)
        requires
            old(self).wf(),
        ensures
            final(self)@ == old(self)@.without(uid),
            final(self).wf(),
            match removed {
                Some(c) => holds(old(self)@.conns, uid) && c@ == old(self)@.conns[index_of(
                    old(self)@.conns,
                    uid,
                )],
                None => !holds(old(self)@.conns, uid),
            },
    {
        let ghost before = self@;
        proof {
            lemma_without_wf(before, uid);
        }
        let removed = self.fleet.remove(uid);
        if removed.is_some() {
            let mut b: usize = 0;
            while b < self.buckets.len()
                invariant
                    b <= self.buckets.len(),
                    self@.verbose == before.verbose,
                    self@.service == before.service,
                    self@.conns == without_conn(before.conns, uid),
                    self@.delegates == before.delegates,
                    self@.buckets.len() == before.buckets.len(),
                    forall|k: int|
                        0 <= k < b ==> (#[trigger] self@.buckets[k]) == before.without(uid).buckets[k],
                    forall|k: int|
                        b <= k < self@.buckets.len() ==> (#[trigger] self@.buckets[k])
                            == before.buckets[k],
                    holds(before.conns, uid),
                decreases self.buckets.len() - b,
            {
                let ghost now = self@;
                let stripped = strip_list(&self.buckets[b].list, uid);
                self.buckets[b].list = stripped;
                proof {
                    assert(self@.buckets =~= now.buckets.update(
                        b as int,
                        BucketView { list: strip(now.buckets[b as int].list, uid), ..now.buckets[b as int] },
                    ));
                }
                b += 1;
            }
            let ghost now = self@;
            self.delegates = unregister(&self.delegates, uid);
            proof {
                assert(self@.buckets =~= before.without(uid).buckets);
            }
        }
        removed
    }

    /// Lets a connection for `node` join, where it may. Tells whether it
    /// did. A node that may join but over whose transport no connection can
    /// be made is an error, and the monitor stays as it is.
    pub fn enlist(&mut self, node: Node) -> (joined: Result<bool, Error>)
        requires
            old(self).wf(),
        ensures
            old(self)@.turns_down(node@) ==> (joined matches Err(e) && e@
                == ErrorView::ConnectionProtocolEncoding) && final(self)@ == old(self)@,
            !old(self)@.turns_down(node@) ==> (joined matches Ok(j) && j == old(self)@.accepts(
                node@,
            )) && final(self)@ == old(self)@.enlisted(node@),
            final(self).wf(),
    {
        let ghost before = self@;
        let ghost nv = node@;
        proof {
            lemma_enlisted_wf(before, nv);
        }
        let params = *node.params();
        node.attest();
        let ok = node.service() == self.service && self.is_strict_path(&params)
            && self.fleet.find(node.uid()).is_none();
        if !ok {
            return Ok(false);
        }
        let uid = node.uid();
        let made = match Connection::try_fresh(node, self.verbose) {
            Ok(c) => c,
            Err(e) => {
                return Err(e);
            },
        };
        self.fleet.push(made);
        let any = params.to_tls(TlsKind::Any);
        let mut b: usize = 0;
        while b < self.buckets.len()
            invariant
                b <= self.buckets.len(),
                before.accepts(nv),
                params == nv.params,
                uid == nv.uid,
                any == nv.params.spec_to_tls(TlsKind::Any),
                self@.verbose == before.verbose,
                self@.service == before.service,
                self@.conns == before.enlisted(nv).conns,
                self@.delegates == before.delegates,
                self@.buckets.len() == before.buckets.len(),
                forall|k: int|
                    0 <= k < b ==> (#[trigger] self@.buckets[k]) == before.enlisted(nv).buckets[k],
                forall|k: int|
                    b <= k < self@.buckets.len() ==> (#[trigger] self@.buckets[k])
                        == before.buckets[k],
            decreases self.buckets.len() - b,
        {
            let ghost now = self@;
            let p = self.buckets[b].params;
            if p == params || p == any {
                self.buckets[b].list.push(uid);
                proof {
                    assert(self@.buckets =~= now.buckets.update(
                        b as int,
                        BucketView { list: now.buckets[b as int].list.push(uid), ..now.buckets[b as int] },
                    ));
                }
            }
            b += 1;
        }
        proof {
            assert(self@.buckets =~= before.enlisted(nv).buckets);
        }
        Ok(true)
    }

    /// Tells whether a path is one of concrete TLS kind that has a bucket.
    fn is_strict_path(&self, params: &PathParams) -> (b: bool)
        ensures
            b == strict_params().contains(*params),
    {
        let all = PathParams::iter_tls_strict();
        let mut i: usize = 0;
        while i < all.len()
            invariant
                i <= all.len(),
                all@ == strict_params(),
                forall|k: int| 0 <= k < i ==> strict_params()[k] != *params,
            decreases all.len() - i,
        {
            if all[i] == *params {
                return true;
            }
            i += 1;
        }
        false
    }
}

/// Two fleets hold the same connections in the same places, whatever the
/// state of each.
pub open spec fn same_members(a: Seq<ConnectionView>, b: Seq<ConnectionView>) -> bool {
    &&& a.len() == b.len()
    &&& forall|i: int|
        0 <= i < a.len() ==> (#[trigger] a[i]).node == b[i].node && a[i].params == b[i].params
}

/// Connections found by identity are found in the same place in two fleets
/// with the same members.
pub proof fn lemma_same_members(a: Seq<ConnectionView>, b: Seq<ConnectionView>)
    requires
        same_members(a, b),
        unique(a),
    ensures
        unique(b),
        forall|u: u64| holds(b, u) == holds(a, u),
        forall|u: u64| holds(a, u) ==> index_of(b, u) == index_of(a, u),
{
    assert forall|i: int| 0 <= i < a.len() implies (#[trigger] b[i]).uid() == a[i].uid() by {
        assert(a[i].node == b[i].node);
    }
    assert(unique(b)) by {
        assert forall|i: int, j: int|
            0 <= i < b.len() && 0 <= j < b.len() && i != j implies #[trigger] b[i].uid()
            != #[trigger] b[j].uid() by {
            assert(a[i].uid() != a[j].uid());
        }
    }
    assert forall|u: u64| holds(b, u) == holds(a, u) by {
        if holds(a, u) {
            assert(b[index_of(a, u)].uid() == u);
        }
        if holds(b, u) {
            assert(a[index_of(b, u)].uid() == u);
        }
    }
    assert forall|u: u64| holds(a, u) implies index_of(b, u) == index_of(a, u) by {
        let i = index_of(a, u);
        assert(b[i].uid() == u);
        lemma_at(b, i);
    }
}

/// Changing the state of connections, but not which connections there are,
/// keeps the buckets of a monitor right.
pub proof fn lemma_buckets_kept(v: MonitorView, w: MonitorView)
    requires
        v.wf(),
        same_members(v.conns, w.conns),
        w.service == v.service,
        w.buckets.len() == v.buckets.len(),
        forall|b: int|
            0 <= b < v.buckets.len() ==> (#[trigger] w.buckets[b]).params == v.buckets[b].params
                && w.buckets[b].list == v.buckets[b].list,
    ensures
        w.buckets_wf(),
        w.containment(),
        w.members_wf(),
{
    lemma_same_members(v.conns, w.conns);
    assert forall|b: int| 0 <= b < w.buckets.len() implies (#[trigger] w.buckets[b]).params
        == all_params()[b] by {
        assert(v.buckets[b].params == all_params()[b]);
    }
    assert forall|b: int| 0 <= b < w.buckets.len() implies (#[trigger] w.buckets[b]).list.no_duplicates() by {
        assert(v.buckets[b].list.no_duplicates());
    }
    assert forall|b: int, k: int|
        0 <= b < w.buckets.len() && 0 <= k < w.buckets[b].list.len() implies holds(
        w.conns,
        #[trigger] w.buckets[b].list[k],
    ) && belongs(w.conns[index_of(w.conns, w.buckets[b].list[k])].params, w.buckets[b].params) by {
        assert(holds(v.conns, v.buckets[b].list[k]));
        let j = index_of(v.conns, v.buckets[b].list[k]);
        assert(v.conns[j].params == w.conns[j].params);
    }
    assert forall|i: int, b: int|
        0 <= i < w.conns.len() && 0 <= b < w.buckets.len() && belongs(
            (#[trigger] w.conns[i]).params,
            (#[trigger] w.buckets[b]).params,
        ) implies w.buckets[b].list.contains(w.conns[i].uid()) by {
        assert(v.conns[i].node == w.conns[i].node);
        assert(belongs(v.conns[i].params, v.buckets[b].params));
    }
    assert forall|i: int| 0 <= i < w.conns.len() implies (#[trigger] w.conns[i]).node.service
        == w.service && strict_params().contains(w.conns[i].params) by {
        assert(v.conns[i].node == w.conns[i].node);
    }
}

/// Asking for a sort keeps the state of a monitor consistent.
pub proof fn lemma_scheduled_wf(v: MonitorView, params: PathParams)
    requires
        v.wf(),
    ensures
        v.scheduled(params).wf(),
{
    let w = v.scheduled(params);
    lemma_buckets_kept(v, w);
}

/// A path that some bucket has is a path with a bucket.
pub proof fn lemma_first_bucket(v: MonitorView, params: PathParams, b: int)
    requires
        0 <= b < v.buckets.len(),
        v.buckets[b].params == params,
    ensures
        v.has_bucket(params),
    decreases b,
{
    if forall|k: int| 0 <= k < b ==> (#[trigger] v.buckets[k]).params != params {
        assert(v.first_bucket_at(params, b));
    } else {
        let k = choose|k: int| 0 <= k < b && (#[trigger] v.buckets[k]).params == params;
        lemma_first_bucket(v, params, k);
    }
}

/// Whether a path has a bucket depends on the buckets alone.
pub proof fn lemma_has_bucket_frame(v: MonitorView, w: MonitorView, params: PathParams)
    requires
        w.buckets == v.buckets,
    ensures
        w.has_bucket(params) == v.has_bucket(params),
{
    if v.has_bucket(params) {
        let b = v.bucket_index(params);
        assert(v.first_bucket_at(params, b));
        lemma_first_bucket(w, params, b);
    }
    if w.has_bucket(params) {
        let b = w.bucket_index(params);
        assert(w.first_bucket_at(params, b));
        lemma_first_bucket(v, params, b);
    }
}

/// A monitor has a bucket for every path that has one by the table of
/// paths.
pub proof fn lemma_listed_has_bucket(v: MonitorView, params: PathParams)
    requires
        v.buckets_wf(),
        all_params().contains(params),
    ensures
        v.has_bucket(params),
{
    let b = choose|b: int| 0 <= b < all_params().len() && all_params()[b] == params;
    assert(v.buckets[b].params == all_params()[b]);
    lemma_first_bucket(v, params, b);
}

/// A monitor has the bucket of the path of each of its connections, and
/// the bucket that aggregates both TLS kinds of that path.
pub proof fn lemma_member_has_buckets(v: MonitorView, uid: u64)
    requires
        v.wf(),
        holds(v.conns, uid),
    ensures
        v.has_bucket(v.conn(uid).params),
        v.has_bucket(v.conn(uid).params.spec_to_tls(TlsKind::Any)),
{
    let i = index_of(v.conns, uid);
    assert(strict_params().contains(v.conns[i].params));
    lemma_strict_has_buckets(v.conns[i].params);
    lemma_listed_has_bucket(v, v.conns[i].params);
    lemma_listed_has_bucket(v, v.conns[i].params.spec_to_tls(TlsKind::Any));
}

/// Whether a transition leaves alone what a connection knows of its node.
pub open spec fn keeps_caps(t: TransitionView) -> bool {
    t is Disconnected || t is Synced || t is Counts || t is Online
}

/// Whether a transition makes a connection forget what it knows of its node.
pub open spec fn drops_caps(t: TransitionView) -> bool {
    t is Connected || t is Expired || t is ClearCaps
}

impl MonitorView {
    /// The state after a transition of the connection `uid` that leaves its
    /// knowledge of its node alone.
    pub open spec fn moved(self, uid: u64, t: TransitionView) -> MonitorView {
        MonitorView { conns: with_transition(self.conns, uid, t), ..self }
    }

    /// The state after a transition by which the connection `uid` forgets
    /// what it knows of its node: it is no longer registered as a delegate.
    pub open spec fn reset(self, uid: u64, t: TransitionView) -> MonitorView {
        MonitorView {
            conns: with_transition(self.conns, uid, t),
            delegates: unregistered(self.delegates, uid),
            ..self
        }
    }

    /// Whether the connection `uid` is due to learn about its node: it is
    /// part of the fleet, defers to nobody and knows nothing of its node.
    pub open spec fn awaits_caps(self, uid: u64) -> bool {
        holds(self.conns, uid) && self.conns[index_of(self.conns, uid)].is_delegate()
            && self.conns[index_of(self.conns, uid)].caps is None
    }

    /// The key under which the connection `uid` would be registered with the
    /// given capabilities.
    pub open spec fn key_for(self, uid: u64, caps: CapsView) -> Delegate {
        Delegate {
            system_id: caps.system_id,
            network_id: self.conns[index_of(self.conns, uid)].node.network,
        }
    }

    /// The state after the connection `uid` learned the capabilities of its
    /// node, where it was due to: if a delegate is registered for that node
    /// on that network, the connection defers to it; else the connection is
    /// registered as the delegate.
    pub open spec fn learned(self, uid: u64, caps: CapsView) -> MonitorView {
        if self.awaits_caps(uid) {
            let stored = with_transition(self.conns, uid, TransitionView::Caps(caps));
            match registered_under(self.delegates, self.key_for(uid, caps)) {
                Some(d) => MonitorView { conns: with_link(stored, uid, Some(d)), ..self },
                None => MonitorView {
                    conns: stored,
                    delegates: self.delegates.push((self.key_for(uid, caps), uid)),
                    ..self
                },
            }
        } else {
            self
        }
    }
}

/// A transition that leaves the knowledge of a connection alone keeps the
/// state of a monitor consistent.
pub proof fn lemma_moved_wf(v: MonitorView, uid: u64, t: TransitionView)
    requires
        v.wf(),
        keeps_caps(t),
    ensures
        v.moved(uid, t).wf(),
{
    let w = v.moved(uid, t);
    lemma_fleet_transition(v.conns, uid, t);
    if holds(v.conns, uid) {
        let i = index_of(v.conns, uid);
        assert(same_members(v.conns, w.conns)) by {
            assert forall|k: int| 0 <= k < v.conns.len() implies (#[trigger] v.conns[k]).node
                == w.conns[k].node && v.conns[k].params == w.conns[k].params by {}
        }
        lemma_buckets_kept(v, w);
        assert(w.registry_wf()) by {
            assert forall|x: int| 0 <= x < w.delegates.len() implies holds(
                w.conns,
                (#[trigger] w.delegates[x]).1,
            ) && authoritative(w.conns[index_of(w.conns, w.delegates[x].1)]) && key_of(
                w.conns[index_of(w.conns, w.delegates[x].1)],
            ) == w.delegates[x].0 by {
                assert(holds(v.conns, v.delegates[x].1));
            }
            assert forall|k: int|
                0 <= k < w.conns.len() && authoritative(#[trigger] w.conns[k]) implies w.delegates.contains(
                (key_of(w.conns[k]), w.conns[k].uid()),
            ) by {
                assert(authoritative(v.conns[k]));
            }
        }
    }
}

/// A transition by which a connection forgets what it knows, together with
/// the loss of its registration, keeps the state of a monitor consistent.
pub proof fn lemma_reset_wf(v: MonitorView, uid: u64, t: TransitionView)
    requires
        v.wf(),
        drops_caps(t),
    ensures
        v.reset(uid, t).wf(),
{
    let w = v.reset(uid, t);
    lemma_fleet_transition(v.conns, uid, t);
    lemma_unregistered(v.delegates, uid);
    assert(same_members(v.conns, w.conns)) by {
        assert forall|k: int| 0 <= k < v.conns.len() implies (#[trigger] v.conns[k]).node
            == w.conns[k].node && v.conns[k].params == w.conns[k].params by {}
    }
    lemma_buckets_kept(v, w);
    assert(w.registry_wf()) by {
        assert forall|x: int| 0 <= x < w.delegates.len() implies holds(
            w.conns,
            (#[trigger] w.delegates[x]).1,
        ) && authoritative(w.conns[index_of(w.conns, w.delegates[x].1)]) && key_of(
            w.conns[index_of(w.conns, w.delegates[x].1)],
        ) == w.delegates[x].0 by {
            let e = w.delegates[x];
            assert(w.delegates.contains(e));
            assert(v.delegates.contains(e));
            let x0 = choose|x0: int| 0 <= x0 < v.delegates.len() && v.delegates[x0] == e;
            assert(holds(v.conns, v.delegates[x0].1));
        }
        assert forall|k: int|
            0 <= k < w.conns.len() && authoritative(#[trigger] w.conns[k]) implies w.delegates.contains(
            (key_of(w.conns[k]), w.conns[k].uid()),
        ) by {
            lemma_at(v.conns, k);
            if v.conns[k].uid() != uid {
                assert(authoritative(v.conns[k]));
                assert(v.delegates.contains((key_of(v.conns[k]), v.conns[k].uid())));
            }
        }
    }
}

/// Learning the capabilities of a node keeps the state of a monitor
/// consistent; the link it may call for is always made.
pub proof fn lemma_learned_wf(v: MonitorView, uid: u64, caps: CapsView)
    requires
        v.wf(),
        caps.wf(),
    ensures
        v.learned(uid, caps).wf(),
        v.awaits_caps(uid) ==> (registered_under(v.delegates, v.key_for(uid, caps)) matches Some(d)
            ==> can_bind(with_transition(v.conns, uid, TransitionView::Caps(caps)), uid, Some(d))),
{
    if v.awaits_caps(uid) {
        let w = v.learned(uid, caps);
        let i = index_of(v.conns, uid);
        let t = TransitionView::Caps(caps);
        let stored = with_transition(v.conns, uid, t);
        let key = v.key_for(uid, caps);
        lemma_fleet_transition(v.conns, uid, t);
        lemma_at(v.conns, i);
        // the connection was not registered, for it knew nothing of its node
        assert forall|x: int| 0 <= x < v.delegates.len() implies (#[trigger] v.delegates[x]).1
            != uid by {
            assert(holds(v.conns, v.delegates[x].1));
        }
        match registered_under(v.delegates, key) {
            Some(d) => {
                let x = choose|x: int| crate::registry::first_entry_at(v.delegates, key, x);
                assert(v.delegates[x].1 == d);
                assert(holds(v.conns, v.delegates[x].1));
                let j = index_of(v.conns, d);
                assert(authoritative(v.conns[j]));
                assert(d != uid);
                assert(stored[j] == v.conns[j]);
                lemma_at(stored, j);
                let g = links_of(stored);
                assert(crate::graph::step(g, d) is None);
                assert(chain_of(stored, d) =~= seq![d]) by {
                    if stored.len() > 0 {
                        assert(crate::graph::path(g, d, stored.len()) =~= seq![d]);
                    }
                }
                assert(!chain_of(stored, d).contains(uid)) by {
                    if chain_of(stored, d).contains(uid) {
                        let k = choose|k: int|
                            0 <= k < chain_of(stored, d).len() && chain_of(stored, d)[k] == uid;
                        assert(chain_of(stored, d)[k] == d);
                    }
                }
                assert(can_bind(stored, uid, Some(d)));
                lemma_fleet_link(stored, uid, Some(d));
                assert(same_members(v.conns, w.conns)) by {
                    assert forall|k: int| 0 <= k < v.conns.len() implies (#[trigger] v.conns[k]).node
                        == w.conns[k].node && v.conns[k].params == w.conns[k].params by {}
                }
                lemma_buckets_kept(v, w);
                lemma_same_members(v.conns, w.conns);
                assert(w.registry_wf()) by {
                    assert forall|y: int| 0 <= y < w.delegates.len() implies holds(
                        w.conns,
                        (#[trigger] w.delegates[y]).1,
                    ) && authoritative(w.conns[index_of(w.conns, w.delegates[y].1)]) && key_of(
                        w.conns[index_of(w.conns, w.delegates[y].1)],
                    ) == w.delegates[y].0 by {
                        assert(holds(v.conns, v.delegates[y].1));
                        let e = index_of(v.conns, v.delegates[y].1);
                        assert(w.conns[e] == v.conns[e]);
                    }
                    assert forall|k: int|
                        0 <= k < w.conns.len() && authoritative(#[trigger] w.conns[k]) implies w.delegates.contains(
                        (key_of(w.conns[k]), w.conns[k].uid()),
                    ) by {
                        assert(k != i);
                        assert(w.conns[k] == v.conns[k]);
                        assert(authoritative(v.conns[k]));
                    }
                }
            },
            None => {
                assert forall|x: int| 0 <= x < v.delegates.len() implies (#[trigger] v.delegates[x]).0
                    != key by {
                    if v.delegates[x].0 == key {
                        lemma_no_entry(v.delegates, key, x);
                    }
                }
                assert(same_members(v.conns, w.conns)) by {
                    assert forall|k: int| 0 <= k < v.conns.len() implies (#[trigger] v.conns[k]).node
                        == w.conns[k].node && v.conns[k].params == w.conns[k].params by {}
                }
                lemma_buckets_kept(v, w);
                lemma_same_members(v.conns, w.conns);
                assert(w.registry_wf()) by {
                    assert(distinct_keys(w.delegates)) by {
                        assert forall|a: int, b: int|
                            0 <= a < w.delegates.len() && 0 <= b < w.delegates.len() && a != b implies (
                        #[trigger] w.delegates[a]).0 != (#[trigger] w.delegates[b]).0 by {
                            if a < v.delegates.len() && b < v.delegates.len() {
                                assert(v.delegates[a].0 != v.delegates[b].0);
                            } else if a < v.delegates.len() {
                                assert(v.delegates[a].0 != key);
                            } else {
                                assert(v.delegates[b].0 != key);
                            }
                        }
                    }
                    assert forall|y: int| 0 <= y < w.delegates.len() implies holds(
                        w.conns,
                        (#[trigger] w.delegates[y]).1,
                    ) && authoritative(w.conns[index_of(w.conns, w.delegates[y].1)]) && key_of(
                        w.conns[index_of(w.conns, w.delegates[y].1)],
                    ) == w.delegates[y].0 by {
                        if y < v.delegates.len() {
                            assert(holds(v.conns, v.delegates[y].1));
                            let e = index_of(v.conns, v.delegates[y].1);
                            assert(w.conns[e] == v.conns[e]);
                        }
                    }
                    assert forall|k: int|
                        0 <= k < w.conns.len() && authoritative(#[trigger] w.conns[k]) implies w.delegates.contains(
                        (key_of(w.conns[k]), w.conns[k].uid()),
                    ) by {
                        if k == i {
                            assert(w.delegates[w.delegates.len() - 1] == (key, uid));
                        } else {
                            assert(authoritative(v.conns[k]));
                            let e = (key_of(v.conns[k]), v.conns[k].uid());
                            let x = choose|x: int| 0 <= x < v.delegates.len() && v.delegates[x] == e;
                            assert(w.delegates[x] == e);
                        }
                    }
                }
            },
        }
    }
}

/// Where nothing is registered under a key, no entry has it.
pub proof fn lemma_no_entry(reg: Seq<Entry>, key: Delegate, x: int)
    requires
        registered_under(reg, key) is None,
        0 <= x < reg.len(),
    ensures
        reg[x].0 != key,
    decreases x,
{
    if reg[x].0 == key {
        if forall|k: int| 0 <= k < x ==> (#[trigger] reg[k]).0 != key {
            assert(crate::registry::first_entry_at(reg, key, x));
        } else {
            let k = choose|k: int| 0 <= k < x && (#[trigger] reg[k]).0 == key;
            lemma_no_entry(reg, key, k);
        }
    }
}

impl MonitorView {
    /// The connection of the given identity.
    pub open spec fn conn(self, uid: u64) -> ConnectionView {
        self.conns[index_of(self.conns, uid)]
    }

    /// The state after the RPC channel of the connection `uid` came up: a
    /// new epoch begins, what was known of the node is forgotten and the
    /// connection is no longer registered as a delegate.
    pub open spec fn connected(self, uid: u64, now: u64, ttl: u64) -> MonitorView {
        self.reset(uid, TransitionView::Connected { now, ttl })
    }

    /// The state after the RPC channel of the connection `uid` went down:
    /// the connection is offline and its buckets are due to be sorted.
    pub open spec fn disconnected(self, uid: u64) -> MonitorView {
        if holds(self.conns, uid) {
            self.moved(uid, TransitionView::Disconnected).scheduled(self.conn(uid).params)
        } else {
            self
        }
    }

    /// What a poll tick at `now` calls for, and the state after it. An
    /// epoch that outlived its time to live ends: what was known of the
    /// node is forgotten, and a connected connection is to reconnect.
    /// Otherwise a connected connection is to be refreshed.
    pub open spec fn polled(self, uid: u64, now: u64, ttl_enabled: bool) -> (MonitorView, PollAction) {
        if !holds(self.conns, uid) {
            (self, PollAction::Idle)
        } else if ttl_enabled && self.conn(uid).expired(now) {
            (
                self.reset(uid, TransitionView::Expired),
                if self.conn(uid).is_connected {
                    PollAction::Reconnect
                } else {
                    PollAction::Idle
                },
            )
        } else if self.conn(uid).is_connected {
            (self, PollAction::Refresh)
        } else {
            (self, PollAction::Idle)
        }
    }

    /// The state after the refresh that a poll tick called for: the
    /// connection is online if the refresh went well; if that is a change,
    /// its buckets are due to be sorted.
    pub open spec fn after_poll(self, uid: u64, ok: bool) -> MonitorView {
        if holds(self.conns, uid) {
            let w = self.moved(uid, TransitionView::Online(ok));
            if ok != self.conn(uid).is_online {
                w.scheduled(self.conn(uid).params)
            } else {
                w
            }
        } else {
            self
        }
    }

    /// The state after the refresh that followed a connect: the connection
    /// is online if the refresh went well, and its buckets are due to be
    /// sorted.
    pub open spec fn after_connect(self, uid: u64, ok: bool) -> MonitorView {
        if holds(self.conns, uid) {
            self.moved(uid, TransitionView::Online(ok)).scheduled(self.conn(uid).params)
        } else {
            self
        }
    }

    /// The first step of a refresh of the connection `uid`: a connection
    /// that defers to another only pings; one that knows nothing of its node
    /// asks for its capabilities; any other asks whether the node is synced.
    pub open spec fn first_step(self, uid: u64) -> StepView {
        if !holds(self.conns, uid) {
            StepView::Done(Some(ErrorView::Status))
        } else if !self.conn(uid).is_delegate() {
            StepView::Call(Request::Ping)
        } else if self.conn(uid).caps is None {
            StepView::Call(Request::GetCaps)
        } else {
            StepView::Call(Request::GetSync)
        }
    }

    /// The step that follows once the capabilities are dealt with.
    pub open spec fn step_after_caps(self, uid: u64) -> StepView {
        if !holds(self.conns, uid) {
            StepView::Done(Some(ErrorView::Status))
        } else if !self.conn(uid).is_delegate() {
            StepView::Call(Request::Ping)
        } else {
            StepView::Call(Request::GetSync)
        }
    }

    /// The state after a reply and the step that follows it.
    pub open spec fn after_reply(self, uid: u64, reply: ReplyView) -> (MonitorView, StepView) {
        match reply {
            ReplyView::Ping(_) => (self, StepView::Done(None)),
            ReplyView::Caps(None) => (self, StepView::Done(Some(ErrorView::Rpc))),
            ReplyView::Caps(Some(caps)) => (
                self.learned(uid, caps),
                self.learned(uid, caps).step_after_caps(uid),
            ),
            ReplyView::Sync(None) => (self, StepView::Done(Some(ErrorView::Status))),
            ReplyView::Sync(Some(synced)) => (
                self.moved(uid, TransitionView::Synced(synced)),
                if synced {
                    StepView::Call(Request::GetActiveConnections)
                } else {
                    StepView::Done(Some(ErrorView::Sync))
                },
            ),
            ReplyView::Metrics(None) => (self, StepView::Done(Some(ErrorView::Metrics))),
            ReplyView::Metrics(Some(counts)) => (
                self.moved(uid, TransitionView::Counts(counts)),
                StepView::Done(None),
            ),
        }
    }
}

impl Monitor {
    /// Applies to the connection `uid` a transition that leaves its
    /// knowledge of its node alone.
    fn shift(&mut self, uid: u64, t: Transition)
        requires
            old(self).wf(),
            keeps_caps(t@),
        ensures
            final(self)@ == old(self)@.moved(uid, t@),
            final(self).wf(),
    {
        proof {
            lemma_moved_wf(self@, uid, t@);
        }
        self.fleet.apply(uid, t);
    }

    /// Applies to the connection `uid` a transition by which it forgets
    /// what it knows of its node, and drops its registration.
    fn forget(&mut self, uid: u64, t: Transition)
        requires
            old(self).wf(),
            drops_caps(t@),
        ensures
            final(self)@ == old(self)@.reset(uid, t@),
            final(self).wf(),
    {
        proof {
            lemma_reset_wf(self@, uid, t@);
        }
        self.fleet.apply(uid, t);
        self.delegates = unregister(&self.delegates, uid);
    }

    /// Notes that the RPC channel of the connection `uid` came up at `now`,
    /// for an epoch that may last `ttl`.
    pub fn on_connect(&mut self, uid: u64, now: u64, ttl: u64)
        requires
            old(self).wf(),
        ensures
            final(self)@ == old(self)@.connected(uid, now, ttl),
            final(self).wf(),
    {
        self.forget(uid, Transition::Connected { now, ttl });
    }

    /// Notes that the RPC channel of the connection `uid` went down.
    pub fn on_disconnect(&mut self, uid: u64)
        requires
            old(self).wf(),
        ensures
            final(self)@ == old(self)@.disconnected(uid),
            final(self).wf(),
    {
        let params = match self.fleet.lookup(uid) {
            None => {
                return ;
            },
            Some(c) => c.params(),
        };
        proof {
            lemma_member_has_buckets(self@, uid);
        }
        self.shift(uid, Transition::Disconnected);
        proof {
            lemma_has_bucket_frame(old(self)@, self@, params);
            lemma_has_bucket_frame(old(self)@, self@, params.spec_to_tls(TlsKind::Any));
        }
        self.schedule_sort(&params);
    }

    /// Decides what the task of the connection `uid` does on a poll tick.
    pub fn on_poll(&mut self, uid: u64, now: u64, ttl_enabled: bool) -> (action: PollAction)
        requires
            old(self).wf(),
        ensures
            (final(self)@, action) == old(self)@.polled(uid, now, ttl_enabled),
            final(self).wf(),
    {
        let (expired, connected) = match self.fleet.lookup(uid) {
            None => {
                return PollAction::Idle;
            },
            Some(c) => (c.expired(now), c.is_connected()),
        };
        if ttl_enabled && expired {
            self.forget(uid, Transition::Expired);
            if connected {
                PollAction::Reconnect
            } else {
                PollAction::Idle
            }
        } else if connected {
            PollAction::Refresh
        } else {
            PollAction::Idle
        }
    }

    /// Notes how the refresh went that a poll tick called for. Tells
    /// whether the connection went online or offline by it.
    pub fn after_poll(&mut self, uid: u64, ok: bool) -> (toggled: bool)
        requires
            old(self).wf(),
        ensures
            final(self)@ == old(self)@.after_poll(uid, ok),
            toggled == (holds(old(self)@.conns, uid) && ok != old(self)@.conn(uid).is_online),
            final(self).wf(),
    {
        let (previous, params) = match self.fleet.lookup(uid) {
            None => {
                return false;
            },
            Some(c) => (c.is_online(), c.params()),
        };
        proof {
            lemma_member_has_buckets(self@, uid);
        }
        self.shift(uid, Transition::Online(ok));
        proof {
            lemma_has_bucket_frame(old(self)@, self@, params);
            lemma_has_bucket_frame(old(self)@, self@, params.spec_to_tls(TlsKind::Any));
        }
        if ok != previous {
            self.schedule_sort(&params);
            true
        } else {
            false
        }
    }

    /// Notes how the refresh went that followed a connect.
    pub fn after_connect(&mut self, uid: u64, ok: bool)
        requires
            old(self).wf(),
        ensures
            final(self)@ == old(self)@.after_connect(uid, ok),
            final(self).wf(),
    {
        let params = match self.fleet.lookup(uid) {
            None => {
                return ;
            },
            Some(c) => c.params(),
        };
        proof {
            lemma_member_has_buckets(self@, uid);
        }
        self.shift(uid, Transition::Online(ok));
        proof {
            lemma_has_bucket_frame(old(self)@, self@, params);
            lemma_has_bucket_frame(old(self)@, self@, params.spec_to_tls(TlsKind::Any));
        }
        self.schedule_sort(&params);
    }

    /// Begins a refresh of the state of the connection `uid`: tells which
    /// call is to be made first.
    pub fn update_state(&self, uid: u64) -> (step: Step)
        requires
            self.wf(),
        ensures
            step@ == self@.first_step(uid),
    {
        match self.fleet.lookup(uid) {
            None => Step::Done(Err(Error::Status)),
            Some(c) => {
                if !c.is_delegate() {
                    Step::Call(Request::Ping)
                } else if c.caps().is_none() {
                    Step::Call(Request::GetCaps)
                } else {
                    Step::Call(Request::GetSync)
                }
            },
        }
    }

    /// Stores the capabilities that the node of the connection `uid`
    /// reported, where the connection was due to learn them, and settles
    /// who speaks for the node.
    fn learn(&mut self, uid: u64, caps: Caps)
        requires
            old(self).wf(),
        ensures
            final(self)@ == old(self)@.learned(uid, caps@),
            final(self).wf(),
    {
        caps.attest();
        let ghost before = self@;
        let ghost cv = caps@;
        proof {
            lemma_learned_wf(before, uid, cv);
        }
        let key = match self.fleet.lookup(uid) {
            None => {
                return ;
            },
            Some(c) => {
                if !c.is_delegate() || c.caps().is_some() {
                    return ;
                }
                Delegate::new(caps.system_id(), c.network_id())
            },
        };
        self.fleet.apply(uid, Transition::Caps(caps));
        match find_registered(&self.delegates, &key) {
            Some(d) => {
                self.fleet.bind(uid, Some(d));
            },
            None => {
                self.delegates.push((key, uid));
            },
        }
    }

    /// Takes the reply to the call that the last step of a refresh of the
    /// connection `uid` asked for, and tells how the refresh goes on.
    ///
    /// A failed call ends the refresh with an error: `Rpc` for the
    /// capabilities, `Status` for the sync state, `Metrics` for the counts.
    /// A node that is not synced ends it with `Sync`.
    pub fn update_state_reply(&mut self, uid: u64, reply: Reply) -> (step: Step)
        requires
            old(self).wf(),
        ensures
            (final(self)@, step@) == old(self)@.after_reply(uid, reply@),
            final(self).wf(),
    {
        match reply {
            Reply::Ping(_) => Step::Done(Ok(())),
            Reply::Caps(None) => Step::Done(Err(Error::Rpc)),
            Reply::Caps(Some(caps)) => {
                self.learn(uid, caps);
                match self.fleet.lookup(uid) {
                    None => Step::Done(Err(Error::Status)),
                    Some(c) => {
                        if !c.is_delegate() {
                            Step::Call(Request::Ping)
                        } else {
                            Step::Call(Request::GetSync)
                        }
                    },
                }
            },
            Reply::Sync(None) => Step::Done(Err(Error::Status)),
            Reply::Sync(Some(synced)) => {
                self.shift(uid, Transition::Synced(synced));
                if synced {
                    Step::Call(Request::GetActiveConnections)
                } else {
                    Step::Done(Err(Error::Sync))
                }
            },
            Reply::Metrics(None) => Step::Done(Err(Error::Metrics)),
            Reply::Metrics(Some(counts)) => {
                self.shift(uid, Transition::Counts(counts));
                Step::Done(Ok(()))
            },
        }
    }
}

impl MonitorView {
    /// The state after the link of the connection `uid` was set to
    /// `target`, where that may be: the connection forgets what it knows of
    /// its node and is no longer registered as a delegate.
    pub open spec fn rebound(self, uid: u64, target: Option<u64>) -> MonitorView {
        if can_bind(self.conns, uid, target) {
            MonitorView {
                conns: with_transition(
                    with_link(self.conns, uid, target),
                    uid,
                    TransitionView::ClearCaps,
                ),
                delegates: unregistered(self.delegates, uid),
                ..self
            }
        } else {
            self
        }
    }

}

/// Setting the link of a connection and letting it forget its node keeps
/// the state of a monitor consistent.
pub proof fn lemma_rebound_wf(v: MonitorView, uid: u64, target: Option<u64>)
    requires
        v.wf(),
    ensures
        v.rebound(uid, target).wf(),
{
    if can_bind(v.conns, uid, target) {
        let w = v.rebound(uid, target);
        let a = with_link(v.conns, uid, target);
        lemma_fleet_link(v.conns, uid, target);
        lemma_fleet_transition(a, uid, TransitionView::ClearCaps);
        lemma_unregistered(v.delegates, uid);
        let i = index_of(v.conns, uid);
        lemma_at(v.conns, i);
        assert(same_members(v.conns, w.conns)) by {
            assert forall|k: int| 0 <= k < v.conns.len() implies (#[trigger] v.conns[k]).node
                == w.conns[k].node && v.conns[k].params == w.conns[k].params by {}
        }
        lemma_buckets_kept(v, w);
        lemma_same_members(v.conns, w.conns);
        assert(w.registry_wf()) by {
            assert forall|x: int| 0 <= x < w.delegates.len() implies holds(
                w.conns,
                (#[trigger] w.delegates[x]).1,
            ) && authoritative(w.conns[index_of(w.conns, w.delegates[x].1)]) && key_of(
                w.conns[index_of(w.conns, w.delegates[x].1)],
            ) == w.delegates[x].0 by {
                let e = w.delegates[x];
                assert(w.delegates.contains(e));
                assert(v.delegates.contains(e));
                let x0 = choose|x0: int| 0 <= x0 < v.delegates.len() && v.delegates[x0] == e;
                assert(holds(v.conns, v.delegates[x0].1));
                let j = index_of(v.conns, e.1);
                assert(w.conns[j] == v.conns[j]);
            }
            assert forall|k: int|
                0 <= k < w.conns.len() && authoritative(#[trigger] w.conns[k]) implies w.delegates.contains(
                (key_of(w.conns[k]), w.conns[k].uid()),
            ) by {
                assert(k != i);
                assert(w.conns[k] == v.conns[k]);
                lemma_at(v.conns, k);
                assert(authoritative(v.conns[k]));
                assert(v.delegates.contains((key_of(v.conns[k]), v.conns[k].uid())));
            }
        }
    }
}

impl Monitor {
    /// Sets the link of the connection `uid`: it defers to `target`, or to
    /// nobody. The connection forgets what it knows of its node and is no
    /// longer registered as a delegate, so that who speaks for its node is
    /// settled anew. A link that would close a cycle, or that names a
    /// connection the monitor does not hold, is refused.
    pub fn bind_delegate(&mut self, uid: u64, target: Option<u64>) -> (done: bool)
        requires
            old(self).wf(),
        ensures
            done == can_bind(old(self)@.conns, uid, target),
            final(self)@ == old(self)@.rebound(uid, target),
            final(self).wf(),
    {
        proof {
            lemma_rebound_wf(self@, uid, target);
        }
        let done = self.fleet.bind(uid, target);
        if done {
            self.fleet.apply(uid, Transition::ClearCaps);
            self.delegates = unregister(&self.delegates, uid);
        }
        done
    }

}

/// Whether the connection at `j` is the one that others to the same
/// physical node defer to: it speaks `wrpc-borsh` to the physical node that
/// the connection at `i` reaches.
pub open spec fn leads(conns: Seq<ConnectionView>, i: int, j: int) -> bool {
    conns[j].node.transport_kind == TransportKind::WrpcBorsh && conns[j].node.network_node_uid
        == conns[i].node.network_node_uid
}

/// Whether `j` is the position of the first connection that leads the
/// connection at `i`.
pub open spec fn leader_at(conns: Seq<ConnectionView>, i: int, j: int) -> bool {
    &&& 0 <= j < conns.len()
    &&& leads(conns, i, j)
    &&& forall|k: int| 0 <= k < j ==> !#[trigger] leads(conns, i, k)
}

/// Whether the connection at `i` is to defer to a connection of another
/// transport to the same physical node: it does not speak `wrpc-borsh`
/// itself, and a connection that does is there.
pub open spec fn follows(conns: Seq<ConnectionView>, i: int) -> bool {
    conns[i].node.transport_kind != TransportKind::WrpcBorsh && exists|j: int| leader_at(conns, i, j)
}

/// The position of the connection that the connection at `i` is to defer
/// to.
pub open spec fn leader_of(conns: Seq<ConnectionView>, i: int) -> int {
    choose|j: int| leader_at(conns, i, j)
}

/// The connections among the first `n` that are to defer to a connection of
/// another transport, each with the identity of that connection, in the
/// order of the fleet.
pub open spec fn pairs_upto(conns: Seq<ConnectionView>, n: int) -> Seq<(u64, u64)>
    decreases n,
{
    if n <= 0 {
        Seq::empty()
    } else if follows(conns, n - 1) {
        pairs_upto(conns, n - 1).push((conns[n - 1].uid(), conns[leader_of(conns, n - 1)].uid()))
    } else {
        pairs_upto(conns, n - 1)
    }
}

/// All connections that are to defer to a connection of another transport.
pub open spec fn pairs_of(conns: Seq<ConnectionView>) -> Seq<(u64, u64)> {
    pairs_upto(conns, conns.len() as int)
}

impl MonitorView {
    /// The state after each of the given connections was made to defer to
    /// nobody, one after the other.
    pub open spec fn released_all(self, pairs: Seq<(u64, u64)>) -> MonitorView
        decreases pairs.len(),
    {
        if pairs.len() == 0 {
            self
        } else {
            self.released_all(pairs.drop_last()).rebound(pairs.last().0, None)
        }
    }

    /// The state after each of the given connections was made to defer to
    /// the connection named with it, one after the other, where that may be.
    pub open spec fn bound_all(self, pairs: Seq<(u64, u64)>) -> MonitorView
        decreases pairs.len(),
    {
        if pairs.len() == 0 {
            self
        } else {
            self.bound_all(pairs.drop_last()).rebound(pairs.last().0, Some(pairs.last().1))
        }
    }

    /// The state after the connections to one physical node were bound
    /// across transports: every connection that does not speak `wrpc-borsh`
    /// but has a `wrpc-borsh` connection to the same physical node beside it
    /// is first released from whomever it deferred to, and then defers to
    /// the first such connection, unless that would close a cycle.
    pub open spec fn cross_bound(self) -> MonitorView {
        self.released_all(pairs_of(self.conns)).bound_all(pairs_of(self.conns))
    }
}

/// Releasing connections one after the other keeps the state of a monitor
/// consistent.
pub proof fn lemma_released_all_wf(v: MonitorView, pairs: Seq<(u64, u64)>)
    requires
        v.wf(),
    ensures
        v.released_all(pairs).wf(),
    decreases pairs.len(),
{
    if pairs.len() > 0 {
        lemma_released_all_wf(v, pairs.drop_last());
        lemma_rebound_wf(v.released_all(pairs.drop_last()), pairs.last().0, None);
    }
}

/// Binding connections one after the other keeps the state of a monitor
/// consistent.
pub proof fn lemma_bound_all_wf(v: MonitorView, pairs: Seq<(u64, u64)>)
    requires
        v.wf(),
    ensures
        v.bound_all(pairs).wf(),
    decreases pairs.len(),
{
    if pairs.len() > 0 {
        lemma_bound_all_wf(v, pairs.drop_last());
        lemma_rebound_wf(v.bound_all(pairs.drop_last()), pairs.last().0, Some(pairs.last().1));
    }
}

impl Monitor {
    /// Lists the connections that are to defer to a connection of another
    /// transport to the same physical node, each with the identity of that
    /// connection.
    pub fn followers(&self) -> (pairs: Vec<(u64, u64)>)
        ensures
            pairs@ == pairs_of(self@.conns),
    {
        let n = self.fleet.len();
        let mut out: Vec<(u64, u64)> = Vec::new();
        let mut i: usize = 0;
        while i < n
            invariant
                i <= n,
                n == self@.conns.len(),
                out@ == pairs_upto(self@.conns, i as int),
            decreases n - i,
        {
            let c = self.fleet.get(i);
            let mut leader: Option<u64> = None;
            match c.node().transport_kind() {
                TransportKind::WrpcBorsh => {},
                _ => {
                    let physical = c.node().network_node_uid();
                    let mut j: usize = 0;
                    while j < n && leader.is_none()
                        invariant
                            j <= n,
                            i < n,
                            n == self@.conns.len(),
                            physical == self@.conns[i as int].node.network_node_uid,
                            forall|k: int|
                                0 <= k < j && leader is None ==> !#[trigger] leads(
                                    self@.conns,
                                    i as int,
                                    k,
                                ),
                            leader matches Some(uid) ==> exists|x: int|
                                leader_at(self@.conns, i as int, x) && self@.conns[x].uid() == uid,
                        decreases n - j + (if leader is None { 1int } else { 0int }),
                    {
                        let d = self.fleet.get(j);
                        let is_borsh = match d.node().transport_kind() {
                            TransportKind::WrpcBorsh => true,
                            _ => false,
                        };
                        if is_borsh && d.node().network_node_uid() == physical {
                            proof {
                                assert(leader_at(self@.conns, i as int, j as int));
                            }
                            leader = Some(d.uid());
                        } else {
                            j += 1;
                        }
                    }
                },
            }
            proof {
                let conns = self@.conns;
                match leader {
                    Some(uid) => {
                        let x = choose|x: int| leader_at(conns, i as int, x) && conns[x].uid() == uid;
                        let y = leader_of(conns, i as int);
                        assert(leader_at(conns, i as int, y));
                        if x < y {
                            assert(!leads(conns, i as int, x));
                        }
                        if y < x {
                            assert(!leads(conns, i as int, y));
                        }
                        assert(follows(conns, i as int));
                    },
                    None => {
                        if exists|x: int| leader_at(conns, i as int, x) {
                            let x = choose|x: int| leader_at(conns, i as int, x);
                            assert(leads(conns, i as int, x));
                            assert(conns[i as int].node.transport_kind == TransportKind::WrpcBorsh);
                        }
                    },
                }
            }
            match leader {
                Some(uid) => {
                    out.push((c.uid(), uid));
                },
                None => {},
            }
            i += 1;
        }
        out
    }

    /// Binds the connections to one physical node across transports: the
    /// `wrpc-borsh` connection does the probing, and the connections of
    /// other transports to the same physical node defer to it.
    pub fn cross_bind(&mut self)
        requires
            old(self).wf(),
        ensures
            final(self)@ == old(self)@.cross_bound(),
            final(self)@.service == old(self)@.service,
            final(self)@.verbose == old(self)@.verbose,
            final(self).wf(),
    {
        let ghost before = self@;
        let pairs = self.followers();
        let mut k: usize = 0;
        proof {
            assert(pairs@.subrange(0, 0) =~= Seq::<(u64, u64)>::empty());
        }
        while k < pairs.len()
            invariant
                k <= pairs.len(),
                before.wf(),
                self.wf(),
                self@.service == before.service,
                self@.verbose == before.verbose,
                self@ == before.released_all(pairs@.subrange(0, k as int)),
            decreases pairs.len() - k,
        {
            proof {
                assert(pairs@.subrange(0, k as int + 1).drop_last() =~= pairs@.subrange(0, k as int));
            }
            self.bind_delegate(pairs[k].0, None);
            k += 1;
        }
        proof {
            assert(pairs@.subrange(0, pairs.len() as int) =~= pairs@);
            assert(pairs@.subrange(0, 0) =~= Seq::<(u64, u64)>::empty());
        }
        let ghost middle = self@;
        let mut k: usize = 0;
        while k < pairs.len()
            invariant
                k <= pairs.len(),
                self.wf(),
                self@.service == before.service,
                self@.verbose == before.verbose,
                self@ == middle.bound_all(pairs@.subrange(0, k as int)),
            decreases pairs.len() - k,
        {
            proof {
                assert(pairs@.subrange(0, k as int + 1).drop_last() =~= pairs@.subrange(0, k as int));
            }
            self.bind_delegate(pairs[k].0, Some(pairs[k].1));
            k += 1;
        }
        proof {
            assert(pairs@.subrange(0, pairs.len() as int) =~= pairs@);
        }
    }
}

/// The descriptors of a list that belong to a service, in the order of the
/// list.
pub open spec fn claimed(list: Seq<NodeView>, service: Service) -> Seq<NodeView>
    decreases list.len(),
{
    if list.len() == 0 {
        Seq::empty()
    } else if list.last().service == service {
        claimed(list.drop_last(), service).push(list.last())
    } else {
        claimed(list.drop_last(), service)
    }
}

/// The descriptors of a list that do not belong to a service, in the order
/// of the list.
pub open spec fn unclaimed(list: Seq<NodeView>, service: Service) -> Seq<NodeView>
    decreases list.len(),
{
    if list.len() == 0 {
        Seq::empty()
    } else if list.last().service == service {
        unclaimed(list.drop_last(), service)
    } else {
        unclaimed(list.drop_last(), service).push(list.last())
    }
}

/// Whether a descriptor has a connection: one with its identity and its
/// path.
pub open spec fn has_connection(conns: Seq<ConnectionView>, node: NodeView) -> bool {
    exists|i: int|
        0 <= i < conns.len() && (#[trigger] conns[i]).uid() == node.uid && conns[i].params
            == node.params
}

/// A descriptor is among those of a service in a list exactly when it is in
/// the list and belongs to the service.
pub proof fn lemma_claimed_member(list: Seq<NodeView>, service: Service, n: NodeView)
    ensures
        claimed(list, service).contains(n) == (list.contains(n) && n.service == service),
    decreases list.len(),
{
    if list.len() > 0 {
        let head = list.drop_last();
        let last = list.last();
        lemma_claimed_member(head, service, n);
        let c = claimed(list, service);
        let h = claimed(head, service);
        if list.contains(n) {
            let i = choose|i: int| 0 <= i < list.len() && list[i] == n;
            if i < head.len() {
                assert(head[i] == n);
            }
        }
        if head.contains(n) {
            let i = choose|i: int| 0 <= i < head.len() && head[i] == n;
            assert(list[i] == n);
        }
        if h.contains(n) {
            let i = choose|i: int| 0 <= i < h.len() && h[i] == n;
            assert(c[i] == n);
        }
        if c.contains(n) {
            let i = choose|i: int| 0 <= i < c.len() && c[i] == n;
            if i < h.len() {
                assert(h[i] == n);
            } else {
                assert(n == last);
                assert(list[list.len() - 1] == n);
            }
        }
        if n == last && last.service == service {
            assert(c[c.len() - 1] == n);
            assert(list[list.len() - 1] == n);
        }
    }
}

/// A descriptor is among those left over by a service exactly when it is in
/// the list and does not belong to the service.
pub proof fn lemma_unclaimed_member(list: Seq<NodeView>, service: Service, n: NodeView)
    ensures
        unclaimed(list, service).contains(n) == (list.contains(n) && n.service != service),
    decreases list.len(),
{
    if list.len() > 0 {
        let head = list.drop_last();
        let last = list.last();
        lemma_unclaimed_member(head, service, n);
        let c = unclaimed(list, service);
        let h = unclaimed(head, service);
        if list.contains(n) {
            let i = choose|i: int| 0 <= i < list.len() && list[i] == n;
            if i < head.len() {
                assert(head[i] == n);
            }
        }
        if head.contains(n) {
            let i = choose|i: int| 0 <= i < head.len() && head[i] == n;
            assert(list[i] == n);
        }
        if h.contains(n) {
            let i = choose|i: int| 0 <= i < h.len() && h[i] == n;
            assert(c[i] == n);
        }
        if c.contains(n) {
            let i = choose|i: int| 0 <= i < c.len() && c[i] == n;
            if i < h.len() {
                assert(h[i] == n);
            } else {
                assert(n == last);
                assert(list[list.len() - 1] == n);
            }
        }
        if n == last && last.service != service {
            assert(c[c.len() - 1] == n);
            assert(list[list.len() - 1] == n);
        }
    }
}

/// A list that asks for a connection that cannot be made still does so
/// once another service has taken its descriptors out, and the other way
/// round.
pub proof fn lemma_refuses_unclaimed(v: MonitorView, list: Seq<NodeView>, service: Service)
    requires
        service != v.service,
    ensures
        v.refuses(unclaimed(list, service)) == v.refuses(list),
{
    let rest = unclaimed(list, service);
    if v.refuses(rest) {
        let k = choose|k: int| v.refused_at(rest, k);
        assert(rest.contains(rest[k]));
        lemma_unclaimed_member(list, service, rest[k]);
        let j = choose|j: int| 0 <= j < list.len() && list[j] == rest[k];
        assert(v.refused_at(list, j));
    }
    if v.refuses(list) {
        let k = choose|k: int| v.refused_at(list, k);
        assert(list.contains(list[k]));
        lemma_unclaimed_member(list, service, list[k]);
        let j = choose|j: int| 0 <= j < rest.len() && rest[j] == list[k];
        assert(v.refused_at(rest, j));
    }
}

/// Whether a connection is still wanted: one of the descriptors has its
/// identity and its path.
pub open spec fn wanted(c: ConnectionView, nodes: Seq<NodeView>) -> bool {
    exists|k: int|
        0 <= k < nodes.len() && (#[trigger] nodes[k]).uid == c.uid() && nodes[k].params == c.params
}

/// The identities of the connections among the first `n` that are not
/// wanted any more, in the order of the fleet.
pub open spec fn unwanted_upto(conns: Seq<ConnectionView>, nodes: Seq<NodeView>, n: int) -> Seq<u64>
    decreases n,
{
    if n <= 0 {
        Seq::empty()
    } else if wanted(conns[n - 1], nodes) {
        unwanted_upto(conns, nodes, n - 1)
    } else {
        unwanted_upto(conns, nodes, n - 1).push(conns[n - 1].uid())
    }
}

/// The identities of all connections that are not wanted any more.
pub open spec fn unwanted(conns: Seq<ConnectionView>, nodes: Seq<NodeView>) -> Seq<u64> {
    unwanted_upto(conns, nodes, conns.len() as int)
}

impl MonitorView {
    /// The state after the given connections were taken out, one after the
    /// other.
    pub open spec fn removed_all(self, uids: Seq<u64>) -> MonitorView
        decreases uids.len(),
    {
        if uids.len() == 0 {
            self
        } else {
            self.removed_all(uids.drop_last()).without(uids.last())
        }
    }

    /// The state after a connection was made for each of the given nodes
    /// that may join, one after the other.
    pub open spec fn enlisted_all(self, nodes: Seq<NodeView>) -> MonitorView
        decreases nodes.len(),
    {
        if nodes.len() == 0 {
            self
        } else {
            self.enlisted_all(nodes.drop_last()).enlisted(nodes.last())
        }
    }

    /// The identities of the connections made by `enlisted_all`, in the
    /// order in which they were made.
    pub open spec fn started_by(self, nodes: Seq<NodeView>) -> Seq<u64>
        decreases nodes.len(),
    {
        if nodes.len() == 0 {
            Seq::empty()
        } else if self.enlisted_all(nodes.drop_last()).accepts(nodes.last()) {
            self.started_by(nodes.drop_last()).push(nodes.last().uid)
        } else {
            self.started_by(nodes.drop_last())
        }
    }

    /// The connections that a new list of descriptors puts an end to.
    pub open spec fn stopped_by(self, list: Seq<NodeView>) -> Seq<u64> {
        unwanted(self.conns, claimed(list, self.service))
    }

    /// The state once the connections that a new list of descriptors puts
    /// an end to are gone.
    pub open spec fn pruned(self, list: Seq<NodeView>) -> MonitorView {
        self.removed_all(self.stopped_by(list))
    }

    /// Whether the descriptor at `k` of a list belongs to this service and to
    /// a path of concrete TLS kind, has no connection yet, and is one that no
    /// connection can be made for.
    pub open spec fn refused_at(self, list: Seq<NodeView>, k: int) -> bool {
        &&& 0 <= k < list.len()
        &&& list[k].service == self.service
        &&& strict_params().contains(list[k].params)
        &&& !has_connection(self.conns, list[k])
        &&& !connectable(list[k].transport_kind)
    }

    /// Whether a list of descriptors asks for a connection that cannot be
    /// made.
    pub open spec fn refuses(self, list: Seq<NodeView>) -> bool {
        exists|k: int| self.refused_at(list, k)
    }

    /// The state after the fleet was reconciled with a new list of
    /// descriptors: of the descriptors of this service, those that a
    /// connection exists for keep their connection untouched; connections
    /// without a descriptor are taken out; descriptors without a connection
    /// get one, in the order of the list; and at last the connections to
    /// one physical node are bound across transports.
    pub open spec fn updated(self, list: Seq<NodeView>) -> MonitorView {
        self.pruned(list).enlisted_all(claimed(list, self.service)).cross_bound()
    }
}

/// Taking connections out one after the other keeps the state of a monitor
/// consistent.
pub proof fn lemma_removed_all_wf(v: MonitorView, uids: Seq<u64>)
    requires
        v.wf(),
    ensures
        v.removed_all(uids).wf(),
    decreases uids.len(),
{
    if uids.len() > 0 {
        lemma_removed_all_wf(v, uids.drop_last());
        lemma_without_wf(v.removed_all(uids.drop_last()), uids.last());
    }
}

/// Letting connections join one after the other keeps the state of a
/// monitor consistent.
pub proof fn lemma_enlisted_all_wf(v: MonitorView, nodes: Seq<NodeView>)
    requires
        v.wf(),
    ensures
        v.enlisted_all(nodes).wf(),
    decreases nodes.len(),
{
    if nodes.len() > 0 {
        lemma_enlisted_all_wf(v, nodes.drop_last());
        lemma_enlisted_wf(v.enlisted_all(nodes.drop_last()), nodes.last());
    }
}

/// Reconciling the fleet with a list of descriptors keeps the state of a
/// monitor consistent.
pub proof fn lemma_updated_wf(v: MonitorView, list: Seq<NodeView>)
    requires
        v.wf(),
    ensures
        v.updated(list).wf(),
{
    let mine = claimed(list, v.service);
    lemma_removed_all_wf(v, v.stopped_by(list));
    lemma_enlisted_all_wf(v.pruned(list), mine);
    let w = v.pruned(list).enlisted_all(mine);
    lemma_released_all_wf(w, pairs_of(w.conns));
    lemma_bound_all_wf(w.released_all(pairs_of(w.conns)), pairs_of(w.conns));
}

/// What a reconciliation of the fleet asks of whoever runs the connections.
#[derive(Debug)]
pub struct Delta {
    /// The identities of the connections that were made and are to be
    /// started.
    pub started: Vec<u64>,
    /// The identities of the connections that were taken out and are to be
    /// stopped.
    pub stopped: Vec<u64>,
}

/// Takes the descriptors of a service out of a list; the others stay, in
/// their order.
pub fn claim(global_node_list: &mut Vec<Node>, service: Service) -> (mine: Vec<Node>)
    ensures
        node_views(mine@) == claimed(node_views(old(global_node_list)@), service),
        node_views(final(global_node_list)@) == unclaimed(
            node_views(old(global_node_list)@),
            service,
        ),
{
    let ghost all = node_views(global_node_list@);
    let mut mine: Vec<Node> = Vec::new();
    let mut rest: Vec<Node> = Vec::new();
    let mut k: usize = 0;
    let n = global_node_list.len();
    proof {
        assert(all.subrange(0, 0) =~= Seq::<NodeView>::empty());
        assert(node_views(mine@) =~= Seq::<NodeView>::empty());
        assert(node_views(rest@) =~= Seq::<NodeView>::empty());
    }
    while k < n
        invariant
            k <= n,
            n == all.len(),
            global_node_list@.len() == n - k,
            forall|i: int| 0 <= i < n - k ==> (#[trigger] global_node_list@[i])@ == all[k + i],
            node_views(mine@) == claimed(all.subrange(0, k as int), service),
            node_views(rest@) == unclaimed(all.subrange(0, k as int), service),
        decreases n - k,
    {
        let ghost before_list = global_node_list@;
        let ghost mine_before = node_views(mine@);
        let ghost rest_before = node_views(rest@);
        let node = global_node_list.remove(0);
        proof {
            assert(node@ == all[k as int]);
            assert(all.subrange(0, k as int + 1).drop_last() =~= all.subrange(0, k as int));
            assert(all.subrange(0, k as int + 1).last() == all[k as int]);
            assert forall|i: int| 0 <= i < n - k - 1 implies (#[trigger] global_node_list@[i])@
                == all[k + 1 + i] by {
                assert(global_node_list@[i] == before_list[i + 1]);
            }
        }
        if node.service() == service {
            mine.push(node);
            proof {
                assert(node_views(mine@) =~= mine_before.push(all[k as int]));
            }
        } else {
            rest.push(node);
            proof {
                assert(node_views(rest@) =~= rest_before.push(all[k as int]));
            }
        }
        k += 1;
    }
    proof {
        assert(all.subrange(0, n as int) =~= all);
    }
    *global_node_list = rest;
    mine
}

impl Monitor {
    /// Lists the connections that none of the given descriptors asks for.
    fn find_unwanted(&self, nodes: &Vec<Node>) -> (uids: Vec<u64>)
        ensures
            uids@ == unwanted(self@.conns, node_views(nodes@)),
    {
        let n = self.fleet.len();
        let ghost views = node_views(nodes@);
        let mut out: Vec<u64> = Vec::new();
        let mut i: usize = 0;
        while i < n
            invariant
                i <= n,
                n == self@.conns.len(),
                views == node_views(nodes@),
                out@ == unwanted_upto(self@.conns, views, i as int),
            decreases n - i,
        {
            let c = self.fleet.get(i);
            let mut found = false;
            let mut k: usize = 0;
            while k < nodes.len() && !found
                invariant
                    k <= nodes.len(),
                    i < n,
                    views == node_views(nodes@),
                    c@ == self@.conns[i as int],
                    !found ==> forall|x: int|
                        0 <= x < k ==> !((#[trigger] views[x]).uid == c@.uid() && views[x].params
                            == c@.params),
                    found ==> wanted(c@, views),
                decreases nodes.len() - k + (if found { 0int } else { 1int }),
            {
                if nodes[k].uid() == c.uid() && *nodes[k].params() == c.params() {
                    proof {
                        assert(views[k as int] == nodes@[k as int]@);
                    }
                    found = true;
                } else {
                    proof {
                        assert(views[k as int] == nodes@[k as int]@);
                    }
                    k += 1;
                }
            }
            if !found {
                out.push(c.uid());
            }
            i += 1;
        }
        out
    }

    /// Tells whether a list of descriptors asks for a connection that cannot
    /// be made: a descriptor of this service on a path of concrete TLS kind
    /// that has no connection yet and over whose transport none can be
    /// made.
    pub fn refuses(&self, list: &Vec<Node>) -> (b: bool)
        ensures
            b == self@.refuses(node_views(list@)),
    {
        let ghost views = node_views(list@);
        let mut k: usize = 0;
        while k < list.len()
            invariant
                k <= list.len(),
                views == node_views(list@),
                forall|j: int| 0 <= j < k ==> !self@.refused_at(views, j),
            decreases list.len() - k,
        {
            let node = &list[k];
            proof {
                assert(views[k as int] == list@[k as int]@);
            }
            let grpc = match node.transport_kind() {
                TransportKind::Grpc => true,
                _ => false,
            };
            if grpc && node.service() == self.service && self.is_strict_path(node.params()) {
                let n = self.fleet.len();
                let mut found = false;
                let mut i: usize = 0;
                while i < n && !found
                    invariant
                        i <= n,
                        n == self@.conns.len(),
                        node@ == views[k as int],
                        !found ==> forall|x: int|
                            0 <= x < i ==> !((#[trigger] self@.conns[x]).uid() == node@.uid
                                && self@.conns[x].params == node@.params),
                        found ==> has_connection(self@.conns, node@),
                    decreases n - i + (if found { 0int } else { 1int }),
                {
                    let c = self.fleet.get(i);
                    if c.uid() == node.uid() && c.params() == *node.params() {
                        found = true;
                    } else {
                        i += 1;
                    }
                }
                if !found {
                    proof {
                        assert(self@.refused_at(views, k as int));
                    }
                    return true;
                }
            }
            k += 1;
        }
        false
    }

    /// Reconciles the fleet with a new list of descriptors. The descriptors
    /// of the service of this monitor are taken out of the list; those that
    /// stay in it belong to other services.
    ///
    /// If one of the descriptors asks for a connection that cannot be made,
    /// that is an error and the monitor stays as it is. Otherwise a
    /// connection whose identity and path one of the descriptors has stays
    /// untouched; other connections are taken out; each descriptor that has
    /// no connection and may join gets one. Then the connections to one
    /// physical node are bound across transports. The result tells which
    /// connections are to be started and which to be stopped.
    pub fn update_nodes(&mut self, global_node_list: &mut Vec<Node>) -> (r: Result<Delta, Error>)
        requires
            old(self).wf(),
        ensures
            final(self).wf(),
            final(self)@.service == old(self)@.service,
            final(self)@.verbose == old(self)@.verbose,
            node_views(final(global_node_list)@) == unclaimed(
                node_views(old(global_node_list)@),
                old(self)@.service,
            ),
            old(self)@.refuses(node_views(old(global_node_list)@)) ==> (r matches Err(e) && e@
                == ErrorView::ConnectionProtocolEncoding) && final(self)@ == old(self)@,
            !old(self)@.refuses(node_views(old(global_node_list)@)) ==> (r matches Ok(delta) && {
                &&& final(self)@ == old(self)@.updated(node_views(old(global_node_list)@))
                &&& delta.stopped@ == old(self)@.stopped_by(node_views(old(global_node_list)@))
                &&& delta.started@ == old(self)@.pruned(
                    node_views(old(global_node_list)@),
                ).started_by(claimed(node_views(old(global_node_list)@), old(self)@.service))
            }),
    {
        let refused = self.refuses(global_node_list);
        let ghost before = self@;
        let ghost list = node_views(global_node_list@);
        let mut nodes = claim(global_node_list, self.service);
        if refused {
            return Err(Error::ConnectionProtocolEncoding);
        }
        let ghost mine = node_views(nodes@);
        let stopped = self.find_unwanted(&nodes);
        let mut k: usize = 0;
        proof {
            assert(stopped@.subrange(0, 0) =~= Seq::<u64>::empty());
        }
        while k < stopped.len()
            invariant
                k <= stopped.len(),
                self.wf(),
                self@.service == before.service,
                self@.verbose == before.verbose,
                self@ == before.removed_all(stopped@.subrange(0, k as int)),
            decreases stopped.len() - k,
        {
            proof {
                assert(stopped@.subrange(0, k as int + 1).drop_last() =~= stopped@.subrange(
                    0,
                    k as int,
                ));
            }
            self.remove(stopped[k]);
            k += 1;
        }
        proof {
            assert(stopped@.subrange(0, stopped.len() as int) =~= stopped@);
            assert(mine.subrange(0, 0) =~= Seq::<NodeView>::empty());
        }
        let ghost pruned = self@;
        let mut started: Vec<u64> = Vec::new();
        let n = nodes.len();
        let mut k: usize = 0;
        proof {
            assert(pruned == before.pruned(list));
        }
        while k < n
            invariant
                k <= n,
                n == mine.len(),
                before.wf(),
                mine == claimed(list, before.service),
                pruned == before.pruned(list),
                !before.refuses(list),
                self.wf(),
                self@.service == before.service,
                self@.verbose == before.verbose,
                nodes@.len() == n - k,
                forall|i: int| 0 <= i < n - k ==> (#[trigger] nodes@[i])@ == mine[k + i],
                self@ == pruned.enlisted_all(mine.subrange(0, k as int)),
                started@ == pruned.started_by(mine.subrange(0, k as int)),
            decreases n - k,
        {
            let ghost before_list = nodes@;
            let node = nodes.remove(0);
            let uid = node.uid();
            proof {
                assert(node@ == mine[k as int]);
                assert(mine.subrange(0, k as int + 1).drop_last() =~= mine.subrange(0, k as int));
                assert(mine.subrange(0, k as int + 1).last() == mine[k as int]);
                assert forall|i: int| 0 <= i < n - k - 1 implies (#[trigger] nodes@[i])@ == mine[k
                    + 1 + i] by {
                    assert(nodes@[i] == before_list[i + 1]);
                }
            }
            proof {
                if self@.turns_down(node@) {
                    crate::reconcile::lemma_accepted_is_new(before, list, k as int);
                    let j = choose|j: int| 0 <= j < list.len() && list[j] == mine[k as int];
                    assert(before.refused_at(list, j));
                }
            }
            match self.enlist(node) {
                Ok(true) => {
                    started.push(uid);
                },
                Ok(false) => {},
                Err(e) => {
                    return Err(e);
                },
            }
            k += 1;
        }
        proof {
            assert(mine.subrange(0, n as int) =~= mine);
        }
        self.cross_bind();
        Ok(Delta { started, stopped })
    }
}

impl MonitorView {
    /// The identities listed in the buckets of concrete TLS kind among the
    /// first `n` buckets, bucket after bucket.
    pub open spec fn listing_upto(self, n: int) -> Seq<u64>
        decreases n,
    {
        if n <= 0 {
            Seq::empty()
        } else if self.buckets[n - 1].params.spec_is_tls_strict() {
            self.listing_upto(n - 1) + self.buckets[n - 1].list
        } else {
            self.listing_upto(n - 1)
        }
    }

    /// The identities of all connections as the buckets of concrete TLS
    /// kind list them, bucket after bucket.
    pub open spec fn listing(self) -> Seq<u64> {
        self.listing_upto(self.buckets.len() as int)
    }
}

impl Monitor {
    /// Lists the connections of the bucket at a position, in selection
    /// order.
    fn bucket_connections(&self, b: usize) -> (list: Vec<&Connection>)
        requires
            self.wf(),
            b < self@.buckets.len(),
        ensures
            list@.len() == self@.buckets[b as int].list.len(),
            forall|k: int|
                0 <= k < list@.len() ==> (#[trigger] list@[k])@ == self@.conn(
                    self@.buckets[b as int].list[k],
                ),
    {
        let mut out: Vec<&Connection> = Vec::new();
        let mut k: usize = 0;
        while k < self.buckets[b].list.len()
            invariant
                self.wf(),
                b < self@.buckets.len(),
                k <= self@.buckets[b as int].list.len(),
                out@.len() == k,
                forall|x: int|
                    0 <= x < k ==> (#[trigger] out@[x])@ == self@.conn(self@.buckets[b as int].list[x]),
            decreases self@.buckets[b as int].list.len() - k,
        {
            let uid = self.buckets[b].list[k];
            proof {
                assert(holds(self@.conns, self@.buckets[b as int].list[k as int]));
            }
            match self.fleet.lookup(uid) {
                Some(c) => {
                    out.push(c);
                },
                None => {},
            }
            k += 1;
        }
        out
    }

    /// Returns every bucket: its path and its connections in selection
    /// order.
    pub fn connections(&self) -> (all: Vec<(PathParams, Vec<&Connection>)>)
        requires
            self.wf(),
        ensures
            all@.len() == self@.buckets.len(),
            forall|b: int|
                0 <= b < all@.len() ==> (#[trigger] all@[b]).0 == self@.buckets[b].params
                    && all@[b].1@.len() == self@.buckets[b].list.len(),
            forall|b: int, k: int|
                0 <= b < all@.len() && 0 <= k < all@[b].1@.len() ==> (#[trigger] all@[b].1@[k])@
                    == self@.conn(self@.buckets[b].list[k]),
    {
        let mut out: Vec<(PathParams, Vec<&Connection>)> = Vec::new();
        let mut b: usize = 0;
        while b < self.buckets.len()
            invariant
                self.wf(),
                b <= self@.buckets.len(),
                out@.len() == b,
                forall|x: int|
                    0 <= x < b ==> (#[trigger] out@[x]).0 == self@.buckets[x].params
                        && out@[x].1@.len() == self@.buckets[x].list.len(),
                forall|x: int, k: int|
                    0 <= x < b && 0 <= k < out@[x].1@.len() ==> (#[trigger] out@[x].1@[k])@
                        == self@.conn(self@.buckets[x].list[k]),
            decreases self@.buckets.len() - b,
        {
            let list = self.bucket_connections(b);
            out.push((self.buckets[b].params, list));
            b += 1;
        }
        out
    }

    /// Returns the connections of the bucket of a path, in selection order;
    /// nothing if the path has no bucket.
    pub fn bucket(&self, params: &PathParams) -> (list: Option<Vec<&Connection>>)
        requires
            self.wf(),
        ensures
            match list {
                Some(l) => self@.has_bucket(*params) && l@.len() == self@.bucket(*params).len()
                    && forall|k: int|
                    0 <= k < l@.len() ==> (#[trigger] l@[k])@ == self@.conn(self@.bucket(*params)[k]),
                None => !self@.has_bucket(*params),
            },
    {
        match self.find_bucket(params) {
            Some(b) => Some(self.bucket_connections(b)),
            None => None,
        }
    }

    /// Returns all connections as the buckets of concrete TLS kind list
    /// them, bucket after bucket.
    pub fn to_vec(&self) -> (list: Vec<&Connection>)
        requires
            self.wf(),
        ensures
            list@.len() == self@.listing().len(),
            forall|k: int|
                0 <= k < list@.len() ==> (#[trigger] list@[k])@ == self@.conn(self@.listing()[k]),
    {
        let mut out: Vec<&Connection> = Vec::new();
        let mut b: usize = 0;
        while b < self.buckets.len()
            invariant
                self.wf(),
                b <= self@.buckets.len(),
                out@.len() == self@.listing_upto(b as int).len(),
                forall|k: int|
                    0 <= k < out@.len() ==> (#[trigger] out@[k])@ == self@.conn(
                        self@.listing_upto(b as int)[k],
                    ),
            decreases self@.buckets.len() - b,
        {
            if self.buckets[b].params.is_tls_strict() {
                let mut list = self.bucket_connections(b);
                let ghost head = out@;
                let ghost tail = list@;
                out.append(&mut list);
                proof {
                    assert(out@ =~= head + tail);
                }
            }
            b += 1;
        }
        out
    }
}

impl Connection {
    /// Asks the monitor to put the buckets of this connection in order
    /// again. The monitor must have the buckets of the connection.
    pub fn update(&self, monitor: &mut Monitor)
        requires
            old(monitor)@.has_bucket(self@.params),
            old(monitor)@.has_bucket(self@.params.spec_to_tls(TlsKind::Any)),
        ensures
            final(monitor)@ == old(monitor)@.scheduled(self@.params),
            old(monitor).wf() ==> final(monitor).wf(),
    {
        let params = self.params();
        monitor.schedule_sort(&params);
    }
}

} // verus!
