//! The delegate graph: which connection defers to which.
//!
//! A graph maps the identity of each connection to the identity of the
//! connection it defers to, if any. This module states what it means for such
//! a graph to be free of cycles and proves that walking it ends at a
//! connection that defers to nobody within as many hops as there are
//! connections.

use vstd::prelude::*;

verus! {

/// For each connection, by identity, the connection it defers to.
pub type Links = Map<u64, Option<u64>>;

/// The connection that `u` defers to, where both are part of the graph.
pub open spec fn step(g: Links, u: u64) -> Option<u64> {
    if g.contains_key(u) {
        match g[u] {
            Some(d) => if g.contains_key(d) {
                Some(d)
            } else {
                None
            },
            None => None,
        }
    } else {
        None
    }
}

/// The connections met when following the links from `u` for at most `fuel`
/// hops, `u` itself first.
pub open spec fn path(g: Links, u: u64, fuel: nat) -> Seq<u64>
    decreases fuel,
{
    if fuel == 0 {
        seq![u]
    } else {
        match step(g, u) {
            Some(d) => seq![u] + path(g, d, (fuel - 1) as nat),
            None => seq![u],
        }
    }
}

/// Where following the links from `u` for at most `fuel` hops ends.
pub open spec fn walk(g: Links, u: u64, fuel: nat) -> u64 {
    path(g, u, fuel).last()
}

/// `r` gives every connection a higher rank than the one it defers to, and
/// every link leads to a connection of the graph.
pub open spec fn is_ranking(g: Links, r: Map<u64, nat>) -> bool {
    forall|u: u64| #[trigger]
        g.contains_key(u) ==> (g[u] matches Some(d) ==> g.contains_key(d) && r[d] < r[u])
}

/// The graph has no cycle and no link that leads out of it.
pub open spec fn acyclic(g: Links) -> bool {
    exists|r: Map<u64, nat>| is_ranking(g, r)
}

/// The graph in which `x` and the connections that deferred to `x` are gone
/// or defer to nobody.
pub open spec fn without(g: Links, x: u64) -> Links {
    Map::new(
        |u: u64| g.contains_key(u) && u != x,
        |u: u64| if g[u] == Some(x) {
            None
        } else {
            g[u]
        },
    )
}

pub proof fn lemma_path_shape(g: Links, u: u64, fuel: nat)
    ensures
        1 <= path(g, u, fuel).len() <= fuel + 1,
        path(g, u, fuel)[0] == u,
    decreases fuel,
{
    if fuel > 0 {
        match step(g, u) {
            Some(d) => {
                lemma_path_shape(g, d, (fuel - 1) as nat);
            },
            None => {},
        }
    }
}

pub proof fn lemma_path_members(g: Links, u: u64, fuel: nat)
    requires
        g.contains_key(u),
    ensures
        forall|i: int| 0 <= i < path(g, u, fuel).len() ==> g.contains_key(#[trigger] path(g, u, fuel)[i]),
    decreases fuel,
{
    if fuel > 0 {
        match step(g, u) {
            Some(d) => {
                lemma_path_members(g, d, (fuel - 1) as nat);
                let rest = path(g, d, (fuel - 1) as nat);
                assert forall|i: int| 0 <= i < path(g, u, fuel).len() implies g.contains_key(
                    #[trigger] path(g, u, fuel)[i],
                ) by {
                    if i > 0 {
                        assert(path(g, u, fuel)[i] == rest[i - 1]);
                    }
                }
            },
            None => {},
        }
    }
}

/// Along a path the rank falls with every hop.
pub proof fn lemma_path_ranks(g: Links, r: Map<u64, nat>, u: u64, fuel: nat)
    requires
        is_ranking(g, r),
    ensures
        forall|i: int, j: int|
            0 <= i < j < path(g, u, fuel).len() ==> r[#[trigger] path(g, u, fuel)[j]]
                < r[#[trigger] path(g, u, fuel)[i]],
    decreases fuel,
{
    if fuel > 0 {
        match step(g, u) {
            Some(d) => {
                lemma_path_ranks(g, r, d, (fuel - 1) as nat);
                lemma_path_shape(g, d, (fuel - 1) as nat);
                let rest = path(g, d, (fuel - 1) as nat);
                let p = path(g, u, fuel);
                assert(g.contains_key(u));
                assert(r[d] < r[u]);
                assert forall|i: int, j: int| 0 <= i < j < p.len() implies r[#[trigger] p[j]]
                    < r[#[trigger] p[i]] by {
                    assert(p[j] == rest[j - 1]);
                    if i > 0 {
                        assert(p[i] == rest[i - 1]);
                    } else {
                        if j > 1 {
                            assert(r[rest[j - 1]] < r[rest[0]]);
                        }
                    }
                }
            },
            None => {},
        }
    }
}

/// In a graph without cycles a path holds no more entries than the graph has
/// connections.
pub proof fn lemma_path_short(g: Links, u: u64, fuel: nat)
    requires
        acyclic(g),
        g.dom().finite(),
        g.contains_key(u),
    ensures
        path(g, u, fuel).len() <= g.dom().len(),
        path(g, u, fuel).no_duplicates(),
{
    let r = choose|r: Map<u64, nat>| is_ranking(g, r);
    let p = path(g, u, fuel);
    lemma_path_ranks(g, r, u, fuel);
    lemma_path_members(g, u, fuel);
    assert(p.no_duplicates()) by {
        assert forall|i: int, j: int| 0 <= i < p.len() && 0 <= j < p.len() && i != j implies p[i]
            != p[j] by {
            if i < j {
                assert(r[p[j]] < r[p[i]]);
            } else {
                assert(r[p[i]] < r[p[j]]);
            }
        }
    }
    p.unique_seq_to_set();
    assert(p.to_set().subset_of(g.dom())) by {
        assert forall|x: u64| p.to_set().contains(x) implies g.dom().contains(x) by {
            let i = choose|i: int| 0 <= i < p.len() && p[i] == x;
            assert(g.contains_key(p[i]));
        }
    }
    vstd::set_lib::lemma_len_subset(p.to_set(), g.dom());
}

/// A path that did not use up its fuel ends at a connection that defers to
/// nobody.
pub proof fn lemma_path_early(g: Links, u: u64, fuel: nat)
    requires
        path(g, u, fuel).len() <= fuel,
    ensures
        step(g, walk(g, u, fuel)) is None,
    decreases fuel,
{
    if fuel > 0 {
        match step(g, u) {
            Some(d) => {
                lemma_path_shape(g, d, (fuel - 1) as nat);
                lemma_path_early(g, d, (fuel - 1) as nat);
                let rest = path(g, d, (fuel - 1) as nat);
                assert(path(g, u, fuel).last() == rest.last());
            },
            None => {},
        }
    }
}

/// Once a path has ended at a connection that defers to nobody, more fuel
/// does not lengthen it.
pub proof fn lemma_path_stable(g: Links, u: u64, fuel: nat, more: nat)
    requires
        step(g, walk(g, u, fuel)) is None,
        fuel <= more,
    ensures
        path(g, u, more) == path(g, u, fuel),
    decreases fuel,
{
    if fuel == 0 {
        assert(step(g, u) is None);
    } else {
        match step(g, u) {
            Some(d) => {
                lemma_path_shape(g, d, (fuel - 1) as nat);
                let rest = path(g, d, (fuel - 1) as nat);
                assert(path(g, u, fuel).last() == rest.last());
                lemma_path_stable(g, d, (fuel - 1) as nat, (more - 1) as nat);
            },
            None => {},
        }
    }
}

/// In a graph without cycles, following the links from any connection for as
/// many hops as there are connections ends at a connection of the graph that
/// defers to nobody.
pub proof fn lemma_walk_ends(g: Links, u: u64, n: nat)
    requires
        acyclic(g),
        g.dom().finite(),
        g.dom().len() <= n,
        g.contains_key(u),
    ensures
        g.contains_key(walk(g, u, n)),
        g[walk(g, u, n)] is None,
        step(g, walk(g, u, n)) is None,
{
    lemma_path_short(g, u, n);
    lemma_path_early(g, u, n);
    lemma_path_members(g, u, n);
    let p = path(g, u, n);
    let t = p.last();
    assert(g.contains_key(p[p.len() - 1]));
    let r = choose|r: Map<u64, nat>| is_ranking(g, r);
    assert(g.contains_key(t));
}

/// A connection that defers to nobody, be it new or one that deferred to
/// another before, keeps the graph free of cycles.
pub proof fn lemma_acyclic_insert(g: Links, u: u64)
    requires
        acyclic(g),
    ensures
        acyclic(g.insert(u, None)),
{
    let r = choose|r: Map<u64, nat>| is_ranking(g, r);
    let r2 = Map::new(|v: u64| true, |v: u64| if v == u { 0nat } else { (r[v] + 1) as nat });
    let g2 = g.insert(u, None);
    assert forall|v: u64| #[trigger] g2.contains_key(v) implies (g2[v] matches Some(d)
        ==> g2.contains_key(d) && r2[d] < r2[v]) by {
        if v != u {
            assert(g.contains_key(v));
        }
    }
    assert(is_ranking(g2, r2));
}

/// Removing a connection, and letting those that deferred to it defer to
/// nobody, keeps the graph free of cycles.
pub proof fn lemma_acyclic_without(g: Links, x: u64)
    requires
        acyclic(g),
    ensures
        acyclic(without(g, x)),
{
    let r = choose|r: Map<u64, nat>| is_ranking(g, r);
    let g2 = without(g, x);
    assert forall|v: u64| #[trigger] g2.contains_key(v) implies (g2[v] matches Some(d)
        ==> g2.contains_key(d) && r[d] < r[v]) by {
        assert(g.contains_key(v));
    }
    assert(is_ranking(g2, r));
}

/// Letting `x` defer to `y` keeps the graph free of cycles, provided the
/// links from `y` do not lead to `x`.
pub proof fn lemma_acyclic_bind(g: Links, x: u64, y: u64, n: nat)
    requires
        acyclic(g),
        g.dom().finite(),
        g.dom().len() <= n,
        g.contains_key(x),
        g.contains_key(y),
        !path(g, y, n).contains(x),
    ensures
        acyclic(g.insert(x, Some(y))),
{
    let r = choose|r: Map<u64, nat>| is_ranking(g, r);
    let g2 = g.insert(x, Some(y));
    let shift = (r[y] + 1) as nat;
    let r2 = Map::new(
        |v: u64| true,
        |v: u64| if path(g, v, n).contains(x) {
            (r[v] + shift) as nat
        } else {
            r[v]
        },
    );
    assert forall|v: u64| #[trigger] g2.contains_key(v) implies (g2[v] matches Some(d)
        ==> g2.contains_key(d) && r2[d] < r2[v]) by {
        if v == x {
            lemma_path_shape(g, x, n);
            assert(path(g, x, n)[0] == x);
            assert(path(g, x, n).contains(x));
        } else {
            assert(g.contains_key(v));
            match g[v] {
                Some(d) => {
                    assert(step(g, v) == Some(d));
                    // the path from `v` is `v` followed by the path from `d`
                    lemma_walk_ends(g, v, n);
                    lemma_path_shape(g, d, (n - 1) as nat);
                    lemma_path_short(g, v, n);
                    let rest = path(g, d, (n - 1) as nat);
                    assert(n > 0) by {
                        assert(g.dom().contains(v));
                        if g.dom().len() == 0 {
                            assert(g.dom() =~= Set::<u64>::empty());
                        }
                    }
                    assert(path(g, v, n) == seq![v] + rest);
                    assert(path(g, v, n).last() == rest.last());
                    lemma_path_stable(g, d, (n - 1) as nat, n);
                    assert(path(g, d, n) == rest);
                    if rest.contains(x) {
                        let i = choose|i: int| 0 <= i < rest.len() && rest[i] == x;
                        assert(path(g, v, n)[i + 1] == x);
                        assert(path(g, v, n).contains(x));
                    }
                    if path(g, v, n).contains(x) {
                        let i = choose|i: int| 0 <= i < path(g, v, n).len() && path(g, v, n)[i] == x;
                        assert(i > 0);
                        assert(rest[i - 1] == x);
                        assert(rest.contains(x));
                    }
                },
                None => {},
            }
        }
    }
    assert(is_ranking(g2, r2));
}

} // verus!
