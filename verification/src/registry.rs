//! The registry of delegates and lists of connection identities.

use vstd::prelude::*;
use crate::delegate::Delegate;

verus! {

/// One entry of the registry: a physical node on a network and the identity
/// of the connection that speaks for it.
pub type Entry = (Delegate, u64);

/// A list of identities without every occurrence of `uid`.
pub open spec fn strip(list: Seq<u64>, uid: u64) -> Seq<u64>
    decreases list.len(),
{
    if list.len() == 0 {
        Seq::empty()
    } else if list.last() == uid {
        strip(list.drop_last(), uid)
    } else {
        strip(list.drop_last(), uid).push(list.last())
    }
}

/// What a stripped list holds.
pub proof fn lemma_strip(list: Seq<u64>, uid: u64)
    ensures
        forall|x: u64| strip(list, uid).contains(x) == (list.contains(x) && x != uid),
        list.no_duplicates() ==> strip(list, uid).no_duplicates(),
        !list.contains(uid) ==> strip(list, uid) == list,
        strip(list, uid).len() <= list.len(),
    decreases list.len(),
{
    if list.len() > 0 {
        let head = list.drop_last();
        let last = list.last();
        lemma_strip(head, uid);
        let s = strip(list, uid);
        assert forall|x: u64| s.contains(x) == (list.contains(x) && x != uid) by {
            if list.contains(x) {
                let i = choose|i: int| 0 <= i < list.len() && list[i] == x;
                if i < head.len() {
                    assert(head[i] == x);
                }
            }
            if head.contains(x) {
                let i = choose|i: int| 0 <= i < head.len() && head[i] == x;
                assert(list[i] == x);
            }
            if last != uid {
                assert(s == strip(head, uid).push(last));
                if s.contains(x) {
                    let i = choose|i: int| 0 <= i < s.len() && s[i] == x;
                    if i < strip(head, uid).len() {
                        assert(strip(head, uid)[i] == x);
                    } else {
                        assert(x == last);
                        assert(list[list.len() - 1] == x);
                    }
                }
                if strip(head, uid).contains(x) {
                    let i = choose|i: int| 0 <= i < strip(head, uid).len() && strip(head, uid)[i] == x;
                    assert(s[i] == x);
                }
                if x == last {
                    assert(s[s.len() - 1] == x);
                    assert(list[list.len() - 1] == x);
                }
            } else {
                if x == last {
                } else if list.contains(x) {
                    assert(head.contains(x));
                }
            }
        }
        if list.no_duplicates() {
            assert(head.no_duplicates());
            if last != uid {
                assert(!head.contains(last)) by {
                    if head.contains(last) {
                        let i = choose|i: int| 0 <= i < head.len() && head[i] == last;
                        assert(list[i] == list[list.len() - 1]);
                    }
                }
                assert(!strip(head, uid).contains(last));
                assert forall|a: int, b: int| 0 <= a < s.len() && 0 <= b < s.len() && a != b implies s[a]
                    != s[b] by {
                    let h = strip(head, uid);
                    if a < h.len() && b < h.len() {
                        assert(h[a] != h[b]);
                    } else if a < h.len() {
                        assert(h.contains(h[a]));
                    } else {
                        assert(h.contains(h[b]));
                    }
                }
            }
        }
        if !list.contains(uid) {
            assert(last != uid) by {
                assert(list[list.len() - 1] == last);
            }
            assert(!head.contains(uid)) by {
                if head.contains(uid) {
                    let i = choose|i: int| 0 <= i < head.len() && head[i] == uid;
                    assert(list[i] == uid);
                }
            }
            assert(head.push(last) =~= list);
        }
    }
}

/// Returns the list without every occurrence of `uid`.
pub fn strip_list(list: &Vec<u64>, uid: u64) -> (out: Vec<u64>)
    ensures
        out@ == strip(list@, uid),
{
    let mut out: Vec<u64> = Vec::new();
    let mut i: usize = 0;
    proof {
        assert(list@.subrange(0, 0) =~= Seq::<u64>::empty());
    }
    while i < list.len()
        invariant
            i <= list.len(),
            out@ == strip(list@.subrange(0, i as int), uid),
        decreases list.len() - i,
    {
        proof {
            assert(list@.subrange(0, i as int + 1).drop_last() =~= list@.subrange(0, i as int));
        }
        if list[i] != uid {
            out.push(list[i]);
        }
        i += 1;
    }
    proof {
        assert(list@.subrange(0, list.len() as int) =~= list@);
    }
    out
}

/// The registry without the entries of the connection `uid`.
pub open spec fn unregistered(reg: Seq<Entry>, uid: u64) -> Seq<Entry>
    decreases reg.len(),
{
    if reg.len() == 0 {
        Seq::empty()
    } else if reg.last().1 == uid {
        unregistered(reg.drop_last(), uid)
    } else {
        unregistered(reg.drop_last(), uid).push(reg.last())
    }
}

/// The keys of a registry are all different.
pub open spec fn distinct_keys(reg: Seq<Entry>) -> bool {
    forall|i: int, j: int|
        0 <= i < reg.len() && 0 <= j < reg.len() && i != j ==> (#[trigger] reg[i]).0 != (
        #[trigger] reg[j]).0
}

/// What a registry holds once the entries of a connection are dropped.
pub proof fn lemma_unregistered(reg: Seq<Entry>, uid: u64)
    ensures
        forall|e: Entry| unregistered(reg, uid).contains(e) == (reg.contains(e) && e.1 != uid),
        distinct_keys(reg) ==> distinct_keys(unregistered(reg, uid)),
        (forall|i: int| 0 <= i < reg.len() ==> (#[trigger] reg[i]).1 != uid) ==> unregistered(
            reg,
            uid,
        ) == reg,
    decreases reg.len(),
{
    if reg.len() > 0 {
        let head = reg.drop_last();
        let last = reg.last();
        lemma_unregistered(head, uid);
        let s = unregistered(reg, uid);
        let h = unregistered(head, uid);
        assert forall|e: Entry| s.contains(e) == (reg.contains(e) && e.1 != uid) by {
            if reg.contains(e) {
                let i = choose|i: int| 0 <= i < reg.len() && reg[i] == e;
                if i < head.len() {
                    assert(head[i] == e);
                }
            }
            if head.contains(e) {
                let i = choose|i: int| 0 <= i < head.len() && head[i] == e;
                assert(reg[i] == e);
            }
            if last.1 != uid {
                if s.contains(e) {
                    let i = choose|i: int| 0 <= i < s.len() && s[i] == e;
                    if i < h.len() {
                        assert(h[i] == e);
                    } else {
                        assert(reg[reg.len() - 1] == e);
                    }
                }
                if h.contains(e) {
                    let i = choose|i: int| 0 <= i < h.len() && h[i] == e;
                    assert(s[i] == e);
                }
                if e == last {
                    assert(s[s.len() - 1] == e);
                    assert(reg[reg.len() - 1] == e);
                }
            } else {
                if e != last && reg.contains(e) {
                    assert(head.contains(e));
                }
            }
        }
        if distinct_keys(reg) {
            assert(distinct_keys(head)) by {
                assert forall|i: int, j: int|
                    0 <= i < head.len() && 0 <= j < head.len() && i != j implies (
                #[trigger] head[i]).0 != (#[trigger] head[j]).0 by {
                    assert(reg[i].0 != reg[j].0);
                }
            }
            if last.1 != uid {
                assert forall|a: int, b: int| 0 <= a < s.len() && 0 <= b < s.len() && a != b implies (
                #[trigger] s[a]).0 != (#[trigger] s[b]).0 by {
                    if a < h.len() && b < h.len() {
                        assert(h[a].0 != h[b].0);
                    } else {
                        let c = if a < h.len() { a } else { b };
                        assert(h.contains(h[c]));
                        assert(head.contains(h[c]));
                        let i = choose|i: int| 0 <= i < head.len() && head[i] == h[c];
                        assert(reg[i].0 != reg[reg.len() - 1].0);
                    }
                }
            }
        }
        if forall|i: int| 0 <= i < reg.len() ==> (#[trigger] reg[i]).1 != uid {
            assert(reg[reg.len() - 1].1 != uid);
            assert forall|i: int| 0 <= i < head.len() implies (#[trigger] head[i]).1 != uid by {
                assert(reg[i].1 != uid);
            }
            assert(head.push(last) =~= reg);
        }
    }
}

/// Whether a given entry stays when the entries of a connection are dropped.
pub proof fn lemma_unregistered_entry(reg: Seq<Entry>, uid: u64, e: Entry)
    ensures
        unregistered(reg, uid).contains(e) == (reg.contains(e) && e.1 != uid),
{
    lemma_unregistered(reg, uid);
}

/// Returns the registry without the entries of the connection `uid`.
pub fn unregister(reg: &Vec<Entry>, uid: u64) -> (out: Vec<Entry>)
    ensures
        out@ == unregistered(reg@, uid),
{
    let mut out: Vec<Entry> = Vec::new();
    let mut i: usize = 0;
    proof {
        assert(reg@.subrange(0, 0) =~= Seq::<Entry>::empty());
    }
    while i < reg.len()
        invariant
            i <= reg.len(),
            out@ == unregistered(reg@.subrange(0, i as int), uid),
        decreases reg.len() - i,
    {
        proof {
            assert(reg@.subrange(0, i as int + 1).drop_last() =~= reg@.subrange(0, i as int));
        }
        if reg[i].1 != uid {
            out.push(reg[i]);
        }
        i += 1;
    }
    proof {
        assert(reg@.subrange(0, reg.len() as int) =~= reg@);
    }
    out
}

/// Whether `i` is the position of the first entry under `key`.
pub open spec fn first_entry_at(reg: Seq<Entry>, key: Delegate, i: int) -> bool {
    &&& 0 <= i < reg.len()
    &&& reg[i].0 == key
    &&& forall|k: int| 0 <= k < i ==> (#[trigger] reg[k]).0 != key
}

/// The connection registered under `key`, if any.
pub open spec fn registered_under(reg: Seq<Entry>, key: Delegate) -> Option<u64> {
    if exists|i: int| first_entry_at(reg, key, i) {
        Some(reg[choose|i: int| first_entry_at(reg, key, i)].1)
    } else {
        None
    }
}

/// Returns the connection registered under `key`, if any.
pub fn find_registered(reg: &Vec<Entry>, key: &Delegate) -> (found: Option<u64>)
    ensures
        found == registered_under(reg@, *key),
        found matches Some(d) ==> reg@.contains((*key, d)),
        found is None ==> forall|i: int| 0 <= i < reg@.len() ==> (#[trigger] reg@[i]).0 != *key,
{
    let mut i: usize = 0;
    while i < reg.len()
        invariant
            i <= reg.len(),
            forall|k: int| 0 <= k < i ==> (#[trigger] reg@[k]).0 != *key,
        decreases reg.len() - i,
    {
        if reg[i].0 == *key {
            proof {
                assert(first_entry_at(reg@, *key, i as int));
                let c = choose|c: int| first_entry_at(reg@, *key, c);
                if c < i {
                    assert(reg@[c].0 != *key);
                }
                if i < c {
                    assert(reg@[i as int].0 != *key);
                }
                assert(reg@[i as int] == (*key, reg@[i as int].1));
            }
            return Some(reg[i].1);
        }
        i += 1;
    }
    proof {
        if exists|c: int| first_entry_at(reg@, *key, c) {
            let c = choose|c: int| first_entry_at(reg@, *key, c);
            assert(reg@[c].0 != *key);
        }
    }
    None
}

} // verus!
