//! Sessions of the status pages: who is logged in, and for how long.

use vstd::prelude::*;
use vstd::string::StringExecFns;
use vstd::string::StrSliceExecFns;
use crate::hash::xxh3_64;
use crate::hash::xxh3_64_of;
use crate::text::find_char;
use crate::text::position_of;
use crate::text::same_text;
use crate::text::trim;
use crate::text::trim_part;
use crate::text::trimmed;
use crate::text::trimmed_part;

verus! {

/// A session: the time it was last used, in seconds.
#[derive(Debug, Clone, Copy, PartialEq, Eq, Structural)]
pub struct Session {
    pub ts: u64,
}

/// For how long a session last used at `ts` has been idle at `now`.
pub open spec fn idle_time(ts: u64, now: u64) -> int {
    if now >= ts {
        now - ts
    } else {
        0
    }
}

impl Session {
    /// A session last used at `now`.
    pub fn new(now: u64) -> (s: Session)
        ensures
            s.ts == now,
    {
        Session { ts: now }
    }

    /// Returns the time the session was last used.
    pub fn ts(&self) -> (ts: u64)
        ensures
            ts == self.ts,
    {
        self.ts
    }

    /// Returns for how many seconds the session has been idle at `now`.
    pub fn lifetime(&self, now: u64) -> (secs: u64)
        ensures
            secs == idle_time(self.ts, now),
    {
        if now >= self.ts {
            now - self.ts
        } else {
            0
        }
    }

    /// Notes that the session was used at `now`.
    pub fn touch(&mut self, now: u64)
        ensures
            final(self).ts == now,
    {
        self.ts = now;
    }
}

/// One entry of the session table: the identifier of a session and the
/// time it was last used.
pub type Slot = (Seq<char>, u64);

/// The time the session `key` was last used, if there is such a session.
pub open spec fn slot_of(slots: Seq<Slot>, key: Seq<char>) -> Option<u64>
    decreases slots.len(),
{
    if slots.len() == 0 {
        None
    } else if slots.last().0 == key {
        Some(slots.last().1)
    } else {
        slot_of(slots.drop_last(), key)
    }
}

/// The table without the session `key`.
pub open spec fn slots_without(slots: Seq<Slot>, key: Seq<char>) -> Seq<Slot>
    decreases slots.len(),
{
    if slots.len() == 0 {
        Seq::empty()
    } else if slots.last().0 == key {
        slots_without(slots.drop_last(), key)
    } else {
        slots_without(slots.drop_last(), key).push(slots.last())
    }
}

/// The sessions that have been idle for less than `ttl` at `now`, in their
/// order.
pub open spec fn live_slots(slots: Seq<Slot>, now: u64, ttl: u64) -> Seq<Slot>
    decreases slots.len(),
{
    if slots.len() == 0 {
        Seq::empty()
    } else if idle_time(slots.last().1, now) < ttl {
        live_slots(slots.drop_last(), now, ttl).push(slots.last())
    } else {
        live_slots(slots.drop_last(), now, ttl)
    }
}

/// Whether the session at `j` goes before the session at `i` when room is
/// made: it was used earlier, or at the same time and comes first.
pub open spec fn goes_before(slots: Seq<Slot>, j: int, i: int) -> bool {
    slots[j].1 < slots[i].1 || (slots[j].1 == slots[i].1 && j < i)
}

/// How many of the first `n` sessions go before the session at `i`.
pub open spec fn count_before(slots: Seq<Slot>, i: int, n: int) -> int
    decreases n,
{
    if n <= 0 {
        0
    } else {
        count_before(slots, i, n - 1) + (if goes_before(slots, n - 1, i) {
            1int
        } else {
            0int
        })
    }
}

/// The sessions among the first `n` that stay when the `excess` oldest go.
pub open spec fn kept_slots(slots: Seq<Slot>, excess: int, n: int) -> Seq<Slot>
    decreases n,
{
    if n <= 0 {
        Seq::empty()
    } else if count_before(slots, n - 1, slots.len() as int) >= excess {
        kept_slots(slots, excess, n - 1).push(slots[n - 1])
    } else {
        kept_slots(slots, excess, n - 1)
    }
}

/// The table after a cleanup at `now`: sessions idle for `ttl` or longer
/// are gone; if more than `capacity` are left, the oldest of them are gone
/// too, so that `capacity` stay.
pub open spec fn cleaned_slots(slots: Seq<Slot>, now: u64, ttl: u64, capacity: usize) -> Seq<Slot> {
    let live = live_slots(slots, now, ttl);
    if live.len() > capacity {
        kept_slots(live, live.len() - capacity, live.len() as int)
    } else {
        live
    }
}

/// The sessions of the status pages.
#[derive(Debug)]
pub struct Sessions {
    sessions: Vec<(String, Session)>,
    ttl: u64,
    capacity: usize,
}

/// The mathematical value of [`Sessions`].
pub struct SessionsView {
    /// The sessions in the order in which they were made.
    pub slots: Seq<Slot>,
    /// For how many seconds a session may be idle.
    pub ttl: u64,
    /// How many sessions may stay after a cleanup.
    pub capacity: usize,
}

/// The values of the entries of a session table.
pub open spec fn slot_views(entries: Seq<(String, Session)>) -> Seq<Slot> {
    entries.map_values(|e: (String, Session)| (e.0@, e.1.ts))
}

impl View for Sessions {
    type V = SessionsView;

    closed spec fn view(&self) -> SessionsView {
        SessionsView { slots: slot_views(self.sessions@), ttl: self.ttl, capacity: self.capacity }
    }
}

impl Sessions {
    /// A table without sessions.
    pub fn new(capacity: usize, ttl: u64) -> (s: Sessions)
        ensures
            s@ == (SessionsView { slots: Seq::empty(), ttl, capacity }),
    {
        let s = Sessions { sessions: Vec::new(), ttl, capacity };
        proof {
            assert(s@.slots =~= Seq::<Slot>::empty());
        }
        s
    }

    /// Returns the number of sessions.
    pub fn len(&self) -> (n: usize)
        ensures
            n == self@.slots.len(),
    {
        self.sessions.len()
    }

    /// Returns the session `key`, if there is one.
    pub fn get(&self, key: &str) -> (found: Option<Session>)
        ensures
            match found {
                Some(s) => slot_of(self@.slots, key@) == Some(s.ts),
                None => slot_of(self@.slots, key@) is None,
            },
    {
        let ghost all = self@.slots;
        let mut i: usize = self.sessions.len();
        proof {
            assert(all.subrange(0, i as int) =~= all);
        }
        while i > 0
            invariant
                i <= self.sessions.len(),
                all == slot_views(self.sessions@),
                slot_of(all, key@) == slot_of(all.subrange(0, i as int), key@),
            decreases i,
        {
            proof {
                assert(all.subrange(0, i as int).drop_last() =~= all.subrange(0, i as int - 1));
            }
            i -= 1;
            if same_text(self.sessions[i].0.as_str(), key) {
                return Some(self.sessions[i].1);
            }
        }
        None
    }

    /// Stores a session under `key`, in place of any session stored under
    /// that key before.
    pub fn set(&mut self, key: &str, session: Session)
        ensures
            final(self)@ == (SessionsView {
                slots: slots_without(old(self)@.slots, key@).push((key@, session.ts)),
                ..old(self)@
            }),
    {
        self.remove(key);
        let ghost before = self@.slots;
        self.sessions.push((String::from_str(key), session));
        proof {
            assert(self@.slots =~= before.push((key@, session.ts)));
        }
    }

    /// Drops the session `key`.
    pub fn remove(&mut self, key: &str)
        ensures
            final(self)@ == (SessionsView {
                slots: slots_without(old(self)@.slots, key@),
                ..old(self)@
            }),
    {
        let ghost all = self@.slots;
        let n = self.sessions.len();
        let mut kept: Vec<(String, Session)> = Vec::new();
        let mut k: usize = 0;
        proof {
            assert(all.subrange(0, 0) =~= Seq::<Slot>::empty());
            assert(slot_views(kept@) =~= Seq::<Slot>::empty());
        }
        while k < n
            invariant
                k <= n,
                n == all.len(),
                self.ttl == old(self).ttl,
                self.capacity == old(self).capacity,
                self.sessions@.len() == n - k,
                forall|i: int|
                    0 <= i < n - k ==> (#[trigger] self.sessions@[i].0)@ == all[k + i].0
                        && self.sessions@[i].1.ts == all[k + i].1,
                slot_views(kept@) == slots_without(all.subrange(0, k as int), key@),
            decreases n - k,
        {
            let ghost list = self.sessions@;
            let ghost done = slot_views(kept@);
            let entry = self.sessions.remove(0);
            proof {
                assert(all.subrange(0, k as int + 1).drop_last() =~= all.subrange(0, k as int));
                assert(all.subrange(0, k as int + 1).last() == all[k as int]);
                assert(entry == list[0]);
                assert forall|i: int| 0 <= i < n - k - 1 implies (#[trigger] self.sessions@[i].0)@
                    == all[k + 1 + i].0 && self.sessions@[i].1.ts == all[k + 1 + i].1 by {
                    assert(self.sessions@[i] == list[i + 1]);
                }
            }
            if !same_text(entry.0.as_str(), key) {
                kept.push(entry);
                proof {
                    assert(slot_views(kept@) =~= done.push(all[k as int]));
                }
            }
            k += 1;
        }
        proof {
            assert(all.subrange(0, n as int) =~= all);
        }
        self.sessions = kept;
    }

    /// Notes that the session `key` was used at `now`. Tells whether there
    /// is such a session.
    pub fn touch(&mut self, key: &str, now: u64) -> (found: bool)
        ensures
            found == (slot_of(old(self)@.slots, key@) is Some),
            final(self)@ == (if found {
                SessionsView {
                    slots: slots_without(old(self)@.slots, key@).push((key@, now)),
                    ..old(self)@
                }
            } else {
                old(self)@
            }),
    {
        match self.get(key) {
            Some(_) => {
                self.set(key, Session::new(now));
                true
            },
            None => false,
        }
    }

    /// Drops the sessions that have been idle for too long, and after that
    /// the oldest sessions beyond the capacity of the table.
    pub fn cleanup(&mut self, now: u64)
        ensures
            final(self)@ == (SessionsView {
                slots: cleaned_slots(old(self)@.slots, now, old(self)@.ttl, old(self)@.capacity),
                ..old(self)@
            }),
    {
        let ghost all = self@.slots;
        let n = self.sessions.len();
        let ttl = self.ttl;
        let mut live: Vec<(String, Session)> = Vec::new();
        let mut k: usize = 0;
        proof {
            assert(all.subrange(0, 0) =~= Seq::<Slot>::empty());
            assert(slot_views(live@) =~= Seq::<Slot>::empty());
        }
        while k < n
            invariant
                k <= n,
                n == all.len(),
                ttl == old(self).ttl,
                self.ttl == old(self).ttl,
                self.capacity == old(self).capacity,
                self.sessions@.len() == n - k,
                forall|i: int|
                    0 <= i < n - k ==> (#[trigger] self.sessions@[i].0)@ == all[k + i].0
                        && self.sessions@[i].1.ts == all[k + i].1,
                slot_views(live@) == live_slots(all.subrange(0, k as int), now, ttl),
            decreases n - k,
        {
            let ghost list = self.sessions@;
            let ghost done = slot_views(live@);
            let entry = self.sessions.remove(0);
            proof {
                assert(all.subrange(0, k as int + 1).drop_last() =~= all.subrange(0, k as int));
                assert(all.subrange(0, k as int + 1).last() == all[k as int]);
                assert(entry == list[0]);
                assert((list[0].0)@ == all[k as int].0 && list[0].1.ts == all[k as int].1);
                assert forall|i: int| 0 <= i < n - k - 1 implies (#[trigger] self.sessions@[i].0)@
                    == all[k + 1 + i].0 && self.sessions@[i].1.ts == all[k + 1 + i].1 by {
                    assert(self.sessions@[i] == list[i + 1]);
                }
            }
            if entry.1.lifetime(now) < ttl {
                live.push(entry);
                proof {
                    assert(slot_views(live@) =~= done.push(all[k as int]));
                }
            }
            k += 1;
        }
        proof {
            assert(all.subrange(0, n as int) =~= all);
        }
        if live.len() <= self.capacity {
            self.sessions = live;
            return ;
        }
        let m = live.len();
        let excess = m - self.capacity;
        let ghost slots = slot_views(live@);
        let mut stays: Vec<bool> = Vec::new();
        let mut i: usize = 0;
        while i < m
            invariant
                i <= m,
                m == live@.len(),
                slots == slot_views(live@),
                stays@.len() == i,
                forall|x: int|
                    0 <= x < i ==> #[trigger] stays@[x] == (count_before(slots, x, m as int)
                        >= excess),
            decreases m - i,
        {
            let mut count: usize = 0;
            let mut j: usize = 0;
            while j < m
                invariant
                    j <= m,
                    i < m,
                    m == live@.len(),
                    slots == slot_views(live@),
                    count == count_before(slots, i as int, j as int),
                    count <= j,
                decreases m - j,
            {
                let a = live[j].1.ts;
                let b = live[i].1.ts;
                if a < b || (a == b && j < i) {
                    count += 1;
                }
                j += 1;
            }
            stays.push(count >= excess);
            i += 1;
        }
        let mut kept: Vec<(String, Session)> = Vec::new();
        let mut k: usize = 0;
        proof {
            assert(slot_views(kept@) =~= Seq::<Slot>::empty());
        }
        while k < m
            invariant
                k <= m,
                m == slots.len(),
                stays@.len() == m,
                forall|x: int|
                    0 <= x < m ==> #[trigger] stays@[x] == (count_before(slots, x, m as int)
                        >= excess),
                live@.len() == m - k,
                forall|i: int|
                    0 <= i < m - k ==> (#[trigger] live@[i].0)@ == slots[k + i].0 && live@[i].1.ts
                        == slots[k + i].1,
                slot_views(kept@) == kept_slots(slots, excess as int, k as int),
            decreases m - k,
        {
            let ghost list = live@;
            let ghost done = slot_views(kept@);
            let entry = live.remove(0);
            proof {
                assert(entry == list[0]);
                assert((list[0].0)@ == slots[k as int].0 && list[0].1.ts == slots[k as int].1);
                assert forall|i: int| 0 <= i < m - k - 1 implies (#[trigger] live@[i].0)@ == slots[k
                    + 1 + i].0 && live@[i].1.ts == slots[k + 1 + i].1 by {
                    assert(live@[i] == list[i + 1]);
                }
            }
            if stays[k] {
                kept.push(entry);
                proof {
                    assert(slot_views(kept@) =~= done.push(slots[k as int]));
                }
            }
            k += 1;
        }
        self.sessions = kept;
    }
}

/// The value that one piece of a cookie header gives for the session, if
/// the piece names the session: the piece has the form `session=value`,
/// white space aside; the value ends at a second `=`, if there is one.
pub open spec fn session_value(s: Seq<char>, from: int, to: int) -> Option<Seq<char>> {
    let piece = s.subrange(from, to);
    let eq = position_of(piece, '=', 0);
    if trimmed_part(piece, 0, eq) == "session"@ && eq < piece.len() {
        Some(trimmed_part(piece, eq + 1, position_of(piece, '=', eq + 1)))
    } else {
        None
    }
}

/// The identifier of the session that a cookie header names, from position
/// `from` on: the value of the first piece, of those that semicolons
/// separate, that names the session.
pub open spec fn session_id_from(s: Seq<char>, from: int) -> Option<Seq<char>>
    decreases s.len() - from,
{
    if from < 0 || from > s.len() {
        None
    } else {
        let to = position_of(s, ';', from);
        match session_value(s, from, to) {
            Some(v) => Some(v),
            None => if from <= to < s.len() {
                session_id_from(s, to + 1)
            } else {
                None
            },
        }
    }
}

/// Reads the identifier of the session out of a cookie header.
pub fn session_id_from_cookie(cookie: &str) -> (id: Option<String>)
    ensures
        match id {
            Some(v) => session_id_from(cookie@, 0) == Some(v@),
            None => session_id_from(cookie@, 0) is None,
        },
{
    let n = cookie.unicode_len();
    let mut from: usize = 0;
    loop
        invariant
            from <= n,
            n == cookie@.len(),
            session_id_from(cookie@, 0) == session_id_from(cookie@, from as int),
        decreases n - from,
    {
        let to = find_char(cookie, ';', from);
        let piece = cookie.substring_char(from, to);
        let len = to - from;
        let eq = find_char(piece, '=', 0);
        let name = trim_part(piece, 0, eq);
        if eq < len && same_text(name, "session") {
            let end = find_char(piece, '=', eq + 1);
            let value = trim_part(piece, eq + 1, end);
            return Some(String::from_str(value));
        }
        if to >= n {
            return None;
        }
        from = to + 1;
    }
}

/// Whether a passphrase is the one whose hash is `key`: the hash of the
/// passphrase, white space at its ends aside, is the key.
pub open spec fn passphrase_matches(passphrase: Seq<char>, key: Option<u64>) -> bool {
    match key {
        Some(k) => xxh3_64_of(trimmed(passphrase)) == k,
        None => false,
    }
}

/// Tells whether a passphrase is the one whose hash is `key`; without a
/// key no passphrase is.
pub fn validate_passphrase(passphrase: &str, key: Option<u64>) -> (ok: bool)
    ensures
        ok == passphrase_matches(passphrase@, key),
{
    match key {
        Some(k) => xxh3_64(trim(passphrase)) == k,
        None => false,
    }
}

} // verus!
