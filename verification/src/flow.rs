//! Connection tracking, so a permitted request's reply is permitted too.
//!
//! Grants are unidirectional: a rule says who may initiate to whom, on which
//! ports. A stateless filter would permit the request and deny its reply, so no
//! connection could complete.
//!
//! A flow is recorded only when a rule permits a packet, and permits exactly
//! the reverse five-tuple. It is named from this node's point of view, by its
//! local and remote halves, so that one flow has one key in either direction.

use crate::addr::IpAddr;
use crate::filter::{Direction, Packet};
use vstd::prelude::*;

verus! {

/// Most flows tracked per peer.
pub const MAX_FLOWS: usize = 4096;

/// How long a flow survives without a packet.
pub const IDLE_MS: u64 = 120_000;

/// One flow, named from this node's side.
#[derive(Clone, Copy, Debug, PartialEq, Eq, Structural)]
pub struct Key {
    pub protocol: u8,
    pub local: IpAddr,
    pub remote: IpAddr,
    pub local_port: u16,
    pub remote_port: u16,
}

/// The flow that a packet belongs to. A packet whose ports or addresses cannot
/// be established belongs to none.
pub open spec fn flow_key(direction: Direction, packet: Packet) -> Option<Key> {
    match (packet.ports, packet.addresses) {
        (Some(ports), Some(addrs)) => Some(
            match direction {
                Direction::Out => Key {
                    protocol: ports.protocol,
                    local: addrs.source,
                    remote: addrs.destination,
                    local_port: ports.source,
                    remote_port: ports.destination,
                },
                Direction::In => Key {
                    protocol: ports.protocol,
                    local: addrs.destination,
                    remote: addrs.source,
                    local_port: ports.destination,
                    remote_port: ports.source,
                },
            },
        ),
        _ => None,
    }
}

impl Key {
    /// The flow that a packet belongs to.
    pub fn of(direction: Direction, packet: &Packet) -> (key: Option<Key>)
        ensures
            key == flow_key(direction, *packet),
    {
        match (packet.ports, packet.addresses) {
            (Some(ports), Some(addrs)) => Some(
                match direction {
                    Direction::Out => Key {
                        protocol: ports.protocol,
                        local: addrs.source,
                        remote: addrs.destination,
                        local_port: ports.source,
                        remote_port: ports.destination,
                    },
                    Direction::In => Key {
                        protocol: ports.protocol,
                        local: addrs.destination,
                        remote: addrs.source,
                        local_port: ports.destination,
                        remote_port: ports.source,
                    },
                },
            ),
            _ => None,
        }
    }
}

/// Whether an entry last used at `last` has been idle for too long.
pub open spec fn idle(last: u64, now: u64) -> bool {
    now > last && now - last > IDLE_MS
}

/// The entries that have not been idle for too long.
pub open spec fn live(m: Map<Key, u64>, now: u64) -> Map<Key, u64> {
    Map::new(|k: Key| m.dom().contains(k) && !idle(m[k], now), |k: Key| m[k])
}

/// What is left of a full table when room has been made: expired entries go,
/// and then the least recently used, until one more fits.
pub open spec fn made_room(m: Map<Key, u64>, kept: Map<Key, u64>, now: u64) -> bool {
    &&& kept.submap_of(live(m, now))
    &&& live(m, now).dom().len() < MAX_FLOWS ==> kept == live(m, now)
    &&& live(m, now).dom().len() >= MAX_FLOWS ==> {
        &&& kept.dom().len() == MAX_FLOWS - 1
        &&& forall|gone: Key, stays: Key|
            live(m, now).dom().contains(gone) && !#[trigger] kept.dom().contains(gone)
                && #[trigger] kept.dom().contains(stays) ==> m[gone] <= m[stays]
    }
}

/// A table after `key` has been put into it.
pub open spec fn put(m: Map<Key, u64>, after: Map<Key, u64>, key: Key, now: u64) -> bool {
    if m.dom().contains(key) || m.dom().len() < MAX_FLOWS {
        after == m.insert(key, now)
    } else {
        exists|kept: Map<Key, u64>| #[trigger]
            made_room(m, kept, now) && after == kept.insert(key, now)
    }
}

/// Whether a table holds `key` alive.
pub open spec fn alive(m: Map<Key, u64>, key: Key, now: u64) -> bool {
    m.dom().contains(key) && !idle(m[key], now)
}

/// A table after `key` has been looked up: a live entry is refreshed, an
/// expired one is dropped.
pub open spec fn touched(m: Map<Key, u64>, key: Key, now: u64) -> Map<Key, u64> {
    if alive(m, key, now) {
        m.insert(key, now)
    } else {
        m.remove(key)
    }
}

/// When each entry was last used.
#[derive(Debug)]
struct Table {
    entries: Vec<(Key, u64)>,
}

/// What the entries say of `key`.
spec fn entry(entries: Seq<(Key, u64)>, key: Key) -> Option<u64>
    decreases entries.len(),
{
    if entries.len() == 0 {
        None
    } else if entries.last().0 == key {
        Some(entries.last().1)
    } else {
        entry(entries.drop_last(), key)
    }
}

/// No key occurs twice.
spec fn unique(entries: Seq<(Key, u64)>) -> bool {
    forall|i: int, j: int| 0 <= i < j < entries.len() ==> entries[i].0 != entries[j].0
}

/// The entries as a map.
spec fn as_map(entries: Seq<(Key, u64)>) -> Map<Key, u64> {
    Map::new(|k: Key| entry(entries, k) is Some, |k: Key| entry(entries, k)->0)
}

proof fn lemma_entry(entries: Seq<(Key, u64)>, key: Key)
    ensures
        match entry(entries, key) {
            Some(v) => exists|i: int| 0 <= i < entries.len() && #[trigger] entries[i] == (key, v),
            None => forall|i: int| 0 <= i < entries.len() ==> (#[trigger] entries[i]).0 != key,
        },
    decreases entries.len(),
{
    if entries.len() > 0 {
        let init = entries.drop_last();
        lemma_entry(init, key);
        if entries.last().0 == key {
            assert(entries[entries.len() - 1] == (key, entries.last().1));
        } else if entry(init, key) is Some {
            let v = entry(init, key)->0;
            let i = choose|i: int| 0 <= i < init.len() && #[trigger] init[i] == (key, v);
            assert(entries[i] == (key, v));
        } else {
            assert forall|i: int| 0 <= i < entries.len() implies (#[trigger] entries[i]).0
                != key by {
                if i < init.len() {
                    assert(init[i].0 != key);
                }
            }
        }
    }
}

proof fn lemma_entry_at(entries: Seq<(Key, u64)>, i: int)
    requires
        unique(entries),
        0 <= i < entries.len(),
    ensures
        entry(entries, entries[i].0) == Some(entries[i].1),
{
    let key = entries[i].0;
    lemma_entry(entries, key);
    if entry(entries, key) is None {
        assert(entries[i].0 != key);
    } else {
        let v = entry(entries, key)->0;
        let j = choose|j: int| 0 <= j < entries.len() && #[trigger] entries[j] == (key, v);
        if i < j {
            assert(entries[i].0 != entries[j].0);
        } else if j < i {
            assert(entries[j].0 != entries[i].0);
        }
    }
}

proof fn lemma_len(entries: Seq<(Key, u64)>)
    requires
        unique(entries),
    ensures
        as_map(entries).dom().finite(),
        as_map(entries).dom().len() == entries.len(),
    decreases entries.len(),
{
    if entries.len() == 0 {
        assert(as_map(entries).dom() =~= Set::empty());
    } else {
        let init = entries.drop_last();
        assert(unique(init));
        lemma_len(init);
        let last = entries.last().0;
        assert(as_map(entries).dom() =~= as_map(init).dom().insert(last));
        lemma_entry(init, last);
        if as_map(init).dom().contains(last) {
            let v = entry(init, last)->0;
            let j = choose|j: int| 0 <= j < init.len() && #[trigger] init[j] == (last, v);
            assert(entries[j].0 == entries[entries.len() - 1].0);
        }
    }
}

proof fn lemma_push(entries: Seq<(Key, u64)>, key: Key, value: u64)
    requires
        unique(entries),
        entry(entries, key) is None,
    ensures
        unique(entries.push((key, value))),
        as_map(entries.push((key, value))) == as_map(entries).insert(key, value),
{
    let after = entries.push((key, value));
    assert(after.drop_last() =~= entries);
    lemma_entry(entries, key);
    assert(as_map(after) =~= as_map(entries).insert(key, value));
}

proof fn lemma_update(entries: Seq<(Key, u64)>, i: int, value: u64)
    requires
        unique(entries),
        0 <= i < entries.len(),
    ensures
        unique(entries.update(i, (entries[i].0, value))),
        as_map(entries.update(i, (entries[i].0, value))) == as_map(entries).insert(
            entries[i].0,
            value,
        ),
{
    let key = entries[i].0;
    let after = entries.update(i, (key, value));
    assert forall|a: int, b: int| 0 <= a < b < after.len() implies after[a].0 != after[b].0 by {
        assert(entries[a].0 != entries[b].0);
    }
    let left = as_map(after);
    let right = as_map(entries).insert(key, value);
    assert forall|k: Key| #[trigger] left.dom().contains(k) <==> right.dom().contains(k) by {
        lemma_same_keys(entries, after, k);
        lemma_entry_at(entries, i);
    }
    assert forall|k: Key| #[trigger] left.dom().contains(k) implies left[k] == right[k] by {
        lemma_entry(after, k);
        let v = entry(after, k)->0;
        let j = choose|j: int| 0 <= j < after.len() && #[trigger] after[j] == (k, v);
        if j != i {
            assert(entries[j] == (k, v));
            lemma_entry_at(entries, j);
            if k == key {
                lemma_entry_at(after, i);
                lemma_entry_at(after, j);
                if i < j {
                    assert(entries[i].0 != entries[j].0);
                } else {
                    assert(entries[j].0 != entries[i].0);
                }
            }
        }
    }
    assert(left =~= right);
}

proof fn lemma_same_keys(a: Seq<(Key, u64)>, b: Seq<(Key, u64)>, key: Key)
    requires
        a.len() == b.len(),
        forall|i: int| 0 <= i < a.len() ==> (#[trigger] a[i]).0 == b[i].0,
    ensures
        entry(a, key) is Some <==> entry(b, key) is Some,
    decreases a.len(),
{
    if a.len() > 0 {
        assert(a[a.len() - 1].0 == b[b.len() - 1].0);
        assert forall|i: int| 0 <= i < a.drop_last().len() implies (
        #[trigger] a.drop_last()[i]).0 == b.drop_last()[i].0 by {
            assert(a[i].0 == b[i].0);
        }
        lemma_same_keys(a.drop_last(), b.drop_last(), key);
    }
}

proof fn lemma_remove(entries: Seq<(Key, u64)>, i: int)
    requires
        unique(entries),
        0 <= i < entries.len(),
    ensures
        unique(entries.remove(i)),
        as_map(entries.remove(i)) == as_map(entries).remove(entries[i].0),
{
    let key = entries[i].0;
    let after = entries.remove(i);
    assert forall|a: int, b: int| 0 <= a < b < after.len() implies after[a].0 != after[b].0 by {
        let a0 = if a < i { a } else { a + 1 };
        let b0 = if b < i { b } else { b + 1 };
        assert(entries[a0].0 != entries[b0].0);
    }
    let left = as_map(after);
    let right = as_map(entries).remove(key);
    assert forall|k: Key|
        {
            &&& #[trigger] left.dom().contains(k) <==> right.dom().contains(k)
            &&& left.dom().contains(k) ==> left[k] == right[k]
        } by {
        lemma_entry(after, k);
        lemma_entry(entries, k);
        if left.dom().contains(k) {
            let v = entry(after, k)->0;
            let j = choose|j: int| 0 <= j < after.len() && #[trigger] after[j] == (k, v);
            let j0 = if j < i { j } else { j + 1 };
            assert(entries[j0] == (k, v));
            lemma_entry_at(entries, j0);
            if i < j0 {
                assert(entries[i].0 != entries[j0].0);
            } else {
                assert(entries[j0].0 != entries[i].0);
            }
        }
        if right.dom().contains(k) {
            let v = entry(entries, k)->0;
            let j = choose|j: int| 0 <= j < entries.len() && #[trigger] entries[j] == (k, v);
            let j0 = if j < i { j } else { j - 1 };
            assert(after[j0] == (k, v));
        }
    }
    assert(left =~= right);
}

impl View for Table {
    type V = Map<Key, u64>;

    closed spec fn view(&self) -> Map<Key, u64> {
        as_map(self.entries@)
    }
}

impl Table {
    spec fn wf(self) -> bool {
        unique(self.entries@)
    }

    fn new() -> (t: Table)
        ensures
            t.wf(),
            t@ == Map::<Key, u64>::empty(),
            t.entries@.len() == 0,
    {
        let t = Table { entries: Vec::new() };
        assert(t@ =~= Map::<Key, u64>::empty());
        t
    }

    /// Where `key` stands.
    fn find(&self, key: Key) -> (r: Option<usize>)
        requires
            self.wf(),
        ensures
            match r {
                Some(i) => i < self.entries@.len() && self.entries@[i as int].0 == key
                    && self@.dom().contains(key) && self@[key] == self.entries@[i as int].1,
                None => !self@.dom().contains(key),
            },
    {
        let mut i: usize = 0;
        while i < self.entries.len()
            invariant
                i <= self.entries@.len(),
                self.wf(),
                forall|j: int| 0 <= j < i ==> (#[trigger] self.entries@[j]).0 != key,
            decreases self.entries@.len() - i,
        {
            if self.entries[i].0 == key {
                proof {
                    lemma_entry_at(self.entries@, i as int);
                }
                return Some(i);
            }
            i = i + 1;
        }
        proof {
            lemma_entry(self.entries@, key);
        }
        None
    }

    /// Drops the entries that have been idle for too long.
    fn expire(&mut self, now: u64)
        requires
            old(self).wf(),
        ensures
            final(self).wf(),
            final(self)@ == live(old(self)@, now),
    {
        let ghost before = self@;
        let mut i: usize = 0;
        while i < self.entries.len()
            invariant
                i <= self.entries@.len(),
                self.wf(),
                live(self@, now) == live(before, now),
                forall|j: int|
                    0 <= j < i ==> !idle((#[trigger] self.entries@[j]).1, now),
            decreases self.entries@.len() - i,
        {
            let (key, last) = self.entries[i];
            if now.saturating_sub(last) > IDLE_MS {
                let ghost m = self@;
                proof {
                    lemma_remove(self.entries@, i as int);
                    lemma_entry_at(self.entries@, i as int);
                }
                let ghost seen = self.entries@;
                let _ = self.entries.remove(i);
                proof {
                    assert(self@ == m.remove(key));
                    assert(live(self@, now) =~= live(m, now));
                    assert forall|j: int| 0 <= j < i implies !idle(
                        (#[trigger] self.entries@[j]).1,
                        now,
                    ) by {
                        assert(self.entries@[j] == seen[j]);
                    }
                }
            } else {
                i = i + 1;
            }
        }
        proof {
            assert forall|k: Key| #[trigger] self@.dom().contains(k) implies !idle(
                self@[k],
                now,
            ) by {
                lemma_entry(self.entries@, k);
                let v = entry(self.entries@, k)->0;
                let j = choose|j: int|
                    0 <= j < self.entries@.len() && #[trigger] self.entries@[j] == (k, v);
                assert(!idle(self.entries@[j].1, now));
            }
            assert(live(self@, now) =~= self@);
        }
    }

    /// Removes an entry that was used no later than any other.
    fn drop_oldest(&mut self) -> (gone: Key)
        requires
            old(self).wf(),
            old(self).entries@.len() > 0,
        ensures
            final(self).wf(),
            old(self)@.dom().contains(gone),
            final(self)@ == old(self)@.remove(gone),
            forall|k: Key|
                #[trigger] old(self)@.dom().contains(k) ==> old(self)@[gone] <= old(self)@[k],
            final(self).entries@.len() == old(self).entries@.len() - 1,
    {
        let mut best: usize = 0;
        let mut i: usize = 1;
        while i < self.entries.len()
            invariant
                best < i <= self.entries@.len(),
                forall|j: int|
                    0 <= j < i ==> self.entries@[best as int].1 <= (#[trigger] self.entries@[j]).1,
            decreases self.entries@.len() - i,
        {
            if self.entries[i].1 < self.entries[best].1 {
                best = i;
            }
            i = i + 1;
        }
        let gone = self.entries[best].0;
        proof {
            lemma_remove(self.entries@, best as int);
            lemma_entry_at(self.entries@, best as int);
            assert forall|k: Key| #[trigger] self@.dom().contains(k) implies self@[gone]
                <= self@[k] by {
                lemma_entry(self.entries@, k);
                let v = entry(self.entries@, k)->0;
                let j = choose|j: int|
                    0 <= j < self.entries@.len() && #[trigger] self.entries@[j] == (k, v);
                assert(self.entries@[best as int].1 <= self.entries@[j].1);
            }
        }
        let _ = self.entries.remove(best);
        gone
    }

    /// Makes room in a full table.
    fn evict(&mut self, now: u64)
        requires
            old(self).wf(),
        ensures
            final(self).wf(),
            made_room(old(self)@, final(self)@, now),
            final(self).entries@.len() < MAX_FLOWS,
    {
        let ghost before = self@;
        self.expire(now);
        let ghost fresh = live(before, now);
        proof {
            lemma_len(self.entries@);
        }
        let full = self.entries.len() >= MAX_FLOWS;
        while self.entries.len() >= MAX_FLOWS
            invariant
                self.wf(),
                fresh == live(before, now),
                self@.submap_of(fresh),
                full ==> self.entries@.len() >= MAX_FLOWS - 1,
                !full ==> self@ == fresh && self.entries@.len() < MAX_FLOWS,
                fresh.dom().finite(),
                full == (fresh.dom().len() >= MAX_FLOWS),
                forall|gone: Key, stays: Key|
                    fresh.dom().contains(gone) && !#[trigger] self@.dom().contains(gone)
                        && #[trigger] self@.dom().contains(stays) ==> before[gone]
                        <= before[stays],
            decreases self.entries@.len(),
        {
            let ghost m = self@;
            let gone = self.drop_oldest();
            proof {
                assert forall|g: Key, s: Key|
                    fresh.dom().contains(g) && !#[trigger] self@.dom().contains(g)
                        && #[trigger] self@.dom().contains(s) implies before[g] <= before[s] by {
                    assert(m.dom().contains(s) && fresh.dom().contains(s));
                    assert(m[s] == fresh[s]);
                    if g == gone {
                        assert(m.dom().contains(gone) && fresh.dom().contains(gone));
                    } else {
                        assert(!m.dom().contains(g));
                    }
                }
            }
        }
        proof {
            lemma_len(self.entries@);
        }
    }

    /// Puts `key` in, making room first if the table is full.
    fn put(&mut self, key: Key, now: u64)
        requires
            old(self).wf(),
        ensures
            final(self).wf(),
            put(old(self)@, final(self)@, key, now),
            old(self).entries@.len() <= MAX_FLOWS ==> final(self).entries@.len() <= MAX_FLOWS,
    {
        proof {
            lemma_len(self.entries@);
        }
        match self.find(key) {
            Some(i) => {
                proof {
                    lemma_update(self.entries@, i as int, now);
                }
                self.entries[i] = (key, now);
            },
            None => {
                let ghost before = self@;
                if self.entries.len() >= MAX_FLOWS {
                    self.evict(now);
                }
                proof {
                    if self@.dom().contains(key) {
                        assert(live(before, now).dom().contains(key));
                    }
                    lemma_push(self.entries@, key, now);
                    assert(before.dom().len() >= MAX_FLOWS ==> made_room(before, self@, now));
                }
                self.entries.push((key, now));
            },
        }
    }

    /// Whether `key` is there alive, refreshing it if so.
    fn touch(&mut self, key: Key, now: u64) -> (r: bool)
        requires
            old(self).wf(),
        ensures
            final(self).wf(),
            r == alive(old(self)@, key, now),
            final(self)@ == touched(old(self)@, key, now),
            final(self).entries@.len() <= old(self).entries@.len(),
    {
        match self.find(key) {
            Some(i) => {
                if now.saturating_sub(self.entries[i].1) > IDLE_MS {
                    proof {
                        lemma_remove(self.entries@, i as int);
                    }
                    let _ = self.entries.remove(i);
                    false
                } else {
                    proof {
                        lemma_update(self.entries@, i as int, now);
                    }
                    self.entries[i] = (key, now);
                    true
                }
            },
            None => {
                assert(self@.remove(key) =~= self@);
                false
            },
        }
    }
}

/// The flows this node holds open with one peer.
#[derive(Debug)]
pub struct Flows {
    seen: Table,
}

impl View for Flows {
    type V = Map<Key, u64>;

    closed spec fn view(&self) -> Map<Key, u64> {
        self.seen@
    }
}

impl Flows {
    /// No flow occurs twice, and there are no more than the limit.
    pub closed spec fn wf(self) -> bool {
        self.seen.wf() && self.seen.entries@.len() <= MAX_FLOWS
    }

    /// An empty table, which permits nothing on its own.
    pub fn new() -> (f: Flows)
        ensures
            f.wf(),
            f@ == Map::<Key, u64>::empty(),
    {
        Flows { seen: Table::new() }
    }

    /// Records that a rule permitted this packet. To be called for such a
    /// packet only: that is what makes a flow unforgeable.
    pub fn record(&mut self, direction: Direction, packet: &Packet, now: u64)
        requires
            old(self).wf(),
        ensures
            final(self).wf(),
            match flow_key(direction, *packet) {
                Some(key) => put(old(self)@, final(self)@, key, now),
                None => final(self)@ == old(self)@,
            },
    {
        if let Some(key) = Key::of(direction, packet) {
            self.seen.put(key, now);
        }
    }

    /// Whether an existing flow permits this packet, refreshing it if so.
    pub fn permits(&mut self, direction: Direction, packet: &Packet, now: u64) -> (r: bool)
        requires
            old(self).wf(),
        ensures
            final(self).wf(),
            match flow_key(direction, *packet) {
                Some(key) => {
                    &&& r == alive(old(self)@, key, now)
                    &&& final(self)@ == touched(old(self)@, key, now)
                },
                None => !r && final(self)@ == old(self)@,
            },
    {
        match Key::of(direction, packet) {
            Some(key) => self.seen.touch(key, now),
            None => false,
        }
    }

    /// Forgets everything. To be called when the policy changes: a flow is a
    /// cached permission, and must not outlive the rule that granted it.
    pub fn clear(&mut self)
        ensures
            final(self).wf(),
            final(self)@ == Map::<Key, u64>::empty(),
    {
        self.seen = Table::new();
    }

    /// Flows currently held.
    pub fn len(&self) -> (n: usize)
        requires
            self.wf(),
        ensures
            n == self@.dom().len(),
            n <= MAX_FLOWS,
    {
        proof {
            lemma_len(self.seen.entries@);
        }
        self.seen.entries.len()
    }

    /// Whether nothing is tracked.
    pub fn is_empty(&self) -> (r: bool)
        requires
            self.wf(),
        ensures
            r == (self@.dom().len() == 0),
    {
        self.len() == 0
    }
}

/// The flows that the SSH gate has already admitted, so that its rules are
/// matched once per flow rather than once per packet.
///
/// An entry exists only because the SSH gate permitted the flow it names; a flow
/// that it denied is checked again.
#[derive(Debug)]
pub struct SshAdmissions {
    seen: Table,
}

impl View for SshAdmissions {
    type V = Map<Key, u64>;

    closed spec fn view(&self) -> Map<Key, u64> {
        self.seen@
    }
}

impl SshAdmissions {
    /// No flow occurs twice, and there are no more than the limit.
    pub closed spec fn wf(self) -> bool {
        self.seen.wf() && self.seen.entries@.len() <= MAX_FLOWS
    }

    /// An empty cache: every flow still needs its first check.
    pub fn new() -> (f: SshAdmissions)
        ensures
            f.wf(),
            f@ == Map::<Key, u64>::empty(),
    {
        SshAdmissions { seen: Table::new() }
    }

    /// Whether this flow was already admitted, refreshing it if so.
    pub fn is_admitted(&mut self, direction: Direction, packet: &Packet, now: u64) -> (r: bool)
        requires
            old(self).wf(),
        ensures
            final(self).wf(),
            match flow_key(direction, *packet) {
                Some(key) => {
                    &&& r == alive(old(self)@, key, now)
                    &&& final(self)@ == touched(old(self)@, key, now)
                },
                None => !r && final(self)@ == old(self)@,
            },
    {
        match Key::of(direction, packet) {
            Some(key) => self.seen.touch(key, now),
            None => false,
        }
    }

    /// Records that the SSH gate admitted this flow.
    pub fn record(&mut self, direction: Direction, packet: &Packet, now: u64)
        requires
            old(self).wf(),
        ensures
            final(self).wf(),
            match flow_key(direction, *packet) {
                Some(key) => put(old(self)@, final(self)@, key, now),
                None => final(self)@ == old(self)@,
            },
    {
        if let Some(key) = Key::of(direction, packet) {
            self.seen.put(key, now);
        }
    }

    /// Forgets every admission.
    pub fn clear(&mut self)
        ensures
            final(self).wf(),
            final(self)@ == Map::<Key, u64>::empty(),
    {
        self.seen = Table::new();
    }

    /// Admissions currently held.
    pub fn len(&self) -> (n: usize)
        requires
            self.wf(),
        ensures
            n == self@.dom().len(),
            n <= MAX_FLOWS,
    {
        proof {
            lemma_len(self.seen.entries@);
        }
        self.seen.entries.len()
    }

    /// Whether nothing is tracked.
    pub fn is_empty(&self) -> (r: bool)
        requires
            self.wf(),
        ensures
            r == (self@.dom().len() == 0),
    {
        self.len() == 0
    }
}

/// `b` goes the other way between the same two ends, under the same protocol.
pub open spec fn reply_to(a: Packet, b: Packet) -> bool {
    match (a.ports, a.addresses, b.ports, b.addresses) {
        (Some(p), Some(x), Some(q), Some(y)) => {
            &&& p.protocol == q.protocol
            &&& p.source == q.destination
            &&& p.destination == q.source
            &&& x.source == y.destination
            &&& x.destination == y.source
        },
        _ => false,
    }
}

/// The opposite direction.
pub open spec fn opposite(d: Direction) -> Direction {
    match d {
        Direction::In => Direction::Out,
        Direction::Out => Direction::In,
    }
}

/// A flow permits exactly the reverse five-tuple: of the packets going the
/// other way, those that share the flow's key are the replies and no others.
pub proof fn a_flow_is_its_reverse_tuple(d: Direction, sent: Packet, back: Packet)
    requires
        flow_key(d, sent) is Some,
    ensures
        flow_key(opposite(d), back) == flow_key(d, sent) <==> reply_to(sent, back),
{
}

/// What was recorded is permitted back, until it has been idle too long.
pub proof fn a_recorded_flow_admits_its_reply(
    m: Map<Key, u64>,
    after: Map<Key, u64>,
    key: Key,
    at: u64,
    now: u64,
)
    requires
        put(m, after, key, at),
        !idle(at, now),
    ensures
        alive(after, key, now),
{
}

/// Recording one flow opens no other: a flow that is alive afterwards was alive
/// before, or is the one that was recorded.
pub proof fn recording_opens_one_flow(
    m: Map<Key, u64>,
    after: Map<Key, u64>,
    key: Key,
    other: Key,
    at: u64,
    now: u64,
)
    requires
        put(m, after, key, at),
        other != key,
        alive(after, other, now),
    ensures
        alive(m, other, now),
{
    if !(m.dom().contains(key) || m.dom().len() < MAX_FLOWS) {
        let kept = choose|kept: Map<Key, u64>| #[trigger]
            made_room(m, kept, at) && after == kept.insert(key, at);
        assert(kept.dom().contains(other));
        assert(live(m, at).dom().contains(other));
    }
}

/// An idle flow lapses, and looking it up forgets it.
pub proof fn an_idle_flow_lapses(m: Map<Key, u64>, key: Key, now: u64)
    requires
        m.dom().contains(key),
        now - m[key] > IDLE_MS,
    ensures
        !alive(m, key, now),
        !touched(m, key, now).dom().contains(key),
{
}

/// A cleared table permits nothing.
pub proof fn a_cleared_table_permits_nothing(key: Key, now: u64)
    ensures
        !alive(Map::<Key, u64>::empty(), key, now),
{
}

/// Expired flows make room before live ones: as long as there is room beside
/// the live ones, recording a flow costs none of them.
pub proof fn expiry_is_reclaimed_before_anything_live(
    m: Map<Key, u64>,
    after: Map<Key, u64>,
    key: Key,
    other: Key,
    at: u64,
)
    requires
        put(m, after, key, at),
        live(m, at).dom().len() < MAX_FLOWS,
        alive(m, other, at),
        other != key,
    ensures
        alive(after, other, at),
        after[other] == m[other],
{
    if !(m.dom().contains(key) || m.dom().len() < MAX_FLOWS) {
        let kept = choose|kept: Map<Key, u64>| #[trigger]
            made_room(m, kept, at) && after == kept.insert(key, at);
        assert(live(m, at).dom().contains(other));
    }
}

/// Recording a flow keeps the table within its bound.
pub proof fn the_table_stays_bounded(
    m: Map<Key, u64>,
    after: Map<Key, u64>,
    key: Key,
    at: u64,
)
    requires
        put(m, after, key, at),
        m.dom().finite(),
        m.dom().len() <= MAX_FLOWS,
    ensures
        after.dom().finite(),
        after.dom().len() <= MAX_FLOWS,
{
    if m.dom().contains(key) || m.dom().len() < MAX_FLOWS {
        assert(after.dom() =~= m.dom().insert(key));
    } else {
        let kept = choose|kept: Map<Key, u64>| #[trigger]
            made_room(m, kept, at) && after == kept.insert(key, at);
        assert forall|k: Key| kept.dom().contains(k) implies m.dom().contains(k) by {
            assert(live(m, at).dom().contains(k));
        }
        vstd::set_lib::lemma_len_subset(kept.dom(), m.dom());
        assert(after.dom() =~= kept.dom().insert(key));
    }
}

/// Whether two packets, each going its own way, belong to one conversation:
/// the same protocol, and the same address and port at this node and at the
/// other end.
pub open spec fn one_conversation(d: Direction, a: Packet, e: Direction, b: Packet) -> bool {
    match (a.ports, a.addresses, b.ports, b.addresses) {
        (Some(p), Some(x), Some(q), Some(y)) => {
            &&& p.protocol == q.protocol
            &&& if d == e {
                &&& p.source == q.source
                &&& p.destination == q.destination
                &&& x.source == y.source
                &&& x.destination == y.destination
            } else {
                &&& p.source == q.destination
                &&& p.destination == q.source
                &&& x.source == y.destination
                &&& x.destination == y.source
            }
        },
        _ => false,
    }
}

/// The packets of one conversation, whichever way they go, belong to one flow,
/// and no others do. A packet without ports or addresses belongs to none.
pub proof fn a_flow_is_a_conversation(
    d: Direction,
    a: &Packet,
    ka: Option<Key>,
    e: Direction,
    b: &Packet,
    kb: Option<Key>,
)
    requires
        call_ensures(Key::of, (d, a), ka),
        call_ensures(Key::of, (e, b), kb),
    ensures
        ka is Some && ka == kb <==> one_conversation(d, *a, e, *b),
        ka is None <==> a.ports is None || a.addresses is None,
        ka matches Some(k) ==> {
            &&& k.protocol == a.ports->0.protocol
            &&& k.local == (if d == Direction::Out {
                a.addresses->0.source
            } else {
                a.addresses->0.destination
            })
        },
{
}

/// After a packet has been recorded, its conversation is permitted both ways
/// for two minutes and then no longer; whatever else is permitted was permitted
/// before.
pub proof fn a_recorded_flow_is_permitted(
    d: Direction,
    sent: &Packet,
    at: u64,
    e: Direction,
    p: &Packet,
    now: u64,
    f: &mut Flows,
    later: &mut Flows,
    r: bool,
    without: &mut Flows,
    q: bool,
)
    requires
        call_ensures(Flows::record, (f, d, sent, at), ()),
        *old(later) == *final(f),
        call_ensures(Flows::permits, (later, e, p, now), r),
        *old(without) == *old(f),
        call_ensures(Flows::permits, (without, e, p, now), q),
    ensures
        one_conversation(d, *sent, e, *p) ==> r == (now - at <= 120_000),
        r && !one_conversation(d, *sent, e, *p) ==> q,
        old(f)@.dom().len() < 4096 && !one_conversation(d, *sent, e, *p) ==> r == q,
{
    if let (Some(key), Some(other)) = (flow_key(d, *sent), flow_key(e, *p)) {
        if key != other && r {
            recording_opens_one_flow(old(f)@, final(f)@, key, other, at, now);
        }
    }
}

/// A flow that permits a packet is refreshed by it, and permits the
/// conversation for two minutes more; looking one flow up changes no other.
pub proof fn a_used_flow_stays_open(
    d: Direction,
    first: &Packet,
    at: u64,
    e: Direction,
    p: &Packet,
    now: u64,
    f: &mut Flows,
    r: bool,
    later: &mut Flows,
    again: bool,
    without: &mut Flows,
    q: bool,
)
    requires
        call_ensures(Flows::permits, (f, d, first, at), r),
        *old(later) == *final(f),
        call_ensures(Flows::permits, (later, e, p, now), again),
        *old(without) == *old(f),
        call_ensures(Flows::permits, (without, e, p, now), q),
    ensures
        one_conversation(d, *first, e, *p) ==> again == (r && now - at <= 120_000),
        !one_conversation(d, *first, e, *p) ==> again == q,
        first.ports is None || first.addresses is None ==> !r,
{
}

/// Nothing is permitted by an empty table, nor by one that was cleared.
pub proof fn forgotten_flows_permit_nothing(
    empty: Flows,
    f: &mut Flows,
    later: &mut Flows,
    d: Direction,
    p: &Packet,
    now: u64,
    r: bool,
)
    requires
        call_ensures(Flows::new, (), empty),
        call_ensures(Flows::clear, (f,), ()),
        *old(later) == empty || *old(later) == *final(f),
        call_ensures(Flows::permits, (later, d, p, now), r),
    ensures
        !r,
{
}

/// No more than 4096 flows are held. A full table gives up flows that have been
/// idle for more than two minutes; and where that makes no room, the one that
/// has gone unused for longest.
pub proof fn a_full_table_gives_up_the_least_recent(
    f: &mut Flows,
    d: Direction,
    p: &Packet,
    at: u64,
    key: Option<Key>,
    gone: Key,
    stays: Key,
)
    requires
        old(f)@.dom().finite(),
        old(f)@.dom().len() <= 4096,
        call_ensures(Key::of, (d, p), key),
        call_ensures(Flows::record, (f, d, p, at), ()),
        old(f)@.dom().contains(gone),
        at - old(f)@[gone] <= 120_000,
        !final(f)@.dom().contains(gone),
        final(f)@.dom().contains(stays),
        Some(stays) != key,
    ensures
        final(f)@.dom().len() <= 4096,
        old(f)@.dom().len() == 4096,
        old(f)@.dom().contains(stays),
        at - old(f)@[stays] <= 120_000,
        final(f)@[stays] == old(f)@[stays],
        old(f)@[gone] <= old(f)@[stays],
{
    let k = flow_key(d, *p)->0;
    the_table_stays_bounded(old(f)@, final(f)@, k, at);
    let m = old(f)@;
    let kept = choose|kept: Map<Key, u64>| #[trigger]
        made_room(m, kept, at) && final(f)@ == kept.insert(k, at);
    assert(made_room(m, kept, at));
    assert(kept.dom().contains(stays));
    assert(live(m, at).dom().contains(gone));
    assert(live(m, at).dom().contains(stays));
    assert(!kept.dom().contains(gone));
}

/// The SSH gate's memory works as the flow table does: what was admitted is
/// remembered, both ways, until it has been idle for two minutes, and nothing
/// else is.
pub proof fn an_admission_is_remembered(
    d: Direction,
    sent: &Packet,
    at: u64,
    e: Direction,
    p: &Packet,
    now: u64,
    f: &mut SshAdmissions,
    later: &mut SshAdmissions,
    r: bool,
    without: &mut SshAdmissions,
    q: bool,
)
    requires
        call_ensures(SshAdmissions::record, (f, d, sent, at), ()),
        *old(later) == *final(f),
        call_ensures(SshAdmissions::is_admitted, (later, e, p, now), r),
        *old(without) == *old(f),
        call_ensures(SshAdmissions::is_admitted, (without, e, p, now), q),
    ensures
        one_conversation(d, *sent, e, *p) ==> r == (now - at <= 120_000),
        r && !one_conversation(d, *sent, e, *p) ==> q,
        old(f)@.dom().len() < 4096 && !one_conversation(d, *sent, e, *p) ==> r == q,
{
    if let (Some(key), Some(other)) = (flow_key(d, *sent), flow_key(e, *p)) {
        if key != other && r {
            recording_opens_one_flow(old(f)@, final(f)@, key, other, at, now);
        }
    }
}

/// An admission that is used is kept for two minutes more, and a cache that is
/// empty or was cleared admits nothing.
pub proof fn an_admission_is_refreshed(
    d: Direction,
    first: &Packet,
    at: u64,
    e: Direction,
    p: &Packet,
    now: u64,
    f: &mut SshAdmissions,
    r: bool,
    later: &mut SshAdmissions,
    again: bool,
    cleared: &mut SshAdmissions,
    empty: SshAdmissions,
    fresh: &mut SshAdmissions,
    q: bool,
)
    requires
        call_ensures(SshAdmissions::is_admitted, (f, d, first, at), r),
        *old(later) == *final(f),
        call_ensures(SshAdmissions::is_admitted, (later, e, p, now), again),
        call_ensures(SshAdmissions::new, (), empty),
        call_ensures(SshAdmissions::clear, (cleared,), ()),
        *old(fresh) == empty || *old(fresh) == *final(cleared),
        call_ensures(SshAdmissions::is_admitted, (fresh, e, p, now), q),
    ensures
        one_conversation(d, *first, e, *p) ==> again == (r && now - at <= 120_000),
        !q,
{
}

/// The numbers that are reported are those of the flows that are held.
pub proof fn a_table_counts_its_flows(
    f: Flows,
    n: usize,
    none: bool,
    s: SshAdmissions,
    m: usize,
    empty: bool,
)
    requires
        call_ensures(Flows::len, (&f,), n),
        call_ensures(Flows::is_empty, (&f,), none),
        call_ensures(SshAdmissions::len, (&s,), m),
        call_ensures(SshAdmissions::is_empty, (&s,), empty),
    ensures
        n == f@.dom().len() && n <= 4096,
        none == (n == 0),
        m == s@.dom().len() && m <= 4096,
        empty == (m == 0),
{
}

} // verus!
