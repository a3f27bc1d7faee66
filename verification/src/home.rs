//! Choosing a home relay.
//!
//! A node keeps a connection to one relay for as long as it runs, so that peers
//! have somewhere to reach it before any direct path exists. Round-trip times
//! arrive from the caller; this says which relay to hold.
//!
//! The cost of flapping is not paid by the node that flaps: every change must
//! reach the coordination server and from there every peer. So a challenger has
//! to beat the relay in hand by a margin, round after round, before it is taken.

use crate::bytes::{byte_order_is_total, byte_order_is_transitive, bytes_le};
use crate::engine::RelayId;
use vstd::prelude::*;

verus! {

/// Consecutive rounds that a challenger has to win.
pub const HYSTERESIS_SAMPLES: u32 = 3;

/// The smallest improvement that counts, in milliseconds.
pub const MARGIN_MS: u64 = 20;

/// The improvement that a challenger owes: 20 ms or a fifth of the round-trip
/// time in hand, whichever is larger.
pub open spec fn margin(incumbent: u64) -> int {
    if incumbent / 5 > MARGIN_MS {
        (incumbent / 5) as int
    } else {
        MARGIN_MS as int
    }
}

/// Whether `challenger` is faster than `incumbent` by the margin.
pub open spec fn better(challenger: u64, incumbent: u64) -> bool {
    incumbent - challenger >= margin(incumbent)
}

/// What the entries say of a relay; a later entry replaces an earlier one.
pub open spec fn lookup<V>(entries: Seq<(RelayId, V)>, id: RelayId) -> Option<V>
    decreases entries.len(),
{
    if entries.len() == 0 {
        None
    } else if entries.last().0 == id {
        Some(entries.last().1)
    } else {
        lookup(entries.drop_last(), id)
    }
}

/// The entries as a map.
pub open spec fn as_map<V>(entries: Seq<(RelayId, V)>) -> Map<RelayId, V> {
    Map::new(|id: RelayId| lookup(entries, id) is Some, |id: RelayId| lookup(entries, id)->0)
}

/// The fastest relay of a round; the smaller id wins a tie.
pub open spec fn fastest(round: Map<RelayId, u64>, id: RelayId) -> bool {
    &&& round.dom().contains(id)
    &&& forall|other: RelayId| #[trigger]
        round.dom().contains(other) ==> round[id] < round[other] || (round[id] == round[other]
            && bytes_le(id.0@, other.0@))
}

/// The challengers that beat the incumbent this round, each with the rounds it
/// has now won in a row.
pub open spec fn advanced(
    streak: Map<RelayId, u32>,
    round: Map<RelayId, u64>,
    incumbent: u64,
) -> Map<RelayId, u32> {
    Map::new(
        |id: RelayId| round.dom().contains(id) && better(round[id], incumbent),
        |id: RelayId| won(streak, id),
    )
}

/// The rounds that a relay has won in a row, with one more.
pub open spec fn won(streak: Map<RelayId, u32>, id: RelayId) -> u32 {
    if !streak.dom().contains(id) {
        1
    } else if streak[id] == u32::MAX {
        u32::MAX
    } else {
        (streak[id] + 1) as u32
    }
}

/// Which relay to hold a connection to.
#[derive(Debug)]
pub struct Selector {
    pub chosen: Option<RelayId>,
    /// The round-trip times of this round.
    pub latest: Vec<(RelayId, u64)>,
    /// Consecutive rounds in which a challenger has beaten the incumbent by the
    /// margin.
    pub streak: Vec<(RelayId, u32)>,
}

/// A selector as a value.
#[verifier::ext_equal]
pub struct Choice {
    pub chosen: Option<RelayId>,
    pub latest: Map<RelayId, u64>,
    pub streak: Map<RelayId, u32>,
}

impl View for Selector {
    type V = Choice;

    open spec fn view(&self) -> Choice {
        Choice {
            chosen: self.chosen,
            latest: as_map(self.latest@),
            streak: as_map(self.streak@),
        }
    }
}

/// The entries of relays other than `id`.
spec fn others<V>(entries: Seq<(RelayId, V)>, id: RelayId) -> Seq<(RelayId, V)>
    decreases entries.len(),
{
    if entries.len() == 0 {
        seq![]
    } else if entries.last().0 == id {
        others(entries.drop_last(), id)
    } else {
        others(entries.drop_last(), id).push(entries.last())
    }
}

proof fn lemma_others<V>(entries: Seq<(RelayId, V)>, id: RelayId, wanted: RelayId)
    ensures
        lookup(others(entries, id), wanted) == if wanted == id {
            None
        } else {
            lookup(entries, wanted)
        },
    decreases entries.len(),
{
    if entries.len() > 0 {
        lemma_others(entries.drop_last(), id, wanted);
        let rest = others(entries.drop_last(), id);
        assert(rest.push(entries.last()).drop_last() =~= rest);
    }
}

/// The entries of the relays in `present`.
spec fn kept<V>(entries: Seq<(RelayId, V)>, present: Seq<RelayId>) -> Seq<(RelayId, V)>
    decreases entries.len(),
{
    if entries.len() == 0 {
        seq![]
    } else if present.contains(entries.last().0) {
        kept(entries.drop_last(), present).push(entries.last())
    } else {
        kept(entries.drop_last(), present)
    }
}

proof fn lemma_kept<V>(entries: Seq<(RelayId, V)>, present: Seq<RelayId>, wanted: RelayId)
    ensures
        lookup(kept(entries, present), wanted) == if present.contains(wanted) {
            lookup(entries, wanted)
        } else {
            None
        },
    decreases entries.len(),
{
    if entries.len() > 0 {
        lemma_kept(entries.drop_last(), present, wanted);
        let rest = kept(entries.drop_last(), present);
        assert(rest.push(entries.last()).drop_last() =~= rest);
    }
}

/// A map without the relays that are not in `present`.
pub open spec fn restricted<V>(m: Map<RelayId, V>, present: Seq<RelayId>) -> Map<RelayId, V> {
    Map::new(|id: RelayId| m.dom().contains(id) && present.contains(id), |id: RelayId| m[id])
}

fn listed(present: &[RelayId], id: RelayId) -> (r: bool)
    ensures
        r == present@.contains(id),
{
    let mut i: usize = 0;
    while i < present.len()
        invariant
            i <= present@.len(),
            forall|j: int| 0 <= j < i ==> present@[j] != id,
        decreases present@.len() - i,
    {
        if present[i] == id {
            assert(present@[i as int] == id);
            return true;
        }
        i = i + 1;
    }
    false
}

fn find<V: Copy>(entries: &Vec<(RelayId, V)>, id: RelayId) -> (r: Option<V>)
    ensures
        r == lookup(entries@, id),
{
    let mut i: usize = entries.len();
    assert(entries@.take(i as int) =~= entries@);
    while i > 0
        invariant
            i <= entries@.len(),
            lookup(entries@, id) == lookup(entries@.take(i as int), id),
        decreases i,
    {
        assert(entries@.take(i as int).drop_last() =~= entries@.take(i - 1));
        if entries[i - 1].0 == id {
            return Some(entries[i - 1].1);
        }
        i = i - 1;
    }
    None
}

fn retain_entries<V: Copy>(entries: &Vec<(RelayId, V)>, present: &[RelayId]) -> (r: Vec<
    (RelayId, V),
>)
    ensures
        as_map(r@) == restricted(as_map(entries@), present@),
{
    let mut r: Vec<(RelayId, V)> = Vec::new();
    let mut i: usize = 0;
    while i < entries.len()
        invariant
            i <= entries@.len(),
            r@ == kept(entries@.take(i as int), present@),
        decreases entries@.len() - i,
    {
        assert(entries@.take(i + 1).drop_last() =~= entries@.take(i as int));
        if listed(present, entries[i].0) {
            r.push(entries[i]);
        }
        i = i + 1;
    }
    assert(entries@.take(i as int) =~= entries@);
    proof {
        assert forall|id: RelayId| lookup(r@, id) == if present@.contains(id) {
            #[trigger] lookup(entries@, id)
        } else {
            None
        } by {
            lemma_kept(entries@, present@, id);
        }
        assert(as_map(r@) =~= restricted(as_map(entries@), present@)) by {
            assert forall|id: RelayId| #[trigger]
                as_map(r@).dom().contains(id) <==> restricted(
                    as_map(entries@),
                    present@,
                ).dom().contains(id) by {
                lemma_kept(entries@, present@, id);
            }
            assert forall|id: RelayId| #[trigger] as_map(r@).dom().contains(id) implies as_map(
                r@,
            )[id] == restricted(as_map(entries@), present@)[id] by {
                lemma_kept(entries@, present@, id);
            }
        }
    }
    r
}

proof fn lemma_lookup<V>(entries: Seq<(RelayId, V)>, id: RelayId)
    ensures
        lookup(entries, id) is Some <==> exists|i: int|
            0 <= i < entries.len() && (#[trigger] entries[i]).0 == id,
    decreases entries.len(),
{
    if entries.len() > 0 {
        let init = entries.drop_last();
        lemma_lookup(init, id);
        if exists|i: int| 0 <= i < init.len() && (#[trigger] init[i]).0 == id {
            let i = choose|i: int| 0 <= i < init.len() && (#[trigger] init[i]).0 == id;
            assert(entries[i].0 == id);
        }
        if exists|i: int| 0 <= i < entries.len() && (#[trigger] entries[i]).0 == id {
            let i = choose|i: int| 0 <= i < entries.len() && (#[trigger] entries[i]).0 == id;
            if i < init.len() {
                assert(init[i].0 == id);
            }
        }
        if entries.last().0 == id {
            assert(entries[entries.len() - 1].0 == id);
        }
    }
}

/// The fastest relay of a round, and its round-trip time.
fn best_of(round: &Vec<(RelayId, u64)>) -> (r: Option<(RelayId, u64)>)
    ensures
        match r {
            Some((id, rtt)) => fastest(as_map(round@), id) && as_map(round@)[id] == rtt,
            None => as_map(round@) == Map::<RelayId, u64>::empty(),
        },
{
    let ghost m = as_map(round@);
    if round.len() == 0 {
        assert(m =~= Map::<RelayId, u64>::empty());
        return None;
    }
    let mut best = round[0].0;
    assert(round@[0].0 == best);
    proof {
        lemma_lookup(round@, best);
        byte_order_is_total(best.0@, best.0@);
    }
    let mut rtt: u64 = match find(round, best) {
        Some(t) => t,
        None => 0,
    };
    let mut i: usize = 1;
    while i < round.len()
        invariant
            1 <= i <= round@.len(),
            m == as_map(round@),
            m.dom().contains(best),
            m[best] == rtt,
            forall|j: int|
                0 <= j < i ==> {
                    let other = (#[trigger] round@[j]).0;
                    rtt < m[other] || (rtt == m[other] && bytes_le(best.0@, other.0@))
                },
        decreases round@.len() - i,
    {
        let other = round[i].0;
        assert(round@[i as int].0 == other);
        proof {
            lemma_lookup(round@, other);
            byte_order_is_total(other.0@, other.0@);
            byte_order_is_total(best.0@, other.0@);
        }
        let time: u64 = match find(round, other) {
            Some(t) => t,
            None => 0,
        };
        assert(m.dom().contains(other) && m[other] == time);
        if time < rtt || (time == rtt && !best.not_after(&other)) {
            proof {
                assert forall|j: int| 0 <= j < i + 1 implies {
                    let third = (#[trigger] round@[j]).0;
                    time < m[third] || (time == m[third] && bytes_le(other.0@, third.0@))
                } by {
                    let third = round@[j].0;
                    if j < i && time == rtt && rtt == m[third] {
                        byte_order_is_transitive(other.0@, best.0@, third.0@);
                    }
                }
            }
            best = other;
            rtt = time;
        }
        i = i + 1;
    }
    proof {
        assert forall|other: RelayId| #[trigger] m.dom().contains(other) implies m[best] < m[other]
            || (m[best] == m[other] && bytes_le(best.0@, other.0@)) by {
            lemma_lookup(round@, other);
            let j = choose|j: int| 0 <= j < round@.len() && (#[trigger] round@[j]).0 == other;
            assert(round@[j].0 == other);
        }
    }
    Some((best, rtt))
}

/// The challengers that beat the incumbent this round.
fn advance(streak: &Vec<(RelayId, u32)>, round: &Vec<(RelayId, u64)>, incumbent: u64) -> (r: Vec<
    (RelayId, u32),
>)
    ensures
        as_map(r@) == advanced(as_map(streak@), as_map(round@), incumbent),
{
    let ghost before = as_map(streak@);
    let ghost m = as_map(round@);
    let mut r: Vec<(RelayId, u32)> = Vec::new();
    let mut i: usize = 0;
    while i < round.len()
        invariant
            i <= round@.len(),
            before == as_map(streak@),
            m == as_map(round@),
            forall|id: RelayId| #[trigger]
                lookup(r@, id) == if lookup(round@.take(i as int), id) is Some && better(
                    m[id],
                    incumbent,
                ) {
                    Some(won(before, id))
                } else {
                    None
                },
        decreases round@.len() - i,
    {
        let id = round[i].0;
        let ghost done = r@;
        let ghost next = round@.take(i + 1);
        assert(next.drop_last() =~= round@.take(i as int));
        proof {
            assert(round@[i as int].0 == id);
            lemma_lookup(round@, id);
        }
        let time: u64 = match find(round, id) {
            Some(t) => t,
            None => 0,
        };
        if Selector::beats(time, incumbent) {
            let count: u32 = match find(streak, id) {
                Some(n) => if n == u32::MAX {
                    n
                } else {
                    n + 1
                },
                None => 1,
            };
            r.push((id, count));
            assert(r@.drop_last() =~= done);
        }
        proof {
            assert forall|k: RelayId| #[trigger] lookup(r@, k) == if lookup(next, k) is Some
                && better(m[k], incumbent) {
                Some(won(before, k))
            } else {
                None
            } by {
                assert(lookup(done, k) == if lookup(round@.take(i as int), k) is Some && better(
                    m[k],
                    incumbent,
                ) {
                    Some(won(before, k))
                } else {
                    None
                });
            }
        }
        i = i + 1;
    }
    assert(round@.take(i as int) =~= round@);
    assert(as_map(r@) =~= advanced(before, m, incumbent)) by {
        assert forall|id: RelayId| #[trigger]
            as_map(r@).dom().contains(id) <==> advanced(before, m, incumbent).dom().contains(
                id,
            ) by {
            assert(lookup(r@, id) is Some <==> m.dom().contains(id) && better(m[id], incumbent));
        }
        assert forall|id: RelayId| #[trigger] as_map(r@).dom().contains(id) implies as_map(r@)[id]
            == advanced(before, m, incumbent)[id] by {
            assert(lookup(r@, id) is Some);
        }
    }
    r
}

impl Default for Selector {
    /// Nothing measured yet.
    fn default() -> (s: Selector)
        ensures
            s@ == (Choice { chosen: None, latest: Map::empty(), streak: Map::empty() }),
    {
        Selector::new()
    }
}

impl Choice {
    /// The choice after a round in which `best` was the fastest.
    pub open spec fn decided(self, best: RelayId) -> (Choice, bool) {
        let cleared = Choice { latest: Map::empty(), streak: Map::empty(), ..self };
        match self.chosen {
            None => (Choice { chosen: Some(best), ..cleared }, true),
            Some(current) => if !self.latest.dom().contains(current) || best == current || !better(
                self.latest[best],
                self.latest[current],
            ) {
                (cleared, false)
            } else {
                let streak = advanced(self.streak, self.latest, self.latest[current]);
                if streak[best] >= HYSTERESIS_SAMPLES {
                    (Choice { chosen: Some(best), ..cleared }, true)
                } else {
                    (Choice { streak, ..cleared }, false)
                }
            },
        }
    }

    /// The choice after a round: nothing changes in a round without a
    /// measurement.
    pub open spec fn selected(self, after: Choice, changed: bool) -> bool {
        if self.latest == Map::<RelayId, u64>::empty() {
            after == self && !changed
        } else {
            exists|best: RelayId| #[trigger]
                fastest(self.latest, best) && (after, changed) == self.decided(best)
        }
    }
}

impl Selector {
    /// Nothing measured yet.
    pub fn new() -> (s: Selector)
        ensures
            s@ == (Choice { chosen: None, latest: Map::empty(), streak: Map::empty() }),
    {
        let s = Selector { chosen: None, latest: Vec::new(), streak: Vec::new() };
        assert(s@.latest =~= Map::<RelayId, u64>::empty());
        assert(s@.streak =~= Map::<RelayId, u32>::empty());
        s
    }

    /// Records a measurement; a later one replaces an earlier one. A relay that
    /// does not answer a round is absent from it.
    pub fn observe(&mut self, relay: RelayId, rtt_ms: u64)
        ensures
            final(self)@ == (Choice { latest: old(self)@.latest.insert(relay, rtt_ms), ..old(self)@ }),
    {
        let mut latest: Vec<(RelayId, u64)> = Vec::new();
        let mut i: usize = 0;
        while i < self.latest.len()
            invariant
                i <= self.latest@.len(),
                *self == *old(self),
                latest@ == others(self.latest@.take(i as int), relay),
            decreases self.latest@.len() - i,
        {
            assert(self.latest@.take(i + 1).drop_last() =~= self.latest@.take(i as int));
            if self.latest[i].0 != relay {
                latest.push(self.latest[i]);
            }
            i = i + 1;
        }
        assert(self.latest@.take(i as int) =~= self.latest@);
        let ghost rest = latest@;
        latest.push((relay, rtt_ms));
        proof {
            assert(latest@.drop_last() =~= rest);
            let left = as_map(latest@);
            let right = as_map(self.latest@).insert(relay, rtt_ms);
            assert forall|id: RelayId|
                {
                    &&& #[trigger] left.dom().contains(id) <==> right.dom().contains(id)
                    &&& left.dom().contains(id) ==> left[id] == right[id]
                } by {
                lemma_others(self.latest@, relay, id);
            }
            assert(left =~= right);
        }
        self.latest = latest;
    }

    /// Forgets the relays that the netmap no longer lists, the choice itself
    /// included: peers are no longer told to look there.
    pub fn retain(&mut self, present: &[RelayId])
        ensures
            final(self)@ == (Choice {
                chosen: match old(self)@.chosen {
                    Some(id) => if present@.contains(id) {
                        Some(id)
                    } else {
                        None
                    },
                    None => None,
                },
                latest: restricted(old(self)@.latest, present@),
                streak: restricted(old(self)@.streak, present@),
            }),
    {
        self.latest = retain_entries(&self.latest, present);
        self.streak = retain_entries(&self.streak, present);
        if let Some(id) = self.chosen {
            if !listed(present, id) {
                self.chosen = None;
            }
        }
    }

    /// The relay currently held.
    pub fn chosen(&self) -> (r: Option<RelayId>)
        ensures
            r == self@.chosen,
    {
        self.chosen
    }

    /// Whether `challenger` beats `incumbent` by the margin. The required
    /// improvement is the larger of the two numbers; either alone does not
    /// suffice.
    pub fn beats(challenger: u64, incumbent: u64) -> (r: bool)
        ensures
            r == better(challenger, incumbent),
    {
        let fifth: u64 = incumbent / 5;
        let owed: u64 = if fifth > MARGIN_MS {
            fifth
        } else {
            MARGIN_MS
        };
        incumbent >= challenger && incumbent - challenger >= owed
    }

    /// Decides, given everything measured this round. Returns the relay to
    /// hold, and whether it changed.
    pub fn select(&mut self) -> (r: (Option<RelayId>, bool))
        ensures
            old(self)@.selected(final(self)@, r.1),
            r.0 == final(self)@.chosen,
    {
        let ghost before = self@;
        let (best, best_rtt) = match best_of(&self.latest) {
            Some(found) => found,
            None => {
                return (self.chosen, false);
            },
        };
        proof {
            assert(before.latest.dom().contains(best));
            assert(before.latest != Map::<RelayId, u64>::empty());
        }
        let nothing: Vec<(RelayId, u64)> = Vec::new();
        let no_streak: Vec<(RelayId, u32)> = Vec::new();
        assert(as_map(nothing@) =~= Map::<RelayId, u64>::empty());
        assert(as_map(no_streak@) =~= Map::<RelayId, u32>::empty());
        let current = match self.chosen {
            Some(id) => id,
            None => {
                // There is nothing to defend: take the fastest at once.
                self.chosen = Some(best);
                self.latest = nothing;
                self.streak = no_streak;
                return (self.chosen, true);
            },
        };
        // Silence is no evidence, so a silent incumbent keeps its place.
        let current_rtt: u64 = match find(&self.latest, current) {
            Some(t) => t,
            None => {
                self.latest = nothing;
                self.streak = no_streak;
                return (self.chosen, false);
            },
        };
        if best == current || !Selector::beats(best_rtt, current_rtt) {
            self.latest = nothing;
            self.streak = no_streak;
            return (self.chosen, false);
        }
        let streak = advance(&self.streak, &self.latest, current_rtt);
        self.latest = nothing;
        let count: u32 = match find(&streak, best) {
            Some(n) => n,
            None => 0,
        };
        assert(as_map(streak@).dom().contains(best));
        if count >= HYSTERESIS_SAMPLES {
            self.chosen = Some(best);
            self.streak = no_streak;
            return (self.chosen, true);
        }
        self.streak = streak;
        (self.chosen, false)
    }
}

/// Ties break the same way every time: a round has one fastest relay.
pub proof fn a_round_has_one_fastest_relay(round: Map<RelayId, u64>, a: RelayId, b: RelayId)
    requires
        fastest(round, a),
        fastest(round, b),
    ensures
        a == b,
{
    assert(round.dom().contains(a) && round.dom().contains(b));
    byte_order_is_total(a.0@, b.0@);
    assert(a.0@ == b.0@);
    assert(a.0 =~= b.0);
}

/// The first choice is immediate: with nothing held, one round with a
/// measurement chooses the fastest relay.
pub proof fn the_first_choice_is_immediate(s: Choice, after: Choice, changed: bool, best: RelayId)
    requires
        s.chosen is None,
        fastest(s.latest, best),
        s.selected(after, changed),
    ensures
        changed,
        after.chosen == Some(best),
{
    assert(s.latest.dom().contains(best));
    let other = choose|other: RelayId| #[trigger]
        fastest(s.latest, other) && (after, changed) == s.decided(other);
    a_round_has_one_fastest_relay(s.latest, best, other);
}

/// A choice in hand is given up only to a relay that has beaten it by the
/// margin in this round and in as many rounds before it as the rule asks for.
pub proof fn a_change_needs_a_sustained_margin(s: Choice, after: Choice, changed: bool)
    requires
        s.chosen is Some,
        s.selected(after, changed),
        changed,
    ensures
        ({
            let new = after.chosen->0;
            &&& after.chosen is Some
            &&& s.latest.dom().contains(s.chosen->0)
            &&& s.latest.dom().contains(new)
            &&& better(s.latest[new], s.latest[s.chosen->0])
            &&& s.streak.dom().contains(new)
            &&& s.streak[new] >= HYSTERESIS_SAMPLES - 1
        }),
{
}

/// A streak grows by one for each round won, and ends with the first round that
/// is not: a win counts only together with the wins right before it.
pub proof fn a_streak_is_unbroken(s: Choice, after: Choice, changed: bool, id: RelayId)
    requires
        s.selected(after, changed),
        s.latest != Map::<RelayId, u64>::empty(),
        after.streak.dom().contains(id),
    ensures
        s.chosen is Some,
        s.latest.dom().contains(id) && s.latest.dom().contains(s.chosen->0),
        better(s.latest[id], s.latest[s.chosen->0]),
        after.streak[id] == won(s.streak, id),
{
}

/// A silent incumbent keeps its place.
pub proof fn a_silent_incumbent_stays(s: Choice, after: Choice, changed: bool)
    requires
        s.chosen is Some,
        !s.latest.dom().contains(s.chosen->0),
        s.selected(after, changed),
    ensures
        !changed,
        after.chosen == s.chosen,
{
}

/// An improvement below 20 ms never counts, however fast the path.
pub proof fn jitter_never_wins(challenger: u64, incumbent: u64)
    requires
        incumbent - challenger < MARGIN_MS,
    ensures
        !better(challenger, incumbent),
{
}

/// Whether every other relay of a round is slower than `id`, or as fast and
/// later in the order of their names.
pub open spec fn leads(round: Map<RelayId, u64>, id: RelayId) -> bool {
    &&& round.dom().contains(id)
    &&& forall|other: RelayId| #[trigger]
        round.dom().contains(other) && other != id ==> round[id] < round[other] || (round[id]
            == round[other] && bytes_le(id.0@, other.0@))
}

/// Whether a challenger is ahead by twenty milliseconds and by a fifth of the
/// incumbent's time.
pub open spec fn ahead(challenger: u64, incumbent: u64) -> bool {
    challenger + 20 <= incumbent && challenger + incumbent / 5 <= incumbent
}

/// The margin that a challenger owes is twenty milliseconds or a fifth of the
/// incumbent's time, whichever is more.
pub proof fn a_challenger_owes_a_margin(challenger: u64, incumbent: u64, r: bool)
    requires
        call_ensures(Selector::beats, (challenger, incumbent), r),
    ensures
        r == ahead(challenger, incumbent),
{
}

proof fn lemma_leads(round: Map<RelayId, u64>, id: RelayId)
    requires
        leads(round, id),
    ensures
        fastest(round, id),
{
    byte_order_is_total(id.0@, id.0@);
}

/// A round decides on its fastest relay. Nothing measured decides nothing, and
/// without a relay in hand the fastest is taken at once. A relay in hand is given
/// up only if it answered, the fastest is ahead of it by the margin, and was so
/// in the two rounds before as well. A round is judged once, and then forgotten.
pub proof fn a_round_decides_on_its_fastest(
    s: &mut Selector,
    r: (Option<RelayId>, bool),
    best: RelayId,
    kept: Option<RelayId>,
)
    requires
        call_ensures(Selector::select, (s,), r),
        call_ensures(Selector::chosen, (&*final(s),), kept),
        leads(old(s)@.latest, best),
    ensures
        kept == r.0,
        final(s)@.latest.dom().is_empty(),
        old(s)@.chosen is None ==> r == (Some(best), true),
        old(s)@.chosen matches Some(current) ==> {
            let round = old(s)@.latest;
            let strong = round.dom().contains(current) && best != current && ahead(
                round[best],
                round[current],
            );
            let won_before = old(s)@.streak.dom().contains(best) && old(s)@.streak[best] >= 2;
            &&& r == if strong && won_before {
                (Some(best), true)
            } else {
                (Some(current), false)
            }
            &&& !strong || won_before ==> final(s)@.streak.dom().is_empty()
            &&& strong && !won_before ==> forall|id: RelayId|
                {
                    &&& #[trigger] final(s)@.streak.dom().contains(id) <==> round.dom().contains(id)
                        && ahead(round[id], round[current])
                    &&& final(s)@.streak.dom().contains(id) && !old(s)@.streak.dom().contains(id)
                        ==> final(s)@.streak[id] == 1
                    &&& final(s)@.streak.dom().contains(id) && old(s)@.streak.dom().contains(id)
                        && old(s)@.streak[id] < u32::MAX ==> final(s)@.streak[id] == old(s)@.streak[id] + 1
                }
        },
{
    let before = old(s)@;
    lemma_leads(before.latest, best);
    assert(before.latest != Map::<RelayId, u64>::empty());
    let found = choose|found: RelayId| #[trigger]
        fastest(before.latest, found) && (final(s)@, r.1) == before.decided(found);
    a_round_has_one_fastest_relay(before.latest, best, found);
}

/// A round in which nothing was measured changes nothing.
pub proof fn an_empty_round_changes_nothing(s: &mut Selector, r: (Option<RelayId>, bool))
    requires
        call_ensures(Selector::select, (s,), r),
        old(s)@.latest.dom().is_empty(),
    ensures
        r == (old(s)@.chosen, false),
        final(s)@ == old(s)@,
{
    assert(old(s)@.latest =~= Map::<RelayId, u64>::empty());
}

/// A challenger that is the fastest by the margin for three rounds on end takes
/// over in the third, and not before.
pub proof fn the_third_win_decides(
    a: &mut Selector,
    x: (Option<RelayId>, bool),
    b: &mut Selector,
    y: (Option<RelayId>, bool),
    c: &mut Selector,
    z: (Option<RelayId>, bool),
    current: RelayId,
    best: RelayId,
)
    requires
        best != current,
        old(a)@.chosen == Some(current),
        !old(a)@.streak.dom().contains(best),
        call_ensures(Selector::select, (a,), x),
        old(b)@.chosen == final(a)@.chosen && old(b)@.streak == final(a)@.streak,
        call_ensures(Selector::select, (b,), y),
        old(c)@.chosen == final(b)@.chosen && old(c)@.streak == final(b)@.streak,
        call_ensures(Selector::select, (c,), z),
        leads(old(a)@.latest, best) && leads(old(b)@.latest, best) && leads(old(c)@.latest, best),
        old(a)@.latest.dom().contains(current) && ahead(
            old(a)@.latest[best],
            old(a)@.latest[current],
        ),
        old(b)@.latest.dom().contains(current) && ahead(
            old(b)@.latest[best],
            old(b)@.latest[current],
        ),
        old(c)@.latest.dom().contains(current) && ahead(
            old(c)@.latest[best],
            old(c)@.latest[current],
        ),
    ensures
        x == (Some(current), false),
        y == (Some(current), false),
        z == (Some(best), true),
{
    lemma_round(old(a)@, final(a)@, x.1, best);
    lemma_round(old(b)@, final(b)@, y.1, best);
    lemma_round(old(c)@, final(c)@, z.1, best);
}

proof fn lemma_round(before: Choice, after: Choice, changed: bool, best: RelayId)
    requires
        before.selected(after, changed),
        leads(before.latest, best),
    ensures
        (after, changed) == before.decided(best),
{
    lemma_leads(before.latest, best);
    assert(before.latest != Map::<RelayId, u64>::empty());
    let found = choose|found: RelayId| #[trigger]
        fastest(before.latest, found) && (after, changed) == before.decided(found);
    a_round_has_one_fastest_relay(before.latest, best, found);
}

/// The last measurement of a relay is the one that counts, and measuring one
/// relay says nothing of another.
pub proof fn the_last_measurement_counts(
    s: &mut Selector,
    relay: RelayId,
    rtt: u64,
    other: RelayId,
    fresh: Selector,
)
    requires
        call_ensures(Selector::observe, (s, relay, rtt), ()),
        call_ensures(Selector::new, (), fresh),
    ensures
        final(s)@.latest.dom().contains(relay) && final(s)@.latest[relay] == rtt,
        other != relay ==> {
            &&& final(s)@.latest.dom().contains(other) <==> old(s)@.latest.dom().contains(other)
            &&& final(s)@.latest[other] == old(s)@.latest[other]
        },
        final(s)@.chosen == old(s)@.chosen && final(s)@.streak == old(s)@.streak,
        fresh@.chosen is None && fresh@.latest.dom().is_empty() && fresh@.streak.dom().is_empty(),
{
}

/// A relay that is no longer listed is forgotten: as the choice, as measured,
/// and as a challenger. What is listed stays as it was.
pub proof fn only_listed_relays_are_kept(s: &mut Selector, present: &[RelayId], id: RelayId)
    requires
        call_ensures(Selector::retain, (s, present), ()),
    ensures
        !present@.contains(id) ==> {
            &&& final(s)@.chosen != Some(id)
            &&& !final(s)@.latest.dom().contains(id)
            &&& !final(s)@.streak.dom().contains(id)
        },
        present@.contains(id) ==> {
            &&& final(s)@.chosen == Some(id) <==> old(s)@.chosen == Some(id)
            &&& final(s)@.latest.dom().contains(id) <==> old(s)@.latest.dom().contains(id)
            &&& final(s)@.latest.dom().contains(id) ==> final(s)@.latest[id] == old(s)@.latest[id]
            &&& final(s)@.streak.dom().contains(id) <==> old(s)@.streak.dom().contains(id)
            &&& final(s)@.streak.dom().contains(id) ==> final(s)@.streak[id] == old(s)@.streak[id]
        },
{
}

} // verus!
