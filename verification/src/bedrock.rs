//! The node's replicated copy of the Bedrock log.
//!
//! The node fetches entries forward from its last verified sequence and has the
//! whole chain verified from genesis every time. It never adopts a state that
//! did not verify, and it never discards one that did: no policy would mean no
//! coverage requirement, so a server that simply stopped answering would
//! disable enforcement everywhere by doing nothing at all.

use crate::bytes::{
    be_bytes, be_value, big_endian_round_trips, pow256, push_be, read_be, same_bytes, to_vec,
};
use crate::text::{decimal, decimal_text, same};
use vstd::prelude::*;

verus! {

/// How strictly a node acts on the log, from lax to strict. A node takes the
/// stricter of its own floor and what the server advertises, so that a server
/// can raise enforcement but never lower it.
#[derive(Clone, Copy, Debug, PartialEq, Eq, PartialOrd, Ord, Structural)]
pub enum Mode {
    /// No verification.
    Off,
    /// Verify and report, but drop nothing.
    Advisory,
    /// Drop uncovered peers.
    Enforcing,
}

impl Default for Mode {
    fn default() -> (m: Mode)
        ensures
            m == Mode::Off,
    {
        Mode::Off
    }
}

impl Mode {
    /// How strict a mode is.
    pub open spec fn rank(self) -> nat {
        match self {
            Mode::Off => 0,
            Mode::Advisory => 1,
            Mode::Enforcing => 2,
        }
    }

    /// The configuration spelling.
    pub open spec fn spelling(self) -> Seq<char> {
        match self {
            Mode::Off => "off"@,
            Mode::Advisory => "advisory"@,
            Mode::Enforcing => "enforcing"@,
        }
    }

    /// Parses a configuration spelling.
    pub fn parse(s: &str) -> (r: Option<Mode>)
        ensures
            match r {
                Some(m) => s@ == m.spelling(),
                None => s@ != "off"@ && s@ != "advisory"@ && s@ != "enforcing"@,
            },
    {
        if same(s, "off") {
            Some(Mode::Off)
        } else if same(s, "advisory") {
            Some(Mode::Advisory)
        } else if same(s, "enforcing") {
            Some(Mode::Enforcing)
        } else {
            None
        }
    }

    /// The configuration spelling.
    pub fn as_str(self) -> (s: &'static str)
        ensures
            s@ == self.spelling(),
    {
        match self {
            Mode::Off => "off",
            Mode::Advisory => "advisory",
            Mode::Enforcing => "enforcing",
        }
    }

    /// The mode that a server advertised. An unknown value can only come from a
    /// newer server, and guessing upward would let it cut a node off.
    pub fn from_wire(v: i32) -> (m: Mode)
        ensures
            m == if v == 1 {
                Mode::Advisory
            } else if v == 2 {
                Mode::Enforcing
            } else {
                Mode::Off
            },
    {
        match v {
            1 => Mode::Advisory,
            2 => Mode::Enforcing,
            _ => Mode::Off,
        }
    }

    /// The stricter of a floor and what a server advertises.
    pub fn raised(self, advertised: Mode) -> (m: Mode)
        ensures
            m == self || m == advertised,
            m.rank() >= self.rank(),
            m.rank() >= advertised.rank(),
    {
        match (self, advertised) {
            (Mode::Enforcing, _) => Mode::Enforcing,
            (_, Mode::Enforcing) => Mode::Enforcing,
            (Mode::Advisory, _) => Mode::Advisory,
            (_, Mode::Advisory) => Mode::Advisory,
            _ => Mode::Off,
        }
    }
}

/// A mode is fixed by its spelling.
pub proof fn modes_round_trip(a: Mode, b: Mode)
    requires
        a.spelling() == b.spelling(),
    ensures
        a == b,
{
    reveal_strlit("off");
    reveal_strlit("advisory");
    reveal_strlit("enforcing");
    assert("off"@.len() == 3);
    assert("advisory"@.len() == 8);
    assert("enforcing"@.len() == 9);
}

/// Why a peer is not covered.
#[derive(Clone, Copy, Debug, PartialEq, Eq, Structural)]
pub enum Reason {
    /// Nothing was ever signed for this handle: an administrative gap.
    NotCountersigned,
    /// Countersigned, but the netmap presents different keys: an attack.
    KeyMismatch,
    /// Countersigned, but outside the signed validity window.
    OutsideWindow,
    /// Revoked.
    Revoked,
}

impl Reason {
    /// The reason in words.
    pub fn to_text(self) -> (s: String)
        ensures
            s@ == match self {
                Reason::NotCountersigned => "not countersigned"@,
                Reason::KeyMismatch => "the netmap presents keys the log does not cover"@,
                Reason::OutsideWindow => "outside its signed validity window"@,
                Reason::Revoked => "revoked"@,
            },
    {
        match self {
            Reason::NotCountersigned => String::from_str("not countersigned"),
            Reason::KeyMismatch => String::from_str(
                "the netmap presents keys the log does not cover",
            ),
            Reason::OutsideWindow => String::from_str("outside its signed validity window"),
            Reason::Revoked => String::from_str("revoked"),
        }
    }
}

/// What enforcement decided about one peer.
#[derive(Clone, Debug, PartialEq, Eq)]
pub struct Exclusion {
    pub handle: String,
    pub reason: Reason,
}

/// Why an update was refused.
#[derive(Debug)]
pub enum Error {
    /// The bytes were not a log.
    Malformed(String),
    /// The chain did not verify. What was verified before is kept.
    Broken(String),
    /// The entries do not continue from where this node had reached.
    NotContiguous { expected: u64, got: u64 },
}

/// Why an update was refused, as a value.
pub enum Refusal {
    Malformed(Seq<char>),
    Broken(Seq<char>),
    NotContiguous { expected: u64, got: u64 },
}

impl View for Error {
    type V = Refusal;

    open spec fn view(&self) -> Refusal {
        match self {
            Error::Malformed(e) => Refusal::Malformed(e@),
            Error::Broken(e) => Refusal::Broken(e@),
            Error::NotContiguous { expected, got } => Refusal::NotContiguous {
                expected: *expected,
                got: *got,
            },
        }
    }
}

impl Error {
    /// The message for the operator.
    pub fn to_text(&self) -> (s: String)
        ensures
            s@ == match self@ {
                Refusal::Malformed(e) => "malformed bedrock log: "@ + e,
                Refusal::Broken(e) => "bedrock chain does not verify: "@ + e,
                Refusal::NotContiguous { expected, got } => "bedrock entries start at "@
                    + decimal_text(got as nat) + ", expected "@ + decimal_text(expected as nat),
            },
    {
        match self {
            Error::Malformed(e) => {
                let mut s = String::from_str("malformed bedrock log: ");
                s.append(e.as_str());
                s
            },
            Error::Broken(e) => {
                let mut s = String::from_str("bedrock chain does not verify: ");
                s.append(e.as_str());
                s
            },
            Error::NotContiguous { expected, got } => {
                let mut s = String::from_str("bedrock entries start at ");
                let start = decimal(*got);
                s.append(start.as_str());
                s.append(", expected ");
                let wanted = decimal(*expected);
                s.append(wanted.as_str());
                s
            },
        }
    }
}

/// What a fetch did.
#[derive(Clone, Copy, Debug, PartialEq, Eq, Structural)]
pub enum Outcome {
    /// The server has no log for this account.
    Absent,
    /// Nothing new.
    UpToDate,
    /// The chain advanced to this sequence.
    Advanced { to: u64 },
}

/// One entry: its sequence number and its encoded form. Its chain hash, which
/// commits to every entry before it too, is recomputed where it is needed: a
/// stored one could disagree with the entries.
#[derive(Clone, Debug, PartialEq, Eq)]
pub struct Entry {
    pub seq: u64,
    pub bytes: Vec<u8>,
}

/// An entry as a value.
#[verifier::ext_equal]
pub struct EntryFacts {
    pub seq: u64,
    pub bytes: Seq<u8>,
}

impl View for Entry {
    type V = EntryFacts;

    open spec fn view(&self) -> EntryFacts {
        EntryFacts { seq: self.seq, bytes: self.bytes@ }
    }
}

/// Entries as values.
pub open spec fn chain(entries: Seq<Entry>) -> Seq<EntryFacts> {
    entries.map_values(|e: Entry| e@)
}

/// Appends copies of entries.
fn copy_entries(out: &mut Vec<Entry>, entries: &Vec<Entry>)
    ensures
        chain(final(out)@) == chain(old(out)@) + chain(entries@),
{
    let ghost before = chain(out@);
    let mut i: usize = 0;
    assert(chain(out@) =~= before + chain(entries@).take(0));
    while i < entries.len()
        invariant
            i <= entries@.len(),
            chain(out@) == before + chain(entries@).take(i as int),
        decreases entries@.len() - i,
    {
        let ghost so_far = out@;
        let entry = Entry {
            seq: entries[i].seq,
            bytes: to_vec(entries[i].bytes.as_slice()),
        };
        out.push(entry);
        proof {
            assert(entry@ == entries@[i as int]@);
            assert(chain(out@) =~= chain(so_far).push(entry@));
            assert(chain(entries@).take(i + 1) =~= chain(entries@).take(i as int).push(
                chain(entries@)[i as int],
            ));
        }
        i = i + 1;
    }
    assert(chain(entries@).take(i as int) =~= chain(entries@));
}

/// What the log says of one handle.
#[derive(Clone, Debug, PartialEq, Eq)]
pub struct Coverage {
    pub handle: String,
    pub kem_public_key: Vec<u8>,
    pub dh_public_key: Vec<u8>,
}

/// What a verified chain establishes.
#[derive(Clone, Debug, PartialEq, Eq)]
pub struct State {
    pub head_seq: u64,
    pub head: Vec<u8>,
    pub covered: Vec<Coverage>,
    /// Revoked handles, each with the time from which it counts.
    pub revoked: Vec<(String, i64)>,
}

/// A node's verified copy of the log.
#[derive(Clone, Debug)]
pub struct Log {
    pub entries: Vec<Entry>,
    pub state: Option<State>,
}

/// Where a handle is covered, if it is: a later entry replaces an earlier one.
pub open spec fn coverage(covered: Seq<Coverage>, handle: Seq<char>) -> Option<int>
    decreases covered.len(),
{
    if covered.len() == 0 {
        None
    } else if covered.last().handle@ == handle {
        Some(covered.len() - 1)
    } else {
        coverage(covered.drop_last(), handle)
    }
}

/// From when a handle is revoked, if it is: a later entry replaces an earlier
/// one.
pub open spec fn revocation(revoked: Seq<(String, i64)>, handle: Seq<char>) -> Option<i64>
    decreases revoked.len(),
{
    if revoked.len() == 0 {
        None
    } else if revoked.last().0@ == handle {
        Some(revoked.last().1)
    } else {
        revocation(revoked.drop_last(), handle)
    }
}

/// Why a peer that is not covered is not, under a verified state.
pub open spec fn shortfall(
    state: State,
    handle: Seq<char>,
    kem: Seq<u8>,
    dh: Seq<u8>,
    t: i64,
) -> Reason {
    match coverage(state.covered@, handle) {
        None => Reason::NotCountersigned,
        Some(i) => {
            let c = state.covered@[i];
            if c.kem_public_key@ != kem || c.dh_public_key@ != dh {
                Reason::KeyMismatch
            } else if revocation(state.revoked@, handle) matches Some(from) && from <= t {
                Reason::Revoked
            } else {
                Reason::OutsideWindow
            }
        },
    }
}

/// Where the first entry with a sequence number stands.
pub open spec fn position(entries: Seq<Entry>, seq: u64) -> Option<int>
    decreases entries.len(),
{
    if entries.len() == 0 {
        None
    } else {
        match position(entries.drop_last(), seq) {
            Some(i) => Some(i),
            None => if entries.last().seq == seq {
                Some(entries.len() - 1)
            } else {
                None
            },
        }
    }
}

/// Recomputing the chain hash of an entry: each entry from the first on is
/// hashed behind the hash of the one before it, and the first behind the empty
/// hash.
#[derive(Clone, Debug, PartialEq, Eq)]
pub struct Walk {
    /// The sequence of the entry that is wanted.
    pub seq: u64,
    /// The entry that is to be hashed next.
    pub at: usize,
    /// The chain hash of the one before it.
    pub before: Vec<u8>,
}

/// Recomputing a chain hash, as a value.
#[verifier::ext_equal]
pub struct WalkFacts {
    pub seq: u64,
    pub at: int,
    pub before: Seq<u8>,
}

impl View for Walk {
    type V = WalkFacts;

    open spec fn view(&self) -> WalkFacts {
        WalkFacts { seq: self.seq, at: self.at as int, before: self.before@ }
    }
}

/// Where a hash has led.
#[derive(Clone, Debug, PartialEq, Eq)]
pub enum Walked {
    /// It is the one that was wanted.
    Found(Vec<u8>),
    /// Another entry is to be hashed.
    Going(Walk),
    /// There is no entry with the sequence that was wanted.
    Absent,
}

/// Where a hash has led, as a value.
#[verifier::ext_equal]
pub enum WalkedFacts {
    Found(Seq<u8>),
    Going(WalkFacts),
    Absent,
}

impl View for Walked {
    type V = WalkedFacts;

    open spec fn view(&self) -> WalkedFacts {
        match self {
            Walked::Found(hash) => WalkedFacts::Found(hash@),
            Walked::Going(walk) => WalkedFacts::Going(walk@),
            Walked::Absent => WalkedFacts::Absent,
        }
    }
}

impl WalkFacts {
    /// The beginning of a walk.
    pub open spec fn begun(seq: u64) -> WalkFacts {
        WalkFacts { seq, at: 0, before: seq![] }
    }

    /// Where the hash of the entry that was due leads.
    pub open spec fn after(self, entries: Seq<Entry>, hash: Seq<u8>) -> WalkedFacts {
        if entries[self.at].seq == self.seq {
            WalkedFacts::Found(hash)
        } else if self.at + 1 == entries.len() {
            WalkedFacts::Absent
        } else {
            WalkedFacts::Going(WalkFacts { seq: self.seq, at: self.at + 1, before: hash })
        }
    }

    /// Where a walk ends when the entries hash to `hashes`: the hash that it
    /// was for, if there is an entry with its sequence.
    pub open spec fn end(self, entries: Seq<Entry>, hashes: Seq<Seq<u8>>) -> Option<Seq<u8>>
        decreases entries.len() - self.at,
    {
        if 0 <= self.at < entries.len() {
            match self.after(entries, hashes[self.at]) {
                WalkedFacts::Found(hash) => Some(hash),
                WalkedFacts::Going(next) => next.end(entries, hashes),
                WalkedFacts::Absent => None,
            }
        } else {
            None
        }
    }
}

/// What comparing a peer's head against this node's log established.
#[derive(Clone, Copy, Debug, PartialEq, Eq, Structural)]
pub enum HeadComparison {
    /// The peer agrees with this node at the sequence they have in common.
    Agrees,
    /// At a sequence that both nodes hold, they hold different hashes: one
    /// server has produced two histories.
    Diverges { seq: u64 },
    /// The peer is further along, which is evidence of nothing.
    PeerAhead { peer_seq: u64, local_seq: u64 },
    /// There is nothing to compare.
    Unknown,
}

impl Log {
    /// The sequence that has been verified.
    pub open spec fn reached(self) -> u64 {
        match self.state {
            Some(s) => s.head_seq,
            None => 0,
        }
    }

    /// The verified head hash, empty when nothing is held.
    pub open spec fn tip(self) -> Seq<u8> {
        match self.state {
            Some(s) => s.head@,
            None => seq![],
        }
    }

    /// Where the entry at `seq` stands, if this node holds it.
    pub open spec fn held(self, seq: u64) -> Option<int> {
        if seq == 0 || seq > self.entries@.len() {
            None
        } else {
            position(self.entries@, seq)
        }
    }

    /// What comparing a peer's head establishes, given the chain hash that this
    /// node computes at the peer's sequence.
    pub open spec fn comparison(
        self,
        peer_hash: Seq<u8>,
        peer_seq: u64,
        mine: Option<Seq<u8>>,
    ) -> HeadComparison {
        let local_seq = self.reached();
        if local_seq == 0 || peer_seq == 0 {
            HeadComparison::Unknown
        } else if peer_seq > local_seq {
            HeadComparison::PeerAhead { peer_seq, local_seq }
        } else {
            match mine {
                Some(mine) => if mine == peer_hash {
                    HeadComparison::Agrees
                } else {
                    HeadComparison::Diverges { seq: peer_seq }
                },
                None => HeadComparison::Unknown,
            }
        }
    }

    /// An empty log: a node that has verified nothing.
    pub fn new() -> (l: Log)
        ensures
            l.entries@.len() == 0,
            l.state is None,
    {
        Log { entries: Vec::new(), state: None }
    }

    /// The sequence that this node has verified; zero when it holds nothing,
    /// which is also what its first fetch asks from.
    pub fn verified_seq(&self) -> (r: u64)
        ensures
            r == self.reached(),
    {
        match &self.state {
            Some(s) => s.head_seq,
            None => 0,
        }
    }

    /// The verified head hash, empty when nothing is held.
    pub fn head(&self) -> (r: Vec<u8>)
        ensures
            r@ == self.tip(),
    {
        match &self.state {
            Some(s) => to_vec(s.head.as_slice()),
            None => Vec::new(),
        }
    }

    /// The verified state, if there is one.
    pub fn state(&self) -> (r: Option<&State>)
        ensures
            match r {
                Some(s) => self.state == Some(*s),
                None => self.state is None,
            },
    {
        match &self.state {
            Some(s) => Some(s),
            None => None,
        }
    }

    /// Whether this node has a verified log at all.
    pub fn is_present(&self) -> (r: bool)
        ensures
            r == (self.state is Some),
    {
        self.state.is_some()
    }

    /// The chain that is to be verified, from genesis, before fetched entries
    /// are appended: what is held, then what was fetched.
    pub fn candidate(&self, fetched: &Vec<Entry>) -> (r: Vec<Entry>)
        ensures
            chain(r@) == chain(self.entries@) + chain(fetched@),
    {
        let mut r: Vec<Entry> = Vec::new();
        assert(chain(r@) =~= seq![]);
        copy_entries(&mut r, &self.entries);
        copy_entries(&mut r, fetched);
        assert(chain(r@) =~= chain(self.entries@) + chain(fetched@));
        r
    }

    /// Appends fetched entries once the whole chain, as `candidate` gives it,
    /// has been verified from genesis: `verdict` is what that said. What is
    /// held then is that chain. Whatever is refused leaves what was held as it
    /// was.
    pub fn extend(&mut self, fetched: Vec<Entry>, verdict: Result<State, String>) -> (r: Result<
        Outcome,
        Error,
    >)
        requires
            old(self).entries@.len() < u64::MAX,
        ensures
            ({
                let expected = (old(self).entries@.len() + 1) as u64;
                if fetched@.len() == 0 {
                    r == Ok::<Outcome, Error>(Outcome::UpToDate) && *final(self) == *old(self)
                } else if fetched@[0].seq != expected {
                    &&& r is Err
                    &&& r->Err_0@ == (Refusal::NotContiguous { expected, got: fetched@[0].seq })
                    &&& *final(self) == *old(self)
                } else {
                    match verdict {
                        Err(e) => {
                            &&& r is Err
                            &&& r->Err_0@ == Refusal::Broken(e@)
                            &&& *final(self) == *old(self)
                        },
                        Ok(state) => {
                            &&& r == Ok::<Outcome, Error>(Outcome::Advanced { to: state.head_seq })
                            &&& final(self).entries@ == old(self).entries@ + fetched@
                            &&& chain(final(self).entries@) == chain(old(self).entries@) + chain(
                                fetched@,
                            )
                            &&& final(self).state == Some(state)
                        },
                    }
                }
            }),
    {
        if fetched.len() == 0 {
            return Ok(Outcome::UpToDate);
        }
        let expected: u64 = self.entries.len() as u64 + 1;
        let first: u64 = fetched[0].seq;
        if first != expected {
            return Err(Error::NotContiguous { expected, got: first });
        }
        match verdict {
            Err(e) => Err(Error::Broken(e)),
            Ok(state) => {
                let to: u64 = state.head_seq;
                let mut fetched = fetched;
                let ghost (held, new) = (self.entries@, fetched@);
                self.entries.append(&mut fetched);
                assert(chain(self.entries@) =~= chain(held) + chain(new));
                self.state = Some(state);
                Ok(Outcome::Advanced { to })
            },
        }
    }

    /// Reads back an on-disk copy. It is verified again rather than trusted:
    /// anything that can write the state directory could have edited it.
    /// `entries` is what the bytes decode to, `verdict` what verifying them
    /// said.
    pub fn decode(entries: Result<Vec<Entry>, String>, verdict: Result<State, String>) -> (r: Result<
        Log,
        Error,
    >)
        ensures
            match entries {
                Err(e) => r is Err && r->Err_0@ == Refusal::Malformed(e@),
                Ok(v) => if v@.len() == 0 {
                    r is Ok && r->Ok_0.entries@.len() == 0 && r->Ok_0.state is None
                } else {
                    match verdict {
                        Err(e) => r is Err && r->Err_0@ == Refusal::Broken(e@),
                        Ok(state) => r is Ok && r->Ok_0.entries@ == v@ && r->Ok_0.state == Some(
                            state,
                        ),
                    }
                },
            },
    {
        match entries {
            Err(e) => Err(Error::Malformed(e)),
            Ok(v) => {
                if v.len() == 0 {
                    return Ok(Log::new());
                }
                match verdict {
                    Err(e) => Err(Error::Broken(e)),
                    Ok(state) => Ok(Log { entries: v, state: Some(state) }),
                }
            },
        }
    }

    /// Classifies a peer against the verified log at time `t`; `None` means
    /// covered. `covered` is what the state says of the handle and keys at that
    /// time.
    pub fn classify(&self, handle: &str, kem: &[u8], dh: &[u8], t: i64, covered: bool) -> (r: Option<
        Reason,
    >)
        ensures
            r == match self.state {
                None => Some(Reason::NotCountersigned),
                Some(state) => if covered {
                    None
                } else {
                    Some(shortfall(state, handle@, kem@, dh@, t))
                },
            },
    {
        let state = match &self.state {
            None => {
                return Some(Reason::NotCountersigned);
            },
            Some(state) => state,
        };
        if covered {
            return None;
        }
        let i: usize = match find_coverage(&state.covered, handle) {
            None => {
                return Some(Reason::NotCountersigned);
            },
            Some(i) => i,
        };
        if !same_bytes(state.covered[i].kem_public_key.as_slice(), kem) || !same_bytes(
            state.covered[i].dh_public_key.as_slice(),
            dh,
        ) {
            return Some(Reason::KeyMismatch);
        }
        if let Some(from) = find_revocation(&state.revoked, handle) {
            if from <= t {
                return Some(Reason::Revoked);
            }
        }
        Some(Reason::OutsideWindow)
    }

    /// Whether a head reported by the server is the one this node verified.
    pub fn matches_head(&self, hash: &[u8], seq: u64) -> (r: bool)
        ensures
            r == (self.reached() == seq && self.tip() == hash@),
    {
        let tip = self.head();
        self.verified_seq() == seq && same_bytes(tip.as_slice(), hash)
    }

    /// Begins to recompute the chain hash of the entry at `seq`; `None` where
    /// this node does not hold that many.
    pub fn hash_at(&self, seq: u64) -> (r: Option<Walk>)
        ensures
            match r {
                Some(walk) => 0 < seq <= self.entries@.len() && walk@ == WalkFacts::begun(seq),
                None => seq == 0 || seq > self.entries@.len(),
            },
    {
        if seq == 0 || seq > self.entries.len() as u64 {
            return None;
        }
        let before: Vec<u8> = Vec::new();
        assert(before@ =~= seq![]);
        Some(Walk { seq, at: 0, before })
    }

    /// The entry that is to be hashed next, behind the hash that the walk has
    /// reached.
    pub fn due(&self, walk: &Walk) -> (r: &Entry)
        requires
            walk.at < self.entries@.len(),
        ensures
            *r == self.entries@[walk.at as int],
    {
        &self.entries[walk.at]
    }

    /// Takes the hash of the entry that was due.
    pub fn walked(&self, walk: Walk, hash: Vec<u8>) -> (r: Walked)
        requires
            walk.at < self.entries@.len(),
        ensures
            r@ == walk@.after(self.entries@, hash@),
            r matches Walked::Going(next) ==> next.at < self.entries@.len(),
    {
        if self.entries[walk.at].seq == walk.seq {
            Walked::Found(hash)
        } else if walk.at == self.entries.len() - 1 {
            Walked::Absent
        } else {
            Walked::Going(Walk { seq: walk.seq, at: walk.at + 1, before: hash })
        }
    }

    /// Compares a peer's claimed head against this node's verified chain, at
    /// the lower of the two sequences: the only place where both have an
    /// opinion. `mine` is the chain hash that this node computes at the peer's
    /// sequence, if it holds the entry.
    pub fn compare_head(&self, peer_hash: &[u8], peer_seq: u64, mine: &Option<Vec<u8>>) -> (r:
        HeadComparison)
        ensures
            r == self.comparison(
                peer_hash@,
                peer_seq,
                match *mine {
                    Some(hash) => Some(hash@),
                    None => None,
                },
            ),
    {
        let local_seq: u64 = self.verified_seq();
        if local_seq == 0 || peer_seq == 0 {
            return HeadComparison::Unknown;
        }
        if peer_seq > local_seq {
            return HeadComparison::PeerAhead { peer_seq, local_seq };
        }
        match mine {
            Some(mine) => if same_bytes(mine.as_slice(), peer_hash) {
                HeadComparison::Agrees
            } else {
                HeadComparison::Diverges { seq: peer_seq }
            },
            None => HeadComparison::Unknown,
        }
    }
}

fn find_coverage(covered: &Vec<Coverage>, handle: &str) -> (r: Option<usize>)
    ensures
        match r {
            Some(i) => i < covered@.len() && coverage(covered@, handle@) == Some(i as int),
            None => coverage(covered@, handle@) is None,
        },
{
    let mut i: usize = covered.len();
    assert(covered@.take(i as int) =~= covered@);
    while i > 0
        invariant
            i <= covered@.len(),
            coverage(covered@, handle@) == coverage(covered@.take(i as int), handle@),
        decreases i,
    {
        assert(covered@.take(i as int).drop_last() =~= covered@.take(i - 1));
        if same(covered[i - 1].handle.as_str(), handle) {
            return Some(i - 1);
        }
        i = i - 1;
    }
    None
}

fn find_revocation(revoked: &Vec<(String, i64)>, handle: &str) -> (r: Option<i64>)
    ensures
        r == revocation(revoked@, handle@),
{
    let mut i: usize = revoked.len();
    assert(revoked@.take(i as int) =~= revoked@);
    while i > 0
        invariant
            i <= revoked@.len(),
            revocation(revoked@, handle@) == revocation(revoked@.take(i as int), handle@),
        decreases i,
    {
        assert(revoked@.take(i as int).drop_last() =~= revoked@.take(i - 1));
        if same(revoked[i - 1].0.as_str(), handle) {
            return Some(revoked[i - 1].1);
        }
        i = i - 1;
    }
    None
}

/// The first byte of a control frame inside a session. Zero is not a legal IP
/// version, so no tunnelled packet begins with it.
pub const CONTROL_MARKER: u8 = 0x00;

/// Control frame kind: a claim about the sender's verified head.
pub const CONTROL_BEDROCK_HEAD: u8 = 0x01;

/// A head claim: the marker, the kind, the sequence, the length of the hash,
/// and the hash. The length is there because a session pads what it carries.
pub open spec fn head_claim(hash: Seq<u8>, seq: u64) -> Seq<u8> {
    let len = if hash.len() <= u32::MAX {
        hash.len()
    } else {
        u32::MAX as nat
    };
    seq![CONTROL_MARKER, CONTROL_BEDROCK_HEAD] + be_bytes(seq as nat, 8) + be_bytes(len, 4) + hash
}

/// The hash and sequence that a plaintext claims, if it is a head claim. Any
/// length but that of a hash is malformed.
pub open spec fn claimed(plaintext: Seq<u8>) -> Option<(Seq<u8>, nat)> {
    if plaintext.len() >= 78 && plaintext[0] == CONTROL_MARKER && plaintext[1]
        == CONTROL_BEDROCK_HEAD && be_value(plaintext.subrange(10, 14)) == 64 {
        Some((plaintext.subrange(14, 78), be_value(plaintext.subrange(2, 10))))
    } else {
        None
    }
}

/// Encodes a head claim.
pub fn encode_head_claim(hash: &[u8], seq: u64) -> (out: Vec<u8>)
    ensures
        out@ == head_claim(hash@, seq),
{
    let mut out: Vec<u8> = Vec::new();
    out.push(CONTROL_MARKER);
    out.push(CONTROL_BEDROCK_HEAD);
    assert(out@ =~= seq![CONTROL_MARKER, CONTROL_BEDROCK_HEAD]);
    push_be(&mut out, seq, 8);
    let len: u64 = if hash.len() as u64 <= u32::MAX as u64 {
        hash.len() as u64
    } else {
        u32::MAX as u64
    };
    push_be(&mut out, len, 4);
    out.extend_from_slice(hash);
    assert(out@ =~= head_claim(hash@, seq));
    out
}

/// Decodes a head claim from a decrypted, padded plaintext; `None` for
/// anything else, a tunnelled packet included.
pub fn decode_head_claim(plaintext: &[u8]) -> (r: Option<(Vec<u8>, u64)>)
    ensures
        match r {
            Some((hash, seq)) => claimed(plaintext@) == Some((hash@, seq as nat)),
            None => claimed(plaintext@) is None,
        },
{
    if plaintext.len() < 14 || plaintext[0] != CONTROL_MARKER || plaintext[1]
        != CONTROL_BEDROCK_HEAD {
        return None;
    }
    let seq: u64 = read_be(plaintext, 2, 8);
    let len: u64 = read_be(plaintext, 10, 4);
    if len != 64 || plaintext.len() < 78 {
        return None;
    }
    let mut hash: Vec<u8> = Vec::new();
    let mut i: usize = 14;
    while i < 78
        invariant
            14 <= i <= 78 <= plaintext@.len(),
            hash@ == plaintext@.subrange(14, i as int),
        decreases 78 - i,
    {
        hash.push(plaintext[i]);
        assert(hash@ =~= plaintext@.subrange(14, i + 1));
        i = i + 1;
    }
    Some((hash, seq))
}

/// A head claim reads back, whatever padding a session puts behind it.
pub proof fn a_claim_survives_padding(hash: Seq<u8>, seq: u64, padding: Seq<u8>)
    requires
        hash.len() == 64,
    ensures
        claimed(head_claim(hash, seq) + padding) == Some((hash, seq as nat)),
{
    let s = head_claim(hash, seq) + padding;
    reveal_with_fuel(pow256, 9);
    big_endian_round_trips(seq as nat, 8);
    big_endian_round_trips(64, 4);
    assert(s.subrange(2, 10) =~= be_bytes(seq as nat, 8));
    assert(s.subrange(10, 14) =~= be_bytes(64, 4));
    assert(s.subrange(14, 78) =~= hash);
}

/// No IP packet is a control frame: its first byte has the version in it.
pub proof fn packets_are_not_control_frames(packet: Seq<u8>)
    requires
        packet.len() > 0,
        packet[0] / 16 == 4 || packet[0] / 16 == 6,
    ensures
        claimed(packet) is None,
{
}

/// A walk gives the hash of the first entry with its sequence, and every entry
/// up to that one has been hashed behind the one before it.
pub proof fn a_walk_ends_at_its_entry(log: Log, seq: u64, hashes: Seq<Seq<u8>>)
    requires
        log.held(seq) is Some,
    ensures
        WalkFacts::begun(seq).end(log.entries@, hashes) == Some(hashes[log.held(seq)->0]),
        forall|k: int|
            0 <= k < log.held(seq)->0 ==> #[trigger] (WalkFacts {
                seq,
                at: k,
                before: hash_before(hashes, k),
            }).after(log.entries@, hashes[k]) == WalkedFacts::Going(
                WalkFacts { seq, at: k + 1, before: hash_before(hashes, k + 1) },
            ),
{
    let entries = log.entries@;
    let i = log.held(seq)->0;
    lemma_first(entries, seq);
    lemma_walk(entries, seq, hashes, 0, i);
}

/// The hash behind which the entry at `k` is hashed.
pub open spec fn hash_before(hashes: Seq<Seq<u8>>, k: int) -> Seq<u8> {
    if k == 0 {
        seq![]
    } else {
        hashes[k - 1]
    }
}

proof fn lemma_first(entries: Seq<Entry>, seq: u64)
    requires
        position(entries, seq) is Some,
    ensures
        0 <= position(entries, seq)->0 < entries.len(),
        entries[position(entries, seq)->0].seq == seq,
        forall|k: int| 0 <= k < position(entries, seq)->0 ==> (#[trigger] entries[k]).seq != seq,
    decreases entries.len(),
{
    if position(entries.drop_last(), seq) is Some {
        lemma_first(entries.drop_last(), seq);
        assert forall|k: int| 0 <= k < position(entries, seq)->0 implies (
        #[trigger] entries[k]).seq != seq by {
            assert(entries.drop_last()[k] == entries[k]);
        }
    } else {
        lemma_none(entries.drop_last(), seq);
        assert forall|k: int| 0 <= k < position(entries, seq)->0 implies (
        #[trigger] entries[k]).seq != seq by {
            assert(entries.drop_last()[k] == entries[k]);
        }
    }
}

proof fn lemma_none(entries: Seq<Entry>, seq: u64)
    requires
        position(entries, seq) is None,
    ensures
        forall|k: int| 0 <= k < entries.len() ==> (#[trigger] entries[k]).seq != seq,
    decreases entries.len(),
{
    if entries.len() > 0 {
        lemma_none(entries.drop_last(), seq);
        assert forall|k: int| 0 <= k < entries.len() implies (#[trigger] entries[k]).seq != seq by {
            if k < entries.len() - 1 {
                assert(entries.drop_last()[k] == entries[k]);
            }
        }
    }
}

proof fn lemma_walk(entries: Seq<Entry>, seq: u64, hashes: Seq<Seq<u8>>, k: int, i: int)
    requires
        0 <= k <= i < entries.len(),
        entries[i].seq == seq,
        forall|j: int| 0 <= j < i ==> (#[trigger] entries[j]).seq != seq,
    ensures
        (WalkFacts { seq, at: k, before: hash_before(hashes, k) }).end(entries, hashes) == Some(
            hashes[i],
        ),
    decreases i - k,
{
    if k < i {
        assert(entries[k].seq != seq);
        lemma_walk(entries, seq, hashes, k + 1, i);
    }
}

/// Two nodes that hold one chain never report divergence to each other: its
/// entries have the same hashes at both, and a peer's hash at a sequence is the
/// one that this node computes there.
pub proof fn one_chain_never_diverges(log: Log, peer: Log, seq: u64, hashes: Seq<Seq<u8>>)
    requires
        seq <= log.reached(),
        log.held(seq) is Some,
        peer.entries@ == log.entries@,
    ensures
        ({
            let mine = WalkFacts::begun(seq).end(log.entries@, hashes);
            let theirs = WalkFacts::begun(seq).end(peer.entries@, hashes);
            theirs is Some && log.comparison(theirs->0, seq, mine) == HeadComparison::Agrees
        }),
{
    a_walk_ends_at_its_entry(log, seq, hashes);
}

/// Divergence is reported only at a sequence that this node has verified, under
/// another hash than the peer's: two histories of one server.
pub proof fn divergence_is_two_histories(
    log: Log,
    peer_hash: Seq<u8>,
    peer_seq: u64,
    mine: Option<Seq<u8>>,
    at: u64,
)
    requires
        log.comparison(peer_hash, peer_seq, mine) == (HeadComparison::Diverges { seq: at }),
    ensures
        at == peer_seq,
        at <= log.reached(),
        mine is Some && mine->0 != peer_hash,
{
}

/// A mode reads back from how it is spelled, and nothing else is a mode; on the
/// wire one is advisory and two enforcing, and everything else is off. The
/// stronger of two modes is kept.
pub proof fn the_stronger_mode_is_kept(
    a: Mode,
    spelled: &'static str,
    read: Option<Mode>,
    text: &str,
    other: Option<Mode>,
    b: Mode,
    m: Mode,
    v: i32,
    wired: Mode,
)
    requires
        call_ensures(Mode::as_str, (a,), spelled),
        call_ensures(Mode::parse, (spelled,), read),
        call_ensures(Mode::parse, (text,), other),
        call_ensures(Mode::raised, (a, b), m),
        call_ensures(Mode::from_wire, (v,), wired),
    ensures
        read == Some(a),
        other is None <==> text@ != "off"@ && text@ != "advisory"@ && text@ != "enforcing"@,
        text@ == "off"@ ==> other == Some(Mode::Off),
        text@ == "advisory"@ ==> other == Some(Mode::Advisory),
        text@ == "enforcing"@ ==> other == Some(Mode::Enforcing),
        m is Enforcing <==> a is Enforcing || b is Enforcing,
        m is Off <==> a is Off && b is Off,
        wired is Advisory <==> v == 1,
        wired is Enforcing <==> v == 2,
{
    reveal_strlit("off");
    reveal_strlit("advisory");
    reveal_strlit("enforcing");
    assert("off"@.len() == 3 && "advisory"@.len() == 8 && "enforcing"@.len() == 9);
    if read is Some {
        modes_round_trip(a, read->0);
    }
}

/// A log grows by entries that follow on what it holds and that have been
/// verified, all of them or none; what is checked is the whole chain with the new
/// entries at its end.
pub proof fn a_log_grows_by_verified_entries(
    log: &mut Log,
    fetched: Vec<Entry>,
    verdict: Result<State, String>,
    r: Result<Outcome, Error>,
    checked: Vec<Entry>,
    i: int,
    seq: u64,
    present: bool,
    head: Vec<u8>,
)
    requires
        old(log).entries@.len() < u64::MAX,
        call_ensures(Log::candidate, (&*old(log), &fetched), checked),
        call_ensures(Log::extend, (log, fetched, verdict), r),
        0 <= i < old(log).entries@.len() + fetched@.len(),
        call_ensures(Log::verified_seq, (&*final(log),), seq),
        call_ensures(Log::is_present, (&*final(log),), present),
        call_ensures(Log::head, (&*final(log),), head),
    ensures
        ({
            let n = old(log).entries@.len();
            let grows = fetched@.len() > 0 && fetched@[0].seq == n + 1 && verdict is Ok;
            &&& checked@.len() == n + fetched@.len()
            &&& i < n ==> checked@[i].seq == old(log).entries@[i].seq && checked@[i].bytes@
                == old(log).entries@[i].bytes@
            &&& i >= n ==> checked@[i].seq == fetched@[i - n].seq && checked@[i].bytes@
                == fetched@[i - n].bytes@
            &&& grows ==> {
                &&& r == Ok::<Outcome, Error>(Outcome::Advanced { to: verdict->Ok_0.head_seq })
                &&& final(log).entries@ == old(log).entries@ + fetched@
                &&& present && seq == verdict->Ok_0.head_seq && head@ == verdict->Ok_0.head@
            }
            &&& !grows ==> *final(log) == *old(log)
            &&& fetched@.len() == 0 ==> r == Ok::<Outcome, Error>(Outcome::UpToDate)
            &&& fetched@.len() > 0 && !grows ==> r is Err
            &&& fetched@.len() > 0 && fetched@[0].seq != n + 1 ==> (
            r matches Err(Error::NotContiguous { expected, got }) && expected == n + 1 && got
                == fetched@[0].seq)
        }),
{
    let n = old(log).entries@.len();
    let all = chain(checked@);
    assert(all.len() == checked@.len());
    assert(all[i] == checked@[i]@);
    assert(chain(old(log).entries@).len() == n);
    if i < n {
        assert(all[i] == chain(old(log).entries@)[i]);
        assert(all[i] == old(log).entries@[i]@);
    } else {
        assert(all[i] == chain(fetched@)[i - n]);
        assert(all[i] == fetched@[i - n]@);
    }
    if let Err(e) = r {
        if fetched@.len() > 0 && fetched@[0].seq != n + 1 {
            assert(e@ is NotContiguous);
        }
    }
}

/// A log that was kept is taken over only if it can be read and verifies; an
/// empty one is no log.
pub proof fn a_kept_log_must_verify(
    entries: Result<Vec<Entry>, String>,
    verdict: Result<State, String>,
    r: Result<Log, Error>,
    fresh: Log,
    seq: u64,
    head: Vec<u8>,
)
    requires
        call_ensures(Log::decode, (entries, verdict), r),
        call_ensures(Log::new, (), fresh),
        call_ensures(Log::verified_seq, (&fresh,), seq),
        call_ensures(Log::head, (&fresh,), head),
    ensures
        r is Ok <==> entries is Ok && (entries->Ok_0@.len() == 0 || verdict is Ok),
        r matches Ok(log) ==> {
            &&& log.entries@ == entries->Ok_0@
            &&& entries->Ok_0@.len() == 0 ==> log.state is None
            &&& entries->Ok_0@.len() > 0 ==> log.state == Some(verdict->Ok_0)
        },
        r matches Err(e) ==> (e is Malformed <==> entries is Err) && (e is Broken <==> entries is Ok),
        fresh.entries@.len() == 0 && fresh.state is None && seq == 0 && head@.len() == 0,
{
    if let Ok(log) = r {
        assert(log.entries@ =~= entries->Ok_0@);
    }
    if let Err(e) = r {
        assert(entries is Err ==> e@ is Malformed);
        assert(entries is Ok ==> e@ is Broken);
    }
}

proof fn lemma_coverage(covered: Seq<Coverage>, handle: Seq<char>)
    ensures
        match coverage(covered, handle) {
            Some(i) => {
                &&& 0 <= i < covered.len()
                &&& covered[i].handle@ == handle
                &&& forall|k: int| i < k < covered.len() ==> (#[trigger] covered[k]).handle@ != handle
            },
            None => forall|k: int| 0 <= k < covered.len() ==> (#[trigger] covered[k]).handle@ != handle,
        },
    decreases covered.len(),
{
    if covered.len() > 0 {
        let init = covered.drop_last();
        lemma_coverage(init, handle);
        assert forall|k: int| 0 <= k < init.len() implies #[trigger] covered[k] == init[k] by {}
    }
}

proof fn lemma_revocation(revoked: Seq<(String, i64)>, handle: Seq<char>)
    ensures
        match revocation(revoked, handle) {
            Some(t) => exists|i: int|
                {
                    &&& 0 <= i < revoked.len()
                    &&& (#[trigger] revoked[i]).0@ == handle && revoked[i].1 == t
                    &&& forall|k: int| i < k < revoked.len() ==> (#[trigger] revoked[k]).0@ != handle
                },
            None => forall|k: int| 0 <= k < revoked.len() ==> (#[trigger] revoked[k]).0@ != handle,
        },
    decreases revoked.len(),
{
    if revoked.len() > 0 {
        let init = revoked.drop_last();
        lemma_revocation(init, handle);
        assert forall|k: int| 0 <= k < init.len() implies #[trigger] revoked[k] == init[k] by {}
        if revoked.last().0@ == handle {
            assert(revoked[revoked.len() - 1].0@ == handle);
        } else if revocation(init, handle) is Some {
            let t = revocation(init, handle)->0;
            let i = choose|i: int|
                {
                    &&& 0 <= i < init.len()
                    &&& (#[trigger] init[i]).0@ == handle && init[i].1 == t
                    &&& forall|k: int| i < k < init.len() ==> (#[trigger] init[k]).0@ != handle
                };
            assert(revoked[i].0@ == handle && revoked[i].1 == t);
        }
    }
}

/// Without a log nobody is countersigned, and whom the log covers is not
/// excluded. Who is, is excluded for the first of these: nothing was signed for
/// that handle; other keys were; it is revoked by now; or its window is over.
pub proof fn an_exclusion_has_its_reason(
    log: Log,
    handle: &str,
    kem: &[u8],
    dh: &[u8],
    t: i64,
    covered: bool,
    r: Option<Reason>,
    i: int,
)
    requires
        call_ensures(Log::classify, (&log, handle, kem, dh, t, covered), r),
    ensures
        log.state is None ==> r == Some(Reason::NotCountersigned),
        log.state matches Some(s) ==> {
            let signed = exists|k: int|
                0 <= k < s.covered@.len() && (#[trigger] s.covered@[k]).handle@ == handle@;
            &&& r is None <==> covered
            &&& !covered ==> (r == Some(Reason::NotCountersigned) <==> !signed)
            &&& !covered && 0 <= i < s.covered@.len() && s.covered@[i].handle@ == handle@ && (
            forall|k: int| i < k < s.covered@.len() ==> (#[trigger] s.covered@[k]).handle@
                != handle@) ==> (r == Some(Reason::KeyMismatch) <==> s.covered@[i].kem_public_key@
                != kem@ || s.covered@[i].dh_public_key@ != dh@)
            &&& r == Some(Reason::Revoked) ==> exists|k: int|
                0 <= k < s.revoked@.len() && (#[trigger] s.revoked@[k]).0@ == handle@
                    && s.revoked@[k].1 <= t
            &&& r == Some(Reason::OutsideWindow) && s.revoked@.len() > 0 ==> !(
            s.revoked@.last().0@ == handle@ && s.revoked@.last().1 <= t)
        },
{
    if let Some(s) = log.state {
        lemma_coverage(s.covered@, handle@);
        lemma_revocation(s.revoked@, handle@);
        if let Some(j) = coverage(s.covered@, handle@) {
            assert(s.covered@[j].handle@ == handle@);
        }
    }
}

/// A walk to an entry starts at the first one, asks for the hash of one entry
/// after the other, each behind the hash of the one before it, and gives the hash
/// of the entry with the number that was asked for. It starts only for a number
/// that the log can hold.
pub proof fn a_walk_goes_entry_by_entry(
    log: Log,
    seq: u64,
    begun: Option<Walk>,
    walk: Walk,
    due: &Entry,
    hash: Vec<u8>,
    r: Walked,
)
    requires
        call_ensures(Log::hash_at, (&log, seq), begun),
        walk.at < log.entries@.len(),
        call_ensures(Log::due, (&log, &walk), due),
        call_ensures(Log::walked, (&log, walk, hash), r),
    ensures
        begun is Some <==> 1 <= seq <= log.entries@.len(),
        begun matches Some(w) ==> w.seq == seq && w.at == 0 && w.before@.len() == 0,
        *due == log.entries@[walk.at as int],
        r is Found <==> due.seq == walk.seq,
        r matches Walked::Found(h) ==> h@ == hash@,
        r is Absent <==> due.seq != walk.seq && walk.at + 1 == log.entries@.len(),
        r matches Walked::Going(next) ==> next.seq == walk.seq && next.at == walk.at + 1
            && next.before@ == hash@,
{
    assert(r@ == walk@.after(log.entries@, hash@));
    match r {
        Walked::Found(h) => {},
        Walked::Going(next) => {
            assert(r@ == WalkedFacts::Going(next@));
        },
        Walked::Absent => {},
    }
}

/// A peer's head is compared with our own hash at the same number: equal ones
/// agree, others diverge. A peer that is further than we are is ahead, and
/// without a number on either side, or a hash of our own, nothing is known.
pub proof fn heads_are_compared_at_one_number(
    log: Log,
    peer: &[u8],
    seq: u64,
    mine: &Option<Vec<u8>>,
    r: HeadComparison,
    local: u64,
    head: Vec<u8>,
    same: bool,
)
    requires
        call_ensures(Log::compare_head, (&log, peer, seq, mine), r),
        call_ensures(Log::verified_seq, (&log,), local),
        call_ensures(Log::head, (&log,), head),
        call_ensures(Log::matches_head, (&log, peer, seq), same),
    ensures
        r is PeerAhead <==> 0 < local < seq,
        r matches HeadComparison::PeerAhead { peer_seq, local_seq } ==> peer_seq == seq
            && local_seq == local,
        r is Agrees <==> 0 < seq <= local && *mine is Some && (*mine)->0@ == peer@,
        r is Diverges <==> 0 < seq <= local && *mine is Some && (*mine)->0@ != peer@,
        r matches HeadComparison::Diverges { seq: at } ==> at == seq,
        same <==> local == seq && head@ == peer@,
{
}

/// A claim of a head reads back, whatever padding follows it, if its hash is of
/// sixty-four bytes; nothing else is a claim, and no packet is.
pub proof fn a_head_claim_reads_back(
    hash: &[u8],
    seq: u64,
    out: Vec<u8>,
    padded: &[u8],
    r: Option<(Vec<u8>, u64)>,
    other: &[u8],
    q: Option<(Vec<u8>, u64)>,
)
    requires
        hash@.len() == 64,
        call_ensures(encode_head_claim, (hash, seq), out),
        padded@.len() >= out@.len(),
        padded@.take(out@.len() as int) == out@,
        call_ensures(decode_head_claim, (padded,), r),
        call_ensures(decode_head_claim, (other,), q),
    ensures
        r matches Some((h, n)) && h@ == hash@ && n == seq,
        out@.len() == 78 && out@[0] == 0 && out@[1] == 1,
        out@.skip(14) == hash@,
        q matches Some((h, n)) ==> other@.len() >= 78 && other@[0] == 0 && other@[1] == 1 && h@
            == other@.subrange(14, 78),
        other@.len() > 0 && (other@[0] / 16 == 4 || other@[0] / 16 == 6) ==> q is None,
{
    let rest = padded@.skip(out@.len() as int);
    assert(padded@ =~= out@ + rest);
    a_claim_survives_padding(hash@, seq, rest);
    reveal_with_fuel(pow256, 9);
    big_endian_round_trips(seq as nat, 8);
    big_endian_round_trips(64, 4);
    assert(out@.skip(14) =~= hash@);
}

/// Each refusal and each reason is said in its own words.
pub proof fn a_refusal_is_said_in_words(
    e: String,
    expected: u64,
    got: u64,
    malformed: String,
    broken: String,
    gap: String,
    a: String,
    b: String,
    none: String,
    mismatch: String,
    window: String,
    revoked: String,
)
    requires
        call_ensures(Error::to_text, (&Error::Malformed(e),), malformed),
        call_ensures(Error::to_text, (&Error::Broken(e),), broken),
        call_ensures(Error::to_text, (&Error::NotContiguous { expected, got },), gap),
        call_ensures(decimal, (expected,), a),
        call_ensures(decimal, (got,), b),
        call_ensures(Reason::to_text, (Reason::NotCountersigned,), none),
        call_ensures(Reason::to_text, (Reason::KeyMismatch,), mismatch),
        call_ensures(Reason::to_text, (Reason::OutsideWindow,), window),
        call_ensures(Reason::to_text, (Reason::Revoked,), revoked),
    ensures
        malformed@ == "malformed bedrock log: "@ + e@,
        broken@ == "bedrock chain does not verify: "@ + e@,
        gap@ == "bedrock entries start at "@ + b@ + ", expected "@ + a@,
        none@ == "not countersigned"@,
        mismatch@ == "the netmap presents keys the log does not cover"@,
        window@ == "outside its signed validity window"@,
        revoked@ == "revoked"@,
{
}

} // verus!
