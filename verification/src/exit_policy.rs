//! Linux policy routing for a locally consented exit offer.
//!
//! Exit traffic lives in a dedicated table. The main table is consulted first
//! with its default suppressed, preserving connected LAN and explicit host
//! routes; known control, relay, and peer underlay destinations get explicit
//! rules that may use the main-table default. The catch-all lookup is
//! installed last and removed first, so partial setup or cleanup cannot
//! capture Karst's own transport.
//!
//! Every priority sits below 32766, where the kernel keeps its own
//! unconditional main-table rule: a rule at or above that number would never
//! be reached.
//!
//! The module decides which `ip` command comes next; the caller runs it and
//! reports whether it succeeded.

use crate::addr::IpAddr;
use crate::text::{decimal, decimal_text, same, texts};
use vstd::prelude::*;

verus! {

pub const ESCAPE_PRIORITY: u32 = 100;
pub const MAIN_PRIORITY: u32 = 250;
pub const EXIT_PRIORITY: u32 = 260;
pub const MAX_ESCAPES: usize = 150;

/// The priority of the kernel's own main-table rule.
pub const KERNEL_MAIN_PRIORITY: u32 = 32766;

/// The IP family that a policy is for.
#[derive(Clone, Copy, Debug, PartialEq, Eq, Structural)]
pub enum Family {
    V4,
    V6,
}

impl Family {
    /// The `ip` flag that selects the family.
    pub open spec fn flag_text(self) -> Seq<char> {
        match self {
            Family::V4 => "-4"@,
            Family::V6 => "-6"@,
        }
    }

    /// The prefix length of a single host.
    pub open spec fn host_bits(self) -> nat {
        match self {
            Family::V4 => 32,
            Family::V6 => 128,
        }
    }

    /// Whether `address` belongs to the family.
    pub open spec fn holds(self, address: IpAddr) -> bool {
        address is V4 == (self is V4)
    }

    /// The family of `address`.
    pub fn of(address: IpAddr) -> (f: Family)
        ensures
            f == if address is V4 {
                Family::V4
            } else {
                Family::V6
            },
    {
        if address.is_ipv4() {
            Family::V4
        } else {
            Family::V6
        }
    }

    /// The `ip` flag that selects the family.
    pub fn flag(self) -> (s: &'static str)
        ensures
            s@ == self.flag_text(),
    {
        match self {
            Family::V4 => "-4",
            Family::V6 => "-6",
        }
    }

    /// The prefix length of a single host.
    pub fn host_len(self) -> (n: u8)
        ensures
            n == self.host_bits(),
    {
        match self {
            Family::V4 => 32,
            Family::V6 => 128,
        }
    }
}

/// One change to the host's routing policy.
#[derive(Clone, Copy, Debug, PartialEq, Eq, Structural)]
pub enum Stage {
    /// The default route of the exit table.
    DefaultRoute,
    /// A rule that lets one underlay destination use the main table.
    Escape { priority: u32, address: IpAddr },
    /// The main table with its default route suppressed.
    SuppressedMain,
    /// The catch-all lookup in the exit table.
    ExitLookup,
}

/// Whether a command puts a stage in place or takes it away.
#[derive(Clone, Copy, Debug, PartialEq, Eq, Structural)]
pub enum Verb {
    Add,
    Delete,
}

/// The arguments of `ip` that add or delete `stage`.
pub open spec fn command(
    interface: Seq<char>,
    family: Family,
    verb: Verb,
    stage: Stage,
) -> Seq<Seq<char>> {
    let word = match verb {
        Verb::Add => "add"@,
        Verb::Delete => "del"@,
    };
    match stage {
        Stage::DefaultRoute => seq![
            family.flag_text(),
            "route"@,
            word,
            "default"@,
            "dev"@,
            interface,
            "table"@,
            "51888"@,
            "proto"@,
            "186"@,
        ],
        Stage::Escape { priority, address } => seq![
            family.flag_text(),
            "rule"@,
            word,
            "priority"@,
            decimal_text(priority as nat),
            "to"@,
            address.text().push('/') + decimal_text(family.host_bits()),
            "lookup"@,
            "main"@,
            "protocol"@,
            "186"@,
        ],
        Stage::SuppressedMain => seq![
            family.flag_text(),
            "rule"@,
            word,
            "priority"@,
            decimal_text(MAIN_PRIORITY as nat),
            "lookup"@,
            "main"@,
            "suppress_prefixlength"@,
            "0"@,
            "protocol"@,
            "186"@,
        ],
        Stage::ExitLookup => seq![
            family.flag_text(),
            "rule"@,
            word,
            "priority"@,
            decimal_text(EXIT_PRIORITY as nat),
            "lookup"@,
            "51888"@,
            "protocol"@,
            "186"@,
        ],
    }
}

/// Appends one argument.
fn arg(args: &mut Vec<String>, word: &str)
    ensures
        texts(final(args)@) == texts(old(args)@).push(word@),
{
    args.push(String::from_str(word));
    proof {
        assert(texts(args@) =~= texts(old(args)@).push(word@));
    }
}

/// The arguments of `ip` that add or delete `stage`.
pub fn command_args(interface: &str, family: Family, verb: Verb, stage: Stage) -> (args: Vec<
    String,
>)
    ensures
        texts(args@) == command(interface@, family, verb, stage),
{
    let word = match verb {
        Verb::Add => "add",
        Verb::Delete => "del",
    };
    let mut args: Vec<String> = Vec::new();
    assert(texts(args@) =~= Seq::<Seq<char>>::empty());
    arg(&mut args, family.flag());
    match stage {
        Stage::DefaultRoute => {
            arg(&mut args, "route");
            arg(&mut args, word);
            arg(&mut args, "default");
            arg(&mut args, "dev");
            arg(&mut args, interface);
            arg(&mut args, "table");
            arg(&mut args, "51888");
            arg(&mut args, "proto");
            arg(&mut args, "186");
        },
        Stage::Escape { priority, address } => {
            arg(&mut args, "rule");
            arg(&mut args, word);
            arg(&mut args, "priority");
            let number = decimal(priority as u64);
            arg(&mut args, number.as_str());
            arg(&mut args, "to");
            let mut destination = address.to_text();
            destination.push('/');
            let bits = decimal(family.host_len() as u64);
            destination.append(bits.as_str());
            arg(&mut args, destination.as_str());
            arg(&mut args, "lookup");
            arg(&mut args, "main");
            arg(&mut args, "protocol");
            arg(&mut args, "186");
        },
        Stage::SuppressedMain => {
            arg(&mut args, "rule");
            arg(&mut args, word);
            arg(&mut args, "priority");
            let number = decimal(MAIN_PRIORITY as u64);
            arg(&mut args, number.as_str());
            arg(&mut args, "lookup");
            arg(&mut args, "main");
            arg(&mut args, "suppress_prefixlength");
            arg(&mut args, "0");
            arg(&mut args, "protocol");
            arg(&mut args, "186");
        },
        Stage::ExitLookup => {
            arg(&mut args, "rule");
            arg(&mut args, word);
            arg(&mut args, "priority");
            let number = decimal(EXIT_PRIORITY as u64);
            arg(&mut args, number.as_str());
            arg(&mut args, "lookup");
            arg(&mut args, "51888");
            arg(&mut args, "protocol");
            arg(&mut args, "186");
        },
    }
    assert(texts(args@) =~= command(interface@, family, verb, stage));
    args
}

/// Addresses in strictly increasing order.
pub open spec fn increasing(s: Seq<IpAddr>) -> bool {
    forall|i: int, j: int| 0 <= i < j < s.len() ==> #[trigger] s[i].precedes(#[trigger] s[j])
}

/// `list` holds exactly those of `all` that belong to `family`, each once and
/// in order.
pub open spec fn escape_list(list: Seq<IpAddr>, all: Seq<IpAddr>, family: Family) -> bool {
    &&& increasing(list)
    &&& forall|a: IpAddr| #[trigger]
        list.contains(a) <==> all.contains(a) && family.holds(a)
}

/// Those of `all` that belong to `family`, each once and in order.
pub open spec fn escapes_for(all: Seq<IpAddr>, family: Family) -> Seq<IpAddr> {
    choose|list: Seq<IpAddr>| escape_list(list, all, family)
}

/// An increasing list is fixed by what it holds.
proof fn lemma_increasing_is_unique(a: Seq<IpAddr>, b: Seq<IpAddr>)
    requires
        increasing(a),
        increasing(b),
        forall|x: IpAddr| #[trigger] a.contains(x) <==> b.contains(x),
    ensures
        a == b,
    decreases a.len(),
{
    if a.len() == 0 {
        if b.len() > 0 {
            assert(b.contains(b[0]));
            assert(a.contains(b[0]));
        }
        assert(a =~= b);
    } else {
        assert(a.contains(a.last()));
        assert(b.contains(a.last()));
        assert(b.contains(b.last()));
        assert(a.contains(b.last()));
        let i = choose|i: int| 0 <= i < b.len() && b[i] == a.last();
        let j = choose|j: int| 0 <= j < a.len() && a[j] == b.last();
        if i < b.len() - 1 {
            assert(b[i].precedes(b[b.len() - 1]));
        }
        if j < a.len() - 1 {
            assert(a[j].precedes(a[a.len() - 1]));
        }
        assert(a.last() == b.last());
        let a0 = a.drop_last();
        let b0 = b.drop_last();
        assert forall|x: IpAddr| #[trigger] a0.contains(x) <==> b0.contains(x) by {
            if a0.contains(x) {
                let k = choose|k: int| 0 <= k < a0.len() && a0[k] == x;
                assert(a[k] == x);
                assert(a.contains(x));
                assert(a[k].precedes(a[a.len() - 1]));
                let m = choose|m: int| 0 <= m < b.len() && b[m] == x;
                assert(b0[m] == x);
            }
            if b0.contains(x) {
                let k = choose|k: int| 0 <= k < b0.len() && b0[k] == x;
                assert(b[k] == x);
                assert(b.contains(x));
                assert(a.contains(x));
                assert(b[k].precedes(b[b.len() - 1]));
                let m = choose|m: int| 0 <= m < a.len() && a[m] == x;
                assert(a0[m] == x);
            }
        }
        assert(increasing(a0)) by {
            assert forall|p: int, q: int| 0 <= p < q < a0.len() implies #[trigger] a0[p].precedes(
                #[trigger] a0[q],
            ) by {
                assert(a[p].precedes(a[q]));
            }
        }
        assert(increasing(b0)) by {
            assert forall|p: int, q: int| 0 <= p < q < b0.len() implies #[trigger] b0[p].precedes(
                #[trigger] b0[q],
            ) by {
                assert(b[p].precedes(b[q]));
            }
        }
        lemma_increasing_is_unique(a0, b0);
        assert(a =~= a0.push(a.last()));
        assert(b =~= b0.push(b.last()));
    }
}

/// The list of escapes is fixed by the addresses and the family.
pub proof fn the_escape_list_is_unique(list: Seq<IpAddr>, all: Seq<IpAddr>, family: Family)
    requires
        escape_list(list, all, family),
    ensures
        list == escapes_for(all, family),
{
    let chosen = escapes_for(all, family);
    assert(escape_list(chosen, all, family));
    assert forall|x: IpAddr| #[trigger] list.contains(x) <==> chosen.contains(x) by {
        assert(chosen.contains(x) <==> all.contains(x) && family.holds(x));
    }
    lemma_increasing_is_unique(list, chosen);
}

/// Puts `address` in its place in an increasing list, unless it is there.
fn insert_address(list: &mut Vec<IpAddr>, address: IpAddr)
    requires
        increasing(old(list)@),
    ensures
        increasing(final(list)@),
        forall|a: IpAddr| #[trigger]
            final(list)@.contains(a) <==> old(list)@.contains(a) || a == address,
{
    let ghost before = list@;
    let mut i: usize = 0;
    while i < list.len() && list[i].before(address)
        invariant
            i <= list@.len(),
            list@ == before,
            forall|j: int| 0 <= j < i ==> #[trigger] list@[j].precedes(address),
        decreases list@.len() - i,
    {
        i = i + 1;
    }
    if i < list.len() && list[i] == address {
        assert(list@.contains(list@[i as int]));
        return;
    }
    list.insert(i, address);
    proof {
        let after = list@;
        assert(after =~= before.insert(i as int, address));
        assert forall|a: IpAddr| #[trigger] after.contains(a) <==> before.contains(a) || a
            == address by {
            if after.contains(a) {
                let k = choose|k: int| 0 <= k < after.len() && after[k] == a;
                if k < i {
                    assert(before[k] == a);
                } else if k > i {
                    assert(before[k - 1] == a);
                }
            }
            if before.contains(a) {
                let k = choose|k: int| 0 <= k < before.len() && before[k] == a;
                if k < i {
                    assert(after[k] == a);
                } else {
                    assert(after[k + 1] == a);
                }
            }
            assert(after[i as int] == address);
        }
        assert forall|p: int, q: int| 0 <= p < q < after.len() implies #[trigger] after[p].precedes(
            #[trigger] after[q],
        ) by {
            let p0 = if p < i { p } else { p - 1 };
            let q0 = if q < i { q } else { q - 1 };
            if i < before.len() && q == i + 1 {
            } else if p == i && q > i + 1 {
                assert(before[i as int].precedes(before[q0]));
            } else if p != i && q != i {
                assert(before[p0].precedes(before[q0]));
            }
            if p < i && q > i {
                assert(before[p0].precedes(before[q0]));
            }
        }
    }
}

/// The addresses of `family`, each once and in order.
pub fn family_escapes(all: &Vec<IpAddr>, family: Family) -> (list: Vec<IpAddr>)
    ensures
        escape_list(list@, all@, family),
        list@ == escapes_for(all@, family),
{
    let mut list: Vec<IpAddr> = Vec::new();
    let mut i: usize = 0;
    while i < all.len()
        invariant
            i <= all@.len(),
            escape_list(list@, all@.take(i as int), family),
        decreases all@.len() - i,
    {
        let address = all[i];
        proof {
            assert(all@.take(i + 1) =~= all@.take(i as int).push(address));
        }
        let ghost before = list@;
        let ghost seen = all@.take(i as int);
        if address.is_ipv4() == (family == Family::V4) {
            insert_address(&mut list, address);
        }
        proof {
            let now = seen.push(address);
            assert forall|a: IpAddr| #[trigger] list@.contains(a) <==> now.contains(a)
                && family.holds(a) by {
                if now.contains(a) {
                    let k = choose|k: int| 0 <= k < now.len() && now[k] == a;
                    if k < seen.len() {
                        assert(seen[k] == a);
                    }
                }
                if seen.contains(a) {
                    let k = choose|k: int| 0 <= k < seen.len() && seen[k] == a;
                    assert(now[k] == a);
                }
                assert(now[seen.len() as int] == address);
                assert(before.contains(a) <==> seen.contains(a) && family.holds(a));
            }
        }
        i = i + 1;
    }
    proof {
        assert(all@.take(i as int) =~= all@);
        the_escape_list_is_unique(list@, all@, family);
    }
    list
}

/// The stages of a policy, in the order in which they are installed.
pub open spec fn stages(escapes: Seq<IpAddr>) -> Seq<Stage> {
    seq![Stage::DefaultRoute] + Seq::new(
        escapes.len(),
        |i: int| Stage::Escape { priority: (ESCAPE_PRIORITY + i) as u32, address: escapes[i] },
    ) + seq![Stage::SuppressedMain, Stage::ExitLookup]
}

/// The stages of a policy, in the order in which they are installed.
fn plan_stages(escapes: &Vec<IpAddr>) -> (plan: Vec<Stage>)
    requires
        escapes@.len() <= MAX_ESCAPES,
    ensures
        plan@ == stages(escapes@),
{
    let mut plan: Vec<Stage> = Vec::new();
    plan.push(Stage::DefaultRoute);
    let mut i: usize = 0;
    while i < escapes.len()
        invariant
            i <= escapes@.len() <= MAX_ESCAPES,
            plan@ == seq![Stage::DefaultRoute] + Seq::new(
                i as nat,
                |k: int|
                    Stage::Escape { priority: (ESCAPE_PRIORITY + k) as u32, address: escapes@[k] },
            ),
        decreases escapes@.len() - i,
    {
        plan.push(
            Stage::Escape { priority: ESCAPE_PRIORITY + i as u32, address: escapes[i] },
        );
        i = i + 1;
    }
    plan.push(Stage::SuppressedMain);
    plan.push(Stage::ExitLookup);
    assert(plan@ =~= stages(escapes@));
    plan
}

/// Where a run of commands stands.
#[derive(Clone, Copy, Debug, PartialEq, Eq, Structural)]
pub enum Phase {
    /// No command is due.
    Idle,
    /// Taking down what is installed.
    Clearing,
    /// Asking whether the `ip` program works at all.
    Probing,
    /// Removing a stale default route that carries Karst's protocol marker.
    Sweeping,
    /// Installing the stages of the plan in order.
    Applying,
    /// Taking down what a failed run had installed.
    RollingBack,
}

/// An activation that is under way.
#[derive(Clone, Debug)]
pub struct Wanted {
    pub interface: String,
    pub family: Family,
    pub escapes: Vec<IpAddr>,
    pub plan: Vec<Stage>,
}

/// What is installed on the host, and what is being done about it.
#[derive(Debug)]
pub struct State {
    pub phase: Phase,
    /// The interface that the stages in `undo` are for.
    pub interface: String,
    /// The family that the stages in `undo` are for.
    pub family: Family,
    /// The installed stages, in the order in which they were installed.
    pub undo: Vec<Stage>,
    pub wanted: Option<Wanted>,
    pub active: Option<Family>,
    pub escapes: Vec<IpAddr>,
    /// What stopped the last activation, if anything did.
    pub error: Option<String>,
}

/// An activation that is under way, as a value.
#[verifier::ext_equal]
pub struct Target {
    pub interface: Seq<char>,
    pub family: Family,
    pub escapes: Seq<IpAddr>,
}

/// The policy state as a value.
#[verifier::ext_equal]
pub struct Policy {
    pub phase: Phase,
    pub interface: Seq<char>,
    pub family: Family,
    pub undo: Seq<Stage>,
    pub wanted: Option<Target>,
    pub active: Option<Family>,
    pub escapes: Seq<IpAddr>,
}

impl View for State {
    type V = Policy;

    open spec fn view(&self) -> Policy {
        Policy {
            phase: self.phase,
            interface: self.interface@,
            family: self.family,
            undo: self.undo@,
            wanted: match self.wanted {
                Some(w) => Some(
                    Target { interface: w.interface@, family: w.family, escapes: w.escapes@ },
                ),
                None => None,
            },
            active: self.active,
            escapes: self.escapes@,
        }
    }
}

impl Policy {
    /// What is installed is always a leading part of one plan, and the phase
    /// says how it got there.
    pub open spec fn valid(self) -> bool {
        &&& match self.phase {
            Phase::Idle => self.wanted is None && (self.active is None ==> self.undo.len() == 0),
            Phase::Clearing => self.undo.len() > 0 && self.active is None,
            Phase::Probing | Phase::Sweeping => self.wanted is Some && self.undo.len() == 0
                && self.active is None,
            Phase::Applying => {
                &&& self.wanted is Some
                &&& self.active is None
                &&& self.interface == self.wanted->0.interface
                &&& self.family == self.wanted->0.family
                &&& self.undo.len() < stages(self.wanted->0.escapes).len()
                &&& self.undo == stages(self.wanted->0.escapes).take(self.undo.len() as int)
            },
            Phase::RollingBack => self.undo.len() > 0 && self.wanted is None && self.active is None,
        }
        &&& self.wanted is Some ==> self.wanted->0.escapes.len() <= MAX_ESCAPES
        &&& self.wanted is Some ==> increasing(self.wanted->0.escapes)
        &&& increasing(self.escapes)
        &&& self.active is None ==> self.escapes.len() == 0
        &&& self.active is Some ==> self.active == Some(self.family) && self.undo == stages(
            self.escapes,
        )
        &&& leading(self.undo)
    }

    /// The command that is due, if any.
    pub open spec fn due(self) -> Option<Seq<Seq<char>>> {
        match self.phase {
            Phase::Idle => None,
            Phase::Clearing | Phase::RollingBack => Some(
                command(self.interface, self.family, Verb::Delete, self.undo.last()),
            ),
            Phase::Probing => Some(seq!["-Version"@]),
            Phase::Sweeping => Some(
                command(
                    self.wanted->0.interface,
                    self.wanted->0.family,
                    Verb::Delete,
                    Stage::DefaultRoute,
                ),
            ),
            Phase::Applying => Some(
                command(
                    self.interface,
                    self.family,
                    Verb::Add,
                    stages(self.wanted->0.escapes)[self.undo.len() as int],
                ),
            ),
        }
    }

    /// The state after the due command has succeeded or failed.
    pub open spec fn step(self, ok: bool) -> Policy {
        match self.phase {
            Phase::Idle => self,
            Phase::Clearing => {
                let undo = self.undo.drop_last();
                Policy {
                    phase: if undo.len() > 0 {
                        Phase::Clearing
                    } else if self.wanted is Some {
                        Phase::Probing
                    } else {
                        Phase::Idle
                    },
                    undo,
                    ..self
                }
            },
            Phase::Probing => if ok {
                Policy { phase: Phase::Sweeping, ..self }
            } else {
                Policy { phase: Phase::Idle, wanted: None, ..self }
            },
            Phase::Sweeping => Policy {
                phase: Phase::Applying,
                interface: self.wanted->0.interface,
                family: self.wanted->0.family,
                ..self
            },
            Phase::Applying => {
                let plan = stages(self.wanted->0.escapes);
                let undo = self.undo.push(plan[self.undo.len() as int]);
                if !ok {
                    Policy {
                        phase: if self.undo.len() > 0 {
                            Phase::RollingBack
                        } else {
                            Phase::Idle
                        },
                        wanted: None,
                        ..self
                    }
                } else if undo.len() == plan.len() {
                    Policy {
                        phase: Phase::Idle,
                        undo,
                        wanted: None,
                        active: Some(self.family),
                        escapes: self.wanted->0.escapes,
                        ..self
                    }
                } else {
                    Policy { undo, ..self }
                }
            },
            Phase::RollingBack => {
                let undo = self.undo.drop_last();
                Policy {
                    phase: if undo.len() > 0 {
                        Phase::RollingBack
                    } else {
                        Phase::Idle
                    },
                    undo,
                    ..self
                }
            },
        }
    }

    /// The state after the commands have ended with these results.
    pub open spec fn run(self, results: Seq<bool>) -> Policy
        decreases results.len(),
    {
        if results.len() == 0 {
            self
        } else {
            self.run(results.drop_last()).step(results.last())
        }
    }

    /// The state in which taking everything down begins.
    pub open spec fn cleared(self, wanted: Option<Target>) -> Policy {
        Policy {
            phase: if self.undo.len() > 0 {
                Phase::Clearing
            } else if wanted is Some {
                Phase::Probing
            } else {
                Phase::Idle
            },
            wanted,
            active: None,
            escapes: seq![],
            ..self
        }
    }
}

/// The stages that are on the host are a leading part of some plan.
pub open spec fn leading(undo: Seq<Stage>) -> bool {
    exists|escapes: Seq<IpAddr>|
        undo.len() <= #[trigger] stages(escapes).len() && undo == stages(escapes).take(
            undo.len() as int,
        )
}

proof fn lemma_leading(undo: Seq<Stage>, escapes: Seq<IpAddr>)
    requires
        undo.len() <= stages(escapes).len(),
        undo == stages(escapes).take(undo.len() as int),
    ensures
        leading(undo),
{
}

/// Every step keeps the state valid.
pub proof fn a_step_keeps_the_state_valid(p: Policy, ok: bool)
    requires
        p.valid(),
    ensures
        p.step(ok).valid(),
{
    let escapes = choose|escapes: Seq<IpAddr>|
        p.undo.len() <= #[trigger] stages(escapes).len() && p.undo == stages(escapes).take(
            p.undo.len() as int,
        );
    match p.phase {
        Phase::Clearing | Phase::RollingBack => {
            let undo = p.undo.drop_last();
            assert(undo =~= stages(escapes).take(undo.len() as int));
            lemma_leading(undo, escapes);
        },
        Phase::Sweeping => {
            let wanted = p.wanted->0.escapes;
            assert(p.undo =~= stages(wanted).take(0));
        },
        Phase::Applying => {
            let wanted = p.wanted->0.escapes;
            let plan = stages(wanted);
            let undo = p.undo.push(plan[p.undo.len() as int]);
            assert(undo =~= plan.take(undo.len() as int));
            lemma_leading(undo, wanted);
            assert(plan.take(plan.len() as int) =~= plan);
        },
        _ => {},
    }
}

/// The catch-all lookup is installed last: when it is due, every other stage of
/// the plan is in place.
pub proof fn the_exit_lookup_is_added_last(p: Policy)
    requires
        p.valid(),
        p.phase == Phase::Applying,
        stages(p.wanted->0.escapes)[p.undo.len() as int] == Stage::ExitLookup,
    ensures
        p.undo == stages(p.wanted->0.escapes).drop_last(),
{
    assert(p.undo =~= stages(p.wanted->0.escapes).drop_last());
}

/// The catch-all lookup is removed first: while it is installed it is the last
/// stage on the host, and so the one that any removal starts with.
pub proof fn the_exit_lookup_is_removed_first(p: Policy)
    requires
        p.valid(),
        p.undo.contains(Stage::ExitLookup),
    ensures
        p.undo.last() == Stage::ExitLookup,
        p.phase == Phase::Clearing || p.phase == Phase::RollingBack ==> p.due() == Some(
            command(p.interface, p.family, Verb::Delete, Stage::ExitLookup),
        ),
{
}

/// The catch-all lookup never stands alone: wherever it is installed, the
/// default route, the suppressed main lookup, and every escape are too.
pub proof fn the_exit_lookup_never_stands_alone(p: Policy)
    requires
        p.valid(),
        p.undo.contains(Stage::ExitLookup),
    ensures
        exists|escapes: Seq<IpAddr>| p.undo == #[trigger] stages(escapes),
{
    let escapes = choose|escapes: Seq<IpAddr>|
        p.undo.len() <= #[trigger] stages(escapes).len() && p.undo == stages(escapes).take(
            p.undo.len() as int,
        );
    assert(p.undo =~= stages(escapes));
}

/// A stage that fails takes the whole activation back: whatever the removals
/// report, the run ends idle and inactive with nothing left installed, after
/// one removal for each stage that had been applied.
pub proof fn a_failed_stage_rolls_everything_back(p: Policy, results: Seq<bool>)
    requires
        p.valid(),
        p.phase == Phase::Applying,
        results.len() == p.undo.len(),
    ensures
        p.step(false).run(results).phase == Phase::Idle,
        p.step(false).run(results).undo.len() == 0,
        p.step(false).run(results).active is None,
{
    a_step_keeps_the_state_valid(p, false);
    if p.undo.len() > 0 {
        lemma_removal(p.step(false), results);
    }
}

/// Taking down what is installed removes the stages in reverse order, whatever
/// each removal reports.
pub proof fn removal_runs_in_reverse(p: Policy, results: Seq<bool>)
    requires
        p.valid(),
        p.phase == Phase::Clearing || p.phase == Phase::RollingBack,
        results.len() < p.undo.len(),
    ensures
        p.run(results).due() == Some(
            command(
                p.interface,
                p.family,
                Verb::Delete,
                p.undo[p.undo.len() - 1 - results.len()],
            ),
        ),
{
    lemma_removing(p, results);
}

proof fn lemma_removing(p: Policy, results: Seq<bool>)
    requires
        p.phase == Phase::Clearing || p.phase == Phase::RollingBack,
        results.len() < p.undo.len(),
    ensures
        p.run(results) == (Policy {
            undo: p.undo.take(p.undo.len() - results.len()),
            ..p
        }),
    decreases results.len(),
{
    if results.len() == 0 {
        assert(p.undo.take(p.undo.len() as int) =~= p.undo);
    } else {
        let earlier = results.drop_last();
        lemma_removing(p, earlier);
        let undo = p.undo.take(p.undo.len() - earlier.len());
        assert(undo.drop_last() =~= p.undo.take(p.undo.len() - results.len()));
    }
}

proof fn lemma_removal(p: Policy, results: Seq<bool>)
    requires
        p.phase == Phase::Clearing || p.phase == Phase::RollingBack,
        results.len() == p.undo.len(),
        p.undo.len() > 0,
    ensures
        p.run(results).undo.len() == 0,
        p.run(results).phase == (if p.phase == Phase::Clearing && p.wanted is Some {
            Phase::Probing
        } else {
            Phase::Idle
        }),
        p.run(results).active == p.active,
{
    lemma_removing(p, results.drop_last());
}

/// Disabling a policy ends idle and inactive with nothing left installed, after
/// one removal for each installed stage.
pub proof fn clearing_removes_every_stage(p: Policy, results: Seq<bool>)
    requires
        p.valid(),
        p.phase == Phase::Idle,
        results.len() == p.undo.len(),
    ensures
        p.cleared(None).run(results).phase == Phase::Idle,
        p.cleared(None).run(results).undo.len() == 0,
        p.cleared(None).run(results).active is None,
{
    if p.undo.len() > 0 {
        lemma_removal(p.cleared(None), results);
    }
}

proof fn lemma_applying(p: Policy, results: Seq<bool>)
    requires
        p.valid(),
        p.phase == Phase::Applying,
        p.undo.len() == 0,
        results.len() < stages(p.wanted->0.escapes).len(),
        forall|i: int| 0 <= i < results.len() ==> results[i],
    ensures
        p.run(results) == (Policy {
            undo: stages(p.wanted->0.escapes).take(results.len() as int),
            ..p
        }),
    decreases results.len(),
{
    let plan = stages(p.wanted->0.escapes);
    if results.len() == 0 {
        assert(p.undo =~= plan.take(0));
    } else {
        let earlier = results.drop_last();
        lemma_applying(p, earlier);
        assert(plan.take(earlier.len() as int).push(plan[earlier.len() as int]) =~= plan.take(
            results.len() as int,
        ));
    }
}

/// When every command succeeds, the activation ends idle with the wanted family
/// active and the whole plan installed.
pub proof fn an_unbroken_run_activates(p: Policy, results: Seq<bool>)
    requires
        p.valid(),
        p.phase == Phase::Applying,
        p.undo.len() == 0,
        results.len() == stages(p.wanted->0.escapes).len(),
        forall|i: int| 0 <= i < results.len() ==> results[i],
    ensures
        p.run(results).phase == Phase::Idle,
        p.run(results).active == Some(p.wanted->0.family),
        p.run(results).escapes == p.wanted->0.escapes,
        p.run(results).undo == stages(p.wanted->0.escapes),
        p.run(results).interface == p.wanted->0.interface,
{
    let plan = stages(p.wanted->0.escapes);
    lemma_applying(p, results.drop_last());
    assert(plan.drop_last().push(plan.last()) =~= plan);
    assert(plan.take(plan.len() - 1) =~= plan.drop_last());
}

proof fn lemma_run_in_two(p: Policy, first: Seq<bool>, then: Seq<bool>)
    ensures
        p.run(first + then) == p.run(first).run(then),
    decreases then.len(),
{
    if then.len() == 0 {
        assert(first + then =~= first);
    } else {
        lemma_run_in_two(p, first, then.drop_last());
        assert((first + then).drop_last() =~= first + then.drop_last());
    }
}

/// An activation goes through the interface that it names, whatever was active
/// before. First every installed stage is removed from where it was installed,
/// the default route last of all; then, when every command succeeds, the whole
/// plan stands on the named interface and nothing else does.
pub proof fn an_activation_goes_through_its_interface(p: Policy, target: Target, results: Seq<bool>)
    requires
        p.valid(),
        p.phase == Phase::Idle,
        target.escapes.len() <= MAX_ESCAPES,
        increasing(target.escapes),
        results.len() == p.undo.len() + 2 + stages(target.escapes).len(),
        forall|i: int| 0 <= i < results.len() ==> results[i],
    ensures
        p.undo.len() > 0 ==> p.cleared(Some(target)).run(results.take(p.undo.len() - 1)).due()
            == Some(command(p.interface, p.family, Verb::Delete, Stage::DefaultRoute)),
        p.cleared(Some(target)).run(results.take(p.undo.len() as int)).undo.len() == 0,
        p.cleared(Some(target)).run(results).phase == Phase::Idle,
        p.cleared(Some(target)).run(results).interface == target.interface,
        p.cleared(Some(target)).run(results).active == Some(target.family),
        p.cleared(Some(target)).run(results).escapes == target.escapes,
        p.cleared(Some(target)).run(results).undo == stages(target.escapes),
{
    let start = p.cleared(Some(target));
    let n = p.undo.len() as int;
    let removals = results.take(n);
    let probed = start.run(removals);
    if n > 0 {
        removal_runs_in_reverse(start, results.take(n - 1));
        lemma_removing(start, results.take(n - 1));
        assert(removals.drop_last() =~= results.take(n - 1));
    } else {
        assert(removals =~= seq![]);
    }
    assert(probed.phase == Phase::Probing);
    let checks = results.subrange(n, n + 2);
    let rest = results.skip(n + 2);
    assert(checks =~= seq![true, true]);
    let ready = probed.step(true).step(true);
    assert(probed.run(checks) == ready) by {
        reveal_with_fuel(Policy::run, 3);
        assert(checks.drop_last() =~= seq![true]);
        assert(checks.drop_last().drop_last() =~= seq![]);
    }
    lemma_run_in_two(start, removals, checks);
    lemma_run_in_two(start, removals + checks, rest);
    assert(removals + checks + rest =~= results);
    assert(probed.undo =~= seq![]);
    assert(stages(target.escapes).take(0) =~= seq![]);
    lemma_leading(probed.undo, target.escapes);
    an_unbroken_run_activates(ready, rest);
}

/// Every priority lies below the kernel's own main-table rule, the escapes come
/// first, and the catch-all comes last.
pub proof fn priorities_come_before_the_kernel_rule(escapes: Seq<IpAddr>, i: int)
    requires
        escapes.len() <= MAX_ESCAPES,
        0 <= i < escapes.len(),
    ensures
        stages(escapes)[i + 1] == (Stage::Escape {
            priority: (ESCAPE_PRIORITY + i) as u32,
            address: escapes[i],
        }),
        ESCAPE_PRIORITY <= ESCAPE_PRIORITY + i < MAIN_PRIORITY < EXIT_PRIORITY
            < KERNEL_MAIN_PRIORITY,
{
}

/// More underlay escapes than there are priorities for them.
#[derive(Clone, Copy, Debug, PartialEq, Eq, Structural)]
pub struct TooManyEscapes {
    pub count: usize,
}

impl TooManyEscapes {
    /// The refusal in words.
    pub fn to_text(self) -> (s: String)
        ensures
            s@ == decimal_text(self.count as nat) + " underlay escapes exceed the 150 rule limit"@,
    {
        let mut s = decimal(self.count as u64);
        s.append(" underlay escapes exceed the 150 rule limit");
        s
    }
}

/// How a command ended, as a value.
pub open spec fn ended(result: Result<(), String>) -> Result<(), Seq<char>> {
    match result {
        Ok(()) => Ok(()),
        Err(e) => Err(e@),
    }
}

/// What stopped an activation, once the command due in `phase` has ended: only
/// a failed probe or a failed stage does.
pub open spec fn complaint_after(
    phase: Phase,
    before: Option<Seq<char>>,
    result: Result<(), Seq<char>>,
) -> Option<Seq<char>> {
    match result {
        Err(e) => if phase == Phase::Probing || phase == Phase::Applying {
            Some(e)
        } else {
            before
        },
        Ok(()) => before,
    }
}

impl State {
    /// What stopped the last activation, if anything did.
    pub open spec fn complaint(self) -> Option<Seq<char>> {
        match self.error {
            Some(e) => Some(e@),
            None => None,
        }
    }

    /// The state is valid, and a run under way holds the stages of its target.
    pub open spec fn wf(self) -> bool {
        &&& self@.valid()
        &&& self.wanted is Some ==> self.wanted->0.plan@ == stages(self.wanted->0.escapes@)
    }

    /// Nothing installed, nothing due.
    pub fn new() -> (s: State)
        ensures
            s.wf(),
            s.phase == Phase::Idle,
            s.active is None,
            s.undo@.len() == 0,
            s.error is None,
    {
        let s = State {
            phase: Phase::Idle,
            interface: String::new(),
            family: Family::V4,
            undo: Vec::new(),
            wanted: None,
            active: None,
            escapes: Vec::new(),
            error: None,
        };
        proof {
            assert(s.undo@ =~= stages(seq![]).take(0));
            lemma_leading(s.undo@, seq![]);
        }
        s
    }

    /// Begins to activate one family through `interface` while the escapes of
    /// that family keep using the main table.
    ///
    /// Too many escapes are refused. Asking for what is already active, through
    /// the same interface, changes nothing. Otherwise the commands that `next` hands out take down what is
    /// installed and then install the new plan.
    pub fn activate(
        &mut self,
        interface: &str,
        family: Family,
        escapes: &Vec<IpAddr>,
    ) -> (r: Result<(), TooManyEscapes>)
        requires
            old(self).wf(),
            old(self).phase == Phase::Idle,
        ensures
            final(self).wf(),
            ({
                let list = escapes_for(escapes@, family);
                match r {
                    Err(e) => {
                        &&& list.len() > MAX_ESCAPES
                        &&& e.count == list.len()
                        &&& final(self)@ == old(self)@
                        &&& final(self).error == old(self).error
                    },
                    Ok(()) => {
                        &&& list.len() <= MAX_ESCAPES
                        &&& final(self).error is None
                        &&& final(self)@ == if old(self).active == Some(family)
                            && old(self).interface@ == interface@ && old(self).escapes@ == list {
                            old(self)@
                        } else {
                            old(self)@.cleared(
                                Some(Target { interface: interface@, family, escapes: list }),
                            )
                        }
                    },
                }
            }),
    {
        let list = family_escapes(escapes, family);
        if list.len() > MAX_ESCAPES {
            return Err(TooManyEscapes { count: list.len() });
        }
        self.error = None;
        if self.active == Some(family) && same(self.interface.as_str(), interface)
            && same_addresses(&self.escapes, &list) {
            return Ok(());
        }
        let plan = plan_stages(&list);
        self.phase = if self.undo.len() > 0 {
            Phase::Clearing
        } else {
            Phase::Probing
        };
        self.active = None;
        self.escapes = Vec::new();
        self.wanted = Some(
            Wanted { interface: String::from_str(interface), family, escapes: list, plan },
        );
        proof {
            assert(self.escapes@ =~= seq![]);
        }
        Ok(())
    }

    /// Begins to take down whatever is installed.
    pub fn clear(&mut self)
        requires
            old(self).wf(),
            old(self).phase == Phase::Idle,
        ensures
            final(self).wf(),
            final(self)@ == old(self)@.cleared(None),
            final(self).error is None,
    {
        self.error = None;
        self.phase = if self.undo.len() > 0 {
            Phase::Clearing
        } else {
            Phase::Idle
        };
        self.active = None;
        self.escapes = Vec::new();
        self.wanted = None;
        proof {
            assert(self.escapes@ =~= seq![]);
        }
    }

    /// The arguments of the `ip` command that is due, if any.
    pub fn next(&self) -> (r: Option<Vec<String>>)
        requires
            self.wf(),
        ensures
            match (r, self@.due()) {
                (Some(args), Some(due)) => texts(args@) == due,
                (None, None) => true,
                _ => false,
            },
    {
        match self.phase {
            Phase::Idle => None,
            Phase::Clearing | Phase::RollingBack => {
                let stage = self.undo[self.undo.len() - 1];
                Some(command_args(self.interface.as_str(), self.family, Verb::Delete, stage))
            },
            Phase::Probing => {
                let mut args: Vec<String> = Vec::new();
                assert(texts(args@) =~= Seq::<Seq<char>>::empty());
                arg(&mut args, "-Version");
                assert(texts(args@) =~= seq!["-Version"@]);
                Some(args)
            },
            Phase::Sweeping => match &self.wanted {
                Some(w) => Some(
                    command_args(
                        w.interface.as_str(),
                        w.family,
                        Verb::Delete,
                        Stage::DefaultRoute,
                    ),
                ),
                None => None,
            },
            Phase::Applying => match &self.wanted {
                Some(w) => Some(
                    command_args(
                        self.interface.as_str(),
                        self.family,
                        Verb::Add,
                        w.plan[self.undo.len()],
                    ),
                ),
                None => None,
            },
        }
    }

    /// Reports how the due command ended.
    ///
    /// The results of the sweep and of removals do not matter. A failed probe
    /// ends the run; a failed stage rolls the run back. Either leaves its
    /// message.
    pub fn report(&mut self, result: Result<(), String>)
        requires
            old(self).wf(),
            old(self).phase != Phase::Idle,
        ensures
            final(self).wf(),
            final(self)@ == old(self)@.step(result is Ok),
            final(self).complaint() == complaint_after(
                old(self).phase,
                old(self).complaint(),
                ended(result),
            ),
    {
        let ok = result.is_ok();
        proof {
            a_step_keeps_the_state_valid(self@, ok);
        }
        if let Err(e) = result {
            if self.phase == Phase::Probing || self.phase == Phase::Applying {
                self.error = Some(e);
            }
        }
        match self.phase {
            Phase::Idle => {},
            Phase::Clearing => {
                let _ = self.undo.pop();
                if self.undo.len() == 0 {
                    self.phase = if self.wanted.is_some() {
                        Phase::Probing
                    } else {
                        Phase::Idle
                    };
                }
            },
            Phase::Probing => {
                if ok {
                    self.phase = Phase::Sweeping;
                } else {
                    self.phase = Phase::Idle;
                    self.wanted = None;
                }
            },
            Phase::Sweeping => {
                if let Some(w) = &self.wanted {
                    self.interface = w.interface.clone();
                    self.family = w.family;
                }
                self.phase = Phase::Applying;
            },
            Phase::Applying => {
                let wanted = self.wanted.take();
                if let Some(w) = wanted {
                    if !ok {
                        self.phase = if self.undo.len() > 0 {
                            Phase::RollingBack
                        } else {
                            Phase::Idle
                        };
                    } else {
                        self.undo.push(w.plan[self.undo.len()]);
                        if self.undo.len() == w.plan.len() {
                            self.phase = Phase::Idle;
                            self.active = Some(self.family);
                            self.escapes = w.escapes;
                        } else {
                            self.wanted = Some(w);
                        }
                    }
                }
            },
            Phase::RollingBack => {
                let _ = self.undo.pop();
                if self.undo.len() == 0 {
                    self.phase = Phase::Idle;
                }
            },
        }
    }
}

/// Whether two lists hold the same addresses in the same order.
fn same_addresses(a: &Vec<IpAddr>, b: &Vec<IpAddr>) -> (r: bool)
    ensures
        r == (a@ == b@),
{
    if a.len() != b.len() {
        return false;
    }
    let mut i: usize = 0;
    while i < a.len()
        invariant
            i <= a@.len() == b@.len(),
            forall|j: int| 0 <= j < i ==> a@[j] == b@[j],
        decreases a@.len() - i,
    {
        if a[i] != b[i] {
            return false;
        }
        i = i + 1;
    }
    assert(a@ =~= b@);
    true
}

/// Owns the host state of this node's exit policy.
#[derive(Debug)]
pub struct Manager {
    pub state: State,
}

impl Default for Manager {
    fn default() -> (m: Manager)
        ensures
            m.state.wf(),
            m.state.phase == Phase::Idle,
            m.state.active is None,
            m.state.undo@.len() == 0,
            m.state.error is None,
    {
        Manager::new()
    }
}

impl Manager {
    /// Nothing installed.
    pub fn new() -> (m: Manager)
        ensures
            m.state.wf(),
            m.state.phase == Phase::Idle,
            m.state.active is None,
            m.state.undo@.len() == 0,
            m.state.error is None,
    {
        Manager { state: State::new() }
    }

    /// Begins to activate the family of `exit` through `interface` while the
    /// underlay destinations keep using the host's main routing table.
    pub fn activate(&mut self, interface: &str, exit: IpAddr, escapes: &Vec<IpAddr>) -> (r: Result<
        (),
        TooManyEscapes,
    >)
        requires
            old(self).state.wf(),
            old(self).state.phase == Phase::Idle,
        ensures
            final(self).state.wf(),
            ({
                let family = if exit is V4 {
                    Family::V4
                } else {
                    Family::V6
                };
                let list = escapes_for(escapes@, family);
                match r {
                    Err(e) => {
                        &&& list.len() > MAX_ESCAPES
                        &&& e.count == list.len()
                        &&& final(self).state@ == old(self).state@
                        &&& final(self).state.error == old(self).state.error
                    },
                    Ok(()) => {
                        &&& list.len() <= MAX_ESCAPES
                        &&& final(self).state.error is None
                        &&& final(self).state@ == if old(self).state.active == Some(family)
                            && old(self).state.interface@ == interface@
                            && old(self).state.escapes@ == list {
                            old(self).state@
                        } else {
                            old(self).state@.cleared(
                                Some(Target { interface: interface@, family, escapes: list }),
                            )
                        }
                    },
                }
            }),
    {
        let family = Family::of(exit);
        self.state.activate(interface, family, escapes)
    }

    /// Begins to take the policy down.
    pub fn disable(&mut self)
        requires
            old(self).state.wf(),
            old(self).state.phase == Phase::Idle,
        ensures
            final(self).state.wf(),
            final(self).state@ == old(self).state@.cleared(None),
            final(self).state.error is None,
    {
        self.state.clear();
    }

    /// What stopped the last activation, if anything did.
    pub fn failure(&self) -> (r: Option<&str>)
        ensures
            match r {
                Some(e) => self.state.complaint() == Some(e@),
                None => self.state.complaint() is None,
            },
    {
        match &self.state.error {
            Some(e) => Some(e.as_str()),
            None => None,
        }
    }

    /// Whether a policy is in force.
    pub fn active(&self) -> (r: bool)
        ensures
            r == (self.state.active is Some),
    {
        self.state.active.is_some()
    }
}

/// An address is of one of two families, which differ in the flag that `ip` knows
/// them by and in how long an address is.
pub proof fn a_family_is_known_by_its_flag(
    address: IpAddr,
    family: Family,
    flag: &'static str,
    bits: u8,
)
    requires
        call_ensures(Family::of, (address,), family),
        call_ensures(Family::flag, (family,), flag),
        call_ensures(Family::host_len, (family,), bits),
    ensures
        address is V4 ==> family is V4 && flag@ == "-4"@ && bits == 32,
        address is V6 ==> family is V6 && flag@ == "-6"@ && bits == 128,
{
}

/// What `ip` is told at each stage. Everything carries our protocol number; the
/// default route goes into our own table, and the last rule looks there; the
/// rules before it look into the main table, for one address or for anything
/// but a default route.
pub proof fn a_stage_is_one_command(
    interface: &str,
    family: Family,
    flag: &'static str,
    bits: u8,
    width: String,
    verb: Verb,
    stage: Stage,
    args: Vec<String>,
    at: String,
    host: String,
)
    requires
        call_ensures(command_args, (interface, family, verb, stage), args),
        call_ensures(Family::flag, (family,), flag),
        call_ensures(Family::host_len, (family,), bits),
        call_ensures(decimal, (bits as u64,), width),
        stage matches Stage::Escape { priority, address } ==> call_ensures(
            decimal,
            (priority as u64,),
            at,
        ) && call_ensures(IpAddr::to_text, (address,), host),
    ensures
        ({
            let word = if verb is Add {
                "add"@
            } else {
                "del"@
            };
            texts(args@) == match stage {
                Stage::DefaultRoute => seq![
                    flag@,
                    "route"@,
                    word,
                    "default"@,
                    "dev"@,
                    interface@,
                    "table"@,
                    "51888"@,
                    "proto"@,
                    "186"@,
                ],
                Stage::Escape { .. } => seq![
                    flag@,
                    "rule"@,
                    word,
                    "priority"@,
                    at@,
                    "to"@,
                    host@ + seq!['/'] + width@,
                    "lookup"@,
                    "main"@,
                    "protocol"@,
                    "186"@,
                ],
                Stage::SuppressedMain => seq![
                    flag@,
                    "rule"@,
                    word,
                    "priority"@,
                    "250"@,
                    "lookup"@,
                    "main"@,
                    "suppress_prefixlength"@,
                    "0"@,
                    "protocol"@,
                    "186"@,
                ],
                Stage::ExitLookup => seq![
                    flag@,
                    "rule"@,
                    word,
                    "priority"@,
                    "260"@,
                    "lookup"@,
                    "51888"@,
                    "protocol"@,
                    "186"@,
                ],
            }
        }),
{
    reveal_strlit("250");
    reveal_strlit("260");
    lemma_three(2, 5, 0);
    lemma_three(2, 6, 0);
    assert("250"@ =~= seq!['2', '5', '0']);
    assert("260"@ =~= seq!['2', '6', '0']);
    if let Stage::Escape { priority, address } = stage {
        assert(address.text().push('/') + decimal_text(bits as nat) =~= host@ + seq!['/'] + width@);
    }
}

proof fn lemma_three(a: nat, b: nat, c: nat)
    requires
        0 < a < 10 && b < 10 && c < 10,
    ensures
        decimal_text(100 * a + 10 * b + c) == seq![
            (48 + a) as char,
            (48 + b) as char,
            (48 + c) as char,
        ],
{
    reveal_with_fuel(decimal_text, 4);
    let n = 100 * a + 10 * b + c;
    assert(n / 10 == 10 * a + b);
    assert(n / 10 / 10 == a);
}

/// The underlay addresses of a family are each let out once, in order, and none
/// of the other family is.
pub proof fn every_underlay_address_escapes(
    all: &Vec<IpAddr>,
    family: Family,
    list: Vec<IpAddr>,
    a: IpAddr,
    i: int,
    j: int,
)
    requires
        call_ensures(family_escapes, (all, family), list),
    ensures
        list@.contains(a) <==> all@.contains(a) && (a is V4 <==> family is V4),
        0 <= i < j < list@.len() ==> list@[i].precedes(list@[j]),
{
}

/// The stages of an exit, in the order in which they are put in place: our
/// default route, one rule for each address that is let out from priority 100 on,
/// the main table without its default, and last the lookup of our own table.
pub open spec fn stage_at(escapes: Seq<IpAddr>, n: int) -> Option<Stage> {
    if n == 0 {
        Some(Stage::DefaultRoute)
    } else if 1 <= n <= escapes.len() {
        Some(Stage::Escape { priority: (99 + n) as u32, address: escapes[n - 1] })
    } else if n == escapes.len() + 1 {
        Some(Stage::SuppressedMain)
    } else if n == escapes.len() + 2 {
        Some(Stage::ExitLookup)
    } else {
        None
    }
}

proof fn lemma_stage_at(escapes: Seq<IpAddr>)
    ensures
        stages(escapes).len() == escapes.len() + 3,
        forall|n: int|
            0 <= n < escapes.len() + 3 ==> stage_at(escapes, n) == Some(
                #[trigger] stages(escapes)[n],
            ),
{
}

/// Each stage is put in place in its order, and remembered; when the last one
/// stands the exit is active. A stage that fails ends it: what stands is taken
/// down again from the last to the first, and the failure is kept.
pub proof fn an_exit_is_put_in_place_in_order(
    s: &mut State,
    c: Option<Vec<String>>,
    args: Vec<String>,
    interface: &str,
    lost: &mut State,
    error: String,
    after: Option<Vec<String>>,
    undone: Vec<String>,
)
    requires
        old(s).wf(),
        old(s).phase is Applying,
        interface@ == old(s).wanted->0.interface@,
        call_ensures(State::next, (&*old(s),), c),
        stage_at(old(s).wanted->0.escapes@, old(s).undo@.len() as int) is Some ==> call_ensures(
            command_args,
            (
                interface,
                old(s).wanted->0.family,
                Verb::Add,
                stage_at(old(s).wanted->0.escapes@, old(s).undo@.len() as int)->0,
            ),
            args,
        ),
        call_ensures(State::report, (s, Ok(())), ()),
        *old(lost) == *old(s),
        call_ensures(State::report, (lost, Err(error)), ()),
        call_ensures(State::next, (&*final(lost),), after),
        old(s).undo@.len() > 0 ==> call_ensures(
            command_args,
            (interface, old(s).wanted->0.family, Verb::Delete, old(s).undo@.last()),
            undone,
        ),
    ensures
        ({
            let escapes = old(s).wanted->0.escapes@;
            let n = old(s).undo@.len();
            let stage = stage_at(escapes, n as int);
            &&& stage is Some
            &&& forall|k: int| 0 <= k < n ==> stage_at(escapes, k) == Some(#[trigger] old(s).undo@[k])
            &&& c is Some && texts(c->0@) == texts(args@)
            &&& final(s).undo@ == old(s).undo@.push(stage->0)
            &&& stage->0 is ExitLookup ==> final(s).phase is Idle && final(s).active == Some(
                old(s).wanted->0.family,
            ) && final(s).escapes@ == escapes && final(s).wanted is None
            &&& stage->0 !is ExitLookup ==> final(s).phase is Applying && final(s).active is None
            &&& n > 0 ==> final(lost).phase is RollingBack && after is Some && texts(after->0@)
                == texts(undone@)
            &&& n == 0 ==> final(lost).phase is Idle && after is None
            &&& final(lost).undo@ == old(s).undo@ && final(lost).active is None && final(lost).wanted is None
            &&& final(lost).error matches Some(e) && e@ == error@
        }),
{
    let escapes = old(s).wanted->0.escapes@;
    lemma_stage_at(escapes);
    let p = old(s)@;
    assert(p.wanted->0.escapes == escapes);
    assert(p.undo == stages(escapes).take(p.undo.len() as int));
    assert(final(s)@.undo == final(s).undo@);
    assert(final(lost)@.undo == final(lost).undo@);
    assert(final(s)@.escapes == final(s).escapes@);
}

/// Taking an exit down goes from the last stage to the first, whatever each
/// command comes to, and nothing stands in the end. What was wanted meanwhile
/// starts then.
pub proof fn an_exit_is_taken_down_in_reverse(
    s: &mut State,
    interface: &str,
    c: Option<Vec<String>>,
    args: Vec<String>,
    result: Result<(), String>,
)
    requires
        old(s).wf(),
        old(s).phase is Clearing || old(s).phase is RollingBack,
        interface@ == old(s).interface@,
        call_ensures(State::next, (&*old(s),), c),
        call_ensures(
            command_args,
            (interface, old(s).family, Verb::Delete, old(s).undo@.last()),
            args,
        ),
        call_ensures(State::report, (s, result), ()),
    ensures
        old(s).undo@.len() > 0,
        c is Some && texts(c->0@) == texts(args@),
        final(s).undo@ == old(s).undo@.drop_last(),
        final(s).active is None,
        old(s).undo@.len() > 1 ==> final(s).phase == old(s).phase,
        old(s).undo@.len() == 1 ==> final(s).phase == if old(s).wanted is Some {
            Phase::Probing
        } else {
            Phase::Idle
        },
        final(s).complaint() == old(s).complaint(),
{
    assert(final(s)@.undo == final(s).undo@);
    assert(old(s)@.undo == old(s).undo@);
}

/// An exit that is asked for starts by taking down what stands, then asks
/// whether `ip` is there, sweeps a default route that an earlier run may have
/// left, and only then puts its stages in place. One that already stands as
/// asked for is left alone, and more than 150 addresses to let out are refused.
pub proof fn an_exit_is_asked_for(
    m: &mut Manager,
    interface: &str,
    exit: IpAddr,
    escapes: &Vec<IpAddr>,
    r: Result<(), TooManyEscapes>,
    family: Family,
    list: Vec<IpAddr>,
    c: Option<Vec<String>>,
)
    requires
        old(m).state.wf(),
        call_ensures(Manager::activate, (m, interface, exit, escapes), r),
        call_ensures(Family::of, (exit,), family),
        call_ensures(family_escapes, (escapes, family), list),
        call_ensures(State::next, (&final(m).state,), c),
    ensures
        r is Err <==> list@.len() > 150,
        r matches Err(e) ==> e.count == list@.len() && final(m).state@ == old(m).state@,
        r is Ok ==> {
            let before = old(m).state;
            let after = final(m).state;
            let stands = before.active == Some(family) && before.interface@ == interface@
                && before.escapes@ == list@;
            &&& after.error is None
            &&& stands ==> after@ == before@
            &&& !stands ==> {
                &&& after.active is None
                &&& after.wanted is Some
                &&& after.wanted->0.interface@ == interface@
                &&& after.wanted->0.family == family
                &&& after.wanted->0.escapes@ == list@
                &&& after.undo@ == before.undo@
                &&& before.undo@.len() > 0 ==> after.phase is Clearing
                &&& before.undo@.len() == 0 ==> after.phase is Probing && c is Some && texts(c->0@)
                    == seq!["-Version"@]
            }
        },
{
    assert(final(m).state@.undo == final(m).state.undo@);
    assert(old(m).state@.undo == old(m).state.undo@);
}

/// Without `ip` nothing is done, and that is the failure; with it a stale
/// default route is swept, and the stages follow whatever the sweep came to.
pub proof fn an_exit_starts_with_a_sweep(
    s: &mut State,
    interface: &str,
    c: Option<Vec<String>>,
    args: Vec<String>,
    lost: &mut State,
    error: String,
    swept: &mut State,
    result: Result<(), String>,
)
    requires
        old(s).wf(),
        old(s).phase is Probing,
        interface@ == old(s).wanted->0.interface@,
        call_ensures(State::report, (s, Ok(())), ()),
        call_ensures(State::next, (&*final(s),), c),
        call_ensures(
            command_args,
            (interface, old(s).wanted->0.family, Verb::Delete, Stage::DefaultRoute),
            args,
        ),
        *old(lost) == *old(s),
        call_ensures(State::report, (lost, Err(error)), ()),
        *old(swept) == *final(s),
        call_ensures(State::report, (swept, result), ()),
    ensures
        c is Some && texts(c->0@) == texts(args@),
        final(lost).phase is Idle && final(lost).wanted is None && final(lost).undo@.len() == 0,
        final(lost).error matches Some(e) && e@ == error@,
        final(swept).phase is Applying && final(swept).undo@.len() == 0,
        final(swept).interface@ == interface@ && final(swept).family == old(s).wanted->0.family,
        final(swept).complaint() == old(s).complaint(),
{
    assert(final(lost)@.undo == final(lost).undo@);
    assert(final(swept)@.undo == final(swept).undo@);
    assert(final(s)@.wanted is Some);
}

/// Disabling takes down what stands, and wants nothing.
pub proof fn an_exit_is_disabled(
    m: &mut Manager,
    active: bool,
    failure: Option<&str>,
    fresh: Manager,
    first: bool,
    n: TooManyEscapes,
    text: String,
    count: String,
)
    requires
        old(m).state.wf(),
        call_ensures(Manager::disable, (m,), ()),
        call_ensures(Manager::active, (&*final(m),), active),
        call_ensures(Manager::failure, (&*final(m),), failure),
        call_ensures(Manager::new, (), fresh),
        call_ensures(Manager::active, (&fresh,), first),
        call_ensures(TooManyEscapes::to_text, (n,), text),
        call_ensures(decimal, (n.count as u64,), count),
    ensures
        !active && failure is None,
        final(m).state.undo@ == old(m).state.undo@ && final(m).state.wanted is None,
        old(m).state.undo@.len() > 0 ==> final(m).state.phase is Clearing,
        old(m).state.undo@.len() == 0 ==> final(m).state.phase is Idle,
        !first && fresh.state.phase is Idle && fresh.state.undo@.len() == 0,
        text@ == count@ + " underlay escapes exceed the 150 rule limit"@,
{
    assert(final(m).state@.undo == final(m).state.undo@);
}

} // verus!
