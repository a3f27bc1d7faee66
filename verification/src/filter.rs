//! The compiled packet filter: ACL enforcement in the datapath.
//!
//! The control server distributes policy and does not enforce it. It compiles a
//! policy document into per-node rules; this module evaluates them, on every
//! packet, in both directions.
//!
//! Ingress says who may reach this node, and carries the security property: a
//! compromised peer ignores its own filter, and this check stops it. Egress
//! says whom this node may reach. Neither is derivable from the other, because
//! grants are unidirectional.
//!
//! A rule set with no rules denies everything. The absence of a policy source
//! is a different state, with a constructor of its own.

use crate::addr::IpAddr;
use crate::bytes::same_bytes;
use crate::routing::{PeerIndex, Prefix};
use crate::text::{decimal, decimal_text, same};
use vstd::prelude::*;

verus! {

/// Which way a packet is going.
#[derive(Clone, Copy, Debug, PartialEq, Eq, Structural)]
pub enum Direction {
    /// From a peer, to this host.
    In,
    /// From this host, to a peer.
    Out,
}

/// The transport header of a packet. A protocol without ports has port zero.
#[derive(Clone, Copy, Debug, PartialEq, Eq, Structural)]
pub struct Ports {
    pub protocol: u8,
    pub source: u16,
    pub destination: u16,
}

/// The two ends of a packet.
#[derive(Clone, Copy, Debug, PartialEq, Eq, Structural)]
pub struct Addresses {
    pub source: IpAddr,
    pub destination: IpAddr,
}

/// What the headers of a packet say.
#[derive(Clone, Copy, Debug, PartialEq, Eq, Structural)]
pub struct Packet {
    /// `None` when the ports cannot be established: a non-first fragment, an
    /// encrypted payload, or no packet at all.
    pub ports: Option<Ports>,
    pub addresses: Option<Addresses>,
    pub destination: Option<IpAddr>,
}

/// An inclusive port range.
#[derive(Clone, Copy, Debug, PartialEq, Eq, Structural)]
pub struct PortRange {
    pub first: u16,
    pub last: u16,
}

/// A port range as the wire carries it.
#[derive(Clone, Copy, Debug, PartialEq, Eq, Structural)]
pub struct WirePortRange {
    pub first: u32,
    pub last: u32,
}

/// The range that a wire pair means. A port above 65535 or an inverted range is
/// no range: clamping would grant what nobody wrote.
pub open spec fn wire_range(r: WirePortRange) -> Option<PortRange> {
    if r.first <= r.last && r.last <= u16::MAX {
        Some(PortRange { first: r.first as u16, last: r.last as u16 })
    } else {
        None
    }
}

impl PortRange {
    /// Whether the range covers `port`.
    pub open spec fn covers(self, port: u16) -> bool {
        self.first <= port <= self.last
    }

    /// The range that a wire pair means.
    pub fn from_wire(r: WirePortRange) -> (range: Option<PortRange>)
        ensures
            range == wire_range(r),
    {
        if r.first <= r.last && r.last <= 65535 {
            Some(PortRange { first: r.first as u16, last: r.last as u16 })
        } else {
            None
        }
    }

    /// Whether the range covers `port`.
    pub fn contains(self, port: u16) -> (r: bool)
        ensures
            r == self.covers(port),
    {
        port >= self.first && port <= self.last
    }
}

/// Which peers a rule names.
#[derive(Clone, Debug)]
pub enum NodeSet {
    /// The policy said `*`.
    Any,
    /// Concrete peers, by index.
    These(Vec<PeerIndex>),
}

/// Which peers a rule names, as a value.
pub enum Nodes {
    Any,
    These(Set<PeerIndex>),
}

impl Nodes {
    /// Whether `peer` is named.
    pub open spec fn names(self, peer: PeerIndex) -> bool {
        match self {
            Nodes::Any => true,
            Nodes::These(set) => set.contains(peer),
        }
    }

    /// Whether nobody is named.
    pub open spec fn nobody(self) -> bool {
        match self {
            Nodes::Any => false,
            Nodes::These(set) => forall|p: PeerIndex| !set.contains(p),
        }
    }
}

impl View for NodeSet {
    type V = Nodes;

    open spec fn view(&self) -> Nodes {
        match self {
            NodeSet::Any => Nodes::Any,
            NodeSet::These(list) => Nodes::These(Set::new(|p: PeerIndex| list@.contains(p))),
        }
    }
}

impl NodeSet {
    /// Whether `peer` is named.
    pub fn contains(&self, peer: PeerIndex) -> (r: bool)
        ensures
            r == self@.names(peer),
    {
        match self {
            NodeSet::Any => true,
            NodeSet::These(list) => {
                let mut i: usize = 0;
                while i < list.len()
                    invariant
                        i <= list@.len(),
                        forall|j: int| 0 <= j < i ==> list@[j] != peer,
                        self is These,
                        self->These_0 == *list,
                    decreases list@.len() - i,
                {
                    if list[i] == peer {
                        assert(list@[i as int] == peer);
                        return true;
                    }
                    i = i + 1;
                }
                false
            },
        }
    }
}

/// One compiled rule. Destination prefixes occur on egress rules only.
#[derive(Clone, Debug)]
pub struct Rule {
    pub nodes: NodeSet,
    pub dst_prefixes: Vec<Prefix>,
    pub ports: Vec<PortRange>,
}

/// One compiled rule, as a value.
#[verifier::ext_equal]
pub struct Grant {
    pub nodes: Nodes,
    pub prefixes: Seq<Prefix>,
    pub ports: Seq<PortRange>,
}

impl View for Rule {
    type V = Grant;

    open spec fn view(&self) -> Grant {
        Grant { nodes: self.nodes@, prefixes: self.dst_prefixes@, ports: self.ports@ }
    }
}

/// Whether some prefix covers `ip`.
pub open spec fn any_covers(prefixes: Seq<Prefix>, ip: IpAddr) -> bool {
    exists|i: int| 0 <= i < prefixes.len() && (#[trigger] prefixes[i]).covers(ip)
}

/// Whether some range covers `port`.
pub open spec fn any_port(ranges: Seq<PortRange>, port: u16) -> bool {
    exists|i: int| 0 <= i < ranges.len() && (#[trigger] ranges[i]).covers(port)
}

/// Whether every prefix is valid.
pub open spec fn all_valid(prefixes: Seq<Prefix>) -> bool {
    forall|i: int| 0 <= i < prefixes.len() ==> (#[trigger] prefixes[i]).wf()
}

impl Grant {
    /// Whether the rule permits traffic of `peer` to `port`.
    ///
    /// A rule that names the peer applies only to what the peer owns; being the
    /// next hop is not enough. A destination network applies whoever carries
    /// the packet.
    pub open spec fn permits(
        self,
        peer: PeerIndex,
        port: u16,
        destination: Option<IpAddr>,
        owned: bool,
    ) -> bool {
        &&& (self.nodes.names(peer) && owned) || (destination is Some && any_covers(
            self.prefixes,
            destination->0,
        ))
        &&& any_port(self.ports, port)
    }
}

/// Whether some prefix covers `ip`.
pub fn covered(prefixes: &Vec<Prefix>, ip: IpAddr) -> (r: bool)
    requires
        all_valid(prefixes@),
    ensures
        r == any_covers(prefixes@, ip),
{
    let mut i: usize = 0;
    while i < prefixes.len()
        invariant
            i <= prefixes@.len(),
            all_valid(prefixes@),
            forall|j: int| 0 <= j < i ==> !(#[trigger] prefixes@[j]).covers(ip),
        decreases prefixes@.len() - i,
    {
        if prefixes[i].contains(ip) {
            assert(prefixes@[i as int].covers(ip));
            return true;
        }
        i = i + 1;
    }
    false
}

impl Rule {
    /// Every prefix is valid.
    pub open spec fn wf(self) -> bool {
        all_valid(self.dst_prefixes@)
    }

    /// Whether the rule permits traffic of `peer` to `port`.
    pub fn permits(
        &self,
        peer: PeerIndex,
        port: u16,
        destination: Option<IpAddr>,
        owned: bool,
    ) -> (r: bool)
        requires
            self.wf(),
        ensures
            r == self@.permits(peer, port, destination, owned),
    {
        let via_node = self.nodes.contains(peer) && owned;
        let via_network = match destination {
            Some(d) => covered(&self.dst_prefixes, d),
            None => false,
        };
        if !via_node && !via_network {
            return false;
        }
        let mut i: usize = 0;
        while i < self.ports.len()
            invariant
                i <= self.ports@.len(),
                forall|j: int| 0 <= j < i ==> !(#[trigger] self.ports@[j]).covers(port),
                (self@.nodes.names(peer) && owned) || (destination is Some && any_covers(
                    self@.prefixes,
                    destination->0,
                )),
            decreases self.ports@.len() - i,
        {
            if self.ports[i].contains(port) {
                assert(self.ports@[i as int].covers(port));
                return true;
            }
            i = i + 1;
        }
        false
    }
}

/// What became of a packet.
#[derive(Clone, Copy, Debug, PartialEq, Eq, Structural)]
pub enum Verdict {
    /// The packet is permitted.
    Permit,
    /// A rule set exists and none of its rules matched.
    Denied,
    /// The packet's ports could not be established, so no rule could be
    /// evaluated.
    Unclassifiable,
}

impl Verdict {
    /// Whether the packet may pass.
    pub fn permitted(self) -> (r: bool)
        ensures
            r == (self is Permit),
    {
        match self {
            Verdict::Permit => true,
            _ => false,
        }
    }
}

/// Whether some rule permits the traffic.
pub open spec fn any_permits(
    rules: Seq<Grant>,
    peer: PeerIndex,
    port: u16,
    destination: Option<IpAddr>,
    owned: bool,
) -> bool {
    exists|i: int|
        0 <= i < rules.len() && (#[trigger] rules[i]).permits(peer, port, destination, owned)
}

/// The verdict of a rule set on a packet.
///
/// Without a policy source everything passes. Without ports nothing does. With
/// `own` given, a rule that names the peer applies only to packets for one of
/// those addresses.
pub open spec fn judge(
    rules: Option<Seq<Grant>>,
    peer: PeerIndex,
    packet: Packet,
    own: Option<Seq<Prefix>>,
) -> Verdict {
    match rules {
        None => Verdict::Permit,
        Some(rules) => match packet.ports {
            None => Verdict::Unclassifiable,
            Some(ports) => {
                let owned = match own {
                    None => true,
                    Some(list) => packet.destination is Some && any_covers(
                        list,
                        packet.destination->0,
                    ),
                };
                if any_permits(rules, peer, ports.destination, packet.destination, owned) {
                    Verdict::Permit
                } else {
                    Verdict::Denied
                }
            },
        },
    }
}

/// An ingress or SSH rule as the wire carries it.
#[derive(Clone, Debug)]
pub struct FilterRule {
    pub srcs: Vec<String>,
    pub ports: Vec<WirePortRange>,
}

/// An egress rule as the wire carries it. Each destination network is `None`
/// when its text is not a prefix.
#[derive(Clone, Debug)]
pub struct EgressRule {
    pub dsts: Vec<String>,
    pub dst_cidrs: Vec<Option<Prefix>>,
    pub ports: Vec<WirePortRange>,
}

/// A list of byte strings as values.
pub open spec fn byte_strings(list: Seq<Vec<u8>>) -> Seq<Seq<u8>> {
    list.map_values(|b: Vec<u8>| b@)
}

/// The first of `handles` that is `name`.
pub open spec fn handle_index(handles: Seq<Seq<u8>>, name: Seq<u8>) -> Option<PeerIndex>
    decreases handles.len(),
{
    if handles.len() == 0 {
        None
    } else {
        match handle_index(handles.drop_last(), name) {
            Some(i) => Some(i),
            None => if handles.last() == name {
                Some((handles.len() - 1) as usize)
            } else {
                None
            },
        }
    }
}

/// Whether the policy said `*`.
pub open spec fn says_any(names: Seq<String>) -> bool {
    exists|i: int| 0 <= i < names.len() && (#[trigger] names[i])@ == "*"@
}

/// Whether one of `names` is the handle of `peer`.
pub open spec fn named(names: Seq<String>, handles: Seq<Seq<u8>>, peer: PeerIndex) -> bool {
    exists|i: int|
        0 <= i < names.len() && handle_index(
            handles,
            vstd::utf8::encode_utf8((#[trigger] names[i])@),
        ) == Some(peer)
}

/// The peers that a list of names means. A name that this node holds no peer
/// for is dropped.
pub open spec fn nodes_of(names: Seq<String>, handles: Seq<Seq<u8>>) -> Nodes {
    if says_any(names) {
        Nodes::Any
    } else {
        Nodes::These(Set::new(|p: PeerIndex| named(names, handles, p)))
    }
}

/// The usable ranges among `ranges`.
pub open spec fn usable_ranges(ranges: Seq<WirePortRange>) -> Seq<PortRange>
    decreases ranges.len(),
{
    if ranges.len() == 0 {
        seq![]
    } else {
        match wire_range(ranges.last()) {
            Some(r) => usable_ranges(ranges.drop_last()).push(r),
            None => usable_ranges(ranges.drop_last()),
        }
    }
}

/// The networks among `cidrs` that are prefixes.
pub open spec fn usable_prefixes(cidrs: Seq<Option<Prefix>>) -> Seq<Prefix>
    decreases cidrs.len(),
{
    if cidrs.len() == 0 {
        seq![]
    } else {
        match cidrs.last() {
            Some(p) => usable_prefixes(cidrs.drop_last()).push(p),
            None => usable_prefixes(cidrs.drop_last()),
        }
    }
}

/// The rule that an ingress or SSH rule compiles to; `None` when it grants
/// nothing: no usable port, or no peer that this node holds.
pub open spec fn compiled_rule(rule: FilterRule, handles: Seq<Seq<u8>>) -> Option<Grant> {
    let ports = usable_ranges(rule.ports@);
    let nodes = nodes_of(rule.srcs@, handles);
    if ports.len() == 0 || nodes.nobody() {
        None
    } else {
        Some(Grant { nodes, prefixes: seq![], ports })
    }
}

/// The rule that an egress rule compiles to; `None` when it grants nothing.
pub open spec fn compiled_egress(rule: EgressRule, handles: Seq<Seq<u8>>) -> Option<Grant> {
    let ports = usable_ranges(rule.ports@);
    let nodes = nodes_of(rule.dsts@, handles);
    let prefixes = usable_prefixes(rule.dst_cidrs@);
    if ports.len() == 0 || (nodes.nobody() && prefixes.len() == 0) {
        None
    } else {
        Some(Grant { nodes, prefixes, ports })
    }
}

/// The rules that a list of ingress or SSH rules compiles to.
pub open spec fn compiled_rules(rules: Seq<FilterRule>, handles: Seq<Seq<u8>>) -> Seq<Grant>
    decreases rules.len(),
{
    if rules.len() == 0 {
        seq![]
    } else {
        let before = compiled_rules(rules.drop_last(), handles);
        match compiled_rule(rules.last(), handles) {
            Some(g) => before.push(g),
            None => before,
        }
    }
}

/// The rules that a list of egress rules compiles to.
pub open spec fn compiled_egresses(rules: Seq<EgressRule>, handles: Seq<Seq<u8>>) -> Seq<Grant>
    decreases rules.len(),
{
    if rules.len() == 0 {
        seq![]
    } else {
        let before = compiled_egresses(rules.drop_last(), handles);
        match compiled_egress(rules.last(), handles) {
            Some(g) => before.push(g),
            None => before,
        }
    }
}

/// Compiled rules as values.
pub open spec fn grants(rules: Seq<Rule>) -> Seq<Grant> {
    rules.map_values(|r: Rule| r@)
}

fn find_handle(handles: &Vec<Vec<u8>>, name: &[u8]) -> (r: Option<PeerIndex>)
    ensures
        r == handle_index(byte_strings(handles@), name@),
{
    let mut found: Option<PeerIndex> = None;
    let mut i: usize = 0;
    while i < handles.len()
        invariant
            i <= handles@.len(),
            found == handle_index(byte_strings(handles@).take(i as int), name@),
        decreases handles@.len() - i,
    {
        proof {
            assert(byte_strings(handles@).take(i + 1).drop_last() =~= byte_strings(handles@).take(
                i as int,
            ));
        }
        if found.is_none() && same_bytes(handles[i].as_slice(), name) {
            found = Some(i);
        }
        i = i + 1;
    }
    assert(byte_strings(handles@).take(i as int) =~= byte_strings(handles@));
    found
}

/// The peers that a list of names means, and whether there are none.
fn node_set(names: &Vec<String>, handles: &Vec<Vec<u8>>) -> (r: (NodeSet, bool))
    ensures
        r.0@ == nodes_of(names@, byte_strings(handles@)),
        r.1 == nodes_of(names@, byte_strings(handles@)).nobody(),
{
    let mut i: usize = 0;
    while i < names.len()
        invariant
            i <= names@.len(),
            forall|j: int| 0 <= j < i ==> (#[trigger] names@[j])@ != "*"@,
        decreases names@.len() - i,
    {
        if same(names[i].as_str(), "*") {
            assert(names@[i as int]@ == "*"@);
            return (NodeSet::Any, false);
        }
        i = i + 1;
    }
    let mut list: Vec<PeerIndex> = Vec::new();
    let mut k: usize = 0;
    while k < names.len()
        invariant
            k <= names@.len(),
            forall|p: PeerIndex| #[trigger]
                list@.contains(p) <==> named(names@.take(k as int), byte_strings(handles@), p),
        decreases names@.len() - k,
    {
        let ghost seen = names@.take(k as int);
        let ghost upto = names@.take(k + 1);
        let ghost before = list@;
        let found = find_handle(handles, names[k].as_str().as_bytes());
        if let Some(p) = found {
            list.push(p);
        }
        proof {
            assert forall|p: PeerIndex| #[trigger] list@.contains(p) <==> named(
                upto,
                byte_strings(handles@),
                p,
            ) by {
                assert(before.contains(p) <==> named(seen, byte_strings(handles@), p));
                if named(upto, byte_strings(handles@), p) {
                    let m = choose|m: int|
                        0 <= m < upto.len() && handle_index(
                            byte_strings(handles@),
                            vstd::utf8::encode_utf8((#[trigger] upto[m])@),
                        ) == Some(p);
                    if m < k {
                        assert(seen[m] == upto[m]);
                        assert(before.contains(p));
                        let q = choose|q: int| 0 <= q < before.len() && before[q] == p;
                        assert(list@[q] == p);
                    } else {
                        assert(found == Some(p));
                        assert(list@[list@.len() - 1] == p);
                    }
                }
                if list@.contains(p) {
                    let q = choose|q: int| 0 <= q < list@.len() && list@[q] == p;
                    if q < before.len() {
                        assert(before[q] == p);
                        assert(before.contains(p));
                        let m = choose|m: int|
                            0 <= m < seen.len() && handle_index(
                                byte_strings(handles@),
                                vstd::utf8::encode_utf8((#[trigger] seen[m])@),
                            ) == Some(p);
                        assert(upto[m] == seen[m]);
                    } else {
                        assert(upto[k as int] == names@[k as int]);
                    }
                }
            }
        }
        k = k + 1;
    }
    assert(names@.take(k as int) =~= names@);
    let empty = list.len() == 0;
    let set = NodeSet::These(list);
    proof {
        assert(set@->These_0 =~= nodes_of(names@, byte_strings(handles@))->These_0);
        if !empty {
            assert(list@.contains(list@[0]));
            assert(nodes_of(names@, byte_strings(handles@))->These_0.contains(list@[0]));
        }
        if empty {
            assert forall|p: PeerIndex| !nodes_of(names@, byte_strings(handles@))->These_0.contains(p) by {
                assert(list@.contains(p) <==> named(names@, byte_strings(handles@), p));
            }
        }
    }
    (set, empty)
}

fn port_ranges(ranges: &Vec<WirePortRange>) -> (list: Vec<PortRange>)
    ensures
        list@ == usable_ranges(ranges@),
{
    let mut list: Vec<PortRange> = Vec::new();
    let mut i: usize = 0;
    while i < ranges.len()
        invariant
            i <= ranges@.len(),
            list@ == usable_ranges(ranges@.take(i as int)),
        decreases ranges@.len() - i,
    {
        proof {
            assert(ranges@.take(i + 1).drop_last() =~= ranges@.take(i as int));
        }
        if let Some(r) = PortRange::from_wire(ranges[i]) {
            list.push(r);
        }
        i = i + 1;
    }
    assert(ranges@.take(i as int) =~= ranges@);
    list
}

/// Every network that is a prefix is a valid one.
pub open spec fn valid_cidrs(rule: EgressRule) -> bool {
    forall|i: int|
        0 <= i < rule.dst_cidrs@.len() && (#[trigger] rule.dst_cidrs@[i]) is Some
            ==> rule.dst_cidrs@[i]->0.wf()
}

fn destination_prefixes(cidrs: &Vec<Option<Prefix>>) -> (list: Vec<Prefix>)
    requires
        forall|i: int|
            0 <= i < cidrs@.len() && (#[trigger] cidrs@[i]) is Some ==> cidrs@[i]->0.wf(),
    ensures
        list@ == usable_prefixes(cidrs@),
        all_valid(list@),
{
    let mut list: Vec<Prefix> = Vec::new();
    let mut i: usize = 0;
    while i < cidrs.len()
        invariant
            i <= cidrs@.len(),
            forall|j: int|
                0 <= j < cidrs@.len() && (#[trigger] cidrs@[j]) is Some ==> cidrs@[j]->0.wf(),
            list@ == usable_prefixes(cidrs@.take(i as int)),
            all_valid(list@),
        decreases cidrs@.len() - i,
    {
        proof {
            assert(cidrs@.take(i + 1).drop_last() =~= cidrs@.take(i as int));
        }
        if let Some(p) = cidrs[i] {
            list.push(p);
        }
        i = i + 1;
    }
    assert(cidrs@.take(i as int) =~= cidrs@);
    list
}

/// Every compiled rule is valid.
pub open spec fn valid_rules(rules: Seq<Rule>) -> bool {
    forall|i: int| 0 <= i < rules.len() ==> (#[trigger] rules[i]).wf()
}

/// Compiles one ingress or SSH rule.
fn compile_rule(rule: &FilterRule, handles: &Vec<Vec<u8>>) -> (r: Option<Rule>)
    ensures
        match (r, compiled_rule(*rule, byte_strings(handles@))) {
            (Some(rule), Some(grant)) => rule.wf() && rule@ == grant,
            (None, None) => true,
            _ => false,
        },
{
    let ports = port_ranges(&rule.ports);
    if ports.len() == 0 {
        return None;
    }
    let (nodes, nobody) = node_set(&rule.srcs, handles);
    if nobody {
        return None;
    }
    let compiled = Rule { nodes, dst_prefixes: Vec::new(), ports };
    assert(compiled@.prefixes =~= seq![]);
    Some(compiled)
}

/// Compiles one egress rule.
fn compile_egress_rule(rule: &EgressRule, handles: &Vec<Vec<u8>>) -> (r: Option<Rule>)
    requires
        valid_cidrs(*rule),
    ensures
        match (r, compiled_egress(*rule, byte_strings(handles@))) {
            (Some(rule), Some(grant)) => rule.wf() && rule@ == grant,
            (None, None) => true,
            _ => false,
        },
{
    let ports = port_ranges(&rule.ports);
    if ports.len() == 0 {
        return None;
    }
    let (nodes, nobody) = node_set(&rule.dsts, handles);
    let dst_prefixes = destination_prefixes(&rule.dst_cidrs);
    if nobody && dst_prefixes.len() == 0 {
        return None;
    }
    Some(Rule { nodes, dst_prefixes, ports })
}

fn compile_rules(rules: &Vec<FilterRule>, handles: &Vec<Vec<u8>>) -> (list: Vec<Rule>)
    ensures
        valid_rules(list@),
        grants(list@) == compiled_rules(rules@, byte_strings(handles@)),
{
    let mut list: Vec<Rule> = Vec::new();
    let mut i: usize = 0;
    assert(grants(list@) =~= seq![]);
    while i < rules.len()
        invariant
            i <= rules@.len(),
            valid_rules(list@),
            grants(list@) == compiled_rules(rules@.take(i as int), byte_strings(handles@)),
        decreases rules@.len() - i,
    {
        let ghost before = list@;
        proof {
            assert(rules@.take(i + 1).drop_last() =~= rules@.take(i as int));
        }
        if let Some(r) = compile_rule(&rules[i], handles) {
            list.push(r);
            assert(grants(list@) =~= grants(before).push(r@));
        }
        i = i + 1;
    }
    assert(rules@.take(i as int) =~= rules@);
    list
}

/// The node's compiled ACLs.
pub struct PacketFilter {
    /// `None` means that there is no policy source at all.
    pub ingress: Option<Vec<Rule>>,
    pub egress: Option<Vec<Rule>>,
}

/// An optional rule set as a value.
pub open spec fn rule_set(rules: Option<Vec<Rule>>) -> Option<Seq<Grant>> {
    match rules {
        Some(list) => Some(grants(list@)),
        None => None,
    }
}

/// Evaluates a rule set.
fn evaluate(
    rules: &Option<Vec<Rule>>,
    peer: PeerIndex,
    packet: &Packet,
    own: Option<&Vec<Prefix>>,
) -> (v: Verdict)
    requires
        rules is Some ==> valid_rules(rules->0@),
        own is Some ==> all_valid(own->0@),
    ensures
        v == judge(
            rule_set(*rules),
            peer,
            *packet,
            match own {
                Some(list) => Some(list@),
                None => None,
            },
        ),
{
    let rules = match rules {
        Some(list) => list,
        None => {
            return Verdict::Permit;
        },
    };
    let ports = match packet.ports {
        Some(p) => p,
        None => {
            return Verdict::Unclassifiable;
        },
    };
    let owned = match own {
        None => true,
        Some(list) => match packet.destination {
            Some(d) => covered(list, d),
            None => false,
        },
    };
    let mut i: usize = 0;
    while i < rules.len()
        invariant
            i <= rules@.len(),
            valid_rules(rules@),
            forall|j: int|
                0 <= j < i ==> !(#[trigger] grants(rules@)[j]).permits(
                    peer,
                    ports.destination,
                    packet.destination,
                    owned,
                ),
        ensures
            i == rules@.len() ==> !any_permits(
                grants(rules@),
                peer,
                ports.destination,
                packet.destination,
                owned,
            ),
            i < rules@.len() ==> any_permits(
                grants(rules@),
                peer,
                ports.destination,
                packet.destination,
                owned,
            ),
            i <= rules@.len(),
        decreases rules@.len() - i,
    {
        if rules[i].permits(peer, ports.destination, packet.destination, owned) {
            assert(grants(rules@)[i as int].permits(
                peer,
                ports.destination,
                packet.destination,
                owned,
            ));
            break;
        }
        i = i + 1;
    }
    if i < rules.len() {
        Verdict::Permit
    } else {
        Verdict::Denied
    }
}

/// How a rule set reads in a log line.
pub open spec fn rules_text(rules: Option<Vec<Rule>>, none: Seq<char>) -> Seq<char> {
    match rules {
        None => none,
        Some(list) => if list@.len() == 0 {
            "deny-all"@
        } else {
            decimal_text(list@.len()) + " rule(s)"@
        },
    }
}

fn describe_rules(rules: &Option<Vec<Rule>>, none: &str) -> (s: String)
    ensures
        s@ == rules_text(*rules, none@),
{
    match rules {
        None => String::from_str(none),
        Some(list) => if list.len() == 0 {
            String::from_str("deny-all")
        } else {
            let mut s = decimal(list.len() as u64);
            s.append(" rule(s)");
            s
        },
    }
}

impl PacketFilter {
    /// Every rule is valid, and both directions have a policy or neither has.
    pub open spec fn wf(self) -> bool {
        &&& self.ingress is Some ==> valid_rules(self.ingress->0@)
        &&& self.egress is Some ==> valid_rules(self.egress->0@)
        &&& self.ingress is Some == self.egress is Some
    }

    /// A filter that permits everything, for a node with no policy source. It
    /// is not what an empty policy compiles to.
    pub fn unrestricted() -> (f: PacketFilter)
        ensures
            f.wf(),
            f.ingress is None,
            f.egress is None,
    {
        PacketFilter { ingress: None, egress: None }
    }

    /// Compiles rules against the peer order the datapath uses: `handles` are
    /// the peers' node ids in index order.
    pub fn compile(
        ingress: &Vec<FilterRule>,
        egress: &Vec<EgressRule>,
        handles: &Vec<Vec<u8>>,
    ) -> (f: PacketFilter)
        requires
            forall|i: int| 0 <= i < egress@.len() ==> valid_cidrs(#[trigger] egress@[i]),
        ensures
            f.wf(),
            rule_set(f.ingress) == Some(compiled_rules(ingress@, byte_strings(handles@))),
            rule_set(f.egress) == Some(compiled_egresses(egress@, byte_strings(handles@))),
    {
        let inbound = compile_rules(ingress, handles);
        let mut outbound: Vec<Rule> = Vec::new();
        let mut i: usize = 0;
        assert(grants(outbound@) =~= seq![]);
        while i < egress.len()
            invariant
                i <= egress@.len(),
                forall|j: int| 0 <= j < egress@.len() ==> valid_cidrs(#[trigger] egress@[j]),
                valid_rules(outbound@),
                grants(outbound@) == compiled_egresses(egress@.take(i as int), byte_strings(handles@)),
            decreases egress@.len() - i,
        {
            let ghost before = outbound@;
            proof {
                assert(egress@.take(i + 1).drop_last() =~= egress@.take(i as int));
            }
            if let Some(r) = compile_egress_rule(&egress[i], handles) {
                outbound.push(r);
                assert(grants(outbound@) =~= grants(before).push(r@));
            }
            i = i + 1;
        }
        assert(egress@.take(i as int) =~= egress@);
        PacketFilter { ingress: Some(inbound), egress: Some(outbound) }
    }

    /// May `from` send this packet to us? Asked once the packet is known to
    /// have come from that peer.
    pub fn ingress(&self, from: PeerIndex, packet: &Packet) -> (v: Verdict)
        requires
            self.wf(),
        ensures
            v == judge(rule_set(self.ingress), from, *packet, None),
    {
        evaluate(&self.ingress, from, packet, None)
    }

    /// May we send this packet to `to`, whose own addresses these are?
    pub fn egress(&self, to: PeerIndex, packet: &Packet, to_addresses: &Vec<Prefix>) -> (v: Verdict)
        requires
            self.wf(),
            all_valid(to_addresses@),
        ensures
            v == judge(rule_set(self.egress), to, *packet, Some(to_addresses@)),
    {
        evaluate(&self.egress, to, packet, Some(to_addresses))
    }

    /// Whether any policy is being enforced.
    pub fn is_enforcing(&self) -> (r: bool)
        ensures
            r == (self.ingress is Some),
    {
        self.ingress.is_some()
    }

    /// How many rules each direction carries.
    pub fn rule_counts(&self) -> (r: Option<(usize, usize)>)
        ensures
            r == match (self.ingress, self.egress) {
                (Some(i), Some(e)) => Some((i@.len() as usize, e@.len() as usize)),
                _ => None,
            },
    {
        match (&self.ingress, &self.egress) {
            (Some(i), Some(e)) => Some((i.len(), e.len())),
            _ => None,
        }
    }

    /// The filter in words, so that the two states cannot be confused.
    pub fn describe(&self) -> (s: String)
        ensures
            s@ == "PacketFilter { ingress: \""@ + rules_text(self.ingress, "unrestricted"@)
                + "\", egress: \""@ + rules_text(self.egress, "unrestricted"@) + "\" }"@,
    {
        let mut s = String::from_str("PacketFilter { ingress: \"");
        let ingress = describe_rules(&self.ingress, "unrestricted");
        s.append(ingress.as_str());
        s.append("\", egress: \"");
        let egress = describe_rules(&self.egress, "unrestricted");
        s.append(egress.as_str());
        s.append("\" }");
        s
    }
}

/// The admission gate for SSH: a second check beside the ingress filter, never
/// merged into it. `None` means that the policy has no `ssh` block.
pub struct SshFilter(pub Option<Vec<Rule>>);

impl SshFilter {
    /// Every rule is valid.
    pub open spec fn wf(self) -> bool {
        self.0 is Some ==> valid_rules(self.0->0@)
    }

    /// The verdict of the SSH gate on `from`.
    pub open spec fn verdict(self, from: PeerIndex) -> Verdict {
        match rule_set(self.0) {
            None => Verdict::Permit,
            Some(rules) => if any_permits(rules, from, 22, None, true) {
                Verdict::Permit
            } else {
                Verdict::Denied
            },
        }
    }

    /// No `ssh` block in policy: this gate does not apply.
    pub fn absent() -> (f: SshFilter)
        ensures
            f.wf(),
            f.0 is None,
    {
        SshFilter(None)
    }

    /// Compiles a netmap's SSH rules. Without the block the SSH gate is absent,
    /// whatever the rules say; with it an empty list denies everything.
    pub fn compile(rules: &Vec<FilterRule>, present: bool, handles: &Vec<Vec<u8>>) -> (f: SshFilter)
        ensures
            f.wf(),
            rule_set(f.0) == if present {
                Some(compiled_rules(rules@, byte_strings(handles@)))
            } else {
                None
            },
    {
        if !present {
            return SshFilter::absent();
        }
        SshFilter(Some(compile_rules(rules, handles)))
    }

    /// May `from` open an SSH connection to this node?
    pub fn admits(&self, from: PeerIndex) -> (v: Verdict)
        requires
            self.wf(),
        ensures
            v == self.verdict(from),
    {
        let packet = Packet {
            ports: Some(Ports { protocol: 6, source: 0, destination: 22 }),
            addresses: None,
            destination: None,
        };
        evaluate(&self.0, from, &packet, None)
    }

    /// Whether the SSH gate is enforcing at all.
    pub fn is_enforcing(&self) -> (r: bool)
        ensures
            r == (self.0 is Some),
    {
        self.0.is_some()
    }

    /// How many rules the SSH gate carries.
    pub fn rule_count(&self) -> (r: Option<usize>)
        ensures
            r == match self.0 {
                Some(list) => Some(list@.len() as usize),
                None => None,
            },
    {
        match &self.0 {
            Some(list) => Some(list.len()),
            None => None,
        }
    }

    /// The SSH gate in words, so that its three states cannot be confused.
    pub fn describe(&self) -> (s: String)
        ensures
            s@ == "SshFilter(\""@ + rules_text(self.0, "absent"@) + "\")"@,
    {
        let mut s = String::from_str("SshFilter(\"");
        let state = describe_rules(&self.0, "absent");
        s.append(state.as_str());
        s.append("\")");
        s
    }
}

/// Empty is deny: a rule set without rules refuses every packet.
pub proof fn an_empty_rule_set_denies_everything(
    peer: PeerIndex,
    packet: Packet,
    own: Option<Seq<Prefix>>,
)
    ensures
        judge(Some(seq![]), peer, packet, own) !is Permit,
        packet.ports is Some ==> judge(Some(seq![]), peer, packet, own) is Denied,
{
}

/// No policy source is not an empty policy: it permits every packet.
pub proof fn no_policy_source_permits_everything(
    peer: PeerIndex,
    packet: Packet,
    own: Option<Seq<Prefix>>,
)
    ensures
        judge(None, peer, packet, own) is Permit,
{
}

/// A packet whose ports cannot be read passes no rule set, however wide.
pub proof fn an_unclassifiable_packet_is_refused(
    rules: Seq<Grant>,
    peer: PeerIndex,
    packet: Packet,
    own: Option<Seq<Prefix>>,
)
    requires
        packet.ports is None,
    ensures
        judge(Some(rules), peer, packet, own) is Unclassifiable,
{
}

/// Rules are a union: adding a rule never refuses what was permitted.
pub proof fn rules_accumulate(
    rules: Seq<Grant>,
    more: Seq<Grant>,
    peer: PeerIndex,
    packet: Packet,
    own: Option<Seq<Prefix>>,
)
    requires
        judge(Some(rules), peer, packet, own) is Permit,
    ensures
        judge(Some(rules + more), peer, packet, own) is Permit,
{
    let ports = packet.ports->0;
    let owned = match own {
        None => true,
        Some(list) => packet.destination is Some && any_covers(list, packet.destination->0),
    };
    let i = choose|i: int|
        0 <= i < rules.len() && (#[trigger] rules[i]).permits(
            peer,
            ports.destination,
            packet.destination,
            owned,
        );
    assert((rules + more)[i] == rules[i]);
}

/// Compilation never widens: whatever the compiled ingress rules permit, some
/// wire rule permits by naming the peer, or everyone, and by a usable range.
pub proof fn compilation_never_widens(
    rules: Seq<FilterRule>,
    handles: Seq<Seq<u8>>,
    peer: PeerIndex,
    port: u16,
    owned: bool,
)
    requires
        any_permits(compiled_rules(rules, handles), peer, port, None, owned),
    ensures
        exists|i: int|
            {
                &&& 0 <= i < rules.len()
                &&& says_any((#[trigger] rules[i]).srcs@) || named(rules[i].srcs@, handles, peer)
                &&& any_port(usable_ranges(rules[i].ports@), port)
            },
    decreases rules.len(),
{
    let all = compiled_rules(rules, handles);
    let k = choose|k: int|
        0 <= k < all.len() && (#[trigger] all[k]).permits(peer, port, None, owned);
    if rules.len() > 0 {
        let init = rules.drop_last();
        let before = compiled_rules(init, handles);
        if k < before.len() {
            assert(before[k].permits(peer, port, None, owned));
            compilation_never_widens(init, handles, peer, port, owned);
            let i = choose|i: int|
                {
                    &&& 0 <= i < init.len()
                    &&& says_any((#[trigger] init[i]).srcs@) || named(
                        init[i].srcs@,
                        handles,
                        peer,
                    )
                    &&& any_port(usable_ranges(init[i].ports@), port)
                };
            assert(rules[i] == init[i]);
        } else {
            let last = rules.last();
            assert(rules[rules.len() - 1] == last);
            assert(compiled_rule(last, handles) is Some);
        }
    }
}

/// A rule that names a gateway does not open what the gateway forwards: where
/// no destination network is granted, a packet for an address that the peer
/// does not own is refused.
pub proof fn a_node_grant_does_not_leak_forwarded_traffic(
    rules: Seq<Grant>,
    peer: PeerIndex,
    packet: Packet,
    own: Seq<Prefix>,
)
    requires
        packet.destination is Some,
        !any_covers(own, packet.destination->0),
        forall|i: int|
            0 <= i < rules.len() ==> !any_covers(
                (#[trigger] rules[i]).prefixes,
                packet.destination->0,
            ),
    ensures
        judge(Some(rules), peer, packet, Some(own)) !is Permit,
{
}

/// Whether a wire range holds a port: one that is inverted, or reaches beyond
/// the last port, holds none.
pub open spec fn holds_port(range: WirePortRange, port: u16) -> bool {
    range.first <= port && port <= range.last && range.last <= 65535
}

/// Whether a name of a rule is `peer`: the first of the handles that reads so.
pub open spec fn is_handle_of(handles: Seq<Seq<u8>>, peer: PeerIndex, name: Seq<char>) -> bool {
    &&& peer < handles.len()
    &&& handles[peer as int] == vstd::utf8::encode_utf8(name)
    &&& forall|k: int| 0 <= k < peer ==> #[trigger] handles[k] != vstd::utf8::encode_utf8(name)
}

/// Whether a list of names means `peer`: it has the peer's handle, or a star.
pub open spec fn means(names: Seq<String>, handles: Seq<Seq<u8>>, peer: PeerIndex) -> bool {
    exists|j: int|
        0 <= j < names.len() && ((#[trigger] names[j])@ == "*"@ || is_handle_of(
            handles,
            peer,
            names[j]@,
        ))
}

/// Whether a list of wire ranges has one that holds a port.
pub open spec fn lists_port(ranges: Seq<WirePortRange>, port: u16) -> bool {
    exists|k: int| 0 <= k < ranges.len() && holds_port(#[trigger] ranges[k], port)
}

proof fn lemma_ports(ranges: Seq<WirePortRange>, port: u16)
    ensures
        any_port(usable_ranges(ranges), port) <==> lists_port(ranges, port),
        lists_port(ranges, port) ==> usable_ranges(ranges).len() > 0,
    decreases ranges.len(),
{
    if ranges.len() > 0 {
        let init = ranges.drop_last();
        lemma_ports(init, port);
        let before = usable_ranges(init);
        let all = usable_ranges(ranges);
        if any_port(all, port) {
            let k = choose|k: int| 0 <= k < all.len() && (#[trigger] all[k]).covers(port);
            if k < before.len() {
                assert(before[k].covers(port));
                let m = choose|m: int|
                    0 <= m < init.len() && holds_port(#[trigger] init[m], port);
                assert(holds_port(ranges[m], port));
            } else {
                assert(holds_port(ranges[ranges.len() - 1], port));
            }
        }
        if lists_port(ranges, port) {
            let m = choose|m: int| 0 <= m < ranges.len() && holds_port(#[trigger] ranges[m], port);
            if m < init.len() {
                assert(holds_port(init[m], port));
                let k = choose|k: int| 0 <= k < before.len() && (#[trigger] before[k]).covers(port);
                assert(all[k].covers(port));
            } else {
                assert(all[all.len() - 1].covers(port));
            }
        }
    }
}

proof fn lemma_handle(handles: Seq<Seq<u8>>, name: Seq<u8>, n: int)
    requires
        0 <= n <= handles.len() <= usize::MAX,
    ensures
        match handle_index(handles.take(n), name) {
            Some(i) => {
                &&& i < n
                &&& handles[i as int] == name
                &&& forall|k: int| 0 <= k < i ==> #[trigger] handles[k] != name
            },
            None => forall|k: int| 0 <= k < n ==> #[trigger] handles[k] != name,
        },
    decreases n,
{
    if n > 0 {
        lemma_handle(handles, name, n - 1);
        assert(handles.take(n).drop_last() =~= handles.take(n - 1));
    }
}

proof fn lemma_names(names: Seq<String>, handles: Seq<Seq<u8>>, peer: PeerIndex)
    requires
        handles.len() <= usize::MAX,
    ensures
        nodes_of(names, handles).names(peer) <==> means(names, handles, peer),
{
    let all = handles;
    assert(all.take(handles.len() as int) =~= all);
    assert forall|j: int| 0 <= j < names.len() implies (handle_index(
        all,
        vstd::utf8::encode_utf8((#[trigger] names[j])@),
    ) == Some(peer) <==> is_handle_of(handles, peer, names[j]@)) by {
        lemma_handle(
            handles,
            vstd::utf8::encode_utf8(names[j]@),
            handles.len() as int,
        );
    }
    if says_any(names) {
        let j = choose|j: int| 0 <= j < names.len() && (#[trigger] names[j])@ == "*"@;
        assert(means(names, handles, peer));
    } else if means(names, handles, peer) {
        let j = choose|j: int|
            0 <= j < names.len() && ((#[trigger] names[j])@ == "*"@ || is_handle_of(
                handles,
                peer,
                names[j]@,
            ));
        assert(named(names, all, peer));
    }
}

/// Compiled ingress or SSH rules permit what the rules on the wire say.
pub proof fn lemma_rules(
    rules: Seq<FilterRule>,
    handles: Seq<Seq<u8>>,
    peer: PeerIndex,
    port: u16,
    destination: Option<IpAddr>,
)
    requires
        handles.len() <= usize::MAX,
    ensures
        any_permits(compiled_rules(rules, handles), peer, port, destination, true)
            <==> exists|i: int|
            0 <= i < rules.len() && means((#[trigger] rules[i]).srcs@, handles, peer) && lists_port(
                rules[i].ports@,
                port,
            ),
    decreases rules.len(),
{
    let all = compiled_rules(rules, handles);
    if rules.len() > 0 {
        let init = rules.drop_last();
        let last = rules.last();
        let before = compiled_rules(init, handles);
        lemma_rules(init, handles, peer, port, destination);
        lemma_ports(last.ports@, port);
        lemma_names(last.srcs@, handles, peer);
        if any_permits(all, peer, port, destination, true) {
            let k = choose|k: int|
                0 <= k < all.len() && (#[trigger] all[k]).permits(peer, port, destination, true);
            if k < before.len() {
                assert(before[k].permits(peer, port, destination, true));
                let i = choose|i: int|
                    0 <= i < init.len() && means((#[trigger] init[i]).srcs@, handles, peer)
                        && lists_port(init[i].ports@, port);
                assert(rules[i] == init[i]);
            } else {
                assert(rules[rules.len() - 1] == last);
            }
        }
        if exists|i: int|
            0 <= i < rules.len() && means((#[trigger] rules[i]).srcs@, handles, peer) && lists_port(
                rules[i].ports@,
                port,
            ) {
            let i = choose|i: int|
                0 <= i < rules.len() && means((#[trigger] rules[i]).srcs@, handles, peer)
                    && lists_port(rules[i].ports@, port);
            if i < init.len() {
                assert(rules[i] == init[i]);
                let k = choose|k: int|
                    0 <= k < before.len() && (#[trigger] before[k]).permits(
                        peer,
                        port,
                        destination,
                        true,
                    );
                assert(all[k].permits(peer, port, destination, true));
            } else {
                let nodes = nodes_of(last.srcs@, handles);
                assert(nodes.names(peer));
                assert(!nodes.nobody());
                assert(all[all.len() - 1].permits(peer, port, destination, true));
            }
        }
    }
}

/// The ingress filter neither widens nor narrows what the policy says: a packet
/// of a peer passes exactly when some rule means the peer and lists the port
/// that the packet is for. A packet without ports is never judged by them.
pub proof fn ingress_permits_what_the_policy_says(
    rules: &Vec<FilterRule>,
    egress: &Vec<EgressRule>,
    handles: &Vec<Vec<u8>>,
    filter: PacketFilter,
    peer: PeerIndex,
    packet: &Packet,
    verdict: Verdict,
)
    requires
        call_ensures(PacketFilter::compile, (rules, egress, handles), filter),
        call_ensures(PacketFilter::ingress, (&filter, peer, packet), verdict),
    ensures
        verdict is Unclassifiable <==> packet.ports is None,
        verdict is Permit <==> packet.ports is Some && exists|i: int|
            0 <= i < rules@.len() && means((#[trigger] rules@[i]).srcs@, byte_strings(handles@), peer)
                && lists_port(rules@[i].ports@, packet.ports->0.destination),
{
    assert(byte_strings(handles@).len() == handles.len());
    if let Some(ports) = packet.ports {
        lemma_rules(rules@, byte_strings(handles@), peer, ports.destination, packet.destination);
    }
}

/// The SSH gate admits a peer exactly when the policy has no `ssh` block, or a
/// rule of it means the peer and lists port 22.
pub proof fn the_gate_admits_whom_the_policy_names(
    rules: &Vec<FilterRule>,
    present: bool,
    handles: &Vec<Vec<u8>>,
    filter: SshFilter,
    peer: PeerIndex,
    verdict: Verdict,
)
    requires
        call_ensures(SshFilter::compile, (rules, present, handles), filter),
        call_ensures(SshFilter::admits, (&filter, peer), verdict),
    ensures
        verdict is Permit <==> !present || exists|i: int|
            0 <= i < rules@.len() && means((#[trigger] rules@[i]).srcs@, byte_strings(handles@), peer)
                && lists_port(rules@[i].ports@, 22),
        verdict !is Unclassifiable,
{
    assert(byte_strings(handles@).len() == handles.len());
    lemma_rules(rules@, byte_strings(handles@), peer, 22, None);
}

/// Whether one of the networks of a rule holds an address.
pub open spec fn lists_network(cidrs: Seq<Option<Prefix>>, ip: IpAddr) -> bool {
    exists|k: int|
        0 <= k < cidrs.len() && (#[trigger] cidrs[k]) is Some && cidrs[k]->0.covers(ip)
}

proof fn lemma_networks(cidrs: Seq<Option<Prefix>>, ip: IpAddr)
    ensures
        any_covers(usable_prefixes(cidrs), ip) <==> lists_network(cidrs, ip),
    decreases cidrs.len(),
{
    if cidrs.len() > 0 {
        let init = cidrs.drop_last();
        lemma_networks(init, ip);
        let before = usable_prefixes(init);
        let all = usable_prefixes(cidrs);
        if any_covers(all, ip) {
            let k = choose|k: int| 0 <= k < all.len() && (#[trigger] all[k]).covers(ip);
            if k < before.len() {
                assert(before[k].covers(ip));
                let m = choose|m: int|
                    0 <= m < init.len() && (#[trigger] init[m]) is Some && init[m]->0.covers(ip);
                assert(cidrs[m] == init[m]);
            } else {
                assert(cidrs[cidrs.len() - 1] == Some(all[k]));
            }
        }
        if lists_network(cidrs, ip) {
            let m = choose|m: int|
                0 <= m < cidrs.len() && (#[trigger] cidrs[m]) is Some && cidrs[m]->0.covers(ip);
            if m < init.len() {
                assert(cidrs[m] == init[m]);
                let k = choose|k: int| 0 <= k < before.len() && (#[trigger] before[k]).covers(ip);
                assert(all[k].covers(ip));
            } else {
                assert(all[all.len() - 1].covers(ip));
            }
        }
    }
}

/// Whether an egress rule is for a packet that goes to `peer`: it means the
/// peer, and the packet is for one of the peer's own addresses; or one of its
/// networks holds the destination, whoever carries the packet.
pub open spec fn is_for(
    rule: EgressRule,
    handles: Seq<Seq<u8>>,
    peer: PeerIndex,
    destination: Option<IpAddr>,
    own: Seq<Prefix>,
) -> bool {
    &&& destination is Some
    &&& (means(rule.dsts@, handles, peer) && exists|k: int|
        0 <= k < own.len() && (#[trigger] own[k]).covers(destination->0)) || lists_network(
        rule.dst_cidrs@,
        destination->0,
    )
}

/// Compiled egress rules permit what the rules on the wire say.
pub proof fn lemma_egresses(
    rules: Seq<EgressRule>,
    handles: Seq<Seq<u8>>,
    peer: PeerIndex,
    port: u16,
    destination: Option<IpAddr>,
    own: Seq<Prefix>,
)
    requires
        handles.len() <= usize::MAX,
    ensures
        ({
            let owned = destination is Some && any_covers(own, destination->0);
            any_permits(
                compiled_egresses(rules, handles),
                peer,
                port,
                destination,
                owned,
            ) <==> exists|i: int|
                0 <= i < rules.len() && is_for(
                    #[trigger] rules[i],
                    handles,
                    peer,
                    destination,
                    own,
                ) && lists_port(rules[i].ports@, port)
        }),
    decreases rules.len(),
{
    let owned = destination is Some && any_covers(own, destination->0);
    let all = compiled_egresses(rules, handles);
    if rules.len() > 0 {
        let init = rules.drop_last();
        let last = rules.last();
        let before = compiled_egresses(init, handles);
        lemma_egresses(init, handles, peer, port, destination, own);
        lemma_ports(last.ports@, port);
        lemma_names(last.dsts@, handles, peer);
        if destination is Some {
            lemma_networks(last.dst_cidrs@, destination->0);
        }
        if any_permits(all, peer, port, destination, owned) {
            let k = choose|k: int|
                0 <= k < all.len() && (#[trigger] all[k]).permits(peer, port, destination, owned);
            if k < before.len() {
                assert(before[k].permits(peer, port, destination, owned));
                let i = choose|i: int|
                    0 <= i < init.len() && is_for(
                        #[trigger] init[i],
                        handles,
                        peer,
                        destination,
                        own,
                    ) && lists_port(init[i].ports@, port);
                assert(rules[i] == init[i]);
            } else {
                assert(rules[rules.len() - 1] == last);
                assert(is_for(last, handles, peer, destination, own));
            }
        }
        if exists|i: int|
            0 <= i < rules.len() && is_for(#[trigger] rules[i], handles, peer, destination, own)
                && lists_port(rules[i].ports@, port) {
            let i = choose|i: int|
                0 <= i < rules.len() && is_for(
                    #[trigger] rules[i],
                    handles,
                    peer,
                    destination,
                    own,
                ) && lists_port(rules[i].ports@, port);
            if i < init.len() {
                assert(rules[i] == init[i]);
                let k = choose|k: int|
                    0 <= k < before.len() && (#[trigger] before[k]).permits(
                        peer,
                        port,
                        destination,
                        owned,
                    );
                assert(all[k].permits(peer, port, destination, owned));
            } else {
                let nodes = nodes_of(last.dsts@, handles);
                let prefixes = usable_prefixes(last.dst_cidrs@);
                if means(last.dsts@, handles, peer) {
                    assert(nodes.names(peer));
                    assert(!nodes.nobody());
                } else {
                    assert(any_covers(prefixes, destination->0));
                    assert(prefixes.len() > 0);
                }
                assert(all[all.len() - 1].permits(peer, port, destination, owned));
            }
        }
    }
}

/// The egress filter neither widens nor narrows what the policy says: a packet
/// to a peer passes exactly when some rule is for it and lists the port that it
/// is for.
pub proof fn egress_permits_what_the_policy_says(
    ingress: &Vec<FilterRule>,
    rules: &Vec<EgressRule>,
    handles: &Vec<Vec<u8>>,
    filter: PacketFilter,
    peer: PeerIndex,
    packet: &Packet,
    own: &Vec<Prefix>,
    verdict: Verdict,
)
    requires
        call_ensures(PacketFilter::compile, (ingress, rules, handles), filter),
        call_ensures(PacketFilter::egress, (&filter, peer, packet, own), verdict),
    ensures
        verdict is Unclassifiable <==> packet.ports is None,
        verdict is Permit <==> packet.ports is Some && exists|i: int|
            0 <= i < rules@.len() && is_for(
                #[trigger] rules@[i],
                byte_strings(handles@),
                peer,
                packet.destination,
                own@,
            ) && lists_port(rules@[i].ports@, packet.ports->0.destination),
{
    assert(byte_strings(handles@).len() == handles.len());
    if let Some(ports) = packet.ports {
        lemma_egresses(rules@, byte_strings(handles@), peer, ports.destination, packet.destination, own@);
    }
}

/// A wire range is a range of ports if it is one: not inverted, and no port
/// beyond the last there is. It holds the ports between its ends.
pub proof fn a_range_holds_the_ports_between_its_ends(
    w: WirePortRange,
    r: Option<PortRange>,
    port: u16,
    held: bool,
)
    requires
        call_ensures(PortRange::from_wire, (w,), r),
        r matches Some(range) ==> call_ensures(PortRange::contains, (range, port), held),
    ensures
        r is Some <==> w.first <= w.last && w.last <= 65535,
        r is Some ==> held == (w.first <= port <= w.last),
{
}

/// A rule permits a peer's traffic to a port that it lists, if it names the peer
/// and the peer owns the destination, or if the destination lies in one of its
/// networks.
pub proof fn a_rule_permits_whom_it_names(
    rule: Rule,
    peer: PeerIndex,
    port: u16,
    destination: Option<IpAddr>,
    owned: bool,
    r: bool,
    named: bool,
    inside: bool,
    list: Seq<PeerIndex>,
)
    requires
        rule.wf(),
        call_ensures(Rule::permits, (&rule, peer, port, destination, owned), r),
        call_ensures(NodeSet::contains, (&rule.nodes, peer), named),
        destination matches Some(ip) ==> call_ensures(covered, (&rule.dst_prefixes, ip), inside),
    ensures
        r <==> ((named && owned) || (destination is Some && inside)) && exists|k: int|
            0 <= k < rule.ports@.len() && (#[trigger] rule.ports@[k]).first <= port
                <= rule.ports@[k].last,
        rule.nodes is Any ==> named,
        rule.nodes matches NodeSet::These(l) ==> named == l@.contains(peer),
        destination matches Some(ip) ==> inside == exists|k: int|
            0 <= k < rule.dst_prefixes@.len() && crate::routing::lies_in(
                #[trigger] rule.dst_prefixes@[k],
                ip,
            ),
{
    if any_port(rule.ports@, port) {
        let k = choose|k: int| 0 <= k < rule.ports@.len() && (#[trigger] rule.ports@[k]).covers(port);
        assert(rule.ports@[k].first <= port <= rule.ports@[k].last);
    }
    if exists|k: int|
        0 <= k < rule.ports@.len() && (#[trigger] rule.ports@[k]).first <= port
            <= rule.ports@[k].last {
        let k = choose|k: int|
            0 <= k < rule.ports@.len() && (#[trigger] rule.ports@[k]).first <= port
                <= rule.ports@[k].last;
        assert(rule.ports@[k].covers(port));
    }
    if let Some(ip) = destination {
        assert forall|k: int| 0 <= k < rule.dst_prefixes@.len() implies (
        #[trigger] rule.dst_prefixes@[k]).covers(ip) == crate::routing::lies_in(
            rule.dst_prefixes@[k],
            ip,
        ) by {
            crate::routing::lemma_lies_in(rule.dst_prefixes@[k], ip);
        }
    }
}

/// Without a policy everything passes, and only a permitted packet does; with one
/// the filter enforces, and says how many rules each direction has.
pub proof fn no_policy_is_not_an_empty_one(
    free: PacketFilter,
    enforcing: bool,
    counts: Option<(usize, usize)>,
    text: String,
    f: PacketFilter,
    on: bool,
    n: Option<(usize, usize)>,
    absent: SshFilter,
    gated: bool,
    rules: Option<usize>,
    said: String,
    from: PeerIndex,
    v: Verdict,
    pass: bool,
)
    requires
        call_ensures(PacketFilter::unrestricted, (), free),
        call_ensures(PacketFilter::is_enforcing, (&free,), enforcing),
        call_ensures(PacketFilter::rule_counts, (&free,), counts),
        call_ensures(PacketFilter::describe, (&free,), text),
        f.wf(),
        call_ensures(PacketFilter::is_enforcing, (&f,), on),
        call_ensures(PacketFilter::rule_counts, (&f,), n),
        call_ensures(SshFilter::absent, (), absent),
        call_ensures(SshFilter::is_enforcing, (&absent,), gated),
        call_ensures(SshFilter::rule_count, (&absent,), rules),
        call_ensures(SshFilter::describe, (&absent,), said),
        call_ensures(SshFilter::admits, (&absent, from), v),
        call_ensures(Verdict::permitted, (v,), pass),
    ensures
        !enforcing && counts is None,
        text@ == "PacketFilter { ingress: \""@ + "unrestricted"@ + "\", egress: \""@
            + "unrestricted"@ + "\" }"@,
        on <==> f.ingress is Some && f.egress is Some,
        n is Some <==> on,
        n matches Some((a, b)) ==> a == f.ingress->0@.len() && b == f.egress->0@.len(),
        !gated && rules is None && said@ == "SshFilter(\""@ + "absent"@ + "\")"@,
        v is Permit && pass,
{
    if f.ingress is Some && f.egress is Some {
        assert(f.ingress->0@.len() == f.ingress->0.len());
        assert(f.egress->0@.len() == f.egress->0.len());
    }
}

/// A policy is described by how many rules it has; one without rules denies
/// everything, which is said.
pub proof fn a_policy_is_described_by_its_rules(
    f: PacketFilter,
    text: String,
    a: String,
    b: String,
    ssh: SshFilter,
    n: Option<usize>,
    said: String,
    c: String,
    v: Verdict,
    pass: bool,
)
    requires
        f.ingress is Some && f.egress is Some,
        call_ensures(PacketFilter::describe, (&f,), text),
        call_ensures(decimal, (f.ingress->0.len() as u64,), a),
        call_ensures(decimal, (f.egress->0.len() as u64,), b),
        ssh.0 is Some,
        call_ensures(SshFilter::rule_count, (&ssh,), n),
        call_ensures(SshFilter::describe, (&ssh,), said),
        call_ensures(decimal, (ssh.0->0.len() as u64,), c),
        call_ensures(Verdict::permitted, (v,), pass),
    ensures
        text@ == "PacketFilter { ingress: \""@ + (if f.ingress->0@.len() == 0 {
            "deny-all"@
        } else {
            a@ + " rule(s)"@
        }) + "\", egress: \""@ + (if f.egress->0@.len() == 0 {
            "deny-all"@
        } else {
            b@ + " rule(s)"@
        }) + "\" }"@,
        n == Some(ssh.0->0.len()),
        said@ == "SshFilter(\""@ + (if ssh.0->0@.len() == 0 {
            "deny-all"@
        } else {
            c@ + " rule(s)"@
        }) + "\")"@,
        pass <==> v is Permit,
{
    assert(f.ingress->0@.len() == f.ingress->0.len());
    assert(f.egress->0@.len() == f.egress->0.len());
    assert(ssh.0->0@.len() == ssh.0->0.len());
}

} // verus!
