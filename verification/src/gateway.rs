//! Linux forwarding policy for authenticated subnet and exit-route grants.
//!
//! The kernel may forward only traffic that has already crossed the encrypted
//! datapath and still matches a gateway offer in the current netmap. Rules live
//! in one Karst-owned nftables table; operator tables are never flushed.
//!
//! The module decides which command comes next; the caller runs it and reports
//! how it ended.

use crate::addr::IpAddr;
use crate::exit_policy::Family;
use crate::routing::{InterfaceAddress, Prefix};
use crate::text::{
    chars_of, has_text, mentions, same, text_le, text_not_after, text_order_is_total,
    text_order_is_transitive, texts, trim, trimmed,
};
use vstd::prelude::*;

verus! {

/// The table that holds every rule of this module.
pub const TABLE: &'static str = "karst_routes";

/// What a node is to a route.
#[derive(Clone, Copy, Debug, PartialEq, Eq, Structural)]
pub enum Role {
    /// The node forwards for others.
    Gateway,
    /// The node may send through the route.
    Recipient,
}

/// A route that the netmap offers.
#[derive(Debug)]
pub struct Offer {
    pub route_id: String,
    pub prefix: Prefix,
    pub masquerade: bool,
    pub role: Role,
}

/// One destination that this node forwards to, and for whom.
#[derive(Debug)]
pub struct Grant {
    pub route_id: String,
    pub destination: Prefix,
    pub sources: Vec<Prefix>,
    pub masquerade: bool,
}

/// A grant as a value.
#[verifier::ext_equal]
pub struct GrantFacts {
    pub route_id: Seq<char>,
    pub destination: Prefix,
    pub sources: Seq<Prefix>,
    pub masquerade: bool,
}

impl View for Grant {
    type V = GrantFacts;

    open spec fn view(&self) -> GrantFacts {
        GrantFacts {
            route_id: self.route_id@,
            destination: self.destination,
            sources: self.sources@,
            masquerade: self.masquerade,
        }
    }
}

/// The grants in force, and the families they need forwarding for.
#[derive(Debug)]
pub struct Ruleset {
    pub grants: Vec<Grant>,
    pub ipv4: bool,
    pub ipv6: bool,
}

/// The grants as values.
pub open spec fn facts(grants: Seq<Grant>) -> Seq<GrantFacts> {
    Seq::new(grants.len(), |i: int| grants[i]@)
}

/// The on-link networks of a family, in the order of the addresses.
pub open spec fn sources_for(addresses: Seq<InterfaceAddress>, v4: bool) -> Seq<Prefix>
    decreases addresses.len(),
{
    if addresses.len() == 0 {
        seq![]
    } else {
        let before = sources_for(addresses.drop_last(), v4);
        let network = addresses.last().on_link();
        if network.base is V4 == v4 {
            before.push(network)
        } else {
            before
        }
    }
}

/// The grants that the offers make, in the order of the offers: one for each
/// gateway offer whose family has a source.
pub open spec fn granted(
    offers: Seq<Offer>,
    addresses: Seq<InterfaceAddress>,
) -> Seq<GrantFacts>
    decreases offers.len(),
{
    if offers.len() == 0 {
        seq![]
    } else {
        let before = granted(offers.drop_last(), addresses);
        let offer = offers.last();
        let sources = sources_for(addresses, offer.prefix.base is V4);
        if offer.role is Gateway && sources.len() > 0 {
            before.push(
                GrantFacts {
                    route_id: offer.route_id@,
                    destination: offer.prefix,
                    sources,
                    masquerade: offer.masquerade,
                },
            )
        } else {
            before
        }
    }
}

/// The place of a new grant in a list by route: after every grant whose route
/// does not come after its own.
pub open spec fn place(list: Seq<GrantFacts>, route_id: Seq<char>) -> int
    decreases list.len(),
{
    if list.len() == 0 {
        0
    } else if text_le(list.last().route_id, route_id) {
        list.len() as int
    } else {
        place(list.drop_last(), route_id)
    }
}

/// The grants by route; those of one route stay in the order they came in.
pub open spec fn by_route(grants: Seq<GrantFacts>) -> Seq<GrantFacts>
    decreases grants.len(),
{
    if grants.len() == 0 {
        seq![]
    } else {
        let before = by_route(grants.drop_last());
        before.insert(place(before, grants.last().route_id), grants.last())
    }
}

/// Whether some grant is for a destination of the family.
pub open spec fn reaches(grants: Seq<GrantFacts>, v4: bool) -> bool {
    exists|i: int| 0 <= i < grants.len() && (#[trigger] grants[i]).destination.base is V4 == v4
}

/// The word that nftables has for the family of an address.
pub open spec fn family_word(address: IpAddr) -> Seq<char> {
    if address is V4 {
        "ip"@
    } else {
        "ip6"@
    }
}

/// `value` with a backslash before every backslash and every quotation mark.
pub open spec fn escaped(value: Seq<char>) -> Seq<char>
    decreases value.len(),
{
    if value.len() == 0 {
        seq![]
    } else {
        let before = escaped(value.drop_last());
        if value.last() == '\\' || value.last() == '"' {
            before.push('\\').push(value.last())
        } else {
            before.push(value.last())
        }
    }
}

/// `value` as a quoted nftables string.
pub open spec fn quoted(value: Seq<char>) -> Seq<char> {
    seq!['"'] + escaped(value) + seq!['"']
}

/// What a reader of quoted strings makes of the text behind an opening
/// quotation mark: the value up to the closing one, and what follows it. A
/// backslash makes the next character stand for itself.
pub open spec fn read_quoted(s: Seq<char>) -> Option<(Seq<char>, Seq<char>)>
    decreases s.len(),
{
    if s.len() == 0 {
        None
    } else if s[0] == '"' {
        Some((seq![], s.skip(1)))
    } else if s[0] == '\\' {
        if s.len() < 2 {
            None
        } else {
            match read_quoted(s.skip(2)) {
                Some((value, rest)) => Some((seq![s[1]] + value, rest)),
                None => None,
            }
        }
    } else {
        match read_quoted(s.skip(1)) {
            Some((value, rest)) => Some((seq![s[0]] + value, rest)),
            None => None,
        }
    }
}

proof fn lemma_escaped_front(value: Seq<char>)
    requires
        value.len() > 0,
    ensures
        escaped(value) == if value[0] == '\\' || value[0] == '"' {
            seq!['\\', value[0]] + escaped(value.skip(1))
        } else {
            seq![value[0]] + escaped(value.skip(1))
        },
    decreases value.len(),
{
    if value.len() == 1 {
        assert(value.drop_last() =~= seq![]);
        assert(value.skip(1) =~= seq![]);
        assert(escaped(value.drop_last()) =~= seq![]);
        assert(escaped(value) =~= if value[0] == '\\' || value[0] == '"' {
            seq!['\\', value[0]] + escaped(value.skip(1))
        } else {
            seq![value[0]] + escaped(value.skip(1))
        });
    } else {
        lemma_escaped_front(value.drop_last());
        assert(value.drop_last().skip(1) =~= value.skip(1).drop_last());
        assert(escaped(value) =~= if value[0] == '\\' || value[0] == '"' {
            seq!['\\', value[0]] + escaped(value.skip(1))
        } else {
            seq![value[0]] + escaped(value.skip(1))
        });
    }
}

/// A quoted value reads back as itself, whatever it holds and whatever follows:
/// no value can end its own string and begin another statement.
pub proof fn a_quoted_value_reads_back(value: Seq<char>, rest: Seq<char>)
    ensures
        read_quoted((quoted(value) + rest).skip(1)) == Some((value, rest)),
{
    lemma_reads_back(value, rest);
    assert((quoted(value) + rest).skip(1) =~= escaped(value) + seq!['"'] + rest);
}

proof fn lemma_reads_back(value: Seq<char>, rest: Seq<char>)
    ensures
        read_quoted(escaped(value) + seq!['"'] + rest) == Some((value, rest)),
    decreases value.len(),
{
    let s = escaped(value) + seq!['"'] + rest;
    if value.len() == 0 {
        assert(s.skip(1) =~= rest);
        assert(value =~= seq![]);
    } else {
        lemma_escaped_front(value);
        let tail = value.skip(1);
        lemma_reads_back(tail, rest);
        let t = escaped(tail) + seq!['"'] + rest;
        if value[0] == '\\' || value[0] == '"' {
            assert(s.skip(2) =~= t);
        } else {
            assert(s.skip(1) =~= t);
        }
        assert(value =~= seq![value[0]] + tail);
    }
}

/// The rule that forwards one source to a grant's destination.
pub open spec fn forward_rule(
    interface: Seq<char>,
    grant: GrantFacts,
    source: Prefix,
) -> Seq<char> {
    let family = family_word(grant.destination.base);
    "add rule inet karst_routes forward iifname "@ + interface + " "@ + family + " saddr "@
        + source.text() + " "@ + family + " daddr "@ + grant.destination.text()
        + " counter accept comment "@ + quoted(grant.route_id) + "\n"@
}

/// The rule that hides one source behind this node's own address.
pub open spec fn masquerade_rule(
    interface: Seq<char>,
    grant: GrantFacts,
    source: Prefix,
) -> Seq<char> {
    let family = family_word(grant.destination.base);
    "add rule inet karst_routes postrouting iifname "@ + interface + " oifname != "@ + interface
        + " "@ + family + " saddr "@ + source.text() + " "@ + family + " daddr "@
        + grant.destination.text() + " counter masquerade comment "@ + quoted(grant.route_id)
        + "\n"@
}

/// The rules of a grant for its first `n` sources.
pub open spec fn grant_rules(interface: Seq<char>, grant: GrantFacts, n: nat) -> Seq<char>
    decreases n,
{
    if n == 0 {
        seq![]
    } else {
        let before = grant_rules(interface, grant, (n - 1) as nat);
        let source = grant.sources[n - 1];
        let forwarded = before + forward_rule(interface, grant, source);
        if grant.masquerade {
            forwarded + masquerade_rule(interface, grant, source)
        } else {
            forwarded
        }
    }
}

/// The rules of the grants.
pub open spec fn rules_text(interface: Seq<char>, grants: Seq<GrantFacts>) -> Seq<char>
    decreases grants.len(),
{
    if grants.len() == 0 {
        seq![]
    } else {
        rules_text(interface, grants.drop_last()) + grant_rules(
            interface,
            grants.last(),
            grants.last().sources.len(),
        )
    }
}

/// A complete replacement for the table: its chains, the rules of every grant,
/// the replies to flows that a rule admitted, and a final drop for anything
/// else from the interface.
pub open spec fn batch_text(interface: Seq<char>, grants: Seq<GrantFacts>) -> Seq<char> {
    let name = quoted(interface);
    "flush table inet karst_routes\n"@
        + "add chain inet karst_routes forward { type filter hook forward priority -10; policy accept; }\n"@
        + "add chain inet karst_routes postrouting { type nat hook postrouting priority srcnat; policy accept; }\n"@
        + rules_text(name, grants) + ("add rule inet karst_routes forward oifname "@ + name
        + " ct state established,related counter accept\n"@) + (
    "add rule inet karst_routes forward iifname "@ + name + " counter drop\n"@)
}

/// `value` as a quoted nftables string.
pub fn nft_string(value: &str) -> (s: String)
    ensures
        s@ == quoted(value@),
{
    let chars = chars_of(value);
    let mut s = String::new();
    s.push('"');
    let mut i: usize = 0;
    assert(chars@.take(0) =~= seq![]);
    assert(s@ =~= seq!['"'] + escaped(chars@.take(0)));
    while i < chars.len()
        invariant
            i <= chars@.len(),
            s@ == seq!['"'] + escaped(chars@.take(i as int)),
        decreases chars@.len() - i,
    {
        let c = chars[i];
        assert(chars@.take(i + 1).drop_last() =~= chars@.take(i as int));
        if c == '\\' || c == '"' {
            s.push('\\');
        }
        s.push(c);
        assert(s@ =~= seq!['"'] + escaped(chars@.take(i + 1)));
        i = i + 1;
    }
    assert(chars@.take(i as int) =~= value@);
    s.push('"');
    s
}

fn family(address: IpAddr) -> (s: &'static str)
    ensures
        s@ == family_word(address),
{
    if address.is_ipv4() {
        "ip"
    } else {
        "ip6"
    }
}

fn collect_sources(addresses: &Vec<InterfaceAddress>, v4: bool) -> (r: Vec<Prefix>)
    requires
        forall|i: int| 0 <= i < addresses@.len() ==> (#[trigger] addresses@[i]).wf(),
    ensures
        r@ == sources_for(addresses@, v4),
{
    let mut r: Vec<Prefix> = Vec::new();
    let mut i: usize = 0;
    while i < addresses.len()
        invariant
            i <= addresses@.len(),
            forall|k: int| 0 <= k < addresses@.len() ==> (#[trigger] addresses@[k]).wf(),
            r@ == sources_for(addresses@.take(i as int), v4),
        decreases addresses@.len() - i,
    {
        assert(addresses@.take(i + 1).drop_last() =~= addresses@.take(i as int));
        let network = addresses[i].network();
        if network.base().is_ipv4() == v4 {
            r.push(network);
        }
        i = i + 1;
    }
    assert(addresses@.take(i as int) =~= addresses@);
    r
}

proof fn lemma_place(list: Seq<GrantFacts>, route_id: Seq<char>)
    ensures
        0 <= place(list, route_id) <= list.len(),
    decreases list.len(),
{
    if list.len() > 0 && !text_le(list.last().route_id, route_id) {
        lemma_place(list.drop_last(), route_id);
    }
}

/// Puts a grant in its place.
fn insert_grant(list: &mut Vec<Grant>, grant: Grant)
    ensures
        facts(final(list)@) == facts(old(list)@).insert(
            place(facts(old(list)@), grant@.route_id),
            grant@,
        ),
{
    let ghost before = facts(list@);
    let mut i: usize = list.len();
    assert(before.take(i as int) =~= before);
    while i > 0 && !text_not_after(list[i - 1].route_id.as_str(), grant.route_id.as_str())
        invariant
            i <= list@.len() == before.len(),
            before == facts(list@),
            place(before, grant.route_id@) == place(before.take(i as int), grant.route_id@),
        decreases i,
    {
        assert(before.take(i as int).drop_last() =~= before.take(i - 1));
        i = i - 1;
    }
    assert(place(before, grant.route_id@) == i);
    let ghost added = grant@;
    list.insert(i, grant);
    assert(facts(list@) =~= before.insert(i as int, added));
}

fn any_of_family(grants: &Vec<Grant>, v4: bool) -> (r: bool)
    ensures
        r == reaches(facts(grants@), v4),
{
    let mut i: usize = 0;
    while i < grants.len()
        invariant
            i <= grants@.len(),
            forall|k: int|
                0 <= k < i ==> (#[trigger] facts(grants@)[k]).destination.base is V4 != v4,
        decreases grants@.len() - i,
    {
        if grants[i].destination.base().is_ipv4() == v4 {
            assert(facts(grants@)[i as int].destination.base is V4 == v4);
            return true;
        }
        i = i + 1;
    }
    false
}

impl Default for Ruleset {
    /// No grants.
    fn default() -> (r: Ruleset)
        ensures
            r.grants@.len() == 0,
            !r.ipv4,
            !r.ipv6,
    {
        Ruleset { grants: Vec::new(), ipv4: false, ipv6: false }
    }
}

impl Ruleset {
    /// The grants that the offers make over this node's addresses, by route.
    pub fn from_config(offers: &Vec<Offer>, addresses: &Vec<InterfaceAddress>) -> (r: Ruleset)
        requires
            forall|i: int| 0 <= i < addresses@.len() ==> (#[trigger] addresses@[i]).wf(),
        ensures
            facts(r.grants@) == by_route(granted(offers@, addresses@)),
            r.ipv4 == reaches(facts(r.grants@), true),
            r.ipv6 == reaches(facts(r.grants@), false),
    {
        let mut grants: Vec<Grant> = Vec::new();
        let mut i: usize = 0;
        assert(facts(grants@) =~= seq![]);
        while i < offers.len()
            invariant
                i <= offers@.len(),
                forall|k: int| 0 <= k < addresses@.len() ==> (#[trigger] addresses@[k]).wf(),
                facts(grants@) == by_route(granted(offers@.take(i as int), addresses@)),
            decreases offers@.len() - i,
        {
            let offer = &offers[i];
            let ghost before = granted(offers@.take(i as int), addresses@);
            assert(offers@.take(i + 1).drop_last() =~= offers@.take(i as int));
            assert(offers@.take(i + 1).last() == offers@[i as int]);
            if offer.role == Role::Gateway {
                let sources = collect_sources(addresses, offer.prefix.base().is_ipv4());
                if sources.len() > 0 {
                    let grant = Grant {
                        route_id: offer.route_id.clone(),
                        destination: offer.prefix,
                        sources,
                        masquerade: offer.masquerade,
                    };
                    let ghost after = before.push(grant@);
                    assert(after.drop_last() =~= before);
                    insert_grant(&mut grants, grant);
                }
            }
            i = i + 1;
        }
        assert(offers@.take(i as int) =~= offers@);
        let ipv4 = any_of_family(&grants, true);
        let ipv6 = any_of_family(&grants, false);
        Ruleset { grants, ipv4, ipv6 }
    }

    /// Whether there is no grant.
    pub fn is_empty(&self) -> (r: bool)
        ensures
            r == (self.grants@.len() == 0),
    {
        self.grants.len() == 0
    }

    /// A complete replacement for the table after it has been created. The
    /// flush and every addition are one transaction, so a failed update leaves
    /// no half-applied grant set.
    pub fn nft_batch(&self, interface: &str) -> (s: String)
        ensures
            s@ == batch_text(interface@, facts(self.grants@)),
    {
        let name = nft_string(interface);
        let ghost quoted_name = name@;
        let mut out = String::from_str("flush table inet karst_routes\n");
        out.append(
            "add chain inet karst_routes forward { type filter hook forward priority -10; policy accept; }\n",
        );
        out.append(
            "add chain inet karst_routes postrouting { type nat hook postrouting priority srcnat; policy accept; }\n",
        );
        let ghost head = out@;
        let ghost all = facts(self.grants@);
        let mut i: usize = 0;
        assert(all.take(0) =~= seq![]);
        assert(out@ =~= head + rules_text(quoted_name, all.take(0)));
        while i < self.grants.len()
            invariant
                i <= self.grants@.len(),
                all == facts(self.grants@),
                name@ == quoted_name,
                out@ == head + rules_text(quoted_name, all.take(i as int)),
            decreases self.grants@.len() - i,
        {
            let ghost grant = all[i as int];
            let ghost before = out@;
            assert(all.take(i + 1).drop_last() =~= all.take(i as int));
            let mut j: usize = 0;
            assert(out@ =~= before + grant_rules(quoted_name, grant, 0));
            while j < self.grants[i].sources.len()
                invariant
                    i < self.grants@.len(),
                    j <= self.grants@[i as int].sources@.len(),
                    grant == self.grants@[i as int]@,
                    name@ == quoted_name,
                    out@ == before + grant_rules(quoted_name, grant, j as nat),
                decreases self.grants@[i as int].sources@.len() - j,
            {
                let ghost so_far = out@;
                append_forward(&mut out, name.as_str(), &self.grants[i], self.grants[i].sources[j]);
                if self.grants[i].masquerade {
                    append_masquerade(
                        &mut out,
                        name.as_str(),
                        &self.grants[i],
                        self.grants[i].sources[j],
                    );
                }
                assert(out@ =~= before + grant_rules(quoted_name, grant, (j + 1) as nat));
                j = j + 1;
            }
            i = i + 1;
            assert(out@ =~= head + rules_text(quoted_name, all.take(i as int)));
        }
        assert(all.take(i as int) =~= all);
        out.append("add rule inet karst_routes forward oifname ");
        out.append(name.as_str());
        out.append(" ct state established,related counter accept\n");
        out.append("add rule inet karst_routes forward iifname ");
        out.append(name.as_str());
        out.append(" counter drop\n");
        assert(out@ =~= batch_text(interface@, all));
        out
    }
}

fn append_forward(out: &mut String, name: &str, grant: &Grant, source: Prefix)
    ensures
        final(out)@ == old(out)@ + forward_rule(name@, grant@, source),
{
    let ghost before = out@;
    let word = family(grant.destination.base());
    let from = source.to_text();
    let to = grant.destination.to_text();
    let comment = nft_string(grant.route_id.as_str());
    out.append("add rule inet karst_routes forward iifname ");
    out.append(name);
    out.append(" ");
    out.append(word);
    out.append(" saddr ");
    out.append(from.as_str());
    out.append(" ");
    out.append(word);
    out.append(" daddr ");
    out.append(to.as_str());
    out.append(" counter accept comment ");
    out.append(comment.as_str());
    out.append("\n");
    assert(out@ =~= before + forward_rule(name@, grant@, source));
}

fn append_masquerade(out: &mut String, name: &str, grant: &Grant, source: Prefix)
    ensures
        final(out)@ == old(out)@ + masquerade_rule(name@, grant@, source),
{
    let ghost before = out@;
    let word = family(grant.destination.base());
    let from = source.to_text();
    let to = grant.destination.to_text();
    let comment = nft_string(grant.route_id.as_str());
    out.append("add rule inet karst_routes postrouting iifname ");
    out.append(name);
    out.append(" oifname != ");
    out.append(name);
    out.append(" ");
    out.append(word);
    out.append(" saddr ");
    out.append(from.as_str());
    out.append(" ");
    out.append(word);
    out.append(" daddr ");
    out.append(to.as_str());
    out.append(" counter masquerade comment ");
    out.append(comment.as_str());
    out.append("\n");
    assert(out@ =~= before + masquerade_rule(name@, grant@, source));
}

/// Grants stand by route.
pub open spec fn ordered(list: Seq<GrantFacts>) -> bool {
    forall|i: int, j: int|
        0 <= i < j < list.len() ==> text_le(
            (#[trigger] list[i]).route_id,
            (#[trigger] list[j]).route_id,
        )
}

proof fn lemma_place_parts(list: Seq<GrantFacts>, route_id: Seq<char>)
    requires
        ordered(list),
    ensures
        0 <= place(list, route_id) <= list.len(),
        forall|i: int|
            0 <= i < place(list, route_id) ==> text_le((#[trigger] list[i]).route_id, route_id),
        forall|i: int|
            place(list, route_id) <= i < list.len() ==> text_le(
                route_id,
                (#[trigger] list[i]).route_id,
            ),
    decreases list.len(),
{
    if list.len() > 0 {
        let n = list.len() - 1;
        if text_le(list.last().route_id, route_id) {
            assert forall|i: int| 0 <= i < list.len() implies text_le(
                (#[trigger] list[i]).route_id,
                route_id,
            ) by {
                if i < n {
                    text_order_is_transitive(list[i].route_id, list[n].route_id, route_id);
                }
            }
        } else {
            let init = list.drop_last();
            assert(ordered(init)) by {
                assert forall|i: int, j: int| 0 <= i < j < init.len() implies text_le(
                    (#[trigger] init[i]).route_id,
                    (#[trigger] init[j]).route_id,
                ) by {
                    assert(text_le(list[i].route_id, list[j].route_id));
                }
            }
            lemma_place_parts(init, route_id);
            text_order_is_total(list.last().route_id, route_id);
            assert forall|i: int| 0 <= i < place(list, route_id) implies text_le(
                (#[trigger] list[i]).route_id,
                route_id,
            ) by {
                assert(init[i] == list[i]);
            }
            assert forall|i: int| place(list, route_id) <= i < list.len() implies text_le(
                route_id,
                (#[trigger] list[i]).route_id,
            ) by {
                if i < n {
                    assert(init[i] == list[i]);
                }
            }
        }
    }
}

/// The rules come out in one order, whatever order the offers arrive in: by
/// route.
pub proof fn grants_stand_by_route(grants: Seq<GrantFacts>)
    ensures
        ordered(by_route(grants)),
    decreases grants.len(),
{
    if grants.len() > 0 {
        let init = by_route(grants.drop_last());
        let new = grants.last();
        grants_stand_by_route(grants.drop_last());
        lemma_place_parts(init, new.route_id);
        let at = place(init, new.route_id);
        let all = by_route(grants);
        assert forall|i: int, j: int| 0 <= i < j < all.len() implies text_le(
            (#[trigger] all[i]).route_id,
            (#[trigger] all[j]).route_id,
        ) by {
            if i < at && j > at {
                assert(text_le(init[i].route_id, init[j - 1].route_id));
            } else if i < at && j < at {
                assert(text_le(init[i].route_id, init[j].route_id));
            } else if i > at {
                assert(text_le(init[i - 1].route_id, init[j - 1].route_id));
            } else if i == at {
                assert(all[j] == init[j - 1]);
            } else {
                assert(all[i] == init[i]);
            }
        }
    }
}

/// Ordering neither loses nor adds a grant.
pub proof fn ordering_keeps_every_grant(grants: Seq<GrantFacts>)
    ensures
        by_route(grants).to_multiset() == grants.to_multiset(),
    decreases grants.len(),
{
    broadcast use vstd::seq_lib::group_to_multiset_ensures;

    if grants.len() > 0 {
        let init = by_route(grants.drop_last());
        let new = grants.last();
        ordering_keeps_every_grant(grants.drop_last());
        lemma_place(init, new.route_id);
        let at = place(init, new.route_id);
        let all = by_route(grants);
        assert(all.remove(at) =~= init);
        assert(all[at] == new);
        assert(all.contains(new));
        assert(all.to_multiset() =~= init.to_multiset().insert(new));
        assert(grants.drop_last().push(new) =~= grants);
    } else {
        assert(by_route(grants) =~= grants);
    }
}

/// Only gateway offers become grants, each with a source of its own family.
pub proof fn only_gateway_offers_are_granted(
    offers: Seq<Offer>,
    addresses: Seq<InterfaceAddress>,
    i: int,
)
    requires
        0 <= i < granted(offers, addresses).len(),
    ensures
        granted(offers, addresses)[i].sources.len() > 0,
        exists|k: int|
            0 <= k < offers.len() && (#[trigger] offers[k]).role is Gateway && granted(
                offers,
                addresses,
            )[i] == (GrantFacts {
                route_id: offers[k].route_id@,
                destination: offers[k].prefix,
                sources: sources_for(addresses, offers[k].prefix.base is V4),
                masquerade: offers[k].masquerade,
            }),
    decreases offers.len(),
{
    if offers.len() > 0 {
        let before = granted(offers.drop_last(), addresses);
        if i < before.len() {
            only_gateway_offers_are_granted(offers.drop_last(), addresses, i);
            let k = choose|k: int|
                0 <= k < offers.drop_last().len() && (#[trigger] offers.drop_last()[k]).role is Gateway
                    && before[i] == (GrantFacts {
                    route_id: offers.drop_last()[k].route_id@,
                    destination: offers.drop_last()[k].prefix,
                    sources: sources_for(addresses, offers.drop_last()[k].prefix.base is V4),
                    masquerade: offers.drop_last()[k].masquerade,
                });
            assert(offers[k] == offers.drop_last()[k]);
        } else {
            assert(offers[offers.len() - 1] == offers.last());
        }
    }
}

/// What a run of commands is for.
#[derive(Clone, Copy, Debug, PartialEq, Eq, Structural)]
pub enum Task {
    /// Bringing the host in line with a set of grants.
    Reconcile,
    /// Taking everything down.
    Clear,
    /// Taking everything down after a failure, which `error` holds.
    Cleanup,
}

/// Where a run of commands stands.
#[derive(Clone, Copy, Debug, PartialEq, Eq, Structural)]
pub enum Phase {
    /// The last run succeeded, or there was none.
    Done,
    /// The last run failed; `error` says why.
    Failed,
    /// Asking whether the `nft` program works at all.
    Checking,
    /// Creating the table.
    AddingTable,
    /// Asking whether the host forwards already.
    Reading(Family),
    /// Turning forwarding on.
    Enabling(Family),
    /// Replacing the rules.
    Loading,
    /// After a successful load: giving back what no grant needs any more.
    Settling(Family),
    /// After a failed load: giving back what was turned on.
    Undoing(Family),
    /// Deleting the table.
    Deleting,
    /// After the table is gone: giving back what was turned on.
    Restoring(Family),
}

/// How a command ended.
#[derive(Debug)]
pub enum Reply {
    /// It succeeded, with this output.
    Success(String),
    /// It failed, with this message.
    Failure(String),
}

/// How a command ended, as a value.
pub enum Ending {
    Success(Seq<char>),
    Failure(Seq<char>),
}

impl View for Reply {
    type V = Ending;

    open spec fn view(&self) -> Ending {
        match self {
            Reply::Success(s) => Ending::Success(s@),
            Reply::Failure(s) => Ending::Failure(s@),
        }
    }
}

/// Something for the caller to do.
#[derive(Debug)]
pub enum Command {
    /// Run `nft` with these arguments, and perhaps this input.
    Nft { args: Vec<String>, input: Option<String> },
    /// Read a file.
    Read { path: String },
    /// Write a file.
    Write { path: String, value: String },
}

/// Something for the caller to do, as a value.
#[verifier::ext_equal]
pub enum Order {
    Nft { args: Seq<Seq<char>>, input: Option<Seq<char>> },
    Read { path: Seq<char> },
    Write { path: Seq<char>, value: Seq<char> },
}

impl View for Command {
    type V = Order;

    open spec fn view(&self) -> Order {
        match self {
            Command::Nft { args, input } => Order::Nft {
                args: texts(args@),
                input: match input {
                    Some(s) => Some(s@),
                    None => None,
                },
            },
            Command::Read { path } => Order::Read { path: path@ },
            Command::Write { path, value } => Order::Write { path: path@, value: value@ },
        }
    }
}

/// The forwarding switch of a family.
pub open spec fn switch(family: Family) -> Seq<char> {
    match family {
        Family::V4 => "/proc/sys/net/ipv4/ip_forward"@,
        Family::V6 => "/proc/sys/net/ipv6/conf/all/forwarding"@,
    }
}

/// Owns the host state required by this node's current gateway offers: the
/// table, and the forwarding switches that it, and nobody else, turned on.
#[derive(Debug)]
pub struct Manager {
    pub table: bool,
    pub changed_v4: bool,
    pub changed_v6: bool,
    pub wants_v4: bool,
    pub wants_v6: bool,
    /// What the table is to hold: the batch of the grants of this run.
    pub batch: String,
    pub task: Task,
    pub phase: Phase,
    pub error: Option<String>,
}

/// The manager as a value.
#[verifier::ext_equal]
pub struct Forwarding {
    pub table: bool,
    pub changed_v4: bool,
    pub changed_v6: bool,
    pub wants_v4: bool,
    pub wants_v6: bool,
    pub batch: Seq<char>,
    pub task: Task,
    pub phase: Phase,
    pub error: Option<Seq<char>>,
}

impl View for Manager {
    type V = Forwarding;

    open spec fn view(&self) -> Forwarding {
        Forwarding {
            table: self.table,
            changed_v4: self.changed_v4,
            changed_v6: self.changed_v6,
            wants_v4: self.wants_v4,
            wants_v6: self.wants_v6,
            batch: self.batch@,
            task: self.task,
            phase: self.phase,
            error: match self.error {
                Some(e) => Some(e@),
                None => None,
            },
        }
    }
}

impl Forwarding {
    /// No run is under way.
    pub open spec fn idle(self) -> bool {
        self.phase is Done || self.phase is Failed
    }

    /// Whether the switch of a family was turned on from here.
    pub open spec fn changed(self, family: Family) -> bool {
        match family {
            Family::V4 => self.changed_v4,
            Family::V6 => self.changed_v6,
        }
    }

    pub open spec fn with_changed(self, family: Family, value: bool) -> Forwarding {
        match family {
            Family::V4 => Forwarding { changed_v4: value, ..self },
            Family::V6 => Forwarding { changed_v6: value, ..self },
        }
    }

    /// The next switch to look at before the rules are loaded.
    pub open spec fn enabling(self, from: Family) -> Forwarding {
        Forwarding {
            phase: if from is V4 && self.wants_v4 && !self.changed_v4 {
                Phase::Reading(Family::V4)
            } else if self.wants_v6 && !self.changed_v6 {
                Phase::Reading(Family::V6)
            } else {
                Phase::Loading
            },
            ..self
        }
    }

    /// The next switch that no grant needs any more.
    pub open spec fn settling(self, from: Family) -> Forwarding {
        Forwarding {
            phase: if from is V4 && !self.wants_v4 && self.changed_v4 {
                Phase::Settling(Family::V4)
            } else if !self.wants_v6 && self.changed_v6 {
                Phase::Settling(Family::V6)
            } else {
                Phase::Done
            },
            ..self
        }
    }

    /// The next switch to give back after a failed load; everything is then
    /// taken down.
    pub open spec fn undoing(self, from: Family) -> Forwarding {
        if from is V4 && self.changed_v4 {
            Forwarding { phase: Phase::Undoing(Family::V4), ..self }
        } else if self.changed_v6 {
            Forwarding { phase: Phase::Undoing(Family::V6), ..self }
        } else {
            self.clearing()
        }
    }

    /// The next switch to give back once the table is gone.
    pub open spec fn restoring(self, from: Family) -> Forwarding {
        Forwarding {
            phase: if from is V4 && self.changed_v4 {
                Phase::Restoring(Family::V4)
            } else if self.changed_v6 {
                Phase::Restoring(Family::V6)
            } else if self.error is Some {
                Phase::Failed
            } else {
                Phase::Done
            },
            ..self
        }
    }

    /// Taking everything down.
    pub open spec fn clearing(self) -> Forwarding {
        if self.table {
            Forwarding { phase: Phase::Deleting, ..self }
        } else {
            self.restoring(Family::V4)
        }
    }

    /// A command failed for good. Keeping a previous grant after an
    /// authorization-changing netmap would be worse than keeping none, so a
    /// failed reconciliation takes everything down.
    pub open spec fn failed(self, error: Seq<char>) -> Forwarding {
        match self.task {
            Task::Reconcile => Forwarding {
                task: Task::Cleanup,
                error: Some(error),
                ..self
            }.clearing(),
            Task::Clear => Forwarding { phase: Phase::Failed, error: Some(error), ..self },
            Task::Cleanup => Forwarding {
                phase: Phase::Failed,
                error: Some(self.error->0 + "; stale-state cleanup also failed: "@ + error),
                ..self
            },
        }
    }

    /// A run towards a set of grants begins.
    pub open spec fn reconciled(
        self,
        empty: bool,
        ipv4: bool,
        ipv6: bool,
        batch: Seq<char>,
    ) -> Forwarding {
        let start = Forwarding {
            wants_v4: ipv4,
            wants_v6: ipv6,
            batch,
            task: Task::Reconcile,
            error: None,
            ..self
        };
        if empty {
            start.clearing()
        } else {
            Forwarding { phase: Phase::Checking, ..start }
        }
    }

    /// A run towards nothing begins.
    pub open spec fn cleared(self) -> Forwarding {
        Forwarding { task: Task::Clear, error: None, ..self }.clearing()
    }

    /// The command that is due.
    pub open spec fn due(self) -> Option<Order> {
        match self.phase {
            Phase::Done | Phase::Failed => None,
            Phase::Checking => Some(Order::Nft { args: seq!["--version"@], input: None }),
            Phase::AddingTable => Some(
                Order::Nft { args: seq!["add"@, "table"@, "inet"@, TABLE@], input: None },
            ),
            Phase::Reading(family) => Some(Order::Read { path: switch(family) }),
            Phase::Enabling(family) => Some(
                Order::Write { path: switch(family), value: "1\n"@ },
            ),
            Phase::Loading => Some(
                Order::Nft { args: seq!["-f"@, "-"@], input: Some(self.batch) },
            ),
            Phase::Settling(family) | Phase::Undoing(family) | Phase::Restoring(family) => Some(
                Order::Write { path: switch(family), value: "0\n"@ },
            ),
            Phase::Deleting => Some(
                Order::Nft { args: seq!["delete"@, "table"@, "inet"@, TABLE@], input: None },
            ),
        }
    }

    /// What follows when the due command ends.
    pub open spec fn step(self, ending: Ending) -> Forwarding {
        match self.phase {
            Phase::Done | Phase::Failed => self,
            Phase::Checking => match ending {
                Ending::Success(_) => if self.table {
                    self.enabling(Family::V4)
                } else {
                    Forwarding { phase: Phase::AddingTable, ..self }
                },
                Ending::Failure(e) => self.failed(e),
            },
            Phase::AddingTable => match ending {
                Ending::Failure(e) if !has_text(e, "File exists"@) => self.failed(e),
                _ => Forwarding { table: true, ..self }.enabling(Family::V4),
            },
            Phase::Reading(family) => match ending {
                Ending::Success(text) => if trimmed(text) == "1"@ {
                    self.past(family)
                } else {
                    Forwarding { phase: Phase::Enabling(family), ..self }
                },
                Ending::Failure(e) => self.failed(e),
            },
            Phase::Enabling(family) => match ending {
                Ending::Success(_) => self.with_changed(family, true).past(family),
                Ending::Failure(e) => self.failed(e),
            },
            Phase::Loading => match ending {
                Ending::Success(_) => self.settling(Family::V4),
                Ending::Failure(e) => Forwarding {
                    task: Task::Cleanup,
                    error: Some(e),
                    ..self
                }.undoing(Family::V4),
            },
            Phase::Settling(family) => {
                let s = self.given_back(family, ending);
                if family is V4 {
                    s.settling(Family::V6)
                } else {
                    Forwarding { phase: Phase::Done, ..s }
                }
            },
            Phase::Undoing(family) => {
                let s = self.given_back(family, ending);
                if family is V4 {
                    s.undoing(Family::V6)
                } else {
                    s.clearing()
                }
            },
            Phase::Deleting => match ending {
                Ending::Failure(e) if !has_text(e, "No such file"@) => self.failed(e),
                _ => Forwarding { table: false, ..self }.restoring(Family::V4),
            },
            Phase::Restoring(family) => {
                let s = self.given_back(family, ending);
                if family is V4 {
                    s.restoring(Family::V6)
                } else {
                    Forwarding {
                        phase: if s.error is Some {
                            Phase::Failed
                        } else {
                            Phase::Done
                        },
                        ..s
                    }
                }
            },
        }
    }

    /// The switch of `family` is on.
    pub open spec fn past(self, family: Family) -> Forwarding {
        if family is V4 {
            self.enabling(Family::V6)
        } else {
            Forwarding { phase: Phase::Loading, ..self }
        }
    }

    /// A switch was given back; one that could not be stays on the books.
    pub open spec fn given_back(self, family: Family, ending: Ending) -> Forwarding {
        match ending {
            Ending::Success(_) => self.with_changed(family, false),
            Ending::Failure(_) => self,
        }
    }

    /// Only what was turned on from here is ever given back, rules are only
    /// loaded into an existing table, and switches go back only once the
    /// table is gone.
    pub open spec fn valid(self) -> bool {
        &&& match self.phase {
            Phase::Settling(family) | Phase::Undoing(family) => self.changed(family),
            Phase::Restoring(family) => self.changed(family) && !self.table,
            Phase::Loading => self.table,
            Phase::Reading(family) | Phase::Enabling(family) => self.table && !self.changed(
                family,
            ),
            Phase::Deleting => self.table,
            Phase::AddingTable => !self.table,
            Phase::Failed => self.error is Some,
            _ => true,
        }
        &&& self.task is Cleanup ==> self.error is Some
        &&& match self.phase {
            Phase::Done | Phase::Failed | Phase::Deleting | Phase::Restoring(_) => true,
            Phase::Undoing(_) => self.task is Cleanup,
            _ => self.task is Reconcile && self.error is None,
        }
        &&& self.task is Reconcile ==> self.error is None
    }
}

/// Every step keeps the state valid.
pub proof fn a_step_keeps_forwarding_valid(s: Forwarding, ending: Ending)
    requires
        s.valid(),
    ensures
        s.step(ending).valid(),
{
}

/// Every run starts from a valid state.
pub proof fn a_run_starts_valid(
    s: Forwarding,
    empty: bool,
    ipv4: bool,
    ipv6: bool,
    batch: Seq<char>,
)
    requires
        s.valid(),
        s.idle(),
    ensures
        s.reconciled(empty, ipv4, ipv6, batch).valid(),
        s.cleared().valid(),
{
}

/// A switch counts as this node's own only where it had been read as off and
/// was turned on from here.
pub proof fn only_its_own_changes_are_owned(s: Forwarding, family: Family, ending: Ending)
    requires
        s.valid(),
        !s.changed(family),
        s.step(ending).changed(family),
    ensures
        s.phase == Phase::Enabling(family),
        ending is Success,
{
}

/// Turning a switch on follows a reading that was not "1".
pub proof fn a_switch_that_is_on_is_left_alone(s: Forwarding, family: Family, ending: Ending)
    requires
        s.valid(),
        s.phase != Phase::Enabling(family),
        s.step(ending).phase == Phase::Enabling(family),
    ensures
        s.phase == Phase::Reading(family),
        ending matches Ending::Success(text) && trimmed(text) != "1"@,
{
}

/// Whatever is written off is a switch that was turned on from here.
pub proof fn pre_existing_forwarding_is_preserved(s: Forwarding, family: Family)
    requires
        s.valid(),
        s.due() == Some(Order::Write { path: switch(family), value: "0\n"@ }),
    ensures
        s.changed(family),
{
    reveal_strlit("/proc/sys/net/ipv4/ip_forward");
    reveal_strlit("/proc/sys/net/ipv6/conf/all/forwarding");
    reveal_strlit("0\n");
    reveal_strlit("1\n");
    assert(switch(Family::V4).len() != switch(Family::V6).len());
    assert("0\n"@[0] != "1\n"@[0]);
}

/// The rules that are loaded are those of the run's own grants: no step changes
/// them, and nothing else is ever handed to `nft` as input.
pub proof fn only_the_granted_rules_are_loaded(s: Forwarding, ending: Ending)
    requires
        s.valid(),
    ensures
        s.step(ending).batch == s.batch,
        s.due() matches Some(Order::Nft { input: Some(text), .. }) ==> text == s.batch,
{
}

/// A run that fails leaves no table behind, and so no grant, unless deleting
/// the table was itself what failed.
pub proof fn a_failed_run_keeps_no_grant(s: Forwarding, ending: Ending)
    requires
        s.valid(),
        !s.idle(),
        s.step(ending).phase is Failed,
    ensures
        s.step(ending).table ==> s.phase is Deleting,
{
}

/// A run of commands always ends: each step gets nearer to the end.
pub proof fn a_run_ends(s: Forwarding, ending: Ending)
    requires
        s.valid(),
        !s.idle(),
    ensures
        s.step(ending).distance() < s.distance(),
{
}

impl Forwarding {
    /// A bound on the number of commands that are left.
    pub open spec fn distance(self) -> nat {
        match self.phase {
            Phase::Done | Phase::Failed => 0,
            Phase::Restoring(Family::V6) => 1,
            Phase::Restoring(Family::V4) => 2,
            Phase::Deleting => if self.task is Reconcile {
                4
            } else {
                3
            },
            Phase::Settling(Family::V6) | Phase::Undoing(Family::V6) => 5,
            Phase::Settling(Family::V4) | Phase::Undoing(Family::V4) => 6,
            Phase::Loading => 7,
            Phase::Enabling(Family::V6) => 8,
            Phase::Reading(Family::V6) => 9,
            Phase::Enabling(Family::V4) => 10,
            Phase::Reading(Family::V4) => 11,
            Phase::AddingTable => 12,
            Phase::Checking => 13,
        }
    }
}

fn switch_path(family: Family) -> (s: &'static str)
    ensures
        s@ == switch(family),
{
    match family {
        Family::V4 => "/proc/sys/net/ipv4/ip_forward",
        Family::V6 => "/proc/sys/net/ipv6/conf/all/forwarding",
    }
}

fn nft_table(verb: &str) -> (args: Vec<String>)
    ensures
        texts(args@) == seq![verb@, "table"@, "inet"@, TABLE@],
{
    let mut args: Vec<String> = Vec::new();
    args.push(String::from_str(verb));
    args.push(String::from_str("table"));
    args.push(String::from_str("inet"));
    args.push(String::from_str(TABLE));
    assert(texts(args@) =~= seq![verb@, "table"@, "inet"@, TABLE@]);
    args
}

impl Default for Manager {
    /// Nothing on the host is ours.
    fn default() -> (m: Manager)
        ensures
            m@ == (Forwarding {
                table: false,
                changed_v4: false,
                changed_v6: false,
                wants_v4: false,
                wants_v6: false,
                batch: seq![],
                task: Task::Clear,
                phase: Phase::Done,
                error: None,
            }),
            m@.valid(),
    {
        let m = Manager {
            table: false,
            changed_v4: false,
            changed_v6: false,
            wants_v4: false,
            wants_v6: false,
            batch: String::new(),
            task: Task::Clear,
            phase: Phase::Done,
            error: None,
        };
        assert(m.batch@ =~= seq![]);
        m
    }
}

impl Manager {
    /// Begins to bring the host in line with the grants, for what arrives on
    /// `interface`.
    pub fn reconcile(&mut self, rules: &Ruleset, interface: &str)
        requires
            old(self)@.valid(),
            old(self)@.idle(),
        ensures
            final(self)@ == old(self)@.reconciled(
                rules.grants@.len() == 0,
                rules.ipv4,
                rules.ipv6,
                batch_text(interface@, facts(rules.grants@)),
            ),
            final(self)@.valid(),
    {
        proof {
            a_run_starts_valid(
                self@,
                rules.grants@.len() == 0,
                rules.ipv4,
                rules.ipv6,
                batch_text(interface@, facts(rules.grants@)),
            );
        }
        self.batch = rules.nft_batch(interface);
        self.wants_v4 = rules.ipv4;
        self.wants_v6 = rules.ipv6;
        self.task = Task::Reconcile;
        self.error = None;
        if rules.is_empty() {
            self.begin_clearing();
        } else {
            self.phase = Phase::Checking;
        }
    }

    /// Begins to take everything down.
    pub fn clear(&mut self)
        requires
            old(self)@.valid(),
            old(self)@.idle(),
        ensures
            final(self)@ == old(self)@.cleared(),
            final(self)@.valid(),
    {
        proof {
            a_run_starts_valid(self@, true, false, false, seq![]);
        }
        self.task = Task::Clear;
        self.error = None;
        self.begin_clearing();
    }

    /// Whether the table stands.
    pub fn active(&self) -> (r: bool)
        ensures
            r == self@.table,
    {
        self.table
    }

    /// Why the last run failed, if it did.
    pub fn failure(&self) -> (r: Option<String>)
        ensures
            match r {
                Some(s) => self@.phase is Failed && self@.error == Some(s@),
                None => !(self@.phase is Failed && self@.error is Some),
            },
    {
        match self.phase {
            Phase::Failed => match &self.error {
                Some(e) => Some(e.clone()),
                None => None,
            },
            _ => None,
        }
    }

    /// The command that is due, if a run is under way.
    pub fn next(&self) -> (r: Option<Command>)
        ensures
            match r {
                Some(c) => self@.due() == Some(c@),
                None => self@.idle(),
            },
    {
        match self.phase {
            Phase::Done | Phase::Failed => None,
            Phase::Checking => {
                let mut args: Vec<String> = Vec::new();
                args.push(String::from_str("--version"));
                assert(texts(args@) =~= seq!["--version"@]);
                Some(Command::Nft { args, input: None })
            },
            Phase::AddingTable => Some(Command::Nft { args: nft_table("add"), input: None }),
            Phase::Reading(family) => Some(
                Command::Read { path: String::from_str(switch_path(family)) },
            ),
            Phase::Enabling(family) => Some(
                Command::Write {
                    path: String::from_str(switch_path(family)),
                    value: String::from_str("1\n"),
                },
            ),
            Phase::Loading => {
                let mut args: Vec<String> = Vec::new();
                args.push(String::from_str("-f"));
                args.push(String::from_str("-"));
                assert(texts(args@) =~= seq!["-f"@, "-"@]);
                Some(Command::Nft { args, input: Some(self.batch.clone()) })
            },
            Phase::Settling(family) | Phase::Undoing(family) | Phase::Restoring(family) => Some(
                Command::Write {
                    path: String::from_str(switch_path(family)),
                    value: String::from_str("0\n"),
                },
            ),
            Phase::Deleting => Some(Command::Nft { args: nft_table("delete"), input: None }),
        }
    }

    /// Takes the ending of the due command.
    pub fn report(&mut self, reply: Reply)
        requires
            old(self)@.valid(),
        ensures
            final(self)@ == old(self)@.step(reply@),
            final(self)@.valid(),
    {
        proof {
            a_step_keeps_forwarding_valid(self@, reply@);
        }
        match self.phase {
            Phase::Done | Phase::Failed => {},
            Phase::Checking => match reply {
                Reply::Success(_) => {
                    if self.table {
                        self.begin_enabling(Family::V4);
                    } else {
                        self.phase = Phase::AddingTable;
                    }
                },
                Reply::Failure(e) => self.fail(e),
            },
            Phase::AddingTable => {
                match reply {
                    Reply::Failure(e) => {
                        if !mentions(e.as_str(), "File exists") {
                            self.fail(e);
                            return;
                        }
                    },
                    Reply::Success(_) => {},
                }
                self.table = true;
                self.begin_enabling(Family::V4);
            },
            Phase::Reading(family) => match reply {
                Reply::Success(text) => {
                    let value = trim(text.as_str());
                    if same(value.as_str(), "1") {
                        self.pass(family);
                    } else {
                        self.phase = Phase::Enabling(family);
                    }
                },
                Reply::Failure(e) => self.fail(e),
            },
            Phase::Enabling(family) => match reply {
                Reply::Success(_) => {
                    self.mark(family, true);
                    self.pass(family);
                },
                Reply::Failure(e) => self.fail(e),
            },
            Phase::Loading => match reply {
                Reply::Success(_) => self.begin_settling(Family::V4),
                Reply::Failure(e) => {
                    self.task = Task::Cleanup;
                    self.error = Some(e);
                    self.begin_undoing(Family::V4);
                },
            },
            Phase::Settling(family) => {
                self.give_back(family, reply);
                if family == Family::V4 {
                    self.begin_settling(Family::V6);
                } else {
                    self.phase = Phase::Done;
                }
            },
            Phase::Undoing(family) => {
                self.give_back(family, reply);
                if family == Family::V4 {
                    self.begin_undoing(Family::V6);
                } else {
                    self.begin_clearing();
                }
            },
            Phase::Deleting => {
                match reply {
                    Reply::Failure(e) => {
                        if !mentions(e.as_str(), "No such file") {
                            self.fail(e);
                            return;
                        }
                    },
                    Reply::Success(_) => {},
                }
                self.table = false;
                self.begin_restoring(Family::V4);
            },
            Phase::Restoring(family) => {
                self.give_back(family, reply);
                if family == Family::V4 {
                    self.begin_restoring(Family::V6);
                } else if self.error.is_some() {
                    self.phase = Phase::Failed;
                } else {
                    self.phase = Phase::Done;
                }
            },
        }
    }

    fn mark(&mut self, family: Family, value: bool)
        ensures
            final(self)@ == old(self)@.with_changed(family, value),
    {
        match family {
            Family::V4 => {
                self.changed_v4 = value;
            },
            Family::V6 => {
                self.changed_v6 = value;
            },
        }
    }

    fn give_back(&mut self, family: Family, reply: Reply)
        ensures
            final(self)@ == old(self)@.given_back(family, reply@),
    {
        match reply {
            Reply::Success(_) => self.mark(family, false),
            Reply::Failure(_) => {},
        }
    }

    fn pass(&mut self, family: Family)
        ensures
            final(self)@ == old(self)@.past(family),
    {
        if family == Family::V4 {
            self.begin_enabling(Family::V6);
        } else {
            self.phase = Phase::Loading;
        }
    }

    fn begin_enabling(&mut self, from: Family)
        ensures
            final(self)@ == old(self)@.enabling(from),
    {
        self.phase = if from == Family::V4 && self.wants_v4 && !self.changed_v4 {
            Phase::Reading(Family::V4)
        } else if self.wants_v6 && !self.changed_v6 {
            Phase::Reading(Family::V6)
        } else {
            Phase::Loading
        };
    }

    fn begin_settling(&mut self, from: Family)
        ensures
            final(self)@ == old(self)@.settling(from),
    {
        self.phase = if from == Family::V4 && !self.wants_v4 && self.changed_v4 {
            Phase::Settling(Family::V4)
        } else if !self.wants_v6 && self.changed_v6 {
            Phase::Settling(Family::V6)
        } else {
            Phase::Done
        };
    }

    fn begin_undoing(&mut self, from: Family)
        ensures
            final(self)@ == old(self)@.undoing(from),
    {
        if from == Family::V4 && self.changed_v4 {
            self.phase = Phase::Undoing(Family::V4);
        } else if self.changed_v6 {
            self.phase = Phase::Undoing(Family::V6);
        } else {
            self.begin_clearing();
        }
    }

    fn begin_restoring(&mut self, from: Family)
        ensures
            final(self)@ == old(self)@.restoring(from),
    {
        self.phase = if from == Family::V4 && self.changed_v4 {
            Phase::Restoring(Family::V4)
        } else if self.changed_v6 {
            Phase::Restoring(Family::V6)
        } else if self.error.is_some() {
            Phase::Failed
        } else {
            Phase::Done
        };
    }

    fn begin_clearing(&mut self)
        ensures
            final(self)@ == old(self)@.clearing(),
    {
        if self.table {
            self.phase = Phase::Deleting;
        } else {
            self.begin_restoring(Family::V4);
        }
    }

    fn fail(&mut self, error: String)
        requires
            old(self)@.task is Cleanup ==> old(self)@.error is Some,
        ensures
            final(self)@ == old(self)@.failed(error@),
    {
        match self.task {
            Task::Reconcile => {
                self.task = Task::Cleanup;
                self.error = Some(error);
                self.begin_clearing();
            },
            Task::Clear => {
                self.phase = Phase::Failed;
                self.error = Some(error);
            },
            Task::Cleanup => {
                let first = match &self.error {
                    Some(e) => e.clone(),
                    None => String::new(),
                };
                let mut message = first;
                message.append("; stale-state cleanup also failed: ");
                message.append(error.as_str());
                self.phase = Phase::Failed;
                self.error = Some(message);
            },
        }
    }
}

proof fn lemma_sources(addresses: Seq<InterfaceAddress>, v4: bool, p: Prefix)
    ensures
        sources_for(addresses, v4).contains(p) <==> exists|k: int|
            0 <= k < addresses.len() && (#[trigger] addresses[k]).on_link() == p && p.base is V4
                == v4,
        sources_for(addresses, v4).len() == addresses.filter(
            |a: InterfaceAddress| a.on_link().base is V4 == v4,
        ).len(),
    decreases addresses.len(),
{
    reveal(Seq::filter);
    if addresses.len() > 0 {
        let init = addresses.drop_last();
        lemma_sources(init, v4, p);
        let before = sources_for(init, v4);
        let all = sources_for(addresses, v4);
        if all.contains(p) {
            let k = choose|k: int| 0 <= k < all.len() && all[k] == p;
            if k < before.len() {
                assert(before[k] == p);
                let n = choose|n: int|
                    0 <= n < init.len() && (#[trigger] init[n]).on_link() == p && p.base is V4
                        == v4;
                assert(addresses[n] == init[n]);
            } else {
                assert(addresses[addresses.len() - 1].on_link() == p);
            }
        }
        if exists|k: int|
            0 <= k < addresses.len() && (#[trigger] addresses[k]).on_link() == p && p.base is V4
                == v4 {
            let k = choose|k: int|
                0 <= k < addresses.len() && (#[trigger] addresses[k]).on_link() == p && p.base is V4
                    == v4;
            if k < init.len() {
                assert(init[k] == addresses[k]);
                let n = choose|n: int| 0 <= n < before.len() && before[n] == p;
                assert(all[n] == p);
            } else {
                assert(all[all.len() - 1] == p);
            }
        }
    }
}

/// Whether a grant is for an offer: what the offer says, for the networks of our
/// own that are of the same family as the route.
pub open spec fn is_grant_of(g: GrantFacts, offer: Offer, addresses: Seq<InterfaceAddress>) -> bool {
    &&& g.route_id == offer.route_id@
    &&& g.destination == offer.prefix
    &&& g.masquerade == offer.masquerade
    &&& forall|p: Prefix| #[trigger]
        g.sources.contains(p) <==> exists|k: int|
            0 <= k < addresses.len() && (#[trigger] addresses[k]).on_link() == p && (p.base is V4
                <==> offer.prefix.base is V4)
}

/// Whether an offer is to be granted: it makes us the gateway, and we have an
/// address of the route's family.
pub open spec fn is_to_grant(offer: Offer, addresses: Seq<InterfaceAddress>) -> bool {
    offer.role is Gateway && exists|k: int|
        0 <= k < addresses.len() && ((#[trigger] addresses[k]).on_link().base is V4
            <==> offer.prefix.base is V4)
}

proof fn lemma_granted(offers: Seq<Offer>, addresses: Seq<InterfaceAddress>)
    ensures
        granted(offers, addresses).len() == offers.filter(
            |o: Offer| is_to_grant(o, addresses),
        ).len(),
        forall|i: int|
            0 <= i < granted(offers, addresses).len() ==> exists|k: int|
                0 <= k < offers.len() && is_to_grant(#[trigger] offers[k], addresses)
                    && is_grant_of(#[trigger] granted(offers, addresses)[i], offers[k], addresses),
        forall|k: int|
            0 <= k < offers.len() && is_to_grant(#[trigger] offers[k], addresses) ==> exists|i: int|
                0 <= i < granted(offers, addresses).len() && is_grant_of(
                    #[trigger] granted(offers, addresses)[i],
                    offers[k],
                    addresses,
                ),
    decreases offers.len(),
{
    reveal(Seq::filter);
    if offers.len() > 0 {
        let init = offers.drop_last();
        lemma_granted(init, addresses);
        let before = granted(init, addresses);
        let all = granted(offers, addresses);
        let offer = offers.last();
        let sources = sources_for(addresses, offer.prefix.base is V4);
        assert forall|p: Prefix| #[trigger] sources.contains(p) <==> exists|k: int|
            0 <= k < addresses.len() && (#[trigger] addresses[k]).on_link() == p && (p.base is V4
                <==> offer.prefix.base is V4) by {
            lemma_sources(addresses, offer.prefix.base is V4, p);
        }
        assert(sources.len() > 0 <==> exists|k: int|
            0 <= k < addresses.len() && ((#[trigger] addresses[k]).on_link().base is V4
                <==> offer.prefix.base is V4)) by {
            if sources.len() > 0 {
                assert(sources.contains(sources[0]));
            }
            if exists|k: int|
                0 <= k < addresses.len() && ((#[trigger] addresses[k]).on_link().base is V4
                    <==> offer.prefix.base is V4) {
                let k = choose|k: int|
                    0 <= k < addresses.len() && ((#[trigger] addresses[k]).on_link().base is V4
                        <==> offer.prefix.base is V4);
                assert(sources.contains(addresses[k].on_link()));
            }
        }
        assert forall|i: int| 0 <= i < all.len() implies exists|k: int|
            0 <= k < offers.len() && is_to_grant(#[trigger] offers[k], addresses) && is_grant_of(
                #[trigger] all[i],
                offers[k],
                addresses,
            ) by {
            if i < before.len() {
                assert(all[i] == before[i]);
                let k = choose|k: int|
                    0 <= k < init.len() && is_to_grant(#[trigger] init[k], addresses)
                        && is_grant_of(before[i], init[k], addresses);
                assert(offers[k] == init[k]);
            } else {
                assert(is_grant_of(all[i], offers[offers.len() - 1], addresses));
            }
        }
        assert forall|k: int|
            0 <= k < offers.len() && is_to_grant(#[trigger] offers[k], addresses) implies exists|
            i: int,
        | 0 <= i < all.len() && is_grant_of(#[trigger] all[i], offers[k], addresses) by {
            if k < init.len() {
                assert(init[k] == offers[k]);
                let i = choose|i: int|
                    0 <= i < before.len() && is_grant_of(#[trigger] before[i], init[k], addresses);
                assert(all[i] == before[i]);
            } else {
                assert(is_grant_of(all[before.len() as int], offer, addresses));
            }
        }
    }
}

/// Whether some offer that is to be granted is granted by `g`.
pub open spec fn is_granted_by(
    offers: Seq<Offer>,
    addresses: Seq<InterfaceAddress>,
    g: GrantFacts,
) -> bool {
    exists|n: int|
        0 <= n < offers.len() && is_to_grant(#[trigger] offers[n], addresses) && is_grant_of(
            g,
            offers[n],
            addresses,
        )
}

/// Whether one of the grants is for the offer.
pub open spec fn is_among(grants: Seq<Grant>, offer: Offer, addresses: Seq<InterfaceAddress>) -> bool {
    exists|n: int|
        0 <= n < grants.len() && is_grant_of((#[trigger] grants[n])@, offer, addresses)
}

proof fn lemma_one_grant(offers: Seq<Offer>, addresses: Seq<InterfaceAddress>, g: GrantFacts)
    requires
        granted(offers, addresses).contains(g),
    ensures
        is_granted_by(offers, addresses, g),
{
    lemma_granted(offers, addresses);
    let all = granted(offers, addresses);
    let m = choose|m: int| 0 <= m < all.len() && all[m] == g;
    let n = choose|n: int|
        0 <= n < offers.len() && is_to_grant(#[trigger] offers[n], addresses) && is_grant_of(
            all[m],
            offers[n],
            addresses,
        );
    assert(is_to_grant(offers[n], addresses));
}

proof fn lemma_one_offer(offers: Seq<Offer>, addresses: Seq<InterfaceAddress>, k: int) -> (g:
    GrantFacts)
    requires
        0 <= k < offers.len(),
        is_to_grant(offers[k], addresses),
    ensures
        granted(offers, addresses).contains(g),
        is_grant_of(g, offers[k], addresses),
{
    lemma_granted(offers, addresses);
    let all = granted(offers, addresses);
    let m = choose|m: int|
        0 <= m < all.len() && is_grant_of(#[trigger] all[m], offers[k], addresses);
    all[m]
}

proof fn lemma_grant_count(offers: Seq<Offer>, addresses: Seq<InterfaceAddress>)
    ensures
        granted(offers, addresses).len() == offers.filter(
            |o: Offer| is_to_grant(o, addresses),
        ).len(),
{
    lemma_granted(offers, addresses);
}

proof fn lemma_reordered(grants: Seq<GrantFacts>)
    ensures
        by_route(grants).len() == grants.len(),
        forall|g: GrantFacts| #[trigger] by_route(grants).contains(g) <==> grants.contains(g),
{
    broadcast use vstd::seq_lib::group_to_multiset_ensures;

    let list = by_route(grants);
    ordering_keeps_every_grant(grants);
    assert(list.to_multiset().len() == list.len());
    assert(grants.to_multiset().len() == grants.len());
    assert forall|g: GrantFacts| #[trigger] list.contains(g) <==> grants.contains(g) by {
        assert(list.contains(g) <==> list.to_multiset().count(g) > 0);
        assert(grants.contains(g) <==> grants.to_multiset().count(g) > 0);
    }
}

proof fn lemma_families(grants: Seq<Grant>)
    ensures
        reaches(facts(grants), true) <==> exists|n: int|
            0 <= n < grants.len() && (#[trigger] grants[n]).destination.base is V4,
        reaches(facts(grants), false) <==> exists|n: int|
            0 <= n < grants.len() && (#[trigger] grants[n]).destination.base is V6,
{
    let list = facts(grants);
    assert forall|n: int| 0 <= n < list.len() implies (#[trigger] grants[n]).destination
        == list[n].destination by {
        assert(list[n] == grants[n]@);
    }
    if reaches(list, true) {
        let n = choose|n: int| 0 <= n < list.len() && (#[trigger] list[n]).destination.base is V4;
        assert(grants[n].destination.base is V4);
    }
    if reaches(list, false) {
        let n = choose|n: int| 0 <= n < list.len() && (#[trigger] list[n]).destination.base is V4
            == false;
        assert(grants[n].destination.base is V6);
    }
    if exists|n: int| 0 <= n < grants.len() && (#[trigger] grants[n]).destination.base is V4 {
        let n = choose|n: int|
            0 <= n < grants.len() && (#[trigger] grants[n]).destination.base is V4;
        assert(list[n].destination.base is V4);
    }
    if exists|n: int| 0 <= n < grants.len() && (#[trigger] grants[n]).destination.base is V6 {
        let n = choose|n: int|
            0 <= n < grants.len() && (#[trigger] grants[n]).destination.base is V6;
        assert(list[n].destination.base is V4 == false);
    }
}

/// Every offer that makes us the gateway is granted, for the networks of our own
/// of the route's family, if there are any; nothing else is. Grants stand in the
/// order of their routes' names.
pub proof fn every_gateway_offer_is_granted(
    offers: &Vec<Offer>,
    addresses: &Vec<InterfaceAddress>,
    r: Ruleset,
    i: int,
    j: int,
    k: int,
    none: bool,
)
    requires
        call_ensures(Ruleset::from_config, (offers, addresses), r),
        call_ensures(Ruleset::is_empty, (&r,), none),
    ensures
        r.grants@.len() == offers@.filter(|o: Offer| is_to_grant(o, addresses@)).len(),
        0 <= i < r.grants@.len() ==> is_granted_by(offers@, addresses@, r.grants@[i]@),
        0 <= k < offers@.len() && is_to_grant(offers@[k], addresses@) ==> is_among(
            r.grants@,
            offers@[k],
            addresses@,
        ),
        0 <= i < j < r.grants@.len() ==> text_le(
            r.grants@[i].route_id@,
            r.grants@[j].route_id@,
        ),
        r.ipv4 <==> exists|n: int|
            0 <= n < r.grants@.len() && (#[trigger] r.grants@[n]).destination.base is V4,
        r.ipv6 <==> exists|n: int|
            0 <= n < r.grants@.len() && (#[trigger] r.grants@[n]).destination.base is V6,
        none == (r.grants@.len() == 0),
{
    let all = granted(offers@, addresses@);
    let list = facts(r.grants@);
    lemma_grant_count(offers@, addresses@);
    lemma_reordered(all);
    grants_stand_by_route(all);
    if 0 <= i < list.len() {
        assert(list[i] == r.grants@[i]@);
        assert(list.contains(list[i]));
        lemma_one_grant(offers@, addresses@, list[i]);
    }
    if 0 <= k < offers@.len() && is_to_grant(offers@[k], addresses@) {
        let g = lemma_one_offer(offers@, addresses@, k);
        assert(list.contains(g));
        let n = choose|n: int| 0 <= n < list.len() && list[n] == g;
        assert(r.grants@[n]@ == g);
    }
    if 0 <= i < j < list.len() {
        assert(list[i] == r.grants@[i]@ && list[j] == r.grants@[j]@);
        assert(text_le(list[i].route_id, list[j].route_id));
    }
    lemma_families(r.grants@);
}

/// The text that turns the table into one without grants: replies to what went
/// out come back in, and nothing else from the interface is forwarded.
pub proof fn without_grants_only_replies_pass(
    r: Ruleset,
    interface: &str,
    s: String,
    name: String,
)
    requires
        r.grants@.len() == 0,
        call_ensures(Ruleset::nft_batch, (&r, interface), s),
        call_ensures(nft_string, (interface,), name),
    ensures
        s@ == "flush table inet karst_routes\n"@
            + "add chain inet karst_routes forward { type filter hook forward priority -10; policy accept; }\n"@
            + "add chain inet karst_routes postrouting { type nat hook postrouting priority srcnat; policy accept; }\n"@
            + ("add rule inet karst_routes forward oifname "@ + name@
            + " ct state established,related counter accept\n"@) + (
        "add rule inet karst_routes forward iifname "@ + name@ + " counter drop\n"@),
{
    assert(facts(r.grants@) =~= Seq::<GrantFacts>::empty());
    assert(rules_text(name@, facts(r.grants@)) =~= Seq::<char>::empty());
    let front = "flush table inet karst_routes\n"@
        + "add chain inet karst_routes forward { type filter hook forward priority -10; policy accept; }\n"@
        + "add chain inet karst_routes postrouting { type nat hook postrouting priority srcnat; policy accept; }\n"@;
    assert(front + Seq::<char>::empty() =~= front);
}

/// What one more source of the last grant adds to the text, and nothing else: a
/// rule that lets traffic from the source to the destination through, under the
/// route's name, and one that masquerades it if the grant says so. A grant
/// without sources adds nothing.
#[verifier::rlimit(50)]
#[verifier::spinoff_prover]
pub proof fn one_more_source_adds_its_rules(
    less: Ruleset,
    more: Ruleset,
    interface: &str,
    a: String,
    b: String,
    name: String,
    label: &str,
    route: String,
    source: Prefix,
    from: String,
    to: String,
    base: Ruleset,
    c: String,
)
    requires
        less.grants@.len() > 0,
        more.grants@.len() == less.grants@.len(),
        facts(more.grants@).drop_last() == facts(less.grants@).drop_last(),
        more.grants@.last()@ == (GrantFacts {
            sources: less.grants@.last()@.sources.push(source),
            ..less.grants@.last()@
        }),
        call_ensures(Ruleset::nft_batch, (&less, interface), a),
        call_ensures(Ruleset::nft_batch, (&more, interface), b),
        call_ensures(nft_string, (interface,), name),
        label@ == less.grants@.last().route_id@,
        call_ensures(nft_string, (label,), route),
        call_ensures(Prefix::to_text, (&source,), from),
        call_ensures(Prefix::to_text, (&less.grants@.last().destination,), to),
        facts(base.grants@) == facts(less.grants@).drop_last(),
        call_ensures(Ruleset::nft_batch, (&base, interface), c),
    ensures
        ({
            let grant = less.grants@.last();
            let family = if grant.destination.base is V4 {
                "ip"@
            } else {
                "ip6"@
            };
            let forward = "add rule inet karst_routes forward iifname "@ + name@ + " "@ + family
                + " saddr "@ + from@ + " "@ + family + " daddr "@ + to@
                + " counter accept comment "@ + route@ + "\n"@;
            let masquerade = "add rule inet karst_routes postrouting iifname "@ + name@
                + " oifname != "@ + name@ + " "@ + family + " saddr "@ + from@ + " "@ + family
                + " daddr "@ + to@ + " counter masquerade comment "@ + route@ + "\n"@;
            let added = if grant.masquerade {
                forward + masquerade
            } else {
                forward
            };
            exists|x: Seq<char>, y: Seq<char>|
                a@ == #[trigger] (x + y) && b@ == x + added + y && y.len() > 0
        }),
        less.grants@.last().sources@.len() == 0 ==> a@ == c@,
{
    let (p, q) = (facts(less.grants@), facts(more.grants@));
    let (g, h) = (p.last(), q.last());
    assert(g == less.grants@.last()@);
    assert(h == more.grants@.last()@);
    let n = g.sources.len();
    let front = "flush table inet karst_routes\n"@
        + "add chain inet karst_routes forward { type filter hook forward priority -10; policy accept; }\n"@
        + "add chain inet karst_routes postrouting { type nat hook postrouting priority srcnat; policy accept; }\n"@;
    let tail = ("add rule inet karst_routes forward oifname "@ + name@
        + " ct state established,related counter accept\n"@) + (
    "add rule inet karst_routes forward iifname "@ + name@ + " counter drop\n"@);
    let before = rules_text(name@, p.drop_last());
    let fixed = grant_rules(name@, g, n);
    lemma_same_rules(name@, g, h, n);
    let x = front + before + fixed;
    assert(h.sources[n as int] == source);
    let forward = forward_rule(name@, h, source);
    let masquerade = masquerade_rule(name@, h, source);
    let added = if g.masquerade {
        forward + masquerade
    } else {
        forward
    };
    assert(grant_rules(name@, h, n + 1) =~= fixed + added);
    assert(a@ =~= x + tail);
    assert(b@ =~= x + added + tail);
    reveal_strlit(" counter drop\n");
    assert(tail.len() > 0);
    if n == 0 {
        assert(fixed =~= Seq::<char>::empty());
        assert(c@ =~= front + before + tail);
    }
}

proof fn lemma_same_rules(name: Seq<char>, g: GrantFacts, h: GrantFacts, n: nat)
    requires
        h.route_id == g.route_id && h.destination == g.destination && h.masquerade == g.masquerade,
        n <= g.sources.len() <= h.sources.len(),
        forall|i: int| 0 <= i < g.sources.len() ==> g.sources[i] == h.sources[i],
    ensures
        grant_rules(name, g, n) == grant_rules(name, h, n),
    decreases n,
{
    if n > 0 {
        lemma_same_rules(name, g, h, (n - 1) as nat);
    }
}

/// A quoted value starts and ends with a quotation mark, and reads back as the
/// value: a quotation mark or a backslash within it stands behind a backslash,
/// and everything else for itself.
pub proof fn a_value_is_quoted(value: &str, s: String, rest: Seq<char>)
    requires
        call_ensures(nft_string, (value,), s),
    ensures
        s@.len() >= 2 && s@[0] == '"' && s@.last() == '"',
        read_quoted(s@.skip(1) + rest) == Some((value@, rest)),
        (forall|i: int| 0 <= i < value@.len() ==> value@[i] != '"' && value@[i] != '\\') ==> s@
            == seq!['"'] + value@ + seq!['"'],
{
    a_quoted_value_reads_back(value@, rest);
    assert((s@ + rest).skip(1) =~= s@.skip(1) + rest);
    if forall|i: int| 0 <= i < value@.len() ==> value@[i] != '"' && value@[i] != '\\' {
        lemma_plain(value@);
    }
}

proof fn lemma_plain(value: Seq<char>)
    requires
        forall|i: int| 0 <= i < value.len() ==> value[i] != '"' && value[i] != '\\',
    ensures
        escaped(value) == value,
    decreases value.len(),
{
    if value.len() > 0 {
        lemma_plain(value.drop_last());
        assert(value.last() == value[value.len() - 1]);
    }
}

/// What is written about each family's forwarding switch.
pub open spec fn is_switch_write(c: Option<Command>, v4: bool, on: bool) -> bool {
    c matches Some(Command::Write { path, value }) && path@ == (if v4 {
        "/proc/sys/net/ipv4/ip_forward"@
    } else {
        "/proc/sys/net/ipv6/conf/all/forwarding"@
    }) && value@ == (if on {
        "1\n"@
    } else {
        "0\n"@
    })
}

/// Whether this asks what a family's switch stands at.
pub open spec fn is_switch_read(c: Option<Command>, v4: bool) -> bool {
    c matches Some(Command::Read { path }) && path@ == (if v4 {
        "/proc/sys/net/ipv4/ip_forward"@
    } else {
        "/proc/sys/net/ipv6/conf/all/forwarding"@
    })
}

/// Whether this adds our table, or deletes it.
pub open spec fn is_table(c: Option<Command>, verb: Seq<char>) -> bool {
    c matches Some(Command::Nft { args, input }) && input is None && texts(args@) == seq![
        verb,
        "table"@,
        "inet"@,
        "karst_routes"@,
    ]
}

/// Whether this hands `nft` a text.
pub open spec fn is_load(c: Option<Command>, batch: Seq<char>) -> bool {
    c matches Some(Command::Nft { args, input }) && texts(args@) == seq!["-f"@, "-"@] && (
    input matches Some(text) && text@ == batch)
}

/// Whether this asks `nft` for its version.
pub open spec fn is_check(c: Option<Command>) -> bool {
    c matches Some(Command::Nft { args, input }) && texts(args@) == seq!["--version"@] && input is None
}

/// A first grant is put in place step by step: `nft` is there, our table is
/// added, the family's switch is read and, as it is off, turned on, and the rules
/// are loaded. Then there is nothing left to do, and the table is ours. Only the
/// family that the grants are of is touched.
pub proof fn a_first_grant_is_put_in_place(
    v4: bool,
    rules: &Ruleset,
    interface: &str,
    batch: String,
    m0: &mut Manager,
    c0: Option<Command>,
    s1: String,
    m1: &mut Manager,
    c1: Option<Command>,
    s2: String,
    m2: &mut Manager,
    c2: Option<Command>,
    s3: String,
    m3: &mut Manager,
    c3: Option<Command>,
    s4: String,
    m4: &mut Manager,
    c4: Option<Command>,
    s5: String,
    m5: &mut Manager,
    c5: Option<Command>,
    failure: Option<String>,
    active: bool,
)
    requires
        call_ensures(Ruleset::nft_batch, (rules, interface), batch),
        rules.grants@.len() > 0 && rules.ipv4 == v4 && rules.ipv6 == !v4,
        !old(m0).table && !old(m0).changed_v4 && !old(m0).changed_v6,
        call_ensures(Manager::reconcile, (m0, rules, interface), ()),
        call_ensures(Manager::next, (&*final(m0),), c0),
        *old(m1) == *final(m0),
        call_ensures(Manager::report, (m1, Reply::Success(s1)), ()),
        call_ensures(Manager::next, (&*final(m1),), c1),
        *old(m2) == *final(m1),
        call_ensures(Manager::report, (m2, Reply::Success(s2)), ()),
        call_ensures(Manager::next, (&*final(m2),), c2),
        *old(m3) == *final(m2),
        trimmed(s3@) != "1"@,
        call_ensures(Manager::report, (m3, Reply::Success(s3)), ()),
        call_ensures(Manager::next, (&*final(m3),), c3),
        *old(m4) == *final(m3),
        call_ensures(Manager::report, (m4, Reply::Success(s4)), ()),
        call_ensures(Manager::next, (&*final(m4),), c4),
        *old(m5) == *final(m4),
        call_ensures(Manager::report, (m5, Reply::Success(s5)), ()),
        call_ensures(Manager::next, (&*final(m5),), c5),
        call_ensures(Manager::failure, (&*final(m5),), failure),
        call_ensures(Manager::active, (&*final(m5),), active),
    ensures
        is_check(c0),
        is_table(c1, "add"@),
        is_switch_read(c2, v4),
        is_switch_write(c3, v4, true),
        is_load(c4, batch@),
        c5 is None && failure is None && active,
        final(m5).changed_v4 == v4 && final(m5).changed_v6 == !v4,
{
    assert(final(m1)@.phase is AddingTable);
    assert(final(m4)@.phase is Loading);
    assert(final(m5)@.phase is Done);
}

/// When the rules do not load, everything is taken back: the switch that was
/// turned on is turned off, our table is deleted, and the failure is reported.
pub proof fn a_failed_load_is_taken_back(
    v4: bool,
    error: String,
    m0: &mut Manager,
    c: Option<Command>,
    batch: Seq<char>,
    c0: Option<Command>,
    s1: String,
    m1: &mut Manager,
    c1: Option<Command>,
    s2: String,
    m2: &mut Manager,
    c2: Option<Command>,
    failure: Option<String>,
    active: bool,
)
    requires
        old(m0)@.valid(),
        call_ensures(Manager::next, (&*old(m0),), c),
        is_load(c, batch),
        old(m0).changed_v4 == v4 && old(m0).changed_v6 == !v4,
        call_ensures(Manager::report, (m0, Reply::Failure(error)), ()),
        call_ensures(Manager::next, (&*final(m0),), c0),
        *old(m1) == *final(m0),
        call_ensures(Manager::report, (m1, Reply::Success(s1)), ()),
        call_ensures(Manager::next, (&*final(m1),), c1),
        *old(m2) == *final(m1),
        call_ensures(Manager::report, (m2, Reply::Success(s2)), ()),
        call_ensures(Manager::next, (&*final(m2),), c2),
        call_ensures(Manager::failure, (&*final(m2),), failure),
        call_ensures(Manager::active, (&*final(m2),), active),
    ensures
        is_switch_write(c0, v4, false),
        is_table(c1, "delete"@),
        c2 is None && !active,
        failure matches Some(e) && e@ == error@,
        !final(m2).changed_v4 && !final(m2).changed_v6,
{
    assert(old(m0)@.phase is Loading);
    assert(final(m2)@.phase is Failed);
}

/// Clearing deletes our table, and then turns off the switches that were turned
/// on from here, and no others.
pub proof fn clearing_takes_back_what_was_done(
    m0: &mut Manager,
    c0: Option<Command>,
    s1: String,
    m1: &mut Manager,
    c1: Option<Command>,
    s2: String,
    m2: &mut Manager,
    c2: Option<Command>,
    s3: String,
    m3: &mut Manager,
    c3: Option<Command>,
    failure: Option<String>,
    active: bool,
)
    requires
        old(m0)@.valid(),
        old(m0).table,
        call_ensures(Manager::clear, (m0,), ()),
        call_ensures(Manager::next, (&*final(m0),), c0),
        *old(m1) == *final(m0),
        call_ensures(Manager::report, (m1, Reply::Success(s1)), ()),
        call_ensures(Manager::next, (&*final(m1),), c1),
        *old(m2) == *final(m1),
        call_ensures(Manager::report, (m2, Reply::Success(s2)), ()),
        call_ensures(Manager::next, (&*final(m2),), c2),
        *old(m3) == *final(m2),
        call_ensures(Manager::report, (m3, Reply::Success(s3)), ()),
        call_ensures(Manager::next, (&*final(m3),), c3),
        call_ensures(Manager::failure, (&*final(m3),), failure),
        call_ensures(Manager::active, (&*final(m3),), active),
    ensures
        is_table(c0, "delete"@),
        old(m0).changed_v4 && old(m0).changed_v6 ==> is_switch_write(c1, true, false)
            && is_switch_write(c2, false, false),
        old(m0).changed_v4 && !old(m0).changed_v6 ==> is_switch_write(c1, true, false)
            && c2 is None,
        !old(m0).changed_v4 && old(m0).changed_v6 ==> is_switch_write(c1, false, false)
            && c2 is None,
        !old(m0).changed_v4 && !old(m0).changed_v6 ==> c1 is None,
        c3 is None && failure is None && !active,
        !final(m3).changed_v4 && !final(m3).changed_v6,
{
}

/// A switch that is already on is left alone, and so it is never turned off
/// from here; one that could not be turned off stays ours to turn off.
pub proof fn a_switch_is_ours_once_we_turned_it_on(
    v4: bool,
    m: &mut Manager,
    c: Option<Command>,
    reply: Reply,
)
    requires
        old(m)@.valid(),
        call_ensures(Manager::next, (&*old(m),), c),
        call_ensures(Manager::report, (m, reply), ()),
    ensures
        ({
            let before = if v4 {
                old(m).changed_v4
            } else {
                old(m).changed_v6
            };
            let after = if v4 {
                final(m).changed_v4
            } else {
                final(m).changed_v6
            };
            &&& is_switch_write(c, v4, true) ==> after == (reply is Success)
            &&& is_switch_write(c, v4, false) ==> before && after == (reply is Failure)
            &&& !is_switch_write(c, v4, true) && !is_switch_write(c, v4, false) ==> after == before
        }),
        final(m).batch@ == old(m).batch@,
        is_table(c, "add"@) && reply is Success ==> final(m).table,
        is_table(c, "delete"@) && reply is Success ==> !final(m).table,
        !is_table(c, "add"@) && !is_table(c, "delete"@) ==> final(m).table == old(m).table,
{
    reveal_strlit("/proc/sys/net/ipv4/ip_forward");
    reveal_strlit("/proc/sys/net/ipv6/conf/all/forwarding");
    reveal_strlit("0\n");
    reveal_strlit("1\n");
    reveal_strlit("add");
    reveal_strlit("delete");
    reveal_strlit("--version");
    reveal_strlit("-f");
    assert("0\n"@[0] != "1\n"@[0]);
    let add = seq!["add"@, "table"@, "inet"@, TABLE@];
    let delete = seq!["delete"@, "table"@, "inet"@, TABLE@];
    assert(add[0] == "add"@ && delete[0] == "delete"@ && add.len() == 4 && delete.len() == 4);
    assert(seq!["--version"@].len() == 1);
    assert(seq!["-f"@, "-"@].len() == 2);
    assert("add"@.len() != "delete"@.len());
    let phase = old(m)@.phase;
    if let Some(command) = c {
        match command {
            Command::Nft { args, input } => {
                assert(phase is Checking || phase is AddingTable || phase is Loading
                    || phase is Deleting);
                assert(texts(args@).len() == args@.len());
            },
            Command::Read { path } => {
                assert(phase is Reading);
            },
            Command::Write { path, value } => {
                let family = match phase {
                    Phase::Enabling(f) => f,
                    Phase::Settling(f) => f,
                    Phase::Undoing(f) => f,
                    Phase::Restoring(f) => f,
                    _ => Family::V4,
                };
                assert(path@ == switch(family));
                assert(switch(Family::V4).len() != switch(Family::V6).len());
            },
        }
    }
}

/// Where a switch is read as on, it is not turned on; where it is read as off,
/// it is. A step that fails before the rules are loaded deletes the table again,
/// if there is one, and fails for that reason.
pub proof fn a_switch_is_turned_on_if_it_is_off(
    v4: bool,
    m: &mut Manager,
    c: Option<Command>,
    text: String,
    after: Option<Command>,
    lost: &mut Manager,
    error: String,
    then: Option<Command>,
)
    requires
        old(m)@.valid(),
        call_ensures(Manager::next, (&*old(m),), c),
        is_switch_read(c, v4),
        call_ensures(Manager::report, (m, Reply::Success(text)), ()),
        call_ensures(Manager::next, (&*final(m),), after),
        *old(lost) == *old(m),
        call_ensures(Manager::report, (lost, Reply::Failure(error)), ()),
        call_ensures(Manager::next, (&*final(lost),), then),
    ensures
        trimmed(text@) != "1"@ ==> is_switch_write(after, v4, true),
        trimmed(text@) == "1"@ ==> !is_switch_write(after, v4, true),
        is_table(then, "delete"@),
        final(lost).error matches Some(e) && e@ == error@,
{
    reveal_strlit("/proc/sys/net/ipv4/ip_forward");
    reveal_strlit("/proc/sys/net/ipv6/conf/all/forwarding");
    reveal_strlit("0\n");
    reveal_strlit("1\n");
    assert("0\n"@[0] != "1\n"@[0]);
}

/// Rules for nothing are no rules: the table goes, if there is one.
pub proof fn no_grant_keeps_no_table(
    rules: &Ruleset,
    interface: &str,
    m: &mut Manager,
    c: Option<Command>,
    fresh: Manager,
    idle: Option<Command>,
)
    requires
        rules.grants@.len() == 0,
        call_ensures(Manager::reconcile, (m, rules, interface), ()),
        call_ensures(Manager::next, (&*final(m),), c),
        call_ensures(Manager::default, (), fresh),
        call_ensures(Manager::next, (&fresh,), idle),
    ensures
        old(m).table ==> is_table(c, "delete"@),
        !old(m).table && !old(m).changed_v4 && !old(m).changed_v6 ==> c is None,
        idle is None && !fresh.table && !fresh.changed_v4 && !fresh.changed_v6,
{
}

/// The switches that are wanted and not ours yet are read one after the other,
/// IPv4 first, and then the rules are loaded.
pub proof fn every_wanted_switch_is_seen_to(
    m: &mut Manager,
    text: String,
    after: Option<Command>,
)
    requires
        old(m)@.valid(),
        call_ensures(Manager::report, (m, Reply::Success(text)), ()),
        call_ensures(Manager::next, (&*final(m),), after),
    ensures
        ({
            let b = old(m);
            let v4 = b.wants_v4 && !b.changed_v4;
            let v6 = b.wants_v6 && !b.changed_v6;
            let ready = (b.phase is Checking && b.table) || b.phase is AddingTable;
            let past_v4 = (b.phase == Phase::Reading(Family::V4) && trimmed(text@) == "1"@)
                || b.phase == Phase::Enabling(Family::V4);
            let past_v6 = (b.phase == Phase::Reading(Family::V6) && trimmed(text@) == "1"@)
                || b.phase == Phase::Enabling(Family::V6);
            &&& b.phase is Checking && !b.table ==> is_table(after, "add"@)
            &&& ready && v4 ==> is_switch_read(after, true)
            &&& ready && !v4 && v6 ==> is_switch_read(after, false)
            &&& ready && !v4 && !v6 ==> is_load(after, b.batch@)
            &&& past_v4 && v6 ==> is_switch_read(after, false)
            &&& past_v4 && !v6 ==> is_load(after, b.batch@)
            &&& past_v6 ==> is_load(after, b.batch@)
        }),
{
}

/// When the rules are loaded, the switches that were turned on from here and are
/// no longer wanted are turned off, IPv4 first; then it is done.
pub proof fn a_switch_that_is_not_wanted_is_turned_off(
    m: &mut Manager,
    s: String,
    first: Option<Command>,
    m1: &mut Manager,
    reply: Reply,
    second: Option<Command>,
)
    requires
        old(m)@.valid(),
        old(m).phase is Loading,
        call_ensures(Manager::report, (m, Reply::Success(s)), ()),
        call_ensures(Manager::next, (&*final(m),), first),
        *old(m1) == *final(m),
        call_ensures(Manager::report, (m1, reply), ()),
        call_ensures(Manager::next, (&*final(m1),), second),
    ensures
        ({
            let v4 = old(m).changed_v4 && !old(m).wants_v4;
            let v6 = old(m).changed_v6 && !old(m).wants_v6;
            &&& v4 ==> is_switch_write(first, true, false)
            &&& !v4 && v6 ==> is_switch_write(first, false, false)
            &&& !v4 && !v6 ==> first is None && final(m).phase is Done
            &&& v4 && v6 ==> is_switch_write(second, false, false)
            &&& !(v4 && v6) ==> second is None && final(m1).phase is Done
        }),
        final(m).table,
{
}

/// A table that is already there is as good as added, and one that is already
/// gone as good as deleted. Any other failure before the rules are loaded takes
/// the table away and is the failure of the run; a clearing that fails to delete
/// the table says so, and the table stays ours.
pub proof fn a_table_that_is_there_is_as_good_as_added(
    m: &mut Manager,
    error: String,
    there: bool,
    gone: bool,
    after: Option<Command>,
    failure: Option<String>,
)
    requires
        old(m)@.valid(),
        call_ensures(Manager::report, (m, Reply::Failure(error)), ()),
        there == has_text(error@, "File exists"@),
        gone == has_text(error@, "No such file"@),
        call_ensures(Manager::next, (&*final(m),), after),
        call_ensures(Manager::failure, (&*final(m),), failure),
    ensures
        old(m).phase is AddingTable && there ==> final(m).table && final(m).error is None,
        old(m).phase is AddingTable && !there ==> !final(m).table && final(m)@.error == Some(
            error@,
        ),
        old(m).phase is Deleting && gone ==> !final(m).table && final(m)@.error == old(m)@.error,
        old(m).phase is Deleting && !gone && old(m).task is Clear ==> final(m).table && after is None
            && (failure matches Some(e) && e@ == error@),
        old(m).phase is Deleting && !gone && old(m).task is Cleanup ==> final(m).table
            && after is None && (failure matches Some(e) && e@ == old(m)@.error->0
            + "; stale-state cleanup also failed: "@ + error@),
        (old(m).phase is Checking || old(m).phase is Enabling) && old(m).table ==> is_table(
            after,
            "delete"@,
        ) && final(m)@.error == Some(error@),
{
}

} // verus!
