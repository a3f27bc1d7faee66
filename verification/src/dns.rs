//! Mesh DNS: what the resolver is told, how the host is pointed at it, and how
//! requests are framed in the userspace stack.
//!
//! The resolver itself, the host's resolver services, and the sockets are the
//! caller's; this module decides what they are given.

use crate::addr::{IpAddr, SocketAddr};
use crate::config::Peer;
use crate::ipc::Platform;
use crate::routing::Prefix;
use crate::text::{
    before_char, chars_of, find_from, first_word, leading_word, lines, lossy, lossy_text, quoted,
    quoted_text, same, split_lines, string_of, texts, trim, trimmed,
};
use vstd::prelude::*;

verus! {

/// How the host's resolver is to be configured.
#[derive(Clone, Copy, Debug, PartialEq, Eq, Structural)]
pub enum HostIntegration {
    /// Whatever the platform offers.
    Auto,
    /// Leave the host alone.
    Off,
    Resolved,
    Networkmanager,
    Resolvconf,
    Macos,
}

/// A mechanism that points the host's resolver at the mesh.
#[derive(Clone, Copy, Debug, PartialEq, Eq, Structural)]
pub enum HostRuntime {
    /// The host is left alone.
    Off,
    Resolved,
    NetworkManager,
    ResolvConf,
    Macos,
}

/// The DNS settings of this node.
#[derive(Debug)]
pub struct DnsSettings {
    pub enabled: bool,
    pub host_integration: HostIntegration,
    /// Where the stub listens.
    pub stub_address: SocketAddr,
    /// Upstreams that replace those of the netmap and of the host.
    pub upstream: Vec<SocketAddr>,
    /// Whether the netmap's routes are used.
    pub accept_netmap_config: bool,
}

/// A resolver as the netmap writes it, and the address that is, if it is one.
#[derive(Debug)]
pub struct Named {
    pub text: String,
    pub address: Option<SocketAddr>,
}

/// A netmap route: a domain, and who resolves it.
#[derive(Debug)]
pub struct NetmapRoute {
    pub match_domain: String,
    pub resolvers: Vec<Named>,
}

/// The DNS part of a netmap.
#[derive(Debug)]
pub struct DnsConfig {
    pub zone: String,
    pub magic_dns: bool,
    pub nameservers: Vec<Named>,
    pub search_domains: Vec<String>,
    pub routes: Vec<NetmapRoute>,
}

/// An address of a netmap peer as it is written, and what the part before the
/// slash is, if it is an address.
#[derive(Debug)]
pub struct PeerAddress {
    pub text: String,
    pub address: Option<IpAddr>,
}

/// A netmap peer, as far as names are concerned.
#[derive(Debug)]
pub struct NamedPeer {
    pub dns_name: String,
    pub allowed_ips: Vec<PeerAddress>,
}

/// A domain with resolvers of its own.
#[derive(Debug)]
pub struct Route {
    pub match_domain: String,
    pub resolvers: Vec<SocketAddr>,
}

/// A name of the mesh zone and its addresses.
#[derive(Debug)]
pub struct MeshPeer {
    pub name: String,
    pub ipv4: Vec<IpAddr>,
    pub ipv6: Vec<IpAddr>,
}

/// Everything that the resolver is built from. It is rebuilt wholesale after
/// every netmap change, so that a deleted peer stops resolving at once.
#[derive(Debug)]
pub struct Resolver {
    pub nameservers: Vec<SocketAddr>,
    pub search_domains: Vec<String>,
    pub routes: Vec<Route>,
    pub zone: String,
    pub magic_dns: bool,
    pub peers: Vec<MeshPeer>,
}

/// Why a resolver could not be built.
#[derive(Debug)]
pub enum Error {
    /// A resolver is not an IP socket address.
    Resolver { value: String },
    /// A peer has an address that is none.
    Address { peer: String, value: String },
    /// The resolver's own configuration refuses what it is to serve.
    Config(String),
}

/// Why a resolver could not be built, as a value.
pub enum Fault {
    Resolver { value: Seq<char> },
    Address { peer: Seq<char>, value: Seq<char> },
    Config(Seq<char>),
}

impl View for Error {
    type V = Fault;

    open spec fn view(&self) -> Fault {
        match self {
            Error::Resolver { value } => Fault::Resolver { value: value@ },
            Error::Address { peer, value } => Fault::Address { peer: peer@, value: value@ },
            Error::Config(message) => Fault::Config(message@),
        }
    }
}

impl Fault {
    /// The message for the operator. What the resolver's configuration says
    /// stands as it is.
    pub open spec fn text(self) -> Seq<char> {
        match self {
            Fault::Resolver { value } => "netmap DNS resolver "@ + quoted_text(value)
                + " is not an IP socket address"@,
            Fault::Address { peer, value } => "netmap peer "@ + quoted_text(peer)
                + " has invalid mesh address "@ + quoted_text(value),
            Fault::Config(message) => message,
        }
    }
}

impl Error {
    /// The message for the operator.
    pub fn to_text(&self) -> (s: String)
        ensures
            s@ == self@.text(),
    {
        match self {
            Error::Resolver { value } => {
                let mut s = String::from_str("netmap DNS resolver ");
                let v = quoted(value.as_str());
                s.append(v.as_str());
                s.append(" is not an IP socket address");
                s
            },
            Error::Address { peer, value } => {
                let mut s = String::from_str("netmap peer ");
                let p = quoted(peer.as_str());
                s.append(p.as_str());
                s.append(" has invalid mesh address ");
                let v = quoted(value.as_str());
                s.append(v.as_str());
                s
            },
            Error::Config(message) => message.clone(),
        }
    }
}

/// A route as a value.
#[verifier::ext_equal]
pub struct RouteFacts {
    pub match_domain: Seq<char>,
    pub resolvers: Seq<SocketAddr>,
}

impl View for Route {
    type V = RouteFacts;

    open spec fn view(&self) -> RouteFacts {
        RouteFacts { match_domain: self.match_domain@, resolvers: self.resolvers@ }
    }
}

/// A mesh peer as a value.
#[verifier::ext_equal]
pub struct MeshFacts {
    pub name: Seq<char>,
    pub ipv4: Seq<IpAddr>,
    pub ipv6: Seq<IpAddr>,
}

impl View for MeshPeer {
    type V = MeshFacts;

    open spec fn view(&self) -> MeshFacts {
        MeshFacts { name: self.name@, ipv4: self.ipv4@, ipv6: self.ipv6@ }
    }
}

/// Everything that the resolver is built from, as a value.
#[verifier::ext_equal]
pub struct Zone {
    pub nameservers: Seq<SocketAddr>,
    pub search_domains: Seq<Seq<char>>,
    pub routes: Seq<RouteFacts>,
    pub zone: Seq<char>,
    pub magic_dns: bool,
    pub peers: Seq<MeshFacts>,
}

impl View for Resolver {
    type V = Zone;

    open spec fn view(&self) -> Zone {
        Zone {
            nameservers: self.nameservers@,
            search_domains: texts(self.search_domains@),
            routes: self.routes@.map_values(|r: Route| r@),
            zone: self.zone@,
            magic_dns: self.magic_dns,
            peers: self.peers@.map_values(|p: MeshPeer| p@),
        }
    }
}

/// The addresses of a list of resolvers, or the first that is none.
pub open spec fn parsed_resolvers(values: Seq<Named>) -> Result<Seq<SocketAddr>, Fault>
    decreases values.len(),
{
    if values.len() == 0 {
        Ok(seq![])
    } else {
        match parsed_resolvers(values.drop_last()) {
            Err(f) => Err(f),
            Ok(before) => match values.last().address {
                Some(a) => Ok(before.push(a)),
                None => Err(Fault::Resolver { value: values.last().text@ }),
            },
        }
    }
}

/// The routes, or the first resolver that is none.
pub open spec fn parsed_routes(routes: Seq<NetmapRoute>) -> Result<Seq<RouteFacts>, Fault>
    decreases routes.len(),
{
    if routes.len() == 0 {
        Ok(seq![])
    } else {
        match parsed_routes(routes.drop_last()) {
            Err(f) => Err(f),
            Ok(before) => match parsed_resolvers(routes.last().resolvers@) {
                Ok(resolvers) => Ok(
                    before.push(
                        RouteFacts { match_domain: routes.last().match_domain@, resolvers },
                    ),
                ),
                Err(f) => Err(f),
            },
        }
    }
}

/// The addresses of a family, in order.
pub open spec fn of_family(addresses: Seq<IpAddr>, v4: bool) -> Seq<IpAddr>
    decreases addresses.len(),
{
    if addresses.len() == 0 {
        seq![]
    } else {
        let before = of_family(addresses.drop_last(), v4);
        if addresses.last() is V4 == v4 {
            before.push(addresses.last())
        } else {
            before
        }
    }
}

/// A name with its addresses by family.
pub open spec fn mesh(name: Seq<char>, addresses: Seq<IpAddr>) -> MeshFacts {
    MeshFacts { name, ipv4: of_family(addresses, true), ipv6: of_family(addresses, false) }
}

/// The addresses of a netmap peer, or the first that is none.
pub open spec fn parsed_addresses(
    name: Seq<char>,
    written: Seq<PeerAddress>,
) -> Result<Seq<IpAddr>, Fault>
    decreases written.len(),
{
    if written.len() == 0 {
        Ok(seq![])
    } else {
        match parsed_addresses(name, written.drop_last()) {
            Err(f) => Err(f),
            Ok(before) => match written.last().address {
                Some(a) => Ok(before.push(a)),
                None => Err(Fault::Address { peer: name, value: written.last().text@ }),
            },
        }
    }
}

/// The mesh records of a netmap, or the first address that is none.
pub open spec fn parsed_peers(peers: Seq<NamedPeer>) -> Result<Seq<MeshFacts>, Fault>
    decreases peers.len(),
{
    if peers.len() == 0 {
        Ok(seq![])
    } else {
        match parsed_peers(peers.drop_last()) {
            Err(f) => Err(f),
            Ok(before) => match parsed_addresses(
                peers.last().dns_name@,
                peers.last().allowed_ips@,
            ) {
                Ok(addresses) => Ok(before.push(mesh(peers.last().dns_name@, addresses))),
                Err(f) => Err(f),
            },
        }
    }
}

/// The mesh records of a roster: the base address of every range.
pub open spec fn roster_peers(peers: Seq<Peer>) -> Seq<MeshFacts> {
    peers.map_values(
        |p: Peer| mesh(p.name@, p.allowed_ips@.map_values(|range: Prefix| range.base)),
    )
}

/// The message of a refusal, as a value.
pub open spec fn refusal(refused: Option<String>) -> Option<Seq<char>> {
    match refused {
        Some(message) => Some(message@),
        None => None,
    }
}

/// A zone, unless the resolver's configuration refuses it.
pub open spec fn accepted(zone: Zone, refused: Option<Seq<char>>) -> Result<Zone, Fault> {
    match refused {
        Some(message) => Err(Fault::Config(message)),
        None => Ok(zone),
    }
}

/// The resolver that a netmap describes. `refused` is what the resolver's
/// configuration says against it.
pub open spec fn netmap_zone(
    dns: DnsConfig,
    peers: Seq<NamedPeer>,
    refused: Option<Seq<char>>,
) -> Result<Zone, Fault> {
    match parsed_resolvers(dns.nameservers@) {
        Err(f) => Err(f),
        Ok(nameservers) => match parsed_routes(dns.routes@) {
            Err(f) => Err(f),
            Ok(routes) => match parsed_peers(peers) {
                Err(f) => Err(f),
                Ok(peers) => accepted(
                    Zone {
                        nameservers,
                        search_domains: texts(dns.search_domains@),
                        routes,
                        zone: dns.zone@,
                        magic_dns: dns.magic_dns,
                        peers,
                    },
                    refused,
                ),
            },
        },
    }
}

/// Whether there is a mesh zone to serve.
pub open spec fn serves(settings: DnsSettings, dns: DnsConfig) -> bool {
    settings.enabled && dns.magic_dns && dns.zone@.len() > 0
}

/// Whether the upstreams have to come from the host's own configuration: there
/// is a zone to serve, and neither this node nor the netmap names any.
pub open spec fn host_needed(settings: DnsSettings, dns: DnsConfig) -> bool {
    serves(settings, dns) && settings.upstream@.len() == 0 && dns.nameservers@.len() == 0
}

/// The upstreams: this node's own, else the netmap's, else the host's.
pub open spec fn upstreams(
    settings: DnsSettings,
    dns: DnsConfig,
    host: Result<Seq<SocketAddr>, Fault>,
) -> Result<Seq<SocketAddr>, Fault> {
    if settings.upstream@.len() > 0 {
        Ok(settings.upstream@)
    } else if dns.nameservers@.len() > 0 {
        parsed_resolvers(dns.nameservers@)
    } else {
        host
    }
}

/// The resolver that this node runs, if it runs one. `refused` is what the
/// resolver's configuration says against it.
pub open spec fn config_zone(
    settings: DnsSettings,
    dns: DnsConfig,
    peers: Seq<Peer>,
    host: Result<Seq<SocketAddr>, Fault>,
    refused: Option<Seq<char>>,
) -> Result<Option<Zone>, Fault> {
    if !serves(settings, dns) {
        Ok(None)
    } else {
        match upstreams(settings, dns, host) {
            Err(f) => Err(f),
            Ok(nameservers) => {
                let routes = if settings.accept_netmap_config {
                    parsed_routes(dns.routes@)
                } else {
                    Ok(seq![])
                };
                match routes {
                    Err(f) => Err(f),
                    Ok(routes) => match accepted(
                        Zone {
                            nameservers,
                            search_domains: texts(dns.search_domains@),
                            routes,
                            zone: dns.zone@,
                            magic_dns: true,
                            peers: roster_peers(peers),
                        },
                        refused,
                    ) {
                        Err(f) => Err(f),
                        Ok(zone) => Ok(Some(zone)),
                    },
                }
            },
        }
    }
}

/// A list of addresses as a value.
pub open spec fn outcome(r: Result<Vec<SocketAddr>, Error>) -> Result<Seq<SocketAddr>, Fault> {
    match r {
        Ok(v) => Ok(v@),
        Err(e) => Err(e@),
    }
}

/// The part of a written range before the slash: what has to be an address.
pub fn bare_address(text: &str) -> (r: String)
    ensures
        r@ == before_char(text@, '/'),
{
    let chars = chars_of(text);
    let slash: usize = find_from(&chars, 0, '/');
    assert(chars@.skip(0) =~= chars@);
    let r = string_of(&chars, 0, slash);
    assert(r@ =~= before_char(text@, '/'));
    r
}

fn parse_resolvers(values: &Vec<Named>) -> (r: Result<Vec<SocketAddr>, Error>)
    ensures
        outcome(r) == parsed_resolvers(values@),
        r is Ok ==> r->Ok_0@.len() == values@.len(),
{
    let mut v: Vec<SocketAddr> = Vec::new();
    let mut i: usize = 0;
    while i < values.len()
        invariant
            i <= values@.len(),
            v@.len() == i,
            parsed_resolvers(values@.take(i as int)) == Ok::<Seq<SocketAddr>, Fault>(v@),
        decreases values@.len() - i,
    {
        assert(values@.take(i + 1).drop_last() =~= values@.take(i as int));
        match values[i].address {
            Some(a) => {
                v.push(a);
            },
            None => {
                proof {
                    lemma_resolver_fault(values@, i as int);
                }
                return Err(Error::Resolver { value: values[i].text.clone() });
            },
        }
        i = i + 1;
    }
    assert(values@.take(i as int) =~= values@);
    Ok(v)
}

/// The first fault of a list is the fault of the list.
proof fn lemma_resolver_fault(values: Seq<Named>, i: int)
    requires
        0 <= i < values.len(),
        parsed_resolvers(values.take(i + 1)) is Err,
    ensures
        parsed_resolvers(values) == parsed_resolvers(values.take(i + 1)),
    decreases values.len(),
{
    if i + 1 == values.len() {
        assert(values.take(i + 1) =~= values);
    } else {
        assert(values.drop_last().take(i + 1) =~= values.take(i + 1));
        lemma_resolver_fault(values.drop_last(), i);
    }
}

fn parse_routes(routes: &Vec<NetmapRoute>) -> (r: Result<Vec<Route>, Error>)
    ensures
        match r {
            Ok(v) => parsed_routes(routes@) == Ok::<Seq<RouteFacts>, Fault>(
                v@.map_values(|x: Route| x@),
            ),
            Err(e) => parsed_routes(routes@) == Err::<Seq<RouteFacts>, Fault>(e@),
        },
{
    let mut v: Vec<Route> = Vec::new();
    let mut i: usize = 0;
    assert(v@.map_values(|x: Route| x@) =~= seq![]);
    while i < routes.len()
        invariant
            i <= routes@.len(),
            parsed_routes(routes@.take(i as int)) == Ok::<Seq<RouteFacts>, Fault>(
                v@.map_values(|x: Route| x@),
            ),
        decreases routes@.len() - i,
    {
        assert(routes@.take(i + 1).drop_last() =~= routes@.take(i as int));
        assert(routes@.take(i + 1).last() == routes@[i as int]);
        match parse_resolvers(&routes[i].resolvers) {
            Ok(resolvers) => {
                let ghost before = v@;
                let route = Route { match_domain: routes[i].match_domain.clone(), resolvers };
                v.push(route);
                assert(v@.map_values(|x: Route| x@) =~= before.map_values(|x: Route| x@).push(
                    route@,
                ));
            },
            Err(e) => {
                proof {
                    lemma_route_fault(routes@, i as int);
                }
                return Err(e);
            },
        }
        i = i + 1;
    }
    assert(routes@.take(i as int) =~= routes@);
    Ok(v)
}

proof fn lemma_route_fault(routes: Seq<NetmapRoute>, i: int)
    requires
        0 <= i < routes.len(),
        parsed_routes(routes.take(i + 1)) is Err,
    ensures
        parsed_routes(routes) == parsed_routes(routes.take(i + 1)),
    decreases routes.len(),
{
    if i + 1 == routes.len() {
        assert(routes.take(i + 1) =~= routes);
    } else {
        assert(routes.drop_last().take(i + 1) =~= routes.take(i + 1));
        lemma_route_fault(routes.drop_last(), i);
    }
}

fn parse_addresses(name: &str, written: &Vec<PeerAddress>) -> (r: Result<Vec<IpAddr>, Error>)
    ensures
        match r {
            Ok(v) => parsed_addresses(name@, written@) == Ok::<Seq<IpAddr>, Fault>(v@),
            Err(e) => parsed_addresses(name@, written@) == Err::<Seq<IpAddr>, Fault>(e@),
        },
{
    let mut v: Vec<IpAddr> = Vec::new();
    let mut i: usize = 0;
    while i < written.len()
        invariant
            i <= written@.len(),
            parsed_addresses(name@, written@.take(i as int)) == Ok::<Seq<IpAddr>, Fault>(v@),
        decreases written@.len() - i,
    {
        assert(written@.take(i + 1).drop_last() =~= written@.take(i as int));
        match written[i].address {
            Some(a) => {
                v.push(a);
            },
            None => {
                proof {
                    lemma_address_fault(name@, written@, i as int);
                }
                return Err(
                    Error::Address {
                        peer: String::from_str(name),
                        value: written[i].text.clone(),
                    },
                );
            },
        }
        i = i + 1;
    }
    assert(written@.take(i as int) =~= written@);
    Ok(v)
}

proof fn lemma_address_fault(name: Seq<char>, written: Seq<PeerAddress>, i: int)
    requires
        0 <= i < written.len(),
        parsed_addresses(name, written.take(i + 1)) is Err,
    ensures
        parsed_addresses(name, written) == parsed_addresses(name, written.take(i + 1)),
    decreases written.len(),
{
    if i + 1 == written.len() {
        assert(written.take(i + 1) =~= written);
    } else {
        assert(written.drop_last().take(i + 1) =~= written.take(i + 1));
        lemma_address_fault(name, written.drop_last(), i);
    }
}

/// A name with its addresses by family.
fn mesh_peer(name: &str, addresses: &Vec<IpAddr>) -> (p: MeshPeer)
    ensures
        p@ == mesh(name@, addresses@),
{
    let mut ipv4: Vec<IpAddr> = Vec::new();
    let mut ipv6: Vec<IpAddr> = Vec::new();
    let mut i: usize = 0;
    while i < addresses.len()
        invariant
            i <= addresses@.len(),
            ipv4@ == of_family(addresses@.take(i as int), true),
            ipv6@ == of_family(addresses@.take(i as int), false),
        decreases addresses@.len() - i,
    {
        assert(addresses@.take(i + 1).drop_last() =~= addresses@.take(i as int));
        if addresses[i].is_ipv4() {
            ipv4.push(addresses[i]);
        } else {
            ipv6.push(addresses[i]);
        }
        i = i + 1;
    }
    assert(addresses@.take(i as int) =~= addresses@);
    MeshPeer { name: String::from_str(name), ipv4, ipv6 }
}

fn parse_peers(peers: &Vec<NamedPeer>) -> (r: Result<Vec<MeshPeer>, Error>)
    ensures
        match r {
            Ok(v) => parsed_peers(peers@) == Ok::<Seq<MeshFacts>, Fault>(
                v@.map_values(|x: MeshPeer| x@),
            ),
            Err(e) => parsed_peers(peers@) == Err::<Seq<MeshFacts>, Fault>(e@),
        },
{
    let mut v: Vec<MeshPeer> = Vec::new();
    let mut i: usize = 0;
    assert(v@.map_values(|x: MeshPeer| x@) =~= seq![]);
    while i < peers.len()
        invariant
            i <= peers@.len(),
            parsed_peers(peers@.take(i as int)) == Ok::<Seq<MeshFacts>, Fault>(
                v@.map_values(|x: MeshPeer| x@),
            ),
        decreases peers@.len() - i,
    {
        assert(peers@.take(i + 1).drop_last() =~= peers@.take(i as int));
        assert(peers@.take(i + 1).last() == peers@[i as int]);
        match parse_addresses(peers[i].dns_name.as_str(), &peers[i].allowed_ips) {
            Ok(addresses) => {
                let ghost before = v@;
                let peer = mesh_peer(peers[i].dns_name.as_str(), &addresses);
                v.push(peer);
                assert(v@.map_values(|x: MeshPeer| x@) =~= before.map_values(
                    |x: MeshPeer| x@,
                ).push(peer@));
            },
            Err(e) => {
                proof {
                    lemma_peer_fault(peers@, i as int);
                }
                return Err(e);
            },
        }
        i = i + 1;
    }
    assert(peers@.take(i as int) =~= peers@);
    Ok(v)
}

proof fn lemma_peer_fault(peers: Seq<NamedPeer>, i: int)
    requires
        0 <= i < peers.len(),
        parsed_peers(peers.take(i + 1)) is Err,
    ensures
        parsed_peers(peers) == parsed_peers(peers.take(i + 1)),
    decreases peers.len(),
{
    if i + 1 == peers.len() {
        assert(peers.take(i + 1) =~= peers);
    } else {
        assert(peers.drop_last().take(i + 1) =~= peers.take(i + 1));
        lemma_peer_fault(peers.drop_last(), i);
    }
}

fn copy_texts(v: &Vec<String>) -> (r: Vec<String>)
    ensures
        texts(r@) == texts(v@),
{
    let mut r: Vec<String> = Vec::new();
    let mut i: usize = 0;
    assert(texts(r@) =~= texts(v@).take(0));
    while i < v.len()
        invariant
            i <= v@.len(),
            texts(r@) == texts(v@).take(i as int),
        decreases v@.len() - i,
    {
        let ghost before = r@;
        let s = v[i].clone();
        r.push(s);
        assert(texts(r@) =~= texts(before).push(s@));
        assert(texts(v@).take(i + 1) =~= texts(v@).take(i as int).push(s@));
        i = i + 1;
    }
    assert(texts(v@).take(i as int) =~= texts(v@));
    r
}

/// The resolver that a netmap describes. `refused` is the message with which
/// the resolver's configuration refuses the nameservers, search domains, routes
/// and zone, if it does. It comes last: a netmap that cannot be read is never
/// handed to it.
pub fn from_netmap(dns: &DnsConfig, peers: &Vec<NamedPeer>, refused: Option<String>) -> (r: Result<
    Resolver,
    Error,
>)
    ensures
        match r {
            Ok(resolver) => netmap_zone(*dns, peers@, refusal(refused)) == Ok::<Zone, Fault>(
                resolver@,
            ),
            Err(e) => netmap_zone(*dns, peers@, refusal(refused)) == Err::<Zone, Fault>(e@),
        },
{
    let nameservers = match parse_resolvers(&dns.nameservers) {
        Ok(v) => v,
        Err(e) => {
            return Err(e);
        },
    };
    let routes = match parse_routes(&dns.routes) {
        Ok(v) => v,
        Err(e) => {
            return Err(e);
        },
    };
    let peers = match parse_peers(peers) {
        Ok(v) => v,
        Err(e) => {
            return Err(e);
        },
    };
    if let Some(message) = refused {
        return Err(Error::Config(message));
    }
    let search_domains = copy_texts(&dns.search_domains);
    Ok(
        Resolver {
            nameservers,
            search_domains,
            routes,
            zone: dns.zone.clone(),
            magic_dns: dns.magic_dns,
            peers,
        },
    )
}

fn copy_addresses(v: &Vec<SocketAddr>) -> (r: Vec<SocketAddr>)
    ensures
        r@ == v@,
{
    let mut r: Vec<SocketAddr> = Vec::new();
    let mut i: usize = 0;
    while i < v.len()
        invariant
            i <= v@.len(),
            r@ == v@.take(i as int),
        decreases v@.len() - i,
    {
        r.push(v[i]);
        assert(r@ =~= v@.take(i + 1));
        i = i + 1;
    }
    assert(v@.take(i as int) =~= v@);
    r
}

fn mesh_peers(peers: &Vec<Peer>) -> (r: Vec<MeshPeer>)
    ensures
        r@.map_values(|x: MeshPeer| x@) == roster_peers(peers@),
{
    let mut r: Vec<MeshPeer> = Vec::new();
    let mut i: usize = 0;
    while i < peers.len()
        invariant
            i <= peers@.len(),
            r@.len() == i,
            forall|k: int| 0 <= k < i ==> (#[trigger] r@[k])@ == roster_peers(peers@)[k],
        decreases peers@.len() - i,
    {
        let mut bases: Vec<IpAddr> = Vec::new();
        let ghost wanted = peers@[i as int].allowed_ips@.map_values(|range: Prefix| range.base);
        let mut j: usize = 0;
        while j < peers[i].allowed_ips.len()
            invariant
                i < peers@.len(),
                j <= peers@[i as int].allowed_ips@.len(),
                wanted == peers@[i as int].allowed_ips@.map_values(|range: Prefix| range.base),
                bases@ == wanted.take(j as int),
            decreases peers@[i as int].allowed_ips@.len() - j,
        {
            bases.push(peers[i].allowed_ips[j].base());
            assert(bases@ =~= wanted.take(j + 1));
            j = j + 1;
        }
        assert(wanted.take(j as int) =~= wanted);
        let peer = mesh_peer(peers[i].name.as_str(), &bases);
        r.push(peer);
        i = i + 1;
    }
    assert(r@.map_values(|x: MeshPeer| x@) =~= roster_peers(peers@));
    r
}

/// Whether the upstreams have to come from the host's own configuration.
pub fn needs_host(settings: &DnsSettings, dns: &DnsConfig) -> (r: bool)
    ensures
        r == host_needed(*settings, *dns),
{
    settings.enabled && dns.magic_dns && chars_of(dns.zone.as_str()).len() > 0
        && settings.upstream.len() == 0 && dns.nameservers.len() == 0
}

/// The resolver that this node runs; `None` is the state without a mesh zone,
/// not an error. `host` is what the host's own configuration names, and counts
/// only where nothing else names an upstream. `refused` is the message with
/// which the resolver's configuration refuses what it is to serve, if it does.
pub fn from_config(
    settings: &DnsSettings,
    dns: &DnsConfig,
    peers: &Vec<Peer>,
    host: Result<Vec<SocketAddr>, Error>,
    refused: Option<String>,
) -> (r: Result<Option<Resolver>, Error>)
    ensures
        match r {
            Ok(Some(resolver)) => config_zone(
                *settings,
                *dns,
                peers@,
                outcome(host),
                refusal(refused),
            ) == Ok::<Option<Zone>, Fault>(Some(resolver@)),
            Ok(None) => config_zone(*settings, *dns, peers@, outcome(host), refusal(refused))
                == Ok::<Option<Zone>, Fault>(None),
            Err(e) => config_zone(*settings, *dns, peers@, outcome(host), refusal(refused))
                == Err::<Option<Zone>, Fault>(e@),
        },
{
    if !settings.enabled || !dns.magic_dns || chars_of(dns.zone.as_str()).len() == 0 {
        return Ok(None);
    }
    let chosen = if settings.upstream.len() > 0 {
        Ok(copy_addresses(&settings.upstream))
    } else if dns.nameservers.len() > 0 {
        parse_resolvers(&dns.nameservers)
    } else {
        host
    };
    let nameservers = match chosen {
        Ok(v) => v,
        Err(e) => {
            return Err(e);
        },
    };
    let found = if settings.accept_netmap_config {
        parse_routes(&dns.routes)
    } else {
        let none: Vec<Route> = Vec::new();
        assert(none@.map_values(|x: Route| x@) =~= seq![]);
        Ok(none)
    };
    let routes = match found {
        Ok(v) => v,
        Err(e) => {
            return Err(e);
        },
    };
    if let Some(message) = refused {
        return Err(Error::Config(message));
    }
    let search_domains = copy_texts(&dns.search_domains);
    let peers = mesh_peers(peers);
    Ok(
        Some(
            Resolver {
                nameservers,
                search_domains,
                routes,
                zone: dns.zone.clone(),
                magic_dns: true,
                peers,
            },
        ),
    )
}

/// The address on a `nameserver` line of the host's configuration, as written.
pub open spec fn upstream_word(line: Seq<char>) -> Option<Seq<char>> {
    let t = trimmed(line);
    let keyword = first_word(t);
    let word = first_word(trimmed(t.skip(keyword.len() as int)));
    if keyword == "nameserver"@ && word.len() > 0 {
        Some(word)
    } else {
        None
    }
}

/// The addresses on the `nameserver` lines.
pub open spec fn upstream_words(lines: Seq<Seq<char>>) -> Seq<Seq<char>>
    decreases lines.len(),
{
    if lines.len() == 0 {
        seq![]
    } else {
        let before = upstream_words(lines.drop_last());
        match upstream_word(lines.last()) {
            Some(word) => before.push(word),
            None => before,
        }
    }
}

proof fn lemma_first_word(s: Seq<char>)
    ensures
        first_word(s).len() <= s.len(),
    decreases s.len(),
{
    if s.len() > 0 {
        lemma_first_word(s.drop_first());
    }
}

fn upstream_on(line: &str) -> (r: Option<String>)
    ensures
        match r {
            Some(s) => upstream_word(line@) == Some(s@),
            None => upstream_word(line@) is None,
        },
{
    let text = trim(line);
    let keyword = leading_word(text.as_str());
    let chars = chars_of(text.as_str());
    proof {
        lemma_first_word(text@);
    }
    let rest = string_of(&chars, chars_of(keyword.as_str()).len(), chars.len());
    assert(rest@ =~= text@.skip(keyword@.len() as int));
    let after = trim(rest.as_str());
    let word = leading_word(after.as_str());
    if same(keyword.as_str(), "nameserver") && chars_of(word.as_str()).len() > 0 {
        Some(word)
    } else {
        None
    }
}

/// The upstreams that the bytes of the host's configuration name, as written.
pub fn host_words(contents: &[u8]) -> (words: Vec<String>)
    ensures
        texts(words@) == upstream_words(split_lines(lossy_text(contents@))),
{
    let text = lossy(contents);
    words_in(text.as_str())
}

/// The upstreams that the text of the host's configuration names, as written.
pub fn words_in(contents: &str) -> (words: Vec<String>)
    ensures
        texts(words@) == upstream_words(split_lines(contents@)),
{
    let all = lines(contents);
    let mut words: Vec<String> = Vec::new();
    let ghost views = texts(all@);
    let mut i: usize = 0;
    assert(texts(words@) =~= upstream_words(views.take(0)));
    while i < all.len()
        invariant
            i <= all@.len(),
            views == texts(all@),
            texts(words@) == upstream_words(views.take(i as int)),
        decreases all@.len() - i,
    {
        assert(views.take(i + 1).drop_last() =~= views.take(i as int));
        assert(views.take(i + 1).last() == all@[i as int]@);
        let ghost before = words@;
        if let Some(word) = upstream_on(all[i].as_str()) {
            words.push(word);
            assert(texts(words@) =~= texts(before).push(word@));
        }
        i = i + 1;
    }
    assert(views.take(i as int) =~= views);
    words
}

/// The host's upstreams, or the first that is no address. The stub's own
/// address is left out: the file may already name it.
pub open spec fn host_upstreams(
    words: Seq<PeerAddress>,
    stub: IpAddr,
) -> Result<Seq<SocketAddr>, Fault>
    decreases words.len(),
{
    if words.len() == 0 {
        Ok(seq![])
    } else {
        match host_upstreams(words.drop_last(), stub) {
            Err(f) => Err(f),
            Ok(before) => match words.last().address {
                None => Err(Fault::Resolver { value: words.last().text@ }),
                Some(ip) => if ip == stub {
                    Ok(before)
                } else {
                    Ok(before.push(SocketAddr { ip, port: 53 }))
                },
            },
        }
    }
}

proof fn lemma_host_fault(words: Seq<PeerAddress>, stub: IpAddr, i: int)
    requires
        0 <= i < words.len(),
        host_upstreams(words.take(i + 1), stub) is Err,
    ensures
        host_upstreams(words, stub) == host_upstreams(words.take(i + 1), stub),
    decreases words.len(),
{
    if i + 1 == words.len() {
        assert(words.take(i + 1) =~= words);
    } else {
        assert(words.drop_last().take(i + 1) =~= words.take(i + 1));
        lemma_host_fault(words.drop_last(), stub, i);
    }
}

/// The host's upstreams.
pub fn host_resolvers(words: &Vec<PeerAddress>, stub: IpAddr) -> (r: Result<
    Vec<SocketAddr>,
    Error,
>)
    ensures
        outcome(r) == host_upstreams(words@, stub),
{
    let mut v: Vec<SocketAddr> = Vec::new();
    let mut i: usize = 0;
    while i < words.len()
        invariant
            i <= words@.len(),
            host_upstreams(words@.take(i as int), stub) == Ok::<Seq<SocketAddr>, Fault>(v@),
        decreases words@.len() - i,
    {
        assert(words@.take(i + 1).drop_last() =~= words@.take(i as int));
        match words[i].address {
            None => {
                proof {
                    lemma_host_fault(words@, stub, i as int);
                }
                return Err(Error::Resolver { value: words[i].text.clone() });
            },
            Some(ip) => {
                if ip != stub {
                    v.push(SocketAddr::new(ip, 53));
                }
            },
        }
        i = i + 1;
    }
    assert(words@.take(i as int) =~= words@);
    Ok(v)
}

/// The mechanisms to try on a platform, in order; `None` where the one that was
/// asked for does not exist there.
pub open spec fn mechanisms(
    integration: HostIntegration,
    platform: Platform,
) -> Option<Seq<HostRuntime>> {
    match integration {
        HostIntegration::Off => Some(seq![HostRuntime::Off]),
        HostIntegration::Resolved => Some(seq![HostRuntime::Resolved]),
        HostIntegration::Networkmanager => Some(seq![HostRuntime::NetworkManager]),
        HostIntegration::Resolvconf => Some(seq![HostRuntime::ResolvConf]),
        HostIntegration::Macos => if platform is MacOs {
            Some(seq![HostRuntime::Macos])
        } else {
            None
        },
        HostIntegration::Auto => match platform {
            Platform::Linux => Some(
                seq![HostRuntime::Resolved, HostRuntime::NetworkManager, HostRuntime::ResolvConf],
            ),
            Platform::MacOs => Some(seq![HostRuntime::Macos]),
            Platform::Windows => Some(seq![HostRuntime::Off]),
        },
    }
}

/// What to do about the host's resolver next.
#[derive(Debug)]
pub enum Attempt {
    /// Set this mechanism up.
    Try(HostRuntime),
    /// Give up, with this message.
    Failed(String),
}

/// What to do with the mechanism in hand.
#[derive(Debug)]
pub enum HostAction {
    Nothing,
    /// Point the link at the stub for the zone and the search domains.
    Apply { stub: SocketAddr, zone: String, search_domains: Vec<String> },
    /// Take the link's settings back.
    Revert,
    /// Bring the resolver file in line.
    Update { enabled: bool, nameserver: String, search_domains: Vec<String> },
    /// Give the resolver file back.
    Shutdown,
}

/// What to do with the mechanism in hand, as a value.
#[verifier::ext_equal]
pub enum HostStep {
    Nothing,
    Apply { stub: SocketAddr, zone: Seq<char>, search_domains: Seq<Seq<char>> },
    Revert,
    Update { enabled: bool, nameserver: Seq<char>, search_domains: Seq<Seq<char>> },
    Shutdown,
}

impl View for HostAction {
    type V = HostStep;

    open spec fn view(&self) -> HostStep {
        match self {
            HostAction::Nothing => HostStep::Nothing,
            HostAction::Apply { stub, zone, search_domains } => HostStep::Apply {
                stub: *stub,
                zone: zone@,
                search_domains: texts(search_domains@),
            },
            HostAction::Revert => HostStep::Revert,
            HostAction::Update { enabled, nameserver, search_domains } => HostStep::Update {
                enabled: *enabled,
                nameserver: nameserver@,
                search_domains: texts(search_domains@),
            },
            HostAction::Shutdown => HostStep::Shutdown,
        }
    }
}

fn mechanism_list(integration: HostIntegration, platform: Platform) -> (r: Option<
    Vec<HostRuntime>,
>)
    ensures
        match r {
            Some(v) => mechanisms(integration, platform) == Some(v@),
            None => mechanisms(integration, platform) is None,
        },
{
    let mut v: Vec<HostRuntime> = Vec::new();
    match integration {
        HostIntegration::Off => {
            v.push(HostRuntime::Off);
        },
        HostIntegration::Resolved => {
            v.push(HostRuntime::Resolved);
        },
        HostIntegration::Networkmanager => {
            v.push(HostRuntime::NetworkManager);
        },
        HostIntegration::Resolvconf => {
            v.push(HostRuntime::ResolvConf);
        },
        HostIntegration::Macos => {
            if platform != Platform::MacOs {
                return None;
            }
            v.push(HostRuntime::Macos);
        },
        HostIntegration::Auto => match platform {
            Platform::Linux => {
                v.push(HostRuntime::Resolved);
                v.push(HostRuntime::NetworkManager);
                v.push(HostRuntime::ResolvConf);
            },
            Platform::MacOs => {
                v.push(HostRuntime::Macos);
            },
            Platform::Windows => {
                v.push(HostRuntime::Off);
            },
        },
    }
    assert(v@ =~= mechanisms(integration, platform)->0);
    Some(v)
}

impl HostRuntime {
    /// The mechanism to set up next, given the messages of the attempts that
    /// have failed: the next in order, or the last message when none is left.
    pub fn new(integration: HostIntegration, platform: Platform, failures: &Vec<String>) -> (r:
        Attempt)
        ensures
            match mechanisms(integration, platform) {
                None => r is Failed && r->Failed_0@
                    == "dns.host_integration = \"macos\" is the /etc/resolver mechanism and only macOS reads that directory"@,
                Some(list) => if failures@.len() < list.len() {
                    r == Attempt::Try(list[failures@.len() as int])
                } else {
                    r is Failed && r->Failed_0@ == failures@.last()@
                },
            },
    {
        match mechanism_list(integration, platform) {
            None => Attempt::Failed(
                String::from_str(
                    "dns.host_integration = \"macos\" is the /etc/resolver mechanism and only macOS reads that directory",
                ),
            ),
            Some(list) => {
                let done: usize = failures.len();
                if done < list.len() {
                    Attempt::Try(list[done])
                } else {
                    Attempt::Failed(failures[done - 1].clone())
                }
            },
        }
    }

    /// The index of the link that a link-scoped mechanism works on.
    pub fn link_index(ifindex: Option<u32>) -> (r: Result<i32, String>)
        ensures
            match ifindex {
                None => r is Err && r->Err_0@ == "DNS host integration requires a kernel TUN"@,
                Some(n) => if n <= i32::MAX {
                    r is Ok && r->Ok_0 == n
                } else {
                    r is Err && r->Err_0@ == "TUN interface index is too large"@
                },
            },
    {
        match ifindex {
            None => Err(String::from_str("DNS host integration requires a kernel TUN")),
            Some(n) => if n <= 0x7fff_ffff {
                Ok(n as i32)
            } else {
                Err(String::from_str("TUN interface index is too large"))
            },
        }
    }

    /// Applies the current mesh DNS state, or restores the host at once when
    /// the control plane turns it off.
    pub fn update(self, settings: &DnsSettings, dns: &DnsConfig) -> (r: HostAction)
        ensures
            ({
                let enabled = settings.enabled && dns.magic_dns;
                r@ == match self {
                    HostRuntime::Off => HostStep::Nothing,
                    HostRuntime::ResolvConf => HostStep::Update {
                        enabled,
                        nameserver: settings.stub_address.ip.text(),
                        search_domains: texts(dns.search_domains@),
                    },
                    _ => if enabled {
                        HostStep::Apply {
                            stub: settings.stub_address,
                            zone: dns.zone@,
                            search_domains: texts(dns.search_domains@),
                        }
                    } else {
                        HostStep::Revert
                    },
                }
            }),
    {
        let enabled = settings.enabled && dns.magic_dns;
        match self {
            HostRuntime::Off => HostAction::Nothing,
            HostRuntime::ResolvConf => HostAction::Update {
                enabled,
                nameserver: settings.stub_address.ip.to_text(),
                search_domains: copy_texts(&dns.search_domains),
            },
            _ => if enabled {
                HostAction::Apply {
                    stub: settings.stub_address,
                    zone: dns.zone.clone(),
                    search_domains: copy_texts(&dns.search_domains),
                }
            } else {
                HostAction::Revert
            },
        }
    }

    /// Gives the host back as it was.
    pub fn shutdown(self) -> (r: HostAction)
        ensures
            r@ == match self {
                HostRuntime::Off => HostStep::Nothing,
                HostRuntime::ResolvConf => HostStep::Shutdown,
                _ => HostStep::Revert,
            },
    {
        match self {
            HostRuntime::Off => HostAction::Nothing,
            HostRuntime::ResolvConf => HostAction::Shutdown,
            _ => HostAction::Revert,
        }
    }

    /// The host's state in words, given whether the mechanism finds itself
    /// applied.
    pub fn observe(self, applied: bool) -> (s: &'static str)
        ensures
            s@ == if self != HostRuntime::Off && applied {
                "configured"@
            } else {
                "not configured"@
            },
    {
        match self {
            HostRuntime::Off => "not configured",
            _ => if applied {
                "configured"
            } else {
                "not configured"
            },
        }
    }

    /// The name of the mechanism.
    pub fn mechanism(self) -> (s: &'static str)
        ensures
            s@ == match self {
                HostRuntime::Off => "none"@,
                HostRuntime::Resolved => "systemd-resolved"@,
                HostRuntime::NetworkManager => "networkmanager"@,
                HostRuntime::ResolvConf => "resolv.conf"@,
                HostRuntime::Macos => "/etc/resolver"@,
            },
    {
        match self {
            HostRuntime::Off => "none",
            HostRuntime::Resolved => "systemd-resolved",
            HostRuntime::NetworkManager => "networkmanager",
            HostRuntime::ResolvConf => "resolv.conf",
            HostRuntime::Macos => "/etc/resolver",
        }
    }
}

/// How to undo the host integration without a running daemon.
#[derive(Clone, Copy, Debug, PartialEq, Eq, Structural)]
pub enum Undo {
    /// There is nothing to undo.
    Nothing,
    /// Select the mechanism without a link, and shut it down.
    Unlinked,
    /// Select the mechanism with the link's index, and shut it down.
    Linked,
}

/// Undoes the host integration without a running daemon. A link-scoped
/// mechanism lost its state together with a link that is gone; resolver files
/// outlive theirs.
pub fn revert_host(integration: HostIntegration, interface_exists: bool) -> (r: Undo)
    ensures
        r == match integration {
            HostIntegration::Off => Undo::Nothing,
            HostIntegration::Macos => Undo::Unlinked,
            HostIntegration::Resolved | HostIntegration::Networkmanager => if interface_exists {
                Undo::Linked
            } else {
                Undo::Nothing
            },
            _ => Undo::Linked,
        },
{
    match integration {
        HostIntegration::Off => Undo::Nothing,
        HostIntegration::Macos => Undo::Unlinked,
        HostIntegration::Resolved | HostIntegration::Networkmanager => if interface_exists {
            Undo::Linked
        } else {
            Undo::Nothing
        },
        _ => Undo::Linked,
    }
}

/// How to replace the listeners for a new netmap.
#[derive(Debug)]
pub struct Replacement {
    /// The resolver to start, where there is a zone to serve.
    pub resolver: Option<Resolver>,
    /// Whether it listens inside the userspace stack.
    pub userspace: bool,
}

/// Replaces the listeners: the resolver is built first, so that a malformed
/// update leaves a working service alone. Only with a replacement in hand is
/// the old listener stopped.
pub fn reconcile(built: Result<Option<Resolver>, Error>, userspace: bool) -> (r: Result<
    Replacement,
    String,
>)
    ensures
        match built {
            Ok(resolver) => r is Ok && r->Ok_0.resolver == resolver && r->Ok_0.userspace
                == userspace,
            Err(e) => r is Err && r->Err_0@ == e@.text(),
        },
{
    match built {
        Ok(resolver) => Ok(Replacement { resolver, userspace }),
        Err(e) => Err(e.to_text()),
    }
}

/// The first length-prefixed message in a byte stream, if it is complete.
pub open spec fn framed(stream: Seq<u8>) -> Option<Seq<u8>> {
    if stream.len() < 2 {
        None
    } else {
        let length = stream[0] * 256 + stream[1];
        if stream.len() < 2 + length {
            None
        } else {
            Some(stream.subrange(2, 2 + length))
        }
    }
}

/// A message behind its length.
pub open spec fn frame(message: Seq<u8>) -> Seq<u8> {
    seq![(message.len() / 256) as u8, (message.len() % 256) as u8] + message
}

/// A framed message reads back, whatever follows it.
pub proof fn a_framed_message_reads_back(message: Seq<u8>, rest: Seq<u8>)
    requires
        message.len() <= u16::MAX,
    ensures
        framed(frame(message) + rest) == Some(message),
{
    let s = frame(message) + rest;
    assert(s.subrange(2, (2 + message.len()) as int) =~= message);
}

/// What the userspace TCP listener does next.
#[derive(Clone, Copy, Debug, PartialEq, Eq, Structural)]
pub enum TcpStep {
    /// Take what has arrived.
    Receive,
    /// The connection is over: listen for the next.
    Listen,
    /// Nothing is to be done.
    Wait,
}

/// The userspace TCP listener: one connection at a time, one request on it.
#[derive(Debug)]
pub struct Runtime {
    /// The part of a request that has arrived.
    pub request: Vec<u8>,
}

impl Runtime {
    /// Nothing has arrived yet.
    pub fn start_userspace() -> (r: Runtime)
        ensures
            r.request@.len() == 0,
    {
        Runtime { request: Vec::new() }
    }

    /// What to do about the connection.
    pub fn poll(&self, can_recv: bool, listening: bool, active: bool) -> (r: TcpStep)
        ensures
            r == if can_recv {
                TcpStep::Receive
            } else if !listening && !active {
                TcpStep::Listen
            } else {
                TcpStep::Wait
            },
    {
        if can_recv {
            TcpStep::Receive
        } else if !listening && !active {
            TcpStep::Listen
        } else {
            TcpStep::Wait
        }
    }

    /// Bytes arrived. Returns the request once it is complete; the next one
    /// then starts afresh.
    pub fn received(&mut self, bytes: &[u8]) -> (r: Option<Vec<u8>>)
        ensures
            match framed(old(self).request@ + bytes@) {
                Some(message) => r is Some && r->0@ == message && final(self).request@.len() == 0,
                None => r is None && final(self).request@ == old(self).request@ + bytes@,
            },
    {
        self.request.extend_from_slice(bytes);
        assert(self.request@ =~= old(self).request@ + bytes@);
        let have: usize = self.request.len();
        if have < 2 {
            return None;
        }
        let length: usize = self.request[0] as usize * 256 + self.request[1] as usize;
        if have - 2 < length {
            return None;
        }
        let mut message: Vec<u8> = Vec::new();
        let mut i: usize = 2;
        let ghost stream = self.request@;
        while i < 2 + length
            invariant
                2 <= i <= 2 + length <= self.request@.len(),
                length <= 65535,
                self.request@ == stream,
                message@ == stream.subrange(2, i as int),
            decreases 2 + length - i,
        {
            message.push(self.request[i]);
            assert(message@ =~= stream.subrange(2, i + 1));
            i = i + 1;
        }
        self.request = Vec::new();
        Some(message)
    }

    /// The answer to a request: what handling it gave, else the server failure
    /// that the request allows, else nothing.
    pub fn answer(handled: Option<Vec<u8>>, servfail: Option<Vec<u8>>) -> (r: Option<Vec<u8>>)
        ensures
            r == match handled {
                Some(_) => handled,
                None => servfail,
            },
    {
        match handled {
            Some(v) => Some(v),
            None => servfail,
        }
    }

    /// An answer behind its length; an answer too long for that is not sent.
    pub fn reply(response: &Vec<u8>) -> (r: Option<Vec<u8>>)
        ensures
            match r {
                Some(bytes) => response@.len() <= u16::MAX && bytes@ == frame(response@),
                None => response@.len() > u16::MAX,
            },
    {
        let n: usize = response.len();
        if n > 65535 {
            return None;
        }
        let mut bytes: Vec<u8> = Vec::new();
        bytes.push((n / 256) as u8);
        bytes.push((n % 256) as u8);
        bytes.extend_from_slice(response.as_slice());
        assert(bytes@ =~= frame(response@));
        Some(bytes)
    }
}

/// What the resolver decided about a request.
#[derive(Debug)]
pub enum Decision {
    /// It answers by itself.
    Respond(Vec<u8>),
    /// Others answer; `split` when they are resolvers of a route.
    Forward { resolvers: Vec<SocketAddr>, split: bool },
}

/// How a request in the userspace stack is handled.
#[derive(Debug)]
pub enum Handling {
    Respond(Vec<u8>),
    /// Ask these over the overlay.
    Overlay(Vec<SocketAddr>),
    /// Ask over the host's own sockets.
    Host,
}

/// Only a split route promises mesh reachability; global upstreams are ordinary
/// nameservers and keep the host's path.
pub fn userspace_handle_wire(decision: Decision) -> (r: Handling)
    ensures
        match decision {
            Decision::Respond(bytes) => r == Handling::Respond(bytes),
            Decision::Forward { resolvers, split } => if split {
                r == Handling::Overlay(resolvers)
            } else {
                r is Host
            },
        },
{
    match decision {
        Decision::Respond(bytes) => Handling::Respond(bytes),
        Decision::Forward { resolvers, split } => if split {
            Handling::Overlay(resolvers)
        } else {
            Handling::Host
        },
    }
}

/// Asking the resolvers of a split route over the overlay, one after another.
#[derive(Debug)]
pub struct Forward {
    pub resolvers: Vec<SocketAddr>,
    /// The resolver that is being asked.
    pub at: usize,
    pub last_error: Option<String>,
}

/// What happened to the resolver that was asked.
#[derive(Debug)]
pub enum Event {
    /// The request could not be sent.
    SendFailed(String),
    /// A datagram arrived; `matches` says whether it answers the request.
    Received { source: SocketAddr, matches: bool },
    /// Two seconds passed.
    TimedOut,
}

impl Forward {
    /// The position is within the list.
    pub open spec fn wf(self) -> bool {
        self.at <= self.resolvers@.len()
    }

    /// Starts with the first resolver.
    pub fn userspace_forward(resolvers: Vec<SocketAddr>) -> (f: Forward)
        ensures
            f.wf(),
            f.resolvers == resolvers,
            f.at == 0,
            f.last_error is None,
    {
        Forward { resolvers, at: 0, last_error: None }
    }

    /// The resolver to ask, or the error when every one has been asked.
    pub fn target(&self) -> (r: Result<SocketAddr, String>)
        requires
            self.wf(),
        ensures
            match r {
                Ok(a) => self.at < self.resolvers@.len() && a == self.resolvers@[self.at as int],
                Err(e) => {
                    &&& self.at == self.resolvers@.len()
                    &&& e@ == match self.last_error {
                        Some(last) => last@,
                        None => "no DNS upstream configured"@,
                    }
                },
            },
    {
        if self.at < self.resolvers.len() {
            Ok(self.resolvers[self.at])
        } else {
            match &self.last_error {
                Some(e) => Err(e.clone()),
                None => Err(String::from_str("no DNS upstream configured")),
            }
        }
    }

    /// Takes what happened to the resolver that was asked; `true` when it has
    /// answered. A datagram from anybody else, or one that does not answer the
    /// request, changes nothing.
    pub fn happened(&mut self, event: Event) -> (answered: bool)
        requires
            old(self).wf(),
            old(self).at < old(self).resolvers@.len(),
        ensures
            final(self).wf(),
            final(self).resolvers == old(self).resolvers,
            match event {
                Event::SendFailed(e) => {
                    &&& !answered
                    &&& final(self).at == old(self).at + 1
                    &&& final(self).last_error is Some
                    &&& final(self).last_error->0@ == e@
                },
                Event::TimedOut => {
                    &&& !answered
                    &&& final(self).at == old(self).at + 1
                    &&& final(self).last_error is Some
                    &&& final(self).last_error->0@ == "userspace DNS upstream timed out"@
                },
                Event::Received { source, matches } => {
                    &&& answered == (source == old(self).resolvers@[old(self).at as int] && matches)
                    &&& *final(self) == *old(self)
                },
            },
    {
        assert(self.at < self.resolvers.len());
        match event {
            Event::SendFailed(e) => {
                self.last_error = Some(e);
                self.at = self.at + 1;
                false
            },
            Event::TimedOut => {
                self.last_error = Some(String::from_str("userspace DNS upstream timed out"));
                self.at = self.at + 1;
                false
            },
            Event::Received { source, matches } => {
                source == self.resolvers[self.at] && matches
            },
        }
    }
}

/// Turning mesh DNS off leaves no zone behind: no resolver runs.
pub proof fn a_disabled_zone_is_not_served(
    settings: DnsSettings,
    dns: DnsConfig,
    peers: Seq<Peer>,
    host: Result<Seq<SocketAddr>, Fault>,
    refused: Option<Seq<char>>,
)
    requires
        !settings.enabled || !dns.magic_dns,
    ensures
        config_zone(settings, dns, peers, host, refused) == Ok::<Option<Zone>, Fault>(None),
{
}

/// A resolver that the configuration refuses is never run: there is nothing to
/// replace a running one with.
pub proof fn a_refused_zone_is_not_served(
    settings: DnsSettings,
    dns: DnsConfig,
    peers: Seq<Peer>,
    host: Result<Seq<SocketAddr>, Fault>,
    message: Seq<char>,
)
    requires
        serves(settings, dns),
    ensures
        config_zone(settings, dns, peers, host, Some(message)) is Err,
        config_zone(settings, dns, peers, host, None) is Ok ==> config_zone(
            settings,
            dns,
            peers,
            host,
            Some(message),
        ) == Err::<Option<Zone>, Fault>(Fault::Config(message)),
{
}

/// Every peer of the roster has a record, under its own name, and no other name
/// has: a peer that is removed stops resolving with the next netmap.
pub proof fn the_zone_is_the_roster(
    settings: DnsSettings,
    dns: DnsConfig,
    peers: Seq<Peer>,
    host: Result<Seq<SocketAddr>, Fault>,
    refused: Option<Seq<char>>,
)
    ensures
        config_zone(settings, dns, peers, host, refused) matches Ok(Some(zone)) ==> zone.peers.len()
            == peers.len() && forall|i: int|
            0 <= i < peers.len() ==> (#[trigger] zone.peers[i]).name == peers[i].name@,
{
}

/// The families never mix: a name's IPv4 records are IPv4 addresses.
pub proof fn records_keep_their_family(addresses: Seq<IpAddr>, v4: bool, i: int)
    requires
        0 <= i < of_family(addresses, v4).len(),
    ensures
        of_family(addresses, v4)[i] is V4 == v4,
        addresses.contains(of_family(addresses, v4)[i]),
    decreases addresses.len(),
{
    let before = of_family(addresses.drop_last(), v4);
    if i < before.len() {
        records_keep_their_family(addresses.drop_last(), v4, i);
        let k = choose|k: int|
            0 <= k < addresses.drop_last().len() && addresses.drop_last()[k] == before[i];
        assert(addresses[k] == before[i]);
    } else {
        assert(addresses[addresses.len() - 1] == addresses.last());
    }
}

proof fn lemma_family(addresses: Seq<IpAddr>, v4: bool)
    ensures
        of_family(addresses, v4) == addresses.filter(|ip: IpAddr| ip is V4 == v4),
    decreases addresses.len(),
{
    let pred = |ip: IpAddr| ip is V4 == v4;
    reveal(Seq::filter);
    if addresses.len() > 0 {
        lemma_family(addresses.drop_last(), v4);
    } else {
        assert(addresses.filter(pred) =~= seq![]);
    }
}

/// The records of a name are those of its addresses: every one of them, under
/// its own family, in order, and nothing else.
pub open spec fn has_records_of(record: MeshFacts, addresses: Seq<IpAddr>) -> bool {
    &&& record.ipv4 == addresses.filter(|ip: IpAddr| ip is V4)
    &&& record.ipv6 == addresses.filter(|ip: IpAddr| ip is V6)
    &&& forall|k: int|
        0 <= k < addresses.len() ==> if (#[trigger] addresses[k]) is V4 {
            record.ipv4.contains(addresses[k])
        } else {
            record.ipv6.contains(addresses[k])
        }
    &&& forall|k: int|
        0 <= k < record.ipv4.len() ==> (#[trigger] record.ipv4[k]) is V4 && addresses.contains(
            record.ipv4[k],
        )
    &&& forall|k: int|
        0 <= k < record.ipv6.len() ==> (#[trigger] record.ipv6[k]) is V6 && addresses.contains(
            record.ipv6[k],
        )
}

proof fn lemma_records(name: Seq<char>, addresses: Seq<IpAddr>)
    ensures
        has_records_of(mesh(name, addresses), addresses),
{
    let record = mesh(name, addresses);
    lemma_family(addresses, true);
    lemma_family(addresses, false);
    let one = |ip: IpAddr| ip is V4 == true;
    let two = |ip: IpAddr| ip is V4;
    let three = |ip: IpAddr| ip is V4 == false;
    let four = |ip: IpAddr| ip is V6;
    lemma_same_filter(addresses, one, two);
    lemma_same_filter(addresses, three, four);
    assert forall|k: int| 0 <= k < addresses.len() implies if (#[trigger] addresses[k]) is V4 {
        record.ipv4.contains(addresses[k])
    } else {
        record.ipv6.contains(addresses[k])
    } by {
        lemma_kept(addresses, addresses[k] is V4, k);
    }
    assert forall|k: int| 0 <= k < record.ipv4.len() implies (#[trigger] record.ipv4[k]) is V4
        && addresses.contains(record.ipv4[k]) by {
        records_keep_their_family(addresses, true, k);
    }
    assert forall|k: int| 0 <= k < record.ipv6.len() implies (#[trigger] record.ipv6[k]) is V6
        && addresses.contains(record.ipv6[k]) by {
        records_keep_their_family(addresses, false, k);
    }
}

proof fn lemma_same_filter(
    s: Seq<IpAddr>,
    p: spec_fn(IpAddr) -> bool,
    q: spec_fn(IpAddr) -> bool,
)
    requires
        forall|ip: IpAddr| #[trigger] p(ip) == q(ip),
    ensures
        s.filter(p) == s.filter(q),
    decreases s.len(),
{
    reveal(Seq::filter);
    if s.len() > 0 {
        lemma_same_filter(s.drop_last(), p, q);
        assert(p(s.last()) == q(s.last()));
    }
}

proof fn lemma_kept(addresses: Seq<IpAddr>, v4: bool, k: int)
    requires
        0 <= k < addresses.len(),
        addresses[k] is V4 == v4,
    ensures
        of_family(addresses, v4).contains(addresses[k]),
    decreases addresses.len(),
{
    let init = addresses.drop_last();
    let all = of_family(addresses, v4);
    if k < init.len() {
        lemma_kept(init, v4, k);
        let before = of_family(init, v4);
        let m = choose|m: int| 0 <= m < before.len() && before[m] == init[k];
        assert(all[m] == before[m]);
    } else {
        assert(all[all.len() - 1] == addresses[k]);
    }
}

/// The mesh zone that a node serves has one record for each peer of the roster,
/// under the peer's name, with the base address of each of its ranges. A zone
/// is served exactly where DNS is on at both ends and the zone has a name.
pub proof fn every_peer_resolves_to_its_addresses(
    settings: &DnsSettings,
    dns: &DnsConfig,
    peers: &Vec<Peer>,
    host: Result<Vec<SocketAddr>, Error>,
    refused: Option<String>,
    r: Result<Option<Resolver>, Error>,
)
    requires
        call_ensures(from_config, (settings, dns, peers, host, refused), r),
    ensures
        r matches Ok(None) <==> !(settings.enabled && dns.magic_dns && dns.zone@.len() > 0),
        r matches Ok(Some(resolver)) ==> {
            &&& resolver.zone@ == dns.zone@
            &&& resolver.magic_dns
            &&& texts(resolver.search_domains@) == texts(dns.search_domains@)
            &&& resolver.peers@.len() == peers@.len()
            &&& forall|i: int|
                0 <= i < peers@.len() ==> (#[trigger] resolver.peers@[i]).name@ == peers@[i].name@
                    && has_records_of(
                    resolver.peers@[i]@,
                    peers@[i].allowed_ips@.map_values(|range: Prefix| range.base),
                )
        },
{
    if let Ok(Some(resolver)) = r {
        let zone = resolver@.peers;
        assert(zone == roster_peers(peers@));
        assert(zone.len() == resolver.peers@.len());
        assert forall|i: int| 0 <= i < peers@.len() implies (#[trigger] resolver.peers@[i]).name@
            == peers@[i].name@ && has_records_of(
            resolver.peers@[i]@,
            peers@[i].allowed_ips@.map_values(|range: Prefix| range.base),
        ) by {
            assert(zone[i] == resolver.peers@[i]@);
            lemma_records(
                peers@[i].name@,
                peers@[i].allowed_ips@.map_values(|range: Prefix| range.base),
            );
        }
    }
}

/// The upstreams are this node's own where it names any, else the netmap's,
/// each in its place, else the host's. The netmap's routes are used, each with
/// its own resolvers, where this node accepts them, and not at all where it
/// does not.
pub proof fn upstreams_and_routes_are_those_configured(
    settings: &DnsSettings,
    dns: &DnsConfig,
    peers: &Vec<Peer>,
    host: Result<Vec<SocketAddr>, Error>,
    refused: Option<String>,
    resolver: Resolver,
)
    requires
        call_ensures(
            from_config,
            (settings, dns, peers, host, refused),
            Ok::<Option<Resolver>, Error>(Some(resolver)),
        ),
    ensures
        settings.upstream@.len() > 0 ==> resolver.nameservers@ == settings.upstream@,
        settings.upstream@.len() == 0 && dns.nameservers@.len() > 0 ==> names(
            dns.nameservers@,
            resolver.nameservers@,
        ),
        settings.upstream@.len() == 0 && dns.nameservers@.len() == 0 ==> host is Ok
            && resolver.nameservers@ == host->Ok_0@,
        !settings.accept_netmap_config ==> resolver.routes@.len() == 0,
        settings.accept_netmap_config ==> resolver.routes@.len() == dns.routes@.len() && forall|
            i: int,
        |
            0 <= i < dns.routes@.len() ==> (#[trigger] resolver.routes@[i]).match_domain@
                == dns.routes@[i].match_domain@ && names(
                dns.routes@[i].resolvers@,
                resolver.routes@[i].resolvers@,
            ),
{
    lemma_resolvers(dns.nameservers@);
    lemma_routes(dns.routes@);
    let routes = resolver@.routes;
    assert(routes.len() == resolver.routes@.len());
    assert forall|i: int| 0 <= i < resolver.routes@.len() implies (#[trigger] resolver.routes@[i])@
        == routes[i] by {}
}

/// Whether a list of resolvers names these addresses, each in its place.
pub open spec fn names(written: Seq<Named>, addresses: Seq<SocketAddr>) -> bool {
    &&& written.len() == addresses.len()
    &&& forall|i: int|
        0 <= i < written.len() ==> (#[trigger] written[i]).address == Some(addresses[i])
}

proof fn lemma_resolvers(written: Seq<Named>)
    ensures
        parsed_resolvers(written) matches Ok(a) ==> names(written, a),
        parsed_resolvers(written) matches Err(f) ==> exists|i: int|
            {
                &&& 0 <= i < written.len()
                &&& (#[trigger] written[i]).address is None
                &&& f == (Fault::Resolver { value: written[i].text@ })
                &&& forall|k: int| 0 <= k < i ==> (#[trigger] written[k]).address is Some
            },
    decreases written.len(),
{
    if written.len() > 0 {
        let init = written.drop_last();
        lemma_resolvers(init);
        match parsed_resolvers(init) {
            Ok(before) => {
                assert forall|i: int| 0 <= i < init.len() implies (#[trigger] written[i]).address
                    == Some(before[i]) by {
                    assert(init[i].address == Some(before[i]));
                }
                if parsed_resolvers(written) is Err {
                    let i = written.len() - 1;
                    assert(written[i].address is None);
                }
            },
            Err(f) => {
                let i = choose|i: int|
                    {
                        &&& 0 <= i < init.len()
                        &&& (#[trigger] init[i]).address is None
                        &&& f == (Fault::Resolver { value: init[i].text@ })
                        &&& forall|k: int| 0 <= k < i ==> (#[trigger] init[k]).address is Some
                    };
                assert(written[i] == init[i]);
                assert forall|k: int| 0 <= k < i implies (#[trigger] written[k]).address is Some by {
                    assert(init[k].address is Some);
                }
            },
        }
    }
}

proof fn lemma_routes(routes: Seq<NetmapRoute>)
    ensures
        parsed_routes(routes) matches Ok(r) ==> r.len() == routes.len() && forall|i: int|
            0 <= i < routes.len() ==> (#[trigger] r[i]).match_domain == routes[i].match_domain@
                && names(routes[i].resolvers@, r[i].resolvers),
    decreases routes.len(),
{
    if routes.len() > 0 {
        let init = routes.drop_last();
        lemma_routes(init);
        lemma_resolvers(routes.last().resolvers@);
        if let Ok(r) = parsed_routes(routes) {
            let before = parsed_routes(init)->Ok_0;
            assert forall|i: int| 0 <= i < routes.len() implies (#[trigger] r[i]).match_domain
                == routes[i].match_domain@ && names(routes[i].resolvers@, r[i].resolvers) by {
                if i < init.len() {
                    assert(before[i].match_domain == init[i].match_domain@);
                }
            }
        }
    }
}

/// A netmap describes a resolver with one record for each of its peers, under
/// the peer's name, with each of the peer's addresses; its nameservers, each in
/// its place; and its routes.
pub proof fn a_netmap_describes_its_own_peers(
    dns: &DnsConfig,
    peers: &Vec<NamedPeer>,
    refused: Option<String>,
    resolver: Resolver,
    i: int,
    addresses: Seq<IpAddr>,
)
    requires
        call_ensures(from_netmap, (dns, peers, refused), Ok::<Resolver, Error>(resolver)),
        0 <= i < peers@.len(),
        addresses.len() == peers@[i].allowed_ips@.len(),
        forall|k: int|
            0 <= k < addresses.len() ==> (#[trigger] peers@[i].allowed_ips@[k]).address == Some(
                addresses[k],
            ),
    ensures
        refused is None,
        resolver.zone@ == dns.zone@,
        resolver.magic_dns == dns.magic_dns,
        texts(resolver.search_domains@) == texts(dns.search_domains@),
        names(dns.nameservers@, resolver.nameservers@),
        resolver.routes@.len() == dns.routes@.len(),
        resolver.peers@.len() == peers@.len(),
        resolver.peers@[i].name@ == peers@[i].dns_name@,
        has_records_of(resolver.peers@[i]@, addresses),
{
    lemma_resolvers(dns.nameservers@);
    lemma_routes(dns.routes@);
    lemma_netmap_peers(peers@, i, addresses);
    let zone = resolver@.peers;
    assert(resolver@.routes.len() == resolver.routes@.len());
    assert(zone.len() == resolver.peers@.len());
    assert(zone[i] == resolver.peers@[i]@);
}

proof fn lemma_netmap_peers(peers: Seq<NamedPeer>, i: int, addresses: Seq<IpAddr>)
    requires
        parsed_peers(peers) is Ok,
        0 <= i < peers.len(),
        addresses.len() == peers[i].allowed_ips@.len(),
        forall|k: int|
            0 <= k < addresses.len() ==> (#[trigger] peers[i].allowed_ips@[k]).address == Some(
                addresses[k],
            ),
    ensures
        parsed_peers(peers)->Ok_0.len() == peers.len(),
        parsed_peers(peers)->Ok_0[i].name == peers[i].dns_name@,
        has_records_of(parsed_peers(peers)->Ok_0[i], addresses),
    decreases peers.len(),
{
    let init = peers.drop_last();
    lemma_peer_count(init);
    if i < init.len() {
        lemma_netmap_peers(init, i, addresses);
    } else {
        lemma_addresses(peers[i].dns_name@, peers[i].allowed_ips@, addresses);
        lemma_records(peers[i].dns_name@, addresses);
    }
}

proof fn lemma_peer_count(peers: Seq<NamedPeer>)
    ensures
        parsed_peers(peers) matches Ok(r) ==> r.len() == peers.len(),
    decreases peers.len(),
{
    if peers.len() > 0 {
        lemma_peer_count(peers.drop_last());
    }
}

proof fn lemma_addresses(name: Seq<char>, written: Seq<PeerAddress>, addresses: Seq<IpAddr>)
    requires
        addresses.len() == written.len(),
        forall|k: int|
            0 <= k < addresses.len() ==> (#[trigger] written[k]).address == Some(addresses[k]),
    ensures
        parsed_addresses(name, written) == Ok::<Seq<IpAddr>, Fault>(addresses),
    decreases written.len(),
{
    if written.len() > 0 {
        let init = written.drop_last();
        let before = addresses.drop_last();
        assert forall|k: int| 0 <= k < before.len() implies (#[trigger] init[k]).address == Some(
            before[k],
        ) by {
            assert(written[k].address == Some(addresses[k]));
        }
        lemma_addresses(name, init, before);
        assert(written[written.len() - 1].address == Some(addresses.last()));
        assert(before.push(addresses.last()) =~= addresses);
    } else {
        assert(addresses =~= seq![]);
    }
}

/// A message that is sent behind its length is received whole, however its
/// bytes arrive: the first part alone gives nothing, and the rest completes it.
pub proof fn a_reply_is_received_whole(
    response: &Vec<u8>,
    sent: Option<Vec<u8>>,
    first: &[u8],
    rest: &[u8],
    runtime: &mut Runtime,
    early: Option<Vec<u8>>,
    later: &mut Runtime,
    late: Option<Vec<u8>>,
)
    requires
        call_ensures(Runtime::reply, (response,), sent),
        sent matches Some(bytes) ==> first@ + rest@ == bytes@ && rest@.len() > 0,
        old(runtime).request@.len() == 0,
        call_ensures(Runtime::received, (runtime, first), early),
        *old(later) == *final(runtime),
        call_ensures(Runtime::received, (later, rest), late),
    ensures
        sent is Some <==> response@.len() <= 65535,
        sent is Some ==> {
            &&& sent->0@.len() == response@.len() + 2
            &&& early is None
            &&& late is Some && late->0@ == response@
            &&& final(later).request@.len() == 0
        },
{
    if let Some(bytes) = sent {
        let none = old(runtime).request@;
        assert(none + first@ =~= first@);
        a_framed_message_reads_back(response@, seq![]);
        assert(frame(response@) + seq![] =~= frame(response@));
        assert(first@ + rest@ == frame(response@));
        if first@.len() >= 2 {
            assert(first@[0] == frame(response@)[0] && first@[1] == frame(response@)[1]);
        }
    }
}

/// An answer counts only from the resolver that was asked, and only if it
/// matches; until then the same resolver stays the one that is asked. After a
/// failure it is the next one, and after the last none.
pub proof fn only_the_resolver_that_was_asked_answers(
    forward: &mut Forward,
    asked: Result<SocketAddr, String>,
    source: SocketAddr,
    matches: bool,
    answered: bool,
    next: Result<SocketAddr, String>,
)
    requires
        old(forward).wf(),
        call_ensures(Forward::target, (&*old(forward),), asked),
        asked is Ok,
        call_ensures(Forward::happened, (forward, Event::Received { source, matches }), answered),
        call_ensures(Forward::target, (&*final(forward),), next),
    ensures
        answered <==> asked == Ok::<SocketAddr, String>(source) && matches,
        next is Ok && next->Ok_0 == asked->Ok_0,
{
}

/// A resolver that fails, by an error or by silence, is passed over for good.
pub proof fn a_failed_resolver_is_passed_over(
    forward: &mut Forward,
    event: Event,
    answered: bool,
    next: Result<SocketAddr, String>,
)
    requires
        old(forward).wf(),
        old(forward).at < old(forward).resolvers@.len(),
        event is SendFailed || event is TimedOut,
        call_ensures(Forward::happened, (forward, event), answered),
        call_ensures(Forward::target, (&*final(forward),), next),
    ensures
        !answered,
        next matches Ok(a) ==> old(forward).at + 1 < old(forward).resolvers@.len() && a == old(
            forward,
        ).resolvers@[old(forward).at + 1],
        next is Err <==> old(forward).at + 1 == old(forward).resolvers@.len(),
{
}

/// The part of a written range in front of the slash, or all of it.
pub proof fn a_range_without_its_length(
    text: &str,
    r: String,
    address: Seq<char>,
    tail: Seq<char>,
)
    requires
        call_ensures(bare_address, (text,), r),
        forall|i: int| 0 <= i < address.len() ==> #[trigger] address[i] != '/',
        text@ == address + tail,
        tail.len() > 0 ==> tail[0] == '/',
    ensures
        r@ == address,
{
    lemma_first_char(text@, '/', address.len() as int);
    assert(text@.take(address.len() as int) =~= address);
}

proof fn lemma_first_char(s: Seq<char>, c: char, k: int)
    requires
        0 <= k <= s.len(),
        forall|i: int| 0 <= i < k ==> #[trigger] s[i] != c,
        k < s.len() ==> s[k] == c,
    ensures
        crate::text::first_index(s, c) == k,
    decreases k,
{
    if k > 0 {
        assert(s[0] != c);
        let rest = s.drop_first();
        assert forall|i: int| 0 <= i < k - 1 implies #[trigger] rest[i] != c by {
            assert(rest[i] == s[i + 1]);
        }
        lemma_first_char(rest, c, k - 1);
    }
}

/// The host's upstreams are the addresses of its words, on port 53, in order
/// and without the stub; a word that is no address is an error, and the first
/// of them is named.
pub proof fn the_hosts_upstreams_leave_the_stub_out(
    words: &Vec<PeerAddress>,
    stub: IpAddr,
    r: Result<Vec<SocketAddr>, Error>,
)
    requires
        call_ensures(host_resolvers, (words, stub), r),
    ensures
        r is Ok <==> forall|i: int| 0 <= i < words@.len() ==> (#[trigger] words@[i]).address is Some,
        r matches Ok(v) ==> {
            &&& forall|i: int|
                0 <= i < words@.len() && (#[trigger] words@[i]).address != Some(stub)
                    ==> v@.contains(SocketAddr { ip: words@[i].address->0, port: 53 })
            &&& forall|k: int|
                0 <= k < v@.len() ==> (#[trigger] v@[k]).port == 53 && v@[k].ip != stub && exists|
                    i: int,
                |
                    0 <= i < words@.len() && (#[trigger] words@[i]).address == Some(v@[k].ip)
        },
{
    lemma_upstreams(words@, stub);
}

proof fn lemma_upstreams(words: Seq<PeerAddress>, stub: IpAddr)
    ensures
        host_upstreams(words, stub) is Ok <==> forall|i: int|
            0 <= i < words.len() ==> (#[trigger] words[i]).address is Some,
        host_upstreams(words, stub) matches Ok(v) ==> {
            &&& forall|i: int|
                0 <= i < words.len() && (#[trigger] words[i]).address != Some(stub) ==> v.contains(
                    SocketAddr { ip: words[i].address->0, port: 53 },
                )
            &&& forall|k: int|
                0 <= k < v.len() ==> (#[trigger] v[k]).port == 53 && v[k].ip != stub && exists|
                    i: int,
                |
                    0 <= i < words.len() && (#[trigger] words[i]).address == Some(v[k].ip)
        },
    decreases words.len(),
{
    if words.len() > 0 {
        let init = words.drop_last();
        lemma_upstreams(init, stub);
        if host_upstreams(words, stub) is Ok {
            let before = host_upstreams(init, stub)->Ok_0;
            let v = host_upstreams(words, stub)->Ok_0;
            assert forall|i: int| 0 <= i < words.len() implies (#[trigger] words[i]).address is Some by {
                if i < init.len() {
                    assert(init[i].address is Some);
                }
            }
            assert forall|i: int|
                0 <= i < words.len() && (#[trigger] words[i]).address != Some(stub) implies v.contains(
                SocketAddr { ip: words[i].address->0, port: 53 },
            ) by {
                if i < init.len() {
                    let at = SocketAddr { ip: init[i].address->0, port: 53 };
                    assert(init[i].address != Some(stub));
                    let m = choose|m: int| 0 <= m < before.len() && before[m] == at;
                    assert(v[m] == at);
                } else {
                    assert(v[v.len() - 1] == (SocketAddr { ip: words[i].address->0, port: 53 }));
                }
            }
            assert forall|k: int| 0 <= k < v.len() implies (#[trigger] v[k]).port == 53 && v[k].ip
                != stub && exists|i: int|
                0 <= i < words.len() && (#[trigger] words[i]).address == Some(v[k].ip) by {
                if k < before.len() {
                    assert(before[k].port == 53);
                    let i = choose|i: int|
                        0 <= i < init.len() && (#[trigger] init[i]).address == Some(before[k].ip);
                    assert(words[i] == init[i]);
                } else {
                    assert(words[words.len() - 1].address == Some(v[k].ip));
                }
            }
        }
        if forall|i: int| 0 <= i < words.len() ==> (#[trigger] words[i]).address is Some {
            assert forall|i: int| 0 <= i < init.len() implies (#[trigger] init[i]).address is Some by {
                assert(words[i].address is Some);
            }
            assert(words[words.len() - 1].address is Some);
        }
    }
}

/// The host's own configuration is asked exactly where a zone is served and
/// neither this node nor the netmap names an upstream.
pub proof fn the_host_is_asked_last(settings: &DnsSettings, dns: &DnsConfig, r: bool)
    requires
        call_ensures(needs_host, (settings, dns), r),
    ensures
        r <==> settings.enabled && dns.magic_dns && dns.zone@.len() > 0 && settings.upstream@.len()
            == 0 && dns.nameservers@.len() == 0,
{
}

/// The mechanisms are tried one after another: on Linux the resolver daemon,
/// then the network manager, then the plain file; on macOS the resolver
/// directory, which exists nowhere else; on Windows none. A mechanism that was
/// asked for by name is the only one tried. The last failure is the answer.
pub proof fn mechanisms_are_tried_in_order(
    integration: HostIntegration,
    platform: Platform,
    failures: &Vec<String>,
    r: Attempt,
)
    requires
        call_ensures(HostRuntime::new, (integration, platform, failures), r),
    ensures
        integration is Auto && platform is Linux ==> {
            &&& failures@.len() == 0 ==> r == Attempt::Try(HostRuntime::Resolved)
            &&& failures@.len() == 1 ==> r == Attempt::Try(HostRuntime::NetworkManager)
            &&& failures@.len() == 2 ==> r == Attempt::Try(HostRuntime::ResolvConf)
            &&& failures@.len() >= 3 ==> r is Failed && r->Failed_0@ == failures@.last()@
        },
        failures@.len() == 0 ==> {
            &&& integration is Off ==> r == Attempt::Try(HostRuntime::Off)
            &&& integration is Resolved ==> r == Attempt::Try(HostRuntime::Resolved)
            &&& integration is Networkmanager ==> r == Attempt::Try(HostRuntime::NetworkManager)
            &&& integration is Resolvconf ==> r == Attempt::Try(HostRuntime::ResolvConf)
            &&& (integration is Macos || integration is Auto) && platform is MacOs ==> r
                == Attempt::Try(HostRuntime::Macos)
            &&& integration is Auto && platform is Windows ==> r == Attempt::Try(HostRuntime::Off)
        },
        integration is Macos && platform !is MacOs ==> r is Failed,
        failures@.len() > 0 && !(integration is Auto && platform is Linux) ==> r is Failed,
{
}

/// A mechanism points the host at the stub while mesh DNS is on at both ends,
/// and gives it back as soon as it is not, in the way that a shutdown does.
pub proof fn the_host_is_given_back(
    mechanism: HostRuntime,
    settings: &DnsSettings,
    dns: &DnsConfig,
    r: HostAction,
    end: HostAction,
)
    requires
        call_ensures(HostRuntime::update, (mechanism, settings, dns), r),
        call_ensures(HostRuntime::shutdown, (mechanism,), end),
    ensures
        mechanism is Off ==> r is Nothing && end is Nothing,
        mechanism is ResolvConf ==> end is Shutdown && (r matches HostAction::Update {
            enabled,
            nameserver,
            search_domains,
        } && enabled == (settings.enabled && dns.magic_dns) && nameserver@
            == settings.stub_address.ip.text() && texts(search_domains@) == texts(
            dns.search_domains@,
        )),
        mechanism is Resolved || mechanism is NetworkManager || mechanism is Macos ==> {
            &&& end is Revert
            &&& !(settings.enabled && dns.magic_dns) ==> r is Revert
            &&& settings.enabled && dns.magic_dns ==> (r matches HostAction::Apply {
                stub,
                zone,
                search_domains,
            } && stub == settings.stub_address && zone@ == dns.zone@ && texts(search_domains@)
                == texts(dns.search_domains@))
        },
{
}

/// Without a daemon the host is undone in every case but two: it was never
/// touched, or what was touched went with the link.
pub proof fn resolver_files_outlive_the_link(
    integration: HostIntegration,
    interface_exists: bool,
    r: Undo,
)
    requires
        call_ensures(revert_host, (integration, interface_exists), r),
    ensures
        r is Nothing <==> integration is Off || (!interface_exists && (integration is Resolved
            || integration is Networkmanager)),
        r is Unlinked <==> integration is Macos,
{
}

/// A refused or malformed update replaces nothing; an accepted one is taken as
/// it was built, and where it was asked to listen.
pub proof fn an_update_is_taken_whole_or_not_at_all(
    built: Result<Option<Resolver>, Error>,
    userspace: bool,
    r: Result<Replacement, String>,
    message: String,
)
    requires
        call_ensures(reconcile, (built, userspace), r),
        built matches Err(e) ==> call_ensures(Error::to_text, (&e,), message),
    ensures
        r is Ok <==> built is Ok,
        r matches Ok(new) ==> new.resolver == built->Ok_0 && new.userspace == userspace,
        r matches Err(text) ==> text@ == message@,
{
}

/// A request that the resolver forwards goes over the overlay where it is a
/// route's, to the route's resolvers, and by the host's own path otherwise. A
/// failure is answered only where nothing else answers.
pub proof fn only_a_route_goes_over_the_overlay(
    resolvers: Vec<SocketAddr>,
    split: bool,
    bytes: Vec<u8>,
    forwarded: Handling,
    answered: Handling,
    handled: Option<Vec<u8>>,
    servfail: Option<Vec<u8>>,
    r: Option<Vec<u8>>,
)
    requires
        call_ensures(userspace_handle_wire, (Decision::Forward { resolvers, split },), forwarded),
        call_ensures(userspace_handle_wire, (Decision::Respond(bytes),), answered),
        call_ensures(Runtime::answer, (handled, servfail), r),
    ensures
        split ==> forwarded == Handling::Overlay(resolvers),
        !split ==> forwarded is Host,
        answered == Handling::Respond(bytes),
        handled is Some ==> r == handled,
        handled is None ==> r == servfail,
{
}

/// The link index that a mechanism works on is the kernel's, where it fits.
pub proof fn a_link_has_a_small_index(ifindex: Option<u32>, r: Result<i32, String>)
    requires
        call_ensures(HostRuntime::link_index, (ifindex,), r),
    ensures
        r matches Ok(n) ==> ifindex is Some && n == ifindex->0,
        r is Ok <==> ifindex is Some && ifindex->0 < 0x8000_0000,
{
}

/// The upstreams that the host's configuration names are those of its lines, in
/// order: one more line adds at most one, which is the word behind the keyword.
pub proof fn a_line_names_one_upstream(
    text: &str,
    longer: &str,
    a: Vec<String>,
    b: Vec<String>,
    x: Vec<String>,
    y: Vec<String>,
    line: &str,
    body: String,
    s: &str,
    keyword: String,
    rest: &str,
    tail: String,
    t: &str,
    word: String,
    contents: &[u8],
    z: Vec<String>,
)
    requires
        call_ensures(lines, (text,), a),
        call_ensures(lines, (longer,), b),
        texts(b@) == texts(a@).push(line@),
        call_ensures(words_in, (text,), x),
        call_ensures(words_in, (longer,), y),
        call_ensures(trim, (line,), body),
        s@ == body@,
        call_ensures(leading_word, (s,), keyword),
        rest@ == body@.skip(keyword@.len() as int),
        call_ensures(trim, (rest,), tail),
        t@ == tail@,
        call_ensures(leading_word, (t,), word),
        lossy_text(contents@) == text@,
        call_ensures(host_words, (contents,), z),
    ensures
        texts(y@) == if keyword@ == "nameserver"@ && word@.len() > 0 {
            texts(x@).push(word@)
        } else {
            texts(x@)
        },
        a@.len() == 0 ==> x@.len() == 0,
        texts(z@) == texts(x@),
{
    assert(texts(b@).drop_last() =~= texts(a@));
    assert(texts(b@).last() == line@);
    assert(texts(x@).len() == x@.len());
    assert(texts(a@).len() == a@.len());
}

/// The mechanism that is in use goes by its name, and is configured if it finds
/// itself applied; without one nothing is.
pub proof fn a_mechanism_goes_by_its_name(
    m: HostRuntime,
    name: &'static str,
    on: &'static str,
    off: &'static str,
)
    requires
        call_ensures(HostRuntime::mechanism, (m,), name),
        call_ensures(HostRuntime::observe, (m, true), on),
        call_ensures(HostRuntime::observe, (m, false), off),
    ensures
        m is Off ==> name@ == "none"@ && on@ == "not configured"@,
        m is Resolved ==> name@ == "systemd-resolved"@,
        m is NetworkManager ==> name@ == "networkmanager"@,
        m is ResolvConf ==> name@ == "resolv.conf"@,
        m is Macos ==> name@ == "/etc/resolver"@,
        !(m is Off) ==> on@ == "configured"@,
        off@ == "not configured"@,
{
}

/// What has arrived is received first; a connection that is over is listened for
/// again, and one that goes on is waited for.
pub proof fn what_has_arrived_is_received_first(
    fresh: Runtime,
    r: Runtime,
    can: bool,
    listening: bool,
    active: bool,
    step: TcpStep,
)
    requires
        call_ensures(Runtime::start_userspace, (), fresh),
        call_ensures(Runtime::poll, (&r, can, listening, active), step),
    ensures
        fresh.request@.len() == 0,
        step is Receive <==> can,
        step is Listen <==> !can && !listening && !active,
        step is Wait <==> !can && (listening || active),
{
}

/// A refusal names what could not be read, and whose it was.
pub proof fn a_refusal_names_its_value(
    value: String,
    peer: String,
    a: String,
    b: String,
    c: String,
)
    requires
        call_ensures(Error::to_text, (&Error::Resolver { value },), a),
        call_ensures(Error::to_text, (&Error::Address { peer, value },), b),
        call_ensures(Error::to_text, (&Error::Config(value),), c),
    ensures
        a@ == "netmap DNS resolver "@ + quoted_text(value@) + " is not an IP socket address"@,
        b@ == "netmap peer "@ + quoted_text(peer@) + " has invalid mesh address "@ + quoted_text(
            value@,
        ),
        c@ == value@,
{
}

} // verus!
