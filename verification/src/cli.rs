//! The command line: what was asked for, and what is said about it.

use crate::config::{Config, Peer};
use crate::control::{Origin, Source};
use crate::ipc::{default_socket_text, socket_path, Platform};
use crate::routing::Prefix;
use crate::text::{
    begins_with, chars_of, decimal, decimal_text, has_prefix, quoted, quoted_text, same, texts,
};
use vstd::prelude::*;

verus! {

/// The configuration file that is read unless told otherwise.
pub const DEFAULT_CONFIG: &'static str = "/etc/karst/karstd.toml";

/// What was asked for.
#[derive(Clone, Copy, Debug, PartialEq, Eq, Structural)]
pub enum Invocation {
    /// Run the daemon; every argument is an option.
    Run,
    Help,
    GenKey,
    /// Validate the configuration; the options follow the command.
    Check,
    /// Print the public keys; the options follow the command.
    PubKey,
    Unknown,
}

/// What the arguments ask for.
pub open spec fn invocation(args: Seq<Seq<char>>) -> Invocation {
    if args.len() == 0 {
        Invocation::Run
    } else if args[0] == "-h"@ || args[0] == "--help"@ {
        Invocation::Help
    } else if args[0] == "genkey"@ {
        Invocation::GenKey
    } else if args[0] == "check"@ {
        Invocation::Check
    } else if args[0] == "pubkey"@ {
        Invocation::PubKey
    } else if begins_with(args[0], "-"@) {
        Invocation::Run
    } else {
        Invocation::Unknown
    }
}

/// What the arguments ask for.
pub fn dispatch(args: &Vec<String>) -> (r: Invocation)
    ensures
        r == invocation(texts(args@)),
{
    if args.len() == 0 {
        return Invocation::Run;
    }
    assert(texts(args@)[0] == args@[0]@);
    let first = args[0].as_str();
    if same(first, "-h") || same(first, "--help") {
        return Invocation::Help;
    }
    if same(first, "genkey") {
        return Invocation::GenKey;
    }
    if same(first, "check") {
        return Invocation::Check;
    }
    if same(first, "pubkey") {
        return Invocation::PubKey;
    }
    let chars = chars_of(first);
    let dash = chars_of("-");
    if has_prefix(&chars, &dash) {
        Invocation::Run
    } else {
        Invocation::Unknown
    }
}

/// The configuration and the socket that the options from `i` on name, over
/// those named so far. An option that is not known is an error: one that was
/// silently dropped would leave the daemon with settings that nobody chose.
pub open spec fn options(
    args: Seq<Seq<char>>,
    i: nat,
    config: Seq<char>,
    socket: Option<Seq<char>>,
) -> Result<(Seq<char>, Option<Seq<char>>), Seq<char>>
    decreases args.len() - i,
{
    if i >= args.len() {
        Ok((config, socket))
    } else {
        let arg = args[i as int];
        if arg == "-c"@ || arg == "--config"@ {
            if i + 1 < args.len() {
                options(args, i + 2, args[i as int + 1], socket)
            } else {
                Err(arg + " needs a path"@)
            }
        } else if arg == "-s"@ || arg == "--socket"@ {
            if i + 1 < args.len() {
                options(args, i + 2, config, Some(args[i as int + 1]))
            } else {
                Err(arg + " needs a path"@)
            }
        } else {
            Err("unknown option "@ + quoted_text(arg))
        }
    }
}

/// The configuration and the socket that options name, the first `skip`
/// arguments left out.
pub fn parse_args(args: &Vec<String>, skip: usize, platform: Platform) -> (r: Result<
    (String, String),
    String,
>)
    requires
        skip <= args@.len(),
    ensures
        match (r, options(texts(args@), skip as nat, DEFAULT_CONFIG@, None)) {
            (Ok((config, socket)), Ok((c, s))) => {
                &&& config@ == c
                &&& socket@ == match s {
                    Some(path) => path,
                    None => default_socket_text(platform),
                }
            },
            (Err(e), Err(m)) => e@ == m,
            _ => false,
        },
{
    let mut config = String::from_str(DEFAULT_CONFIG);
    let mut socket: Option<String> = None;
    let mut i: usize = skip;
    let ghost all = texts(args@);
    let total: usize = args.len();
    while i < total
        invariant
            i <= total == args@.len(),
            all == texts(args@),
            options(all, skip as nat, DEFAULT_CONFIG@, None) == options(
                all,
                i as nat,
                config@,
                match socket {
                    Some(s) => Some(s@),
                    None => None,
                },
            ),
        decreases total - i,
    {
        let arg = args[i].as_str();
        assert(all[i as int] == arg@);
        if same(arg, "-c") || same(arg, "--config") {
            if total - i < 2 {
                let mut e = String::from_str(arg);
                e.append(" needs a path");
                return Err(e);
            }
            assert(all[i + 1] == args@[i + 1]@);
            config = args[i + 1].clone();
            i = i + 2;
        } else if same(arg, "-s") || same(arg, "--socket") {
            if total - i < 2 {
                let mut e = String::from_str(arg);
                e.append(" needs a path");
                return Err(e);
            }
            assert(all[i + 1] == args@[i + 1]@);
            socket = Some(args[i + 1].clone());
            i = i + 2;
        } else {
            let shown = quoted(arg);
            let mut e = String::from_str("unknown option ");
            e.append(shown.as_str());
            return Err(e);
        }
    }
    let path = match &socket {
        Some(s) => socket_path(Some(s.as_str()), platform),
        None => socket_path(None, platform),
    };
    Ok((config, path))
}

/// Where the peer set came from, in words.
pub fn describe(source: Source) -> (s: String)
    ensures
        s@ == match source {
            Source::Roster => "karstd: peers from the local roster"@,
            Source::Server { origin, peers } => "karstd: "@ + decimal_text(peers as nat)
                + " peer(s) from "@ + match origin {
                Origin::Server => "the coordination server"@,
                Origin::Cache => "the cached netmap (the server was unreachable)"@,
            },
        },
{
    match source {
        Source::Roster => String::from_str("karstd: peers from the local roster"),
        Source::Server { origin, peers } => {
            let count = decimal(peers as u64);
            let mut s = String::from_str("karstd: ");
            s.append(count.as_str());
            s.append(" peer(s) from ");
            match origin {
                Origin::Server => s.append("the coordination server"),
                Origin::Cache => s.append("the cached netmap (the server was unreachable)"),
            }
            s
        },
    }
}

/// `s` with spaces behind it until it is `width` long.
pub open spec fn aligned(s: Seq<char>, width: nat) -> Seq<char>
    decreases width - s.len(),
{
    if s.len() < width {
        aligned(s.push(' '), width)
    } else {
        s
    }
}

fn align(s: String, width: usize) -> (r: String)
    ensures
        r@ == aligned(s@, width as nat),
{
    let mut r = s;
    let mut n: usize = chars_of(r.as_str()).len();
    while n < width
        invariant
            n == r@.len(),
            aligned(s@, width as nat) == aligned(r@, width as nat),
        decreases width - n,
    {
        r.push(' ');
        n = n + 1;
    }
    r
}

/// The ranges, one after another.
pub open spec fn ranges_text(ranges: Seq<Prefix>) -> Seq<char>
    decreases ranges.len(),
{
    if ranges.len() == 0 {
        seq![]
    } else if ranges.len() == 1 {
        ranges[0].text()
    } else {
        ranges_text(ranges.drop_last()) + ", "@ + ranges.last().text()
    }
}

fn join_ranges(ranges: &Vec<Prefix>) -> (s: String)
    ensures
        s@ == ranges_text(ranges@),
{
    let mut s = String::new();
    let mut i: usize = 0;
    while i < ranges.len()
        invariant
            i <= ranges@.len(),
            s@ == ranges_text(ranges@.take(i as int)),
        decreases ranges@.len() - i,
    {
        assert(ranges@.take(i + 1).drop_last() =~= ranges@.take(i as int));
        if i > 0 {
            s.append(", ");
        }
        let text = ranges[i].to_text();
        s.append(text.as_str());
        if i == 0 {
            assert(s@ =~= text@);
        }
        i = i + 1;
    }
    assert(ranges@.take(i as int) =~= ranges@);
    s
}

/// One peer on a line: its name, where it is reached, what it owns, and whether
/// its pre-shared key is missing. No key is on it.
pub open spec fn peer_line(peer: Peer) -> Seq<char> {
    "  "@ + aligned(peer.name@, 16) + " "@ + aligned(
        match peer.endpoint {
            Some(e) => e.text(),
            None => "(no endpoint)"@,
        },
        21,
    ) + " "@ + ranges_text(peer.allowed_ips@) + (if peer.psk_is_fallback {
        "  [no PSK — §7.3 fallback]"@
    } else {
        ""@
    }) + "\n"@
}

/// The peers on lines of their own.
pub open spec fn peer_lines(peers: Seq<Peer>) -> Seq<char>
    decreases peers.len(),
{
    if peers.len() == 0 {
        seq![]
    } else {
        peer_lines(peers.drop_last()) + peer_line(peers.last())
    }
}

fn append_peer(out: &mut String, peer: &Peer)
    ensures
        final(out)@ == old(out)@ + peer_line(*peer),
{
    let ghost before = out@;
    let name = align(peer.name.clone(), 16);
    let place = match peer.endpoint {
        Some(e) => e.to_text(),
        None => String::from_str("(no endpoint)"),
    };
    let place = align(place, 21);
    let ranges = join_ranges(&peer.allowed_ips);
    out.append("  ");
    out.append(name.as_str());
    out.append(" ");
    out.append(place.as_str());
    out.append(" ");
    out.append(ranges.as_str());
    if peer.psk_is_fallback {
        out.append("  [no PSK — §7.3 fallback]");
    } else {
        out.append("");
    }
    out.append("\n");
    assert(out@ =~= before + peer_line(*peer));
}

/// What is said of a configuration that is valid.
pub open spec fn report_text(config: Config) -> Seq<char> {
    "configuration is valid: interface "@ + config.interface@ + ", listening on "@
        + config.listen.text() + ", "@ + decimal_text(config.peers@.len()) + " peer(s)\n"@
        + peer_lines(config.peers@)
}

/// What is said of a configuration that is valid.
pub fn check_report(config: &Config) -> (s: String)
    ensures
        s@ == report_text(*config),
{
    let listen = config.listen.to_text();
    let count = decimal(config.peers.len() as u64);
    let mut s = String::from_str("configuration is valid: interface ");
    s.append(config.interface.as_str());
    s.append(", listening on ");
    s.append(listen.as_str());
    s.append(", ");
    s.append(count.as_str());
    s.append(" peer(s)\n");
    let ghost head = s@;
    let mut i: usize = 0;
    assert(s@ =~= head + peer_lines(config.peers@.take(0)));
    while i < config.peers.len()
        invariant
            i <= config.peers@.len(),
            s@ == head + peer_lines(config.peers@.take(i as int)),
        decreases config.peers@.len() - i,
    {
        assert(config.peers@.take(i + 1).drop_last() =~= config.peers@.take(i as int));
        assert(config.peers@.take(i + 1).last() == config.peers@[i as int]);
        append_peer(&mut s, &config.peers[i]);
        i = i + 1;
        assert(s@ =~= head + peer_lines(config.peers@.take(i as int)));
    }
    assert(config.peers@.take(i as int) =~= config.peers@);
    s
}

/// A report says nothing of a key: configurations that differ in their keys
/// alone are reported alike.
pub proof fn a_report_holds_no_key(a: Config, b: Config)
    requires
        a.interface@ == b.interface@,
        a.listen == b.listen,
        a.peers@.len() == b.peers@.len(),
        forall|i: int|
            0 <= i < a.peers@.len() ==> {
                &&& (#[trigger] a.peers@[i]).name@ == b.peers@[i].name@
                &&& a.peers@[i].endpoint == b.peers@[i].endpoint
                &&& a.peers@[i].allowed_ips@ == b.peers@[i].allowed_ips@
                &&& a.peers@[i].psk_is_fallback == b.peers@[i].psk_is_fallback
            },
    ensures
        report_text(a) == report_text(b),
{
    lemma_same_lines(a.peers@, b.peers@);
}

proof fn lemma_same_lines(a: Seq<Peer>, b: Seq<Peer>)
    requires
        a.len() == b.len(),
        forall|i: int|
            0 <= i < a.len() ==> {
                &&& (#[trigger] a[i]).name@ == b[i].name@
                &&& a[i].endpoint == b[i].endpoint
                &&& a[i].allowed_ips@ == b[i].allowed_ips@
                &&& a[i].psk_is_fallback == b[i].psk_is_fallback
            },
    ensures
        peer_lines(a) == peer_lines(b),
    decreases a.len(),
{
    if a.len() > 0 {
        assert(a[a.len() - 1].name@ == b[b.len() - 1].name@);
        assert forall|i: int| 0 <= i < a.drop_last().len() implies {
            &&& (#[trigger] a.drop_last()[i]).name@ == b.drop_last()[i].name@
            &&& a.drop_last()[i].endpoint == b.drop_last()[i].endpoint
            &&& a.drop_last()[i].allowed_ips@ == b.drop_last()[i].allowed_ips@
            &&& a.drop_last()[i].psk_is_fallback == b.drop_last()[i].psk_is_fallback
        } by {
            assert(a[i].name@ == b[i].name@);
        }
        lemma_same_lines(a.drop_last(), b.drop_last());
    }
}

/// The first argument says what to do: a word of its own, help, or an option of
/// the daemon. Without arguments the daemon runs.
pub proof fn the_first_argument_decides(args: &Vec<String>, r: Invocation)
    requires
        call_ensures(dispatch, (args,), r),
    ensures
        args@.len() == 0 ==> r is Run,
        args@.len() > 0 ==> {
            let word = args@[0]@;
            &&& r is Help <==> word == "-h"@ || word == "--help"@
            &&& r is GenKey <==> word == "genkey"@
            &&& r is Check <==> word == "check"@
            &&& r is PubKey <==> word == "pubkey"@
            &&& r is Run <==> word.len() > 0 && word[0] == '-' && r !is Help
        },
{
    reveal_strlit("-h");
    reveal_strlit("--help");
    reveal_strlit("genkey");
    reveal_strlit("check");
    reveal_strlit("pubkey");
    reveal_strlit("-");
    assert("genkey"@[0] == 'g' && "check"@[0] == 'c' && "pubkey"@[0] == 'p' && "-h"@[0] == '-'
        && "--help"@[0] == '-' && "-"@.len() == 1);
    if args@.len() > 0 {
        let word = args@[0]@;
        assert(texts(args@)[0] == word);
        if word.len() > 0 && word[0] == '-' {
            assert(word.take(1) =~= "-"@);
        }
        if begins_with(word, "-"@) {
            assert(word.take(1)[0] == word[0]);
        }
    }
}

proof fn lemma_options_end(
    args: Seq<Seq<char>>,
    more: Seq<Seq<char>>,
    i: nat,
    config: Seq<char>,
    socket: Option<Seq<char>>,
)
    requires
        i <= args.len(),
        options(args, i, config, socket) is Ok,
    ensures
        ({
            let (c, s) = options(args, i, config, socket)->Ok_0;
            options(args + more, i, config, socket) == options(args + more, args.len(), c, s)
        }),
    decreases args.len() - i,
{
    if i < args.len() {
        assert((args + more)[i as int] == args[i as int]);
        let arg = args[i as int];
        assert((args + more)[i as int + 1] == args[i as int + 1]) by {
            assert(i + 1 < args.len());
        }
        if arg == "-c"@ || arg == "--config"@ {
            lemma_options_end(args, more, i + 2, args[i as int + 1], socket);
        } else {
            lemma_options_end(args, more, i + 2, config, Some(args[i as int + 1]));
        }
    }
}

/// Options are read in order, and the last of a kind counts: where the arguments
/// are good so far, a further `-c` sets the configuration and leaves the socket,
/// a further `-s` the other way round; one without its path is refused by name,
/// and so is anything else.
pub proof fn the_last_option_counts(
    args: &Vec<String>,
    skip: usize,
    platform: Platform,
    r: Result<(String, String), String>,
    more: &Vec<String>,
    q: Result<(String, String), String>,
    cut: &Vec<String>,
    x: Result<(String, String), String>,
    none: &Vec<String>,
    d: Result<(String, String), String>,
    socket: String,
)
    requires
        skip <= args@.len(),
        call_ensures(parse_args, (args, skip, platform), r),
        r is Ok,
        more@.len() == args@.len() + 2,
        texts(more@).take(args@.len() as int) == texts(args@),
        call_ensures(parse_args, (more, skip, platform), q),
        cut@.len() == args@.len() + 1,
        texts(cut@).take(args@.len() as int) == texts(args@),
        call_ensures(parse_args, (cut, skip, platform), x),
        none@.len() == skip,
        call_ensures(parse_args, (none, skip, platform), d),
        call_ensures(socket_path, (None::<&str>, platform), socket),
    ensures
        ({
            let flag = more@[args@.len() as int]@;
            let value = more@[args@.len() as int + 1]@;
            let c = flag == "-c"@ || flag == "--config"@;
            let s = flag == "-s"@ || flag == "--socket"@;
            &&& q is Ok <==> c || s
            &&& c ==> q->Ok_0.0@ == value && q->Ok_0.1@ == r->Ok_0.1@
            &&& s ==> q->Ok_0.0@ == r->Ok_0.0@ && q->Ok_0.1@ == value
            &&& !c && !s ==> q->Err_0@ == "unknown option "@ + quoted_text(flag)
        }),
        ({
            let flag = cut@[args@.len() as int]@;
            let known = flag == "-c"@ || flag == "--config"@ || flag == "-s"@ || flag
                == "--socket"@;
            &&& x is Err
            &&& known ==> x->Err_0@ == flag + " needs a path"@
            &&& !known ==> x->Err_0@ == "unknown option "@ + quoted_text(flag)
        }),
        d is Ok && d->Ok_0.0@ == "/etc/karst/karstd.toml"@ && d->Ok_0.1@ == socket@,
{
    reveal_strlit("-c");
    reveal_strlit("--config");
    reveal_strlit("-s");
    reveal_strlit("--socket");
    assert("-c"@[1] == 'c' && "-s"@[1] == 's' && "-c"@.len() == 2 && "-s"@.len() == 2
        && "--config"@.len() == 8 && "--socket"@.len() == 8 && "--config"@[2] == 'c'
        && "--socket"@[2] == 's');
    let a = texts(args@);
    let n = a.len();
    let m = texts(more@);
    let k = texts(cut@);
    assert(m =~= a + seq![m[n as int], m[n as int + 1]]) by {
        assert forall|i: int| 0 <= i < n implies m[i] == a[i] by {
            assert(m.take(n as int)[i] == m[i]);
        }
    }
    assert(k =~= a + seq![k[n as int]]) by {
        assert forall|i: int| 0 <= i < n implies k[i] == a[i] by {
            assert(k.take(n as int)[i] == k[i]);
        }
    }
    lemma_options_end(a, seq![m[n as int], m[n as int + 1]], skip as nat, DEFAULT_CONFIG@, None);
    lemma_options_end(a, seq![k[n as int]], skip as nat, DEFAULT_CONFIG@, None);
    let (c, s) = options(a, skip as nat, DEFAULT_CONFIG@, None)->Ok_0;
    assert(m[n as int] == more@[n as int]@ && m[n as int + 1] == more@[n as int + 1]@);
    assert(k[n as int] == cut@[n as int]@);
    assert(options(m, n + 2, m[n as int + 1], s) == Ok::<(Seq<char>, Option<Seq<char>>), Seq<char>>(
        (m[n as int + 1], s),
    ));
    assert(options(m, n + 2, c, Some(m[n as int + 1])) == Ok::<(Seq<char>, Option<Seq<char>>), Seq<char>>(
        (c, Some(m[n as int + 1])),
    ));
}

/// Where the peers come from is said in words, with how many there are.
pub proof fn the_source_is_said_in_words(
    peers: usize,
    n: String,
    roster: String,
    server: String,
    cache: String,
)
    requires
        call_ensures(decimal, (peers as u64,), n),
        call_ensures(describe, (Source::Roster,), roster),
        call_ensures(describe, (Source::Server { origin: Origin::Server, peers },), server),
        call_ensures(describe, (Source::Server { origin: Origin::Cache, peers },), cache),
    ensures
        roster@ == "karstd: peers from the local roster"@,
        server@ == "karstd: "@ + n@ + " peer(s) from "@ + "the coordination server"@,
        cache@ == "karstd: "@ + n@ + " peer(s) from "@
            + "the cached netmap (the server was unreachable)"@,
{
}

/// A text with spaces behind it, up to a width.
pub open spec fn is_aligned(r: Seq<char>, s: Seq<char>, width: nat) -> bool {
    &&& r.len() == if s.len() < width {
        width
    } else {
        s.len()
    }
    &&& r.take(s.len() as int) == s
    &&& forall|i: int| s.len() <= i < r.len() ==> #[trigger] r[i] == ' '
}

proof fn lemma_aligned(s: Seq<char>, width: nat)
    ensures
        is_aligned(aligned(s, width), s, width),
    decreases width - s.len(),
{
    if s.len() < width {
        lemma_aligned(s.push(' '), width);
        let r = aligned(s, width);
        assert(r.take(s.len() as int) =~= s) by {
            assert forall|i: int| 0 <= i < s.len() implies r[i] == s[i] by {
                assert(r.take(s.len() as int + 1)[i] == s.push(' ')[i]);
            }
        }
        assert(r.take(s.len() as int + 1)[s.len() as int] == ' ');
    } else {
        assert(s.take(s.len() as int) =~= s);
    }
}

/// The ranges of a peer as they are written, with commas between them.
pub open spec fn written_ranges(ranges: Seq<Prefix>) -> Seq<char>
    decreases ranges.len(),
{
    if ranges.len() == 0 {
        seq![]
    } else if ranges.len() == 1 {
        ranges[0].text()
    } else {
        ranges[0].text() + ", "@ + written_ranges(ranges.drop_first())
    }
}

proof fn lemma_written_ranges(ranges: Seq<Prefix>)
    ensures
        ranges_text(ranges) == written_ranges(ranges),
    decreases ranges.len(),
{
    reveal_with_fuel(ranges_text, 3);
    reveal_with_fuel(written_ranges, 3);
    if ranges.len() == 2 {
        assert(ranges.drop_first()[0] == ranges[1]);
        assert(ranges.drop_last()[0] == ranges[0]);
        assert(ranges.last() == ranges[1]);
    } else if ranges.len() > 2 {
        let (x, y) = (ranges.drop_last(), ranges.drop_first());
        lemma_written_ranges(x);
        lemma_written_ranges(y);
        let mid = y.drop_last();
        assert(mid =~= x.drop_first());
        lemma_written_ranges(mid);
        assert(y.last() == ranges.last() && x[0] == ranges[0]);
        assert(ranges_text(y) == ranges_text(mid) + ", "@ + ranges.last().text());
        assert(written_ranges(x) == ranges[0].text() + ", "@ + written_ranges(mid));
        assert(ranges_text(ranges) == ranges_text(x) + ", "@ + ranges.last().text());
        assert(written_ranges(ranges) == ranges[0].text() + ", "@ + written_ranges(y));
        assert(ranges_text(ranges) =~= written_ranges(ranges));
    }
}

proof fn lemma_line_in(peers: Seq<Peer>, i: int) -> (r: (Seq<char>, Seq<char>))
    requires
        0 <= i < peers.len(),
    ensures
        peer_lines(peers) == r.0 + peer_line(peers[i]) + r.1,
    decreases peers.len(),
{
    let init = peers.drop_last();
    if i == peers.len() - 1 {
        let none = Seq::<char>::empty();
        assert(peer_lines(peers) =~= peer_lines(init) + peer_line(peers[i]) + none);
        (peer_lines(init), none)
    } else {
        let (a, b) = lemma_line_in(init, i);
        assert(peer_lines(peers) =~= a + peer_line(peers[i]) + (b + peer_line(peers.last())));
        (a, b + peer_line(peers.last()))
    }
}

/// The line of a peer, with its name and its endpoint in columns.
pub open spec fn line_of(p: Peer, name: Seq<char>, at: Seq<char>) -> Seq<char> {
    "  "@ + name + " "@ + at + " "@ + written_ranges(p.allowed_ips@) + (if p.psk_is_fallback {
        "  [no PSK — §7.3 fallback]"@
    } else {
        ""@
    }) + "\n"@
}

/// What stands for a peer's endpoint.
pub open spec fn endpoint_or_none(p: Peer, endpoint: Seq<char>) -> Seq<char> {
    if p.endpoint is Some {
        endpoint
    } else {
        "(no endpoint)"@
    }
}

/// A check reports the interface, the address, and how many peers there are, and
/// has a line for each peer: its name, its endpoint or that it has none, its
/// ranges, and whether it has no key of its own.
pub proof fn a_check_reports_every_peer(
    config: &Config,
    s: String,
    listen: String,
    n: String,
    i: int,
    endpoint: String,
)
    requires
        call_ensures(check_report, (config,), s),
        call_ensures(crate::addr::SocketAddr::to_text, (config.listen,), listen),
        call_ensures(decimal, (config.peers.len() as u64,), n),
        0 <= i < config.peers@.len(),
        config.peers@[i].endpoint matches Some(e) ==> call_ensures(
            crate::addr::SocketAddr::to_text,
            (e,),
            endpoint,
        ),
    ensures
        exists|name: Seq<char>, at: Seq<char>, x: Seq<char>, y: Seq<char>|
            {
                &&& is_aligned(name, config.peers@[i].name@, 16)
                &&& is_aligned(at, endpoint_or_none(config.peers@[i], endpoint@), 21)
                &&& s@ == "configuration is valid: interface "@ + config.interface@
                    + ", listening on "@ + listen@ + ", "@ + n@ + " peer(s)\n"@ + #[trigger] (x
                    + line_of(config.peers@[i], name, at) + y)
            },
{
    let p = config.peers@[i];
    let shown = if p.endpoint is Some {
        endpoint@
    } else {
        "(no endpoint)"@
    };
    lemma_aligned(p.name@, 16);
    lemma_aligned(shown, 21);
    lemma_written_ranges(p.allowed_ips@);
    let (x, y) = lemma_line_in(config.peers@, i);
    let name = aligned(p.name@, 16);
    let at = aligned(shown, 21);
    let line = line_of(p, name, at);
    assert(peer_line(p) == line);
    assert(peer_lines(config.peers@) == x + line + y);
}

} // verus!
