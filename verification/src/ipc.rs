//! The local control socket: its commands, and who may reach it.
//!
//! A client connects, writes one command line, shuts down its write half, and
//! reads the reply to the end. The shutdown is the frame.
//!
//! Anyone who can talk to the control socket can stop the tunnel, so the
//! directory that holds it is closed to other users before the socket exists.
//! A second socket may be opened for status alone; that one any local user may
//! reach.

use crate::text::{
    a_line_reads_back, begins_with, chars_of, has_prefix, has_white, holds_white, is_white, same,
    string_of, trim, trimmed,
};
use vstd::prelude::*;

verus! {

/// The system that the daemon runs on.
#[derive(Clone, Copy, Debug, PartialEq, Eq, Structural)]
pub enum Platform {
    Linux,
    MacOs,
    Windows,
}

/// Where the control socket lives unless told otherwise.
pub open spec fn default_socket_text(platform: Platform) -> Seq<char> {
    match platform {
        Platform::Linux => "/run/karst/karstd.sock"@,
        Platform::MacOs => "/var/run/karst/karstd.sock"@,
        Platform::Windows => "\\\\.\\pipe\\karst\\karstd"@,
    }
}

/// Where the control socket lives unless told otherwise.
pub fn default_socket(platform: Platform) -> (s: &'static str)
    ensures
        s@ == default_socket_text(platform),
{
    match platform {
        Platform::Linux => "/run/karst/karstd.sock",
        Platform::MacOs => "/var/run/karst/karstd.sock",
        Platform::Windows => "\\\\.\\pipe\\karst\\karstd",
    }
}

/// Where the status socket lives when it is asked for.
pub open spec fn default_status_socket_text(platform: Platform) -> Seq<char> {
    match platform {
        Platform::Linux => "/run/karst-status/karstd.sock"@,
        Platform::MacOs => "/var/run/karst-status/karstd.sock"@,
        Platform::Windows => "\\\\.\\pipe\\karst-status\\karstd"@,
    }
}

/// Where the status socket lives when it is asked for.
pub fn default_status_socket(platform: Platform) -> (s: &'static str)
    ensures
        s@ == default_status_socket_text(platform),
{
    match platform {
        Platform::Linux => "/run/karst-status/karstd.sock",
        Platform::MacOs => "/var/run/karst-status/karstd.sock",
        Platform::Windows => "\\\\.\\pipe\\karst-status\\karstd",
    }
}

/// The socket path to use, honouring an explicit override.
pub fn socket_path(explicit: Option<&str>, platform: Platform) -> (s: String)
    ensures
        s@ == match explicit {
            Some(path) => path@,
            None => default_socket_text(platform),
        },
{
    match explicit {
        Some(path) => String::from_str(path),
        None => String::from_str(default_socket(platform)),
    }
}

/// The permission bits of a socket and of the directory that holds it.
#[derive(Clone, Copy, Debug, PartialEq, Eq, Structural)]
pub struct Access {
    pub directory: u32,
    pub socket: u32,
}

/// The administrative socket: nobody but the owner reaches it.
pub fn bind() -> (a: Access)
    ensures
        a.directory == 0o700,
        a.socket == 0o600,
{
    Access { directory: 0o700, socket: 0o600 }
}

/// The status socket: any local user reaches it.
pub fn bind_unprivileged_status() -> (a: Access)
    ensures
        a.directory == 0o755,
        a.socket == 0o666,
{
    Access { directory: 0o755, socket: 0o666 }
}

/// Whether a socket file is a leftover that may be removed: it is there, and
/// nobody answers on it. A live one is never taken from a running daemon.
pub fn stale(exists: bool, answers: bool) -> (r: bool)
    ensures
        r == (exists && !answers),
{
    exists && !answers
}

/// Commands that a client may send.
#[derive(Clone, Debug, PartialEq, Eq)]
pub enum Command {
    /// Report interface, listen address, and per-peer state.
    Status,
    /// Ask the daemon to shut down.
    Down,
    /// Report the daemon's version.
    Version,
    /// Emit a support bundle.
    BugReport,
    /// Render the counters as Prometheus text.
    Metrics,
    /// Report the live DNS policy.
    DnsStatus,
    /// Explain which resolver path the current policy selects for one name.
    DnsQuery(String),
    /// List exit-route offers and the locally selected one.
    ExitList,
    /// Select one exit-route offer.
    ExitUse(String),
    /// Withdraw local exit-route consent.
    ExitDisable,
}

/// A command as a value.
pub enum Request {
    Status,
    Down,
    Version,
    BugReport,
    Metrics,
    DnsStatus,
    DnsQuery(Seq<char>),
    ExitList,
    ExitUse(Seq<char>),
    ExitDisable,
}

impl View for Command {
    type V = Request;

    open spec fn view(&self) -> Request {
        match self {
            Command::Status => Request::Status,
            Command::Down => Request::Down,
            Command::Version => Request::Version,
            Command::BugReport => Request::BugReport,
            Command::Metrics => Request::Metrics,
            Command::DnsStatus => Request::DnsStatus,
            Command::DnsQuery(name) => Request::DnsQuery(name@),
            Command::ExitList => Request::ExitList,
            Command::ExitUse(id) => Request::ExitUse(id@),
            Command::ExitDisable => Request::ExitDisable,
        }
    }
}

/// The single word that follows `keyword`, which ends in a space.
pub open spec fn argument(line: Seq<char>, keyword: Seq<char>) -> Option<Seq<char>> {
    if begins_with(line, keyword) {
        let rest = line.skip(keyword.len() as int);
        if rest.len() > 0 && !has_white(rest) {
            Some(rest)
        } else {
            None
        }
    } else {
        None
    }
}

/// The command on a line, white space around it ignored.
pub open spec fn parsed(line: Seq<char>) -> Option<Request> {
    let t = trimmed(line);
    if t == "status"@ {
        Some(Request::Status)
    } else if t == "down"@ {
        Some(Request::Down)
    } else if t == "version"@ {
        Some(Request::Version)
    } else if t == "bugreport"@ {
        Some(Request::BugReport)
    } else if t == "metrics"@ {
        Some(Request::Metrics)
    } else if t == "dns-status"@ {
        Some(Request::DnsStatus)
    } else if t == "exit-list"@ {
        Some(Request::ExitList)
    } else if t == "exit-disable"@ {
        Some(Request::ExitDisable)
    } else if argument(t, "dns-query "@) is Some {
        Some(Request::DnsQuery(argument(t, "dns-query "@)->0))
    } else if argument(t, "exit-use "@) is Some {
        Some(Request::ExitUse(argument(t, "exit-use "@)->0))
    } else {
        None
    }
}

/// How a command is written.
pub open spec fn written(command: Request) -> Seq<char> {
    match command {
        Request::Status => "status"@,
        Request::Down => "down"@,
        Request::Version => "version"@,
        Request::BugReport => "bugreport"@,
        Request::Metrics => "metrics"@,
        Request::DnsStatus => "dns-status"@,
        Request::DnsQuery(name) => "dns-query "@ + name,
        Request::ExitList => "exit-list"@,
        Request::ExitUse(id) => "exit-use "@ + id,
        Request::ExitDisable => "exit-disable"@,
    }
}

fn argument_of(line: &str, keyword: &str) -> (r: Option<String>)
    ensures
        match r {
            Some(s) => argument(line@, keyword@) == Some(s@),
            None => argument(line@, keyword@) is None,
        },
{
    let chars = chars_of(line);
    let word = chars_of(keyword);
    if !has_prefix(&chars, &word) {
        return None;
    }
    let rest = string_of(&chars, word.len(), chars.len());
    assert(rest@ =~= line@.skip(keyword@.len() as int));
    if chars.len() == word.len() || holds_white(rest.as_str()) {
        return None;
    }
    Some(rest)
}

impl Command {
    /// Parses a command line.
    pub fn parse(line: &str) -> (r: Option<Command>)
        ensures
            match r {
                Some(c) => parsed(line@) == Some(c@),
                None => parsed(line@) is None,
            },
    {
        let text = trim(line);
        let t = text.as_str();
        if same(t, "status") {
            Some(Command::Status)
        } else if same(t, "down") {
            Some(Command::Down)
        } else if same(t, "version") {
            Some(Command::Version)
        } else if same(t, "bugreport") {
            Some(Command::BugReport)
        } else if same(t, "metrics") {
            Some(Command::Metrics)
        } else if same(t, "dns-status") {
            Some(Command::DnsStatus)
        } else if same(t, "exit-list") {
            Some(Command::ExitList)
        } else if same(t, "exit-disable") {
            Some(Command::ExitDisable)
        } else {
            match argument_of(t, "dns-query ") {
                Some(name) => Some(Command::DnsQuery(name)),
                None => match argument_of(t, "exit-use ") {
                    Some(id) => Some(Command::ExitUse(id)),
                    None => None,
                },
            }
        }
    }

    /// The wire form.
    pub fn as_str(&self) -> (s: String)
        ensures
            s@ == written(self@),
    {
        match self {
            Command::Status => String::from_str("status"),
            Command::Down => String::from_str("down"),
            Command::Version => String::from_str("version"),
            Command::BugReport => String::from_str("bugreport"),
            Command::Metrics => String::from_str("metrics"),
            Command::DnsStatus => String::from_str("dns-status"),
            Command::DnsQuery(name) => {
                let mut s = String::from_str("dns-query ");
                s.append(name.as_str());
                s
            },
            Command::ExitList => String::from_str("exit-list"),
            Command::ExitUse(id) => {
                let mut s = String::from_str("exit-use ");
                s.append(id.as_str());
                s
            },
            Command::ExitDisable => String::from_str("exit-disable"),
        }
    }
}

/// The line that asks the daemon for something.
pub fn request(command: &Command) -> (s: String)
    ensures
        s@ == written(command@).push('\n'),
{
    let mut s = command.as_str();
    s.push('\n');
    s
}

/// Whether the status socket serves a command: the report, and nothing else. A
/// socket that any local user reaches must not stop the tunnel, whatever it is
/// asked.
pub fn unprivileged(command: &Command) -> (r: bool)
    ensures
        r == (command@ == Request::Status),
{
    match command {
        Command::Status => true,
        _ => false,
    }
}

/// What becomes of a line that a client sent: a command to act on, or the line
/// to answer with. Silence would look like a hung daemon.
pub fn serve(line: &str) -> (r: Result<Command, String>)
    ensures
        match r {
            Ok(c) => parsed(line@) == Some(c@),
            Err(answer) => parsed(line@) is None && answer@ == "error = \"unknown command\"\n"@,
        },
{
    match Command::parse(line) {
        Some(c) => Ok(c),
        None => Err(String::from_str("error = \"unknown command\"\n")),
    }
}

/// A command that a line can carry: the argument is one word.
pub open spec fn sendable(command: Request) -> bool {
    match command {
        Request::DnsQuery(word) | Request::ExitUse(word) => word.len() > 0 && !has_white(word),
        _ => true,
    }
}

/// Whatever a client sends, the daemon reads the same command.
pub proof fn commands_round_trip(command: Request)
    requires
        sendable(command),
    ensures
        parsed(written(command)) == Some(command),
        parsed(written(command).push('\n')) == Some(command),
{
    reveal_strlit("status");
    reveal_strlit("down");
    reveal_strlit("version");
    reveal_strlit("bugreport");
    reveal_strlit("metrics");
    reveal_strlit("dns-status");
    reveal_strlit("dns-query ");
    reveal_strlit("exit-list");
    reveal_strlit("exit-use ");
    reveal_strlit("exit-disable");
    let s = written(command);
    match command {
        Request::DnsQuery(word) => {
            assert(s.last() == word.last());
            assert(!is_white(word[word.len() - 1]));
        },
        Request::ExitUse(word) => {
            assert(s.last() == word.last());
            assert(!is_white(word[word.len() - 1]));
        },
        _ => {},
    }
    a_line_reads_back(s);
    match command {
        Request::DnsQuery(word) => {
            let key = "dns-query "@;
            assert(s.take(key.len() as int) =~= key);
            assert(s.skip(key.len() as int) =~= word);
            lemma_not_a_word(s, 10);
        },
        Request::ExitUse(word) => {
            let key = "exit-use "@;
            let other = "dns-query "@;
            assert(s.take(key.len() as int) =~= key);
            assert(s.skip(key.len() as int) =~= word);
            assert(s[0] == 'e');
            if begins_with(s, other) {
                assert(s.take(other.len() as int)[0] == other[0]);
            }
            lemma_not_a_word(s, 9);
        },
        Request::Down => {
            assert(s[0] == 'd' && s[1] == 'o');
        },
        _ => {
            assert(s.len() > 0);
            assert(s[0] == s.first());
        },
    }
}

/// None of the single-word commands has a space at `n - 1`.
proof fn lemma_not_a_word(s: Seq<char>, n: int)
    requires
        n == 9 || n == 10,
        s.len() > n,
        s[n - 1] == ' ',
    ensures
        s != "status"@,
        s != "down"@,
        s != "version"@,
        s != "bugreport"@,
        s != "metrics"@,
        s != "dns-status"@,
        s != "exit-list"@,
        s != "exit-disable"@,
{
    reveal_strlit("status");
    reveal_strlit("down");
    reveal_strlit("version");
    reveal_strlit("bugreport");
    reveal_strlit("metrics");
    reveal_strlit("dns-status");
    reveal_strlit("exit-list");
    reveal_strlit("exit-disable");
    assert("exit-disable"@[8] == 'a');
    assert("exit-disable"@[9] == 'b');
    assert("dns-status"@[8] == 'u');
}

/// A command that can be sent comes back as it was from the line it is sent as,
/// and is served; the line is the command's own words and the end of the line.
pub proof fn a_command_arrives_as_it_was_sent(
    command: &Command,
    words: String,
    s: String,
    line: &str,
    r: Option<Command>,
    served: Result<Command, String>,
)
    requires
        sendable(command@),
        call_ensures(Command::as_str, (command,), words),
        call_ensures(request, (command,), s),
        line@ == s@,
        call_ensures(Command::parse, (line,), r),
        call_ensures(serve, (line,), served),
    ensures
        s@ == words@ + seq!['\n'],
        r matches Some(c) && c@ == command@,
        served matches Ok(c) && c@ == command@,
        words@ == match *command {
            Command::Status => "status"@,
            Command::Down => "down"@,
            Command::Version => "version"@,
            Command::BugReport => "bugreport"@,
            Command::Metrics => "metrics"@,
            Command::DnsStatus => "dns-status"@,
            Command::DnsQuery(name) => "dns-query "@ + name@,
            Command::ExitList => "exit-list"@,
            Command::ExitUse(id) => "exit-use "@ + id@,
            Command::ExitDisable => "exit-disable"@,
        },
        *command matches Command::DnsQuery(name) ==> name@.len() > 0 && !has_white(name@),
        *command matches Command::ExitUse(id) ==> id@.len() > 0 && !has_white(id@),
{
    commands_round_trip(command@);
    assert(words@.push('\n') =~= words@ + seq!['\n']);
}

/// Whatever is taken for a command is that command's own words with white space
/// around them at most: of two lines that are the same command the words are the
/// same. What is no command is answered as such.
pub proof fn only_its_own_words_are_a_command(
    line: &str,
    r: Option<Command>,
    c: Command,
    words: String,
    text: String,
    served: Result<Command, String>,
)
    requires
        call_ensures(Command::parse, (line,), r),
        r matches Some(x) ==> x == c && call_ensures(Command::as_str, (&c,), words),
        call_ensures(trim, (line,), text),
        call_ensures(serve, (line,), served),
    ensures
        r is Some ==> text@ == words@ && sendable(c@),
        served is Ok <==> r is Some,
        served matches Err(e) ==> e@ == "error = \"unknown command\"\n"@,
{
    if r is Some {
        let t = trimmed(line@);
        if c@ is DnsQuery {
            assert(t =~= "dns-query "@ + t.skip("dns-query "@.len() as int));
        } else if c@ is ExitUse {
            assert(t =~= "exit-use "@ + t.skip("exit-use "@.len() as int));
        }
    }
}

/// The control socket is its owner's alone, the status socket everyone's, and
/// there only the status can be asked for. A socket that is there and does not
/// answer is stale.
pub proof fn the_status_alone_is_open(
    control: Access,
    status: Access,
    command: &Command,
    open: bool,
    exists: bool,
    answers: bool,
    gone: bool,
)
    requires
        call_ensures(bind, (), control),
        call_ensures(bind_unprivileged_status, (), status),
        call_ensures(unprivileged, (command,), open),
        call_ensures(stale, (exists, answers), gone),
    ensures
        control.directory == 0o700 && control.socket == 0o600,
        status.directory == 0o755 && status.socket == 0o666,
        open <==> *command is Status,
        gone <==> exists && !answers,
{
}

/// Each platform has its own places for the two sockets, and a path that is given
/// goes before them.
pub proof fn a_given_socket_goes_first(
    path: &str,
    platform: Platform,
    given: String,
    plain: String,
    a: &'static str,
    b: &'static str,
)
    requires
        call_ensures(socket_path, (Some(path), platform), given),
        call_ensures(socket_path, (None::<&str>, platform), plain),
        call_ensures(default_socket, (platform,), a),
        call_ensures(default_status_socket, (platform,), b),
    ensures
        given@ == path@,
        plain@ == a@,
        a@ == match platform {
            Platform::Linux => "/run/karst/karstd.sock"@,
            Platform::MacOs => "/var/run/karst/karstd.sock"@,
            Platform::Windows => "\\\\.\\pipe\\karst\\karstd"@,
        },
        b@ == match platform {
            Platform::Linux => "/run/karst-status/karstd.sock"@,
            Platform::MacOs => "/var/run/karst-status/karstd.sock"@,
            Platform::Windows => "\\\\.\\pipe\\karst-status\\karstd"@,
        },
{
}

} // verus!
