//! First-run provisioning from a trusted enrollment bundle.
//!
//! Keys stay local; the daemon's configuration is published only after the
//! server has authenticated the node, and never over an existing one. The
//! module decides which step comes next; the caller performs it and reports how
//! it ended.

use crate::config::{encode_hex, hex_of, ControlSection};
use crate::ipc::Platform;
use crate::random::private_key_seed;
use crate::secrets::SECRET_MODE;
use crate::text::{begins_with, byte_count, chars_of, has_prefix, string_of, trim, trimmed};
use base64ct::Encoding;
use vstd::prelude::*;
use vstd::utf8::encode_utf8;

verus! {

/// The trust anchors and the credential that a node enrolls with.
pub struct Bundle {
    pub server: String,
    pub server_kem_pin: String,
    pub server_verify_pin: String,
    pub setup_key: String,
    pub control_minimum_version: u32,
}

/// The control version that a bundle asks for when it names none.
pub const MINIMUM_VERSION: u32 = 1;

/// What a pasted invitation begins with.
pub const INVITATION_PREFIX: &'static str = "karst-invite-v1:";

/// The longest invitation, and the longest bundle, in bytes.
pub const MAX_INVITATION_BYTES: usize = 65536;

/// The bytes that URL-safe Base64 without padding spells, if it is that.
pub uninterp spec fn base64url_bytes(text: Seq<char>) -> Option<Seq<u8>>;

/// Decodes URL-safe Base64 without padding.
///
/// The result is that of `base64ct::Base64UrlUnpadded::decode_vec`, a function
/// of the text alone; text that is not such Base64 gives an error. Nothing more
/// is claimed of it.
#[verifier::external_body]
pub(crate) fn base64url_decode(text: &str) -> (r: Option<Vec<u8>>)
    ensures
        match r {
            Some(v) => base64url_bytes(text@) == Some(v@),
            None => base64url_bytes(text@) is None,
        },
{
    base64ct::Base64UrlUnpadded::decode_vec(text).ok()
}

/// Why an invitation is refused. The message never repeats any of it.
pub open spec fn invitation_payload(invitation: Seq<char>) -> Result<Seq<u8>, Seq<char>> {
    let t = trimmed(invitation);
    if encode_utf8(t).len() > MAX_INVITATION_BYTES {
        Err("enrollment invitation is too large"@)
    } else if !begins_with(t, INVITATION_PREFIX@) {
        Err(
            "unsupported enrollment invitation; request a new invitation from your administrator"@,
        )
    } else {
        match base64url_bytes(t.skip(INVITATION_PREFIX@.len() as int)) {
            Some(v) => Ok(v),
            None => Err("invalid enrollment invitation"@),
        }
    }
}

/// The bytes inside a pasted invitation.
pub fn decode_invitation(invitation: &str) -> (r: Result<Vec<u8>, String>)
    ensures
        match (r, invitation_payload(invitation@)) {
            (Ok(v), Ok(bytes)) => v@ == bytes,
            (Err(e), Err(m)) => e@ == m,
            _ => false,
        },
{
    let t = trim(invitation);
    if byte_count(t.as_str()) > MAX_INVITATION_BYTES {
        return Err(String::from_str("enrollment invitation is too large"));
    }
    let chars = chars_of(t.as_str());
    let prefix = chars_of(INVITATION_PREFIX);
    if !has_prefix(&chars, &prefix) {
        return Err(
            String::from_str(
                "unsupported enrollment invitation; request a new invitation from your administrator",
            ),
        );
    }
    let rest = string_of(&chars, prefix.len(), chars.len());
    assert(rest@ =~= t@.skip(INVITATION_PREFIX@.len() as int));
    match base64url_decode(rest.as_str()) {
        Some(v) => Ok(v),
        None => Err(String::from_str("invalid enrollment invitation")),
    }
}

/// The value of a hexadecimal digit.
pub open spec fn digit_value(b: u8) -> Option<u8> {
    crate::config::nibble_value(b)
}

/// The byte that two characters spell as a number in base 16, which may have a
/// plus sign in front.
pub open spec fn pair_value(high: u8, low: u8) -> Option<u8> {
    match (digit_value(high), digit_value(low)) {
        (Some(h), Some(l)) => Some((h * 16 + l) as u8),
        (None, Some(l)) => if high == 43 {
            Some(l)
        } else {
            None
        },
        _ => None,
    }
}

/// The bytes that the first `n` pairs spell.
pub open spec fn pairs_value(s: Seq<u8>, n: nat) -> Option<Seq<u8>>
    decreases n,
{
    if n == 0 {
        Some(seq![])
    } else {
        match (
            pairs_value(s, (n - 1) as nat),
            pair_value(s[2 * (n - 1)], s[2 * (n - 1) + 1]),
        ) {
            (Some(before), Some(b)) => Some(before.push(b)),
            _ => None,
        }
    }
}

/// The bytes of a pin.
pub open spec fn pin_value(s: Seq<char>) -> Option<Seq<u8>> {
    let bytes = encode_utf8(s);
    if !vstd::utf8::is_ascii_chars(s) || bytes.len() % 2 != 0 {
        None
    } else {
        pairs_value(bytes, bytes.len() / 2)
    }
}

fn digit(b: u8) -> (r: Option<u8>)
    ensures
        r == digit_value(b),
{
    if 48 <= b && b <= 57 {
        Some(b - 48)
    } else if 97 <= b && b <= 102 {
        Some(b - 87)
    } else if 65 <= b && b <= 70 {
        Some(b - 55)
    } else {
        None
    }
}

proof fn lemma_pairs_none(s: Seq<u8>, n: nat, m: nat)
    requires
        n <= m,
        pairs_value(s, n) is None,
    ensures
        pairs_value(s, m) is None,
    decreases m,
{
    if n < m {
        lemma_pairs_none(s, n, (m - 1) as nat);
    }
}

/// The bytes of a pin; the message for one that is none.
pub fn hex(s: &str) -> (r: Result<Vec<u8>, String>)
    ensures
        match r {
            Ok(v) => pin_value(s@) == Some(v@),
            Err(e) => pin_value(s@) is None && e@ == "invalid server pin"@,
        },
{
    let bytes = s.as_bytes();
    let n: usize = bytes.len();
    if !s.is_ascii() || n % 2 != 0 {
        return Err(String::from_str("invalid server pin"));
    }
    let mut out: Vec<u8> = Vec::new();
    let mut i: usize = 0;
    while i < n / 2
        invariant
            i <= n / 2,
            n == bytes@.len(),
            n % 2 == 0,
            bytes@ == encode_utf8(s@),
            vstd::utf8::is_ascii_chars(s@),
            pairs_value(bytes@, i as nat) == Some(out@),
        decreases n / 2 - i,
    {
        let high: u8 = bytes[2 * i];
        let low: u8 = bytes[2 * i + 1];
        let value: Option<u8> = match (digit(high), digit(low)) {
            (Some(h), Some(l)) => Some(h * 16 + l),
            (None, Some(l)) => if high == 43 {
                Some(l)
            } else {
                None
            },
            _ => None,
        };
        match value {
            Some(b) => {
                out.push(b);
            },
            None => {
                proof {
                    lemma_pairs_none(bytes@, (i + 1) as nat, (n / 2) as nat);
                }
                return Err(String::from_str("invalid server pin"));
            },
        }
        i = i + 1;
    }
    Ok(out)
}

/// What is wrong with a bundle, if anything. `suite` says whether its control
/// version is one that this node speaks, `pins` whether the pins have the shape
/// that the version asks for.
pub open spec fn bundle_fault(
    bundle: Bundle,
    suite: Result<(), String>,
    pins: Result<(), String>,
) -> Option<Seq<char>> {
    if !(begins_with(bundle.server@, "https://"@) || begins_with(bundle.server@, "http://"@))
        || bundle.setup_key@.len() == 0 {
        Some("bundle needs a control URL and an enrollment key"@)
    } else {
        match suite {
            Err(e) => Some(e@),
            Ok(()) => if pin_value(bundle.server_kem_pin@) is None || pin_value(
                bundle.server_verify_pin@,
            ) is None {
                Some("invalid server pin"@)
            } else {
                match pins {
                    Err(e) => Some(e@),
                    Ok(()) => None,
                }
            },
        }
    }
}

/// Refuses a bundle that cannot enroll a node.
pub fn validate_bundle(bundle: &Bundle, suite: Result<(), String>, pins: Result<(), String>) -> (r:
    Result<(), String>)
    ensures
        match bundle_fault(*bundle, suite, pins) {
            Some(m) => r is Err && r->Err_0@ == m,
            None => r is Ok,
        },
{
    let server = chars_of(bundle.server.as_str());
    let secure = chars_of("https://");
    let plain = chars_of("http://");
    if !(has_prefix(&server, &secure) || has_prefix(&server, &plain)) || chars_of(
        bundle.setup_key.as_str(),
    ).len() == 0 {
        return Err(String::from_str("bundle needs a control URL and an enrollment key"));
    }
    if let Err(e) = suite {
        return Err(e);
    }
    if let Err(e) = hex(bundle.server_kem_pin.as_str()) {
        return Err(e);
    }
    if let Err(e) = hex(bundle.server_verify_pin.as_str()) {
        return Err(e);
    }
    pins
}

/// A bundle file, as the caller found it. One that may not be read is not, and
/// its text does not matter; of any other, at most one byte more than a bundle
/// may have is read.
pub enum BundleFile {
    Unreadable(String),
    Found { regular: bool, mode: u32, text: Result<String, String> },
}

/// Whether a bundle file is to be read at all: a regular file that its owner
/// alone can read.
pub fn may_read(regular: bool, mode: u32) -> (r: bool)
    ensures
        r == (regular && mode % 0o100 == 0),
{
    regular && mode % 0o100 == 0
}

/// What is wrong with a bundle file, if anything.
pub open spec fn file_fault(file: BundleFile) -> Option<Seq<char>> {
    match file {
        BundleFile::Unreadable(e) => Some(e@),
        BundleFile::Found { regular, mode, text } => if !regular || mode % 0o100 != 0 {
            Some("enrollment bundle must be a regular file with mode 600; run chmod 600 on it"@)
        } else {
            match text {
                Err(e) => Some(e@),
                Ok(t) => if encode_utf8(t@).len() > MAX_INVITATION_BYTES {
                    Some("enrollment bundle is too large"@)
                } else {
                    None
                },
            }
        },
    }
}

/// Refuses a bundle file that is not private, or too large.
pub fn check_file(file: &BundleFile) -> (r: Result<(), String>)
    ensures
        match file_fault(*file) {
            Some(m) => r is Err && r->Err_0@ == m,
            None => r is Ok,
        },
{
    match file {
        BundleFile::Unreadable(e) => Err(e.clone()),
        BundleFile::Found { regular, mode, text } => {
            if !may_read(*regular, *mode) {
                return Err(
                    String::from_str(
                        "enrollment bundle must be a regular file with mode 600; run chmod 600 on it",
                    ),
                );
            }
            match text {
                Err(e) => Err(e.clone()),
                Ok(t) => {
                    if byte_count(t.as_str()) > MAX_INVITATION_BYTES {
                        return Err(String::from_str("enrollment bundle is too large"));
                    }
                    Ok(())
                },
            }
        },
    }
}

/// The permission bits of a directory that an enrollment creates.
pub const DIRECTORY_MODE: u32 = 0o700;

/// The file that holds the node's data key.
pub const DATA_KEY_FILE: &'static str = "node.key";

/// The file that holds the node's control identity.
pub const IDENTITY_FILE: &'static str = "identity.key";

/// The sealed cache of the netmap.
pub const CACHE_FILE: &'static str = "netmap.cache";

/// The configuration before it is published, where no service looks for it.
pub const STAGED_FILE: &'static str = "enrollment.toml";

/// The file whose lock keeps a second enrollment out.
pub const LOCK_FILE: &'static str = "enrollment.lock";

/// The path of a file in a directory.
pub open spec fn inside(directory: Seq<char>, name: Seq<char>) -> Seq<char> {
    if directory.len() > 0 && directory.last() != '/' {
        directory.push('/') + name
    } else {
        directory + name
    }
}

/// The path of a file in a directory.
pub fn state_path(directory: &str, name: &str) -> (s: String)
    ensures
        s@ == inside(directory@, name@),
{
    let chars = chars_of(directory);
    let mut s = String::from_str(directory);
    if chars.len() > 0 && chars[chars.len() - 1] != '/' {
        s.push('/');
    }
    s.append(name);
    s
}

/// The step that is due.
#[derive(Clone, Copy, Debug, PartialEq, Eq, Structural)]
pub enum Stage {
    /// Look at the paths.
    Paths,
    /// Look at the state directory.
    StateDirectory,
    /// Create it, for the owner alone.
    CreateState,
    /// Look at the directory of the configuration.
    ConfigDirectory,
    /// Create it, for the owner alone.
    CreateConfig,
    /// Lock the state directory.
    Lock,
    /// Have a data key.
    DataKey,
    /// Write the configuration where no service looks for it.
    Stage,
    /// Read the keys back through it.
    Keys,
    /// Build the client.
    Client,
    /// Register with the server.
    Register,
    /// Publish the configuration.
    Publish,
    /// Remove the staged copy.
    Unstage,
    Finished,
    Failed,
}

/// A directory, as the caller found it.
#[derive(Debug)]
pub enum Directory {
    Real { mode: u32 },
    NotADirectory,
    Missing,
    Unreadable(String),
}

/// How a step ended.
#[derive(Debug)]
pub enum Event {
    Paths { absolute: bool, exists: bool, parent: bool },
    Looked(Directory),
    Done,
    Failed(String),
    TimedOut,
}

/// Whether a directory is writable by its owner alone.
pub open spec fn private_directory(mode: u32) -> bool {
    (mode / 2) % 2 == 0 && (mode / 16) % 2 == 0
}

/// Where an enrollment stands, with the error of one that failed.
#[verifier::ext_equal]
pub struct Progress {
    pub stage: Stage,
    pub error: Option<Seq<char>>,
}

impl Progress {
    pub open spec fn failed(self, error: Seq<char>) -> Progress {
        Progress { stage: Stage::Failed, error: Some(error) }
    }

    pub open spec fn at(self, stage: Stage) -> Progress {
        Progress { stage, ..self }
    }

    /// A step that either succeeds or fails.
    pub open spec fn plain(self, event: Event, next: Stage) -> Progress {
        match event {
            Event::Done => self.at(next),
            Event::Failed(e) => self.failed(e@),
            _ => self.failed("unexpected event"@),
        }
    }

    /// A look at a directory.
    pub open spec fn looked(self, event: Event, create: Stage, next: Stage) -> Progress {
        match event {
            Event::Looked(Directory::Real { mode }) if private_directory(mode) => self.at(next),
            Event::Looked(Directory::Missing) => self.at(create),
            Event::Looked(Directory::Unreadable(e)) => self.failed(e@),
            Event::Looked(_) => self.failed(
                "configuration and state directories must be real directories, writable only by their owner"@,
            ),
            Event::Failed(e) => self.failed(e@),
            _ => self.failed("unexpected event"@),
        }
    }

    /// What follows when the due step ends.
    pub open spec fn after(self, event: Event) -> Progress {
        match self.stage {
            Stage::Paths => match event {
                Event::Paths { absolute, exists, parent } => if !absolute {
                    self.failed("configuration and state paths must be absolute"@)
                } else if exists {
                    self.failed(
                        "configuration already exists; use the existing daemon or explicitly remove it before re-enrollment"@,
                    )
                } else if !parent {
                    self.failed("configuration needs a parent directory"@)
                } else {
                    self.at(Stage::StateDirectory)
                },
                Event::Failed(e) => self.failed(e@),
                _ => self.failed("unexpected event"@),
            },
            Stage::StateDirectory => self.looked(
                event,
                Stage::CreateState,
                Stage::ConfigDirectory,
            ),
            Stage::CreateState => self.plain(event, Stage::ConfigDirectory),
            Stage::ConfigDirectory => self.looked(event, Stage::CreateConfig, Stage::Lock),
            Stage::CreateConfig => self.plain(event, Stage::Lock),
            Stage::Lock => self.plain(event, Stage::DataKey),
            Stage::DataKey => self.plain(event, Stage::Stage),
            Stage::Stage => self.plain(event, Stage::Keys),
            Stage::Keys => self.plain(event, Stage::Client),
            Stage::Client => self.plain(event, Stage::Register),
            Stage::Register => match event {
                Event::TimedOut => self.failed(
                    "enrollment timed out; retry with the same state directory"@,
                ),
                _ => self.plain(event, Stage::Publish),
            },
            Stage::Publish => self.plain(event, Stage::Unstage),
            Stage::Unstage => self.at(Stage::Finished),
            Stage::Finished | Stage::Failed => self,
        }
    }

    /// The permission bits of what the due step creates, if it creates
    /// anything itself: a directory for the owner alone, or the lock file.
    pub open spec fn creates(self) -> Option<u32> {
        match self.stage {
            Stage::CreateState | Stage::CreateConfig => Some(DIRECTORY_MODE),
            Stage::Lock => Some(SECRET_MODE),
            _ => None,
        }
    }

    /// The number of steps before this one.
    pub open spec fn rank(self) -> nat {
        match self.stage {
            Stage::Paths => 0,
            Stage::StateDirectory => 1,
            Stage::CreateState => 2,
            Stage::ConfigDirectory => 3,
            Stage::CreateConfig => 4,
            Stage::Lock => 5,
            Stage::DataKey => 6,
            Stage::Stage => 7,
            Stage::Keys => 8,
            Stage::Client => 9,
            Stage::Register => 10,
            Stage::Publish => 11,
            Stage::Unstage => 12,
            Stage::Finished => 13,
            Stage::Failed => 14,
        }
    }
}

/// The configuration is published only after the server has authenticated the
/// node.
pub proof fn publishing_follows_registration(p: Progress, event: Event)
    requires
        p.after(event).stage is Publish,
    ensures
        p.stage is Register && event is Done,
{
}

/// Nothing that an enrollment creates is open to anyone but its owner.
pub proof fn an_enrollment_creates_nothing_open(p: Progress)
    ensures
        p.creates() matches Some(mode) ==> mode % 0o100 == 0 && private_directory(mode),
{
}

/// A configured node is never enrolled over.
pub proof fn an_existing_configuration_is_kept(p: Progress, absolute: bool, parent: bool)
    requires
        p.stage is Paths,
    ensures
        p.after(Event::Paths { absolute, exists: true, parent }).stage is Failed,
{
}

/// An enrollment only goes forward, and so it ends.
pub proof fn enrollment_goes_forward(p: Progress, event: Event)
    requires
        !(p.stage is Finished) && !(p.stage is Failed),
    ensures
        p.after(event).rank() > p.rank(),
{
}

/// An enrollment under way.
pub struct Enrollment {
    pub bundle: Bundle,
    pub stage: Stage,
    pub error: Option<String>,
}

impl View for Enrollment {
    type V = Progress;

    open spec fn view(&self) -> Progress {
        Progress {
            stage: self.stage,
            error: match self.error {
                Some(e) => Some(e@),
                None => None,
            },
        }
    }
}

impl Enrollment {
    /// Begins to enroll.
    pub fn enroll_bundle(bundle: Bundle) -> (e: Enrollment)
        ensures
            e.bundle == bundle,
            e@ == (Progress { stage: Stage::Paths, error: None }),
    {
        Enrollment { bundle, stage: Stage::Paths, error: None }
    }

    fn fail(&mut self, error: String)
        ensures
            final(self)@ == old(self)@.failed(error@),
            final(self).bundle == old(self).bundle,
    {
        self.stage = Stage::Failed;
        self.error = Some(error);
    }

    fn advance(&mut self, event: Event, next: Stage)
        ensures
            final(self)@ == old(self)@.plain(event, next),
            final(self).bundle == old(self).bundle,
    {
        match event {
            Event::Done => {
                self.stage = next;
            },
            Event::Failed(e) => self.fail(e),
            _ => self.fail(String::from_str("unexpected event")),
        }
    }

    fn look(&mut self, event: Event, create: Stage, next: Stage)
        ensures
            final(self)@ == old(self)@.looked(event, create, next),
            final(self).bundle == old(self).bundle,
    {
        match event {
            Event::Looked(Directory::Real { mode }) => {
                if (mode / 2) % 2 == 0 && (mode / 16) % 2 == 0 {
                    self.stage = next;
                } else {
                    self.fail(
                        String::from_str(
                            "configuration and state directories must be real directories, writable only by their owner",
                        ),
                    );
                }
            },
            Event::Looked(Directory::NotADirectory) => self.fail(
                String::from_str(
                    "configuration and state directories must be real directories, writable only by their owner",
                ),
            ),
            Event::Looked(Directory::Missing) => {
                self.stage = create;
            },
            Event::Looked(Directory::Unreadable(e)) => self.fail(e),
            Event::Failed(e) => self.fail(e),
            _ => self.fail(String::from_str("unexpected event")),
        }
    }

    /// Takes the ending of the due step.
    pub fn report(&mut self, event: Event)
        ensures
            final(self)@ == old(self)@.after(event),
            final(self).bundle == old(self).bundle,
    {
        match self.stage {
            Stage::Paths => match event {
                Event::Paths { absolute, exists, parent } => {
                    if !absolute {
                        self.fail(
                            String::from_str("configuration and state paths must be absolute"),
                        );
                    } else if exists {
                        self.fail(
                            String::from_str(
                                "configuration already exists; use the existing daemon or explicitly remove it before re-enrollment",
                            ),
                        );
                    } else if !parent {
                        self.fail(String::from_str("configuration needs a parent directory"));
                    } else {
                        self.stage = Stage::StateDirectory;
                    }
                },
                Event::Failed(e) => self.fail(e),
                _ => self.fail(String::from_str("unexpected event")),
            },
            Stage::StateDirectory => self.look(event, Stage::CreateState, Stage::ConfigDirectory),
            Stage::CreateState => self.advance(event, Stage::ConfigDirectory),
            Stage::ConfigDirectory => self.look(event, Stage::CreateConfig, Stage::Lock),
            Stage::CreateConfig => self.advance(event, Stage::Lock),
            Stage::Lock => self.advance(event, Stage::DataKey),
            Stage::DataKey => self.advance(event, Stage::Stage),
            Stage::Stage => self.advance(event, Stage::Keys),
            Stage::Keys => self.advance(event, Stage::Client),
            Stage::Client => self.advance(event, Stage::Register),
            Stage::Register => match event {
                Event::TimedOut => self.fail(
                    String::from_str("enrollment timed out; retry with the same state directory"),
                ),
                other => self.advance(other, Stage::Publish),
            },
            Stage::Publish => self.advance(event, Stage::Unstage),
            Stage::Unstage => {
                self.stage = Stage::Finished;
            },
            Stage::Finished | Stage::Failed => {},
        }
    }

    /// The permission bits of what the due step creates, if it creates
    /// anything itself.
    pub fn creation_mode(&self) -> (r: Option<u32>)
        ensures
            r == self@.creates(),
    {
        match self.stage {
            Stage::CreateState | Stage::CreateConfig => Some(DIRECTORY_MODE),
            Stage::Lock => Some(SECRET_MODE),
            _ => None,
        }
    }

    /// The control section that the node registers with. Its files are in the
    /// state directory `state`.
    pub fn section(&self, state: &str) -> (s: ControlSection)
        ensures
            s.server@ == self.bundle.server@,
            s.server_kem_pin@ == self.bundle.server_kem_pin@,
            s.server_verify_pin@ == self.bundle.server_verify_pin@,
            s.identity_key_file@ == inside(state@, IDENTITY_FILE@),
            s.setup_key is Some && s.setup_key->0@ == self.bundle.setup_key@,
            s.cache_file is Some && s.cache_file->0@ == inside(state@, CACHE_FILE@),
            s.relay_ca_file is None,
    {
        ControlSection {
            server: self.bundle.server.clone(),
            server_kem_pin: self.bundle.server_kem_pin.clone(),
            server_verify_pin: self.bundle.server_verify_pin.clone(),
            identity_key_file: state_path(state, IDENTITY_FILE),
            setup_key: Some(self.bundle.setup_key.clone()),
            cache_file: Some(state_path(state, CACHE_FILE)),
            relay_ca_file: None,
        }
    }

    /// The text of the configuration, with its files in the state directory
    /// `state`. The credential is not in it.
    pub fn configuration(&self, state: &str, platform: Platform) -> (r: Result<String, String>)
        ensures
            ({
                let text = toml_text(
                    no_leaves(),
                    no_sections().insert(
                        "node"@,
                        node_settings(inside(state@, DATA_KEY_FILE@), platform),
                    ).insert(
                        "control"@,
                        control_settings(
                            self.bundle,
                            inside(state@, IDENTITY_FILE@),
                            inside(state@, CACHE_FILE@),
                        ),
                    ),
                );
                match r {
                    Ok(s) => text == Some(s@),
                    Err(e) => text is None && e@ == "cannot serialize configuration"@,
                }
            }),
    {
        let private_key_file = state_path(state, DATA_KEY_FILE);
        let identity_key_file = state_path(state, IDENTITY_FILE);
        let cache_file = state_path(state, CACHE_FILE);
        let interface = match platform {
            Platform::MacOs => "utun",
            _ => "karst0",
        };
        let mut node = new_table();
        put_text(&mut node, "listen", "0.0.0.0:51820");
        put_text(&mut node, "interface", interface);
        put_text(&mut node, "private_key_file", private_key_file.as_str());
        assert(leaves(node) == node_settings(private_key_file@, platform));
        let mut control = new_table();
        put_text(&mut control, "server", self.bundle.server.as_str());
        put_text(&mut control, "server_kem_pin", self.bundle.server_kem_pin.as_str());
        put_text(&mut control, "server_verify_pin", self.bundle.server_verify_pin.as_str());
        put_number(
            &mut control,
            "control_minimum_version",
            self.bundle.control_minimum_version as i64,
        );
        put_text(&mut control, "identity_key_file", identity_key_file.as_str());
        put_text(&mut control, "cache_file", cache_file.as_str());
        assert(leaves(control) == control_settings(
            self.bundle,
            identity_key_file@,
            cache_file@,
        ));
        assert(sections(node) =~= no_sections());
        assert(sections(control) =~= no_sections());
        let mut whole = new_table();
        put_section(&mut whole, "node", node);
        put_section(&mut whole, "control", control);
        assert(leaves(whole) =~= no_leaves());
        match table_text(&whole) {
            Some(s) => Ok(s),
            None => Err(String::from_str("cannot serialize configuration")),
        }
    }
}

/// The text of a fresh data key; none where there is a key already.
pub fn create_data_key(exists: bool) -> (r: Result<Option<String>, String>)
    ensures
        match r {
            Ok(None) => exists,
            Ok(Some(text)) => !exists && exists|seed: Seq<u8>|
                seed.len() == crate::config::PRIVATE_KEY_LEN && text@ == #[trigger] hex_of(seed),
            Err(e) => !exists && e@ == "OS randomness unavailable"@,
        },
{
    if exists {
        return Ok(None);
    }
    match private_key_seed() {
        Some(seed) => Ok(Some(encode_hex(seed.as_slice()))),
        None => Err(String::from_str("OS randomness unavailable")),
    }
}

/// The message when another process holds the lock.
pub fn lock_refused() -> (s: &'static str)
    ensures
        s@ == "another enrollment is running for this state directory"@,
{
    "another enrollment is running for this state directory"
}

/// Enrolls from a bundle file. `parsed` is what its text says, if that is a
/// bundle; no message repeats any of it.
pub fn enroll(
    file: &BundleFile,
    parsed: Option<Bundle>,
    suite: Result<(), String>,
    pins: Result<(), String>,
) -> (r: Result<Enrollment, String>)
    ensures
        match file_fault(*file) {
            Some(m) => r is Err && r->Err_0@ == m,
            None => match parsed {
                None => r is Err && r->Err_0@ == "invalid enrollment bundle"@,
                Some(bundle) => match bundle_fault(bundle, suite, pins) {
                    Some(m) => r is Err && r->Err_0@ == m,
                    None => {
                        &&& r is Ok
                        &&& r->Ok_0.bundle == bundle
                        &&& r->Ok_0@ == (Progress { stage: Stage::Paths, error: None })
                    },
                },
            },
        },
{
    if let Err(e) = check_file(file) {
        return Err(e);
    }
    match parsed {
        None => Err(String::from_str("invalid enrollment bundle")),
        Some(bundle) => match validate_bundle(&bundle, suite, pins) {
            Err(e) => Err(e),
            Ok(()) => Ok(Enrollment::enroll_bundle(bundle)),
        },
    }
}

/// Enrolls from a pasted invitation. `parsed` is what its payload says, if that
/// is a bundle; no message repeats any of it.
pub fn enroll_invitation(
    invitation: &str,
    parsed: Option<Bundle>,
    suite: Result<(), String>,
    pins: Result<(), String>,
) -> (r: Result<Enrollment, String>)
    ensures
        match invitation_payload(invitation@) {
            Err(m) => r is Err && r->Err_0@ == m,
            Ok(_) => match parsed {
                None => r is Err && r->Err_0@ == "invalid enrollment invitation"@,
                Some(bundle) => match bundle_fault(bundle, suite, pins) {
                    Some(m) => r is Err && r->Err_0@ == m,
                    None => {
                        &&& r is Ok
                        &&& r->Ok_0.bundle == bundle
                        &&& r->Ok_0@ == (Progress { stage: Stage::Paths, error: None })
                    },
                },
            },
        },
{
    if let Err(e) = decode_invitation(invitation) {
        return Err(e);
    }
    match parsed {
        None => Err(String::from_str("invalid enrollment invitation")),
        Some(bundle) => match validate_bundle(&bundle, suite, pins) {
            Err(e) => Err(e),
            Ok(()) => Ok(Enrollment::enroll_bundle(bundle)),
        },
    }
}

/// A setting of a configuration file.
pub enum Leaf {
    Text(Seq<char>),
    Number(int),
}

/// No settings.
pub open spec fn no_leaves() -> Map<Seq<char>, Leaf> {
    Map::empty()
}

/// No tables.
pub open spec fn no_sections() -> Map<Seq<char>, Map<Seq<char>, Leaf>> {
    Map::empty()
}

/// The settings of the node.
pub open spec fn node_settings(private_key_file: Seq<char>, platform: Platform) -> Map<
    Seq<char>,
    Leaf,
> {
    no_leaves().insert("listen"@, Leaf::Text("0.0.0.0:51820"@)).insert(
        "interface"@,
        Leaf::Text(
            match platform {
                Platform::MacOs => "utun"@,
                _ => "karst0"@,
            },
        ),
    ).insert("private_key_file"@, Leaf::Text(private_key_file))
}

/// The settings of the control channel. The enrollment key is not among them.
pub open spec fn control_settings(
    bundle: Bundle,
    identity_key_file: Seq<char>,
    cache_file: Seq<char>,
) -> Map<Seq<char>, Leaf> {
    no_leaves().insert("server"@, Leaf::Text(bundle.server@)).insert(
        "server_kem_pin"@,
        Leaf::Text(bundle.server_kem_pin@),
    ).insert("server_verify_pin"@, Leaf::Text(bundle.server_verify_pin@)).insert(
        "control_minimum_version"@,
        Leaf::Number(bundle.control_minimum_version as int),
    ).insert("identity_key_file"@, Leaf::Text(identity_key_file)).insert(
        "cache_file"@,
        Leaf::Text(cache_file),
    )
}

/// A value of a TOML document.
#[verifier::external_type_specification]
#[verifier::external_body]
pub struct ExTomlValue(toml::Value);

/// A table of a TOML document.
#[verifier::external_type_specification]
#[verifier::external_body]
#[verifier::reject_recursive_types(K)]
#[verifier::reject_recursive_types(V)]
pub struct ExTomlMap<K, V>(toml::map::Map<K, V>);

/// The settings that stand directly in a table.
pub uninterp spec fn leaves(table: toml::map::Map<String, toml::Value>) -> Map<Seq<char>, Leaf>;

/// The tables that stand directly in a table, with their settings.
pub uninterp spec fn sections(table: toml::map::Map<String, toml::Value>) -> Map<
    Seq<char>,
    Map<Seq<char>, Leaf>,
>;

/// How a table with these settings and these tables is written, if it can be.
pub uninterp spec fn toml_text(
    leaves: Map<Seq<char>, Leaf>,
    sections: Map<Seq<char>, Map<Seq<char>, Leaf>>,
) -> Option<Seq<char>>;

/// A table without entries.
///
/// `toml::map::Map::new` is documented to make an empty map.
#[verifier::external_body]
pub(crate) fn new_table() -> (r: toml::map::Map<String, toml::Value>)
    ensures
        leaves(r) == no_leaves(),
        sections(r) == no_sections(),
{
    toml::map::Map::new()
}

/// Puts a text into a table.
///
/// `toml::map::Map::insert` puts the value under its key, in place of what was
/// there; nothing else changes.
#[verifier::external_body]
pub(crate) fn put_text(table: &mut toml::map::Map<String, toml::Value>, key: &str, value: &str)
    ensures
        leaves(*final(table)) == leaves(*old(table)).insert(key@, Leaf::Text(value@)),
        sections(*final(table)) == sections(*old(table)).remove(key@),
{
    table.insert(key.to_owned(), toml::Value::String(value.to_owned()));
}

/// Puts a number into a table.
///
/// `toml::map::Map::insert` puts the value under its key, in place of what was
/// there; nothing else changes.
#[verifier::external_body]
pub(crate) fn put_number(table: &mut toml::map::Map<String, toml::Value>, key: &str, value: i64)
    ensures
        leaves(*final(table)) == leaves(*old(table)).insert(key@, Leaf::Number(value as int)),
        sections(*final(table)) == sections(*old(table)).remove(key@),
{
    table.insert(key.to_owned(), toml::Value::Integer(value));
}

/// Puts a table of settings into a table.
///
/// `toml::map::Map::insert` puts the value under its key, in place of what was
/// there; nothing else changes.
#[verifier::external_body]
pub(crate) fn put_section(
    table: &mut toml::map::Map<String, toml::Value>,
    key: &str,
    section: toml::map::Map<String, toml::Value>,
)
    requires
        sections(section) == no_sections(),
    ensures
        leaves(*final(table)) == leaves(*old(table)).remove(key@),
        sections(*final(table)) == sections(*old(table)).insert(key@, leaves(section)),
{
    table.insert(key.to_owned(), toml::Value::Table(section));
}

/// Writes a table out.
///
/// `toml::to_string` renders the entries in the order of their keys, so that
/// the text depends on what the table holds and on nothing else. A table that
/// is made of texts, numbers, and tables of these is all that is ever written.
#[verifier::external_body]
pub(crate) fn table_text(table: &toml::map::Map<String, toml::Value>) -> (r: Option<String>)
    ensures
        match r {
            Some(s) => toml_text(leaves(*table), sections(*table)) == Some(s@),
            None => toml_text(leaves(*table), sections(*table)) is None,
        },
{
    toml::to_string(table).ok()
}

/// An invitation is read if, without the white space around it, it is not too
/// large and carries its prefix, and what follows is base64: its bytes are then
/// the payload. Each other case is refused for its own reason.
pub proof fn an_invitation_carries_its_payload(
    invitation: &str,
    text: String,
    r: Result<Vec<u8>, String>,
)
    requires
        call_ensures(trim, (invitation,), text),
        call_ensures(decode_invitation, (invitation,), r),
    ensures
        ({
            let prefix = "karst-invite-v1:"@;
            let large = encode_utf8(text@).len() > 65536;
            let known = text@.len() >= prefix.len() && text@.take(prefix.len() as int) == prefix;
            let payload = base64url_bytes(text@.skip(prefix.len() as int));
            &&& r is Ok <==> !large && known && payload is Some
            &&& r matches Ok(v) ==> payload == Some(v@)
            &&& large ==> r->Err_0@ == "enrollment invitation is too large"@
            &&& !large && !known ==> r->Err_0@
                == "unsupported enrollment invitation; request a new invitation from your administrator"@
            &&& !large && known && payload is None ==> r->Err_0@ == "invalid enrollment invitation"@
        }),
{
}

proof fn lemma_pairs(s: Seq<u8>, n: nat)
    requires
        2 * n <= s.len(),
    ensures
        pairs_value(s, n) is Some <==> forall|i: int|
            0 <= i < n ==> is_pair(#[trigger] s[2 * i], s[2 * i + 1]),
        pairs_value(s, n) matches Some(v) ==> v.len() == n && forall|i: int|
            0 <= i < n ==> #[trigger] v[i] == pair_worth(s[2 * i], s[2 * i + 1]),
    decreases n,
{
    if n > 0 {
        lemma_pairs(s, (n - 1) as nat);
        let k = n - 1;
        assert(pair_value(s[2 * k], s[2 * k + 1]) is Some <==> is_pair(s[2 * k], s[2 * k + 1]));
    }
}

/// Whether two characters spell a byte: two hexadecimal digits in either case,
/// the first of which may be a plus sign instead.
pub open spec fn is_pair(high: u8, low: u8) -> bool {
    (crate::config::hex_worth(high) >= 0 || high == 0x2b) && crate::config::hex_worth(low) >= 0
}

/// The byte that two characters spell.
pub open spec fn pair_worth(high: u8, low: u8) -> int {
    if high == 0x2b {
        crate::config::hex_worth(low)
    } else {
        16 * crate::config::hex_worth(high) + crate::config::hex_worth(low)
    }
}

/// A server pin is read if it is made of pairs of hexadecimal digits; each pair
/// is one byte.
pub proof fn a_pin_is_read_in_pairs(s: &str, r: Result<Vec<u8>, String>)
    requires
        call_ensures(hex, (s,), r),
    ensures
        ({
            let bytes = encode_utf8(s@);
            let ascii = vstd::utf8::is_ascii_chars(s@);
            &&& r is Ok <==> ascii && bytes.len() % 2 == 0 && forall|i: int|
                0 <= i < bytes.len() / 2 ==> is_pair(#[trigger] bytes[2 * i], bytes[2 * i + 1])
            &&& r matches Ok(v) ==> v@.len() * 2 == bytes.len() && forall|i: int|
                0 <= i < v@.len() ==> #[trigger] v@[i] == pair_worth(bytes[2 * i], bytes[2 * i + 1])
            &&& r matches Err(e) ==> e@ == "invalid server pin"@
        }),
{
    let bytes = encode_utf8(s@);
    lemma_pairs(bytes, bytes.len() / 2);
}

/// A bundle is good if it names a server over HTTP and a setup key, if its suite
/// is supported, and if its pins are pins; the first thing that is wrong is said.
pub proof fn a_bundle_names_its_server(
    bundle: &Bundle,
    suite: Result<(), String>,
    pins: Result<(), String>,
    r: Result<(), String>,
    kem: &str,
    k: Result<Vec<u8>, String>,
    verify: &str,
    v: Result<Vec<u8>, String>,
)
    requires
        call_ensures(validate_bundle, (bundle, suite, pins), r),
        kem@ == bundle.server_kem_pin@,
        call_ensures(hex, (kem,), k),
        verify@ == bundle.server_verify_pin@,
        call_ensures(hex, (verify,), v),
    ensures
        ({
            let server = bundle.server@;
            let named = (begins_with(server, "https://"@) || begins_with(server, "http://"@))
                && bundle.setup_key@.len() > 0;
            &&& r is Ok <==> named && suite is Ok && k is Ok && v is Ok && pins is Ok
            &&& !named ==> r->Err_0@ == "bundle needs a control URL and an enrollment key"@
            &&& named && suite is Err ==> r->Err_0@ == suite->Err_0@
            &&& named && suite is Ok && (k is Err || v is Err) ==> r->Err_0@
                == "invalid server pin"@
            &&& named && suite is Ok && k is Ok && v is Ok && pins is Err ==> r->Err_0@
                == pins->Err_0@
        }),
        begins_with(bundle.server@, "http://"@) <==> bundle.server@.len() >= "http://"@.len()
            && bundle.server@.take("http://"@.len() as int) == "http://"@,
{
}

/// A bundle is read from a regular file that is kept from others and not too
/// large; an invitation or a file that is good and parses starts the enrollment
/// of that bundle, and nothing else does.
pub proof fn an_enrollment_starts_from_a_good_bundle(
    file: &BundleFile,
    parsed: Option<Bundle>,
    suite: Result<(), String>,
    pins: Result<(), String>,
    r: Result<Enrollment, String>,
    checked: Result<(), String>,
    invitation: &str,
    q: Result<Enrollment, String>,
    payload: Result<Vec<u8>, String>,
    valid: Result<(), String>,
    regular: bool,
    mode: u32,
    may: bool,
)
    requires
        call_ensures(enroll, (file, parsed, suite, pins), r),
        call_ensures(check_file, (file,), checked),
        call_ensures(enroll_invitation, (invitation, parsed, suite, pins), q),
        call_ensures(decode_invitation, (invitation,), payload),
        parsed matches Some(bundle) ==> call_ensures(
            validate_bundle,
            (&bundle, suite, pins),
            valid,
        ),
        call_ensures(may_read, (regular, mode), may),
    ensures
        r is Ok <==> checked is Ok && parsed is Some && valid is Ok,
        q is Ok <==> payload is Ok && parsed is Some && valid is Ok,
        r matches Ok(e) ==> e.bundle == parsed->0 && e.stage is Paths && e.error is None,
        q matches Ok(e) ==> e.bundle == parsed->0 && e.stage is Paths && e.error is None,
        checked matches Err(m) ==> r->Err_0@ == m@,
        payload matches Err(m) ==> q->Err_0@ == m@,
        checked is Ok && parsed is None ==> r->Err_0@ == "invalid enrollment bundle"@,
        payload is Ok && parsed is None ==> q->Err_0@ == "invalid enrollment invitation"@,
        checked is Ok && parsed is Some && valid is Err ==> r->Err_0@ == valid->Err_0@,
        checked is Ok <==> (*file matches BundleFile::Found { regular: g, mode: m, text } && g && m % 8
            == 0 && (m / 8) % 8 == 0 && (text matches Ok(t) && encode_utf8(t@).len() <= 65536)),
        may <==> regular && mode % 8 == 0 && (mode / 8) % 8 == 0,
{
}

/// A file of the state directory stands in it, with one slash between.
pub proof fn a_state_file_stands_in_its_directory(directory: &str, name: &str, s: String)
    requires
        call_ensures(state_path, (directory, name), s),
    ensures
        directory@.len() > 0 && directory@.last() != '/' ==> s@ == directory@ + seq!['/'] + name@,
        directory@.len() == 0 || directory@.last() == '/' ==> s@ == directory@ + name@,
{
    assert(directory@.push('/') + name@ =~= directory@ + seq!['/'] + name@);
}

/// The steps of an enrollment, from the first to the last.
pub open spec fn step_after(stage: Stage) -> Stage {
    match stage {
        Stage::CreateState => Stage::ConfigDirectory,
        Stage::CreateConfig => Stage::Lock,
        Stage::Lock => Stage::DataKey,
        Stage::DataKey => Stage::Stage,
        Stage::Stage => Stage::Keys,
        Stage::Keys => Stage::Client,
        Stage::Client => Stage::Register,
        Stage::Register => Stage::Publish,
        Stage::Publish => Stage::Unstage,
        Stage::Unstage => Stage::Finished,
        other => other,
    }
}

/// An enrollment goes step by step: a step that was done is followed by the next
/// one, and one that failed ends it with that failure. The configuration is
/// published after the registration, what was staged is cleared away last, and
/// whether that succeeds does not matter.
pub proof fn an_enrollment_goes_step_by_step(
    e: &mut Enrollment,
    lost: &mut Enrollment,
    reason: String,
    mode: Option<u32>,
)
    requires
        !(old(e).stage is Paths) && !(old(e).stage is StateDirectory) && !(
        old(e).stage is ConfigDirectory),
        call_ensures(Enrollment::report, (e, Event::Done), ()),
        *old(lost) == *old(e),
        call_ensures(Enrollment::report, (lost, Event::Failed(reason)), ()),
        call_ensures(Enrollment::creation_mode, (&*old(e),), mode),
    ensures
        final(e).stage == step_after(old(e).stage),
        final(e)@.error == old(e)@.error,
        final(e).bundle == old(e).bundle && final(lost).bundle == old(e).bundle,
        old(e).stage is Finished || old(e).stage is Failed ==> final(lost).stage == old(e).stage,
        old(e).stage is Unstage ==> final(lost).stage is Finished,
        !(old(e).stage is Unstage) && !(old(e).stage is Finished) && !(old(e).stage is Failed)
            ==> final(lost).stage is Failed && final(lost)@.error == Some(reason@),
        mode == match old(e).stage {
            Stage::CreateState | Stage::CreateConfig => Some(0o700u32),
            Stage::Lock => Some(0o600u32),
            _ => None,
        },
{
}

/// An enrollment starts with paths that are absolute, where no configuration
/// stands yet, in a directory; then each of its two directories must be one that
/// only its owner can write to, or is created.
pub proof fn an_enrollment_checks_its_directories(
    bundle: Bundle,
    fresh: Enrollment,
    e: &mut Enrollment,
    absolute: bool,
    exists: bool,
    parent: bool,
    d: &mut Enrollment,
    found: Directory,
    late: &mut Enrollment,
)
    requires
        call_ensures(Enrollment::enroll_bundle, (bundle,), fresh),
        *old(e) == fresh,
        call_ensures(Enrollment::report, (e, Event::Paths { absolute, exists, parent }), ()),
        old(d).stage is StateDirectory || old(d).stage is ConfigDirectory,
        call_ensures(Enrollment::report, (d, Event::Looked(found)), ()),
        old(late).stage is Register,
        call_ensures(Enrollment::report, (late, Event::TimedOut), ()),
    ensures
        fresh.bundle == bundle && fresh.error is None,
        final(e).stage == if absolute && !exists && parent {
            Stage::StateDirectory
        } else {
            Stage::Failed
        },
        !absolute ==> final(e)@.error == Some("configuration and state paths must be absolute"@),
        ({
            let good = found matches Directory::Real { mode } && (mode / 2) % 2 == 0 && (mode / 16)
                % 2 == 0;
            final(d).stage == if good && old(d).stage is StateDirectory {
                Stage::ConfigDirectory
            } else if good {
                Stage::Lock
            } else if found is Missing && old(d).stage is StateDirectory {
                Stage::CreateState
            } else if found is Missing {
                Stage::CreateConfig
            } else {
                Stage::Failed
            }
        }),
        final(late).stage is Failed,
{
}

/// The section that an enrolled node is configured with names the server and the
/// pins of its bundle, its setup key, and its own files in the state directory.
pub proof fn an_enrolled_node_keeps_its_bundle(
    e: Enrollment,
    state: &str,
    s: ControlSection,
    name: &str,
    identity: String,
    cache_name: &str,
    cache: String,
)
    requires
        call_ensures(Enrollment::section, (&e, state), s),
        name@ == "identity.key"@,
        call_ensures(state_path, (state, name), identity),
        cache_name@ == "netmap.cache"@,
        call_ensures(state_path, (state, cache_name), cache),
    ensures
        s.server@ == e.bundle.server@,
        s.server_kem_pin@ == e.bundle.server_kem_pin@,
        s.server_verify_pin@ == e.bundle.server_verify_pin@,
        s.identity_key_file@ == identity@,
        s.setup_key is Some && s.setup_key->0@ == e.bundle.setup_key@,
        s.cache_file is Some && s.cache_file->0@ == cache@,
        s.relay_ca_file is None,
{
}

/// The configuration of an enrolled node has two sections: where it listens, on
/// which interface, and with which key; and the server with its pins, the version
/// that it asks for, and the node's own files. The setup key is not in it.
pub proof fn an_enrolled_nodes_configuration(
    e: Enrollment,
    state: &str,
    platform: Platform,
    r: Result<String, String>,
    key_name: &str,
    key: String,
    name: &str,
    identity: String,
    cache_name: &str,
    cache: String,
    node: Map<Seq<char>, Leaf>,
    control: Map<Seq<char>, Leaf>,
)
    requires
        call_ensures(Enrollment::configuration, (&e, state, platform), r),
        key_name@ == "node.key"@,
        call_ensures(state_path, (state, key_name), key),
        name@ == "identity.key"@,
        call_ensures(state_path, (state, name), identity),
        cache_name@ == "netmap.cache"@,
        call_ensures(state_path, (state, cache_name), cache),
        node == Map::empty().insert("private_key_file"@, Leaf::Text(key@)).insert(
            "interface"@,
            Leaf::Text(
                if platform is MacOs {
                    "utun"@
                } else {
                    "karst0"@
                },
            ),
        ).insert("listen"@, Leaf::Text("0.0.0.0:51820"@)),
        control == Map::empty().insert("cache_file"@, Leaf::Text(cache@)).insert(
            "identity_key_file"@,
            Leaf::Text(identity@),
        ).insert(
            "control_minimum_version"@,
            Leaf::Number(e.bundle.control_minimum_version as int),
        ).insert("server_verify_pin"@, Leaf::Text(e.bundle.server_verify_pin@)).insert(
            "server_kem_pin"@,
            Leaf::Text(e.bundle.server_kem_pin@),
        ).insert("server"@, Leaf::Text(e.bundle.server@)),
    ensures
        ({
            let text = toml_text(
                Map::empty(),
                Map::empty().insert("control"@, control).insert("node"@, node),
            );
            &&& r is Ok <==> text is Some
            &&& r matches Ok(s) ==> text == Some(s@)
        }),
{
    reveal_strlit("private_key_file");
    reveal_strlit("interface");
    reveal_strlit("listen");
    reveal_strlit("cache_file");
    reveal_strlit("identity_key_file");
    reveal_strlit("control_minimum_version");
    reveal_strlit("server_verify_pin");
    reveal_strlit("server_kem_pin");
    reveal_strlit("server");
    reveal_strlit("control");
    reveal_strlit("node");
    assert("private_key_file"@.len() == 16 && "interface"@.len() == 9 && "listen"@.len() == 6);
    assert("cache_file"@.len() == 10 && "identity_key_file"@.len() == 17
        && "control_minimum_version"@.len() == 23 && "server_verify_pin"@.len() == 17
        && "server_kem_pin"@.len() == 14 && "server"@.len() == 6);
    assert("identity_key_file"@[0] == 'i' && "server_verify_pin"@[0] == 's');
    assert("control"@.len() == 7 && "node"@.len() == 4);
    assert(node =~= node_settings(key@, platform));
    assert(control =~= control_settings(e.bundle, identity@, cache@));
    let mine = Map::<Seq<char>, Map<Seq<char>, Leaf>>::empty().insert("control"@, control).insert(
        "node"@,
        node,
    );
    assert(mine =~= no_sections().insert("node"@, node).insert("control"@, control));
}

/// A data key is made where there is none, and is written with two digits for
/// each of its ninety-six bytes; one that is there is kept.
pub proof fn a_data_key_is_made_once(
    there: Result<Option<String>, String>,
    made: Result<Option<String>, String>,
)
    requires
        call_ensures(create_data_key, (true,), there),
        call_ensures(create_data_key, (false,), made),
    ensures
        there matches Ok(None),
        made matches Ok(x) ==> x is Some && x->0@.len() == 192,
        made matches Err(e) ==> e@ == "OS randomness unavailable"@,
{
    if let Ok(Some(text)) = made {
        let seed = choose|seed: Seq<u8>|
            seed.len() == crate::config::PRIVATE_KEY_LEN && text@ == #[trigger] hex_of(seed);
        crate::config::lemma_hex_length(seed);
    }
}

/// An enrollment that ends says why: what is wrong with its paths, with one of
/// its directories, or that it took too long; and what runs at the same time is
/// told so.
pub proof fn an_enrollment_that_ends_says_why(
    e: &mut Enrollment,
    exists: bool,
    parent: bool,
    d: &mut Enrollment,
    mode: u32,
    u: &mut Enrollment,
    reason: String,
    late: &mut Enrollment,
    busy: &'static str,
)
    requires
        old(e).stage is Paths,
        call_ensures(
            Enrollment::report,
            (e, Event::Paths { absolute: true, exists, parent }),
            (),
        ),
        old(d).stage is StateDirectory || old(d).stage is ConfigDirectory,
        call_ensures(Enrollment::report, (d, Event::Looked(Directory::Real { mode })), ()),
        *old(u) == *old(d),
        call_ensures(Enrollment::report, (u, Event::Looked(Directory::Unreadable(reason))), ()),
        old(late).stage is Register,
        call_ensures(Enrollment::report, (late, Event::TimedOut), ()),
        call_ensures(lock_refused, (), busy),
    ensures
        exists ==> final(e)@.error == Some(
            "configuration already exists; use the existing daemon or explicitly remove it before re-enrollment"@,
        ),
        !exists && !parent ==> final(e)@.error == Some("configuration needs a parent directory"@),
        !((mode / 2) % 2 == 0 && (mode / 16) % 2 == 0) ==> final(d)@.error == Some(
            "configuration and state directories must be real directories, writable only by their owner"@,
        ),
        final(u).stage is Failed && final(u)@.error == Some(reason@),
        final(late)@.error == Some("enrollment timed out; retry with the same state directory"@),
        busy@ == "another enrollment is running for this state directory"@,
{
}

/// What is wrong with a bundle's file is said: its kind and its rights first.
pub proof fn a_refused_bundle_file_says_why(
    file: &BundleFile,
    r: Result<(), String>,
)
    requires
        call_ensures(check_file, (file,), r),
    ensures
        *file matches BundleFile::Unreadable(e) ==> r is Err && r->Err_0@ == e@,
        *file matches BundleFile::Found { regular, mode, text } ==> {
            let kept = regular && mode % 8 == 0 && (mode / 8) % 8 == 0;
            &&& !kept ==> r->Err_0@
                == "enrollment bundle must be a regular file with mode 600; run chmod 600 on it"@
            &&& kept && text is Err ==> r->Err_0@ == text->Err_0@
            &&& kept && text is Ok && r is Err ==> r->Err_0@ == "enrollment bundle is too large"@
        },
{
}

} // verus!
