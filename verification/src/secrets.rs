//! Putting files that hold secrets in place.
//!
//! A secret is written under a name of its own, readable by nobody else from
//! the moment it exists, and takes its final name only once it is complete. The
//! module decides which step comes next; the caller performs it and reports how
//! it ended.

use crate::bytes::Bytes;
use crate::config::{encode_hex, hex_of};
use crate::text::{decimal, decimal_text};
use vstd::prelude::*;

verus! {

/// The permission bits of a file that holds a secret.
pub const SECRET_MODE: u32 = 0o600;

/// A file to be created.
#[derive(Clone, Copy, Debug, PartialEq, Eq, Structural)]
pub struct Creation {
    /// Whether it may only be created where there is no file yet.
    pub exclusive: bool,
    /// The permission bits that it has from the moment it exists.
    pub mode: u32,
}

/// How a file that holds a secret is created: where there is none, and for its
/// owner alone.
pub open spec fn secret_creation() -> Creation {
    Creation { exclusive: true, mode: SECRET_MODE }
}

/// How many temporary names are tried.
pub const MAX_ATTEMPTS: u32 = 16;

/// The temporary name of a file: a guess at it is harmless, because the file is
/// created only where there is none.
pub open spec fn temporary_text(file_name: Seq<char>, pid: u32, nonce: Seq<u8>) -> Seq<char> {
    "."@ + file_name + ".karst-tmp-"@ + decimal_text(pid as nat) + "-"@ + hex_of(nonce)
}

/// The temporary name of a file.
pub fn temporary_name(file_name: &str, pid: u32, nonce: &Bytes<12>) -> (s: String)
    ensures
        s@ == temporary_text(file_name@, pid, nonce.0@),
{
    let number = decimal(pid as u64);
    let random = encode_hex(&nonce.0);
    let mut s = String::from_str(".");
    s.append(file_name);
    s.append(".karst-tmp-");
    s.append(number.as_str());
    s.append("-");
    s.append(random.as_str());
    s
}

/// The name under which an enrollment file is written first.
pub fn enrollment_name(seed: &Bytes<32>) -> (s: String)
    ensures
        s@ == ".karst-enrollment-"@ + hex_of(seed.0@) + ".tmp"@,
{
    let random = encode_hex(&seed.0);
    let mut s = String::from_str(".karst-enrollment-");
    s.append(random.as_str());
    s.append(".tmp");
    s
}

/// How a step ended.
#[derive(Debug)]
pub enum Ending {
    Done,
    /// The file is already there.
    Exists,
    Failed(String),
}

/// How a step ended, as a value.
pub enum EndingFacts {
    Done,
    Exists,
    Failed(Seq<char>),
}

impl View for Ending {
    type V = EndingFacts;

    open spec fn view(&self) -> EndingFacts {
        match self {
            Ending::Done => EndingFacts::Done,
            Ending::Exists => EndingFacts::Exists,
            Ending::Failed(e) => EndingFacts::Failed(e@),
        }
    }
}

/// Which file an error is about.
#[derive(Clone, Copy, Debug, PartialEq, Eq, Structural)]
pub enum At {
    Temporary,
    Destination,
}

/// The step that is due when a file is replaced.
#[derive(Clone, Copy, Debug, PartialEq, Eq, Structural)]
pub enum Step {
    /// Create a file under a fresh temporary name, where there is none.
    Create,
    /// Write and flush it.
    Write,
    /// Give it the final name.
    Rename,
    /// Remove the temporary file.
    Discard,
    /// The file is in place.
    Finished,
    /// It is not; the error says why.
    Failed,
}

/// Replacing a file that holds a secret.
#[derive(Debug)]
pub struct Replacing {
    pub step: Step,
    /// How many temporary names have been tried.
    pub tries: u32,
    pub at: At,
    pub error: String,
}

/// Replacing a file, as a value.
#[verifier::ext_equal]
pub struct ReplacingFacts {
    pub step: Step,
    pub tries: u32,
    pub at: At,
    pub error: Seq<char>,
}

impl View for Replacing {
    type V = ReplacingFacts;

    open spec fn view(&self) -> ReplacingFacts {
        ReplacingFacts { step: self.step, tries: self.tries, at: self.at, error: self.error@ }
    }
}

/// The message of an ending that is not success.
pub open spec fn complaint(ending: EndingFacts) -> Seq<char> {
    match ending {
        EndingFacts::Done => ""@,
        EndingFacts::Exists => "file exists"@,
        EndingFacts::Failed(e) => e,
    }
}

fn message_of(ending: Ending) -> (s: String)
    ensures
        s@ == complaint(ending@),
{
    match ending {
        Ending::Done => String::from_str(""),
        Ending::Exists => String::from_str("file exists"),
        Ending::Failed(e) => e,
    }
}

impl ReplacingFacts {
    /// While a name is being looked for, there are tries left.
    pub open spec fn valid(self) -> bool {
        self.step is Create ==> self.tries < MAX_ATTEMPTS
    }

    /// The file that the due step creates, if it creates one.
    pub open spec fn creates(self) -> Option<Creation> {
        if self.step is Create {
            Some(secret_creation())
        } else {
            None
        }
    }

    /// What follows when the due step ends.
    pub open spec fn after(self, ending: EndingFacts) -> ReplacingFacts {
        match self.step {
            Step::Create => match ending {
                EndingFacts::Done => ReplacingFacts { step: Step::Write, ..self },
                EndingFacts::Exists => if self.tries + 1 < MAX_ATTEMPTS {
                    ReplacingFacts { tries: (self.tries + 1) as u32, ..self }
                } else {
                    ReplacingFacts {
                        step: Step::Failed,
                        at: At::Destination,
                        error: "could not allocate secret temporary file"@,
                        ..self
                    }
                },
                EndingFacts::Failed(e) => ReplacingFacts {
                    step: Step::Failed,
                    at: At::Temporary,
                    error: e,
                    ..self
                },
            },
            Step::Write => if ending is Done {
                ReplacingFacts { step: Step::Rename, ..self }
            } else {
                ReplacingFacts {
                    step: Step::Discard,
                    at: At::Temporary,
                    error: complaint(ending),
                    ..self
                }
            },
            Step::Rename => if ending is Done {
                ReplacingFacts { step: Step::Finished, ..self }
            } else {
                ReplacingFacts {
                    step: Step::Discard,
                    at: At::Destination,
                    error: complaint(ending),
                    ..self
                }
            },
            Step::Discard => ReplacingFacts { step: Step::Failed, ..self },
            Step::Finished | Step::Failed => self,
        }
    }

    /// A bound on the number of steps that are left.
    pub open spec fn distance(self) -> nat {
        match self.step {
            Step::Create => (4 + MAX_ATTEMPTS - self.tries) as nat,
            Step::Write => 3,
            Step::Rename => 2,
            Step::Discard => 1,
            Step::Finished | Step::Failed => 0,
        }
    }
}

impl Replacing {
    /// Begins to replace a file.
    pub fn write_secret_bytes(has_file_name: bool) -> (r: Replacing)
        ensures
            r@ == if has_file_name {
                ReplacingFacts { step: Step::Create, tries: 0, at: At::Temporary, error: ""@ }
            } else {
                ReplacingFacts {
                    step: Step::Failed,
                    tries: 0,
                    at: At::Destination,
                    error: "secret path has no file name"@,
                }
            },
            r@.valid(),
    {
        if has_file_name {
            Replacing {
                step: Step::Create,
                tries: 0,
                at: At::Temporary,
                error: String::from_str(""),
            }
        } else {
            Replacing {
                step: Step::Failed,
                tries: 0,
                at: At::Destination,
                error: String::from_str("secret path has no file name"),
            }
        }
    }

    /// The file that the due step creates, if it creates one.
    pub fn creation(&self) -> (r: Option<Creation>)
        ensures
            r == self@.creates(),
    {
        match self.step {
            Step::Create => Some(Creation { exclusive: true, mode: SECRET_MODE }),
            _ => None,
        }
    }

    /// Takes the ending of the due step.
    pub fn report(&mut self, ending: Ending)
        requires
            old(self)@.valid(),
        ensures
            final(self)@ == old(self)@.after(ending@),
            final(self)@.valid(),
    {
        match self.step {
            Step::Create => match ending {
                Ending::Done => {
                    self.step = Step::Write;
                },
                Ending::Exists => {
                    if self.tries + 1 < MAX_ATTEMPTS {
                        self.tries = self.tries + 1;
                    } else {
                        self.step = Step::Failed;
                        self.at = At::Destination;
                        self.error = String::from_str("could not allocate secret temporary file");
                    }
                },
                Ending::Failed(e) => {
                    self.step = Step::Failed;
                    self.at = At::Temporary;
                    self.error = e;
                },
            },
            Step::Write => match ending {
                Ending::Done => {
                    self.step = Step::Rename;
                },
                other => {
                    self.step = Step::Discard;
                    self.at = At::Temporary;
                    self.error = message_of(other);
                },
            },
            Step::Rename => match ending {
                Ending::Done => {
                    self.step = Step::Finished;
                },
                other => {
                    self.step = Step::Discard;
                    self.at = At::Destination;
                    self.error = message_of(other);
                },
            },
            Step::Discard => {
                self.step = Step::Failed;
            },
            Step::Finished | Step::Failed => {},
        }
    }
}

/// A file takes its final name only complete: success is reported only after
/// the rename succeeded, and the rename comes only after a write that did.
pub proof fn only_a_complete_file_is_renamed(r: ReplacingFacts, ending: EndingFacts)
    requires
        r.valid(),
    ensures
        r.after(ending).step is Finished && !(r.step is Finished) ==> r.step is Rename
            && ending is Done,
        r.after(ending).step is Rename && !(r.step is Rename) ==> r.step is Write && ending is Done,
{
}

/// A secret is never readable by anyone but its owner, and never written into a
/// file that was there before: what is written was created by the step before,
/// where there was none, for the owner alone.
pub proof fn a_secret_is_its_owners_alone(r: ReplacingFacts, ending: EndingFacts)
    requires
        r.valid(),
        r.after(ending).step is Write,
        !(r.step is Write),
    ensures
        ending is Done,
        r.creates() matches Some(file) && file.exclusive && file.mode % 0o100 == 0,
{
}

/// A file that was begun and not put in place is removed.
pub proof fn an_abandoned_file_is_removed(r: ReplacingFacts, ending: EndingFacts)
    requires
        r.valid(),
        r.step is Write || r.step is Rename,
    ensures
        ending is Done || r.after(ending).step is Discard,
{
}

/// Replacing a file ends: each step gets nearer to the end.
pub proof fn replacing_ends(r: ReplacingFacts, ending: EndingFacts)
    requires
        r.valid(),
        !(r.step is Finished) && !(r.step is Failed),
    ensures
        r.after(ending).valid(),
        r.after(ending).distance() < r.distance(),
{
}

/// The step that is due when a file is published under a name that nothing may
/// have yet.
#[derive(Clone, Copy, Debug, PartialEq, Eq, Structural)]
pub enum PublishStep {
    /// Create a file under the temporary name, where there is none.
    Create,
    /// Write and flush it, and link it under its final name, which refuses one
    /// that is taken.
    Link,
    /// Remove the temporary name.
    Discard,
    /// Flush the directory.
    Settle,
    Finished,
    Failed,
}

/// Publishing a file.
#[derive(Debug)]
pub struct Publishing {
    pub step: PublishStep,
    pub error: Option<String>,
}

/// Publishing a file, as a value.
#[verifier::ext_equal]
pub struct PublishingFacts {
    pub step: PublishStep,
    pub error: Option<Seq<char>>,
}

impl View for Publishing {
    type V = PublishingFacts;

    open spec fn view(&self) -> PublishingFacts {
        PublishingFacts {
            step: self.step,
            error: match self.error {
                Some(e) => Some(e@),
                None => None,
            },
        }
    }
}

impl PublishingFacts {
    /// The file that the due step creates, if it creates one.
    pub open spec fn creates(self) -> Option<Creation> {
        if self.step is Create {
            Some(secret_creation())
        } else {
            None
        }
    }

    /// What follows when the due step ends.
    pub open spec fn after(self, ending: EndingFacts) -> PublishingFacts {
        match self.step {
            PublishStep::Create => if ending is Done {
                PublishingFacts { step: PublishStep::Link, ..self }
            } else {
                PublishingFacts { step: PublishStep::Failed, error: Some(complaint(ending)) }
            },
            PublishStep::Link => if ending is Done {
                PublishingFacts { step: PublishStep::Discard, error: None }
            } else {
                PublishingFacts { step: PublishStep::Discard, error: Some(complaint(ending)) }
            },
            PublishStep::Discard => PublishingFacts {
                step: if self.error is Some {
                    PublishStep::Failed
                } else {
                    PublishStep::Settle
                },
                ..self
            },
            PublishStep::Settle => if ending is Done {
                PublishingFacts { step: PublishStep::Finished, ..self }
            } else {
                PublishingFacts { step: PublishStep::Failed, error: Some(complaint(ending)) }
            },
            PublishStep::Finished | PublishStep::Failed => self,
        }
    }
}

impl Publishing {
    /// Begins to publish a file.
    pub fn publish_config() -> (p: Publishing)
        ensures
            p@ == (PublishingFacts { step: PublishStep::Create, error: None }),
    {
        Publishing { step: PublishStep::Create, error: None }
    }

    /// The file that the due step creates, if it creates one.
    pub fn creation(&self) -> (r: Option<Creation>)
        ensures
            r == self@.creates(),
    {
        match self.step {
            PublishStep::Create => Some(Creation { exclusive: true, mode: SECRET_MODE }),
            _ => None,
        }
    }

    /// Takes the ending of the due step.
    pub fn report(&mut self, ending: Ending)
        ensures
            final(self)@ == old(self)@.after(ending@),
    {
        match self.step {
            PublishStep::Create => match ending {
                Ending::Done => {
                    self.step = PublishStep::Link;
                },
                other => {
                    self.step = PublishStep::Failed;
                    self.error = Some(message_of(other));
                },
            },
            PublishStep::Link => match ending {
                Ending::Done => {
                    self.step = PublishStep::Discard;
                    self.error = None;
                },
                other => {
                    self.step = PublishStep::Discard;
                    self.error = Some(message_of(other));
                },
            },
            PublishStep::Discard => {
                if self.error.is_some() {
                    self.step = PublishStep::Failed;
                } else {
                    self.step = PublishStep::Settle;
                }
            },
            PublishStep::Settle => match ending {
                Ending::Done => {
                    self.step = PublishStep::Finished;
                },
                other => {
                    self.step = PublishStep::Failed;
                    self.error = Some(message_of(other));
                },
            },
            PublishStep::Finished | PublishStep::Failed => {},
        }
    }
}

/// A name that is taken is never published over: when the link is refused, the
/// run ends in failure after the temporary name is gone, whatever its removal
/// reports.
pub proof fn a_taken_name_is_refused(p: PublishingFacts, refused: EndingFacts, removed: EndingFacts)
    requires
        p.step is Link,
        !(refused is Done),
    ensures
        p.after(refused).step is Discard,
        p.after(refused).after(removed).step is Failed,
        p.after(refused).after(removed).error == Some(complaint(refused)),
{
}

/// A temporary name begins with a dot and the name of the file, and ends with
/// what tells this process and this try from every other.
pub proof fn a_temporary_name_is_its_own(
    file: &str,
    pid: u32,
    nonce: &Bytes<12>,
    s: String,
    number: String,
    bytes: &[u8],
    tail: String,
    seed: &Bytes<32>,
    all: &[u8],
    long: String,
    e: String,
)
    requires
        call_ensures(temporary_name, (file, pid, nonce), s),
        call_ensures(decimal, (pid as u64,), number),
        bytes@ == nonce.0@,
        call_ensures(encode_hex, (bytes,), tail),
        call_ensures(enrollment_name, (seed,), e),
        all@ == seed.0@,
        call_ensures(encode_hex, (all,), long),
    ensures
        s@ == seq!['.'] + file@ + ".karst-tmp-"@ + number@ + seq!['-'] + tail@,
        e@ == ".karst-enrollment-"@ + long@ + ".tmp"@,
{
    reveal_strlit(".");
    reveal_strlit("-");
    assert("."@ =~= seq!['.']);
    assert("-"@ =~= seq!['-']);
}

/// A secret is written to a new file that only its owner may read, flushed, and
/// put in the place of the old one. A name that is taken is tried again under
/// another, sixteen times in all; whatever fails after that is taken away again,
/// and the place of the failure is kept.
pub proof fn a_secret_replaces_its_file_whole(
    has_name: bool,
    fresh: Replacing,
    mode: Option<Creation>,
    r: &mut Replacing,
    taken: &mut Replacing,
    lost: &mut Replacing,
    reason: String,
    during: Option<Creation>,
)
    requires
        call_ensures(Replacing::write_secret_bytes, (has_name,), fresh),
        call_ensures(Replacing::creation, (&fresh,), mode),
        call_ensures(Replacing::report, (r, Ending::Done), ()),
        *old(taken) == *old(r),
        call_ensures(Replacing::report, (taken, Ending::Exists), ()),
        *old(lost) == *old(r),
        call_ensures(Replacing::report, (lost, Ending::Failed(reason)), ()),
        call_ensures(Replacing::creation, (&*old(r),), during),
    ensures
        has_name ==> fresh.step is Create && fresh.tries == 0 && (mode matches Some(c)
            && c.exclusive && c.mode == 0o600),
        !has_name ==> fresh.step is Failed && fresh.error@ == "secret path has no file name"@
            && mode is None,
        during is Some <==> old(r).step is Create,
        final(r).step == match old(r).step {
            Step::Create => Step::Write,
            Step::Write => Step::Rename,
            Step::Rename => Step::Finished,
            Step::Discard => Step::Failed,
            done => done,
        },
        old(r).step is Create ==> {
            &&& old(r).tries < 15 ==> final(taken).step is Create && final(taken).tries == old(r).tries + 1
            &&& old(r).tries == 15 ==> final(taken).step is Failed && final(taken).error@
                == "could not allocate secret temporary file"@
            &&& final(lost).step is Failed && final(lost).at is Temporary
        },
        old(r).step is Write ==> final(lost).step is Discard && final(lost).at is Temporary,
        old(r).step is Rename ==> final(lost).step is Discard && final(lost).at is Destination,
        old(r).step is Create || old(r).step is Write || old(r).step is Rename
            ==> final(lost).error@ == reason@,
        old(r).step is Discard ==> final(lost).step is Failed && final(lost).error@ == old(r).error@ && final(lost).at == old(r).at,
        final(r).tries == old(r).tries,
{
}

/// A configuration is published only under a name that nobody has: it is written
/// aside for its owner alone, linked into place, taken away from aside, and
/// settled. A name that is taken is a failure, and what was aside is gone then
/// too.
pub proof fn a_configuration_is_published_under_a_free_name(
    fresh: Publishing,
    mode: Option<Creation>,
    p: &mut Publishing,
    taken: &mut Publishing,
    lost: &mut Publishing,
    reason: String,
)
    requires
        call_ensures(Publishing::publish_config, (), fresh),
        call_ensures(Publishing::creation, (&fresh,), mode),
        call_ensures(Publishing::report, (p, Ending::Done), ()),
        *old(taken) == *old(p),
        call_ensures(Publishing::report, (taken, Ending::Exists), ()),
        *old(lost) == *old(p),
        call_ensures(Publishing::report, (lost, Ending::Failed(reason)), ()),
    ensures
        fresh.step is Create && fresh.error is None,
        mode matches Some(c) && c.exclusive && c.mode == 0o600,
        old(p).step is Create ==> final(p).step is Link && final(lost).step is Failed
            && final(taken).step is Failed,
        old(p).step is Link ==> final(p).step is Discard && final(p).error is None && final(taken).step is Discard && final(taken)@.error == Some("file exists"@) && final(lost).step is Discard && final(lost)@.error == Some(reason@),
        old(p).step is Discard ==> final(p)@.error == old(p)@.error && final(lost)@ == final(p)@
            && final(p).step == if old(p).error is Some {
            PublishStep::Failed
        } else {
            PublishStep::Settle
        },
        old(p).step is Settle ==> final(p).step is Finished && final(lost).step is Failed
            && final(lost)@.error == Some(reason@),
        old(p).step is Finished || old(p).step is Failed ==> final(p).step == old(p).step
            && final(lost).step == old(p).step,
{
}

} // verus!
