//! Durable, local consent for one advertised exit route.
//!
//! The module decides what may be consented to, what the state file holds, and
//! what is in force afterwards; the caller reads, writes, and removes the file.

use crate::ipc::Platform;
use crate::secrets::{secret_creation, Creation, SECRET_MODE};
use crate::text::{
    a_line_reads_back, byte_count, chars_of, decimal, decimal_text, has_white, holds_white,
    is_white, trim, trimmed,
};
use vstd::prelude::*;
use vstd::utf8::encode_utf8;

verus! {

/// The longest route identifier, in bytes.
pub const MAX_ROUTE_ID: usize = 128;

/// Where the selection is kept unless told otherwise.
pub open spec fn default_state_file_text(platform: Platform) -> Seq<char> {
    match platform {
        Platform::Linux => "/var/lib/karst/exit-route"@,
        Platform::MacOs => "/var/db/karst/exit-route"@,
        Platform::Windows => "C:\\ProgramData\\Karst\\state\\exit-route"@,
    }
}

/// Where the selection is kept unless told otherwise.
pub fn default_state_file(platform: Platform) -> (s: &'static str)
    ensures
        s@ == default_state_file_text(platform),
{
    match platform {
        Platform::Linux => "/var/lib/karst/exit-route",
        Platform::MacOs => "/var/db/karst/exit-route",
        Platform::Windows => "C:\\ProgramData\\Karst\\state\\exit-route",
    }
}

/// Whether a route identifier can be kept: 1 to 128 bytes, none of it white
/// space.
pub open spec fn valid_route_id(id: Seq<char>) -> bool {
    &&& id.len() > 0
    &&& encode_utf8(id).len() <= MAX_ROUTE_ID
    &&& !has_white(id)
}

fn validate(id: &str) -> (r: bool)
    ensures
        r == valid_route_id(id@),
{
    chars_of(id).len() > 0 && byte_count(id) <= MAX_ROUTE_ID && !holds_white(id)
}

/// Why a selection could not be loaded or made.
#[derive(Clone, Copy, Debug, PartialEq, Eq, Structural)]
pub enum SelectionError {
    /// The identifier is not 1 to 128 bytes without white space.
    InvalidRoute,
    /// The state file has no directory to stand in.
    NoParent,
}

impl SelectionError {
    /// The message for the operator.
    pub fn to_text(self) -> (s: String)
        ensures
            s@ == match self {
                SelectionError::InvalidRoute => "exit route id must be 1-128 non-whitespace bytes"@,
                SelectionError::NoParent => "exit-route state has no parent"@,
            },
    {
        match self {
            SelectionError::InvalidRoute => String::from_str(
                "exit route id must be 1-128 non-whitespace bytes",
            ),
            SelectionError::NoParent => String::from_str("exit-route state has no parent"),
        }
    }
}

/// A file to put in place in one step: written under the state file's name and
/// `suffix`, then renamed over the state file.
#[derive(Debug)]
pub struct Replacement {
    pub suffix: String,
    pub contents: String,
    /// How the file is created.
    pub creation: Creation,
    /// The permission bits that the directory is given first.
    pub directory_mode: u32,
}

/// The exit route that the operator has consented to.
#[derive(Debug)]
pub struct Selection {
    pub active: Option<String>,
}

/// The consent as a value.
pub open spec fn consent(active: Option<String>) -> Option<Seq<char>> {
    match active {
        Some(id) => Some(id@),
        None => None,
    }
}

impl Selection {
    /// Whatever is selected is an identifier that can be kept.
    pub open spec fn wf(self) -> bool {
        self.active is Some ==> valid_route_id(self.active->0@)
    }

    /// Reads a selection back from the contents of its state file; `None` when
    /// there is no file.
    pub fn load(contents: Option<&str>) -> (r: Result<Selection, SelectionError>)
        ensures
            match r {
                Ok(s) => {
                    &&& s.wf()
                    &&& consent(s.active) == match contents {
                        Some(text) => Some(trimmed(text@)),
                        None => None,
                    }
                },
                Err(e) => {
                    &&& e == SelectionError::InvalidRoute
                    &&& contents is Some
                    &&& !valid_route_id(trimmed(contents->0@))
                },
            },
    {
        match contents {
            None => Ok(Selection { active: None }),
            Some(text) => {
                let id = trim(text);
                if validate(id.as_str()) {
                    Ok(Selection { active: Some(id) })
                } else {
                    Err(SelectionError::InvalidRoute)
                }
            },
        }
    }

    /// The selected route, if any.
    pub fn active(&self) -> (r: Option<&str>)
        ensures
            match r {
                Some(s) => consent(self.active) == Some(s@),
                None => self.active is None,
            },
    {
        match &self.active {
            Some(id) => Some(id.as_str()),
            None => None,
        }
    }

    /// The file that makes `route_id` the selection of the process `pid` durable.
    pub fn select(&self, route_id: &str, has_parent: bool, pid: u32) -> (r: Result<
        Replacement,
        SelectionError,
    >)
        ensures
            match r {
                Ok(f) => {
                    &&& valid_route_id(route_id@) && has_parent
                    &&& f.suffix@ == seq!['.'] + decimal_text(pid as nat) + ".tmp"@
                    &&& f.contents@ == route_id@.push('\n')
                    &&& f.creation == secret_creation()
                    &&& f.directory_mode == 0o700
                },
                Err(SelectionError::InvalidRoute) => !valid_route_id(route_id@),
                Err(SelectionError::NoParent) => valid_route_id(route_id@) && !has_parent,
            },
    {
        if !validate(route_id) {
            return Err(SelectionError::InvalidRoute);
        }
        if !has_parent {
            return Err(SelectionError::NoParent);
        }
        let mut suffix = String::new();
        suffix.push('.');
        let number = decimal(pid as u64);
        suffix.append(number.as_str());
        suffix.append(".tmp");
        assert(suffix@ =~= seq!['.'] + decimal_text(pid as nat) + ".tmp"@);
        let mut contents = String::from_str(route_id);
        contents.push('\n');
        let creation = Creation { exclusive: true, mode: SECRET_MODE };
        Ok(Replacement { suffix, contents, creation, directory_mode: 0o700 })
    }

    /// The file for `route_id` was put in place, or could not be: consent
    /// changes only with the file.
    pub fn written(&mut self, route_id: &str, ok: bool)
        requires
            old(self).wf(),
            valid_route_id(route_id@),
        ensures
            final(self).wf(),
            consent(final(self).active) == if ok {
                Some(route_id@)
            } else {
                consent(old(self).active)
            },
    {
        if ok {
            self.active = Some(String::from_str(route_id));
        }
    }

    /// The state file was removed, or was not there, or could not be removed.
    /// Consent ends only when no file is left.
    pub fn disable(&mut self, gone: bool)
        requires
            old(self).wf(),
        ensures
            final(self).wf(),
            consent(final(self).active) == if gone {
                None
            } else {
                consent(old(self).active)
            },
    {
        if gone {
            self.active = None;
        }
    }
}

/// A selection survives a restart: what the state file holds after a selection
/// reads back as that selection.
pub proof fn a_selection_survives_a_restart(route_id: Seq<char>)
    requires
        valid_route_id(route_id),
    ensures
        trimmed(route_id.push('\n')) == route_id,
{
    assert(!is_white(route_id[0]));
    assert(!is_white(route_id[route_id.len() - 1]));
    a_line_reads_back(route_id);
}

/// A route's name is what a file or a request may give: at least one byte and at
/// most 128, and no white space. A file that holds one selects it, whatever white
/// space stands around it; no file selects nothing; anything else is refused.
pub proof fn a_file_selects_the_route_it_names(
    contents: Option<&str>,
    r: Result<Selection, SelectionError>,
    id: String,
    active: Option<&str>,
)
    requires
        call_ensures(Selection::load, (contents,), r),
        contents matches Some(text) ==> call_ensures(trim, (text,), id),
        r matches Ok(s) ==> call_ensures(Selection::active, (&s,), active),
    ensures
        contents is None ==> r is Ok && active is None,
        r matches Err(e) ==> e is InvalidRoute && contents is Some && !valid_route_id(id@),
        r is Ok && contents is Some ==> active is Some && active->0@ == id@ && valid_route_id(id@),
        valid_route_id(id@) <==> id@.len() > 0 && encode_utf8(id@).len() <= 128 && forall|i: int|
            0 <= i < id@.len() ==> !is_white(#[trigger] id@[i]),
{
}

/// A selection is written as its own line, to a temporary file of this process
/// that only its owner may read, in a directory that only its owner may enter;
/// and what was written selects the same route when it is loaded again.
pub proof fn what_was_selected_is_loaded_again(
    s: Selection,
    route: &str,
    has_parent: bool,
    pid: u32,
    r: Result<Replacement, SelectionError>,
    number: String,
    text: &str,
    again: Result<Selection, SelectionError>,
    active: Option<&str>,
)
    requires
        call_ensures(Selection::select, (&s, route, has_parent, pid), r),
        call_ensures(decimal, (pid as u64,), number),
        r matches Ok(f) ==> text@ == f.contents@,
        call_ensures(Selection::load, (Some(text),), again),
        again matches Ok(t) ==> call_ensures(Selection::active, (&t,), active),
    ensures
        r matches Ok(f) ==> {
            &&& f.contents@ == route@ + seq!['\n']
            &&& f.suffix@ == seq!['.'] + number@ + ".tmp"@
            &&& f.directory_mode == 0o700
            &&& f.creation.exclusive && f.creation.mode == 0o600
            &&& again is Ok && active is Some && active->0@ == route@
        },
        r is Ok <==> has_parent && route@.len() > 0 && encode_utf8(route@).len() <= 128 && forall|
            i: int,
        |
            0 <= i < route@.len() ==> !is_white(#[trigger] route@[i]),
        r matches Err(e) ==> (e is NoParent <==> valid_route_id(route@)),
{
    if r is Ok {
        a_selection_survives_a_restart(route@);
        assert(route@.push('\n') =~= route@ + seq!['\n']);
    }
}

/// A route is active once it has been written, and until it is disabled; what
/// failed changes nothing.
pub proof fn a_selection_changes_when_it_is_kept(
    s: &mut Selection,
    route: &str,
    ok: bool,
    before: Option<&str>,
    after: Option<&str>,
    later: &mut Selection,
    gone: bool,
    left: Option<&str>,
)
    requires
        call_ensures(Selection::active, (&*old(s),), before),
        call_ensures(Selection::written, (s, route, ok), ()),
        call_ensures(Selection::active, (&*final(s),), after),
        *old(later) == *final(s),
        call_ensures(Selection::disable, (later, gone), ()),
        call_ensures(Selection::active, (&*final(later),), left),
    ensures
        ok ==> after is Some && after->0@ == route@,
        !ok ==> (after is Some <==> before is Some) && (after is Some ==> after->0@ == before->0@),
        gone ==> left is None,
        !gone ==> (left is Some <==> after is Some) && (left is Some ==> left->0@ == after->0@),
{
}

/// Each platform keeps the selection in a place of its own, and each refusal
/// says what is wrong.
pub proof fn a_selection_has_its_place(
    linux: &'static str,
    mac: &'static str,
    windows: &'static str,
    invalid: String,
    orphan: String,
)
    requires
        call_ensures(default_state_file, (Platform::Linux,), linux),
        call_ensures(default_state_file, (Platform::MacOs,), mac),
        call_ensures(default_state_file, (Platform::Windows,), windows),
        call_ensures(SelectionError::to_text, (SelectionError::InvalidRoute,), invalid),
        call_ensures(SelectionError::to_text, (SelectionError::NoParent,), orphan),
    ensures
        linux@ == "/var/lib/karst/exit-route"@,
        mac@ == "/var/db/karst/exit-route"@,
        windows@ == "C:\\ProgramData\\Karst\\state\\exit-route"@,
        invalid@ == "exit route id must be 1-128 non-whitespace bytes"@,
        orphan@ == "exit-route state has no parent"@,
{
}

} // verus!
