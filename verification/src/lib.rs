//! A chart repository's own conventions for configuration contracts, verified.
//!
//! The markers a values file carries, the blocks generated from the contracts a chart vendors, the
//! credential reference its README carries, the restart sets it rolls its pods by — each read and
//! written by a function whose contract says exactly what it reads and writes.

pub mod bindings;
pub mod check;
pub mod coverage;
pub mod declaration;
pub mod diff;
pub mod explain;
pub mod json;
pub mod load;
pub mod markers;
pub mod order;
pub mod pull;
pub mod readme;
pub mod rejoin;
pub mod report;
pub mod restarts;
pub mod schema;
pub mod secrets;
pub mod shapes;
pub mod suites;
pub mod surface;
pub mod text;

use vstd::prelude::*;

verus! {

/// The file a chart declares its contracts in.
pub const DECLARATION: &'static str = "config-contract.yaml";

/// The chart tree, relative to a repository root.
pub const CHARTS_DIR: &'static str = "charts";

/// The list of image repositories an organisation builds, and so the ones that can be expected to
/// publish a contract.
pub const FIRST_PARTY: &'static str = ".github/configs/first-party-images.txt";

/// Why a rule could not be run at all, as distinct from a finding it made.
#[derive(Debug, Clone, PartialEq, Eq)]
pub enum Error {
    /// An input that is not what it claims to be, with what is wrong with it.
    Invalid(String),
    /// A file or directory that could not be read or written.
    Io(String),
}

impl Error {
    /// What the error says.
    pub open spec fn said(&self) -> Seq<char> {
        match self {
            Error::Invalid(text) => text@,
            Error::Io(text) => text@,
        }
    }

    /// The message, as a reader is shown it.
    pub fn message(&self) -> (s: String)
        ensures
            s@ == self.said(),
    {
        match self {
            Error::Invalid(text) => text.clone(),
            Error::Io(text) => text.clone(),
        }
    }
}

/// A text as a message names it: in single quotes.
pub open spec fn quoted_spec(text: Seq<char>) -> Seq<char> {
    seq!['\''] + text + seq!['\'']
}

/// A text as a message names it: in single quotes.
pub fn quoted(text: &str) -> (s: String)
    ensures
        s@ == quoted_spec(text@),
{
    let mut held: Vec<char> = vec!['\''];
    text::push_str(&mut held, text);
    held.push('\'');
    text::string_of(&held)
}

/// One value, spelled the way a report on a malformed declaration spells it: absent and null as
/// `None`, the two booleans capitalised, a string quoted, anything else as its JSON text.
pub open spec fn shown_spec(value: Option<json::Json>) -> Seq<char> {
    match value {
        None => "None"@,
        Some(json::Json::Null) => "None"@,
        Some(json::Json::Bool(true)) => "True"@,
        Some(json::Json::Bool(false)) => "False"@,
        Some(json::Json::Str(text)) => quoted_spec(text@),
        Some(other) => json::json_text(other),
    }
}

/// One value, spelled the way a report on a malformed declaration spells it, so that what was
/// written is what the message shows.
pub fn shown(value: Option<&json::Json>) -> (s: String)
    ensures
        s@ == shown_spec(match value {
            Some(v) => Some(*v),
            None => None,
        }),
{
    match value {
        None => "None".to_owned(),
        Some(json::Json::Null) => "None".to_owned(),
        Some(json::Json::Bool(true)) => "True".to_owned(),
        Some(json::Json::Bool(false)) => "False".to_owned(),
        Some(json::Json::Str(text)) => quoted(text.as_str()),
        Some(other) => other.to_json(),
    }
}

/// One release, with the `v` prefix that is spelled inconsistently across an estate removed.
pub open spec fn release_spec(s: Seq<char>) -> Seq<char> {
    let t = text::trim_spec(s);
    if t.len() > 0 && t[0] == 'v' {
        t.drop_first()
    } else {
        t
    }
}

/// One release, compared without its prefix: trimmed, and a leading `v` dropped.
pub fn release(text: &str) -> (r: String)
    ensures
        r@ == release_spec(text@),
{
    let chars = text::chars_of(text);
    let t = text::trim(&chars);
    if t.len() > 0 && t[0] == 'v' {
        let rest = text::slice_of(&t, 1, t.len());
        assert(rest@ == t@.drop_first());
        text::string_of(&rest)
    } else {
        text::string_of(&t)
    }
}

} // verus!
