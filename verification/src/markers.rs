//! `# @config` markers: which contract key a chart value feeds, stated beside the value.
//!
//! ```text
//! # @schema
//! # # @config projection telemetry.sentry_dsn optional
//! # type: string
//! # @schema
//! # -- Sentry DSN (`telemetry.sentry_dsn`). Empty disables Sentry entirely.
//! sentryDsn: ""
//! ```
//!
//! Two passes meet on a line number. The structure pass reads the YAML events of the values file
//! and gives every mapping key's dotted path and the line it sits on; the comment pass scans the
//! lines for markers and `@schema` blocks. A marker may sit only on the first lines inside its
//! value's `@schema` block, written as a comment within the schema; every other placement is
//! refused by name, and every problem is collected before any is raised.

use vstd::prelude::*;

use crate::text::{
    chars, chars_of, decimal, decimal_of, find_char, is_lit, is_alnum, is_ascii_alphanumeric, join,
    join_spec, next_char, push_all, skip_ws, starts_with_spec, starts_with_str, trim, trim_spec,
    trim_start, trim_start_at, trim_start_spec, trim_end_spec, lines_spec, lines, trim_end,
    push_str, same, slice_of, split_char, split_spec, split_whitespace, string_of, strs, views, words,
};

verus! {

/// The comment introducer.
pub const MARKER: &'static str = "@config";

/// What kind of thing a marker binds its value to.
#[derive(Debug, Clone, Copy, PartialEq, Eq)]
pub enum Class {
    /// One chart value feeds one contract key directly.
    Projection,
    /// A chart value feeds a container-typed key, whose sub-keys the deployment chooses.
    Structured,
    /// Several chart values are composed into one key's value by the template.
    Composed,
    /// The value feeds a declared external variable rather than a key.
    External,
}

pub const PROJECTION: &'static str = "projection";
pub const STRUCTURED: &'static str = "structured";
pub const COMPOSED: &'static str = "composed";
pub const EXTERNAL: &'static str = "external";

impl Class {
    /// The spelling a marker uses.
    pub open spec fn spelling(self) -> Seq<char> {
        match self {
            Class::Projection => PROJECTION@,
            Class::Structured => STRUCTURED@,
            Class::Composed => COMPOSED@,
            Class::External => EXTERNAL@,
        }
    }

    /// The class one spelling names.
    pub open spec fn named(s: Seq<char>) -> Option<Class> {
        if s == PROJECTION@ {
            Some(Class::Projection)
        } else if s == STRUCTURED@ {
            Some(Class::Structured)
        } else if s == COMPOSED@ {
            Some(Class::Composed)
        } else if s == EXTERNAL@ {
            Some(Class::External)
        } else {
            None
        }
    }

    /// The spelling a marker uses.
    pub fn label(self) -> (s: &'static str)
        ensures
            s@ == self.spelling(),
    {
        match self {
            Class::Projection => PROJECTION,
            Class::Structured => STRUCTURED,
            Class::Composed => COMPOSED,
            Class::External => EXTERNAL,
        }
    }

    /// The class one spelling names.
    pub fn parse(spelling: &str) -> (c: Option<Class>)
        ensures
            c == Class::named(spelling@),
    {
        let s = chars_of(spelling);
        Class::parse_chars(&s)
    }

    /// The class one spelling names.
    pub fn parse_chars(s: &[char]) -> (c: Option<Class>)
        ensures
            c == Class::named(s@),
    {
        if is_lit(s, PROJECTION) {
            Some(Class::Projection)
        } else if is_lit(s, STRUCTURED) {
            Some(Class::Structured)
        } else if is_lit(s, COMPOSED) {
            Some(Class::Composed)
        } else if is_lit(s, EXTERNAL) {
            Some(Class::External)
        } else {
            None
        }
    }

    /// Whether the target is a key path rather than an external variable's name.
    pub fn targets_a_key(self) -> (b: bool)
        ensures
            b == !(self is External),
    {
        !matches!(self, Class::External)
    }
}

/// Every class reads back as itself from the spelling a marker writes for it.
pub proof fn class_spelling_round_trip(c: Class)
    ensures
        Class::named(c.spelling()) == Some(c),
{
    reveal_strlit("projection");
    reveal_strlit("structured");
    reveal_strlit("composed");
    reveal_strlit("external");
    assert(PROJECTION@[0] == 'p' && STRUCTURED@[0] == 's' && COMPOSED@[0] == 'c' && EXTERNAL@[0]
        == 'e');
}

// ------------------------------------------------------------------------------------------
// One marker's body
// ------------------------------------------------------------------------------------------

/// Whether a character may appear in a dotted values path.
pub open spec fn path_char(c: char) -> bool {
    is_alnum(c) || c == '_' || c == '.' || c == '-'
}

/// Whether a name is a dotted values path and nothing else: non-empty, of letters, digits, `_`,
/// `.` and `-`, and opening with a letter, a digit or `_`.
pub open spec fn values_path_spec(s: Seq<char>) -> bool {
    s.len() > 0 && (forall|i: int| 0 <= i < s.len() ==> path_char(#[trigger] s[i])) && (is_alnum(
        s[0],
    ) || s[0] == '_')
}

/// Whether a name is a dotted values path and nothing else.
pub fn is_values_path(s: &[char]) -> (b: bool)
    ensures
        b == values_path_spec(s@),
{
    if s.len() == 0 {
        return false;
    }
    let mut i: usize = 0;
    while i < s.len()
        invariant
            i <= s@.len(),
            forall|k: int| 0 <= k < i ==> path_char(#[trigger] s@[k]),
        decreases s.len() - i,
    {
        let c = s[i];
        if !(is_ascii_alphanumeric(c) || c == '_' || c == '.' || c == '-') {
            return false;
        }
        i = i + 1;
    }
    is_ascii_alphanumeric(s[0]) || s[0] == '_'
}

/// One marker's body, read into its parts.
#[derive(Debug, Clone, PartialEq, Eq)]
pub struct Parsed {
    /// What kind of binding it is.
    pub class: Class,
    /// The documents it is scoped to, or every document.
    pub documents: Option<Vec<String>>,
    /// The key path or external variable it feeds.
    pub target: String,
    /// Whether the key may be absent when the value is empty.
    pub optional: bool,
    /// A values path that must be switched on first.
    pub condition: Option<String>,
}

/// A marker body's parts, as values.
#[verifier::ext_equal]
pub struct ParsedView {
    pub class: Class,
    pub documents: Option<Seq<Seq<char>>>,
    pub target: Seq<char>,
    pub optional: bool,
    pub condition: Option<Seq<char>>,
}

pub open spec fn opt_strs(o: Option<Vec<String>>) -> Option<Seq<Seq<char>>> {
    match o {
        Some(v) => Some(strs(v@)),
        None => None,
    }
}

pub open spec fn opt_str(o: Option<String>) -> Option<Seq<char>> {
    match o {
        Some(v) => Some(v@),
        None => None,
    }
}

impl View for Parsed {
    type V = ParsedView;

    open spec fn view(&self) -> ParsedView {
        ParsedView {
            class: self.class,
            documents: opt_strs(self.documents),
            target: self.target@,
            optional: self.optional,
            condition: opt_str(self.condition),
        }
    }
}

pub const NAMES_NOTHING: &'static str = "`@config` names nothing; expected `@config <class> <target>`";
pub const UNKNOWN_CLASS: &'static str = "unknown class '";
pub const KNOWN_CLASSES: &'static str = "'; known classes are projection, structured, composed, external";
pub const NO_TARGET: &'static str = " names no target";
pub const TARGET_FORM: &'static str = "a target is `<key.path>`, or `<document>[,<document>...]:<key.path>` to scope it, in the contract's own spelling";
pub const SCOPE_TWICE_A: &'static str = "the scope '";
pub const SCOPE_TWICE_B: &'static str = "' names a document twice";
pub const WHEN_NOTHING: &'static str = "`when` names no values path";
pub const WHEN_NOT_PATH: &'static str = " is not a dotted values path";
pub const UNEXPECTED_A: &'static str = "unexpected '";
pub const UNEXPECTED_B: &'static str = "'; the form is `@config <class> <target> [optional] [when <values-path>]`, in that order";
pub const OPTIONAL: &'static str = "optional";
pub const WHEN: &'static str = "when";

/// The index of the first `:` in a target, if it has one.
pub open spec fn colon_at(s: Seq<char>) -> int {
    next_char(s, ':', 0)
}

/// Whether any name is written twice.
pub open spec fn has_duplicate(names: Seq<Seq<char>>) -> bool {
    exists|i: int, j: int| 0 <= i < j < names.len() && names[i] == names[j]
}

/// What a marker body's tokens after the target say: optional, then `when <path>`, and nothing else.
pub open spec fn modifiers(rest: Seq<Seq<char>>) -> Result<(bool, Option<Seq<char>>), Seq<char>> {
    let optional = rest.len() > 0 && rest[0] == OPTIONAL@;
    let rest1 = if optional { rest.drop_first() } else { rest };
    if rest1.len() > 0 && rest1[0] == WHEN@ {
        if rest1.len() < 2 {
            Err(WHEN_NOTHING@)
        } else if !values_path_spec(rest1[1]) {
            Err("`when "@ + rest1[1] + WHEN_NOT_PATH@)
        } else if rest1.len() > 2 {
            Err(UNEXPECTED_A@ + join_spec(rest1.skip(2), seq![' ']) + UNEXPECTED_B@)
        } else {
            Ok((optional, Some(rest1[1])))
        }
    } else if rest1.len() > 0 {
        Err(UNEXPECTED_A@ + join_spec(rest1, seq![' ']) + UNEXPECTED_B@)
    } else {
        Ok((optional, None))
    }
}

/// Writing `optional` before the rest of a marker changes only optionality: whatever the rest
/// says — a `when` gate, nothing, or a refusal — it says the same with `optional` in front.
pub proof fn optional_keeps_the_rest_of_the_marker(rest: Seq<Seq<char>>)
    requires
        rest.len() == 0 || rest[0] != OPTIONAL@,
    ensures
        modifiers(rest) matches Ok((o, _)) ==> !o,
        modifiers(seq![OPTIONAL@] + rest) == match modifiers(rest) {
            Ok((_, condition)) => Ok::<(bool, Option<Seq<char>>), Seq<char>>((true, condition)),
            Err(e) => Err::<(bool, Option<Seq<char>>), Seq<char>>(e),
        },
{
    let s = seq![OPTIONAL@] + rest;
    assert(s[0] == OPTIONAL@);
    assert(s.drop_first() =~= rest);
}

/// A `when` gate naming a dotted values path gates the marker on that path, whether or not the
/// marker is also optional.
pub proof fn a_when_gate_names_its_path(p: Seq<char>)
    requires
        values_path_spec(p),
    ensures
        modifiers(seq![WHEN@, p]) == Ok::<(bool, Option<Seq<char>>), Seq<char>>((false, Some(p))),
        modifiers(seq![OPTIONAL@, WHEN@, p]) == Ok::<(bool, Option<Seq<char>>), Seq<char>>((true, Some(p))),
{
    reveal_strlit("optional");
    reveal_strlit("when");
    assert(WHEN@ != OPTIONAL@) by {
        assert(WHEN@.len() != OPTIONAL@.len());
    }
    optional_keeps_the_rest_of_the_marker(seq![WHEN@, p]);
    assert(seq![OPTIONAL@] + seq![WHEN@, p] =~= seq![OPTIONAL@, WHEN@, p]);
}

/// One marker's body — everything after `@config` — read into its parts, or the reason it is
/// not a marker.
pub open spec fn parse_marker_spec(text: Seq<char>) -> Result<ParsedView, Seq<char>> {
    let tokens = words(text);
    if tokens.len() == 0 {
        Err(NAMES_NOTHING@)
    } else if Class::named(tokens[0]) is None {
        Err(UNKNOWN_CLASS@ + tokens[0] + KNOWN_CLASSES@)
    } else if tokens.len() < 2 {
        Err("`@config "@ + tokens[0] + "`"@ + NO_TARGET@)
    } else {
        let raw = tokens[1];
        let c = colon_at(raw);
        let scoped = c < raw.len();
        let scope = raw.take(c);
        let target = if scoped { raw.skip(c + 1) } else { raw };
        let named = split_spec(scope, ',');
        if !values_path_spec(target) || (scoped && scope.len() == 0) {
            Err(TARGET_FORM@)
        } else if scoped && exists|k: int| 0 <= k < named.len() && !values_path_spec(
            #[trigger] named[k],
        ) {
            Err(TARGET_FORM@)
        } else if scoped && has_duplicate(named) {
            Err(SCOPE_TWICE_A@ + scope + SCOPE_TWICE_B@)
        } else {
            match modifiers(tokens.skip(2)) {
                Err(e) => Err(e),
                Ok((optional, condition)) => Ok(
                    ParsedView {
                        class: Class::named(tokens[0])->0,
                        documents: if scoped { Some(named) } else { None },
                        target,
                        optional,
                        condition,
                    },
                ),
            }
        }
    }
}

fn lit(s: &str) -> (v: Vec<char>)
    ensures
        v@ == s@,
{
    chars_of(s)
}

fn strings_of(v: &Vec<Vec<char>>) -> (out: Vec<String>)
    ensures
        strs(out@) == views(v@),
{
    let mut out: Vec<String> = Vec::new();
    let mut i: usize = 0;
    while i < v.len()
        invariant
            i <= v@.len(),
            strs(out@) == views(v@).take(i as int),
        decreases v.len() - i,
    {
        let ghost prev = strs(out@);
        out.push(string_of(&v[i]));
        assert(strs(out@) == prev.push(v@[i as int]@));
        assert(views(v@).take(i + 1) == views(v@).take(i as int).push(v@[i as int]@));
        i = i + 1;
    }
    assert(views(v@).take(v@.len() as int) == views(v@));
    out
}

fn all_values_paths(names: &Vec<Vec<char>>) -> (b: bool)
    ensures
        b == forall|q: int| 0 <= q < names@.len() ==> values_path_spec(#[trigger] views(names@)[q]),
{
    let mut k: usize = 0;
    while k < names.len()
        invariant
            k <= names@.len(),
            forall|q: int| 0 <= q < k ==> values_path_spec(#[trigger] views(names@)[q]),
        decreases names.len() - k,
    {
        if !is_values_path(&names[k]) {
            assert(!values_path_spec(views(names@)[k as int]));
            return false;
        }
        k = k + 1;
    }
    true
}

fn any_duplicate(names: &Vec<Vec<char>>) -> (b: bool)
    ensures
        b == has_duplicate(views(names@)),
{
    let n = names.len();
    let mut i: usize = 0;
    while i < n
        invariant
            n == names@.len(),
            i <= n,
            forall|a: int, b: int|
                0 <= a < i && a < b < n ==> #[trigger] names@[a]@ != #[trigger] names@[b]@,
        decreases n - i,
    {
        let mut j: usize = i + 1;
        while j < n
            invariant
                n == names@.len(),
                i < n,
                i + 1 <= j <= n,
                forall|a: int, b: int|
                    0 <= a < i && a < b < n ==> #[trigger] names@[a]@ != #[trigger] names@[b]@,
                forall|b: int| i < b < j ==> names@[i as int]@ != #[trigger] names@[b]@,
            decreases n - j,
        {
            if same(&names[i], &names[j]) {
                assert(views(names@)[i as int] == views(names@)[j as int]);
                return true;
            }
            j = j + 1;
        }
        i = i + 1;
    }
    assert forall|a: int, b: int|
        0 <= a < b < views(names@).len() implies views(names@)[a] != views(names@)[b] by {
        assert(names@[a]@ != names@[b]@);
    }
    false
}

fn modifiers_of(rest: &Vec<Vec<char>>, from: usize) -> (r: Result<(bool, Option<String>), Vec<char>>)
    requires
        from <= rest@.len(),
    ensures
        match r {
            Ok((o, c)) => modifiers(views(rest@).skip(from as int)) == Ok::<
                (bool, Option<Seq<char>>),
                Seq<char>,
            >((o, opt_str(c))),
            Err(e) => modifiers(views(rest@).skip(from as int)) == Err::<
                (bool, Option<Seq<char>>),
                Seq<char>,
            >(e@),
        },
{
    let ghost all = views(rest@).skip(from as int);
    let mut at = from;
    let optional = at < rest.len() && is_lit(&rest[at], OPTIONAL);
    if optional {
        at = at + 1;
    }
    let ghost rest1 = if optional { all.drop_first() } else { all };
    assert(rest1 =~= views(rest@).skip(at as int));
    if at < rest.len() && is_lit(&rest[at], WHEN) {
        if at + 1 >= rest.len() {
            return Err(lit(WHEN_NOTHING));
        }
        let named = &rest[at + 1];
        if !is_values_path(named) {
            let mut e = lit("`when ");
            push_all(&mut e, named);
            push_str(&mut e, WHEN_NOT_PATH);
            return Err(e);
        }
        if at + 2 < rest.len() {
            let tail = tail_of(rest, at + 2);
            let mut e = lit(UNEXPECTED_A);
            let spaced = join(&tail, &lit(" "));
            proof {
                assert(" "@ =~= seq![' ']) by {
                    reveal_strlit(" ");
                }
            }
            push_all(&mut e, &spaced);
            push_str(&mut e, UNEXPECTED_B);
            assert(views(tail@) == rest1.skip(2));
            return Err(e);
        }
        return Ok((optional, Some(string_of(named))));
    }
    if at < rest.len() {
        let tail = tail_of(rest, at);
        let mut e = lit(UNEXPECTED_A);
        let spaced = join(&tail, &lit(" "));
        proof {
            assert(" "@ =~= seq![' ']) by {
                reveal_strlit(" ");
            }
        }
        push_all(&mut e, &spaced);
        push_str(&mut e, UNEXPECTED_B);
        return Err(e);
    }
    Ok((optional, None))
}

fn tail_of(v: &Vec<Vec<char>>, from: usize) -> (out: Vec<Vec<char>>)
    requires
        from <= v@.len(),
    ensures
        views(out@) == views(v@).skip(from as int),
{
    let mut out: Vec<Vec<char>> = Vec::new();
    let mut i = from;
    while i < v.len()
        invariant
            from <= i <= v@.len(),
            views(out@) == views(v@).subrange(from as int, i as int),
        decreases v.len() - i,
    {
        let ghost prev = views(out@);
        out.push(v[i].clone());
        assert(views(out@) == prev.push(v@[i as int]@));
        i = i + 1;
    }
    out
}

/// Read one marker's body — everything after `@config` — into its parts.
pub fn parse_marker(text: &[char]) -> (r: Result<Parsed, Vec<char>>)
    ensures
        match r {
            Ok(p) => parse_marker_spec(text@) == Ok::<ParsedView, Seq<char>>(p@),
            Err(e) => parse_marker_spec(text@) == Err::<ParsedView, Seq<char>>(e@),
        },
{
    let tokens = split_whitespace(text);
    let ghost t = views(tokens@);
    if tokens.len() == 0 {
        return Err(lit(NAMES_NOTHING));
    }
    let spelling = &tokens[0];
    let class = match Class::parse_chars(spelling) {
        Some(c) => c,
        None => {
            let mut e = lit(UNKNOWN_CLASS);
            push_all(&mut e, spelling);
            push_str(&mut e, KNOWN_CLASSES);
            return Err(e);
        },
    };
    if tokens.len() < 2 {
        let mut e = lit("`@config ");
        push_all(&mut e, spelling);
        push_str(&mut e, "`");
        push_str(&mut e, NO_TARGET);
        return Err(e);
    }
    let raw = &tokens[1];
    assert(raw@ == t[1]);
    let c = find_char(raw, ':', 0);
    let scoped = c < raw.len();
    let scope = slice_of(raw, 0, c);
    let target = if scoped {
        slice_of(raw, c + 1, raw.len())
    } else {
        slice_of(raw, 0, raw.len())
    };
    assert(scope@ == raw@.take(c as int));
    assert(raw@.subrange(0, raw@.len() as int) == raw@);
    if !is_values_path(&target) || (scoped && scope.len() == 0) {
        return Err(lit(TARGET_FORM));
    }
    let named = split_char(&scope, ',');
    let documents = if scoped {
        if !all_values_paths(&named) {
            return Err(lit(TARGET_FORM));
        }
        if any_duplicate(&named) {
            let mut e = lit(SCOPE_TWICE_A);
            push_all(&mut e, &scope);
            push_str(&mut e, SCOPE_TWICE_B);
            return Err(e);
        }
        Some(strings_of(&named))
    } else {
        None
    };
    match modifiers_of(&tokens, 2) {
        Err(e) => Err(e),
        Ok((optional, condition)) => {
            let p = Parsed { class, documents, target: string_of(&target), optional, condition };
            Ok(p)
        },
    }
}

} // verus!

// ------------------------------------------------------------------------------------------
// Pass 1 — the structure
// ------------------------------------------------------------------------------------------

verus! {

/// One YAML parser event, as much of it as the structure pass reads.
#[derive(Debug, Clone, PartialEq, Eq)]
pub enum YamlEvent {
    /// A mapping opens.
    MappingStart,
    /// A sequence opens.
    SequenceStart,
    /// A mapping closes.
    MappingEnd,
    /// A sequence closes.
    SequenceEnd,
    /// A scalar, with the lines its span starts and ends on.
    Scalar { value: String, start: usize, end: usize },
    /// Anything else: a stream or document boundary, an alias.
    Other,
}

/// One event, as values.
pub enum EventView {
    MappingStart,
    SequenceStart,
    MappingEnd,
    SequenceEnd,
    Scalar { value: Seq<char>, start: nat, end: nat },
    Other,
}

impl View for YamlEvent {
    type V = EventView;

    open spec fn view(&self) -> EventView {
        match self {
            YamlEvent::MappingStart => EventView::MappingStart,
            YamlEvent::SequenceStart => EventView::SequenceStart,
            YamlEvent::MappingEnd => EventView::MappingEnd,
            YamlEvent::SequenceEnd => EventView::SequenceEnd,
            YamlEvent::Scalar { value, start, end } => EventView::Scalar {
                value: value@,
                start: *start as nat,
                end: *end as nat,
            },
            YamlEvent::Other => EventView::Other,
        }
    }
}

/// The events of a list, as values.
pub open spec fn events_view(v: Seq<YamlEvent>) -> Seq<EventView> {
    v.map_values(|e: YamlEvent| e@)
}

/// What `saphyr_parser` reports for one text: its events up to the end of the stream, each
/// scalar with the lines of its span, or the message of the first scan error.
pub uninterp spec fn yaml_events(text: Seq<char>) -> Result<Seq<EventView>, Seq<char>>;

/// What one parse came back as, as values.
pub open spec fn parse_view(r: Result<Vec<YamlEvent>, String>) -> Result<Seq<EventView>, Seq<char>> {
    match r {
        Ok(v) => Ok(events_view(v@)),
        Err(e) => Err(e@),
    }
}

/// The events `saphyr_parser::Parser` emits for one text, in order, stopping at the first error.
///
/// Trusted: the result is claimed to be `yaml_events` of the text, a name for what the parser
/// returns; which events a given text produces is not stated here.
#[verifier::external_body]
fn parse_events(text: &str) -> (r: Result<Vec<YamlEvent>, String>)
    ensures
        parse_view(r) == yaml_events(text@),
{
    let mut out = Vec::new();
    for item in saphyr_parser::Parser::new_from_str(text) {
        let (event, span) = item.map_err(|failure| failure.to_string())?;
        let (start, end) = (span.start.line(), span.end.line());
        out.push(match event {
            saphyr_parser::Event::MappingStart(..) => YamlEvent::MappingStart,
            saphyr_parser::Event::SequenceStart(..) => YamlEvent::SequenceStart,
            saphyr_parser::Event::MappingEnd => YamlEvent::MappingEnd,
            saphyr_parser::Event::SequenceEnd => YamlEvent::SequenceEnd,
            saphyr_parser::Event::Scalar(value, ..) => YamlEvent::Scalar { value: value.to_string(), start, end },
            _ => YamlEvent::Other,
        });
    }
    Ok(out)
}

/// One level of the document while the events are walked.
#[derive(Debug, Clone, PartialEq, Eq)]
pub enum Level {
    /// A mapping: the key last read, and whether a key comes next.
    Mapping { key: Option<Vec<char>>, expecting_key: bool },
    /// A sequence.
    Sequence,
}

/// One level, as values.
pub enum LevelView {
    Mapping { key: Option<Seq<char>>, expecting_key: bool },
    Sequence,
}

impl View for Level {
    type V = LevelView;

    open spec fn view(&self) -> LevelView {
        match self {
            Level::Mapping { key, expecting_key } => LevelView::Mapping {
                key: match key {
                    Some(k) => Some(k@),
                    None => None,
                },
                expecting_key: *expecting_key,
            },
            Level::Sequence => LevelView::Sequence,
        }
    }
}

pub open spec fn levels_view(v: Seq<Level>) -> Seq<LevelView> {
    v.map_values(|l: Level| l@)
}

/// The keys of every enclosing mapping from level `i` down, or nothing when a sequence encloses
/// them: a marker cannot bind to a sequence item, so a path through one is a path no rule can use.
pub open spec fn dotted_from(levels: Seq<LevelView>, i: int) -> Option<Seq<Seq<char>>>
    decreases levels.len() - i,
{
    if i < 0 || i >= levels.len() {
        Some(seq![])
    } else {
        match levels[i] {
            LevelView::Sequence => None,
            LevelView::Mapping { key, .. } => match dotted_from(levels, i + 1) {
                None => None,
                Some(rest) => match key {
                    Some(k) => Some(seq![k] + rest),
                    None => Some(rest),
                },
            },
        }
    }
}

/// The dotted path of whatever the walk is inside.
pub open spec fn dotted(levels: Seq<LevelView>) -> Option<Seq<char>> {
    match dotted_from(levels, 0) {
        Some(parts) => Some(join_spec(parts, seq!['.'])),
        None => None,
    }
}

/// One value has been read, so the mapping it was in expects a key next.
pub open spec fn advance(levels: Seq<LevelView>) -> Seq<LevelView> {
    if levels.len() > 0 {
        match levels.last() {
            LevelView::Mapping { key, .. } => levels.update(
                levels.len() - 1,
                LevelView::Mapping { key, expecting_key: true },
            ),
            LevelView::Sequence => levels,
        }
    } else {
        levels
    }
}

/// The walk's state: the open levels, the keys found with their lines, and the multi-line
/// scalars' line spans.
#[verifier::ext_equal]
pub struct WalkView {
    pub levels: Seq<LevelView>,
    pub keys: Seq<(nat, Seq<char>)>,
    pub scalars: Seq<(nat, nat)>,
}

/// One event's effect on the walk.
pub open spec fn walk_step(w: WalkView, e: EventView) -> WalkView {
    match e {
        EventView::MappingStart => WalkView {
            levels: w.levels.push(LevelView::Mapping { key: None, expecting_key: true }),
            ..w
        },
        EventView::SequenceStart => WalkView { levels: w.levels.push(LevelView::Sequence), ..w },
        EventView::MappingEnd | EventView::SequenceEnd => WalkView {
            levels: advance(
                if w.levels.len() > 0 {
                    w.levels.drop_last()
                } else {
                    w.levels
                },
            ),
            ..w
        },
        EventView::Scalar { value, start, end } => {
            let scalars = if end > start {
                w.scalars.push((start, end))
            } else {
                w.scalars
            };
            let expecting = w.levels.len() > 0 && (w.levels.last() matches LevelView::Mapping {
                expecting_key: true,
                ..
            });
            if expecting {
                let levels = w.levels.update(
                    w.levels.len() - 1,
                    LevelView::Mapping { key: Some(value), expecting_key: false },
                );
                let keys = match dotted(levels) {
                    Some(d) => w.keys.push((start, d)),
                    None => w.keys,
                };
                WalkView { levels, keys, scalars }
            } else {
                WalkView { levels: advance(w.levels), keys: w.keys, scalars }
            }
        },
        EventView::Other => w,
    }
}

/// The walk over the first `n` events.
pub open spec fn walk(events: Seq<EventView>, n: int) -> WalkView
    decreases n,
{
    if n <= 0 {
        WalkView { levels: seq![], keys: seq![], scalars: seq![] }
    } else {
        walk_step(walk(events, n - 1), events[n - 1])
    }
}

/// Where every mapping key is_lit, and which lines are inside a scalar rather than being one.
#[derive(Debug)]
pub struct Index {
    /// Line number and the dotted path of the mapping key on it; a later entry for one line wins.
    pub keys: Vec<(usize, Vec<char>)>,
    /// Lines covered by a multi-line scalar's own text, as half-open spans.
    pub inside_a_scalar: Vec<(usize, usize)>,
}

pub open spec fn keys_view(v: Seq<(usize, Vec<char>)>) -> Seq<(nat, Seq<char>)> {
    v.map_values(|p: (usize, Vec<char>)| (p.0 as nat, p.1@))
}

pub open spec fn spans_view(v: Seq<(usize, usize)>) -> Seq<(nat, nat)> {
    v.map_values(|p: (usize, usize)| (p.0 as nat, p.1 as nat))
}

/// The dotted path of the key on one line: the last one recorded there.
pub open spec fn key_at_spec(keys: Seq<(nat, Seq<char>)>, line: nat) -> Option<Seq<char>>
    decreases keys.len(),
{
    if keys.len() == 0 {
        None
    } else if keys.last().0 == line {
        Some(keys.last().1)
    } else {
        key_at_spec(keys.drop_last(), line)
    }
}

/// Whether one line is a multi-line scalar's own text rather than structure.
pub open spec fn buried_spec(scalars: Seq<(nat, nat)>, line: nat) -> bool {
    exists|i: int| 0 <= i < scalars.len() && #[trigger] scalars[i].0 <= line && line < scalars[i].1
}

impl Index {
    /// The dotted path of the value on this line, if it carries a mapping key.
    pub fn key_at(&self, line: usize) -> (r: Option<Vec<char>>)
        ensures
            match r {
                Some(k) => key_at_spec(keys_view(self.keys@), line as nat) == Some(k@),
                None => key_at_spec(keys_view(self.keys@), line as nat) is None,
            },
    {
        let mut i = self.keys.len();
        assert(keys_view(self.keys@).take(i as int) == keys_view(self.keys@));
        while i > 0
            invariant
                i <= self.keys@.len(),
                key_at_spec(keys_view(self.keys@), line as nat) == key_at_spec(
                    keys_view(self.keys@).take(i as int),
                    line as nat,
                ),
            decreases i,
        {
            let ghost before = keys_view(self.keys@).take(i as int);
            assert(before.drop_last() == keys_view(self.keys@).take(i - 1));
            if self.keys[i - 1].0 == line {
                return Some(self.keys[i - 1].1.clone());
            }
            i = i - 1;
        }
        None
    }

    /// Whether this line is a multi-line scalar's own text rather than structure.
    pub fn buried(&self, line: usize) -> (b: bool)
        ensures
            b == buried_spec(spans_view(self.inside_a_scalar@), line as nat),
    {
        let mut i: usize = 0;
        while i < self.inside_a_scalar.len()
            invariant
                i <= self.inside_a_scalar@.len(),
                forall|k: int|
                    0 <= k < i ==> !(#[trigger] spans_view(self.inside_a_scalar@)[k].0 <= line
                        && line < spans_view(self.inside_a_scalar@)[k].1),
            decreases self.inside_a_scalar.len() - i,
        {
            let (start, end) = self.inside_a_scalar[i];
            if line >= start && line < end {
                assert(spans_view(self.inside_a_scalar@)[i as int].0 <= line);
                return true;
            }
            i = i + 1;
        }
        false
    }
}

} // verus!

verus! {

/// The parts gathered so far, ahead of what the rest of the levels give.
pub open spec fn prefixed(parts: Seq<Seq<char>>, rest: Option<Seq<Seq<char>>>) -> Option<
    Seq<Seq<char>>,
> {
    match rest {
        Some(r) => Some(parts + r),
        None => None,
    }
}

fn dotted_of(levels: &Vec<Level>) -> (r: Option<Vec<char>>)
    ensures
        match r {
            Some(d) => dotted(levels_view(levels@)) == Some(d@),
            None => dotted(levels_view(levels@)) is None,
        },
{
    let ghost lv = levels_view(levels@);
    let mut parts: Vec<Vec<char>> = Vec::new();
    let mut i: usize = 0;
    while i < levels.len()
        invariant
            i <= levels@.len(),
            lv == levels_view(levels@),
            dotted_from(lv, 0) == prefixed(views(parts@), dotted_from(lv, i as int)),
        decreases levels.len() - i,
    {
        let ghost before = views(parts@);
        match &levels[i] {
            Level::Sequence => {
                return None;
            },
            Level::Mapping { key, .. } => {
                match key {
                    Some(k) => {
                        parts.push(k.clone());
                        assert(views(parts@) == before.push(k@));
                        proof {
                            match dotted_from(lv, i + 1) {
                                Some(r) => {
                                    assert(before + (seq![k@] + r) =~= before.push(k@) + r);
                                },
                                None => {},
                            }
                        }
                    },
                    None => {},
                }
            },
        }
        i = i + 1;
    }
    assert(views(parts@) + Seq::<Seq<char>>::empty() =~= views(parts@));
    let sep = chars_of(".");
    proof {
        assert(sep@ =~= seq!['.']) by {
            reveal_strlit(".");
        }
    }
    Some(join(&parts, &sep))
}

fn advance_levels(levels: &mut Vec<Level>)
    ensures
        levels_view(final(levels)@) == advance(levels_view(old(levels)@)),
{
    let n = levels.len();
    if n > 0 {
        let last = levels.pop().unwrap();
        match last {
            Level::Mapping { key, .. } => {
                levels.push(Level::Mapping { key, expecting_key: true });
                assert(levels_view(levels@) =~= advance(levels_view(old(levels)@)));
            },
            Level::Sequence => {
                levels.push(Level::Sequence);
                assert(levels_view(levels@) =~= levels_view(old(levels)@));
            },
        }
    }
}

/// The index a list of events builds: every mapping key's dotted path with the line it sits on,
/// and every multi-line scalar's span.
pub open spec fn index_spec(events: Seq<EventView>) -> (Seq<(nat, Seq<char>)>, Seq<(nat, nat)>) {
    let w = walk(events, events.len() as int);
    (w.keys, w.scalars)
}

/// Build the index from the parser's events.
pub fn index_of(events: &Vec<YamlEvent>) -> (index: Index)
    ensures
        (keys_view(index.keys@), spans_view(index.inside_a_scalar@)) == index_spec(
            events_view(events@),
        ),
{
    let ghost ev = events_view(events@);
    let mut levels: Vec<Level> = Vec::new();
    let mut keys: Vec<(usize, Vec<char>)> = Vec::new();
    let mut scalars: Vec<(usize, usize)> = Vec::new();
    let mut n: usize = 0;
    assert(levels_view(levels@) =~= Seq::<LevelView>::empty());
    assert(keys_view(keys@) =~= Seq::<(nat, Seq<char>)>::empty());
    assert(spans_view(scalars@) =~= Seq::<(nat, nat)>::empty());
    while n < events.len()
        invariant
            n <= events@.len(),
            ev == events_view(events@),
            walk(ev, n as int) == (WalkView {
                levels: levels_view(levels@),
                keys: keys_view(keys@),
                scalars: spans_view(scalars@),
            }),
        decreases events.len() - n,
    {
        let ghost w = walk(ev, n as int);
        assert(ev[n as int] == events@[n as int]@);
        match &events[n] {
            YamlEvent::MappingStart => {
                levels.push(Level::Mapping { key: None, expecting_key: true });
                assert(levels_view(levels@) =~= w.levels.push(
                    LevelView::Mapping { key: None, expecting_key: true },
                ));
            },
            YamlEvent::SequenceStart => {
                levels.push(Level::Sequence);
                assert(levels_view(levels@) =~= w.levels.push(LevelView::Sequence));
            },
            YamlEvent::MappingEnd | YamlEvent::SequenceEnd => {
                if levels.len() > 0 {
                    levels.pop();
                    assert(levels_view(levels@) =~= w.levels.drop_last());
                }
                advance_levels(&mut levels);
            },
            YamlEvent::Scalar { value, start, end } => {
                if *end > *start {
                    let ghost before = spans_view(scalars@);
                    scalars.push((*start, *end));
                    assert(spans_view(scalars@) =~= before.push((*start as nat, *end as nat)));
                }
                let expecting = levels.len() > 0 && match &levels[levels.len() - 1] {
                    Level::Mapping { expecting_key, .. } => *expecting_key,
                    Level::Sequence => false,
                };
                if expecting {
                    levels.pop();
                    levels.push(Level::Mapping { key: Some(chars(value)), expecting_key: false });
                    assert(levels_view(levels@) =~= w.levels.update(
                        w.levels.len() - 1,
                        LevelView::Mapping { key: Some(value@), expecting_key: false },
                    ));
                    match dotted_of(&levels) {
                        Some(d) => {
                            let ghost before = keys_view(keys@);
                            keys.push((*start, d));
                            assert(keys_view(keys@) =~= before.push((*start as nat, d@)));
                        },
                        None => {},
                    }
                } else {
                    advance_levels(&mut levels);
                }
            },
            YamlEvent::Other => {},
        }
        n = n + 1;
    }
    Index { keys, inside_a_scalar: scalars }
}

} // verus!

// ------------------------------------------------------------------------------------------
// Pass 2 — the comments
// ------------------------------------------------------------------------------------------

verus! {

/// One `# @config` comment, and the chart value whose `@schema` block it was written in.
#[derive(Debug, Clone, PartialEq, Eq)]
pub struct Marker {
    /// The chart the values file belongs to.
    pub chart: String,
    /// The dotted path of the value this binds, taken from the document's own structure.
    pub values_path: String,
    /// The marker's own line.
    pub line: usize,
    /// What kind of binding this is.
    pub class: Class,
    /// The documents this binding is scoped to, or every document that declares the target.
    pub documents: Option<Vec<String>>,
    /// The key path or external variable name this value feeds.
    pub target: String,
    /// Whether the key may legitimately be absent when the value is empty.
    pub optional: bool,
    /// A values path that must be switched on before this value reaches the document at all.
    pub condition: Option<String>,
}

/// A marker, as values.
#[verifier::ext_equal]
pub struct MarkerView {
    pub chart: Seq<char>,
    pub values_path: Seq<char>,
    pub line: nat,
    pub class: Class,
    pub documents: Option<Seq<Seq<char>>>,
    pub target: Seq<char>,
    pub optional: bool,
    pub condition: Option<Seq<char>>,
}

impl View for Marker {
    type V = MarkerView;

    open spec fn view(&self) -> MarkerView {
        MarkerView {
            chart: self.chart@,
            values_path: self.values_path@,
            line: self.line as nat,
            class: self.class,
            documents: opt_strs(self.documents),
            target: self.target@,
            optional: self.optional,
            condition: opt_str(self.condition),
        }
    }
}

/// `chart/values.yaml:LINE`, for a message a reader can jump to.
pub open spec fn at_spec(chart: Seq<char>, line: nat) -> Seq<char> {
    chart + "/values.yaml:"@ + decimal(line)
}

/// `chart/values.yaml:LINE`.
pub fn at_of(chart: &[char], line: usize) -> (v: Vec<char>)
    ensures
        v@ == at_spec(chart@, line as nat),
{
    let mut v: Vec<char> = Vec::new();
    push_all(&mut v, chart);
    push_str(&mut v, "/values.yaml:");
    let d = decimal_of(line as u64);
    push_all(&mut v, &d);
    v
}

impl Marker {
    /// `chart/values.yaml:LINE`, for a message a reader can jump to.
    pub fn at(&self) -> (s: String)
        ensures
            s@ == at_spec(self.chart@, self.line as nat),
    {
        let chart = chars(&self.chart);
        string_of(&at_of(&chart, self.line))
    }
}

/// One `@schema` block, and the chart value it belongs to.
#[derive(Debug, Clone, PartialEq, Eq)]
pub struct Block {
    /// The chart the values file belongs to.
    pub chart: String,
    /// The value the block describes.
    pub values_path: String,
    /// The opening delimiter's line.
    pub start: usize,
    /// The closing delimiter's line.
    pub end: usize,
    /// The delimiter's indentation, in bytes.
    pub indent: usize,
    /// The raw lines between the delimiters, marker run and schema alike, exactly as they appear
    /// in the file: a caller rewriting the block replaces lines `start + 1 ..= end - 1`.
    pub lines: Vec<String>,
}

/// A block, as values.
#[verifier::ext_equal]
pub struct BlockView {
    pub chart: Seq<char>,
    pub values_path: Seq<char>,
    pub start: nat,
    pub end: nat,
    pub indent: nat,
    pub lines: Seq<Seq<char>>,
}

impl View for Block {
    type V = BlockView;

    open spec fn view(&self) -> BlockView {
        BlockView {
            chart: self.chart@,
            values_path: self.values_path@,
            start: self.start as nat,
            end: self.end as nat,
            indent: self.indent as nat,
            lines: strs(self.lines@),
        }
    }
}

/// The index of the `#` that opens a line's comment, from index `i` with `quote` open, or -1.
///
/// A `#` inside a quoted scalar is not a comment, and one is an introducer only at the start of a
/// line or after whitespace, which keeps a colour like `#fff` from ending the value that holds it.
pub open spec fn hash_at(s: Seq<char>, i: int, quote: Option<char>) -> int
    decreases s.len() - i,
{
    if i < 0 || i >= s.len() {
        -1
    } else {
        match quote {
            Some(q) => hash_at(s, i + 1, if s[i] == q { None } else { Some(q) }),
            None => if s[i] == '"' || s[i] == '\'' {
                hash_at(s, i + 1, Some(s[i]))
            } else if s[i] == '#' && (i == 0 || s[i - 1] == ' ' || s[i - 1] == '\t') {
                i
            } else {
                hash_at(s, i + 1, None)
            },
        }
    }
}

pub proof fn lemma_hash_at(s: Seq<char>, i: int, quote: Option<char>)
    requires
        0 <= i,
    ensures
        hash_at(s, i, quote) == -1 || (i <= hash_at(s, i, quote) < s.len()),
    decreases s.len() - i,
{
    if i < s.len() {
        match quote {
            Some(q) => lemma_hash_at(s, i + 1, if s[i] == q { None } else { Some(q) }),
            None => {
                if s[i] == '"' || s[i] == '\'' {
                    lemma_hash_at(s, i + 1, Some(s[i]));
                } else if !(s[i] == '#' && (i == 0 || s[i - 1] == ' ' || s[i - 1] == '\t')) {
                    lemma_hash_at(s, i + 1, None);
                }
            },
        }
    }
}

/// One line split into its YAML and its trailing comment, the comment trimmed.
pub open spec fn split_comment_spec(s: Seq<char>) -> (Seq<char>, Option<Seq<char>>) {
    let h = hash_at(s, 0, None);
    if h < 0 {
        (s, None)
    } else {
        (s.take(h), Some(trim_spec(s.skip(h + 1))))
    }
}

/// Split one line into its YAML and its trailing comment, respecting quotes.
pub fn split_comment(line: &[char]) -> (r: (Vec<char>, Option<Vec<char>>))
    ensures
        r.0@ == split_comment_spec(line@).0,
        match r.1 {
            Some(c) => split_comment_spec(line@).1 == Some(c@),
            None => split_comment_spec(line@).1 is None,
        },
{
    let mut quote: Option<char> = None;
    let mut i: usize = 0;
    while i < line.len()
        invariant
            i <= line@.len(),
            hash_at(line@, 0, None) == hash_at(line@, i as int, quote),
        decreases line.len() - i,
    {
        let c = line[i];
        match quote {
            Some(open) => {
                if c == open {
                    quote = None;
                }
            },
            None => {
                if c == '"' || c == '\'' {
                    quote = Some(c);
                } else if c == '#' && (i == 0 || line[i - 1] == ' ' || line[i - 1] == '\t') {
                    let code = slice_of(line, 0, i);
                    let rest = slice_of(line, i + 1, line.len());
                    let comment = trim(&rest);
                    return (code, Some(comment));
                }
            },
        }
        i = i + 1;
    }
    (slice_of(line, 0, line.len()), None)
}

/// `@config ` — a marker, followed by its body.
pub const MARKER_THEN: &'static str = "@config ";

/// Whether a comment body is a marker, and not merely a word beginning the same way.
pub open spec fn is_marker_spec(comment: Option<Seq<char>>) -> bool {
    match comment {
        Some(c) => c == MARKER@ || starts_with_spec(c, MARKER_THEN@),
        None => false,
    }
}

fn is_marker(comment: &Option<Vec<char>>) -> (b: bool)
    ensures
        b == is_marker_spec(opt_chars(*comment)),
{
    match comment {
        Some(c) => is_lit(c, MARKER) || starts_with_str(c, MARKER_THEN),
        None => false,
    }
}

pub open spec fn opt_chars(o: Option<Vec<char>>) -> Option<Seq<char>> {
    match o {
        Some(v) => Some(v@),
        None => None,
    }
}

/// The comment carried inside a block's comment, which is where a marker is written.
pub open spec fn schema_comment_spec(comment: Option<Seq<char>>) -> Option<Seq<char>> {
    match comment {
        Some(c) => if c.len() > 0 && c[0] == '#' {
            Some(trim_spec(c.drop_first()))
        } else {
            None
        },
        None => None,
    }
}

fn schema_comment(comment: &Option<Vec<char>>) -> (r: Option<Vec<char>>)
    ensures
        opt_chars(r) == schema_comment_spec(opt_chars(*comment)),
{
    match comment {
        Some(c) => {
            if c.len() > 0 && c[0] == '#' {
                let rest = slice_of(c, 1, c.len());
                assert(rest@ == c@.drop_first());
                Some(trim(&rest))
            } else {
                None
            }
        },
        None => None,
    }
}

/// The delimiter a value's schema block is enclosed in.
pub const SCHEMA_DELIMITER: &'static str = "@schema";

/// Whether a line opens or closes the schema block.
pub open spec fn is_delimiter_spec(line: Seq<char>) -> bool {
    let t = trim_spec(line);
    t.len() > 0 && t[0] == '#' && trim_spec(t.drop_first()) == SCHEMA_DELIMITER@
}

fn is_delimiter(line: &[char]) -> (b: bool)
    ensures
        b == is_delimiter_spec(line@),
{
    let t = trim(line);
    if t.len() > 0 && t[0] == '#' {
        let rest = slice_of(&t, 1, t.len());
        assert(rest@ == t@.drop_first());
        let inner = trim(&rest);
        is_lit(&inner, SCHEMA_DELIMITER)
    } else {
        false
    }
}

/// Whether a line is a sequence item, which is not a value a marker may describe.
pub open spec fn is_sequence_item_spec(code: Seq<char>) -> bool {
    let t = trim_start_spec(code);
    t == "-"@ || starts_with_spec(t, "- "@)
}

fn is_sequence_item(code: &[char]) -> (b: bool)
    ensures
        b == is_sequence_item_spec(code@),
{
    let t = trim_start(code);
    is_lit(&t, "-") || starts_with_str(&t, "- ")
}

/// Whether one line inside a block opens with a marker rather than with schema.
pub open spec fn opens_with_a_marker_spec(line: Seq<char>) -> bool {
    is_marker_spec(schema_comment_spec(split_comment_spec(line).1))
}

/// Whether one line inside a block opens with a marker rather than with schema: the split a
/// caller regenerating a block needs, since the marker run is hand-written.
pub fn opens_with_a_marker(line: &str) -> (b: bool)
    ensures
        b == opens_with_a_marker_spec(line@),
{
    let l = chars_of(line);
    opens_with_chars(&l)
}

/// Whether one line inside a block opens with a marker rather than with schema.
pub fn opens_with_chars(line: &[char]) -> (b: bool)
    ensures
        b == opens_with_a_marker_spec(line@),
{
    let (_, comment) = split_comment(line);
    let nested = schema_comment(&comment);
    is_marker(&nested)
}

/// The UTF-8 width of one character.
pub open spec fn utf8_width(c: char) -> nat {
    let n = c as u32;
    if n < 0x80 {
        1
    } else if n < 0x800 {
        2
    } else if n < 0x10000 {
        3
    } else {
        4
    }
}

/// The UTF-8 length of a text.
pub open spec fn byte_len(s: Seq<char>) -> nat
    decreases s.len(),
{
    if s.len() == 0 {
        0
    } else {
        byte_len(s.drop_last()) + utf8_width(s.last())
    }
}

/// A line's indentation: the bytes of its leading whitespace, held to what a `usize` counts.
pub open spec fn indent_spec(line: Seq<char>) -> nat {
    let b = byte_len(line.take(skip_ws(line, 0)));
    if b > usize::MAX {
        usize::MAX as nat
    } else {
        b
    }
}

fn indent_of(line: &[char]) -> (n: usize)
    ensures
        n as nat == indent_spec(line@),
{
    let stop = trim_start_at(line);
    let mut total: u128 = 0;
    let mut i: usize = 0;
    while i < stop
        invariant
            stop <= line@.len(),
            stop as int == skip_ws(line@, 0),
            i <= stop,
            total as nat == byte_len(line@.take(i as int)),
            total <= 4 * (i as u128),
        decreases stop - i,
    {
        let n = line[i] as u32;
        let w: u128 = if n < 0x80 {
            1
        } else if n < 0x800 {
            2
        } else if n < 0x10000 {
            3
        } else {
            4
        };
        assert(line@.take(i + 1).drop_last() == line@.take(i as int));
        total = total + w;
        i = i + 1;
    }
    if total > usize::MAX as u128 {
        usize::MAX
    } else {
        total as usize
    }
}

} // verus!

verus! {

pub const STRANDED_A: &'static str = "this `@config` marker's `@schema` block is followed by ";
pub const STRANDED_B: &'static str = " rather than by the value it binds, so it binds nothing";
pub const BLANK_LINE: &'static str = "a blank line";
pub const SECOND_BLOCK: &'static str = "a second `@schema` block";
pub const SEQUENCE_ITEM: &'static str = "a sequence item";
pub const UNREADABLE: &'static str = "a line this parser cannot read as a value";
pub const END_OF_FILE: &'static str = "the end of the file";
pub const OWN_LINE: &'static str = "this `@config` marker is a comment line of its own, outside the `@schema` delimiters. Both generators read that run as the value's description: above the `# --` the schema generator emits a leading newline into the generated schema, and below it the README generator appends the marker to the value's row. Write it as `# # @config ...` on the first line inside the block instead";
pub const BELOW: &'static str = "this `@config` marker is below the schema rather than above it. A value's markers are the run of lines directly inside the opening `# @schema`, so that a reader looking for what a value binds reads the top of one block and stops";
pub const ALREADY_A: &'static str = "this value already binds '";
pub const ALREADY_B: &'static str = "' on line ";
pub const ALREADY_C: &'static str = "; one binding said twice is one of the two being out of date";
pub const CONTENT: &'static str = "this `@config` marker is schema *content* rather than a comment on it, and `@` is a reserved indicator in YAML, so the schema generator fails on the block outright. Write it as a comment within the schema: `# # @config ...`";
pub const SITS_ON_A: &'static str = "this `@config` marker sits on ";
pub const SITS_ON_B: &'static str = "; a marker describes one mapping value and is written inside that value's `@schema` block";
pub const TRAILING: &'static str = "this `@config` marker is the value's trailing comment. Both generators ignore it there, so this is a convention rather than a measurement: every other piece of metadata about a value lives above it, and the marker's place is the first line inside the `@schema` block, as `# # @config ...`";
pub const NOT_YAML: &'static str = "is not valid YAML: ";

/// The scan's state: what it has found and refused, and the state machine that binds a block
/// to the value below it.
#[verifier::ext_equal]
pub struct ScanView {
    pub problems: Seq<Seq<char>>,
    pub markers: Seq<MarkerView>,
    pub blocks: Seq<BlockView>,
    pub in_schema: bool,
    pub in_marker_run: bool,
    pub pending: Seq<(nat, ParsedView)>,
    pub pending_block: Option<(nat, nat, nat, Seq<Seq<char>>)>,
    pub open_block: Option<(nat, nat, Seq<Seq<char>>)>,
}

/// The scan before its first line.
pub open spec fn scan_start() -> ScanView {
    ScanView {
        problems: seq![],
        markers: seq![],
        blocks: seq![],
        in_schema: false,
        in_marker_run: false,
        pending: seq![],
        pending_block: None,
        open_block: None,
    }
}

/// One refusal, naming the line.
pub open spec fn refusal(chart: Seq<char>, line: nat, what: Seq<char>) -> Seq<char> {
    at_spec(chart, line) + ": "@ + what
}

pub open spec fn refuse_spec(s: ScanView, chart: Seq<char>, line: nat, what: Seq<char>) -> ScanView {
    ScanView { problems: s.problems.push(refusal(chart, line, what)), ..s }
}

/// Markers whose block never reached a value bind nothing: each is refused, naming what came
/// instead, and a block that reached none is dropped.
pub open spec fn strand_spec(s: ScanView, chart: Seq<char>, what: Seq<char>) -> ScanView {
    ScanView {
        problems: s.problems + s.pending.map_values(
            |p: (nat, ParsedView)| refusal(chart, p.0, STRANDED_A@ + what + STRANDED_B@),
        ),
        pending: seq![],
        pending_block: None,
        ..s
    }
}

/// A `# @schema` line: the block closes, or a new one opens.
pub open spec fn delimiter_spec(s: ScanView, chart: Seq<char>, number: nat, indent: nat) -> ScanView {
    if s.in_schema {
        ScanView {
            in_schema: false,
            in_marker_run: false,
            pending_block: match s.open_block {
                Some((start, block_indent, collected)) => Some(
                    (start, number, block_indent, collected),
                ),
                None => s.pending_block,
            },
            open_block: None,
            ..s
        }
    } else {
        let t = strand_spec(s, chart, SECOND_BLOCK@);
        ScanView {
            in_schema: true,
            in_marker_run: true,
            open_block: Some((number, indent, seq![])),
            ..t
        }
    }
}

/// The first pending binding with the same scope and target, by its line.
pub open spec fn first_duplicate(pending: Seq<(nat, ParsedView)>, p: ParsedView) -> Option<nat>
    decreases pending.len(),
{
    if pending.len() == 0 {
        None
    } else if pending[0].1.documents == p.documents && pending[0].1.target == p.target {
        Some(pending[0].0)
    } else {
        first_duplicate(pending.drop_first(), p)
    }
}

/// One line between the delimiters.
pub open spec fn inside_block_spec(
    s: ScanView,
    chart: Seq<char>,
    number: nat,
    line: Seq<char>,
    comment: Option<Seq<char>>,
) -> ScanView {
    let s1 = ScanView {
        open_block: match s.open_block {
            Some((start, indent, collected)) => Some((start, indent, collected.push(line))),
            None => None,
        },
        ..s
    };
    let nested = schema_comment_spec(comment);
    if is_marker_spec(nested) {
        if !s1.in_marker_run {
            refuse_spec(s1, chart, number, BELOW@)
        } else {
            let body = trim_spec(nested->0.skip(MARKER@.len() as int));
            match parse_marker_spec(body) {
                Err(failure) => refuse_spec(s1, chart, number, failure),
                Ok(parsed) => match first_duplicate(s1.pending, parsed) {
                    Some(first) => refuse_spec(
                        s1,
                        chart,
                        number,
                        ALREADY_A@ + parsed.target + ALREADY_B@ + decimal(first) + ALREADY_C@,
                    ),
                    None => ScanView { pending: s1.pending.push((number, parsed)), ..s1 },
                },
            }
        }
    } else {
        let s2 = if is_marker_spec(comment) {
            refuse_spec(s1, chart, number, CONTENT@)
        } else {
            s1
        };
        ScanView { in_marker_run: false, ..s2 }
    }
}

/// The marker a pending binding becomes once its value is known.
pub open spec fn bound(chart: Seq<char>, values_path: Seq<char>, p: (nat, ParsedView)) -> MarkerView {
    MarkerView {
        chart,
        values_path,
        line: p.0,
        class: p.1.class,
        documents: p.1.documents,
        target: p.1.target,
        optional: p.1.optional,
        condition: p.1.condition,
    }
}

/// A line carrying something other than a comment: the value a pending block binds to, or not.
pub open spec fn value_spec(
    s: ScanView,
    chart: Seq<char>,
    keys: Seq<(nat, Seq<char>)>,
    number: nat,
    code: Seq<char>,
    comment: Option<Seq<char>>,
) -> ScanView {
    match key_at_spec(keys, number) {
        None => {
            let what = if is_sequence_item_spec(code) {
                SEQUENCE_ITEM@
            } else {
                UNREADABLE@
            };
            let t = strand_spec(s, chart, what);
            if is_marker_spec(comment) {
                refuse_spec(t, chart, number, SITS_ON_A@ + what + SITS_ON_B@)
            } else {
                t
            }
        },
        Some(values_path) => {
            let s1 = if is_marker_spec(comment) {
                refuse_spec(s, chart, number, TRAILING@)
            } else {
                s
            };
            ScanView {
                blocks: match s1.pending_block {
                    Some((start, end, indent, lines)) => s1.blocks.push(
                        BlockView { chart, values_path, start, end, indent, lines },
                    ),
                    None => s1.blocks,
                },
                markers: s1.markers + s1.pending.map_values(
                    |p: (nat, ParsedView)| bound(chart, values_path, p),
                ),
                pending: seq![],
                pending_block: None,
                ..s1
            }
        },
    }
}

/// One line of the values file, numbered from 1.
pub open spec fn scan_line(
    s: ScanView,
    chart: Seq<char>,
    keys: Seq<(nat, Seq<char>)>,
    scalars: Seq<(nat, nat)>,
    number: nat,
    raw: Seq<char>,
) -> ScanView {
    if buried_spec(scalars, number) {
        s
    } else {
        let line = trim_end_spec(raw);
        if trim_spec(line).len() == 0 {
            if !s.in_schema {
                strand_spec(s, chart, BLANK_LINE@)
            } else {
                s
            }
        } else {
            let (code, comment) = split_comment_spec(line);
            if is_delimiter_spec(line) {
                delimiter_spec(s, chart, number, indent_spec(line))
            } else if s.in_schema {
                inside_block_spec(s, chart, number, line, comment)
            } else if trim_spec(code).len() == 0 {
                if is_marker_spec(comment) {
                    refuse_spec(s, chart, number, OWN_LINE@)
                } else {
                    s
                }
            } else {
                value_spec(s, chart, keys, number, code, comment)
            }
        }
    }
}

/// The scan over the first `n` lines.
pub open spec fn scan_lines(
    chart: Seq<char>,
    keys: Seq<(nat, Seq<char>)>,
    scalars: Seq<(nat, nat)>,
    lines: Seq<Seq<char>>,
    n: int,
) -> ScanView
    decreases n,
{
    if n <= 0 {
        scan_start()
    } else {
        scan_line(scan_lines(chart, keys, scalars, lines, n - 1), chart, keys, scalars, n as nat, lines[n - 1])
    }
}

/// The lines of a file numbered `start + 1 ..= end - 1`, exactly as written: what lies between
/// a block's delimiters.
pub open spec fn raw_lines(ls: Seq<Seq<char>>, start: nat, end: nat) -> Seq<Seq<char>> {
    if start < end && end <= ls.len() + 1 {
        ls.subrange(start as int, end - 1)
    } else {
        seq![]
    }
}

/// A block holding the lines between its delimiters exactly as the file writes them.
pub open spec fn as_written(b: BlockView, ls: Seq<Seq<char>>) -> BlockView {
    BlockView {
        chart: b.chart,
        values_path: b.values_path,
        start: b.start,
        end: b.end,
        indent: b.indent,
        lines: raw_lines(ls, b.start, b.end),
    }
}

/// A block's content as the schema reads it: its lines with trailing whitespace trimmed, the
/// blank ones left out.
pub open spec fn content_spec(lines: Seq<Seq<char>>) -> Seq<Seq<char>>
    decreases lines.len(),
{
    if lines.len() == 0 {
        seq![]
    } else {
        let rest = content_spec(lines.drop_last());
        let line = trim_end_spec(lines.last());
        if trim_spec(line).len() == 0 {
            rest
        } else {
            rest.push(line)
        }
    }
}

/// A block's content: its lines with trailing whitespace trimmed, the blank ones left out.
pub fn content_lines(lines: &Vec<String>) -> (v: Vec<String>)
    ensures
        strs(v@) == content_spec(strs(lines@)),
{
    let ghost all = strs(lines@);
    let mut v: Vec<String> = Vec::new();
    let mut k: usize = 0;
    while k < lines.len()
        invariant
            k <= lines@.len(),
            all == strs(lines@),
            strs(v@) == content_spec(all.take(k as int)),
        decreases lines.len() - k,
    {
        assert(all.take(k + 1).drop_last() =~= all.take(k as int));
        assert(all.take(k + 1).last() == lines@[k as int]@);
        let line = trim_end(&chars(&lines[k]));
        if trim(&line).len() > 0 {
            let ghost before = strs(v@);
            v.push(string_of(&line));
            assert(strs(v@) =~= before.push(line@));
        }
        k = k + 1;
    }
    assert(all.take(all.len() as int) =~= all);
    v
}

/// Every marker and every block of one values file, given its index, or every problem joined.
pub open spec fn scan_spec(
    text: Seq<char>,
    chart: Seq<char>,
    keys: Seq<(nat, Seq<char>)>,
    scalars: Seq<(nat, nat)>,
) -> Result<(Seq<MarkerView>, Seq<BlockView>), Seq<char>> {
    let ls = lines_spec(text);
    let s = strand_spec(scan_lines(chart, keys, scalars, ls, ls.len() as int), chart, END_OF_FILE@);
    if s.problems.len() == 0 {
        Ok((s.markers, s.blocks.map_values(|b: BlockView| as_written(b, ls))))
    } else {
        Err(join_spec(s.problems, seq!['\n']))
    }
}

/// Every marker and every `@schema` block in one values file, bound to their values.
pub open spec fn read_spec(text: Seq<char>, chart: Seq<char>) -> Result<
    (Seq<MarkerView>, Seq<BlockView>),
    Seq<char>,
> {
    match yaml_events(text) {
        Err(failure) => Err(NOT_YAML@ + failure),
        Ok(events) => {
            let (keys, scalars) = index_spec(events);
            scan_spec(text, chart, keys, scalars)
        },
    }
}

} // verus!

verus! {

/// The line scan, and the state machine that binds a block to the value below it.
pub struct Scan {
    chart: Vec<char>,
    problems: Vec<Vec<char>>,
    markers: Vec<Marker>,
    blocks: Vec<Block>,
    in_schema: bool,
    in_marker_run: bool,
    pending: Vec<(usize, Parsed)>,
    pending_block: Option<(usize, usize, usize, Vec<String>)>,
    open_block: Option<(usize, usize, Vec<String>)>,
}

pub open spec fn pending_view(v: Seq<(usize, Parsed)>) -> Seq<(nat, ParsedView)> {
    v.map_values(|p: (usize, Parsed)| (p.0 as nat, p.1@))
}

pub open spec fn markers_view(v: Seq<Marker>) -> Seq<MarkerView> {
    v.map_values(|m: Marker| m@)
}

pub open spec fn blocks_view(v: Seq<Block>) -> Seq<BlockView> {
    v.map_values(|b: Block| b@)
}

impl View for Scan {
    type V = ScanView;

    closed spec fn view(&self) -> ScanView {
        ScanView {
            problems: views(self.problems@),
            markers: markers_view(self.markers@),
            blocks: blocks_view(self.blocks@),
            in_schema: self.in_schema,
            in_marker_run: self.in_marker_run,
            pending: pending_view(self.pending@),
            pending_block: match self.pending_block {
                Some((a, b, c, l)) => Some((a as nat, b as nat, c as nat, strs(l@))),
                None => None,
            },
            open_block: match self.open_block {
                Some((a, b, l)) => Some((a as nat, b as nat, strs(l@))),
                None => None,
            },
        }
    }
}

fn same_scope(a: &Option<Vec<String>>, b: &Option<Vec<String>>) -> (r: bool)
    ensures
        r == (opt_strs(*a) == opt_strs(*b)),
{
    match (a, b) {
        (Some(x), Some(y)) => {
            if x.len() != y.len() {
                assert(strs(x@).len() != strs(y@).len());
                return false;
            }
            let mut i: usize = 0;
            while i < x.len()
                invariant
                    x@.len() == y@.len(),
                    i <= x@.len(),
                    opt_strs(*a) == Some(strs(x@)),
                    opt_strs(*b) == Some(strs(y@)),
                    forall|k: int| 0 <= k < i ==> strs(x@)[k] == strs(y@)[k],
                decreases x.len() - i,
            {
                if !(x[i] == y[i]) {
                    assert(strs(x@)[i as int] == x@[i as int]@);
                    assert(strs(y@)[i as int] == y@[i as int]@);
                    assert(strs(x@)[i as int] != strs(y@)[i as int]);
                    assert(strs(x@) != strs(y@));
                    return false;
                }
                i = i + 1;
            }
            assert(strs(x@) =~= strs(y@));
            true
        },
        (None, None) => true,
        _ => false,
    }
}

impl Scan {
    pub closed spec fn chart_of(&self) -> Seq<char> {
        self.chart@
    }

    fn new(chart: &[char]) -> (s: Scan)
        ensures
            s@ == scan_start(),
            s.chart_of() == chart@,
    {
        let s = Scan {
            chart: slice_of(chart, 0, chart.len()),
            problems: Vec::new(),
            markers: Vec::new(),
            blocks: Vec::new(),
            in_schema: false,
            in_marker_run: false,
            pending: Vec::new(),
            pending_block: None,
            open_block: None,
        };
        assert(chart@.subrange(0, chart@.len() as int) == chart@);
        assert(s@ =~= scan_start());
        s
    }

    fn refuse(&mut self, line: usize, what: &[char])
        ensures
            final(self)@ == refuse_spec(old(self)@, old(self).chart_of(), line as nat, what@),
            final(self).chart_of() == old(self).chart_of(),
    {
        let mut message = at_of(&self.chart, line);
        push_str(&mut message, ": ");
        push_all(&mut message, what);
        let ghost before = views(self.problems@);
        self.problems.push(message);
        assert(views(self.problems@) == before.push(message@));
        assert(self@ =~= refuse_spec(old(self)@, old(self).chart_of(), line as nat, what@));
    }

    fn strand(&mut self, what: &str)
        ensures
            final(self)@ == strand_spec(old(self)@, old(self).chart_of(), what@),
            final(self).chart_of() == old(self).chart_of(),
    {
        let ghost chart = self.chart@;
        let ghost start = old(self)@;
        let mut message = chars_of(STRANDED_A);
        push_str(&mut message, what);
        push_str(&mut message, STRANDED_B);
        let mut i: usize = 0;
        while i < self.pending.len()
            invariant
                i <= self.pending@.len(),
                self.chart@ == chart,
                self.pending@ == old(self).pending@,
                message@ == STRANDED_A@ + what@ + STRANDED_B@,
                views(self.problems@) == start.problems + pending_view(self.pending@).take(
                    i as int,
                ).map_values(|p: (nat, ParsedView)| refusal(chart, p.0, message@)),
                self.markers@ == old(self).markers@,
                self.blocks@ == old(self).blocks@,
                self.in_schema == old(self).in_schema,
                self.in_marker_run == old(self).in_marker_run,
                self.pending_block == old(self).pending_block,
                self.open_block == old(self).open_block,
            decreases self.pending.len() - i,
        {
            let line = self.pending[i].0;
            let mut refused = at_of(&self.chart, line);
            push_str(&mut refused, ": ");
            push_all(&mut refused, &message);
            let ghost before = views(self.problems@);
            self.problems.push(refused);
            assert(views(self.problems@) == before.push(refused@));
            assert(pending_view(self.pending@).take(i + 1) == pending_view(self.pending@).take(
                i as int,
            ).push(pending_view(self.pending@)[i as int]));
            i = i + 1;
            assert(views(self.problems@) =~= start.problems + pending_view(self.pending@).take(
                i as int,
            ).map_values(|p: (nat, ParsedView)| refusal(chart, p.0, message@)));
        }
        assert(pending_view(self.pending@).take(i as int) == pending_view(self.pending@));
        self.pending = Vec::new();
        self.pending_block = None;
        assert(self@ =~= strand_spec(start, chart, what@));
    }

    fn delimiter(&mut self, number: usize, indent: usize)
        ensures
            final(self)@ == delimiter_spec(old(self)@, old(self).chart_of(), number as nat, indent as nat),
            final(self).chart_of() == old(self).chart_of(),
    {
        if self.in_schema {
            self.in_schema = false;
            self.in_marker_run = false;
            match self.open_block.take() {
                Some((start, block_indent, collected)) => {
                    self.pending_block = Some((start, number, block_indent, collected));
                },
                None => {},
            }
            assert(self@ =~= delimiter_spec(old(self)@, old(self).chart_of(), number as nat, indent as nat));
        } else {
            self.strand(SECOND_BLOCK);
            self.in_schema = true;
            self.in_marker_run = true;
            let fresh: Vec<String> = Vec::new();
            assert(strs(fresh@) =~= Seq::<Seq<char>>::empty());
            self.open_block = Some((number, indent, fresh));
            assert(self@ =~= delimiter_spec(old(self)@, old(self).chart_of(), number as nat, indent as nat));
        }
    }

    fn duplicate_of(&self, parsed: &Parsed) -> (r: Option<usize>)
        ensures
            match r {
                Some(first) => first_duplicate(self@.pending, parsed@) == Some(first as nat),
                None => first_duplicate(self@.pending, parsed@) is None,
            },
    {
        let mut i: usize = 0;
        assert(self@.pending.skip(0) =~= self@.pending);
        while i < self.pending.len()
            invariant
                i <= self.pending@.len(),
                first_duplicate(self@.pending, parsed@) == first_duplicate(
                    self@.pending.skip(i as int),
                    parsed@,
                ),
            decreases self.pending.len() - i,
        {
            let ghost rest = self@.pending.skip(i as int);
            assert(rest[0] == self@.pending[i as int]);
            assert(rest.drop_first() == self@.pending.skip(i + 1));
            let other = &self.pending[i].1;
            if same_scope(&other.documents, &parsed.documents) && other.target == parsed.target {
                return Some(self.pending[i].0);
            }
            i = i + 1;
        }
        None
    }

    fn inside_block(&mut self, number: usize, line: &[char], comment: &Option<Vec<char>>)
        ensures
            final(self)@ == inside_block_spec(
                old(self)@,
                old(self).chart_of(),
                number as nat,
                line@,
                opt_chars(*comment),
            ),
            final(self).chart_of() == old(self).chart_of(),
    {
        match self.open_block.take() {
            Some((start, indent, collected)) => {
                let mut collected = collected;
                let ghost before = strs(collected@);
                collected.push(string_of(line));
                assert(strs(collected@) == before.push(line@));
                self.open_block = Some((start, indent, collected));
            },
            None => {},
        }
        let ghost s1 = self@;
        let nested = schema_comment(comment);
        if is_marker(&nested) {
            if !self.in_marker_run {
                self.refuse(number, &chars_of(BELOW));
                return;
            }
            let n = match &nested {
                Some(n) => n,
                None => {
                    return;
                },
            };
            let marker = chars_of(MARKER);
            proof {
                reveal_strlit("@config");
                reveal_strlit("@config ");
                assert(marker@.len() == 7);
                assert(n@.len() >= 7);
            }
            let after = slice_of(n, marker.len(), n.len());
            assert(after@ == n@.skip(MARKER@.len() as int));
            let body = trim(&after);
            match parse_marker(&body) {
                Err(failure) => {
                    self.refuse(number, &failure);
                },
                Ok(parsed) => {
                    match self.duplicate_of(&parsed) {
                        Some(first) => {
                            let mut message = chars_of(ALREADY_A);
                            let target = chars(&parsed.target);
                            push_all(&mut message, &target);
                            push_str(&mut message, ALREADY_B);
                            let d = decimal_of(first as u64);
                            push_all(&mut message, &d);
                            push_str(&mut message, ALREADY_C);
                            self.refuse(number, &message);
                        },
                        None => {
                            let ghost before = pending_view(self.pending@);
                            self.pending.push((number, parsed));
                            assert(pending_view(self.pending@) == before.push((number as nat, parsed@)));
                            assert(self@ =~= ScanView { pending: s1.pending.push((number as nat, parsed@)), ..s1 });
                        },
                    }
                },
            }
            return;
        }
        if is_marker(comment) {
            self.refuse(number, &chars_of(CONTENT));
        }
        self.in_marker_run = false;
        assert(self@ =~= inside_block_spec(old(self)@, old(self).chart_of(), number as nat, line@, opt_chars(*comment)));
    }
}

} // verus!

verus! {

impl Scan {
    fn value(&mut self, index: &Index, number: usize, code: &[char], comment: &Option<Vec<char>>)
        ensures
            final(self)@ == value_spec(
                old(self)@,
                old(self).chart_of(),
                keys_view(index.keys@),
                number as nat,
                code@,
                opt_chars(*comment),
            ),
            final(self).chart_of() == old(self).chart_of(),
    {
        let ghost chart = self.chart@;
        match index.key_at(number) {
            None => {
                let what = if is_sequence_item(code) {
                    SEQUENCE_ITEM
                } else {
                    UNREADABLE
                };
                self.strand(what);
                if is_marker(comment) {
                    let mut message = chars_of(SITS_ON_A);
                    push_str(&mut message, what);
                    push_str(&mut message, SITS_ON_B);
                    self.refuse(number, &message);
                }
            },
            Some(values_path) => {
                if is_marker(comment) {
                    self.refuse(number, &chars_of(TRAILING));
                }
                let ghost s1 = self@;
                let path = string_of(&values_path);
                let chart_name = string_of(&self.chart);
                match self.pending_block.take() {
                    Some((start, end, indent, lines)) => {
                        let ghost before = blocks_view(self.blocks@);
                        let block = Block {
                            chart: chart_name.clone(),
                            values_path: path.clone(),
                            start,
                            end,
                            indent,
                            lines,
                        };
                        self.blocks.push(block);
                        assert(blocks_view(self.blocks@) == before.push(block@));
                    },
                    None => {},
                }
                let mut taken: Vec<(usize, Parsed)> = Vec::new();
                std::mem::swap(&mut taken, &mut self.pending);
                let ghost base = markers_view(self.markers@);
                let ghost all = pending_view(taken@);
                let ghost s2 = self@;
                let mut i: usize = 0;
                let n = taken.len();
                let mut rest = taken;
                while i < n
                    invariant
                        n == all.len(),
                        i <= n,
                        rest@.len() == n - i,
                        forall|k: int|
                            0 <= k < rest@.len() ==> (#[trigger] rest@[k]).0 as nat == all[i + k].0
                                && rest@[k].1@ == all[i + k].1,
                        self.chart@ == chart,
                        chart_name@ == chart,
                        path@ == values_path@,
                        markers_view(self.markers@) == base + all.take(i as int).map_values(
                            |p: (nat, ParsedView)| bound(chart, values_path@, p),
                        ),
                        self@ == (ScanView { markers: markers_view(self.markers@), ..s2 }),
                    decreases n - i,
                {
                    assert(rest@[0].0 as nat == all[i + 0].0);
                    let (line, parsed) = rest.remove(0);
                    let marker = Marker {
                        chart: chart_name.clone(),
                        values_path: path.clone(),
                        line,
                        class: parsed.class,
                        documents: parsed.documents,
                        target: parsed.target,
                        optional: parsed.optional,
                        condition: parsed.condition,
                    };
                    let ghost before = markers_view(self.markers@);
                    self.markers.push(marker);
                    assert(markers_view(self.markers@) == before.push(marker@));
                    assert(marker@ == bound(chart, values_path@, all[i as int]));
                    assert(all.take(i + 1) == all.take(i as int).push(all[i as int]));
                    i = i + 1;
                    assert(markers_view(self.markers@) =~= base + all.take(i as int).map_values(
                        |p: (nat, ParsedView)| bound(chart, values_path@, p),
                    ));
                }
                assert(all.take(n as int) == all);
                assert(s1.pending == all);
                assert(self@ =~= value_spec(
                    old(self)@,
                    chart,
                    keys_view(index.keys@),
                    number as nat,
                    code@,
                    opt_chars(*comment),
                ));
            },
        }
    }
}

} // verus!

verus! {

impl Scan {
    fn step(&mut self, index: &Index, number: usize, raw: &[char])
        ensures
            final(self)@ == scan_line(
                old(self)@,
                old(self).chart_of(),
                keys_view(index.keys@),
                spans_view(index.inside_a_scalar@),
                number as nat,
                raw@,
            ),
            final(self).chart_of() == old(self).chart_of(),
    {
        if index.buried(number) {
            return;
        }
        let line = trim_end(raw);
        let t = trim(&line);
        if t.len() == 0 {
            if !self.in_schema {
                self.strand(BLANK_LINE);
            }
            return;
        }
        let indent = indent_of(&line);
        let (code, comment) = split_comment(&line);
        if is_delimiter(&line) {
            self.delimiter(number, indent);
            return;
        }
        if self.in_schema {
            self.inside_block(number, &line, &comment);
            return;
        }
        let code_trimmed = trim(&code);
        if code_trimmed.len() == 0 {
            if is_marker(&comment) {
                self.refuse(number, &chars_of(OWN_LINE));
            }
            return;
        }
        self.value(index, number, &code, &comment);
    }

    fn finish(self) -> (r: Result<(Vec<Marker>, Vec<Block>), Vec<char>>)
        ensures
            match r {
                Ok((m, b)) => self@.problems.len() == 0 && markers_view(m@) == self@.markers
                    && blocks_view(b@) == self@.blocks,
                Err(e) => self@.problems.len() > 0 && e@ == join_spec(self@.problems, seq!['\n']),
            },
    {
        if self.problems.len() == 0 {
            Ok((self.markers, self.blocks))
        } else {
            let sep = chars_of("\n");
            proof {
                assert(sep@ =~= seq!['\n']) by {
                    reveal_strlit("\n");
                }
            }
            Err(join(&self.problems, &sep))
        }
    }
}

/// Every marker and block of one values file, given the index its structure pass built.
pub fn scan(text: &[char], chart: &[char], index: &Index) -> (r: Result<(Vec<Marker>, Vec<Block>), Vec<char>>)
    ensures
        match r {
            Ok((m, b)) => scan_spec(text@, chart@, keys_view(index.keys@), spans_view(index.inside_a_scalar@))
                == Ok::<(Seq<MarkerView>, Seq<BlockView>), Seq<char>>((markers_view(m@), blocks_view(b@))),
            Err(e) => scan_spec(text@, chart@, keys_view(index.keys@), spans_view(index.inside_a_scalar@))
                == Err::<(Seq<MarkerView>, Seq<BlockView>), Seq<char>>(e@),
        },
{
    let ghost keys = keys_view(index.keys@);
    let ghost scalars = spans_view(index.inside_a_scalar@);
    let all = lines(text);
    let ghost ls = lines_spec(text@);
    let mut scan = Scan::new(chart);
    let mut k: usize = 0;
    while k < all.len()
        invariant
            k <= all@.len(),
            views(all@) == ls,
            keys == keys_view(index.keys@),
            scalars == spans_view(index.inside_a_scalar@),
            scan.chart_of() == chart@,
            scan@ == scan_lines(chart@, keys, scalars, ls, k as int),
        decreases all.len() - k,
    {
        assert(ls[k as int] == all@[k as int]@);
        scan.step(index, k + 1, &all[k]);
        k = k + 1;
    }
    scan.strand(END_OF_FILE);
    match scan.finish() {
        Ok((m, b)) => Ok((m, written_blocks(b, &all))),
        Err(e) => Err(e),
    }
}

/// Blocks holding the lines between their delimiters exactly as the file writes them.
fn written_blocks(blocks: Vec<Block>, all: &Vec<Vec<char>>) -> (r: Vec<Block>)
    ensures
        blocks_view(r@) == blocks_view(blocks@).map_values(|b: BlockView| as_written(b, views(all@))),
{
    let ghost ls = views(all@);
    let mut r: Vec<Block> = Vec::new();
    let mut k: usize = 0;
    let ghost original = blocks_view(blocks@);
    while k < blocks.len()
        invariant
            k <= blocks@.len(),
            original == blocks_view(blocks@),
            ls == views(all@),
            blocks_view(r@) == original.take(k as int).map_values(|b: BlockView| as_written(b, ls)),
        decreases blocks.len() - k,
    {
        let b = &blocks[k];
        let mut lines: Vec<String> = Vec::new();
        if b.start < b.end && b.end - 1 <= all.len() {
            let mut i: usize = b.start;
            while i < b.end - 1
                invariant
                    b.start <= i <= b.end - 1,
                    b.end - 1 <= all@.len(),
                    ls == views(all@),
                    strs(lines@) == ls.subrange(b.start as int, i as int),
                decreases b.end - 1 - i,
            {
                let ghost before = strs(lines@);
                lines.push(string_of(&all[i]));
                assert(strs(lines@) =~= before.push(ls[i as int]));
                assert(ls.subrange(b.start as int, i + 1) =~= ls.subrange(b.start as int, i as int).push(ls[i as int]));
                i = i + 1;
            }
        } else {
            assert(strs(lines@) =~= Seq::<Seq<char>>::empty());
        }
        let one = Block {
            chart: b.chart.clone(),
            values_path: b.values_path.clone(),
            start: b.start,
            end: b.end,
            indent: b.indent,
            lines,
        };
        let ghost before = blocks_view(r@);
        r.push(one);
        assert(blocks_view(r@) =~= before.push(as_written(original[k as int], ls)));
        assert(original.take(k + 1).map_values(|b: BlockView| as_written(b, ls)) =~= original.take(k as int).map_values(|b: BlockView| as_written(b, ls)).push(as_written(original[k as int], ls)));
        k = k + 1;
    }
    assert(original.take(original.len() as int) =~= original);
    r
}

/// Every marker and every `@schema` block in one values file, bound to their values.
///
/// Every problem is collected before any is raised: the error lists every marker that cannot be
/// read as one, or that binds nothing, one per line.
pub fn read(text: &str, chart: &str) -> (r: Result<(Vec<Marker>, Vec<Block>), crate::Error>)
    ensures
        match r {
            Ok((m, b)) => read_spec(text@, chart@) == Ok::<(Seq<MarkerView>, Seq<BlockView>), Seq<char>>(
                (markers_view(m@), blocks_view(b@)),
            ),
            Err(e) => e is Invalid && read_spec(text@, chart@) == Err::<
                (Seq<MarkerView>, Seq<BlockView>),
                Seq<char>,
            >(e.said()),
        },
{
    match parse_events(text) {
        Err(failure) => {
            let mut message = chars_of(NOT_YAML);
            let f = chars(&failure);
            push_all(&mut message, &f);
            Err(crate::Error::Invalid(string_of(&message)))
        },
        Ok(events) => read_events(text, chart, &events),
    }
}

/// Every marker and every `@schema` block in one values file, given the YAML events of its
/// structure — the part of [`read`] that follows the parse.
pub fn read_events(text: &str, chart: &str, events: &Vec<YamlEvent>) -> (r: Result<(Vec<Marker>, Vec<Block>), crate::Error>)
    ensures
        match r {
            Ok((m, b)) => {
                let (keys, scalars) = index_spec(events_view(events@));
                scan_spec(text@, chart@, keys, scalars) == Ok::<(Seq<MarkerView>, Seq<BlockView>), Seq<char>>(
                    (markers_view(m@), blocks_view(b@)),
                )
            },
            Err(e) => {
                let (keys, scalars) = index_spec(events_view(events@));
                e is Invalid && scan_spec(text@, chart@, keys, scalars) == Err::<
                    (Seq<MarkerView>, Seq<BlockView>),
                    Seq<char>,
                >(e.said())
            },
        },
{
    let index = index_of(events);
    let t = chars_of(text);
    let c = chars_of(chart);
    match scan(&t, &c, &index) {
        Ok(found) => Ok(found),
        Err(message) => Err(crate::Error::Invalid(string_of(&message))),
    }
}

} // verus!
