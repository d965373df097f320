//! Deriving a chart value's `@schema` block from the element schema its image publishes.
//!
//! Every value carrying a `projection`, `structured` or `external` binding has its block written
//! from the contract. Three markers remain, each naming where the chart departs from what was
//! derived:
//!
//! ```text
//! # @config-shape <values-path> handwritten <release> <source>
//! # @config-shape-except <values-path> <sub-path> <reason>
//! # @config-shape-narrow <values-path> <sub-path> <reason>
//! ```
//!
//! Written as plain comments above the block, as whole comment lines, so that a marker mentioned
//! in prose is not mistaken for a declaration.

use vstd::prelude::*;

use crate::bindings::{document_named, document_names, BoundDocument, Bound};
use crate::json::Json;
use crate::markers::{
    at_of, at_spec, opens_with_a_marker_spec, opens_with_chars, Block, BlockView, Class, Marker,
    MarkerView,
};
use crate::text::{
    chars, chars_of, contains_str, decimal, is_lit, is_alnum, is_alpha, is_ascii_alphabetic,
    is_ascii_alphanumeric, is_whitespace, is_ws, join, join_spec, less_than, lex_lt, lines,
    lines_spec, parse_u64, parse_u64_spec, push_all, push_str, same, slice_of, split3_whitespace,
    split3_ws, split_char, split_spec, split_whitespace, starts_with, starts_with_spec,
    string_of, strs, trim, trim_spec, trim_start, trim_start_spec, views, words,
};

verus! {

/// The mode a marker still declares.
pub const HANDWRITTEN: &'static str = "handwritten";
/// The word the retired enrolment marker used, kept so that it can be refused by name.
pub const GENERATED: &'static str = "generated";
/// The marker that declares a hand transcription.
pub const SHAPE_MARKER: &'static str = "@config-shape";
/// The marker that overrides one position the contract also describes.
pub const EXCEPT_MARKER: &'static str = "@config-shape-except";
/// The marker that keeps one position the contract describes not at all.
pub const NARROW_MARKER: &'static str = "@config-shape-narrow";

/// Whether a binding class has a constraint of its own to derive a block from: every class but
/// `composed`, whose value is an input to the key's text rather than the key's value.
pub open spec fn derives_spec(class: Class) -> bool {
    !(class is Composed)
}

/// Whether a binding class has a constraint of its own to derive a block from.
pub fn derives(class: Class) -> (b: bool)
    ensures
        b == derives_spec(class),
{
    matches!(class, Class::Projection | Class::Structured | Class::External)
}

/// One value whose block is owned here, generated or transcribed.
#[derive(Debug, Clone, PartialEq, Eq)]
pub struct Shape {
    /// The chart.
    pub chart: String,
    /// The line a reader has to go to: a declared shape's marker, or a generated one's opening
    /// delimiter.
    pub line: usize,
    /// The value.
    pub values_path: String,
    /// Whether the chart owns the block rather than deriving it.
    pub handwritten: bool,
    /// The release the struct was read at, for a transcription.
    pub version: Option<String>,
    /// The file it was read from.
    pub source: Option<String>,
    /// Whether a marker declared this.
    pub declared: bool,
}

/// A shape, as values.
#[verifier::ext_equal]
pub struct ShapeView {
    pub chart: Seq<char>,
    pub line: nat,
    pub values_path: Seq<char>,
    pub handwritten: bool,
    pub version: Option<Seq<char>>,
    pub source: Option<Seq<char>>,
    pub declared: bool,
}

pub open spec fn opt_view(o: Option<String>) -> Option<Seq<char>> {
    match o {
        Some(s) => Some(s@),
        None => None,
    }
}

impl View for Shape {
    type V = ShapeView;

    open spec fn view(&self) -> ShapeView {
        ShapeView {
            chart: self.chart@,
            line: self.line as nat,
            values_path: self.values_path@,
            handwritten: self.handwritten,
            version: opt_view(self.version),
            source: opt_view(self.source),
            declared: self.declared,
        }
    }
}

pub open spec fn shapes_view(v: Seq<Shape>) -> Seq<ShapeView> {
    v.map_values(|s: Shape| s@)
}

impl Shape {
    /// `chart/values.yaml:LINE`, for a message a reader can jump to.
    pub fn at(&self) -> (s: String)
        ensures
            s@ == at_spec(self.chart@, self.line as nat),
    {
        string_of(&at_of(&chars(&self.chart), self.line))
    }
}

/// Which of the two things a declared departure is.
#[derive(Debug, Clone, Copy, PartialEq, Eq)]
pub enum Departure {
    /// Replaces a position the contract also describes.
    Override,
    /// Keeps a position the contract does not describe at all.
    Narrowing,
}

impl Departure {
    /// The marker a departure of this kind is written as.
    pub open spec fn marker_spec(self) -> Seq<char> {
        match self {
            Departure::Override => EXCEPT_MARKER@,
            Departure::Narrowing => NARROW_MARKER@,
        }
    }

    /// The marker this was written as.
    pub fn marker(self) -> (s: &'static str)
        ensures
            s@ == self.marker_spec(),
    {
        match self {
            Departure::Override => EXCEPT_MARKER,
            Departure::Narrowing => NARROW_MARKER,
        }
    }
}

/// One declared departure from the generated shape: a position the chart keeps as its own.
#[derive(Debug, Clone, PartialEq, Eq)]
pub struct Divergence {
    /// The chart.
    pub chart: String,
    /// The marker's own line.
    pub line: usize,
    /// The value whose block it departs from.
    pub values_path: String,
    /// A dotted walk of schema keywords.
    pub sub_path: String,
    /// Why. Mandatory.
    pub reason: String,
    /// Which kind.
    pub kind: Departure,
}

/// A divergence, as values.
#[verifier::ext_equal]
pub struct DivergenceView {
    pub chart: Seq<char>,
    pub line: nat,
    pub values_path: Seq<char>,
    pub sub_path: Seq<char>,
    pub reason: Seq<char>,
    pub kind: Departure,
}

impl View for Divergence {
    type V = DivergenceView;

    open spec fn view(&self) -> DivergenceView {
        DivergenceView {
            chart: self.chart@,
            line: self.line as nat,
            values_path: self.values_path@,
            sub_path: self.sub_path@,
            reason: self.reason@,
            kind: self.kind,
        }
    }
}

pub open spec fn divergences_view(v: Seq<Divergence>) -> Seq<DivergenceView> {
    v.map_values(|d: Divergence| d@)
}

impl Divergence {
    /// `chart/values.yaml:LINE`, for a message a reader can jump to.
    pub fn at(&self) -> (s: String)
        ensures
            s@ == at_spec(self.chart@, self.line as nat),
    {
        string_of(&at_of(&chars(&self.chart), self.line))
    }
}

/// One image publishing a key, and the release its vendored contract was published at.
#[derive(Debug, Clone, PartialEq, Eq)]
pub struct Publisher {
    /// The document that carries the key.
    pub document: String,
    /// The release its image was built at.
    pub version: String,
}

// ------------------------------------------------------------------------------------------
// Releases
// ------------------------------------------------------------------------------------------

/// The leading numeric segments of a list of segments, stopping at the first that is not one.
pub open spec fn numeric_prefix(segments: Seq<Seq<char>>) -> Seq<u64>
    decreases segments.len(),
{
    if segments.len() == 0 {
        seq![]
    } else {
        match parse_u64_spec(segments[0]) {
            Some(n) => seq![n] + numeric_prefix(segments.drop_first()),
            None => seq![],
        }
    }
}

/// A release as a comparable tuple: its leading numeric segments once trimmed and unprefixed,
/// so `8.9.1` sorts under `8.10.0`, and a tag nobody writes degrades to nothing.
pub open spec fn ordinal_spec(version: Seq<char>) -> Seq<u64> {
    numeric_prefix(split_spec(crate::release_spec(version), '.'))
}

/// A release as a comparable tuple.
pub fn ordinal(version: &str) -> (parts: Vec<u64>)
    ensures
        parts@ == ordinal_spec(version@),
{
    let released = crate::release(version);
    let text = chars(&released);
    let segments = split_char(&text, '.');
    let ghost segs = views(segments@);
    let mut parts: Vec<u64> = Vec::new();
    let mut i: usize = 0;
    assert(segs.skip(0) == segs);
    while i < segments.len()
        invariant
            i <= segments@.len(),
            segs == views(segments@),
            numeric_prefix(segs) == ordinal_spec(version@),
            numeric_prefix(segs) == parts@ + numeric_prefix(segs.skip(i as int)),
        decreases segments.len() - i,
    {
        assert(segs.skip(i as int)[0] == segs[i as int]);
        assert(segs[i as int] == segments@[i as int]@);
        assert(segs.skip(i as int).drop_first() == segs.skip(i + 1));
        match parse_u64(&segments[i]) {
            Some(n) => {
                let ghost before = parts@;
                parts.push(n);
                assert(before + (seq![n] + numeric_prefix(segs.skip(i + 1))) =~= parts@
                    + numeric_prefix(segs.skip(i + 1)));
            },
            None => {
                assert(parts@ + Seq::<u64>::empty() =~= parts@);
                return parts;
            },
        }
        i = i + 1;
    }
    assert(segs.skip(i as int).len() == 0);
    assert(parts@ + Seq::<u64>::empty() =~= parts@);
    parts
}

/// Whether a block read at one release still describes an image published at another: the same
/// release, or, where both parse as releases, a later one.
pub open spec fn covers_spec(read_at: Seq<char>, published: Seq<char>) -> bool {
    crate::release_spec(read_at) == crate::release_spec(published) || ({
        let (mine, theirs) = (ordinal_spec(read_at), ordinal_spec(published));
        mine.len() > 0 && theirs.len() > 0 && !lex_lt(mine, theirs)
    })
}

/// A block read at a release still describes an image published at that release.
pub proof fn a_release_covers_itself(release: Seq<char>)
    ensures
        covers_spec(release, release),
{
}

/// Whether a block read at one release still describes an image published at another.
pub fn covers(read_at: &str, published: &str) -> (b: bool)
    ensures
        b == covers_spec(read_at@, published@),
{
    let a = crate::release(read_at);
    let b = crate::release(published);
    if a == b {
        return true;
    }
    let mine = ordinal(read_at);
    let theirs = ordinal(published);
    mine.len() > 0 && theirs.len() > 0 && !less_than(&mine, &theirs)
}

} // verus!

// ------------------------------------------------------------------------------------------
// Reading the markers
// ------------------------------------------------------------------------------------------

verus! {

/// The body of one whole-line comment marker, if the line is one: the line opens with `#` and
/// the marker, then whitespace, then a non-empty body, trimmed.
pub open spec fn marker_body_spec(line: Seq<char>, marker: Seq<char>) -> Option<Seq<char>> {
    let t = trim_start_spec(line);
    if !(t.len() > 0 && t[0] == '#') {
        None
    } else {
        let r = trim_start_spec(t.drop_first());
        if !starts_with_spec(r, marker) {
            None
        } else {
            let r2 = r.skip(marker.len() as int);
            if !(r2.len() > 0 && is_ws(r2[0])) {
                None
            } else {
                let body = trim_spec(r2.drop_first());
                if body.len() == 0 {
                    None
                } else {
                    Some(body)
                }
            }
        }
    }
}

fn marker_body(line: &[char], marker: &str) -> (r: Option<Vec<char>>)
    ensures
        match r {
            Some(b) => marker_body_spec(line@, marker@) == Some(b@),
            None => marker_body_spec(line@, marker@) is None,
        },
{
    let t = trim_start(line);
    if !(t.len() > 0 && t[0] == '#') {
        return None;
    }
    let after = slice_of(&t, 1, t.len());
    assert(after@ == t@.drop_first());
    let r = trim_start(&after);
    let m = chars_of(marker);
    if !starts_with(&r, &m) {
        return None;
    }
    let r2 = slice_of(&r, m.len(), r.len());
    assert(r2@ == r@.skip(marker@.len() as int));
    if !(r2.len() > 0 && is_whitespace(r2[0])) {
        return None;
    }
    let rest = slice_of(&r2, 1, r2.len());
    assert(rest@ == r2@.drop_first());
    let body = trim(&rest);
    if body.len() == 0 {
        None
    } else {
        Some(body)
    }
}

/// What the marker pass has found so far.
#[verifier::ext_equal]
pub struct ShapeScan {
    pub shapes: Seq<ShapeView>,
    pub divergences: Seq<DivergenceView>,
    pub problems: Seq<Seq<char>>,
}

pub const OBSOLETE_A: &'static str = ": `@config-shape ";
pub const OBSOLETE_B: &'static str = " generated` is obsolete — every value carrying a `@config` marker has its `@schema` block generated from the contract now, without enrolling. Delete this line; declare any position the chart keeps with `@config-shape-except` or `@config-shape-narrow`";
pub const SHAPE_FORM: &'static str = ": `@config-shape` takes a values path and then `handwritten <release> <source>`, which is the one thing a marker still declares";
pub const RELEASE_A: &'static str = ": `@config-shape ";
pub const RELEASE_B: &'static str = " handwritten` takes the release the struct was read at and the file it was read from";
pub const DEPARTURE_A: &'static str = ": `";
pub const DEPARTURE_B: &'static str = "` takes a values path, a sub-path inside the schema and the reason the chart keeps its own — a departure from the contract without a reason is one nobody can review";

/// One departure marker's three words.
pub open spec fn read_divergence_spec(
    st: ShapeScan,
    chart: Seq<char>,
    line: nat,
    rest: Seq<char>,
    kind: Departure,
) -> ShapeScan {
    let pieces = split3_ws(rest);
    let refused = ShapeScan {
        problems: st.problems.push(at_spec(chart, line) + DEPARTURE_A@ + kind.marker_spec() + DEPARTURE_B@),
        ..st
    };
    if pieces.len() < 3 {
        refused
    } else {
        let reason = trim_spec(pieces[2]);
        if pieces[1].len() == 0 || reason.len() == 0 {
            refused
        } else {
            ShapeScan {
                divergences: st.divergences.push(
                    DivergenceView {
                        chart,
                        line,
                        values_path: pieces[0],
                        sub_path: pieces[1],
                        reason,
                        kind,
                    },
                ),
                ..st
            }
        }
    }
}

/// One line of a values file, as the shape markers read it.
pub open spec fn shape_line(st: ShapeScan, chart: Seq<char>, number: nat, line: Seq<char>) -> ShapeScan {
    let at = at_spec(chart, number);
    match marker_body_spec(line, EXCEPT_MARKER@) {
        Some(rest) => read_divergence_spec(st, chart, number, rest, Departure::Override),
        None => match marker_body_spec(line, NARROW_MARKER@) {
            Some(rest) => read_divergence_spec(st, chart, number, rest, Departure::Narrowing),
            None => match marker_body_spec(line, SHAPE_MARKER@) {
                None => st,
                Some(rest) => {
                    let w = words(rest);
                    if w.len() >= 2 && w[1] == GENERATED@ {
                        ShapeScan {
                            problems: st.problems.push(at + OBSOLETE_A@ + w[0] + OBSOLETE_B@),
                            ..st
                        }
                    } else if w.len() < 2 || w[1] != HANDWRITTEN@ {
                        ShapeScan { problems: st.problems.push(at + SHAPE_FORM@), ..st }
                    } else if w.len() != 4 {
                        ShapeScan {
                            problems: st.problems.push(at + RELEASE_A@ + w[0] + RELEASE_B@),
                            ..st
                        }
                    } else {
                        ShapeScan {
                            shapes: st.shapes.push(
                                ShapeView {
                                    chart,
                                    line: number,
                                    values_path: w[0],
                                    handwritten: true,
                                    version: Some(w[2]),
                                    source: Some(w[3]),
                                    declared: true,
                                },
                            ),
                            ..st
                        }
                    }
                },
            },
        },
    }
}

/// The marker pass over the first `n` lines.
pub open spec fn shape_lines(chart: Seq<char>, lines: Seq<Seq<char>>, n: int) -> ShapeScan
    decreases n,
{
    if n <= 0 {
        ShapeScan { shapes: seq![], divergences: seq![], problems: seq![] }
    } else {
        shape_line(shape_lines(chart, lines, n - 1), chart, n as nat, lines[n - 1])
    }
}

/// Every shape marker in one values file, or every problem, one per line.
pub open spec fn parse_markers_spec(text: Seq<char>, chart: Seq<char>) -> Result<
    (Seq<ShapeView>, Seq<DivergenceView>),
    Seq<char>,
> {
    let ls = lines_spec(text);
    let st = shape_lines(chart, ls, ls.len() as int);
    if st.problems.len() == 0 {
        Ok((st.shapes, st.divergences))
    } else {
        Err(join_spec(st.problems, seq!['\n']))
    }
}

fn read_divergence(
    divergences: &mut Vec<Divergence>,
    problems: &mut Vec<Vec<char>>,
    chart: &[char],
    line: usize,
    rest: &[char],
    kind: Departure,
)
    ensures
        ({
            let st = read_divergence_spec(
                ShapeScan {
                    shapes: seq![],
                    divergences: divergences_view(old(divergences)@),
                    problems: views(old(problems)@),
                },
                chart@,
                line as nat,
                rest@,
                kind,
            );
            st.divergences == divergences_view(final(divergences)@) && st.problems == views(
                final(problems)@,
            )
        }),
{
    let pieces = split3_whitespace(rest);
    let mut refused = at_of(chart, line);
    push_str(&mut refused, DEPARTURE_A);
    push_str(&mut refused, kind.marker());
    push_str(&mut refused, DEPARTURE_B);
    if pieces.len() < 3 {
        let ghost before = views(problems@);
        problems.push(refused);
        assert(views(problems@) == before.push(refused@));
        return;
    }
    let reason = trim(&pieces[2]);
    if pieces[1].len() == 0 || reason.len() == 0 {
        let ghost before = views(problems@);
        problems.push(refused);
        assert(views(problems@) == before.push(refused@));
        return;
    }
    let d = Divergence {
        chart: string_of(chart),
        line,
        values_path: string_of(&pieces[0]),
        sub_path: string_of(&pieces[1]),
        reason: string_of(&reason),
        kind,
    };
    let ghost before = divergences_view(divergences@);
    divergences.push(d);
    assert(divergences_view(divergences@) == before.push(d@));
}

/// Every shape marker in one values file.
///
/// Every problem is collected before any is raised; the error lists every marker that cannot be
/// read as one.
pub fn parse_markers(text: &str, chart: &str) -> (r: Result<(Vec<Shape>, Vec<Divergence>), crate::Error>)
    ensures
        match r {
            Ok((s, d)) => parse_markers_spec(text@, chart@) == Ok::<
                (Seq<ShapeView>, Seq<DivergenceView>),
                Seq<char>,
            >((shapes_view(s@), divergences_view(d@))),
            Err(e) => e is Invalid && parse_markers_spec(text@, chart@) == Err::<
                (Seq<ShapeView>, Seq<DivergenceView>),
                Seq<char>,
            >(e.said()),
        },
{
    let t = chars_of(text);
    let c = chars_of(chart);
    let all = lines(&t);
    let ghost ls = lines_spec(text@);
    let mut shapes: Vec<Shape> = Vec::new();
    let mut divergences: Vec<Divergence> = Vec::new();
    let mut problems: Vec<Vec<char>> = Vec::new();
    let mut k: usize = 0;
    assert(shapes_view(shapes@) =~= Seq::<ShapeView>::empty());
    assert(divergences_view(divergences@) =~= Seq::<DivergenceView>::empty());
    assert(views(problems@) =~= Seq::<Seq<char>>::empty());
    while k < all.len()
        invariant
            k <= all@.len(),
            views(all@) == ls,
            c@ == chart@,
            shape_lines(chart@, ls, k as int) == (ShapeScan {
                shapes: shapes_view(shapes@),
                divergences: divergences_view(divergences@),
                problems: views(problems@),
            }),
        decreases all.len() - k,
    {
        let number = k + 1;
        let line = &all[k];
        assert(ls[k as int] == line@);
        let ghost st = shape_lines(chart@, ls, k as int);
        let at = at_of(&c, number);
        match marker_body(line, EXCEPT_MARKER) {
            Some(rest) => {
                read_divergence(&mut divergences, &mut problems, &c, number, &rest, Departure::Override);
            },
            None => match marker_body(line, NARROW_MARKER) {
                Some(rest) => {
                    read_divergence(&mut divergences, &mut problems, &c, number, &rest, Departure::Narrowing);
                },
                None => match marker_body(line, SHAPE_MARKER) {
                    None => {},
                    Some(rest) => {
                        let w = split_whitespace(&rest);
                        let ghost before = views(problems@);
                        if w.len() >= 2 && is_lit(&w[1], GENERATED) {
                            let mut m = at.clone();
                            push_str(&mut m, OBSOLETE_A);
                            push_all(&mut m, &w[0]);
                            push_str(&mut m, OBSOLETE_B);
                            problems.push(m);
                            assert(views(problems@) == before.push(m@));
                        } else if w.len() < 2 || !is_lit(&w[1], HANDWRITTEN) {
                            let mut m = at.clone();
                            push_str(&mut m, SHAPE_FORM);
                            problems.push(m);
                            assert(views(problems@) == before.push(m@));
                        } else if w.len() != 4 {
                            let mut m = at.clone();
                            push_str(&mut m, RELEASE_A);
                            push_all(&mut m, &w[0]);
                            push_str(&mut m, RELEASE_B);
                            problems.push(m);
                            assert(views(problems@) == before.push(m@));
                        } else {
                            let shape = Shape {
                                chart: string_of(&c),
                                line: number,
                                values_path: string_of(&w[0]),
                                handwritten: true,
                                version: Some(string_of(&w[2])),
                                source: Some(string_of(&w[3])),
                                declared: true,
                            };
                            let ghost sb = shapes_view(shapes@);
                            shapes.push(shape);
                            assert(shapes_view(shapes@) == sb.push(shape@));
                        }
                    },
                },
            },
        }
        k = k + 1;
    }
    if problems.len() == 0 {
        Ok((shapes, divergences))
    } else {
        let sep = chars_of("\n");
        proof {
            assert(sep@ =~= seq!['\n']) by {
                reveal_strlit("\n");
            }
        }
        Err(crate::Error::Invalid(string_of(&join(&problems, &sep))))
    }
}

} // verus!

// ------------------------------------------------------------------------------------------
// Blocks, and the shapes a chart generates
// ------------------------------------------------------------------------------------------

verus! {

/// How many lines open a block's marker run.
pub open spec fn marker_run(lines: Seq<Seq<char>>, i: int) -> int
    decreases lines.len() - i,
{
    if i < 0 || i >= lines.len() || !opens_with_a_marker_spec(lines[i]) {
        i
    } else {
        marker_run(lines, i + 1)
    }
}

proof fn lemma_marker_run(lines: Seq<Seq<char>>, i: int)
    requires
        0 <= i <= lines.len(),
    ensures
        i <= marker_run(lines, i) <= lines.len(),
    decreases lines.len() - i,
{
    if i < lines.len() && opens_with_a_marker_spec(lines[i]) {
        lemma_marker_run(lines, i + 1);
    }
}

/// One block's lines as `(the marker run, the schema)`.
pub open spec fn split_block_spec(lines: Seq<Seq<char>>) -> (Seq<Seq<char>>, Seq<Seq<char>>) {
    let n = marker_run(lines, 0);
    (lines.take(n), lines.skip(n))
}

/// One block's content, as `(the marker run, the schema)`: the `# # @config ...` lines the
/// block opens with, and everything after them, which is what a regeneration replaces. The
/// content is the block's lines with trailing whitespace trimmed and the blank ones left out.
pub fn split_block(block: &Block) -> (r: (Vec<String>, Vec<String>))
    ensures
        (strs(r.0@), strs(r.1@)) == split_block_spec(crate::markers::content_spec(block@.lines)),
{
    let content = crate::markers::content_lines(&block.lines);
    let ghost ls = strs(content@);
    let mut markers: Vec<String> = Vec::new();
    let mut rest: Vec<String> = Vec::new();
    let mut i: usize = 0;
    while i < content.len() && opens_with_chars(&chars(&content[i]))
        invariant
            i <= content@.len(),
            ls == strs(content@),
            marker_run(ls, 0) == marker_run(ls, i as int),
            strs(markers@) == ls.take(i as int),
        decreases content.len() - i,
    {
        let ghost before = strs(markers@);
        markers.push(content[i].clone());
        assert(strs(markers@) == before.push(ls[i as int]));
        assert(ls.take(i + 1) == ls.take(i as int).push(ls[i as int]));
        i = i + 1;
    }
    let n = i;
    proof {
        lemma_marker_run(ls, 0);
    }
    while i < content.len()
        invariant
            n <= i <= content@.len(),
            ls == strs(content@),
            strs(rest@) == ls.subrange(n as int, i as int),
        decreases content.len() - i,
    {
        let ghost before = strs(rest@);
        rest.push(content[i].clone());
        assert(strs(rest@) == before.push(ls[i as int]));
        i = i + 1;
    }
    (markers, rest)
}

/// The struct fields a narrowing put into the generated schema, by the position they sit at.
#[derive(Debug, Clone, Default, PartialEq, Eq)]
pub struct Added {
    positions: Vec<String>,
}

impl Added {
    /// The positions recorded, in the order the markers were written.
    pub closed spec fn positions(&self) -> Seq<Seq<char>> {
        strs(self.positions@)
    }

    /// Nothing added.
    pub fn new() -> (a: Added)
        ensures
            a.positions() == Seq::<Seq<char>>::empty(),
    {
        let a = Added { positions: Vec::new() };
        assert(a.positions() =~= Seq::<Seq<char>>::empty());
        a
    }

    /// Remember one position, if it names a struct field rather than a keyword: its second-last
    /// part is `properties`.
    pub fn record(&mut self, parts: &Vec<Vec<char>>)
        ensures
            final(self).positions() == if parts@.len() >= 2 && parts@[parts@.len() - 2]@
                == "properties"@ {
                old(self).positions().push(join_spec(views(parts@), seq!['.']))
            } else {
                old(self).positions()
            },
    {
        if parts.len() >= 2 && is_lit(&parts[parts.len() - 2], "properties") {
            let sep = chars_of(".");
            proof {
                assert(sep@ =~= seq!['.']) by {
                    reveal_strlit(".");
                }
            }
            let joined = string_of(&join(parts, &sep));
            let ghost before = strs(self.positions@);
            self.positions.push(joined);
            assert(strs(self.positions@) == before.push(joined@));
        }
    }

    /// The full position of one field below a position.
    pub open spec fn field_position(at: Seq<char>, field: Seq<char>) -> Seq<char> {
        if at.len() == 0 {
            "properties."@ + field
        } else {
            at + ".properties."@ + field
        }
    }

    /// Whether the field at this position was added rather than published.
    pub fn holds(&self, at: &[char], field: &[char]) -> (b: bool)
        ensures
            b == self.positions().contains(Added::field_position(at@, field@)),
    {
        let mut full: Vec<char> = Vec::new();
        if at.len() == 0 {
            push_str(&mut full, "properties.");
        } else {
            push_all(&mut full, at);
            push_str(&mut full, ".properties.");
        }
        push_all(&mut full, field);
        let mut i: usize = 0;
        while i < self.positions.len()
            invariant
                i <= self.positions@.len(),
                full@ == Added::field_position(at@, field@),
                forall|k: int| 0 <= k < i ==> strs(self.positions@)[k] != full@,
            decreases self.positions.len() - i,
        {
            if same(&chars(&self.positions[i]), &full) {
                assert(strs(self.positions@)[i as int] == full@);
                return true;
            }
            i = i + 1;
        }
        false
    }
}

/// Field names YAML 1.1 reads as something other than a string.
pub open spec fn yaml_word(s: Seq<char>) -> bool {
    s == "y"@ || s == "n"@ || s == "yes"@ || s == "no"@ || s == "on"@ || s == "off"@ || s
        == "true"@ || s == "false"@ || s == "null"@ || s == "none"@ || s == "~"@
}

/// The ASCII lowercase of a text.
pub open spec fn lowered(s: Seq<char>) -> Seq<char> {
    s.map_values(|c: char| crate::text::lower(c))
}

/// Whether a field name can be written bare: it opens with a letter or `_`, and holds only
/// letters, digits, `_`, `.` and `-`.
pub open spec fn plain_name(s: Seq<char>) -> bool {
    s.len() > 0 && (is_alpha(s[0]) || s[0] == '_') && forall|i: int|
        0 <= i < s.len() ==> (is_alnum(#[trigger] s[i]) || s[i] == '_' || s[i] == '.' || s[i]
            == '-')
}

/// A YAML double-quoted scalar: backslashes and double quotes escaped.
pub open spec fn escaped(s: Seq<char>) -> Seq<char>
    decreases s.len(),
{
    if s.len() == 0 {
        seq![]
    } else {
        escaped(s.drop_last()) + if s.last() == '\\' {
            seq!['\\', '\\']
        } else if s.last() == '"' {
            seq!['\\', '"']
        } else {
            seq![s.last()]
        }
    }
}

/// `"text"`, escaped.
pub open spec fn quoted_spec(s: Seq<char>) -> Seq<char> {
    seq!['"'] + escaped(s) + seq!['"']
}

/// A YAML double-quoted scalar. Used wherever a value could be read as something else.
pub fn quoted(text: &[char]) -> (v: Vec<char>)
    ensures
        v@ == quoted_spec(text@),
{
    let mut v: Vec<char> = Vec::new();
    v.push('"');
    let mut i: usize = 0;
    while i < text.len()
        invariant
            i <= text@.len(),
            v@ == seq!['"'] + escaped(text@.take(i as int)),
        decreases text.len() - i,
    {
        let c = text[i];
        assert(text@.take(i + 1).drop_last() == text@.take(i as int));
        if c == '\\' {
            v.push('\\');
            v.push('\\');
        } else if c == '"' {
            v.push('\\');
            v.push('"');
        } else {
            v.push(c);
        }
        i = i + 1;
        assert(v@ =~= seq!['"'] + escaped(text@.take(i as int)));
    }
    assert(text@.take(i as int) == text@);
    v.push('"');
    v
}

/// One struct field name, as the mapping key an `@schema` block carries it as.
pub open spec fn field_name_spec(name: Seq<char>) -> Seq<char> {
    if plain_name(name) && !yaml_word(lowered(name)) {
        name
    } else {
        quoted_spec(name)
    }
}

fn lower_all(s: &[char]) -> (v: Vec<char>)
    ensures
        v@ == lowered(s@),
{
    let mut v: Vec<char> = Vec::new();
    let mut i: usize = 0;
    while i < s.len()
        invariant
            i <= s@.len(),
            v@ == lowered(s@.take(i as int)),
        decreases s.len() - i,
    {
        let c = s[i];
        let l = if 'A' <= c && c <= 'Z' {
            ((c as u8) + 32) as char
        } else {
            c
        };
        v.push(l);
        i = i + 1;
        assert(v@ =~= lowered(s@.take(i as int)));
    }
    assert(s@.take(i as int) == s@);
    v
}

/// One struct field name, as the mapping key an `@schema` block carries it as.
pub fn field_name(name: &[char]) -> (v: Vec<char>)
    ensures
        v@ == field_name_spec(name@),
{
    let mut plain = name.len() > 0 && (is_ascii_alphabetic(name[0]) || name[0] == '_');
    let mut i: usize = 0;
    while i < name.len()
        invariant
            i <= name@.len(),
            plain == (name@.len() > 0 && (is_alpha(name@[0]) || name@[0] == '_') && forall|k: int|
                0 <= k < i ==> (is_alnum(#[trigger] name@[k]) || name@[k] == '_' || name@[k] == '.'
                    || name@[k] == '-')),
        decreases name.len() - i,
    {
        let c = name[i];
        if !(is_ascii_alphanumeric(c) || c == '_' || c == '.' || c == '-') {
            plain = false;
        }
        i = i + 1;
    }
    if plain {
        let l = lower_all(name);
        let word = is_lit(&l, "y") || is_lit(&l, "n") || is_lit(&l, "yes") || is_lit(&l, "no")
            || is_lit(&l, "on") || is_lit(&l, "off") || is_lit(&l, "true") || is_lit(&l, "false")
            || is_lit(&l, "null") || is_lit(&l, "none") || is_lit(&l, "~");
        if !word {
            return slice_of(name, 0, name.len());
        }
    }
    quoted(name)
}

} // verus!

verus! {

/// The first block a list of `(values path, block)` pairs holds for one value.
pub open spec fn block_lookup(blocks: Seq<(Seq<char>, BlockView)>, key: Seq<char>) -> Option<BlockView>
    decreases blocks.len(),
{
    if blocks.len() == 0 {
        None
    } else if blocks[0].0 == key {
        Some(blocks[0].1)
    } else {
        block_lookup(blocks.drop_first(), key)
    }
}

pub open spec fn block_pairs(v: Seq<(String, Block)>) -> Seq<(Seq<char>, BlockView)> {
    v.map_values(|p: (String, Block)| (p.0@, p.1@))
}

pub open spec fn marker_groups(v: Seq<(String, Vec<Marker>)>) -> Seq<(Seq<char>, Seq<MarkerView>)> {
    v.map_values(|p: (String, Vec<Marker>)| (p.0@, p.1@.map_values(|m: Marker| m@)))
}

/// The generated shape for one value, before ordering, if it gets one: it keeps no
/// transcription marker and carries a binding that derives.
pub open spec fn candidate(
    chart: Seq<char>,
    group: (Seq<char>, Seq<MarkerView>),
    blocks: Seq<(Seq<char>, BlockView)>,
    declared: Seq<Seq<char>>,
) -> Option<ShapeView> {
    let (values_path, held) = group;
    if !declared.contains(values_path) && exists|k: int|
        0 <= k < held.len() && derives_spec(#[trigger] held[k].class) {
        Some(
            ShapeView {
                chart,
                line: match block_lookup(blocks, values_path) {
                    Some(b) => b.start,
                    None => held[0].line,
                },
                values_path,
                handwritten: false,
                version: None,
                source: None,
                declared: false,
            },
        )
    } else {
        None
    }
}

/// The candidates of the first `n` groups, in the groups' order.
pub open spec fn candidates(
    chart: Seq<char>,
    groups: Seq<(Seq<char>, Seq<MarkerView>)>,
    blocks: Seq<(Seq<char>, BlockView)>,
    declared: Seq<Seq<char>>,
    n: int,
) -> Seq<ShapeView>
    decreases n,
{
    if n <= 0 {
        seq![]
    } else {
        let prev = candidates(chart, groups, blocks, declared, n - 1);
        match candidate(chart, groups[n - 1], blocks, declared) {
            Some(s) => prev.push(s),
            None => prev,
        }
    }
}

/// Whether a value's markers make it a generated shape: it keeps no transcription marker and
/// carries a binding that derives.
pub open spec fn derived_value(group: (Seq<char>, Seq<MarkerView>), declared: Seq<Seq<char>>) -> bool {
    !declared.contains(group.0) && exists|k: int| 0 <= k < group.1.len() && derives_spec(#[trigger] group.1[k].class)
}

/// The generated shape of one value: the chart's, neither hand-written nor declared, placed at
/// its block's opening delimiter or, with no block, at its first marker.
pub open spec fn generated_shape(chart: Seq<char>, group: (Seq<char>, Seq<MarkerView>), blocks: Seq<(Seq<char>, BlockView)>) -> ShapeView {
    ShapeView {
        chart,
        line: match block_lookup(blocks, group.0) {
            Some(b) => b.start,
            None => group.1[0].line,
        },
        values_path: group.0,
        handwritten: false,
        version: None,
        source: None,
        declared: false,
    }
}

/// The generated shapes are exactly the values whose markers derive and that keep no
/// transcription marker, each a generated (not hand-written, not declared) shape of the chart,
/// placed at its block's opening delimiter or, with no block, at its first marker.
pub proof fn generated_are_the_derived_values(
    chart: Seq<char>,
    groups: Seq<(Seq<char>, Seq<MarkerView>)>,
    blocks: Seq<(Seq<char>, BlockView)>,
    declared: Seq<Seq<char>>,
    n: int,
)
    requires
        0 <= n <= groups.len(),
    ensures
        forall|i: int| #![trigger candidates(chart, groups, blocks, declared, n)[i]]
            0 <= i < candidates(chart, groups, blocks, declared, n).len() ==> exists|k: int| #![trigger groups[k]]
                0 <= k < n && derived_value(groups[k], declared)
                    && candidates(chart, groups, blocks, declared, n)[i] == generated_shape(chart, groups[k], blocks),
        forall|k: int| #![trigger groups[k]]
            0 <= k < n && derived_value(groups[k], declared) ==> candidates(chart, groups, blocks, declared, n).contains(
                generated_shape(chart, groups[k], blocks),
            ),
    decreases n,
{
    if n > 0 {
        generated_are_the_derived_values(chart, groups, blocks, declared, n - 1);
        let prev = candidates(chart, groups, blocks, declared, n - 1);
        let all = candidates(chart, groups, blocks, declared, n);
        let g = groups[n - 1];
        if derived_value(g, declared) {
            assert(candidate(chart, g, blocks, declared) == Some(generated_shape(chart, g, blocks)));
            assert(all == prev.push(generated_shape(chart, g, blocks)));
        } else {
            assert(candidate(chart, g, blocks, declared) is None);
            assert(all == prev);
        }
        assert forall|i: int| #![trigger all[i]] 0 <= i < all.len() implies exists|k: int| #![trigger groups[k]]
            0 <= k < n && derived_value(groups[k], declared) && all[i] == generated_shape(chart, groups[k], blocks) by {
            if i < prev.len() {
                assert(all[i] == prev[i]);
                let k = choose|k: int| #![trigger groups[k]]
                    0 <= k < n - 1 && derived_value(groups[k], declared) && prev[i] == generated_shape(chart, groups[k], blocks);
                assert(0 <= k < n && derived_value(groups[k], declared) && all[i] == generated_shape(chart, groups[k], blocks));
            } else {
                assert(0 <= n - 1 < n && derived_value(groups[n - 1], declared) && all[i] == generated_shape(chart, groups[n - 1], blocks));
            }
        }
        assert forall|k: int| 0 <= k < n && derived_value(#[trigger] groups[k], declared) implies all.contains(
            generated_shape(chart, groups[k], blocks),
        ) by {
            if k < n - 1 {
                assert(prev.contains(generated_shape(chart, groups[k], blocks)));
                let i = choose|i: int| 0 <= i < prev.len() && prev[i] == generated_shape(chart, groups[k], blocks);
                assert(all[i] == prev[i]);
            } else {
                assert(all[prev.len() as int] == generated_shape(chart, groups[k], blocks));
            }
        }
    }
}

/// What `generated` gives, as a whole: ordered by line; every shape the generated shape of a
/// value whose markers derive and that keeps no transcription marker; and every such value
/// given its shape.
pub proof fn generated_law(
    chart: Seq<char>,
    groups: Seq<(Seq<char>, Seq<MarkerView>)>,
    blocks: Seq<(Seq<char>, BlockView)>,
    declared: Seq<Seq<char>>,
)
    ensures
        forall|i: int, j: int|
            0 <= i < j < by_line(candidates(chart, groups, blocks, declared, groups.len() as int)).len()
                ==> by_line(candidates(chart, groups, blocks, declared, groups.len() as int))[i].line
                <= by_line(candidates(chart, groups, blocks, declared, groups.len() as int))[j].line,
        forall|x: ShapeView| #[trigger] by_line(candidates(chart, groups, blocks, declared, groups.len() as int)).contains(x)
            ==> exists|k: int| #![trigger groups[k]] 0 <= k < groups.len() && derived_value(groups[k], declared)
                && x == generated_shape(chart, groups[k], blocks),
        forall|k: int| #![trigger groups[k]]
            0 <= k < groups.len() && derived_value(groups[k], declared) ==> by_line(
                candidates(chart, groups, blocks, declared, groups.len() as int),
            ).contains(generated_shape(chart, groups[k], blocks)),
{
    let c = candidates(chart, groups, blocks, declared, groups.len() as int);
    generated_in_line_order(c);
    generated_are_the_derived_values(chart, groups, blocks, declared, groups.len() as int);
    let g = by_line(c);
    assert forall|x: ShapeView| #[trigger] g.contains(x) == c.contains(x) by {
        vstd::seq_lib::to_multiset_contains(g, x);
        vstd::seq_lib::to_multiset_contains(c, x);
    }
    assert forall|x: ShapeView| #[trigger] g.contains(x) implies exists|k: int| #![trigger groups[k]] 0 <= k < groups.len()
        && derived_value(groups[k], declared) && x == generated_shape(chart, groups[k], blocks) by {
        assert(c.contains(x));
        let i = choose|i: int| 0 <= i < c.len() && c[i] == x;
        assert(c[i] == x);
    }
    assert forall|k: int| #![trigger groups[k]] 0 <= k < groups.len() && derived_value(groups[k], declared) implies g.contains(
        generated_shape(chart, groups[k], blocks),
    ) by {
        assert(c.contains(generated_shape(chart, groups[k], blocks)));
    }
}

/// Where a shape goes in a list already ordered by line: after every shape on its line or
/// before it, which is what keeps the sort stable.
pub open spec fn insert_at(sorted: Seq<ShapeView>, line: nat, i: int) -> int
    decreases sorted.len() - i,
{
    if i < 0 || i >= sorted.len() || sorted[i].line > line {
        i
    } else {
        insert_at(sorted, line, i + 1)
    }
}

/// A list ordered by line, ties in their original order.
pub open spec fn by_line(s: Seq<ShapeView>) -> Seq<ShapeView>
    decreases s.len(),
{
    if s.len() == 0 {
        seq![]
    } else {
        let sorted = by_line(s.drop_last());
        sorted.insert(insert_at(sorted, s.last().line, 0), s.last())
    }
}

/// Where a shape goes: every shape before it is on its line or an earlier one, and, in a list
/// ordered by line, the shape it goes before is on a later one.
proof fn lemma_insert_place(sorted: Seq<ShapeView>, line: nat, i: int)
    requires
        0 <= i <= sorted.len(),
        forall|k: int| 0 <= k < i ==> sorted[k].line <= line,
    ensures
        forall|k: int| 0 <= k < insert_at(sorted, line, i) ==> sorted[k].line <= line,
        insert_at(sorted, line, i) < sorted.len() ==> sorted[insert_at(sorted, line, i)].line > line,
    decreases sorted.len() - i,
{
    if i < sorted.len() && sorted[i].line <= line {
        lemma_insert_place(sorted, line, i + 1);
    }
}

/// Generated shapes come out ordered by line, each of them exactly once: the ordering is a
/// rearrangement of the candidates and never puts a later line first.
pub proof fn generated_in_line_order(s: Seq<ShapeView>)
    ensures
        by_line(s).len() == s.len(),
        by_line(s).to_multiset() == s.to_multiset(),
        forall|i: int, j: int| 0 <= i < j < by_line(s).len() ==> by_line(s)[i].line <= by_line(s)[j].line,
    decreases s.len(),
{
    if s.len() > 0 {
        generated_in_line_order(s.drop_last());
        let sorted = by_line(s.drop_last());
        let x = s.last();
        lemma_insert_at(sorted, x.line, 0);
        lemma_insert_place(sorted, x.line, 0);
        let at = insert_at(sorted, x.line, 0);
        let out = sorted.insert(at, x);
        vstd::seq_lib::to_multiset_insert(sorted, at, x);
        vstd::seq_lib::to_multiset_build(s.drop_last(), x);
        assert(s.drop_last().push(x) =~= s);
        assert(out.to_multiset() == sorted.to_multiset().insert(x));
        assert(s.to_multiset() == s.drop_last().to_multiset().insert(x));
        assert forall|i: int, j: int| 0 <= i < j < out.len() implies out[i].line <= out[j].line by {
            if j < at {
                assert(out[i] == sorted[i] && out[j] == sorted[j]);
            } else if j == at {
                assert(out[i] == sorted[i]);
            } else if i < at {
                assert(out[i] == sorted[i] && out[j] == sorted[j - 1]);
                assert(sorted[at].line > x.line);
                if j - 1 > at {
                    assert(sorted[at].line <= sorted[j - 1].line);
                }
            } else if i == at {
                assert(out[j] == sorted[j - 1]);
                assert(sorted[at].line > x.line);
                if j - 1 > at {
                    assert(sorted[at].line <= sorted[j - 1].line);
                }
            } else {
                assert(out[i] == sorted[i - 1] && out[j] == sorted[j - 1]);
            }
        }
    } else {
        assert(s =~= Seq::<ShapeView>::empty());
        assert(by_line(s) =~= Seq::<ShapeView>::empty());
    }
}

proof fn lemma_insert_at(sorted: Seq<ShapeView>, line: nat, i: int)
    requires
        0 <= i <= sorted.len(),
    ensures
        i <= insert_at(sorted, line, i) <= sorted.len(),
    decreases sorted.len() - i,
{
    if i < sorted.len() && sorted[i].line <= line {
        lemma_insert_at(sorted, line, i + 1);
    }
}

proof fn lemma_by_line_len(s: Seq<ShapeView>)
    ensures
        by_line(s).len() == s.len(),
    decreases s.len(),
{
    if s.len() > 0 {
        lemma_by_line_len(s.drop_last());
        lemma_insert_at(by_line(s.drop_last()), s.last().line, 0);
    }
}

fn find_block(blocks: &Vec<(String, Block)>, key: &String) -> (r: Option<usize>)
    ensures
        match r {
            Some(i) => i < blocks@.len() && block_lookup(block_pairs(blocks@), key@) == Some(
                block_pairs(blocks@)[i as int].1,
            ),
            None => block_lookup(block_pairs(blocks@), key@) is None,
        },
{
    let ghost all = block_pairs(blocks@);
    let mut i: usize = 0;
    assert(all.skip(0) == all);
    while i < blocks.len()
        invariant
            i <= blocks@.len(),
            all == block_pairs(blocks@),
            block_lookup(all, key@) == block_lookup(all.skip(i as int), key@),
        decreases blocks.len() - i,
    {
        assert(all.skip(i as int)[0] == all[i as int]);
        assert(all.skip(i as int).drop_first() == all.skip(i + 1));
        if blocks[i].0 == *key {
            return Some(i);
        }
        i = i + 1;
    }
    None
}

fn insert_by_line(sorted: &mut Vec<Shape>, shape: Shape)
    ensures
        shapes_view(final(sorted)@) == shapes_view(old(sorted)@).insert(
            insert_at(shapes_view(old(sorted)@), shape.line as nat, 0),
            shape@,
        ),
{
    let ghost s = shapes_view(sorted@);
    let mut i: usize = 0;
    while i < sorted.len() && sorted[i].line <= shape.line
        invariant
            i <= sorted@.len(),
            s == shapes_view(sorted@),
            insert_at(s, shape.line as nat, 0) == insert_at(s, shape.line as nat, i as int),
        decreases sorted.len() - i,
    {
        i = i + 1;
    }
    let ghost v = shape@;
    sorted.insert(i, shape);
    assert(shapes_view(sorted@) =~= s.insert(i as int, v));
}

/// Every generated shape a chart has, from its markers and its blocks: every bound value that
/// keeps no transcription marker and carries a binding that derives, placed at its block's
/// opening delimiter (or its first marker), ordered by that line.
///
/// `markers` and `blocks` are keyed by values path, in key order, as a sorted map holds them.
pub fn generated(
    chart: &str,
    markers: &Vec<(String, Vec<Marker>)>,
    blocks: &Vec<(String, Block)>,
    transcribed: &Vec<Shape>,
) -> (shapes: Vec<Shape>)
    ensures
        shapes_view(shapes@) == by_line(
            candidates(
                chart@,
                marker_groups(markers@),
                block_pairs(blocks@),
                shapes_view(transcribed@).map_values(|s: ShapeView| s.values_path),
                markers@.len() as int,
            ),
        ),
{
    let ghost declared = shapes_view(transcribed@).map_values(|s: ShapeView| s.values_path);
    let ghost groups = marker_groups(markers@);
    let ghost bp = block_pairs(blocks@);
    let chart_name = string_of(&chars_of(chart));
    let mut shapes: Vec<Shape> = Vec::new();
    let mut n: usize = 0;
    while n < markers.len()
        invariant
            n <= markers@.len(),
            chart_name@ == chart@,
            declared == shapes_view(transcribed@).map_values(|s: ShapeView| s.values_path),
            groups == marker_groups(markers@),
            bp == block_pairs(blocks@),
            shapes_view(shapes@) == by_line(candidates(chart@, groups, bp, declared, n as int)),
        decreases markers.len() - n,
    {
        let values_path = &markers[n].0;
        let held = &markers[n].1;
        let ghost g = groups[n as int];
        assert(g.0 == values_path@);
        assert(g.1 == held@.map_values(|m: Marker| m@));
        let mut is_declared = false;
        let mut t: usize = 0;
        while t < transcribed.len()
            invariant
                t <= transcribed@.len(),
                declared == shapes_view(transcribed@).map_values(|s: ShapeView| s.values_path),
                is_declared == exists|q: int| 0 <= q < t && declared[q] == values_path@,
            decreases transcribed.len() - t,
        {
            if transcribed[t].values_path == *values_path {
                assert(declared[t as int] == values_path@);
                is_declared = true;
            }
            t = t + 1;
        }
        assert(is_declared == declared.contains(values_path@));
        let mut derived = false;
        let mut k: usize = 0;
        while k < held.len()
            invariant
                k <= held@.len(),
                g.1 == held@.map_values(|m: Marker| m@),
                derived == exists|q: int| 0 <= q < k && derives_spec(#[trigger] g.1[q].class),
            decreases held.len() - k,
        {
            if derives(held[k].class) {
                assert(derives_spec(g.1[k as int].class));
                derived = true;
            }
            k = k + 1;
        }
        if !is_declared && derived {
            let line = match find_block(blocks, values_path) {
                Some(i) => blocks[i].1.start,
                None => held[0].line,
            };
            let shape = Shape {
                chart: chart_name.clone(),
                line,
                values_path: values_path.clone(),
                handwritten: false,
                version: None,
                source: None,
                declared: false,
            };
            assert(candidate(chart@, g, bp, declared) == Some(shape@));
            insert_by_line(&mut shapes, shape);
            assert(candidates(chart@, groups, bp, declared, n + 1) == candidates(chart@, groups, bp, declared, n as int).push(shape@));
            assert(candidates(chart@, groups, bp, declared, n + 1).drop_last() =~= candidates(chart@, groups, bp, declared, n as int));
        } else {
            assert(candidate(chart@, g, bp, declared) is None);
        }
        n = n + 1;
    }
    shapes
}

/// One values file's lines from index `i`, each keeping the `\n` it ends with, and a final line
/// without one kept only when it is not empty.
pub open spec fn lines_keeping_ends(s: Seq<char>, i: int) -> Seq<Seq<char>>
    decreases s.len() - i,
{
    if i < 0 || i >= s.len() {
        seq![]
    } else {
        let e = crate::text::next_char(s, '\n', i);
        if e >= s.len() {
            seq![s.subrange(i, s.len() as int)]
        } else {
            proof {
                crate::text::lemma_next_char(s, '\n', i);
            }
            seq![s.subrange(i, e + 1)] + lines_keeping_ends(s, e + 1)
        }
    }
}

/// One values file's lines, each keeping the ending it was written with.
pub fn split_keeping_ends(text: &[char]) -> (out: Vec<Vec<char>>)
    ensures
        views(out@) == lines_keeping_ends(text@, 0),
{
    let mut out: Vec<Vec<char>> = Vec::new();
    let mut i: usize = 0;
    while i < text.len()
        invariant
            i <= text@.len(),
            views(out@) + lines_keeping_ends(text@, i as int) == lines_keeping_ends(text@, 0),
        decreases text.len() - i,
    {
        let e = crate::text::find_char(text, '\n', i);
        let ghost before = views(out@);
        if e == text.len() {
            let piece = slice_of(text, i, e);
            out.push(piece);
            assert(views(out@) == before.push(piece@));
            i = e;
        } else {
            let piece = slice_of(text, i, e + 1);
            out.push(piece);
            assert(views(out@) == before.push(piece@));
            i = e + 1;
        }
    }
    assert(views(out@) + lines_keeping_ends(text@, i as int) == views(out@));
    out
}

/// Every line followed by a newline.
pub open spec fn each_line(lines: Seq<Seq<char>>) -> Seq<char>
    decreases lines.len(),
{
    if lines.len() == 0 {
        seq![]
    } else {
        each_line(lines.drop_last()) + lines.last() + seq!['\n']
    }
}

fn push_lines(out: &mut Vec<char>, lines: &Vec<String>)
    ensures
        final(out)@ == old(out)@ + each_line(strs(lines@)),
{
    let ghost ls = strs(lines@);
    let mut i: usize = 0;
    while i < lines.len()
        invariant
            i <= lines@.len(),
            ls == strs(lines@),
            out@ == old(out)@ + each_line(ls.take(i as int)),
        decreases lines.len() - i,
    {
        push_all(out, &chars(&lines[i]));
        out.push('\n');
        assert(ls.take(i + 1).drop_last() == ls.take(i as int));
        i = i + 1;
        assert(out@ =~= old(out)@ + each_line(ls.take(i as int)));
    }
    assert(ls.take(i as int) == ls);
}

/// Two blocks, side by side, for a message somebody has to act on.
pub open spec fn difference_spec(current: Seq<Seq<char>>, target: Seq<Seq<char>>) -> Seq<char> {
    "--- values.yaml\n"@ + each_line(current) + "--- the contract\n"@ + each_line(target)
}

/// Two blocks, side by side, in full: a generated block is a dozen lines, and showing both is
/// shorter to read than working out which of them moved.
pub fn difference(current: &Vec<String>, target: &Vec<String>) -> (s: Vec<char>)
    ensures
        s@ == difference_spec(strs(current@), strs(target@)),
{
    let mut out = chars_of("--- values.yaml\n");
    push_lines(&mut out, current);
    push_str(&mut out, "--- the contract\n");
    push_lines(&mut out, target);
    out
}


// ------------------------------------------------------------------------------------------
// Resolving one value against its contracts
// ------------------------------------------------------------------------------------------

/// The contract key one value feeds, resolved against every document that carries it.
#[derive(Debug)]
pub struct Resolved {
    /// The constraint the documents agree on, where one is published and it is not null.
    pub constraint: Option<Json>,
    /// Whether the key may be absent when the value is empty.
    pub optional: bool,
    /// Whether every document carrying the key calls it structured.
    pub structured: bool,
    /// The Rust type the documents agree the key has, or nothing where they do not.
    pub ty: String,
    /// Each document carrying the key, with each release of the images that read it.
    pub publishers: Vec<Publisher>,
}

/// The fields of the first entry of a list named `target`.
pub open spec fn entry_in(list: Seq<(String, Vec<(String, Json)>)>, target: Seq<char>) -> Option<Seq<(String, Json)>>
    decreases list.len(),
{
    if list.len() == 0 {
        None
    } else if list[0].0@ == target {
        Some(list[0].1@)
    } else {
        entry_in(list.drop_first(), target)
    }
}

/// The fields the document of this name publishes for the target, in the namespace a marker reads.
pub open spec fn entry_of(docs: Seq<BoundDocument>, name: Seq<char>, key: bool, target: Seq<char>) -> Option<Seq<(String, Json)>> {
    match document_named(docs, name) {
        Some(d) => entry_in(if key { d.keys@ } else { d.env@ }, target),
        None => None,
    }
}

/// The candidates that carry the target, each with the fields it publishes, in order.
pub open spec fn carried_spec(docs: Seq<BoundDocument>, candidates: Seq<Seq<char>>, key: bool, target: Seq<char>) -> Seq<(Seq<char>, Seq<(String, Json)>)>
    decreases candidates.len(),
{
    if candidates.len() == 0 {
        seq![]
    } else {
        let rest = carried_spec(docs, candidates.drop_last(), key, target);
        match entry_of(docs, candidates.last(), key, target) {
            Some(f) => rest.push((candidates.last(), f)),
            None => rest,
        }
    }
}

/// Whether two fields that may be absent hold the same value.
pub open spec fn same_field(a: Option<Json>, b: Option<Json>) -> bool {
    match (a, b) {
        (None, None) => true,
        (Some(x), Some(y)) => crate::json::json_same(x, y),
        _ => false,
    }
}

/// A text field, or nothing.
pub open spec fn text_field_of(fields: Seq<(String, Json)>, name: Seq<char>) -> Seq<char> {
    match crate::explain::lookup(fields, name) {
        Some(Json::Str(t)) => t@,
        _ => seq![],
    }
}

/// Whether every carrying document publishes the same constraint as the first.
pub open spec fn agreeing(carried: Seq<(Seq<char>, Seq<(String, Json)>)>) -> bool {
    forall|i: int| 0 <= i < carried.len() ==> same_field(
        #[trigger] crate::explain::lookup(carried[i].1, "constraint"@),
        crate::explain::lookup(carried[0].1, "constraint"@),
    )
}

/// Whether every carrying document calls the key structured.
pub open spec fn all_structured(carried: Seq<(Seq<char>, Seq<(String, Json)>)>) -> bool {
    forall|i: int| 0 <= i < carried.len() ==> #[trigger] text_field_of(carried[i].1, "text_form"@) == "structured"@
}

/// The type every carrying document names for the key, or nothing where they differ.
pub open spec fn one_type(carried: Seq<(Seq<char>, Seq<(String, Json)>)>) -> Seq<char> {
    let ty0 = text_field_of(carried[0].1, "ty"@);
    if forall|i: int| 0 <= i < carried.len() ==> #[trigger] text_field_of(carried[i].1, "ty"@) == ty0 {
        ty0
    } else {
        seq![]
    }
}

/// Each carrying document with each release of the images that read it.
pub open spec fn publishers_spec(docs: Seq<BoundDocument>, carried: Seq<(Seq<char>, Seq<(String, Json)>)>) -> Seq<(Seq<char>, Seq<char>)>
    decreases carried.len(),
{
    if carried.len() == 0 {
        seq![]
    } else {
        let name = carried.last().0;
        publishers_spec(docs, carried.drop_last()) + match document_named(docs, name) {
            Some(d) => strs(d.releases@).map_values(|r: Seq<char>| (name, r)),
            None => seq![],
        }
    }
}

/// The markers whose class derives a block.
pub open spec fn deriving(markers: Seq<Marker>) -> Seq<Marker> {
    markers.filter(|m: Marker| derives_spec(m.class))
}

/// What resolving a value comes to: the resolution, or the refusal.
pub enum Resolution {
    /// The value resolves: the constraint, optionality, structure, type and publishers.
    To { constraint: Option<crate::json::JsonView>, optional: bool, structured: bool, ty: Seq<char>, publishers: Seq<(Seq<char>, Seq<char>)> },
    /// The value does not, with why.
    Refused(Seq<char>),
}

/// The resolution of one value: refused where it has no deriving marker or more than one, where
/// the chart declares no documents, where no candidate document carries the key, or where the
/// carrying documents describe it differently; else the shared constraint (unless null), the
/// marker's optionality, whether every carrier calls the key structured, the type where they all
/// name the same one, and the publishers.
pub open spec fn resolve_spec(bound: Option<Seq<BoundDocument>>, shape: ShapeView, markers: Seq<Marker>) -> Resolution {
    let derived = deriving(markers);
    let at = at_spec(shape.chart, shape.line);
    if derived.len() == 0 {
        Resolution::Refused(at + ": '"@ + shape.values_path + "' carries no `"@ + crate::markers::MARKER@
            + "` marker naming the contract key it feeds, so there is              nothing to derive its schema from"@)
    } else if derived.len() > 1 {
        Resolution::Refused(at + ": '"@ + shape.values_path + "' binds "@ + join_spec(
            derived.map_values(|m: Marker| crate::quoted_spec(m.target@)),
            ", "@,
        ) + ", and a value feeding several keys has no single constraint to be              derived from"@)
    } else {
        let marker = derived[0];
        match bound {
            None => Resolution::Refused(at + ": '"@ + shape.values_path + "' binds '"@ + marker.target@
                + "', and this chart has no "@ + crate::DECLARATION@ + " naming the document that declares it"@),
            Some(docs) => {
                let key = !(marker.class is External);
                let candidates = match marker@.documents {
                    Some(scope) => scope,
                    None => document_names(docs),
                };
                let carried = carried_spec(docs, candidates, key, marker.target@);
                if carried.len() == 0 {
                    Resolution::Refused(at + ": '"@ + shape.values_path + "' binds '"@ + marker.target@
                        + "', which no contract this chart declares carries — see the bindings gate"@)
                } else {
                    let first = crate::explain::lookup(carried[0].1, "constraint"@);
                    if !agreeing(carried) {
                        Resolution::Refused(at + ": the documents this chart declares describe '"@ + marker.target@
                            + "' differently, so no one schema is derivable from them"@)
                    } else {
                        Resolution::To {
                            constraint: match first {
                                Some(Json::Null) => None,
                                Some(c) => Some(crate::json::view_of(c)),
                                None => None,
                            },
                            optional: marker.optional,
                            structured: all_structured(carried),
                            ty: one_type(carried),
                            publishers: publishers_spec(docs, carried),
                        }
                    }
                }
            },
        }
    }
}

/// A resolution, as values.
pub open spec fn resolved_view(r: Resolved) -> Resolution {
    Resolution::To {
        constraint: match r.constraint {
            Some(c) => Some(crate::json::view_of(c)),
            None => None,
        },
        optional: r.optional,
        structured: r.structured,
        ty: r.ty@,
        publishers: r.publishers@.map_values(|p: Publisher| (p.document@, p.version@)),
    }
}

/// The markers whose class derives a block, in order.
fn deriving_of(markers: &Vec<Marker>) -> (v: Vec<&Marker>)
    ensures
        v@.map_values(|m: &Marker| *m) == deriving(markers@),
{
    let ghost keep = |m: Marker| derives_spec(m.class);
    let mut v: Vec<&Marker> = Vec::new();
    let mut k: usize = 0;
    while k < markers.len()
        invariant
            k <= markers@.len(),
            keep == (|m: Marker| derives_spec(m.class)),
            v@.map_values(|m: &Marker| *m) == markers@.take(k as int).filter(keep),
        decreases markers.len() - k,
    {
        proof {
            reveal(Seq::filter);
            assert(markers@.take(k + 1).drop_last() =~= markers@.take(k as int));
            assert(markers@.take(k + 1).last() == markers@[k as int]);
        }
        let ghost before = v@.map_values(|m: &Marker| *m);
        if derives(markers[k].class) {
            v.push(&markers[k]);
            assert(v@.map_values(|m: &Marker| *m) =~= before.push(markers@[k as int]));
        }
        k = k + 1;
    }
    assert(markers@.take(markers@.len() as int) =~= markers@);
    v
}

/// The fields of the first entry of a list named `target`.
pub fn entry_named<'a>(list: &'a Vec<(String, Vec<(String, Json)>)>, target: &String) -> (r: Option<&'a Vec<(String, Json)>>)
    ensures
        match r {
            Some(f) => entry_in(list@, target@) == Some(f@),
            None => entry_in(list@, target@) is None,
        },
{
    let ghost all = list@;
    let mut k: usize = 0;
    assert(all.skip(0) =~= all);
    while k < list.len()
        invariant
            k <= all.len(),
            all == list@,
            entry_in(all, target@) == entry_in(all.skip(k as int), target@),
        decreases list.len() - k,
    {
        assert(all.skip(k as int)[0] == all[k as int]);
        assert(all.skip(k as int).drop_first() =~= all.skip(k + 1));
        if list[k].0 == *target {
            return Some(&list[k].1);
        }
        k = k + 1;
    }
    None
}

/// A field's value, where the fields hold it.
pub fn field_of<'a>(fields: &'a Vec<(String, Json)>, name: &str) -> (r: Option<&'a Json>)
    ensures
        match r {
            Some(v) => crate::explain::lookup(fields@, name@) == Some(*v),
            None => crate::explain::lookup(fields@, name@) is None,
        },
{
    let k = crate::json::field_index(fields, name);
    if k < fields.len() {
        Some(&fields[k].1)
    } else {
        None
    }
}

/// A text field, or nothing.
fn text_field_in(fields: &Vec<(String, Json)>, name: &str) -> (t: String)
    ensures
        t@ == text_field_of(fields@, name@),
{
    match field_of(fields, name) {
        Some(Json::Str(t)) => t.clone(),
        _ => String::new(),
    }
}

/// Whether two fields that may be absent hold the same value.
fn same_value(a: Option<&Json>, b: Option<&Json>) -> (r: bool)
    ensures
        r == same_field(
            match a {
                Some(x) => Some(*x),
                None => None,
            },
            match b {
                Some(x) => Some(*x),
                None => None,
            },
        ),
{
    match (a, b) {
        (None, None) => true,
        (Some(x), Some(y)) => x.same(y),
        _ => false,
    }
}

/// The candidates that carry the target, each with the fields it publishes.
fn carried_of<'a>(bound: &'a Bound, candidates: &'a Vec<String>, key: bool, target: &String) -> (c: Vec<(&'a String, &'a Vec<(String, Json)>)>)
    ensures
        c@.map_values(|p: (&String, &Vec<(String, Json)>)| (p.0@, p.1@)) == carried_spec(
            bound.documents@,
            strs(candidates@),
            key,
            target@,
        ),
{
    let ghost all = strs(candidates@);
    let mut c: Vec<(&String, &Vec<(String, Json)>)> = Vec::new();
    let mut k: usize = 0;
    while k < candidates.len()
        invariant
            k <= candidates@.len(),
            all == strs(candidates@),
            c@.map_values(|p: (&String, &Vec<(String, Json)>)| (p.0@, p.1@)) == carried_spec(
                bound.documents@,
                all.take(k as int),
                key,
                target@,
            ),
        decreases candidates.len() - k,
    {
        assert(all.take(k + 1).drop_last() =~= all.take(k as int));
        assert(all.take(k + 1).last() == candidates@[k as int]@);
        let ghost before = c@.map_values(|p: (&String, &Vec<(String, Json)>)| (p.0@, p.1@));
        match crate::bindings::document_of(bound, &candidates[k]) {
            Some(d) => {
                let list = if key {
                    &d.keys
                } else {
                    &d.env
                };
                match entry_named(list, target) {
                    Some(f) => {
                        c.push((&candidates[k], f));
                        assert(c@.map_values(|p: (&String, &Vec<(String, Json)>)| (p.0@, p.1@)) =~= before.push((candidates@[k as int]@, f@)));
                    },
                    None => {},
                }
            },
            None => {},
        }
        k = k + 1;
    }
    assert(all.take(all.len() as int) =~= all);
    c
}

/// The contract key one value feeds, resolved against every document that carries it; `None`
/// where it cannot be, with the refusal added to `problems` when `report` asks for it.
///
/// A hand transcription in a chart with no contract at all is the ordinary state of one, which
/// is why a caller may ask not to be told.
pub fn resolve(
    bound: Option<&Bound>,
    shape: &Shape,
    markers: &Vec<Marker>,
    problems: &mut Vec<String>,
    report: bool,
) -> (r: Option<Resolved>)
    ensures
        match resolve_spec(
            match bound {
                Some(b) => Some(b.documents@),
                None => None,
            },
            shape@,
            markers@,
        ) {
            Resolution::To { .. } => r matches Some(x) && resolved_view(x) == resolve_spec(
                match bound {
                    Some(b) => Some(b.documents@),
                    None => None,
                },
                shape@,
                markers@,
            ) && final(problems)@ == old(problems)@,
            Resolution::Refused(m) => r is None && strs(final(problems)@) == if report {
                strs(old(problems)@).push(m)
            } else {
                strs(old(problems)@)
            },
        },
{
    let ghost want = resolve_spec(
        match bound {
            Some(b) => Some(b.documents@),
            None => None,
        },
        shape@,
        markers@,
    );
    let ghost was = strs(problems@);
    let derived = deriving_of(markers);
    let ghost dv = derived@.map_values(|m: &Marker| *m);
    let at = shape.at();
    let mut m = chars(&at);
    push_str(&mut m, ": '");
    push_all(&mut m, &chars(&shape.values_path));
    if derived.len() == 0 {
        push_str(&mut m, "' carries no `");
        push_str(&mut m, crate::markers::MARKER);
        push_str(&mut m, "` marker naming the contract key it feeds, so there is              nothing to derive its schema from");
        if report {
            problems.push(string_of(&m));
            assert(strs(problems@) =~= was.push(m@));
        }
        return None;
    }
    if derived.len() > 1 {
        push_str(&mut m, "' binds ");
        let mut named: Vec<String> = Vec::new();
        let mut k: usize = 0;
        while k < derived.len()
            invariant
                k <= derived@.len(),
                dv == derived@.map_values(|m: &Marker| *m),
                strs(named@) == dv.take(k as int).map_values(|m: Marker| crate::quoted_spec(m.target@)),
            decreases derived.len() - k,
        {
            let ghost before = strs(named@);
            named.push(crate::quoted(derived[k].target.as_str()));
            assert(strs(named@) =~= before.push(crate::quoted_spec(dv[k as int].target@)));
            assert(dv.take(k + 1).map_values(|m: Marker| crate::quoted_spec(m.target@)) =~= dv.take(k as int).map_values(|m: Marker| crate::quoted_spec(m.target@)).push(crate::quoted_spec(dv[k as int].target@)));
            k = k + 1;
        }
        assert(dv.take(dv.len() as int) =~= dv);
        push_all(&mut m, &crate::text::join_strings(&named, ", "));
        push_str(&mut m, ", and a value feeding several keys has no single constraint to be              derived from");
        if report {
            problems.push(string_of(&m));
            assert(strs(problems@) =~= was.push(m@));
        }
        return None;
    }
    let marker = derived[0];
    assert(*marker == dv[0]);
    let bound = match bound {
        Some(b) => b,
        None => {
            push_str(&mut m, "' binds '");
            push_all(&mut m, &chars(&marker.target));
            push_str(&mut m, "', and this chart has no ");
            push_str(&mut m, crate::DECLARATION);
            push_str(&mut m, " naming the document that declares it");
            if report {
                problems.push(string_of(&m));
                assert(strs(problems@) =~= was.push(m@));
            }
            return None;
        },
    };
    let key = marker.class.targets_a_key();
    let all_names = {
        let mut names: Vec<String> = Vec::new();
        let mut k: usize = 0;
        while k < bound.documents.len()
            invariant
                k <= bound.documents@.len(),
                strs(names@) == document_names(bound.documents@).take(k as int),
            decreases bound.documents.len() - k,
        {
            let ghost before = strs(names@);
            names.push(bound.documents[k].name.clone());
            assert(strs(names@) =~= before.push(bound.documents@[k as int].name@));
            assert(document_names(bound.documents@).take(k + 1) =~= document_names(bound.documents@).take(k as int).push(bound.documents@[k as int].name@));
            k = k + 1;
        }
        assert(document_names(bound.documents@).take(bound.documents@.len() as int) =~= document_names(bound.documents@));
        names
    };
    let candidates: &Vec<String> = match &marker.documents {
        Some(scope) => scope,
        None => &all_names,
    };
    let carried = carried_of(bound, candidates, key, &marker.target);
    let ghost cv = carried@.map_values(|p: (&String, &Vec<(String, Json)>)| (p.0@, p.1@));
    let ghost spec_candidates = match marker@.documents {
        Some(scope) => scope,
        None => document_names(bound.documents@),
    };
    assert(strs(candidates@) == spec_candidates);
    assert(key == !(marker.class is External));
    assert(cv == carried_spec(bound.documents@, spec_candidates, key, marker.target@));
    if carried.len() == 0 {
        push_str(&mut m, "' binds '");
        push_all(&mut m, &chars(&marker.target));
        push_str(&mut m, "', which no contract this chart declares carries — see the bindings gate");
        if report {
            problems.push(string_of(&m));
            assert(strs(problems@) =~= was.push(m@));
        }
        return None;
    }
    assert(cv[0] == (carried@[0].0@, carried@[0].1@));
    let first = field_of(carried[0].1, "constraint");
    let mut agree = true;
    let mut structured = true;
    let ty0 = text_field_in(carried[0].1, "ty");
    let mut one_ty = true;
    let mut k: usize = 0;
    while k < carried.len()
        invariant
            k <= carried@.len(),
            carried@.len() > 0,
            cv == carried@.map_values(|p: (&String, &Vec<(String, Json)>)| (p.0@, p.1@)),
            ty0@ == text_field_of(cv[0].1, "ty"@),
            first == match crate::explain::lookup(cv[0].1, "constraint"@) { Some(v) => Some(&v), None => None::<&Json> },
            agree == forall|i: int| 0 <= i < k ==> same_field(#[trigger] crate::explain::lookup(cv[i].1, "constraint"@), crate::explain::lookup(cv[0].1, "constraint"@)),
            structured == forall|i: int| 0 <= i < k ==> #[trigger] text_field_of(cv[i].1, "text_form"@) == "structured"@,
            one_ty == forall|i: int| 0 <= i < k ==> #[trigger] text_field_of(cv[i].1, "ty"@) == ty0@,
        decreases carried.len() - k,
    {
        assert(cv[k as int] == (carried@[k as int].0@, carried@[k as int].1@));
        let here = field_of(carried[k].1, "constraint");
        let same = same_value(here, first);
        let form = text_field_in(carried[k].1, "text_form");
        let formed = crate::text::same(&chars(&form), &chars_of("structured"));
        let t = text_field_in(carried[k].1, "ty");
        let typed = t == ty0;
        proof {
            let c0 = crate::explain::lookup(cv[0].1, "constraint"@);
            assert(same == same_field(crate::explain::lookup(cv[k as int].1, "constraint"@), c0));
            assert((agree && same) == forall|i: int| 0 <= i < k + 1 ==> same_field(#[trigger] crate::explain::lookup(cv[i].1, "constraint"@), c0)) by {
                if agree && same {
                    assert forall|i: int| 0 <= i < k + 1 implies same_field(#[trigger] crate::explain::lookup(cv[i].1, "constraint"@), c0) by {
                        if i < k {
                        }
                    }
                }
                if forall|i: int| 0 <= i < k + 1 ==> same_field(#[trigger] crate::explain::lookup(cv[i].1, "constraint"@), c0) {
                    assert(same_field(crate::explain::lookup(cv[k as int].1, "constraint"@), c0));
                }
            }
            assert((structured && formed) == forall|i: int| 0 <= i < k + 1 ==> #[trigger] text_field_of(cv[i].1, "text_form"@) == "structured"@) by {
                if structured && formed {
                    assert forall|i: int| 0 <= i < k + 1 implies #[trigger] text_field_of(cv[i].1, "text_form"@) == "structured"@ by {
                        if i < k {
                        }
                    }
                }
                if forall|i: int| 0 <= i < k + 1 ==> #[trigger] text_field_of(cv[i].1, "text_form"@) == "structured"@ {
                    assert(text_field_of(cv[k as int].1, "text_form"@) == "structured"@);
                }
            }
            assert((one_ty && typed) == forall|i: int| 0 <= i < k + 1 ==> #[trigger] text_field_of(cv[i].1, "ty"@) == ty0@) by {
                if one_ty && typed {
                    assert forall|i: int| 0 <= i < k + 1 implies #[trigger] text_field_of(cv[i].1, "ty"@) == ty0@ by {
                        if i < k {
                        }
                    }
                }
                if forall|i: int| 0 <= i < k + 1 ==> #[trigger] text_field_of(cv[i].1, "ty"@) == ty0@ {
                    assert(text_field_of(cv[k as int].1, "ty"@) == ty0@);
                }
            }
        }
        agree = agree && same;
        structured = structured && formed;
        one_ty = one_ty && typed;
        k = k + 1;
    }
    assert(agreeing(cv) == agree);
    if !agree {
        let mut m = chars(&at);
        push_str(&mut m, ": the documents this chart declares describe '");
        push_all(&mut m, &chars(&marker.target));
        push_str(&mut m, "' differently, so no one schema is derivable from them");
        if report {
            problems.push(string_of(&m));
            assert(strs(problems@) =~= was.push(m@));
        }
        return None;
    }
    let ghost docs = bound.documents@;
    let mut publishers: Vec<Publisher> = Vec::new();
    let mut k: usize = 0;
    while k < carried.len()
        invariant
            k <= carried@.len(),
            docs == bound.documents@,
            cv == carried@.map_values(|p: (&String, &Vec<(String, Json)>)| (p.0@, p.1@)),
            publishers@.map_values(|p: Publisher| (p.document@, p.version@)) == publishers_spec(docs, cv.take(k as int)),
        decreases carried.len() - k,
    {
        assert(cv.take(k + 1).drop_last() =~= cv.take(k as int));
        assert(cv.take(k + 1).last() == (carried@[k as int].0@, carried@[k as int].1@));
        let name = carried[k].0;
        let ghost base = publishers@.map_values(|p: Publisher| (p.document@, p.version@));
        match crate::bindings::document_of(bound, name) {
            Some(d) => {
                let mut j: usize = 0;
                while j < d.releases.len()
                    invariant
                        j <= d.releases@.len(),
                        publishers@.map_values(|p: Publisher| (p.document@, p.version@)) == base + strs(d.releases@).take(j as int).map_values(|r: Seq<char>| (name@, r)),
                    decreases d.releases.len() - j,
                {
                    let ghost before = publishers@.map_values(|p: Publisher| (p.document@, p.version@));
                    publishers.push(Publisher { document: name.clone(), version: d.releases[j].clone() });
                    assert(publishers@.map_values(|p: Publisher| (p.document@, p.version@)) =~= before.push((name@, d.releases@[j as int]@)));
                    assert(strs(d.releases@).take(j + 1).map_values(|r: Seq<char>| (name@, r)) =~= strs(d.releases@).take(j as int).map_values(|r: Seq<char>| (name@, r)).push((name@, d.releases@[j as int]@)));
                    j = j + 1;
                }
                assert(strs(d.releases@).take(d.releases@.len() as int) =~= strs(d.releases@));
            },
            None => {
                assert(publishers@.map_values(|p: Publisher| (p.document@, p.version@)) =~= base + Seq::<(Seq<char>, Seq<char>)>::empty());
            },
        }
        k = k + 1;
    }
    assert(cv.take(cv.len() as int) =~= cv);
    let constraint = match first {
        Some(Json::Null) => None,
        Some(c) => Some(c.copy()),
        None => None,
    };
    proof {
        reveal_strlit("structured");
    }
    let resolved = Resolved {
        constraint,
        optional: marker.optional,
        structured,
        ty: if one_ty { ty0 } else { String::new() },
        publishers,
    };
    proof {
        let c0 = crate::explain::lookup(cv[0].1, "constraint"@);
        assert(forall|i: int| 0 <= i < cv.len() ==> same_field(#[trigger] crate::explain::lookup(cv[i].1, "constraint"@), c0));
        assert(publishers_spec(docs, cv) == resolved_view(resolved)->publishers);
    }
    let ghost rv = resolved_view(resolved);
    proof {
        let sc = carried_spec(bound.documents@, spec_candidates, key, marker.target@);
        assert(sc == cv);
        if structured {
            assert forall|i: int| 0 <= i < sc.len() implies #[trigger] text_field_of(sc[i].1, "text_form"@) == "structured"@ by {
                assert(text_field_of(cv[i].1, "text_form"@) == "structured"@);
            }
        } else {
            let w = choose|i: int| 0 <= i < cv.len() && !(#[trigger] text_field_of(cv[i].1, "text_form"@) == "structured"@);
            assert(text_field_of(sc[w].1, "text_form"@) != "structured"@);
        }
        if one_ty {
            assert forall|i: int| 0 <= i < sc.len() implies #[trigger] text_field_of(sc[i].1, "ty"@) == text_field_of(sc[0].1, "ty"@) by {
                assert(text_field_of(cv[i].1, "ty"@) == ty0@);
            }
        } else {
            let w = choose|i: int| 0 <= i < cv.len() && !(#[trigger] text_field_of(cv[i].1, "ty"@) == ty0@);
            assert(text_field_of(sc[w].1, "ty"@) != text_field_of(sc[0].1, "ty"@));
        }
    }
    assert(deriving(markers@).len() == 1);
    assert(deriving(markers@)[0] == *marker);
    assert(want is To);
    assert(rv->To_optional == want->To_optional);
    assert(all_structured(cv) == structured);
    assert(one_type(cv) == resolved.ty@);
    assert(rv->To_structured == want->To_structured);
    assert(rv->To_ty == want->To_ty);
    assert(rv->To_publishers == want->To_publishers);
    assert(rv->To_constraint == want->To_constraint);
    assert(resolved_view(resolved) == want);
    Some(resolved)
}


// ------------------------------------------------------------------------------------------
// The publisher a transcription is held against
// ------------------------------------------------------------------------------------------

/// Among the first `n` publishers, the one whose release orders last, the later of two that
/// order alike.
pub open spec fn newest_index(publishers: Seq<(Seq<char>, Seq<char>)>, n: int) -> int
    decreases n,
{
    if n <= 1 {
        0
    } else {
        let best = newest_index(publishers, n - 1);
        if lex_lt(ordinal_spec(publishers[n - 1].1), ordinal_spec(publishers[best].1)) {
            best
        } else {
            n - 1
        }
    }
}

/// The release of the newest publisher, or nothing where there is none.
pub open spec fn newest_spec(publishers: Seq<(Seq<char>, Seq<char>)>) -> Seq<char> {
    if publishers.len() == 0 {
        seq![]
    } else {
        publishers[newest_index(publishers, publishers.len() as int)].1
    }
}

proof fn lemma_newest_index(publishers: Seq<(Seq<char>, Seq<char>)>, n: int)
    requires
        1 <= n <= publishers.len(),
    ensures
        0 <= newest_index(publishers, n) < n,
    decreases n,
{
    if n > 1 {
        lemma_newest_index(publishers, n - 1);
    }
}

impl Resolved {
    /// The release a transcription of this key is held against: the newest release of any image
    /// that publishes it, the later of two that order alike, or nothing where none does.
    pub fn newest(&self) -> (s: &str)
        ensures
            s@ == newest_spec(self.publishers@.map_values(|p: Publisher| (p.document@, p.version@))),
    {
        let ghost ps = self.publishers@.map_values(|p: Publisher| (p.document@, p.version@));
        if self.publishers.len() == 0 {
            proof {
                reveal_strlit("");
            }
            return "";
        }
        let mut best: usize = 0;
        let mut best_ord = ordinal(self.publishers[0].version.as_str());
        let mut i: usize = 1;
        while i < self.publishers.len()
            invariant
                1 <= i <= self.publishers@.len(),
                ps == self.publishers@.map_values(|p: Publisher| (p.document@, p.version@)),
                best as int == newest_index(ps, i as int),
                best < i,
                best_ord@ == ordinal_spec(ps[best as int].1),
            decreases self.publishers.len() - i,
        {
            let here = ordinal(self.publishers[i].version.as_str());
            assert(ps[i as int].1 == self.publishers@[i as int].version@);
            if !less_than(&here, &best_ord) {
                best = i;
                best_ord = here;
            }
            i = i + 1;
        }
        assert(ps[best as int].1 == self.publishers@[best as int].version@);
        self.publishers[best].version.as_str()
    }
}

/// Whether the contract now describes a key that was transcribed by hand: the element of a
/// container where it was structured, the key itself where it was not.
pub open spec fn superseded_spec(r: Resolution) -> bool {
    match r {
        Resolution::To { constraint, structured, .. } => if structured {
            crate::schema::element_spec(constraint) is Some
        } else {
            crate::schema::describing_spec(constraint)
        },
        Resolution::Refused(_) => false,
    }
}

/// Whether the contract now describes a key that was transcribed by hand.
pub fn superseded(resolved: &Resolved) -> (b: bool)
    ensures
        b == superseded_spec(resolved_view(*resolved)),
{
    if resolved.structured {
        crate::schema::describes_element(resolved.constraint.as_ref())
    } else {
        crate::schema::describing(resolved.constraint.as_ref())
    }
}

/// A block, copied field by field.
fn copy_block(b: &Block) -> (c: Block)
    ensures
        c@ == b@,
{
    let mut lines: Vec<String> = Vec::new();
    let mut k: usize = 0;
    while k < b.lines.len()
        invariant
            k <= b.lines@.len(),
            strs(lines@) == strs(b.lines@).take(k as int),
        decreases b.lines.len() - k,
    {
        let ghost before = strs(lines@);
        lines.push(b.lines[k].clone());
        assert(strs(lines@) =~= before.push(b.lines@[k as int]@));
        assert(strs(b.lines@).take(k + 1) =~= strs(b.lines@).take(k as int).push(b.lines@[k as int]@));
        k = k + 1;
    }
    assert(strs(b.lines@).take(b.lines@.len() as int) =~= strs(b.lines@));
    Block {
        chart: b.chart.clone(),
        values_path: b.values_path.clone(),
        start: b.start,
        end: b.end,
        indent: b.indent,
        lines,
    }
}

// ------------------------------------------------------------------------------------------
// The walk over one chart
// ------------------------------------------------------------------------------------------

/// One chart's shape markers, resolved against its contracts.
///
/// Everything that can fail before a single block is looked at has failed by the time one is
/// built, with the chart named once. The keyed fields hold one entry per key, in key order, as a
/// sorted map holds them.
pub struct Chart {
    /// The chart's directory name.
    pub name: String,
    /// The values file, verbatim.
    pub text: String,
    /// Everything found wrong, in the order it was found.
    pub problems: Vec<String>,
    /// The values whose block the chart owns.
    pub transcribed: Vec<Shape>,
    /// The declared departures from a generated block.
    pub divergences: Vec<Divergence>,
    /// Every `@schema` block, by the value it belongs to.
    pub blocks: Vec<(String, Block)>,
    /// What each block's schema half reads as, by the value it belongs to: the mapping, or why
    /// it is not one.
    pub schemas: Vec<(String, Result<Json, String>)>,
    /// Every binding marker, by the value it was written in.
    pub markers: Vec<(String, Vec<Marker>)>,
    /// The chart's documents, resolved to their contracts.
    pub bound: Option<Bound>,
    /// The chart's own `appVersion`, for a transcription no contract carries.
    pub app_version: String,
    /// Every shape: the generated ones, then the transcribed.
    pub shapes: Vec<Shape>,
}

/// Whether two charts differ in nothing but their problems.
pub open spec fn same_but_problems(a: Chart, b: Chart) -> bool {
    &&& a.name == b.name
    &&& a.text == b.text
    &&& a.transcribed == b.transcribed
    &&& a.divergences == b.divergences
    &&& a.blocks == b.blocks
    &&& a.schemas == b.schemas
    &&& a.markers == b.markers
    &&& a.bound == b.bound
    &&& a.app_version == b.app_version
    &&& a.shapes == b.shapes
}

/// Whether a line breaks the comment run between a marker and its block: anything but a blank
/// line or a comment does.
pub open spec fn interrupts(line: Seq<char>) -> bool {
    trim_spec(line).len() > 0 && !(trim_start_spec(line).len() > 0 && trim_start_spec(line)[0] == '#')
}

/// Whether any line of a run breaks it.
pub open spec fn interrupted_run(run: Seq<Seq<char>>) -> bool {
    exists|i: int| 0 <= i < run.len() && interrupts(#[trigger] run[i])
}

/// The lines numbered `from + 1 ..= to`, or none where that is not a range of the file.
pub open spec fn line_range(ls: Seq<Seq<char>>, from: nat, to: nat) -> Seq<Seq<char>> {
    if from <= to && to <= ls.len() {
        ls.subrange(from as int, to as int)
    } else {
        seq![]
    }
}

/// The block a shape describes, or why it has none: a value with no `@schema` block, or a
/// declared shape whose marker is not in the comment run directly above its block.
pub open spec fn block_for_spec(text: Seq<char>, blocks: Seq<(Seq<char>, BlockView)>, shape: ShapeView) -> Result<
    BlockView,
    Seq<char>,
> {
    let at = at_spec(shape.chart, shape.line);
    match block_lookup(blocks, shape.values_path) {
        None => Err(at + ": names '"@ + shape.values_path + "', which has no `@schema` block for this marker to describe"@),
        Some(b) => if !shape.declared {
            Ok(b)
        } else {
            let run = line_range(lines_spec(text), shape.line, if b.start >= 1 { (b.start - 1) as nat } else { 0 });
            if shape.line >= b.start || interrupted_run(run) {
                Err(at + ": sits away from the `@schema` block for '"@ + shape.values_path + "' on line "@ + decimal(b.start)
                    + ". A marker is read next to the thing it describes or it is not read at all; write it in the comment run directly above the block"@)
            } else {
                Ok(b)
            }
        },
    }
}

/// The binding markers written in one value, or none.
pub open spec fn markers_in(groups: Seq<(String, Vec<Marker>)>, key: Seq<char>) -> Seq<Marker>
    decreases groups.len(),
{
    if groups.len() == 0 {
        seq![]
    } else if groups[0].0@ == key {
        groups[0].1@
    } else {
        markers_in(groups.drop_first(), key)
    }
}

/// A chart's documents, as values.
pub open spec fn bound_documents(bound: Option<Bound>) -> Option<Seq<BoundDocument>> {
    match bound {
        Some(b) => Some(b.documents@),
        None => None,
    }
}

fn markers_at<'a>(groups: &'a Vec<(String, Vec<Marker>)>, key: &String) -> (r: Option<&'a Vec<Marker>>)
    ensures
        match r {
            Some(v) => v@ == markers_in(groups@, key@),
            None => markers_in(groups@, key@) == Seq::<Marker>::empty(),
        },
{
    let mut i: usize = 0;
    assert(groups@.skip(0) == groups@);
    while i < groups.len()
        invariant
            i <= groups@.len(),
            markers_in(groups@, key@) == markers_in(groups@.skip(i as int), key@),
        decreases groups.len() - i,
    {
        assert(groups@.skip(i as int)[0] == groups@[i as int]);
        assert(groups@.skip(i as int).drop_first() == groups@.skip(i + 1));
        if groups[i].0 == *key {
            return Some(&groups[i].1);
        }
        i = i + 1;
    }
    None
}

fn interrupting(line: &[char]) -> (b: bool)
    ensures
        b == interrupts(line@),
{
    let t = trim(line);
    let s = trim_start(line);
    t.len() > 0 && !(s.len() > 0 && s[0] == '#')
}

impl Chart {
    /// The `@schema` block one shape describes, refusing a marker that is not directly above it.
    ///
    /// A generated shape is not declared anywhere, so there is nothing to place: it is the block.
    pub fn block_for(&mut self, shape: &Shape) -> (r: Option<Block>)
        ensures
            same_but_problems(*final(self), *old(self)),
            match block_for_spec(old(self).text@, block_pairs(old(self).blocks@), shape@) {
                Ok(b) => r matches Some(x) && x@ == b && final(self).problems@ == old(self).problems@,
                Err(m) => r is None && strs(final(self).problems@) == strs(old(self).problems@).push(m),
            },
    {
        let ghost was = strs(self.problems@);
        let at = shape.at();
        let found = find_block(&self.blocks, &shape.values_path);
        let i = match found {
            Some(i) => i,
            None => {
                let mut m = chars(&at);
                push_str(&mut m, ": names '");
                push_all(&mut m, &chars(&shape.values_path));
                push_str(&mut m, "', which has no `@schema` block for this marker to describe");
                self.problems.push(string_of(&m));
                assert(strs(self.problems@) =~= was.push(m@));
                return None;
            },
        };
        let block = copy_block(&self.blocks[i].1);
        assert(block@ == block_pairs(self.blocks@)[i as int].1);
        if !shape.declared {
            return Some(block);
        }
        let ls = lines(&chars(&self.text));
        let ghost lv = views(ls@);
        assert(lv == lines_spec(self.text@));
        let to: usize = if block.start >= 1 { block.start - 1 } else { 0 };
        let ghost run = line_range(lv, shape.line as nat, to as nat);
        let mut interrupted = false;
        if shape.line <= to && to <= ls.len() {
            let mut k: usize = shape.line;
            while k < to
                invariant
                    shape.line <= k <= to <= ls@.len(),
                    lv == views(ls@),
                    run == lv.subrange(shape.line as int, to as int),
                    interrupted == exists|j: int| 0 <= j < k - shape.line && interrupts(#[trigger] run[j]),
                decreases to - k,
            {
                assert(run[k - shape.line] == ls@[k as int]@);
                if interrupting(&ls[k]) {
                    interrupted = true;
                }
                k = k + 1;
            }
            assert(interrupted == exists|j: int| 0 <= j < run.len() && interrupts(#[trigger] run[j]));
        } else {
            assert(run.len() == 0);
        }
        if shape.line >= block.start || interrupted {
            let mut m = chars(&at);
            push_str(&mut m, ": sits away from the `@schema` block for '");
            push_all(&mut m, &chars(&shape.values_path));
            push_str(&mut m, "' on line ");
            push_all(&mut m, &crate::text::decimal_of(block.start as u64));
            push_str(&mut m, ". A marker is read next to the thing it describes or it is not read at all; write it in the comment run directly above the block");
            assert(block_for_spec(self.text@, block_pairs(self.blocks@), shape@) == Err::<BlockView, Seq<char>>(m@));
            self.problems.push(string_of(&m));
            assert(strs(self.problems@) =~= was.push(m@));
            return None;
        }
        Some(block)
    }

    /// The contract key one value feeds, with a refusal added to the problems when `report` asks.
    pub fn constraint_for(&mut self, shape: &Shape, report: bool) -> (r: Option<Resolved>)
        ensures
            same_but_problems(*final(self), *old(self)),
            match resolve_spec(bound_documents(old(self).bound), shape@, markers_in(old(self).markers@, shape@.values_path)) {
                Resolution::To { .. } => r matches Some(x) && resolved_view(x) == resolve_spec(
                    bound_documents(old(self).bound),
                    shape@,
                    markers_in(old(self).markers@, shape@.values_path),
                ) && final(self).problems@ == old(self).problems@,
                Resolution::Refused(m) => r is None && strs(final(self).problems@) == if report {
                    strs(old(self).problems@).push(m)
                } else {
                    strs(old(self).problems@)
                },
            },
    {
        let empty: Vec<Marker> = Vec::new();
        let markers = match markers_at(&self.markers, &shape.values_path) {
            Some(v) => v,
            None => &empty,
        };
        let mut problems: Vec<String> = Vec::new();
        let resolved = resolve(self.bound.as_ref(), shape, markers, &mut problems, report);
        let ghost before = self.problems@;
        let ghost start = *self;
        let mut k: usize = 0;
        while k < problems.len()
            invariant
                k <= problems@.len(),
                same_but_problems(*self, start),
                self.problems@ == before + problems@.take(k as int),
            decreases problems.len() - k,
        {
            self.problems.push(problems[k].clone());
            assert(before + problems@.take(k + 1) =~= (before + problems@.take(k as int)).push(problems@[k as int]));
            k = k + 1;
        }
        assert(problems@.take(problems@.len() as int) =~= problems@);
        assert(strs(self.problems@) =~= strs(before) + strs(problems@));
        resolved
    }
}


/// The file a marker asking for a transcription should name: the type the documents agree on
/// where it is one plain name, else a placeholder.
pub open spec fn source_of(ty: Seq<char>) -> Seq<char> {
    if ty.len() > 0 && !ty.contains(' ') && !ty.contains(',') {
        ty
    } else {
        "<source>"@
    }
}

/// The release a marker asking for a transcription should record: the newest image publishing
/// the key, else the chart's own, else a placeholder.
pub open spec fn version_of(newest: Seq<char>, app_version: Seq<char>) -> Seq<char> {
    if newest.len() > 0 {
        newest
    } else if app_version.len() > 0 {
        app_version
    } else {
        "<version>"@
    }
}

/// The marker that would declare a transcription of one value.
pub open spec fn declare_hint(values_path: Seq<char>, version: Seq<char>, source: Seq<char>) -> Seq<char> {
    "`"@ + SHAPE_MARKER@ + " "@ + values_path + " "@ + HANDWRITTEN@ + " "@ + version + " "@ + source + "`"@
}

/// What one block's schema half reads as, by value; the empty mapping where nothing is recorded.
pub open spec fn schema_in(schemas: Seq<(String, Result<Json, String>)>, key: Seq<char>) -> Result<
    crate::json::JsonView,
    Seq<char>,
>
    decreases schemas.len(),
{
    if schemas.len() == 0 {
        Ok(crate::json::JsonView::Object(seq![]))
    } else if schemas[0].0@ == key {
        match schemas[0].1 {
            Ok(j) => Ok(crate::json::view_of(j)),
            Err(e) => Err(e@),
        }
    } else {
        schema_in(schemas.drop_first(), key)
    }
}

/// The departures declared for one value, in order.
pub open spec fn departures_for(divergences: Seq<Divergence>, key: Seq<char>) -> Seq<DivergenceView> {
    divergences.map_values(|d: Divergence| d@).filter(|d: DivergenceView| d.values_path == key)
}

/// The lines one generated block's schema half should carry, or `None`, with the problems found
/// on the way: no block for the shape, a value that does not resolve, a contract that describes
/// no element of a container or nothing at all, a block that does not read as a mapping, or a
/// departure that does not apply.
pub open spec fn target_spec(c: Chart, shape: ShapeView) -> (Option<Seq<Seq<char>>>, Seq<Seq<char>>) {
    let at = at_spec(shape.chart, shape.line);
    match block_for_spec(c.text@, block_pairs(c.blocks@), shape) {
        Err(m) => (None, seq![m]),
        Ok(b) => match resolve_spec(bound_documents(c.bound), shape, markers_in(c.markers@, shape.values_path)) {
            Resolution::Refused(m) => (None, seq![m]),
            Resolution::To { constraint, optional, structured, ty, publishers } => {
                let version = version_of(newest_spec(publishers), c.app_version@);
                let hint = declare_hint(shape.values_path, version, source_of(ty));
                if structured && !(crate::schema::element_spec(constraint) is Some) {
                    (None, seq![at + ": the contract describes '"@ + shape.values_path
                        + "' as a container and says nothing about what one element holds, so a generated block would type-check nothing. Transcribe it and declare "@
                        + hint + " until the image publishes the element"@])
                } else if !crate::schema::describing_spec(constraint) {
                    (None, seq![at + ": the contract publishes no constraint for '"@ + shape.values_path
                        + "', so a generated block would accept every JSON type and check nothing. Transcribe it and declare "@
                        + hint + ", which is held against the version it was read at"@])
                } else {
                    match schema_in(c.schemas@, shape.values_path) {
                        Err(f) => (None, seq![at + ": "@ + f]),
                        Ok(present) => {
                            let mine = departures_for(c.divergences@, shape.values_path);
                            let (result, added, problems) = crate::schema::departed(
                                crate::schema::expected_spec(constraint, optional, structured),
                                present,
                                mine,
                                mine.len(),
                            );
                            if problems.len() > 0 {
                                (None, problems)
                            } else {
                                (Some(crate::schema::render_spec(crate::schema::settle_spec(result), b.indent, added)), seq![])
                            }
                        },
                    }
                }
            },
        },
    }
}

fn schema_at<'a>(schemas: &'a Vec<(String, Result<Json, String>)>, key: &String) -> (r: Option<&'a Result<Json, String>>)
    ensures
        match r {
            Some(x) => schema_in(schemas@, key@) == match *x {
                Ok(j) => Ok::<crate::json::JsonView, Seq<char>>(crate::json::view_of(j)),
                Err(e) => Err::<crate::json::JsonView, Seq<char>>(e@),
            },
            None => schema_in(schemas@, key@) == Ok::<crate::json::JsonView, Seq<char>>(crate::json::JsonView::Object(seq![])),
        },
{
    let mut i: usize = 0;
    assert(schemas@.skip(0) == schemas@);
    while i < schemas.len()
        invariant
            i <= schemas@.len(),
            schema_in(schemas@, key@) == schema_in(schemas@.skip(i as int), key@),
        decreases schemas.len() - i,
    {
        assert(schemas@.skip(i as int)[0] == schemas@[i as int]);
        assert(schemas@.skip(i as int).drop_first() == schemas@.skip(i + 1));
        if schemas[i].0 == *key {
            return Some(&schemas[i].1);
        }
        i = i + 1;
    }
    None
}

fn departures_of<'a>(divergences: &'a Vec<Divergence>, key: &String) -> (v: Vec<&'a Divergence>)
    ensures
        crate::schema::departures_view(v@) == departures_for(divergences@, key@),
{
    let ghost all = divergences@.map_values(|d: Divergence| d@);
    let ghost keep = |d: DivergenceView| d.values_path == key@;
    let mut v: Vec<&Divergence> = Vec::new();
    let mut k: usize = 0;
    while k < divergences.len()
        invariant
            k <= divergences@.len(),
            all == divergences@.map_values(|d: Divergence| d@),
            keep == (|d: DivergenceView| d.values_path == key@),
            crate::schema::departures_view(v@) == all.take(k as int).filter(keep),
        decreases divergences.len() - k,
    {
        let ghost before = crate::schema::departures_view(v@);
        proof {
            reveal(Seq::filter);
            assert(all.take(k + 1).drop_last() =~= all.take(k as int));
            assert(all.take(k + 1).last() == divergences@[k as int]@);
        }
        if divergences[k].values_path == *key {
            v.push(&divergences[k]);
            assert(crate::schema::departures_view(v@) =~= before.push(divergences@[k as int]@));
        }
        k = k + 1;
    }
    assert(all.take(divergences@.len() as int) =~= all);
    v
}

fn push_lit(m: &mut Vec<char>, s: &str)
    ensures
        final(m)@ == old(m)@ + s@,
{
    push_str(m, s);
}

impl Chart {
    /// The lines one generated block's schema half should carry, or `None` on a problem, which
    /// is added to the chart's problems.
    #[verifier::rlimit(100)]
    #[verifier::spinoff_prover]
    pub fn target(&mut self, shape: &Shape) -> (r: Option<Vec<String>>)
        ensures
            same_but_problems(*final(self), *old(self)),
            ({
                let (lines, problems) = target_spec(*old(self), shape@);
                &&& strs(final(self).problems@) == strs(old(self).problems@) + problems
                &&& match lines {
                    Some(ls) => r matches Some(v) && strs(v@) == ls,
                    None => r is None,
                }
            }),
    {
        let ghost old_self = *self;
        let ghost was = strs(self.problems@);
        let ghost want = target_spec(*self, shape@);
        let block = match self.block_for(shape) {
            Some(b) => b,
            None => {
                assert(strs(self.problems@) =~= was + want.1);
                return None;
            },
        };
        let resolved = match self.constraint_for(shape, true) {
            Some(x) => x,
            None => {
                assert(strs(self.problems@) =~= was + want.1);
                return None;
            },
        };
        let at = shape.at();
        let ty = chars(&resolved.ty);
        let source = if ty.len() > 0 && !crate::text::contains_char(&ty, ' ') && !crate::text::contains_char(&ty, ',') {
            ty
        } else {
            chars_of("<source>")
        };
        let newest = chars_of(resolved.newest());
        let own = chars(&self.app_version);
        let version = if newest.len() > 0 {
            newest
        } else if own.len() > 0 {
            own
        } else {
            chars_of("<version>")
        };
        let mut hint = chars_of("`");
        push_lit(&mut hint, SHAPE_MARKER);
        push_lit(&mut hint, " ");
        push_all(&mut hint, &chars(&shape.values_path));
        push_lit(&mut hint, " ");
        push_lit(&mut hint, HANDWRITTEN);
        push_lit(&mut hint, " ");
        push_all(&mut hint, &version);
        push_lit(&mut hint, " ");
        push_all(&mut hint, &source);
        push_lit(&mut hint, "`");
        if resolved.structured && !crate::schema::describes_element(resolved.constraint.as_ref()) {
            let mut m = chars(&at);
            push_lit(&mut m, ": the contract describes '");
            push_all(&mut m, &chars(&shape.values_path));
            push_lit(&mut m, "' as a container and says nothing about what one element holds, so a generated block would type-check nothing. Transcribe it and declare ");
            push_all(&mut m, &hint);
            push_lit(&mut m, " until the image publishes the element");
            self.problems.push(string_of(&m));
            assert(strs(self.problems@) =~= was + want.1);
            return None;
        }
        if !crate::schema::describing(resolved.constraint.as_ref()) {
            let mut m = chars(&at);
            push_lit(&mut m, ": the contract publishes no constraint for '");
            push_all(&mut m, &chars(&shape.values_path));
            push_lit(&mut m, "', so a generated block would accept every JSON type and check nothing. Transcribe it and declare ");
            push_all(&mut m, &hint);
            push_lit(&mut m, ", which is held against the version it was read at");
            self.problems.push(string_of(&m));
            assert(strs(self.problems@) =~= was + want.1);
            return None;
        }
        let wanted = crate::schema::expected(resolved.constraint.as_ref(), resolved.optional, resolved.structured);
        let no_fields: Vec<(String, Json)> = Vec::new();
        proof {
            crate::json::lemma_fields_view(no_fields@, 0);
        }
        let empty = Json::Object(no_fields);
        assert(crate::json::view_of(empty) == crate::json::JsonView::Object(seq![]));
        let present = match schema_at(&self.schemas, &shape.values_path) {
            Some(Ok(j)) => j,
            Some(Err(failure)) => {
                let mut m = chars(&at);
                push_lit(&mut m, ": ");
                push_all(&mut m, &chars(failure));
                self.problems.push(string_of(&m));
                assert(strs(self.problems@) =~= was + want.1);
                return None;
            },
            None => &empty,
        };
        let mine = departures_of(&self.divergences, &shape.values_path);
        let (settled, added, problems) = crate::schema::apply_divergences(&wanted, present, &mine);
        if problems.len() > 0 {
            let ghost before = self.problems@;
            let ghost start = *self;
            let mut k: usize = 0;
            while k < problems.len()
                invariant
                    k <= problems@.len(),
                    same_but_problems(*self, start),
                    self.problems@ == before + problems@.take(k as int),
                decreases problems.len() - k,
            {
                self.problems.push(problems[k].clone());
                assert(before + problems@.take(k + 1) =~= (before + problems@.take(k as int)).push(problems@[k as int]));
                k = k + 1;
            }
            assert(problems@.take(problems@.len() as int) =~= problems@);
            assert(strs(self.problems@) =~= was + want.1);
            return None;
        }
        let lines = crate::schema::render(&settled, block.indent, &added);
        assert(strs(self.problems@) =~= was + want.1);
        Some(lines)
    }
}


/// A shape, copied field by field.
fn copy_shape(s: &Shape) -> (c: Shape)
    ensures
        c@ == s@,
{
    Shape {
        chart: s.chart.clone(),
        line: s.line,
        values_path: s.values_path.clone(),
        handwritten: s.handwritten,
        version: match &s.version {
            Some(v) => Some(v.clone()),
            None => None,
        },
        source: match &s.source {
            Some(v) => Some(v.clone()),
            None => None,
        },
        declared: s.declared,
    }
}

/// Whether two runs of lines are the same text.
fn same_lines(a: &Vec<String>, b: &Vec<String>) -> (r: bool)
    ensures
        r == (strs(a@) == strs(b@)),
{
    if a.len() != b.len() {
        proof {
            if strs(a@) == strs(b@) {
                assert(strs(a@).len() == strs(b@).len());
            }
        }
        return false;
    }
    let mut k: usize = 0;
    while k < a.len()
        invariant
            k <= a@.len(),
            a@.len() == b@.len(),
            forall|j: int| 0 <= j < k ==> #[trigger] a@[j]@ == b@[j]@,
        decreases a.len() - k,
    {
        if a[k] != b[k] {
            proof {
                if strs(a@) == strs(b@) {
                    assert(strs(a@)[k as int] == strs(b@)[k as int]);
                }
            }
            return false;
        }
        k = k + 1;
    }
    assert(strs(a@) =~= strs(b@));
    true
}

/// The message for a generated block that is not what its contract describes.
pub open spec fn drift_message(s: ShapeView, current: Seq<Seq<char>>, target: Seq<Seq<char>>) -> Seq<char> {
    at_spec(s.chart, s.line) + ": the `@schema` block for '"@ + s.values_path
        + "' is not what its contract describes; regenerate it\n"@ + difference_spec(current, target)
}

/// What checking one generated shape finds: whatever stopped its target being worked out, or,
/// where it was, the block's schema half that differs from it, compared as text.
pub open spec fn drift_of(c: Chart, s: ShapeView) -> Seq<Seq<char>> {
    let (t, ps) = target_spec(c, s);
    ps + match t {
        Some(ls) => match block_lookup(block_pairs(c.blocks@), s.values_path) {
            Some(b) => {
                let current = split_block_spec(crate::markers::content_spec(b.lines)).1;
                if current == ls {
                    seq![]
                } else {
                    seq![drift_message(s, current, ls)]
                }
            },
            None => seq![],
        },
        None => seq![],
    }
}

/// What checking every generated shape among `shapes` finds, in order.
pub open spec fn check_problems(c: Chart, shapes: Seq<ShapeView>) -> Seq<Seq<char>>
    decreases shapes.len(),
{
    if shapes.len() == 0 {
        seq![]
    } else {
        check_problems(c, shapes.drop_last()) + if shapes.last().handwritten {
            seq![]
        } else {
            drift_of(c, shapes.last())
        }
    }
}

/// Every generated block against what its contract calls for, reported onto the chart.
///
/// Compared as text rather than as meaning, as the writer compares: a block that differs only in
/// quoting is still one a regeneration would rewrite.
pub fn check(chart: &mut Chart)
    ensures
        same_but_problems(*final(chart), *old(chart)),
        strs(final(chart).problems@) == strs(old(chart).problems@) + check_problems(
            *old(chart),
            shapes_view(old(chart).shapes@),
        ),
{
    let ghost start = *chart;
    let ghost all = shapes_view(chart.shapes@);
    let mut k: usize = 0;
    while k < chart.shapes.len()
        invariant
            k <= all.len(),
            same_but_problems(*chart, start),
            all == shapes_view(chart.shapes@),
            strs(chart.problems@) == strs(start.problems@) + check_problems(start, all.take(k as int)),
        decreases all.len() - k,
    {
        proof {
            assert(all.take(k + 1).drop_last() =~= all.take(k as int));
            assert(all.take(k + 1).last() == chart.shapes@[k as int]@);
        }
        let shape = copy_shape(&chart.shapes[k]);
        let ghost before = strs(chart.problems@);
        if !shape.handwritten {
            let ghost here = *chart;
            assert(target_spec(here, shape@) == target_spec(start, shape@));
            let target = chart.target(&shape);
            assert(strs(chart.problems@) == before + target_spec(start, shape@).1);
            match target {
                Some(t) => {
                    match find_block(&chart.blocks, &shape.values_path) {
                        Some(i) => {
                            let (_, current) = split_block(&chart.blocks[i].1);
                            if !same_lines(&current, &t) {
                                let mut m = chars(&shape.at());
                                push_str(&mut m, ": the `@schema` block for '");
                                push_all(&mut m, &chars(&shape.values_path));
                                push_str(&mut m, "' is not what its contract describes; regenerate it\n");
                                push_all(&mut m, &difference(&current, &t));
                                let ghost mid = strs(chart.problems@);
                                chart.problems.push(string_of(&m));
                                assert(strs(chart.problems@) =~= mid.push(m@));
                            }
                        },
                        None => {},
                    }
                },
                None => {},
            }
            assert(strs(chart.problems@) =~= before + drift_of(start, shape@));
        }
        assert(strs(chart.problems@) =~= strs(start.problems@) + check_problems(start, all.take(k + 1)));
        k = k + 1;
    }
    assert(all.take(all.len() as int) =~= all);
}


/// A values file's lines, each keeping its ending, put back together are the file.
pub proof fn lemma_lines_keeping_ends(s: Seq<char>, i: int)
    requires
        0 <= i <= s.len(),
    ensures
        lines_keeping_ends(s, i).flatten() == s.skip(i),
    decreases s.len() - i,
{
    if i < s.len() {
        let e = crate::text::next_char(s, '\n', i);
        crate::text::lemma_next_char(s, '\n', i);
        let ls = lines_keeping_ends(s, i);
        if e >= s.len() {
            assert(ls.len() == 1);
            ls.lemma_flatten_one_element();
            assert(s.subrange(i, s.len() as int) =~= s.skip(i));
        } else {
            lemma_lines_keeping_ends(s, e + 1);
            assert(ls.drop_first() =~= lines_keeping_ends(s, e + 1));
            assert(s.subrange(i, e + 1) + s.skip(e + 1) =~= s.skip(i));
        }
    } else {
        assert(s.skip(i) =~= Seq::<char>::empty());
    }
}

/// What working out every generated shape's target among `shapes` finds wrong, in order.
pub open spec fn target_problems(c: Chart, shapes: Seq<ShapeView>) -> Seq<Seq<char>>
    decreases shapes.len(),
{
    if shapes.len() == 0 {
        seq![]
    } else {
        target_problems(c, shapes.drop_last()) + if shapes.last().handwritten {
            seq![]
        } else {
            target_spec(c, shapes.last()).1
        }
    }
}

/// How many of `shapes` are generated.
pub open spec fn generated_count(shapes: Seq<ShapeView>) -> nat
    decreases shapes.len(),
{
    if shapes.len() == 0 {
        0
    } else {
        generated_count(shapes.drop_last()) + if shapes.last().handwritten {
            0nat
        } else {
            1nat
        }
    }
}

/// Where a block starting at `start` goes among blocks held last line first: after every one
/// that starts at or below it.
fn slot_by_start(pending: &Vec<(Block, Vec<String>)>, start: usize) -> (j: usize)
    ensures
        j <= pending@.len(),
{
    let mut j: usize = 0;
    while j < pending.len() && pending[j].0.start >= start
        invariant
            j <= pending@.len(),
        decreases pending.len() - j,
    {
        j = j + 1;
    }
    j
}

/// The chart's values file with every generated block written from its contract, and how many
/// blocks that changed; what stopped a target being worked out is added to the problems.
///
/// Blocks are replaced from the bottom up, so that an earlier replacement cannot move the lines a
/// later one was read at, each keeping its marker run and taking the file's line ending. A block
/// whose lines are not in the file, which none read from the file has, is left as it is.
pub fn rewrite(chart: &mut Chart) -> (r: (String, usize))
    ensures
        same_but_problems(*final(chart), *old(chart)),
        strs(final(chart).problems@) == strs(old(chart).problems@) + target_problems(
            *old(chart),
            shapes_view(old(chart).shapes@),
        ),
        r.1 <= generated_count(shapes_view(old(chart).shapes@)),
        r.1 == 0 ==> r.0@ == old(chart).text@,
{
    let ghost start = *chart;
    let ghost all = shapes_view(chart.shapes@);
    let mut pending: Vec<(Block, Vec<String>)> = Vec::new();
    let mut k: usize = 0;
    while k < chart.shapes.len()
        invariant
            k <= all.len(),
            same_but_problems(*chart, start),
            all == shapes_view(chart.shapes@),
            strs(chart.problems@) == strs(start.problems@) + target_problems(start, all.take(k as int)),
            pending@.len() <= generated_count(all.take(k as int)),
        decreases all.len() - k,
    {
        proof {
            assert(all.take(k + 1).drop_last() =~= all.take(k as int));
            assert(all.take(k + 1).last() == chart.shapes@[k as int]@);
        }
        let shape = copy_shape(&chart.shapes[k]);
        let ghost before = strs(chart.problems@);
        if !shape.handwritten {
            let ghost here = *chart;
            assert(target_spec(here, shape@) == target_spec(start, shape@));
            let target = chart.target(&shape);
            match target {
                Some(t) => {
                    match find_block(&chart.blocks, &shape.values_path) {
                        Some(i) => {
                            let block = copy_block(&chart.blocks[i].1);
                            let j = slot_by_start(&pending, block.start);
                            pending.insert(j, (block, t));
                        },
                        None => {},
                    }
                },
                None => {},
            }
        }
        assert(strs(chart.problems@) =~= strs(start.problems@) + target_problems(start, all.take(k + 1)));
        k = k + 1;
    }
    assert(all.take(all.len() as int) =~= all);
    let text = chars(&chart.text);
    let ending = if contains_str(&text, "\r\n") {
        "\r\n"
    } else {
        "\n"
    };
    let mut lines = split_keeping_ends(&text);
    let mut written: usize = 0;
    let mut p: usize = 0;
    while p < pending.len()
        invariant
            p <= pending@.len(),
            written <= p,
            pending@.len() <= generated_count(all),
            text@ == start.text@,
            written == 0 ==> views(lines@) == lines_keeping_ends(text@, 0),
        decreases pending.len() - p,
    {
        let (markers, current) = split_block(&pending[p].0);
        let from = pending[p].0.start;
        let end = pending[p].0.end;
        if !same_lines(&current, &pending[p].1) && end >= 1 && from <= end - 1 && end - 1 <= lines.len() {
            let mut next: Vec<Vec<char>> = Vec::new();
            let mut q: usize = 0;
            while q < from
                invariant
                    q <= from <= lines@.len(),
                decreases from - q,
            {
                next.push(lines[q].clone());
                q = q + 1;
            }
            let mut m: usize = 0;
            while m < markers.len()
                decreases markers.len() - m,
            {
                let mut line = chars(&markers[m]);
                push_str(&mut line, ending);
                next.push(line);
                m = m + 1;
            }
            let target = &pending[p].1;
            let mut t: usize = 0;
            while t < target.len()
                decreases target.len() - t,
            {
                let mut line = chars(&target[t]);
                push_str(&mut line, ending);
                next.push(line);
                t = t + 1;
            }
            let mut q: usize = end - 1;
            while q < lines.len()
                invariant
                    end - 1 <= q <= lines@.len(),
                decreases lines.len() - q,
            {
                next.push(lines[q].clone());
                q = q + 1;
            }
            lines = next;
            written = written + 1;
        }
        p = p + 1;
    }
    let mut out: Vec<char> = Vec::new();
    let mut q: usize = 0;
    while q < lines.len()
        invariant
            q <= lines@.len(),
            out@ == views(lines@).take(q as int).flatten(),
        decreases lines.len() - q,
    {
        proof {
            views(lines@).take(q as int).lemma_flatten_push(lines@[q as int]@);
            assert(views(lines@).take(q + 1) =~= views(lines@).take(q as int).push(lines@[q as int]@));
        }
        push_all(&mut out, &lines[q]);
        q = q + 1;
    }
    proof {
        assert(views(lines@).take(lines@.len() as int) =~= views(lines@));
        if written == 0 {
            lemma_lines_keeping_ends(text@, 0);
            assert(text@.skip(0) =~= text@);
        }
    }
    (string_of(&out), written)
}


/// The documents among `publishers` whose release a transcription read at `read_at` does not
/// cover.
pub open spec fn ahead_of(publishers: Seq<(Seq<char>, Seq<char>)>, read_at: Seq<char>) -> Set<Seq<char>> {
    Set::new(|d: Seq<char>| exists|i: int| 0 <= i < publishers.len() && #[trigger] publishers[i].0 == d && !covers_spec(read_at, publishers[i].1))
}

/// A text that may be absent, or nothing.
pub open spec fn or_empty(o: Option<Seq<char>>) -> Seq<char> {
    match o {
        Some(t) => t,
        None => seq![],
    }
}

/// The refusal of a transcription the contract now describes itself.
pub open spec fn now_described(shape: ShapeView) -> Seq<char> {
    at_spec(shape.chart, shape.line) + ": '"@ + shape.values_path
        + "' was transcribed by hand, and the contract now describes it itself. Delete the marker and regenerate; declare any position the chart keeps with `"@
        + EXCEPT_MARKER@ + "` or `"@ + NARROW_MARKER@ + "`"@
}

/// The refusal of a transcription with no release to be held against.
pub open spec fn nothing_to_hold(shape: ShapeView) -> Seq<char> {
    at_spec(shape.chart, shape.line) + ": declares a shape for '"@ + shape.values_path
        + "', but no contract records the release the key was published at and the chart has no appVersion either, so there is nothing to hold the transcription against"@
}

/// The refusal of a transcription read at a release older than the one it is held against.
pub open spec fn stale(shape: ShapeView, since: Seq<char>, release: Seq<char>) -> Seq<char> {
    let read_at = or_empty(shape.version);
    at_spec(shape.chart, shape.line) + ": '"@ + shape.values_path + "' was transcribed at "@ + read_at + ", and "@
        + since + "\n    re-read "@ + or_empty(shape.source) + " at "@ + release + ", bring the `@schema` block for '"@
        + shape.values_path + "' up to it, and move the marker"@
}

/// What holding one transcription against its release finds, where that does not turn on which
/// documents publish past it: no block for it, a contract that now describes it, nothing to hold
/// it against, a chart release it was not read at, or nothing wrong. `None` is the one case
/// left: a publisher release it does not cover.
pub open spec fn handwritten_problems(c: Chart, shape: ShapeView) -> Option<Seq<Seq<char>>> {
    match block_for_spec(c.text@, block_pairs(c.blocks@), shape) {
        Err(m) => Some(seq![m]),
        Ok(_) => {
            let r = resolve_spec(bound_documents(c.bound), shape, markers_in(c.markers@, shape.values_path));
            if superseded_spec(r) {
                Some(seq![now_described(shape)])
            } else {
                let published = published_of(r);
                let read_at = or_empty(shape.version);
                if published.len() == 0 && c.app_version@.len() == 0 {
                    Some(seq![nothing_to_hold(shape)])
                } else if published.len() == 0 {
                    if crate::release_spec(read_at) != crate::release_spec(c.app_version@) {
                        Some(seq![stale(shape, "the chart now pins appVersion "@ + c.app_version@, c.app_version@)])
                    } else {
                        Some(seq![])
                    }
                } else if covers_spec(read_at, published) {
                    Some(seq![])
                } else {
                    None
                }
            }
        },
    }
}

/// The publishers of a resolution, or none.
pub open spec fn publishers_of(r: Resolution) -> Seq<(Seq<char>, Seq<char>)> {
    match r {
        Resolution::To { publishers, .. } => publishers,
        Resolution::Refused(_) => seq![],
    }
}

/// The release a resolution was last published at, or nothing.
pub open spec fn published_of(r: Resolution) -> Seq<char> {
    newest_spec(publishers_of(r))
}

/// The refusal of a transcription some documents now publish past, naming them.
pub open spec fn published_past(shape: ShapeView, ahead: Seq<Seq<char>>, published: Seq<char>) -> Seq<char> {
    stale(
        shape,
        join_spec(ahead, ", "@) + " now publish"@ + (if ahead.len() == 1 { "es"@ } else { seq![] }) + " it at "@ + published,
        published,
    )
}

impl Chart {
    /// Hold one hand transcription against the release it was copied at: the newest image
    /// publishing the key, or the chart's own where no contract publishes it. Where publishers
    /// have moved past it, the refusal names them in name order, once each.
    #[verifier::rlimit(100)]
    #[verifier::spinoff_prover]
    pub fn check_handwritten(&mut self, shape: &Shape)
        ensures
            same_but_problems(*final(self), *old(self)),
            ({
                let r = resolve_spec(bound_documents(old(self).bound), shape@, markers_in(old(self).markers@, shape@.values_path));
                match handwritten_problems(*old(self), shape@) {
                    Some(ps) => strs(final(self).problems@) == strs(old(self).problems@) + ps,
                    None => exists|ahead: Seq<Seq<char>>|
                        crate::order::ascending(ahead) && crate::order::held(ahead) == ahead_of(publishers_of(r), or_empty(shape@.version))
                            && #[trigger] strs(final(self).problems@) == strs(old(self).problems@).push(
                                published_past(shape@, ahead, published_of(r)),
                            ),
                }
            }),
    {
        let ghost was = strs(self.problems@);
        let ghost want = handwritten_problems(*self, shape@);
        let ghost r = resolve_spec(bound_documents(self.bound), shape@, markers_in(self.markers@, shape@.values_path));
        let found = self.block_for(shape);
        if found.is_none() {
            return;
        }
        let resolved = self.constraint_for(shape, false);
        let at = shape.at();
        let empty = String::new();
        let read_at = match &shape.version {
            Some(v) => v,
            None => &empty,
        };
        let source = match &shape.source {
            Some(v) => v,
            None => &empty,
        };
        let vp = chars(&shape.values_path);
        assert(read_at@ == or_empty(shape@.version));
        assert(source@ == or_empty(shape@.source));
        match &resolved {
            Some(x) => {
                if superseded(x) {
                    let mut m = chars(&at);
                    push_str(&mut m, ": '");
                    push_all(&mut m, &vp);
                    push_str(&mut m, "' was transcribed by hand, and the contract now describes it itself. Delete the marker and regenerate; declare any position the chart keeps with `");
                    push_str(&mut m, EXCEPT_MARKER);
                    push_str(&mut m, "` or `");
                    push_str(&mut m, NARROW_MARKER);
                    push_str(&mut m, "`");
                    self.problems.push(string_of(&m));
                    assert(strs(self.problems@) =~= was.push(m@));
                    return;
                }
            },
            None => {},
        }
        let published = match &resolved {
            Some(x) => chars_of(x.newest()),
            None => Vec::new(),
        };
        proof {
            if resolved is None {
                assert(published@ =~= published_of(r));
            }
        }
        let own = chars(&self.app_version);
        if published.len() == 0 && own.len() == 0 {
            let mut m = chars(&at);
            push_str(&mut m, ": declares a shape for '");
            push_all(&mut m, &vp);
            push_str(&mut m, "', but no contract records the release the key was published at and the chart has no appVersion either, so there is nothing to hold the transcription against");
            self.problems.push(string_of(&m));
            assert(strs(self.problems@) =~= was.push(m@));
            return;
        }
        let mut tail = chars_of("\n    re-read ");
        push_all(&mut tail, &chars(source));
        push_str(&mut tail, " at ");
        if published.len() == 0 {
            if crate::release(read_at.as_str()) != crate::release(self.app_version.as_str()) {
                let mut m = chars(&at);
                push_str(&mut m, ": '");
                push_all(&mut m, &vp);
                push_str(&mut m, "' was transcribed at ");
                push_all(&mut m, &chars(read_at));
                push_str(&mut m, ", and ");
                push_str(&mut m, "the chart now pins appVersion ");
                push_all(&mut m, &own);
                push_all(&mut m, &tail);
                push_all(&mut m, &own);
                push_str(&mut m, ", bring the `@schema` block for '");
                push_all(&mut m, &vp);
                push_str(&mut m, "' up to it, and move the marker");
                assert(m@ =~= stale(shape@, "the chart now pins appVersion "@ + own@, own@));
                self.problems.push(string_of(&m));
                assert(strs(self.problems@) =~= was.push(m@));
            }
            return;
        }
        let published_text = string_of(&published);
        if covers(read_at.as_str(), published_text.as_str()) {
            return;
        }
        let x = match &resolved {
            Some(x) => x,
            None => {
                return;
            },
        };
        let ghost pubs = publishers_of(r);
        let mut ahead: Vec<String> = Vec::new();
        let mut k: usize = 0;
        while k < x.publishers.len()
            invariant
                k <= x.publishers@.len(),
                pubs == x.publishers@.map_values(|p: Publisher| (p.document@, p.version@)),
                crate::order::ascending(strs(ahead@)),
                crate::order::held(strs(ahead@)) == Set::new(|d: Seq<char>| exists|i: int| 0 <= i < k && #[trigger] pubs[i].0 == d && !covers_spec(read_at@, pubs[i].1)),
            decreases x.publishers.len() - k,
        {
            let ghost before = crate::order::held(strs(ahead@));
            let moved_past = !covers(read_at.as_str(), x.publishers[k].version.as_str());
            if moved_past {
                crate::order::insert_sorted(&mut ahead, x.publishers[k].document.clone());
                assert(crate::order::held(strs(ahead@)) == before.insert(pubs[k as int].0));
            } else {
                assert(crate::order::held(strs(ahead@)) == before);
            }
            assert(crate::order::held(strs(ahead@)) =~= Set::new(|d: Seq<char>| exists|i: int| 0 <= i < k + 1 && #[trigger] pubs[i].0 == d && !covers_spec(read_at@, pubs[i].1))) by {
                assert(pubs[k as int] == (x.publishers@[k as int].document@, x.publishers@[k as int].version@));
                assert forall|d: Seq<char>| #[trigger] crate::order::held(strs(ahead@)).contains(d) == Set::new(|d: Seq<char>| exists|i: int| 0 <= i < k + 1 && #[trigger] pubs[i].0 == d && !covers_spec(read_at@, pubs[i].1)).contains(d) by {
                    if exists|i: int| 0 <= i < k + 1 && #[trigger] pubs[i].0 == d && !covers_spec(read_at@, pubs[i].1) {
                        let i = choose|i: int| 0 <= i < k + 1 && #[trigger] pubs[i].0 == d && !covers_spec(read_at@, pubs[i].1);
                        if i < k {
                            assert(exists|i: int| 0 <= i < k && #[trigger] pubs[i].0 == d && !covers_spec(read_at@, pubs[i].1));
                        }
                    }
                    if exists|i: int| 0 <= i < k && #[trigger] pubs[i].0 == d && !covers_spec(read_at@, pubs[i].1) {
                        let i = choose|i: int| 0 <= i < k && #[trigger] pubs[i].0 == d && !covers_spec(read_at@, pubs[i].1);
                        assert(0 <= i < k + 1 && pubs[i].0 == d);
                    }
                    if d == pubs[k as int].0 && !covers_spec(read_at@, pubs[k as int].1) {
                        assert(0 <= k < k + 1 && pubs[k as int].0 == d);
                    }
                }
            }
            k = k + 1;
        }
        assert(crate::order::held(strs(ahead@)) =~= ahead_of(pubs, read_at@));
        let mut m = chars(&at);
        push_str(&mut m, ": '");
        push_all(&mut m, &vp);
        push_str(&mut m, "' was transcribed at ");
        push_all(&mut m, &chars(read_at));
        push_str(&mut m, ", and ");
        push_all(&mut m, &crate::text::join_strings(&ahead, ", "));
        push_str(&mut m, " now publish");
        if ahead.len() == 1 {
            push_str(&mut m, "es");
        }
        push_str(&mut m, " it at ");
        push_all(&mut m, &published);
        push_all(&mut m, &tail);
        push_all(&mut m, &published);
        push_str(&mut m, ", bring the `@schema` block for '");
        push_all(&mut m, &vp);
        push_str(&mut m, "' up to it, and move the marker");
        self.problems.push(string_of(&m));
        assert(strs(self.problems@) =~= was.push(m@));
        assert(m@ == published_past(shape@, strs(ahead@), published_of(r)));
    }
}


/// The line of the first shape among `shapes` declared for a value, if any is.
pub open spec fn first_declared(shapes: Seq<ShapeView>, key: Seq<char>) -> Option<nat>
    decreases shapes.len(),
{
    if shapes.len() == 0 {
        None
    } else {
        match first_declared(shapes.drop_last(), key) {
            Some(l) => Some(l),
            None => if shapes.last().values_path == key {
                Some(shapes.last().line)
            } else {
                None
            },
        }
    }
}

/// The refusal of a second shape marker on one value.
pub open spec fn declared_twice(shape: ShapeView, first: nat) -> Seq<char> {
    at_spec(shape.chart, shape.line) + ": '"@ + shape.values_path + "' already declares a shape on line "@ + decimal(first)
        + ". One value has one block, so the second marker is either a duplicate or the migration of the first left half-done"@
}

/// The refusals of every shape marker among the first `n` that repeats an earlier one's value.
pub open spec fn duplicate_problems(shapes: Seq<ShapeView>, n: int) -> Seq<Seq<char>>
    decreases n,
{
    if n <= 0 || n > shapes.len() {
        seq![]
    } else {
        duplicate_problems(shapes, n - 1) + match first_declared(shapes.take(n - 1), shapes[n - 1].values_path) {
            Some(first) => seq![declared_twice(shapes[n - 1], first)],
            None => seq![],
        }
    }
}

/// Whether some generated shape is for a value.
pub open spec fn generated_for(shapes: Seq<ShapeView>, key: Seq<char>) -> bool {
    exists|i: int| 0 <= i < shapes.len() && !shapes[i].handwritten && #[trigger] shapes[i].values_path == key
}

/// What is wrong with one departure: nothing where a generated block is there to depart from,
/// else that the value's block is hand-written, or that nothing is generated there at all.
pub open spec fn departure_refusal(d: DivergenceView, shapes: Seq<ShapeView>, transcribed: Seq<ShapeView>) -> Seq<Seq<char>> {
    let at = at_spec(d.chart, d.line);
    if generated_for(shapes, d.values_path) {
        seq![]
    } else if first_declared(transcribed, d.values_path) is Some {
        seq![at + ": departs from the generated shape of '"@ + d.values_path + "', whose block is `"@ + HANDWRITTEN@
            + "` and so is not generated at all. A departure from a hand-written block is just the block"@]
    } else {
        seq![at + ": departs from the generated shape of '"@ + d.values_path + "', which carries no `"@ + crate::markers::MARKER@
            + "` marker naming a contract key, so nothing is generated there to depart from"@]
    }
}

/// The refusals of the first `n` departures.
pub open spec fn departure_problems(ds: Seq<DivergenceView>, shapes: Seq<ShapeView>, transcribed: Seq<ShapeView>, n: int) -> Seq<Seq<char>>
    decreases n,
{
    if n <= 0 || n > ds.len() {
        seq![]
    } else {
        departure_problems(ds, shapes, transcribed, n - 1) + departure_refusal(ds[n - 1], shapes, transcribed)
    }
}

proof fn lemma_first_declared_kept(s: Seq<ShapeView>, key: Seq<char>, a: int, b: int)
    requires
        0 <= a <= b <= s.len(),
        first_declared(s.take(a), key) is Some,
    ensures
        first_declared(s.take(b), key) == first_declared(s.take(a), key),
    decreases b - a,
{
    if b > a {
        lemma_first_declared_kept(s, key, a, b - 1);
        assert(s.take(b).drop_last() =~= s.take(b - 1));
    }
}

fn first_declared_in(shapes: &Vec<Shape>, n: usize, key: &String) -> (r: Option<usize>)
    requires
        n <= shapes@.len(),
    ensures
        match r {
            Some(l) => first_declared(shapes_view(shapes@).take(n as int), key@) == Some(l as nat),
            None => first_declared(shapes_view(shapes@).take(n as int), key@) is None,
        },
{
    let ghost sv = shapes_view(shapes@);
    let mut k: usize = 0;
    while k < n
        invariant
            k <= n <= shapes@.len(),
            sv == shapes_view(shapes@),
            first_declared(sv.take(k as int), key@) is None,
        decreases n - k,
    {
        assert(sv.take(k + 1).drop_last() =~= sv.take(k as int));
        if shapes[k].values_path == *key {
            proof {
                assert(sv.take(k + 1).last() == sv[k as int]);
                lemma_first_declared_kept(sv, key@, k + 1, n as int);
            }
            return Some(shapes[k].line);
        }
        k = k + 1;
    }
    None
}

fn generated_in(shapes: &Vec<Shape>, key: &String) -> (b: bool)
    ensures
        b == generated_for(shapes_view(shapes@), key@),
{
    let mut k: usize = 0;
    while k < shapes.len()
        invariant
            k <= shapes@.len(),
            forall|i: int| 0 <= i < k ==> !(!shapes_view(shapes@)[i].handwritten && #[trigger] shapes_view(shapes@)[i].values_path == key@),
        decreases shapes.len() - k,
    {
        if !shapes[k].handwritten && shapes[k].values_path == *key {
            assert(!shapes_view(shapes@)[k as int].handwritten && shapes_view(shapes@)[k as int].values_path == key@);
            return true;
        }
        k = k + 1;
    }
    false
}

impl Chart {
    /// What can be decided from the markers alone, before a contract is opened: a value carries
    /// at most one shape marker, and a departure belongs to a generated block.
    pub fn check_markers(&mut self)
        ensures
            same_but_problems(*final(self), *old(self)),
            strs(final(self).problems@) == strs(old(self).problems@) + duplicate_problems(
                shapes_view(old(self).transcribed@),
                old(self).transcribed@.len() as int,
            ) + departure_problems(
                divergences_view(old(self).divergences@),
                shapes_view(old(self).shapes@),
                shapes_view(old(self).transcribed@),
                old(self).divergences@.len() as int,
            ),
    {
        let ghost start = *self;
        let ghost was = strs(self.problems@);
        let ghost ts = shapes_view(self.transcribed@);
        let mut k: usize = 0;
        while k < self.transcribed.len()
            invariant
                k <= ts.len(),
                same_but_problems(*self, start),
                ts == shapes_view(self.transcribed@),
                strs(self.problems@) == was + duplicate_problems(ts, k as int),
            decreases ts.len() - k,
        {
            assert(ts.take(k as int) == shapes_view(self.transcribed@).take(k as int));
            match first_declared_in(&self.transcribed, k, &self.transcribed[k].values_path) {
                Some(first) => {
                    let shape = &self.transcribed[k];
                    let mut m = chars(&shape.at());
                    push_str(&mut m, ": '");
                    push_all(&mut m, &chars(&shape.values_path));
                    push_str(&mut m, "' already declares a shape on line ");
                    push_all(&mut m, &crate::text::decimal_of(first as u64));
                    push_str(&mut m, ". One value has one block, so the second marker is either a duplicate or the migration of the first left half-done");
                    let ghost before = strs(self.problems@);
                    self.problems.push(string_of(&m));
                    assert(strs(self.problems@) =~= before.push(m@));
                },
                None => {},
            }
            assert(strs(self.problems@) =~= was + duplicate_problems(ts, k + 1));
            k = k + 1;
        }
        let ghost mid = strs(self.problems@);
        let ghost ds = divergences_view(self.divergences@);
        let ghost sv = shapes_view(self.shapes@);
        let mut d: usize = 0;
        while d < self.divergences.len()
            invariant
                d <= ds.len(),
                same_but_problems(*self, start),
                ts == shapes_view(self.transcribed@),
                ds == divergences_view(self.divergences@),
                sv == shapes_view(self.shapes@),
                strs(self.problems@) == mid + departure_problems(ds, sv, ts, d as int),
            decreases ds.len() - d,
        {
            let divergence = &self.divergences[d];
            assert(ds[d as int] == divergence@);
            let ghost before = strs(self.problems@);
            if !generated_in(&self.shapes, &divergence.values_path) {
                let mut m = chars(&divergence.at());
                push_str(&mut m, ": departs from the generated shape of '");
                push_all(&mut m, &chars(&divergence.values_path));
                let n = self.transcribed.len();
                assert(ts.take(n as int) =~= ts);
                if first_declared_in(&self.transcribed, n, &divergence.values_path).is_some() {
                    push_str(&mut m, "', whose block is `");
                    push_str(&mut m, HANDWRITTEN);
                    push_str(&mut m, "` and so is not generated at all. A departure from a hand-written block is just the block");
                } else {
                    push_str(&mut m, "', which carries no `");
                    push_str(&mut m, crate::markers::MARKER);
                    push_str(&mut m, "` marker naming a contract key, so nothing is generated there to depart from");
                }
                self.problems.push(string_of(&m));
                assert(strs(self.problems@) =~= before.push(m@));
            }
            assert(strs(self.problems@) =~= mid + departure_problems(ds, sv, ts, d + 1));
            d = d + 1;
        }
        assert(strs(self.problems@) =~= was + duplicate_problems(ts, ts.len() as int) + departure_problems(ds, sv, ts, ds.len() as int));
    }
}

} // verus!
