//! The prose `explain` prints: documentation re-flowed to one width, and values clipped to a
//! column.

use vstd::prelude::*;

use crate::json::{field_at, field_index, json_text, Json};
use crate::text::{
    chars, chars_of, contains_char, is_whitespace, is_ws, join, join_spec, push_all, push_str, same, slice_of,
    split_sep,
    split_str, split_whitespace, string_of, strs, views, words,
};

verus! {

/// Width the prose is re-wrapped to.
pub const WIDTH: usize = 96;

/// The narrowest a wrap ever goes.
pub const NARROWEST: usize = 16;

/// One image a chart pins, named as the declaration names it.
#[derive(Debug, Clone, PartialEq, Eq)]
pub struct Reader {
    /// The vendored contract's stem.
    pub name: String,
    /// Its file name.
    pub contract: String,
    /// The image it describes.
    pub image: String,
    /// The digest it was published for.
    pub digest: String,
    /// The application's own name.
    pub app: String,
    /// The release.
    pub version: String,
    /// The declared documents it reads.
    pub documents: Vec<String>,
}

/// One value clipped to a column: itself when it fits, else its first `width - 3` characters and
/// an ellipsis.
pub open spec fn clip_spec(text: Seq<char>, width: nat) -> Seq<char> {
    if text.len() <= width {
        text
    } else {
        text.take(width - 3) + "..."@
    }
}

/// A clipped value never runs past its column.
pub proof fn a_clipped_value_fits_its_column(text: Seq<char>, width: nat)
    requires
        width >= 3,
    ensures
        clip_spec(text, width).len() <= width,
        text.len() <= width ==> clip_spec(text, width) == text,
{
    reveal_strlit("...");
}

/// One value clipped to a column, with an ellipsis where it was cut.
pub fn clip(text: &str, width: usize) -> (s: String)
    requires
        text@.len() <= width || width >= 3,
    ensures
        s@ == clip_spec(text@, width as nat),
{
    let held = chars_of(text);
    if held.len() <= width {
        return string_of(&held);
    }
    let mut out = slice_of(&held, 0, width - 3);
    crate::text::push_str(&mut out, "...");
    string_of(&out)
}

/// Where the run of whitespace or of non-whitespace starting at `i` ends.
pub open spec fn run_end(s: Seq<char>, i: int) -> int
    decreases s.len() - i,
{
    if i + 1 >= s.len() {
        s.len() as int
    } else if is_ws(s[i + 1]) != is_ws(s[i]) {
        i + 1
    } else {
        run_end(s, i + 1)
    }
}

pub proof fn lemma_run_end(s: Seq<char>, i: int)
    requires
        0 <= i < s.len(),
    ensures
        i < run_end(s, i) <= s.len(),
    decreases s.len() - i,
{
    if i + 1 < s.len() && is_ws(s[i + 1]) == is_ws(s[i]) {
        lemma_run_end(s, i + 1);
    }
}

/// A text from `i` as alternating runs of whitespace and of everything else.
pub open spec fn chunks_from(s: Seq<char>, i: int) -> Seq<Seq<char>>
    decreases s.len() - i,
{
    if i < 0 || i >= s.len() {
        seq![]
    } else {
        proof {
            lemma_run_end(s, i);
        }
        seq![s.subrange(i, run_end(s, i))] + chunks_from(s, run_end(s, i))
    }
}

/// A text as alternating runs of whitespace and of everything else.
pub open spec fn chunks_spec(s: Seq<char>) -> Seq<Seq<char>> {
    chunks_from(s, 0)
}

/// Where the run starting at `i` ends.
fn run_end_at(s: &[char], i: usize) -> (e: usize)
    requires
        i < s@.len(),
    ensures
        e as int == run_end(s@, i as int),
{
    let first = is_whitespace(s[i]);
    let mut j = i + 1;
    while j < s.len() && is_whitespace(s[j]) == first
        invariant
            i < j <= s@.len(),
            first == is_ws(s@[i as int]),
            run_end(s@, i as int) == run_end(s@, j - 1),
            forall|k: int| i <= k < j ==> is_ws(#[trigger] s@[k]) == first,
        decreases s.len() - j,
    {
        j = j + 1;
    }
    j
}

/// A text as alternating runs of whitespace and of everything else.
fn chunks(s: &[char]) -> (out: Vec<Vec<char>>)
    ensures
        views(out@) == chunks_spec(s@),
{
    let mut out: Vec<Vec<char>> = Vec::new();
    let mut i: usize = 0;
    while i < s.len()
        invariant
            i <= s@.len(),
            views(out@) + chunks_from(s@, i as int) == chunks_spec(s@),
        decreases s.len() - i,
    {
        let e = run_end_at(s, i);
        proof {
            lemma_run_end(s@, i as int);
        }
        let piece = slice_of(s, i, e);
        let ghost before = views(out@);
        out.push(piece);
        assert(views(out@) == before.push(piece@));
        i = e;
    }
    assert(views(out@) + chunks_from(s@, i as int) == views(out@));
    out
}

/// The state of a greedy wrap: the lines finished, the line being filled, and the whitespace
/// waiting to be written before the next word on it.
pub struct WrapState {
    pub lines: Seq<Seq<char>>,
    pub current: Seq<char>,
    pub pending: Seq<char>,
}

/// The wrap after its first chunks: whitespace waits; a word joins the current line, after the
/// waiting whitespace, unless the line already holds something and would grow past `limit`, in
/// which case the line is finished and the word starts the next one with the whitespace dropped.
pub open spec fn wrap_fold(cs: Seq<Seq<char>>, limit: nat) -> WrapState
    decreases cs.len(),
{
    if cs.len() == 0 {
        WrapState { lines: seq![], current: seq![], pending: seq![] }
    } else {
        let s = wrap_fold(cs.drop_last(), limit);
        let chunk = cs.last();
        if chunk.len() > 0 && is_ws(chunk[0]) {
            WrapState { pending: chunk, ..s }
        } else if s.current.len() > 0 && s.current.len() + s.pending.len() + chunk.len() > limit {
            WrapState { lines: s.lines.push(s.current), current: chunk, pending: seq![] }
        } else {
            WrapState { lines: s.lines, current: s.current + s.pending + chunk, pending: seq![] }
        }
    }
}

/// Greedy wrap on whitespace to `max(width, 16)` characters; whitespace that ends the text,
/// where no break lands on it, stays on the last line.
pub open spec fn wrap_spec(text: Seq<char>, width: nat) -> Seq<Seq<char>> {
    let limit = if width < NARROWEST {
        NARROWEST as nat
    } else {
        width
    };
    let s = wrap_fold(chunks_spec(text), limit);
    let last = s.current + s.pending;
    if s.lines.len() == 0 || last.len() > 0 {
        s.lines.push(last)
    } else {
        s.lines
    }
}

/// Greedy wrap on whitespace, never breaking a word and never re-spacing one that fits.
///
/// A token wider than the width overflows rather than being broken; whitespace inside a line is
/// carried as written, and only the whitespace a line break lands on is dropped.
pub fn wrap(text: &str, width: usize) -> (out: Vec<String>)
    ensures
        strs(out@) == wrap_spec(text@, width as nat),
{
    let limit = if width < NARROWEST {
        NARROWEST
    } else {
        width
    };
    let held = chars_of(text);
    let cs = chunks(&held);
    let ghost all = views(cs@);
    let mut lines: Vec<String> = Vec::new();
    let mut current: Vec<char> = Vec::new();
    let mut pending: Vec<char> = Vec::new();
    let mut k: usize = 0;
    while k < cs.len()
        invariant
            k <= cs@.len(),
            all == views(cs@),
            strs(lines@) == wrap_fold(all.take(k as int), limit as nat).lines,
            current@ == wrap_fold(all.take(k as int), limit as nat).current,
            pending@ == wrap_fold(all.take(k as int), limit as nat).pending,
        decreases cs.len() - k,
    {
        let chunk = &cs[k];
        assert(all.take(k + 1).drop_last() =~= all.take(k as int));
        assert(all.take(k + 1).last() == chunk@);
        if chunk.len() > 0 && is_whitespace(chunk[0]) {
            pending = slice_of(chunk, 0, chunk.len());
        } else {
            if current.len() > 0 && current.len() as u128 + pending.len() as u128 + chunk.len() as u128
                > limit as u128 {
                let ghost before = strs(lines@);
                lines.push(string_of(&current));
                assert(strs(lines@) == before.push(current@));
                current = Vec::new();
                pending = Vec::new();
            }
            push_all(&mut current, &pending);
            push_all(&mut current, chunk);
            pending = Vec::new();
        }
        k = k + 1;
    }
    assert(all.take(cs@.len() as int) =~= all);
    push_all(&mut current, &pending);
    if lines.len() == 0 || current.len() > 0 {
        let ghost before = strs(lines@);
        lines.push(string_of(&current));
        assert(strs(lines@) == before.push(current@));
    }
    lines
}

/// A paragraph with its whitespace collapsed to single spaces.
pub open spec fn collapsed(paragraph: Seq<char>) -> Seq<char> {
    join_spec(words(paragraph), " "@)
}

/// The lines of a documentation block's first paragraphs, before indentation.
pub open spec fn prose_fold(paragraphs: Seq<Seq<char>>, width: nat) -> Seq<Seq<char>>
    decreases paragraphs.len(),
{
    if paragraphs.len() == 0 {
        seq![]
    } else {
        let lines = prose_fold(paragraphs.drop_last(), width);
        let text = collapsed(paragraphs.last());
        if text.len() == 0 {
            lines
        } else if paragraphs.len() > 1 && lines.len() > 0 {
            lines.push(seq![]) + wrap_spec(text, width)
        } else {
            lines + wrap_spec(text, width)
        }
    }
}

/// One line of prose as it is printed: indented, unless it is the blank line between paragraphs.
pub open spec fn indented(line: Seq<char>, indent: Seq<char>) -> Seq<char> {
    if line.len() == 0 {
        line
    } else {
        indent + line
    }
}

/// A documentation block re-flowed to the width, its paragraphs kept and each line indented.
pub open spec fn prose_spec(text: Seq<char>, indent: Seq<char>) -> Seq<Seq<char>> {
    prose_fold(split_sep(text, "\n\n"@), (WIDTH - indent.len()) as nat).map_values(
        |line: Seq<char>| indented(line, indent),
    )
}

/// Re-flow a documentation block to this width, keeping its paragraph breaks.
///
/// Paragraphs are separated by a blank line; each has its whitespace collapsed and is wrapped to
/// what the indentation leaves of the width, and paragraphs that hold nothing are dropped.
pub fn prose(text: &str, indent: &str) -> (out: Vec<String>)
    requires
        indent@.len() <= WIDTH,
    ensures
        strs(out@) == prose_spec(text@, indent@),
{
    proof {
        reveal_strlit("\n\n");
    }
    let held = chars_of(text);
    let separator = chars_of("\n\n");
    let paragraphs = split_str(&held, &separator);
    let ghost ps = views(paragraphs@);
    let margin = chars_of(indent);
    let width = WIDTH - margin.len();
    let mut lines: Vec<String> = Vec::new();
    let mut index: usize = 0;
    while index < paragraphs.len()
        invariant
            index <= paragraphs@.len(),
            ps == views(paragraphs@),
            width == WIDTH - indent@.len(),
            strs(lines@) == prose_fold(ps.take(index as int), width as nat),
        decreases paragraphs.len() - index,
    {
        assert(ps.take(index + 1).drop_last() =~= ps.take(index as int));
        assert(ps.take(index + 1).last() == paragraphs@[index as int]@);
        let pieces = split_whitespace(&paragraphs[index]);
        let space = chars_of(" ");
        let flat = join(&pieces, &space);
        if flat.len() > 0 {
            if index > 0 && lines.len() > 0 {
                let ghost before = strs(lines@);
                lines.push(String::new());
                assert(strs(lines@) == before.push(seq![]));
            }
            let wrapped = wrap(string_of(&flat).as_str(), width);
            let ghost before = strs(lines@);
            let mut w: usize = 0;
            while w < wrapped.len()
                invariant
                    w <= wrapped@.len(),
                    strs(lines@) == before + strs(wrapped@).take(w as int),
                decreases wrapped.len() - w,
            {
                let ghost was = strs(lines@);
                lines.push(wrapped[w].clone());
                assert(strs(lines@) == was.push(wrapped@[w as int]@));
                assert(strs(wrapped@).take(w + 1) =~= strs(wrapped@).take(w as int).push(
                    wrapped@[w as int]@,
                ));
                w = w + 1;
            }
            assert(strs(wrapped@).take(wrapped@.len() as int) =~= strs(wrapped@));
        }
        index = index + 1;
    }
    assert(ps.take(paragraphs@.len() as int) =~= ps);
    let ghost flat_lines = strs(lines@);
    let mut out: Vec<String> = Vec::new();
    let mut k: usize = 0;
    while k < lines.len()
        invariant
            k <= lines@.len(),
            flat_lines == strs(lines@),
            margin@ == indent@,
            strs(out@) == flat_lines.take(k as int).map_values(
                |line: Seq<char>| indented(line, indent@),
            ),
        decreases lines.len() - k,
    {
        let line = chars(&lines[k]);
        let mut written: Vec<char> = Vec::new();
        if line.len() > 0 {
            push_all(&mut written, &margin);
            push_all(&mut written, &line);
        }
        assert(line@ == flat_lines[k as int]);
        assert(written@ == indented(flat_lines[k as int], indent@));
        let ghost was = strs(out@);
        out.push(string_of(&written));
        assert(strs(out@) == was.push(written@));
        assert(flat_lines.take(k + 1).map_values(|line: Seq<char>| indented(line, indent@))
            =~= flat_lines.take(k as int).map_values(|line: Seq<char>| indented(line, indent@)).push(
            indented(flat_lines[k as int], indent@),
        ));
        k = k + 1;
    }
    assert(flat_lines.take(lines@.len() as int) =~= flat_lines);
    out
}

// ------------------------------------------------------------------------------------------------
// A constraint, as a phrase
// ------------------------------------------------------------------------------------------------

/// Constraint keywords rendered as prose, in the order they read best.
pub open spec fn constraint_order() -> Seq<Seq<char>> {
    seq![
        "type"@,
        "const"@,
        "enum"@,
        "pattern"@,
        "format"@,
        "minimum"@,
        "exclusiveMinimum"@,
        "maximum"@,
        "exclusiveMaximum"@,
        "multipleOf"@,
        "minLength"@,
        "maxLength"@,
        "minItems"@,
        "maxItems"@,
        "uniqueItems"@,
        "required"@,
        "properties"@,
        "additionalProperties"@,
        "items"@,
    ]
}

/// Keywords folded into another keyword's phrase, or said elsewhere in the entry.
pub open spec fn constraint_folded() -> Seq<Seq<char>> {
    seq![
        "exclusiveMinimum"@,
        "exclusiveMaximum"@,
        "maximum"@,
        "maxLength"@,
        "maxItems"@,
        "required"@,
        "description"@,
        "title"@,
        "default"@,
        "examples"@,
        "$comment"@,
    ]
}

/// The value of the first field by a name.
pub open spec fn lookup(fields: Seq<(String, Json)>, name: Seq<char>) -> Option<Json> {
    let k = field_at(fields, name, fields.len() as int);
    if 0 <= k < fields.len() {
        Some(fields[k].1)
    } else {
        None
    }
}

/// One scalar without the quotes JSON would put round it.
pub open spec fn plain_spec(value: Json) -> Seq<char> {
    match value {
        Json::Str(s) => s@,
        other => json_text(other),
    }
}

/// A field's value as JSON text, when there is one.
pub open spec fn held_text(fields: Seq<(String, Json)>, name: Seq<char>) -> Option<Seq<char>> {
    match lookup(fields, name) {
        Some(v) => Some(json_text(v)),
        None => None,
    }
}

/// The numeric bounds, folded into one phrase.
pub open spec fn range_spec(fields: Seq<(String, Json)>) -> Seq<char> {
    let low = held_text(fields, "minimum"@);
    let low_open = held_text(fields, "exclusiveMinimum"@);
    let high = held_text(fields, "maximum"@);
    let high_open = held_text(fields, "exclusiveMaximum"@);
    let lower = match low_open {
        Some(b) => Some("above "@ + b),
        None => low,
    };
    let upper = match high_open {
        Some(b) => Some("below "@ + b),
        None => high,
    };
    match (lower, upper) {
        (Some(l), Some(u)) => if low_open is None && high_open is None {
            l + " to "@ + u
        } else {
            l + ", "@ + u
        },
        (Some(l), None) => if low_open is Some {
            l
        } else {
            "at least "@ + l
        },
        (None, Some(u)) => if high_open is Some {
            u
        } else {
            "at most "@ + u
        },
        (None, None) => seq![],
    }
}

/// A pair of bounds in a unit: `low to high unit`, `at least low one`, `at most high one`.
pub open spec fn bounds_spec(
    low: Option<Seq<char>>,
    high: Option<Seq<char>>,
    both: Seq<char>,
    one: Seq<char>,
) -> Seq<char> {
    match (low, high) {
        (Some(l), Some(h)) => l + " to "@ + h + both,
        (Some(l), None) => "at least "@ + l + one,
        (None, Some(h)) => "at most "@ + h + one,
        (None, None) => seq![],
    }
}

/// An upper bound alone is a ceiling — `at most` it — and a lower bound alone a floor — `at
/// least` it; the two never read alike.
pub proof fn a_lone_bound_reads_as_its_side(bound: Seq<char>, both: Seq<char>, one: Seq<char>)
    ensures
        bounds_spec(None, Some(bound), both, one) == "at most "@ + bound + one,
        bounds_spec(Some(bound), None, both, one) == "at least "@ + bound + one,
        bounds_spec(None, Some(bound), both, one) != bounds_spec(Some(bound), None, both, one),
{
    reveal_strlit("at most ");
    reveal_strlit("at least ");
    let m = "at most "@ + bound + one;
    let l = "at least "@ + bound + one;
    assert(m[3] == 'm' && l[3] == 'l');
}

/// A number constraint with only an inclusive maximum reads `at most` it, with only an inclusive
/// minimum `at least` it, and with both, lower first: `low to high`.
pub proof fn a_plain_numeric_bound_reads_as_its_side(fields: Seq<(String, Json)>)
    requires
        held_text(fields, "exclusiveMinimum"@) is None,
        held_text(fields, "exclusiveMaximum"@) is None,
    ensures
        match (held_text(fields, "minimum"@), held_text(fields, "maximum"@)) {
            (None, Some(h)) => range_spec(fields) == "at most "@ + h,
            (Some(l), None) => range_spec(fields) == "at least "@ + l,
            (Some(l), Some(h)) => range_spec(fields) == l + " to "@ + h,
            (None, None) => range_spec(fields).len() == 0,
        },
{
}

/// `minItems` and `maxItems`, folded into one phrase.
pub open spec fn count_spec(fields: Seq<(String, Json)>) -> Seq<char> {
    bounds_spec(
        held_text(fields, "minItems"@),
        held_text(fields, "maxItems"@),
        " items"@,
        " item(s)"@,
    )
}

/// The string-length bounds, folded into one phrase.
pub open spec fn length_spec(fields: Seq<(String, Json)>) -> Seq<char> {
    bounds_spec(
        held_text(fields, "minLength"@),
        held_text(fields, "maxLength"@),
        " characters"@,
        " characters"@,
    )
}

/// A string constraint with only a maximum length reads `at most` that many characters, and
/// an array constraint with only a maximum count `at most` that many items.
pub proof fn a_maximum_alone_is_a_ceiling(fields: Seq<(String, Json)>)
    ensures
        held_text(fields, "minLength"@) is None ==> match held_text(fields, "maxLength"@) {
            Some(h) => length_spec(fields) == "at most "@ + h + " characters"@,
            None => true,
        },
        held_text(fields, "minItems"@) is None ==> match held_text(fields, "maxItems"@) {
            Some(h) => count_spec(fields) == "at most "@ + h + " item(s)"@,
            None => true,
        },
{
    match held_text(fields, "maxLength"@) {
        Some(h) => a_lone_bound_reads_as_its_side(h, " characters"@, " characters"@),
        None => {},
    }
    match held_text(fields, "maxItems"@) {
        Some(h) => a_lone_bound_reads_as_its_side(h, " items"@, " item(s)"@),
        None => {},
    }
}

/// The texts among a list of values, in order.
pub open spec fn texts_among(items: Seq<Json>) -> Seq<Seq<char>>
    decreases items.len(),
{
    if items.len() == 0 {
        seq![]
    } else {
        let rest = texts_among(items.drop_last());
        match items.last() {
            Json::Str(s) => rest.push(s@),
            _ => rest,
        }
    }
}

/// A value's items, when it is an array.
pub open spec fn items_of(value: Option<Json>) -> Seq<Json> {
    match value {
        Some(Json::Array(items)) => items@,
        _ => seq![],
    }
}

/// A struct element's field names in their order, the required ones starred.
pub open spec fn fields_spec(properties: Json, required: Option<Json>) -> Seq<char> {
    let wanted = texts_among(items_of(required));
    let names = match properties {
        Json::Object(fs) => fs@.map_values(
            |f: (String, Json)|
                if wanted.contains(f.0@) {
                    f.0@ + "*"@
                } else {
                    f.0@
                },
        ),
        _ => seq![],
    };
    if names.len() == 0 {
        "no fields"@
    } else {
        "fields "@ + join_spec(names, ", "@)
    }
}

/// What `type` says: one name, names joined by `or`, or the value itself.
pub open spec fn type_phrase(value: Json) -> Seq<char> {
    match value {
        Json::Str(name) => name@,
        Json::Array(names) => join_spec(
            names@.map_values(
                |n: Json|
                    match n {
                        Json::Str(t) => t@,
                        _ => seq![],
                    },
            ),
            " or "@,
        ),
        other => json_text(other),
    }
}

/// The phrase an element constraint contributes: nothing, `of x`, or `of (x, y)`.
pub open spec fn element_phrase(inner: Seq<char>) -> Seq<Seq<char>> {
    if inner.len() == 0 {
        seq![]
    } else if inner.contains(',') {
        seq!["of ("@ + inner + ")"@]
    } else {
        seq!["of "@ + inner]
    }
}

/// Whether a field is present.
pub open spec fn present(fields: Seq<(String, Json)>, name: Seq<char>) -> bool {
    lookup(fields, name) is Some
}

/// What the keyword at index `i` of `constraint_order` contributes, given its value; the two
/// element keywords, `additionalProperties` and `items`, are said by `ordered_phrases`.
pub open spec fn keyword_phrase(fields: Seq<(String, Json)>, i: int, value: Json) -> Seq<
    Seq<char>,
> {
    if i == 0 {
        seq![type_phrase(value)]
    } else if i == 1 {
        seq!["exactly "@ + json_text(value)]
    } else if i == 2 {
        seq![
            "one of "@ + join_spec(
                items_of(Some(value)).map_values(|v: Json| json_text(v)),
                " | "@,
            ),
        ]
    } else if i == 3 {
        seq!["matching "@ + plain_spec(value)]
    } else if i == 4 {
        seq!["format "@ + plain_spec(value)]
    } else if i == 5 || i == 6 {
        seq![range_spec(fields)]
    } else if i == 7 || i == 8 {
        if !present(fields, "minimum"@) && !present(fields, "exclusiveMinimum"@) {
            seq![range_spec(fields)]
        } else {
            seq![]
        }
    } else if i == 9 {
        seq!["a multiple of "@ + json_text(value)]
    } else if i == 10 {
        seq![length_spec(fields)]
    } else if i == 11 {
        if !present(fields, "minLength"@) {
            seq![length_spec(fields)]
        } else {
            seq![]
        }
    } else if i == 12 {
        seq![count_spec(fields)]
    } else if i == 13 {
        if !present(fields, "minItems"@) {
            seq![count_spec(fields)]
        } else {
            seq![]
        }
    } else if i == 14 {
        if value == Json::Bool(true) {
            seq!["distinct"@]
        } else {
            seq![]
        }
    } else if i == 16 {
        seq![fields_spec(value, lookup(fields, "required"@))]
    } else {
        seq![]
    }
}

/// Whether a value is an object with at least one field.
pub open spec fn nonempty_object(value: Json) -> bool {
    match value {
        Json::Object(fs) => fs@.len() > 0,
        _ => false,
    }
}

/// The phrases of the keywords of `constraint_order` from index `i` on, in that order.
pub open spec fn ordered_phrases(fields: Seq<(String, Json)>, i: int) -> Seq<Seq<char>>
    decreases fields, (19 - i) as nat,
{
    if i < 0 || i >= 19 {
        seq![]
    } else {
        let keyword = constraint_order()[i];
        let k = field_at(fields, keyword, fields.len() as int);
        let here = if 0 <= k < fields.len() {
            let value = fields[k].1;
            if i == 17 || i == 18 {
                if nonempty_object(value) {
                    element_phrase(describe_spec(value))
                } else {
                    seq![]
                }
            } else {
                keyword_phrase(fields, i, value)
            }
        } else {
            seq![]
        };
        here + ordered_phrases(fields, i + 1)
    }
}

/// `keyword=value` for every field neither rendered as prose nor folded into one, in order.
pub open spec fn unrecognised(fields: Seq<(String, Json)>) -> Seq<Seq<char>>
    decreases fields.len(),
{
    if fields.len() == 0 {
        seq![]
    } else {
        let f = fields.last();
        let rest = unrecognised(fields.drop_last());
        if constraint_order().contains(f.0@) || constraint_folded().contains(f.0@) {
            rest
        } else {
            rest.push(f.0@ + "="@ + json_text(f.1))
        }
    }
}

/// A JSON Schema constraint object, as a phrase: the known keywords in their order, then the
/// others as `keyword=value`, joined by commas; nothing for anything but a non-empty object.
pub open spec fn describe_spec(constraint: Json) -> Seq<char>
    decreases constraint, 0nat,
{
    match constraint {
        Json::Object(fields) => if fields@.len() == 0 {
            seq![]
        } else {
            join_spec(ordered_phrases(fields@, 0) + unrecognised(fields@), ", "@)
        },
        _ => seq![],
    }
}

/// The keyword at index `i` of `constraint_order`.
fn constraint_keyword(i: usize) -> (s: &'static str)
    requires
        i < 19,
    ensures
        s@ == constraint_order()[i as int],
{
    match i {
        0 => "type",
        1 => "const",
        2 => "enum",
        3 => "pattern",
        4 => "format",
        5 => "minimum",
        6 => "exclusiveMinimum",
        7 => "maximum",
        8 => "exclusiveMaximum",
        9 => "multipleOf",
        10 => "minLength",
        11 => "maxLength",
        12 => "minItems",
        13 => "maxItems",
        14 => "uniqueItems",
        15 => "required",
        16 => "properties",
        17 => "additionalProperties",
        _ => "items",
    }
}

/// The keyword at index `i` of `constraint_folded`.
fn folded_keyword(i: usize) -> (s: &'static str)
    requires
        i < 11,
    ensures
        s@ == constraint_folded()[i as int],
{
    match i {
        0 => "exclusiveMinimum",
        1 => "exclusiveMaximum",
        2 => "maximum",
        3 => "maxLength",
        4 => "maxItems",
        5 => "required",
        6 => "description",
        7 => "title",
        8 => "default",
        9 => "examples",
        _ => "$comment",
    }
}

/// Whether a keyword is rendered as prose or folded into a phrase.
fn listed(name: &String) -> (b: bool)
    ensures
        b == (constraint_order().contains(name@) || constraint_folded().contains(name@)),
{
    let want = chars(name);
    let mut i: usize = 0;
    while i < 19
        invariant
            i <= 19,
            want@ == name@,
            forall|j: int| 0 <= j < i ==> constraint_order()[j] != name@,
        decreases 19 - i,
    {
        if same(&chars_of(constraint_keyword(i)), &want) {
            assert(constraint_order()[i as int] == name@);
            return true;
        }
        i = i + 1;
    }
    let mut m: usize = 0;
    while m < 11
        invariant
            m <= 11,
            want@ == name@,
            forall|j: int| 0 <= j < 19 ==> constraint_order()[j] != name@,
            forall|j: int| 0 <= j < m ==> constraint_folded()[j] != name@,
        decreases 11 - m,
    {
        if same(&chars_of(folded_keyword(m)), &want) {
            assert(constraint_folded()[m as int] == name@);
            return true;
        }
        m = m + 1;
    }
    false
}

/// A field's value as JSON text, when there is one.
fn held(fields: &Vec<(String, Json)>, name: &str) -> (r: Option<String>)
    ensures
        match r {
            Some(t) => held_text(fields@, name@) == Some(t@),
            None => held_text(fields@, name@) is None,
        },
{
    let k = field_index(fields, name);
    if k < fields.len() {
        Some(fields[k].1.to_json())
    } else {
        None
    }
}

/// Whether a field is present.
fn is_present(fields: &Vec<(String, Json)>, name: &str) -> (b: bool)
    ensures
        b == present(fields@, name@),
{
    field_index(fields, name) < fields.len()
}

/// A text behind a literal.
fn prefixed(head: &str, tail: &String) -> (v: Vec<char>)
    ensures
        v@ == head@ + tail@,
{
    let mut v = chars_of(head);
    push_str(&mut v, tail.as_str());
    v
}

/// The numeric bounds, folded into one phrase.
fn range(fields: &Vec<(String, Json)>) -> (s: String)
    ensures
        s@ == range_spec(fields@),
{
    let low = held(fields, "minimum");
    let low_open = held(fields, "exclusiveMinimum");
    let high = held(fields, "maximum");
    let high_open = held(fields, "exclusiveMaximum");
    let lower: Option<Vec<char>> = match &low_open {
        Some(b) => Some(prefixed("above ", b)),
        None => match &low {
            Some(l) => Some(chars(l)),
            None => None,
        },
    };
    let upper: Option<Vec<char>> = match &high_open {
        Some(b) => Some(prefixed("below ", b)),
        None => match &high {
            Some(h) => Some(chars(h)),
            None => None,
        },
    };
    let out: Vec<char> = match (&lower, &upper) {
        (Some(l), Some(u)) => {
            let mut v = l.clone();
            if low_open.is_none() && high_open.is_none() {
                push_str(&mut v, " to ");
            } else {
                push_str(&mut v, ", ");
            }
            push_all(&mut v, u);
            v
        },
        (Some(l), None) => {
            if low_open.is_some() {
                l.clone()
            } else {
                let mut v = chars_of("at least ");
                push_all(&mut v, l);
                v
            }
        },
        (None, Some(u)) => {
            if high_open.is_some() {
                u.clone()
            } else {
                let mut v = chars_of("at most ");
                push_all(&mut v, u);
                v
            }
        },
        (None, None) => Vec::new(),
    };
    string_of(&out)
}

/// The texts an optional text holds.
pub open spec fn opt_view(o: Option<String>) -> Option<Seq<char>> {
    match o {
        Some(t) => Some(t@),
        None => None,
    }
}

/// A pair of bounds in a unit.
fn bounds(low: Option<String>, high: Option<String>, both: &str, one: &str) -> (s: String)
    ensures
        s@ == bounds_spec(opt_view(low), opt_view(high), both@, one@),
{
    let mut v: Vec<char> = Vec::new();
    match (&low, &high) {
        (Some(l), Some(h)) => {
            push_str(&mut v, l.as_str());
            push_str(&mut v, " to ");
            push_str(&mut v, h.as_str());
            push_str(&mut v, both);
        },
        (Some(l), None) => {
            push_str(&mut v, "at least ");
            push_str(&mut v, l.as_str());
            push_str(&mut v, one);
        },
        (None, Some(h)) => {
            push_str(&mut v, "at most ");
            push_str(&mut v, h.as_str());
            push_str(&mut v, one);
        },
        (None, None) => {},
    }
    string_of(&v)
}

/// `minItems` and `maxItems`, folded into one phrase.
fn count(fields: &Vec<(String, Json)>) -> (s: String)
    ensures
        s@ == count_spec(fields@),
{
    bounds(held(fields, "minItems"), held(fields, "maxItems"), " items", " item(s)")
}

/// The string-length bounds, folded into one phrase.
fn length(fields: &Vec<(String, Json)>) -> (s: String)
    ensures
        s@ == length_spec(fields@),
{
    bounds(held(fields, "minLength"), held(fields, "maxLength"), " characters", " characters")
}

/// The texts among a list of values, in order.
fn texts_in(items: &Vec<Json>) -> (r: Vec<String>)
    ensures
        strs(r@) == texts_among(items@),
{
    let mut out: Vec<String> = Vec::new();
    let mut k: usize = 0;
    while k < items.len()
        invariant
            k <= items@.len(),
            strs(out@) == texts_among(items@.take(k as int)),
        decreases items.len() - k,
    {
        assert(items@.take(k + 1).drop_last() =~= items@.take(k as int));
        assert(items@.take(k + 1).last() == items@[k as int]);
        match &items[k] {
            Json::Str(t) => {
                let ghost before = strs(out@);
                out.push(t.clone());
                assert(strs(out@) =~= before.push(t@));
            },
            _ => {},
        }
        k = k + 1;
    }
    assert(items@.take(items@.len() as int) =~= items@);
    out
}

/// Whether a list of texts holds one.
fn holds(list: &Vec<String>, name: &String) -> (b: bool)
    ensures
        b == strs(list@).contains(name@),
{
    let mut k: usize = 0;
    while k < list.len()
        invariant
            k <= list@.len(),
            forall|j: int| 0 <= j < k ==> strs(list@)[j] != name@,
        decreases list.len() - k,
    {
        if list[k] == *name {
            assert(strs(list@)[k as int] == name@);
            return true;
        }
        k = k + 1;
    }
    false
}

/// A struct element's field names in their order, the required ones starred.
fn fields_phrase(properties: &Json, required: Option<&Json>) -> (s: String)
    ensures
        s@ == fields_spec(
            *properties,
            match required {
                Some(r) => Some(*r),
                None => None,
            },
        ),
{
    let ghost req = match required {
        Some(r) => Some(*r),
        None => None::<Json>,
    };
    let wanted: Vec<String> = match required {
        Some(Json::Array(items)) => texts_in(items),
        _ => Vec::new(),
    };
    assert(strs(wanted@) =~= texts_among(items_of(req)));
    let mut names: Vec<Vec<char>> = Vec::new();
    match properties {
        Json::Object(fs) => {
            let ghost mark = |f: (String, Json)|
                if strs(wanted@).contains(f.0@) {
                    f.0@ + "*"@
                } else {
                    f.0@
                };
            let mut k: usize = 0;
            while k < fs.len()
                invariant
                    k <= fs@.len(),
                    views(names@) == fs@.take(k as int).map_values(mark),
                    mark == (|f: (String, Json)|
                        if strs(wanted@).contains(f.0@) {
                            f.0@ + "*"@
                        } else {
                            f.0@
                        }),
                decreases fs.len() - k,
            {
                let mut name = chars(&fs[k].0);
                if holds(&wanted, &fs[k].0) {
                    name.push('*');
                    proof {
                        reveal_strlit("*");
                    }
                    assert(name@ =~= fs@[k as int].0@ + "*"@);
                }
                let ghost before = views(names@);
                names.push(name);
                assert(views(names@) =~= before.push(name@));
                assert(fs@.take(k + 1).map_values(mark) =~= fs@.take(k as int).map_values(
                    mark,
                ).push(mark(fs@[k as int])));
                k = k + 1;
            }
            assert(fs@.take(fs@.len() as int) =~= fs@);
        },
        _ => {
            assert(views(names@) =~= Seq::<Seq<char>>::empty());
        },
    }
    if names.len() == 0 {
        "no fields".to_owned()
    } else {
        let mut v = chars_of("fields ");
        let joined = join(&names, &chars_of(", "));
        push_all(&mut v, &joined);
        string_of(&v)
    }
}

/// What `type` says: one name, names joined by `or`, or the value itself.
fn type_text(value: &Json) -> (s: String)
    ensures
        s@ == type_phrase(*value),
{
    match value {
        Json::Str(name) => name.clone(),
        Json::Array(names) => {
            let ghost name_of = |n: Json|
                match n {
                    Json::Str(t) => t@,
                    _ => Seq::<char>::empty(),
                };
            let mut parts: Vec<Vec<char>> = Vec::new();
            let mut k: usize = 0;
            while k < names.len()
                invariant
                    k <= names@.len(),
                    views(parts@) == names@.take(k as int).map_values(name_of),
                    name_of == (|n: Json|
                        match n {
                            Json::Str(t) => t@,
                            _ => Seq::<char>::empty(),
                        }),
                decreases names.len() - k,
            {
                let part = match &names[k] {
                    Json::Str(t) => chars(t),
                    _ => Vec::new(),
                };
                let ghost before = views(parts@);
                parts.push(part);
                assert(views(parts@) =~= before.push(part@));
                assert(names@.take(k + 1).map_values(name_of) =~= names@.take(k as int).map_values(
                    name_of,
                ).push(name_of(names@[k as int])));
                k = k + 1;
            }
            assert(names@.take(names@.len() as int) =~= names@);
            string_of(&join(&parts, &chars_of(" or ")))
        },
        other => other.to_json(),
    }
}

/// One scalar without the quotes JSON would put round it.
pub(crate) fn plain(value: &Json) -> (s: String)
    ensures
        s@ == plain_spec(*value),
{
    match value {
        Json::Str(t) => t.clone(),
        other => other.to_json(),
    }
}

/// Every item of an array as JSON text, joined by ` | `; nothing for anything else.
fn enum_text(value: &Json) -> (s: Vec<char>)
    ensures
        s@ == join_spec(items_of(Some(*value)).map_values(|v: Json| json_text(v)), " | "@),
{
    let mut parts: Vec<Vec<char>> = Vec::new();
    match value {
        Json::Array(items) => {
            let mut k: usize = 0;
            while k < items.len()
                invariant
                    k <= items@.len(),
                    views(parts@) == items@.take(k as int).map_values(|v: Json| json_text(v)),
                decreases items.len() - k,
            {
                let part = chars(&items[k].to_json());
                let ghost before = views(parts@);
                parts.push(part);
                assert(views(parts@) =~= before.push(part@));
                assert(items@.take(k + 1).map_values(|v: Json| json_text(v)) =~= items@.take(
                    k as int,
                ).map_values(|v: Json| json_text(v)).push(json_text(items@[k as int])));
                k = k + 1;
            }
            assert(items@.take(items@.len() as int) =~= items@);
        },
        _ => {
            assert(views(parts@) =~= items_of(Some(*value)).map_values(|v: Json| json_text(v)));
        },
    }
    join(&parts, &chars_of(" | "))
}

/// One phrase, as the list of phrases it makes.
fn single(v: Vec<char>) -> (r: Vec<Vec<char>>)
    ensures
        views(r@) == seq![v@],
{
    let r = vec![v];
    assert(views(r@) =~= seq![r@[0]@]);
    r
}

/// One phrase behind a literal.
fn said(head: &str, tail: &String) -> (r: Vec<Vec<char>>)
    ensures
        views(r@) == seq![head@ + tail@],
{
    single(prefixed(head, tail))
}

/// What the keyword at index `i` of `constraint_order` contributes, given its value.
fn keyword_text(fields: &Vec<(String, Json)>, i: usize, value: &Json) -> (r: Vec<Vec<char>>)
    requires
        i < 19,
    ensures
        views(r@) == keyword_phrase(fields@, i as int, *value),
{
    let none: Vec<Vec<char>> = Vec::new();
    assert(views(none@) =~= Seq::<Seq<char>>::empty());
    if i == 0 {
        single(chars(&type_text(value)))
    } else if i == 1 {
        said("exactly ", &value.to_json())
    } else if i == 2 {
        let mut v = chars_of("one of ");
        push_all(&mut v, &enum_text(value));
        single(v)
    } else if i == 3 {
        said("matching ", &plain(value))
    } else if i == 4 {
        said("format ", &plain(value))
    } else if i == 5 || i == 6 {
        single(chars(&range(fields)))
    } else if i == 7 || i == 8 {
        if !is_present(fields, "minimum") && !is_present(fields, "exclusiveMinimum") {
            single(chars(&range(fields)))
        } else {
            none
        }
    } else if i == 9 {
        said("a multiple of ", &value.to_json())
    } else if i == 10 {
        single(chars(&length(fields)))
    } else if i == 11 {
        if !is_present(fields, "minLength") {
            single(chars(&length(fields)))
        } else {
            none
        }
    } else if i == 12 {
        single(chars(&count(fields)))
    } else if i == 13 {
        if !is_present(fields, "minItems") {
            single(chars(&count(fields)))
        } else {
            none
        }
    } else if i == 14 {
        match value {
            Json::Bool(true) => single(chars_of("distinct")),
            _ => none,
        }
    } else if i == 16 {
        let k = field_index(fields, "required");
        let required = if k < fields.len() {
            Some(&fields[k].1)
        } else {
            None
        };
        single(chars(&fields_phrase(value, required)))
    } else {
        none
    }
}

/// A JSON Schema constraint object, as a phrase.
fn describe(constraint: &Json) -> (s: String)
    ensures
        s@ == describe_spec(*constraint),
    decreases constraint,
{
    match constraint {
        Json::Object(fields) => {
            if fields.len() == 0 {
                return String::new();
            }
            let mut parts: Vec<Vec<char>> = Vec::new();
            let mut i: usize = 0;
            while i < 19
                invariant
                    i <= 19,
                    *constraint == Json::Object(*fields),
                    views(parts@) + ordered_phrases(fields@, i as int) == ordered_phrases(
                        fields@,
                        0,
                    ),
                decreases 19 - i,
            {
                let keyword = constraint_keyword(i);
                let k = field_index(fields, keyword);
                let mut more: Vec<Vec<char>> = Vec::new();
                if k < fields.len() {
                    let value = &fields[k].1;
                    if i == 17 || i == 18 {
                        let object = match value {
                            Json::Object(fs) => fs.len() > 0,
                            _ => false,
                        };
                        if object {
                            proof {
                                assert(decreases_to!(*constraint => (*constraint)->Object_0));
                                assert(decreases_to!(*fields => fields@));
                                assert(decreases_to!(fields@ => fields@[k as int]));
                                assert(decreases_to!(fields@[k as int] => fields@[k as int].1));
                            }
                            let inner = chars(&describe(value));
                            if inner.len() > 0 {
                                if contains_char(&inner, ',') {
                                    let mut v = chars_of("of (");
                                    push_all(&mut v, &inner);
                                    push_str(&mut v, ")");
                                    more = single(v);
                                } else {
                                    let mut v = chars_of("of ");
                                    push_all(&mut v, &inner);
                                    more = single(v);
                                }
                            }
                        }
                    } else {
                        more = keyword_text(fields, i, value);
                    }
                }
                let ghost before = views(parts@);
                let ghost added = views(more@);
                assert(added == (if k < fields@.len() {
                    let value = fields@[k as int].1;
                    if i == 17 || i == 18 {
                        if nonempty_object(value) {
                            element_phrase(describe_spec(value))
                        } else {
                            seq![]
                        }
                    } else {
                        keyword_phrase(fields@, i as int, value)
                    }
                } else {
                    seq![]
                }));
                parts.append(&mut more);
                assert(views(parts@) =~= before + added);
                i = i + 1;
            }
            let mut k: usize = 0;
            let ghost ordered = views(parts@);
            while k < fields.len()
                invariant
                    k <= fields@.len(),
                    views(parts@) == ordered + unrecognised(fields@.take(k as int)),
                decreases fields.len() - k,
            {
                assert(fields@.take(k + 1).drop_last() =~= fields@.take(k as int));
                assert(fields@.take(k + 1).last() == fields@[k as int]);
                if !listed(&fields[k].0) {
                    let mut v = chars(&fields[k].0);
                    push_str(&mut v, "=");
                    push_str(&mut v, fields[k].1.to_json().as_str());
                    let ghost before = views(parts@);
                    parts.push(v);
                    assert(views(parts@) =~= before.push(v@));
                }
                k = k + 1;
            }
            assert(fields@.take(fields@.len() as int) =~= fields@);
            string_of(&join(&parts, &chars_of(", ")))
        },
        _ => String::new(),
    }
}

/// A JSON Schema constraint object, as a phrase.
///
/// Bounds are folded into one range, an element constraint under `items` or
/// `additionalProperties` is described in turn, a struct element is named by its fields, and an
/// unrecognised keyword is printed as `keyword=value` rather than dropped.
pub fn describe_constraint(constraint: Option<&Json>) -> (s: String)
    ensures
        s@ == match constraint {
            Some(c) => describe_spec(*c),
            None => Seq::<char>::empty(),
        },
{
    match constraint {
        Some(c) => describe(c),
        None => String::new(),
    }
}

} // verus!
