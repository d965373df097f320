//! The credential reference each chart's README carries, written between two HTML comments.
//!
//! The chart chooses where the block sits; this module owns only what is between the markers. The
//! markers are whole lines, matched with their indentation ignored, and the block takes the opening
//! marker's indentation so that a reference nested in a list item stays nested.

use vstd::prelude::*;

use crate::declaration::{CredentialNote, Declaration};
use crate::json::{dig_spec, has_path, Json};
use crate::order::{insert_keeping, nondecreasing};
use crate::secrets::Credential;
use crate::text::{
    chars, chars_of, contains_str, decimal, decimal_of, join, join_spec, lines, lines_spec,
    push_all, push_str, skip_ws, slice_of, split_sep, split_str, string_of, strs, trim,
    trim_spec, trim_start_at, views, all_problems, all_writes, pairs, Passes,
};

verus! {

/// The comment the generated block opens with.
pub const OPEN: &'static str = "<!-- @config-credentials -->";

/// The comment the generated block closes with.
pub const CLOSE: &'static str = "<!-- @config-credentials end -->";

/// The file the block lives in.
pub const TEMPLATE: &'static str = "README.md.gotmpl";

/// What one pass over the chart tree found.
pub struct Written {
    /// Everything that stopped a reference being written or made it wrong.
    pub problems: Vec<String>,
    /// How many templates were rewritten.
    pub touched: usize,
}

/// A result, as the texts it carries.
pub open spec fn outcome(r: Result<String, String>) -> Result<Seq<char>, Seq<char>> {
    match r {
        Ok(s) => Ok(s@),
        Err(e) => Err(e@),
    }
}

/// The line ending a text already uses: `\r\n` wherever it holds one, `\n` otherwise.
pub open spec fn ending_of(text: Seq<char>) -> Seq<char> {
    if crate::text::contains_spec(text, "\r\n"@) {
        "\r\n"@
    } else {
        "\n"@
    }
}

/// The indices, below `n`, of the lines that are `marker` once trimmed.
pub open spec fn marked(lines: Seq<Seq<char>>, marker: Seq<char>, n: int) -> Seq<int>
    decreases n,
{
    if n <= 0 {
        seq![]
    } else if trim_spec(lines[n - 1]) == marker {
        marked(lines, marker, n - 1).push(n - 1)
    } else {
        marked(lines, marker, n - 1)
    }
}

/// The whitespace a line opens with.
pub open spec fn leading_ws(line: Seq<char>) -> Seq<char> {
    line.take(skip_ws(line, 0))
}

/// One generated line as it is written under the opening marker: indented like it, unless it is
/// blank, which gains no trailing whitespace.
pub open spec fn indented(line: Seq<char>, indent: Seq<char>) -> Seq<char> {
    if line.len() == 0 {
        line
    } else {
        indent + line
    }
}

/// The lines of a template with the block between the markers at `open` and `close` replaced.
pub open spec fn spliced(
    lines: Seq<Seq<char>>,
    open: int,
    close: int,
    block: Seq<Seq<char>>,
) -> Seq<Seq<char>> {
    let indent = leading_ws(lines[open]);
    lines.take(open + 1) + block.map_values(|line: Seq<char>| indented(line, indent)) + lines.skip(
        close,
    )
}

/// Why a template with the wrong number of markers cannot be spliced.
pub open spec fn miscounted(where_: Seq<char>, opens: nat, closes: nat) -> Seq<char> {
    where_ + ": carries "@ + decimal(opens) + " `"@ + OPEN@ + "` and "@ + decimal(closes) + " `"@
        + CLOSE@ + "` markers, and a generated block is delimited by exactly one of each"@
}

/// Why a template whose closing marker comes first cannot be spliced.
pub open spec fn inverted(where_: Seq<char>) -> Seq<char> {
    where_ + ": the `"@ + CLOSE@ + "` marker sits above the `"@ + OPEN@ + "` one"@
}

/// One template with the block between its markers replaced, or why it cannot be.
pub open spec fn splice_spec(text: Seq<char>, block: Seq<Seq<char>>, where_: Seq<char>) -> Result<
    Seq<char>,
    Seq<char>,
> {
    let ending = ending_of(text);
    let lines = split_sep(text, ending);
    let opens = marked(lines, OPEN@, lines.len() as int);
    let closes = marked(lines, CLOSE@, lines.len() as int);
    if opens.len() != 1 || closes.len() != 1 {
        Err(miscounted(where_, opens.len(), closes.len()))
    } else if closes[0] < opens[0] {
        Err(inverted(where_))
    } else {
        Ok(join_spec(spliced(lines, opens[0], closes[0], block), ending))
    }
}

proof fn lemma_marked_bounds(lines: Seq<Seq<char>>, marker: Seq<char>, n: int)
    requires
        0 <= n <= lines.len(),
    ensures
        forall|k: int|
            0 <= k < marked(lines, marker, n).len() ==> 0 <= #[trigger] marked(lines, marker, n)[k]
                < n,
    decreases n,
{
    if n > 0 {
        lemma_marked_bounds(lines, marker, n - 1);
        let prev = marked(lines, marker, n - 1);
        if trim_spec(lines[n - 1]) == marker {
            assert forall|k: int| 0 <= k < prev.push(n - 1).len() implies 0 <= #[trigger] prev.push(
                n - 1,
            )[k] < n by {
                if k < prev.len() {
                    assert(prev.push(n - 1)[k] == prev[k]);
                }
            }
        }
    }
}

/// The lines that are `marker` once trimmed, by index.
fn marked_lines(lines: &Vec<Vec<char>>, marker: &str) -> (found: Vec<usize>)
    ensures
        found@.len() == marked(views(lines@), marker@, lines@.len() as int).len(),
        forall|k: int|
            0 <= k < found@.len() ==> found@[k] as int == marked(
                views(lines@),
                marker@,
                lines@.len() as int,
            )[k],
{
    let want = chars_of(marker);
    let mut found: Vec<usize> = Vec::new();
    let mut i: usize = 0;
    while i < lines.len()
        invariant
            i <= lines@.len(),
            want@ == marker@,
            found@.len() == marked(views(lines@), marker@, i as int).len(),
            forall|k: int|
                0 <= k < found@.len() ==> found@[k] as int == marked(
                    views(lines@),
                    marker@,
                    i as int,
                )[k],
        decreases lines.len() - i,
    {
        let t = trim(&lines[i]);
        assert(views(lines@)[i as int] == lines@[i as int]@);
        if crate::text::same(&t, &want) {
            found.push(i);
        }
        i = i + 1;
    }
    found
}

/// One README template with the block between its markers replaced.
///
/// The markers are matched as whole lines, and the opening one's indentation is given to every
/// non-blank line of the block. Anything but exactly one pair, the opening one first, is refused
/// with the message saying so; the line ending the text already uses is the one written back.
pub fn splice(text: &str, block: &Vec<String>, where_: &str) -> (r: Result<String, String>)
    ensures
        outcome(r) == splice_spec(text@, strs(block@), where_@),
{
    let held = chars_of(text);
    let crlf = contains_str(&held, "\r\n");
    let ending = if crlf {
        chars_of("\r\n")
    } else {
        chars_of("\n")
    };
    assert(ending@ == ending_of(text@));
    proof {
        reveal_strlit("\r\n");
        reveal_strlit("\n");
    }
    let lines = split_str(&held, &ending);
    let ghost ls = views(lines@);
    let opens = marked_lines(&lines, OPEN);
    let closes = marked_lines(&lines, CLOSE);
    if opens.len() != 1 || closes.len() != 1 {
        let mut message = chars_of(where_);
        push_str(&mut message, ": carries ");
        let n = decimal_of(opens.len() as u64);
        push_all(&mut message, &n);
        push_str(&mut message, " `");
        push_str(&mut message, OPEN);
        push_str(&mut message, "` and ");
        let m = decimal_of(closes.len() as u64);
        push_all(&mut message, &m);
        push_str(&mut message, " `");
        push_str(&mut message, CLOSE);
        push_str(&mut message, "` markers, and a generated block is delimited by exactly one of each");
        return Err(string_of(&message));
    }
    let open = opens[0];
    let close = closes[0];
    if close < open {
        let mut message = chars_of(where_);
        push_str(&mut message, ": the `");
        push_str(&mut message, CLOSE);
        push_str(&mut message, "` marker sits above the `");
        push_str(&mut message, OPEN);
        push_str(&mut message, "` one");
        return Err(string_of(&message));
    }
    proof {
        lemma_marked_bounds(ls, OPEN@, ls.len() as int);
        lemma_marked_bounds(ls, CLOSE@, ls.len() as int);
        assert(marked(ls, OPEN@, ls.len() as int)[0] == open as int);
        assert(marked(ls, CLOSE@, ls.len() as int)[0] == close as int);
    }
    let start = trim_start_at(&lines[open]);
    let indent = slice_of(&lines[open], 0, start);
    assert(indent@ == leading_ws(ls[open as int]));
    let mut written: Vec<Vec<char>> = Vec::new();
    let count = lines.len();
    let mut i: usize = 0;
    while i <= open
        invariant
            open < lines@.len() <= usize::MAX,
            ls == views(lines@),
            i <= open + 1,
            views(written@) == ls.take(i as int),
        decreases open + 1 - i,
    {
        let copy = slice_of(&lines[i], 0, lines[i].len());
        assert(copy@ =~= ls[i as int]);
        let ghost before = views(written@);
        written.push(copy);
        assert(views(written@) == before.push(copy@));
        assert(views(written@) =~= ls.take(i + 1));
        i = i + 1;
    }
    let ghost head = views(written@);
    let ghost body = strs(block@).map_values(|line: Seq<char>| indented(line, indent@));
    let mut j: usize = 0;
    while j < block.len()
        invariant
            j <= block@.len(),
            views(written@) == head + body.take(j as int),
            body == strs(block@).map_values(|line: Seq<char>| indented(line, indent@)),
        decreases block.len() - j,
    {
        let line = chars(&block[j]);
        let mut out: Vec<char> = Vec::new();
        if line.len() > 0 {
            push_all(&mut out, &indent);
            push_all(&mut out, &line);
        }
        assert(out@ == body[j as int]);
        let ghost before = views(written@);
        written.push(out);
        assert(views(written@) == before.push(out@));
        assert(views(written@) =~= head + body.take(j + 1));
        j = j + 1;
    }
    assert(body.take(block@.len() as int) == body);
    let ghost middle = views(written@);
    let mut k: usize = close;
    while k < lines.len()
        invariant
            close <= k <= lines@.len(),
            ls == views(lines@),
            views(written@) == middle + ls.subrange(close as int, k as int),
        decreases lines.len() - k,
    {
        let copy = slice_of(&lines[k], 0, lines[k].len());
        assert(copy@ =~= ls[k as int]);
        let ghost before = views(written@);
        written.push(copy);
        assert(views(written@) == before.push(copy@));
        assert(views(written@) =~= middle + ls.subrange(close as int, k + 1));
        k = k + 1;
    }
    assert(ls.subrange(close as int, ls.len() as int) =~= ls.skip(close as int));
    assert(views(written@) =~= spliced(ls, open as int, close as int, strs(block@)));
    let joined = join(&written, &ending);
    Ok(string_of(&joined))
}

/// Whether a template carries the opening marker as a line of its own.
pub open spec fn carries_markers_spec(text: Seq<char>) -> bool {
    exists|k: int|
        0 <= k < lines_spec(text).len() && trim_spec(#[trigger] lines_spec(text)[k]) == OPEN@
}

/// Whether a template carries the opening marker at all: a mention of it inside a line of prose is
/// not one.
pub fn carries_markers(text: &str) -> (b: bool)
    ensures
        b == carries_markers_spec(text@),
{
    let held = chars_of(text);
    let all = lines(&held);
    let want = chars_of(OPEN);
    let ghost ls = lines_spec(text@);
    let mut i: usize = 0;
    while i < all.len()
        invariant
            i <= all@.len(),
            views(all@) == ls,
            ls == lines_spec(text@),
            want@ == OPEN@,
            forall|k: int| 0 <= k < i ==> trim_spec(#[trigger] ls[k]) != OPEN@,
        decreases all.len() - i,
    {
        let t = trim(&all[i]);
        assert(ls.len() == all@.len());
        assert(ls[i as int] == all@[i as int]@);
        if crate::text::same(&t, &want) {
            assert(trim_spec(lines_spec(text@)[i as int]) == OPEN@);
            return true;
        }
        i = i + 1;
    }
    false
}

/// The lines of `these` that `others` does not hold, each marked and ended.
pub open spec fn moved(these: Seq<Seq<char>>, others: Seq<Seq<char>>, mark: char) -> Seq<char>
    decreases these.len(),
{
    if these.len() == 0 {
        seq![]
    } else {
        moved(these.drop_last(), others, mark) + if others.contains(these.last()) {
            seq![]
        } else {
            seq![mark] + these.last() + seq!['\n']
        }
    }
}

/// The lines that moved between two renderings of one template.
pub open spec fn difference_spec(before: Seq<char>, after: Seq<char>, at: Seq<char>) -> Seq<char> {
    "--- "@ + at + "\n+++ the contract\n"@ + moved(lines_spec(before), lines_spec(after), '-')
        + moved(lines_spec(after), lines_spec(before), '+')
}

/// Whether a list of lines holds one.
fn holds(all: &Vec<Vec<char>>, line: &Vec<char>) -> (b: bool)
    ensures
        b == views(all@).contains(line@),
{
    let mut i: usize = 0;
    while i < all.len()
        invariant
            i <= all@.len(),
            forall|k: int| 0 <= k < i ==> views(all@)[k] != line@,
        decreases all.len() - i,
    {
        if crate::text::same(&all[i], line) {
            assert(views(all@)[i as int] == line@);
            return true;
        }
        i = i + 1;
    }
    false
}

/// Append the lines of `these` that `others` does not hold.
fn push_moved(out: &mut Vec<char>, these: &Vec<Vec<char>>, others: &Vec<Vec<char>>, mark: char)
    ensures
        final(out)@ == old(out)@ + moved(views(these@), views(others@), mark),
{
    let ghost ts = views(these@);
    let mut i: usize = 0;
    while i < these.len()
        invariant
            i <= these@.len(),
            ts == views(these@),
            out@ == old(out)@ + moved(ts.take(i as int), views(others@), mark),
        decreases these.len() - i,
    {
        assert(ts.take(i + 1).drop_last() =~= ts.take(i as int));
        assert(ts.take(i + 1).last() == these@[i as int]@);
        if !holds(others, &these[i]) {
            out.push(mark);
            push_all(out, &these[i]);
            out.push('\n');
        }
        assert(out@ =~= old(out)@ + moved(ts.take(i + 1), views(others@), mark));
        i = i + 1;
    }
    assert(ts.take(these@.len() as int) =~= ts);
}

/// The lines that moved, as a failing check prints them: those only the
/// current template holds, then those only the regenerated one does.
pub fn difference(before: &str, after: &str, at: &str) -> (s: String)
    ensures
        s@ == difference_spec(before@, after@, at@),
{
    let b = lines(&chars_of(before));
    let a = lines(&chars_of(after));
    let mut out = chars_of("--- ");
    push_str(&mut out, at);
    push_str(&mut out, "\n+++ the contract\n");
    push_moved(&mut out, &b, &a, '-');
    push_moved(&mut out, &a, &b, '+');
    string_of(&out)
}

// ------------------------------------------------------------------------------------------------
// The block
// ------------------------------------------------------------------------------------------------

/// The first note a declaration holds for a configuration path.
pub open spec fn note_for(notes: Seq<CredentialNote>, path: Seq<char>, n: int) -> Option<CredentialNote>
    decreases n,
{
    if n <= 0 {
        None
    } else {
        match note_for(notes, path, n - 1) {
            Some(found) => Some(found),
            None => if notes[n - 1].key@ == path {
                Some(notes[n - 1])
            } else {
                None
            },
        }
    }
}

/// Whether a credential row carries a path.
pub open spec fn row_carries(rows: Seq<Credential>, path: Seq<char>) -> bool {
    exists|i: int| 0 <= i < rows.len() && #[trigger] rows[i].path@ == path
}

/// The notes, in order, whose key no row carries.
pub open spec fn unknown_notes(notes: Seq<CredentialNote>, rows: Seq<Credential>) -> Seq<Seq<char>>
    decreases notes.len(),
{
    if notes.len() == 0 {
        seq![]
    } else if row_carries(rows, notes.last().key@) {
        unknown_notes(notes.drop_last(), rows)
    } else {
        unknown_notes(notes.drop_last(), rows).push(notes.last().key@)
    }
}

/// The chart values, in order, that the notes name and the values file does not expose.
pub open spec fn missing_values(notes: Seq<CredentialNote>, values: Json) -> Seq<Seq<char>>
    decreases notes.len(),
{
    if notes.len() == 0 {
        seq![]
    } else {
        let rest = missing_values(notes.drop_last(), values);
        match notes.last().value {
            Some(v) => if dig_spec(values, crate::text::split_spec(v@, '.')) is Some {
                rest
            } else {
                rest.push(v@)
            },
            None => rest,
        }
    }
}

/// A name as a message quotes it.
pub open spec fn in_quotes(name: Seq<char>) -> Seq<char> {
    "'"@ + name + "'"@
}

/// Names as a message lists them.
pub open spec fn quoted_list(names: Seq<Seq<char>>) -> Seq<char> {
    join_spec(names.map_values(|n: Seq<char>| in_quotes(n)), ", "@)
}

/// Why a note for a credential no contract declares is refused.
pub open spec fn outlived(path: Seq<char>, unknown: Seq<Seq<char>>) -> Seq<char> {
    path + ": `credentials` carries an entry for "@ + quoted_list(unknown)
        + ", which no contract this chart declares marks `secret: true` — the entry has outlived the credential it described"@
}

/// Why a note naming a chart value the chart does not expose is refused.
pub open spec fn renamed(path: Seq<char>, missing: Seq<Seq<char>>) -> Seq<char> {
    path + ": `credentials` names the chart value(s) "@ + quoted_list(missing)
        + ", which this chart's values.yaml does not expose — a renamed value leaves the reference telling operators to set something that does nothing"@
}

/// The paragraph the block opens with.
pub open spec fn intro() -> Seq<Seq<char>> {
    seq![
        "Every credential below is read from a **file in the secrets directory**, named for the"@,
        "configuration path it carries with `.` written as `__`. A file spelt any other way is"@,
        "mounted and never read. Those names are the keys of the Secret this chart mounts, except"@,
        "where a note below says otherwise."@,
        Seq::<char>::empty(),
    ]
}

/// The columns, each optional one only where it carries something.
pub open spec fn columns(chart_values: bool, multi: bool, annotated: bool) -> Seq<Seq<char>> {
    seq!["Secrets file"@, "Required"@] + (if chart_values { seq!["Chart value"@] } else { seq![] })
        + (if multi { seq!["Read by"@] } else { seq![] }) + (if annotated { seq!["When"@] } else { seq![] })
}

/// One table line from its cells.
pub open spec fn table_line(cells: Seq<Seq<char>>) -> Seq<char> {
    "| "@ + join_spec(cells, " | "@) + " |"@
}

/// The line under the header, one `---` per column.
pub open spec fn rule(n: nat) -> Seq<char> {
    "|"@ + join_spec(Seq::new(n, |i: int| "---"@), "|"@) + "|"@
}

/// A name in backticks.
pub open spec fn ticked(name: Seq<char>) -> Seq<char> {
    "`"@ + name + "`"@
}

/// One credential's cells.
pub open spec fn cells(row: Credential, note: Option<CredentialNote>, chart_values: bool, multi: bool, annotated: bool) -> Seq<Seq<char>> {
    seq![ticked(row.secrets_file@), if row.required { "yes"@ } else { "no"@ }] + (if chart_values {
        seq![match note {
            Some(n) => match n.value {
                Some(v) => ticked(v@),
                None => Seq::<char>::empty(),
            },
            None => Seq::<char>::empty(),
        }]
    } else {
        seq![]
    }) + (if multi {
        seq![join_spec(strs(row.documents@).map_values(|d: Seq<char>| ticked(d)), ", "@)]
    } else {
        seq![]
    }) + (if annotated {
        seq![match note {
            Some(n) => match n.note {
                Some(w) => w@,
                None => Seq::<char>::empty(),
            },
            None => Seq::<char>::empty(),
        }]
    } else {
        seq![]
    })
}

/// The paragraph naming the variable spelling, where every document agrees on one.
pub open spec fn spelling_note(prefix: Option<Seq<char>>) -> Seq<Seq<char>> {
    match prefix {
        Some(p) => seq![
            Seq::<char>::empty(),
            "The same value is addressable as the variable `"@ + p + "<PATH>`, upper-cased with `.`"@,
            "written as `__`, and that spelling with `_FILE` appended names a file whose contents"@,
            "supply it."@,
        ],
        None => seq![],
    }
}

/// Whether any note names a chart value.
pub open spec fn any_value(notes: Seq<CredentialNote>) -> bool {
    exists|i: int| 0 <= i < notes.len() && #[trigger] notes[i].value is Some
}

/// Whether any note says when the credential is needed.
pub open spec fn any_note(notes: Seq<CredentialNote>) -> bool {
    exists|i: int| 0 <= i < notes.len() && #[trigger] notes[i].note is Some
}

/// The generated reference for one chart, as the lines between the markers.
pub open spec fn block_lines(declaration: Declaration, rows: Seq<Credential>, prefix: Option<Seq<char>>) -> Seq<Seq<char>> {
    let notes = declaration.credentials@;
    let chart_values = any_value(notes);
    let multi = declaration.documents@.len() > 1;
    let annotated = any_note(notes);
    let cols = columns(chart_values, multi, annotated);
    intro() + seq![table_line(cols), rule(cols.len())] + rows.map_values(
        |row: Credential| table_line(cells(row, note_for(notes, row.path@, notes.len() as int), chart_values, multi, annotated)),
    ) + spelling_note(prefix)
}

/// The credentials table of a chart's reference: after the five lines of introduction, its header
/// names the secrets file and whether it is required, then a chart value column exactly when a note
/// names a chart value, a reader column exactly when the chart declares more than one document, and
/// a condition column exactly when a note says when the credential is needed; then the rule under
/// it, then one line per credential row, in order.
pub proof fn the_table_has_a_column_per_note_kind_and_a_line_per_row(
    declaration: Declaration,
    rows: Seq<Credential>,
    prefix: Option<Seq<char>>,
)
    ensures
        ({
            let ls = block_lines(declaration, rows, prefix);
            let notes = declaration.credentials@;
            let (chart_values, multi, annotated) = (any_value(notes), declaration.documents@.len() > 1, any_note(notes));
            let cols = columns(chart_values, multi, annotated);
            &&& intro().len() == 5
            &&& cols == seq!["Secrets file"@, "Required"@] + (if chart_values { seq!["Chart value"@] } else { seq![] })
                + (if multi { seq!["Read by"@] } else { seq![] }) + (if annotated { seq!["When"@] } else { seq![] })
            &&& ls[5] == table_line(cols)
            &&& ls[6] == rule(cols.len())
            &&& forall|i: int| 0 <= i < rows.len() ==> #[trigger] ls[7 + i] == table_line(
                cells(rows[i], note_for(notes, rows[i].path@, notes.len() as int), chart_values, multi, annotated),
            )
        }),
{
    let ls = block_lines(declaration, rows, prefix);
    let notes = declaration.credentials@;
    let (chart_values, multi, annotated) = (any_value(notes), declaration.documents@.len() > 1, any_note(notes));
    assert(ls.len() >= 7 + rows.len());
    assert forall|i: int| 0 <= i < rows.len() implies #[trigger] ls[7 + i] == table_line(
        cells(rows[i], note_for(notes, rows[i].path@, notes.len() as int), chart_values, multi, annotated),
    ) by {
        assert(intro().len() == 5);
    }
}

/// A credential row's first two cells are its secrets file and whether it is required: `yes`
/// exactly when the credential is required, `no` when it is not.
pub proof fn the_required_cell_says_whether_the_row_is_required(
    row: Credential,
    note: Option<CredentialNote>,
    chart_values: bool,
    multi: bool,
    annotated: bool,
)
    ensures
        cells(row, note, chart_values, multi, annotated)[0] == "`"@ + row.secrets_file@ + "`"@,
        cells(row, note, chart_values, multi, annotated)[1] == "yes"@ <==> row.required,
        cells(row, note, chart_values, multi, annotated)[1] == "no"@ <==> !row.required,
{
    reveal_strlit("yes");
    reveal_strlit("no");
    assert("yes"@ != "no"@) by {
        assert("yes"@.len() != "no"@.len());
    }
}

/// Whether `message` is the refusal of a declaration whose notes have outlived what they
/// described: first the notes for credentials no contract declares, in the declaration's order;
/// else the chart values the values file does not expose, in order.
pub open spec fn block_refusal(declaration: Declaration, rows: Seq<Credential>, values: Json, message: Seq<char>) -> bool {
    let notes = declaration.credentials@;
    let unknown = unknown_notes(notes, rows);
    let missing = missing_values(notes, values);
    if unknown.len() > 0 {
        message == outlived(declaration.path@, unknown)
    } else {
        missing.len() > 0 && exists|sorted: Seq<Seq<char>>|
            nondecreasing(sorted) && sorted.to_multiset() == missing.to_multiset() && message
                == renamed(declaration.path@, sorted)
    }
}

/// Names, quoted, joined with `, `.
fn quote_all(names: &Vec<String>) -> (v: Vec<char>)
    ensures
        v@ == quoted_list(strs(names@)),
{
    let mut parts: Vec<Vec<char>> = Vec::new();
    let mut k: usize = 0;
    while k < names.len()
        invariant
            k <= names@.len(),
            views(parts@) == strs(names@).take(k as int).map_values(|n: Seq<char>| in_quotes(n)),
        decreases names.len() - k,
    {
        let mut q = chars_of("'");
        push_all(&mut q, &chars(&names[k]));
        push_str(&mut q, "'");
        let ghost was = views(parts@);
        parts.push(q);
        assert(views(parts@) == was.push(in_quotes(names@[k as int]@)));
        assert(strs(names@).take(k + 1).map_values(|n: Seq<char>| in_quotes(n)) =~= strs(names@).take(
            k as int,
        ).map_values(|n: Seq<char>| in_quotes(n)).push(in_quotes(names@[k as int]@)));
        k = k + 1;
    }
    assert(strs(names@).take(names@.len() as int) =~= strs(names@));
    let sep = chars_of(", ");
    join(&parts, &sep)
}

/// Whether any row carries a path.
fn carried(rows: &Vec<Credential>, path: &String) -> (b: bool)
    ensures
        b == row_carries(rows@, path@),
{
    let mut k: usize = 0;
    while k < rows.len()
        invariant
            k <= rows@.len(),
            forall|q: int| 0 <= q < k ==> #[trigger] rows@[q].path@ != path@,
        decreases rows.len() - k,
    {
        if rows[k].path == *path {
            assert(rows@[k as int].path@ == path@);
            return true;
        }
        k = k + 1;
    }
    false
}

/// The note a declaration holds for a path.
fn find_note<'a>(notes: &'a Vec<CredentialNote>, path: &String) -> (r: Option<&'a CredentialNote>)
    ensures
        match r {
            Some(n) => note_for(notes@, path@, notes@.len() as int) == Some(*n),
            None => note_for(notes@, path@, notes@.len() as int) is None,
        },
{
    let mut k: usize = 0;
    while k < notes.len()
        invariant
            k <= notes@.len(),
            note_for(notes@, path@, k as int) is None,
        decreases notes.len() - k,
    {
        if notes[k].key == *path {
            proof {
                lemma_note_found(notes@, path@, k as int, notes@.len() as int);
            }
            return Some(&notes[k]);
        }
        k = k + 1;
    }
    None
}

proof fn lemma_note_found(notes: Seq<CredentialNote>, path: Seq<char>, k: int, n: int)
    requires
        0 <= k < n <= notes.len(),
        note_for(notes, path, k) is None,
        notes[k].key@ == path,
    ensures
        note_for(notes, path, n) == Some(notes[k]),
    decreases n,
{
    if n > k + 1 {
        lemma_note_found(notes, path, k, n - 1);
    }
}

/// One table line from its cells.
fn table_text(cells: &Vec<Vec<char>>) -> (s: String)
    ensures
        s@ == table_line(views(cells@)),
{
    let mut out = chars_of("| ");
    let sep = chars_of(" | ");
    push_all(&mut out, &join(cells, &sep));
    push_str(&mut out, " |");
    string_of(&out)
}

/// One text in backticks.
fn tick(name: &String) -> (v: Vec<char>)
    ensures
        v@ == ticked(name@),
{
    let mut out = chars_of("`");
    push_all(&mut out, &chars(name));
    push_str(&mut out, "`");
    out
}

/// Push one cell.
fn push_cell(cells: &mut Vec<Vec<char>>, cell: Vec<char>)
    ensures
        views(final(cells)@) == views(old(cells)@).push(cell@),
{
    cells.push(cell);
    assert(views(cells@) =~= views(old(cells)@).push(cell@));
}

/// One credential's row.
fn row_text(row: &Credential, note: Option<&CredentialNote>, chart_values: bool, multi: bool, annotated: bool) -> (s: String)
    ensures
        s@ == table_line(cells(*row, match note { Some(n) => Some(*n), None => None }, chart_values, multi, annotated)),
{
    let ghost held = match note { Some(n) => Some(*n), None => None::<CredentialNote> };
    let mut all: Vec<Vec<char>> = Vec::new();
    push_cell(&mut all, tick(&row.secrets_file));
    push_cell(&mut all, if row.required { chars_of("yes") } else { chars_of("no") });
    assert(views(all@) =~= seq![ticked(row.secrets_file@), if row.required { "yes"@ } else { "no"@ }]);
    if chart_values {
        let cell = match note {
            Some(n) => match &n.value {
                Some(v) => tick(v),
                None => Vec::new(),
            },
            None => Vec::new(),
        };
        push_cell(&mut all, cell);
    }
    let ghost after_values = views(all@);
    if multi {
        let mut names: Vec<Vec<char>> = Vec::new();
        let mut k: usize = 0;
        while k < row.documents.len()
            invariant
                k <= row.documents@.len(),
                views(names@) == strs(row.documents@).take(k as int).map_values(|d: Seq<char>| ticked(d)),
            decreases row.documents.len() - k,
        {
            let t = tick(&row.documents[k]);
            let ghost was = views(names@);
            names.push(t);
            assert(views(names@) == was.push(ticked(row.documents@[k as int]@)));
            assert(strs(row.documents@).take(k + 1).map_values(|d: Seq<char>| ticked(d)) =~= strs(
                row.documents@,
            ).take(k as int).map_values(|d: Seq<char>| ticked(d)).push(ticked(row.documents@[k as int]@)));
            k = k + 1;
        }
        assert(strs(row.documents@).take(row.documents@.len() as int) =~= strs(row.documents@));
        let sep = chars_of(", ");
        push_cell(&mut all, join(&names, &sep));
    }
    if annotated {
        let cell = match note {
            Some(n) => match &n.note {
                Some(w) => chars(w),
                None => Vec::new(),
            },
            None => Vec::new(),
        };
        push_cell(&mut all, cell);
    }
    assert(views(all@) =~= cells(*row, held, chart_values, multi, annotated));
    table_text(&all)
}

/// The generated credential reference for one chart, as the lines between the markers.
///
/// Refused, with a message, when the declaration has outlived what it described: a note for a
/// credential no contract declares, or one naming a chart value the values file does not expose.
/// `prefix` is the variable prefix every document of the chart agrees on, where they agree.
pub fn block_for(declaration: &Declaration, rows: &Vec<Credential>, values: &Json, prefix: Option<&str>) -> (r: Result<
    Vec<String>,
    String,
>)
    ensures
        match r {
            Ok(lines) => unknown_notes(declaration.credentials@, rows@).len() == 0 && missing_values(
                declaration.credentials@,
                *values,
            ).len() == 0 && strs(lines@) == block_lines(
                *declaration,
                rows@,
                match prefix { Some(p) => Some(p@), None => None },
            ),
            Err(message) => block_refusal(*declaration, rows@, *values, message@),
        },
{
    let notes = &declaration.credentials;
    let ghost ns = notes@;
    let mut unknown: Vec<String> = Vec::new();
    let mut k: usize = 0;
    while k < notes.len()
        invariant
            k <= ns.len(),
            ns == notes@,
            strs(unknown@) == unknown_notes(ns.take(k as int), rows@),
        decreases notes.len() - k,
    {
        assert(ns.take(k + 1).drop_last() =~= ns.take(k as int));
        assert(ns.take(k + 1).last() == ns[k as int]);
        if !carried(rows, &notes[k].key) {
            let ghost was = strs(unknown@);
            unknown.push(notes[k].key.clone());
            assert(strs(unknown@) == was.push(ns[k as int].key@));
        }
        k = k + 1;
    }
    assert(ns.take(ns.len() as int) =~= ns);
    if unknown.len() > 0 {
        let mut message = chars(&declaration.path);
        push_str(&mut message, ": `credentials` carries an entry for ");
        push_all(&mut message, &quote_all(&unknown));
        push_str(&mut message, ", which no contract this chart declares marks `secret: true` — the entry has outlived the credential it described");
        return Err(string_of(&message));
    }
    let mut missing: Vec<String> = Vec::new();
    let mut sorted: Vec<String> = Vec::new();
    let mut k: usize = 0;
    while k < notes.len()
        invariant
            k <= ns.len(),
            ns == notes@,
            strs(missing@) == missing_values(ns.take(k as int), *values),
            nondecreasing(strs(sorted@)),
            strs(sorted@).to_multiset() == strs(missing@).to_multiset(),
        decreases notes.len() - k,
    {
        assert(ns.take(k + 1).drop_last() =~= ns.take(k as int));
        assert(ns.take(k + 1).last() == ns[k as int]);
        match &notes[k].value {
            Some(v) => {
                if !has_path(values, v.as_str()) {
                    let ghost was = strs(missing@);
                    missing.push(v.clone());
                    assert(strs(missing@) == was.push(v@));
                    insert_keeping(&mut sorted, v.clone());
                    proof {
                        vstd::seq_lib::to_multiset_build(was, v@);
                    }
                }
            },
            None => {},
        }
        k = k + 1;
    }
    assert(ns.take(ns.len() as int) =~= ns);
    if missing.len() > 0 {
        let mut message = chars(&declaration.path);
        push_str(&mut message, ": `credentials` names the chart value(s) ");
        push_all(&mut message, &quote_all(&sorted));
        push_str(&mut message, ", which this chart's values.yaml does not expose — a renamed value leaves the reference telling operators to set something that does nothing");
        let m = string_of(&message);
        assert(nondecreasing(strs(sorted@)) && strs(sorted@).to_multiset() == missing_values(ns, *values).to_multiset()
            && m@ == renamed(declaration.path@, strs(sorted@)));
        return Err(m);
    }
    let mut chart_values = false;
    let mut annotated = false;
    let mut k: usize = 0;
    while k < notes.len()
        invariant
            k <= ns.len(),
            ns == notes@,
            chart_values == exists|q: int| 0 <= q < k && #[trigger] ns[q].value is Some,
            annotated == exists|q: int| 0 <= q < k && #[trigger] ns[q].note is Some,
        decreases notes.len() - k,
    {
        if notes[k].value.is_some() {
            chart_values = true;
        }
        if notes[k].note.is_some() {
            annotated = true;
        }
        k = k + 1;
    }
    let multi = declaration.documents.len() > 1;
    let mut cols: Vec<Vec<char>> = Vec::new();
    push_cell(&mut cols, chars_of("Secrets file"));
    push_cell(&mut cols, chars_of("Required"));
    if chart_values {
        push_cell(&mut cols, chars_of("Chart value"));
    }
    if multi {
        push_cell(&mut cols, chars_of("Read by"));
    }
    if annotated {
        push_cell(&mut cols, chars_of("When"));
    }
    assert(views(cols@) =~= columns(chart_values, multi, annotated));
    let mut lines: Vec<String> = Vec::new();
    lines.push("Every credential below is read from a **file in the secrets directory**, named for the".to_owned());
    lines.push("configuration path it carries with `.` written as `__`. A file spelt any other way is".to_owned());
    lines.push("mounted and never read. Those names are the keys of the Secret this chart mounts, except".to_owned());
    lines.push("where a note below says otherwise.".to_owned());
    lines.push(String::new());
    lines.push(table_text(&cols));
    let mut dashes: Vec<Vec<char>> = Vec::new();
    let mut k: usize = 0;
    while k < cols.len()
        invariant
            k <= cols@.len(),
            views(dashes@) == Seq::new(k as nat, |i: int| "---"@),
        decreases cols.len() - k,
    {
        push_cell(&mut dashes, chars_of("---"));
        assert(views(dashes@) =~= Seq::new((k + 1) as nat, |i: int| "---"@));
        k = k + 1;
    }
    let mut rule_text = chars_of("|");
    let bar = chars_of("|");
    push_all(&mut rule_text, &join(&dashes, &bar));
    push_str(&mut rule_text, "|");
    lines.push(string_of(&rule_text));
    let ghost head = strs(lines@);
    assert(head =~= intro() + seq![table_line(columns(chart_values, multi, annotated)), rule(columns(chart_values, multi, annotated).len())]);
    let ghost make = |row: Credential| table_line(cells(row, note_for(ns, row.path@, ns.len() as int), chart_values, multi, annotated));
    let mut k: usize = 0;
    while k < rows.len()
        invariant
            k <= rows@.len(),
            ns == notes@,
            strs(lines@) == head + rows@.take(k as int).map_values(make),
            make == (|row: Credential| table_line(cells(row, note_for(ns, row.path@, ns.len() as int), chart_values, multi, annotated))),
        decreases rows.len() - k,
    {
        let note = find_note(notes, &rows[k].path);
        let line = row_text(&rows[k], note, chart_values, multi, annotated);
        let ghost was = strs(lines@);
        lines.push(line);
        assert(strs(lines@) == was.push(line@));
        assert(rows@.take(k + 1).map_values(make) =~= rows@.take(k as int).map_values(make).push(make(rows@[k as int])));
        k = k + 1;
    }
    assert(rows@.take(rows@.len() as int) =~= rows@);
    let ghost body = strs(lines@);
    match prefix {
        Some(p) => {
            lines.push(String::new());
            let mut first = chars_of("The same value is addressable as the variable `");
            push_str(&mut first, p);
            push_str(&mut first, "<PATH>`, upper-cased with `.`");
            lines.push(string_of(&first));
            lines.push("written as `__`, and that spelling with `_FILE` appended names a file whose contents".to_owned());
            lines.push("supply it.".to_owned());
        },
        None => {},
    }
    assert(strs(lines@) =~= body + spelling_note(match prefix { Some(p) => Some(p@), None => None }));
    Ok(lines)
}

/// The variable prefix every document of one chart agrees on, from each document's own: `None`
/// when a document's could not be read, when two disagree, or when they agree on nothing.
pub open spec fn env_prefix_spec(prefixes: Seq<Option<Seq<char>>>) -> Option<Seq<char>> {
    if prefixes.len() == 0 {
        None
    } else if exists|i: int| 0 <= i < prefixes.len() && #[trigger] prefixes[i] != prefixes[0] {
        None
    } else {
        match prefixes[0] {
            Some(p) => if p.len() > 0 {
                Some(p)
            } else {
                None
            },
            None => None,
        }
    }
}

/// The variable prefix every document of one chart agrees on, or `None` when they do not.
///
/// Taken from each document's contract dialect rather than guessed from the spellings: the guess
/// reads as the whole variable on a chart with exactly one credential.
pub fn env_prefix(prefixes: &Vec<Option<String>>) -> (r: Option<String>)
    ensures
        match r {
            Some(p) => env_prefix_spec(prefixes@.map_values(|o: Option<String>| match o { Some(s) => Some(s@), None => None })) == Some(p@),
            None => env_prefix_spec(prefixes@.map_values(|o: Option<String>| match o { Some(s) => Some(s@), None => None })) is None,
        },
{
    let ghost ps = prefixes@.map_values(|o: Option<String>| match o { Some(s) => Some(s@), None => None });
    if prefixes.len() == 0 {
        return None;
    }
    let first = match &prefixes[0] {
        Some(p) => p,
        None => {
            return None;
        },
    };
    let mut k: usize = 1;
    while k < prefixes.len()
        invariant
            1 <= k <= prefixes@.len(),
            ps == prefixes@.map_values(|o: Option<String>| match o { Some(s) => Some(s@), None => None }),
            ps[0] == Some(first@),
            forall|q: int| 0 <= q < k ==> #[trigger] ps[q] == ps[0],
        decreases prefixes.len() - k,
    {
        match &prefixes[k] {
            Some(p) => {
                if *p != *first {
                    assert(ps[k as int] != ps[0]);
                    return None;
                }
            },
            None => {
                assert(ps[k as int] != ps[0]);
                return None;
            },
        }
        k = k + 1;
    }
    if first.as_str().is_empty() {
        None
    } else {
        Some(first.clone())
    }
}

/// What one chart brings to a pass over the README templates: its template, if it carries one,
/// and everything its reference is generated from.
pub struct ChartReadme {
    /// Where the template is, for a message.
    pub template_path: String,
    /// The template's text; `None` when the chart carries none.
    pub template: Option<String>,
    /// The chart's declaration.
    pub declaration: Declaration,
    /// The credentials its contracts declare.
    pub rows: Vec<Credential>,
    /// Its values.
    pub values: Json,
    /// The variable prefix its documents agree on.
    pub prefix: Option<String>,
}

/// What a pass decides for one chart: the problems it reports, and the text to write to the
/// template, if any.
pub open spec fn chart_outcome(c: ChartReadme, check: bool) -> (Seq<Seq<char>>, Option<Seq<char>>) {
    let n = decimal(c.rows@.len());
    match c.template {
        None => if c.rows@.len() > 0 {
            (seq![c.declaration.chart@ + ": declares "@ + n + " credential(s) and has no "@ + TEMPLATE@
                + " to write the reference into"@], None)
        } else {
            (seq![], None)
        },
        Some(text) => if !carries_markers_spec(text@) {
            if c.rows@.len() > 0 {
                (seq![c.template_path@ + ": this chart's contracts declare "@ + n
                    + " credential(s) and the template carries no `"@ + OPEN@
                    + "` block for them. Add the two markers where the reference belongs and regenerate"@], None)
            } else {
                (seq![], None)
            }
        } else if c.rows@.len() == 0 {
            (seq![c.template_path@ + ": carries a `"@ + OPEN@
                + "` block and no contract this chart declares marks any key `secret: true`, so there is nothing to generate into it"@], None)
        } else {
            (seq![], None)
        },
    }
}

/// The problem a check reports for a template whose reference has drifted.
pub open spec fn drifted(template_path: Seq<char>, text: Seq<char>, updated: Seq<char>) -> Seq<char> {
    template_path + ": the credential reference is not what the contract describes; regenerate it\n"@
        + difference_spec(text, updated, template_path)
}

/// Whether `problems` and `write` are what one chart's pass yields: the refusals above when
/// there is nothing to generate or nowhere to put it; else the block's or the splice's refusal;
/// else nothing when the template is current, the drift when checking, and the new text when
/// writing.
pub open spec fn chart_pass(c: ChartReadme, check: bool, problems: Seq<Seq<char>>, write: Option<Seq<char>>) -> bool {
    match c.template {
        Some(text) if carries_markers_spec(text@) && c.rows@.len() > 0 => {
            let prefix = match c.prefix { Some(p) => Some(p@), None => None };
            if unknown_notes(c.declaration.credentials@, c.rows@).len() > 0 || missing_values(
                c.declaration.credentials@,
                c.values,
            ).len() > 0 {
                write is None && problems.len() == 1 && block_refusal(c.declaration, c.rows@, c.values, problems[0])
            } else {
                match splice_spec(text@, block_lines(c.declaration, c.rows@, prefix), c.template_path@) {
                    Err(m) => write is None && problems == seq![m],
                    Ok(updated) => if updated == text@ {
                        write is None && problems.len() == 0
                    } else if check {
                        write is None && problems == seq![drifted(c.template_path@, text@, updated)]
                    } else {
                        write == Some(updated) && problems.len() == 0
                    },
                }
            }
        },
        _ => problems == chart_outcome(c, check).0 && write is None,
    }
}

/// One chart's template: the problems a pass reports for it, and what to write to it.
pub fn one_chart(c: &ChartReadme, check: bool) -> (r: (Vec<String>, Option<String>))
    ensures
        chart_pass(*c, check, strs(r.0@), match r.1 { Some(t) => Some(t@), None => None }),
{
    let n = decimal_of(c.rows.len() as u64);
    let text = match &c.template {
        None => {
            let mut problems: Vec<String> = Vec::new();
            if c.rows.len() > 0 {
                let mut m = chars(&c.declaration.chart);
                push_str(&mut m, ": declares ");
                push_all(&mut m, &n);
                push_str(&mut m, " credential(s) and has no ");
                push_str(&mut m, TEMPLATE);
                push_str(&mut m, " to write the reference into");
                problems.push(string_of(&m));
            }
            assert(strs(problems@) =~= chart_outcome(*c, check).0);
            return (problems, None);
        },
        Some(text) => text,
    };
    if !carries_markers(text.as_str()) {
        let mut problems: Vec<String> = Vec::new();
        if c.rows.len() > 0 {
            let mut m = chars(&c.template_path);
            push_str(&mut m, ": this chart's contracts declare ");
            push_all(&mut m, &n);
            push_str(&mut m, " credential(s) and the template carries no `");
            push_str(&mut m, OPEN);
            push_str(&mut m, "` block for them. Add the two markers where the reference belongs and regenerate");
            problems.push(string_of(&m));
        }
        assert(strs(problems@) =~= chart_outcome(*c, check).0);
        return (problems, None);
    }
    if c.rows.len() == 0 {
        let mut m = chars(&c.template_path);
        push_str(&mut m, ": carries a `");
        push_str(&mut m, OPEN);
        push_str(&mut m, "` block and no contract this chart declares marks any key `secret: true`, so there is nothing to generate into it");
        let mut problems: Vec<String> = Vec::new();
        problems.push(string_of(&m));
        assert(strs(problems@) =~= chart_outcome(*c, check).0);
        return (problems, None);
    }
    let prefix = match &c.prefix {
        Some(p) => Some(p.as_str()),
        None => None,
    };
    let block = match block_for(&c.declaration, &c.rows, &c.values, prefix) {
        Ok(block) => block,
        Err(problem) => {
            let mut problems: Vec<String> = Vec::new();
            problems.push(problem);
            assert(strs(problems@) =~= seq![problem@]);
            return (problems, None);
        },
    };
    let updated = match splice(text.as_str(), &block, c.template_path.as_str()) {
        Ok(updated) => updated,
        Err(problem) => {
            let mut problems: Vec<String> = Vec::new();
            problems.push(problem);
            assert(strs(problems@) =~= seq![problem@]);
            return (problems, None);
        },
    };
    let mut problems: Vec<String> = Vec::new();
    if updated == *text {
        assert(strs(problems@) =~= Seq::<Seq<char>>::empty());
        return (problems, None);
    }
    if check {
        let mut m = chars(&c.template_path);
        push_str(&mut m, ": the credential reference is not what the contract describes; regenerate it\n");
        let d = difference(text.as_str(), updated.as_str(), c.template_path.as_str());
        push_all(&mut m, &chars(&d));
        problems.push(string_of(&m));
        assert(strs(problems@) =~= seq![drifted(c.template_path@, text@, updated@)]);
        return (problems, None);
    }
    assert(strs(problems@) =~= Seq::<Seq<char>>::empty());
    (problems, Some(updated))
}

/// Write, or compare, every contracted chart's credential reference: the problems found and the
/// templates rewritten, with the text each is to hold.
///
/// A chart whose reference is wrong is a problem on the result rather than an error: the pass
/// still answers for every other chart.
pub fn walk(charts: &Vec<ChartReadme>, check: bool) -> (r: (Written, Vec<(String, String)>))
    ensures
        r.0.touched == r.1@.len(),
        check ==> r.1@.len() == 0,
        exists|passes: Passes|
            passes.len() == charts@.len() && (forall|k: int|
                0 <= k < passes.len() ==> #[trigger] chart_pass(charts@[k], check, passes[k].0, passes[k].1))
                && strs(r.0.problems@) == all_problems(passes) && pairs(r.1@) == all_writes(
                charts@.map_values(|c: ChartReadme| c.template_path@),
                passes,
            ),
{
    let ghost paths = charts@.map_values(|c: ChartReadme| c.template_path@);
    let mut written = Written { problems: Vec::new(), touched: 0 };
    let mut writes: Vec<(String, String)> = Vec::new();
    let ghost mut passes: Passes = seq![];
    assert(strs(written.problems@) =~= all_problems(passes));
    assert(pairs(writes@) =~= all_writes(paths, passes));
    let mut k: usize = 0;
    while k < charts.len()
        invariant
            k <= charts@.len(),
            paths == charts@.map_values(|c: ChartReadme| c.template_path@),
            written.touched == writes@.len(),
            written.touched <= k,
            check ==> writes@.len() == 0,
            passes.len() == k,
            forall|q: int| 0 <= q < k ==> #[trigger] chart_pass(charts@[q], check, passes[q].0, passes[q].1),
            strs(written.problems@) == all_problems(passes),
            pairs(writes@) == all_writes(paths, passes),
        decreases charts.len() - k,
    {
        let (mut problems, write) = one_chart(&charts[k], check);
        let ghost was = passes;
        let ghost before = written.problems@;
        proof {
            passes = passes.push((strs(problems@), crate::restarts::text_view(write)));
            assert(passes.drop_last() =~= was);
        }
        let ghost added = problems@;
        written.problems.append(&mut problems);
        assert(strs(written.problems@) =~= strs(before) + strs(added));
        match write {
            Some(text) => {
                proof {
                    if check {
                        assert(false) by {
                            assert(chart_pass(charts@[k as int], check, strs(added), Some(text@)));
                        }
                    }
                }
                let ghost held = writes@;
                writes.push((charts[k].template_path.clone(), text));
                assert(pairs(writes@) =~= pairs(held).push((paths[k as int], text@)));
                written.touched = written.touched + 1;
            },
            None => {},
        }
        assert forall|q: int| 0 <= q < k + 1 implies #[trigger] chart_pass(charts@[q], check, passes[q].0, passes[q].1) by {
            if q < k {
                assert(passes[q] == was[q]);
            }
        }
        k = k + 1;
    }
    (written, writes)
}

} // verus!
