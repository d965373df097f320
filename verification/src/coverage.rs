//! Which charts a contract covers, and which pin a first-party image and declare nothing.

use vstd::prelude::*;

use crate::check::{declaration_path, pinned_images, pins};
use crate::declaration::Declaration;
use crate::json::Json;
use crate::order::{ascending, held, in_order_once, insert_sorted, lemma_in_order_once};
use crate::report::Report;
use crate::surface::findings_view;
use crate::text::{chars_of, join_spec, join_strings, push_all, push_str, string_of, strs};
use crate::Error;

verus! {

/// What a coverage run found.
#[derive(Debug)]
pub struct Coverage {
    /// Everything it had to say.
    pub report: Report,
    /// The charts that carry a declaration with documents in it.
    pub covered: Vec<String>,
    /// The charts that pin a first-party image and declare nothing.
    pub uncovered: Vec<String>,
}

/// The values paths a chart's values pin an image at, each once and in order.
pub open spec fn pinned_paths(values: Json) -> Seq<Seq<char>> {
    in_order_once(pins(values, seq![]).map_values(|p: (Seq<char>, Seq<char>)| p.0))
}

/// What refuses one `unconfigured` entry that is not a values path the chart pins an image at.
pub open spec fn unconfigured_message(entry: Seq<char>, pinned: Seq<Seq<char>>) -> Seq<char> {
    "`unconfigured` names "@ + crate::quoted_spec(entry)
        + ", which is not a values path this chart pins an image at. The field holds values paths — the same spelling a document's `images[].values` uses — and not repository names"@
        + if pinned.len() == 0 {
        seq![]
    } else {
        "; this chart pins images at "@ + join_spec(pinned, ", "@)
    }
}

/// The failures `unconfigured` gives: one for each entry that is not a pinned values path, in the
/// order the declaration lists them.
pub open spec fn unconfigured_findings(
    chart: Seq<char>,
    entries: Seq<Seq<char>>,
    pinned: Seq<Seq<char>>,
) -> Seq<(Seq<char>, Seq<char>, bool)>
    decreases entries.len(),
{
    if entries.len() == 0 {
        seq![]
    } else {
        let rest = unconfigured_findings(chart, entries.drop_last(), pinned);
        if pinned.contains(entries.last()) {
            rest
        } else {
            rest.push(
                (
                    chart + ": "@ + crate::DECLARATION@,
                    unconfigured_message(entries.last(), pinned),
                    true,
                ),
            )
        }
    }
}

/// The values paths pinned in a chart's values, each once and in order.
fn pinned_list(values: &Json) -> (v: Vec<String>)
    ensures
        strs(v@) == pinned_paths(*values),
{
    let found = pinned_images(values);
    let ghost paths = pins(*values, seq![]).map_values(|p: (Seq<char>, Seq<char>)| p.0);
    assert(paths.len() == found@.len());
    let mut v: Vec<String> = Vec::new();
    assert(held(strs(v@)) =~= held(paths.take(0)));
    let mut k: usize = 0;
    while k < found.len()
        invariant
            k <= found@.len(),
            paths == pins(*values, seq![]).map_values(|p: (Seq<char>, Seq<char>)| p.0),
            crate::load::pairs_view(found@) == pins(*values, seq![]),
            paths.len() == found@.len(),
            ascending(strs(v@)),
            held(strs(v@)) == held(paths.take(k as int)),
        decreases found.len() - k,
    {
        assert(paths[k as int] == found@[k as int].0@);
        assert(paths.take(k + 1) =~= paths.take(k as int).push(found@[k as int].0@));
        proof {
            paths.take(k as int).lemma_push_to_set_commute(found@[k as int].0@);
        }
        insert_sorted(&mut v, found[k].0.clone());
        k = k + 1;
    }
    assert(paths.take(found@.len() as int) =~= paths);
    proof {
        lemma_in_order_once(paths, strs(v@));
    }
    v
}

/// Hold `unconfigured` to the chart's values: every entry must be a values path at which the
/// values pin an image, since the field holds values paths and not repository names.
pub fn check_unconfigured(chart: &str, declaration: &Declaration, values: &Json, report: &mut Report)
    ensures
        findings_view(final(report).findings@) == findings_view(old(report).findings@)
            + unconfigured_findings(chart@, strs(declaration.unconfigured@), pinned_paths(*values)),
{
    let pinned = pinned_list(values);
    let ghost entries = strs(declaration.unconfigured@);
    let ghost start = findings_view(report.findings@);
    assert(entries.take(0) =~= Seq::<Seq<char>>::empty());
    let mut k: usize = 0;
    while k < declaration.unconfigured.len()
        invariant
            k <= entries.len(),
            entries == strs(declaration.unconfigured@),
            strs(pinned@) == pinned_paths(*values),
            findings_view(report.findings@) == start + unconfigured_findings(
                chart@,
                entries.take(k as int),
                strs(pinned@),
            ),
        decreases declaration.unconfigured.len() - k,
    {
        let entry = &declaration.unconfigured[k];
        assert(entries.take(k + 1).drop_last() =~= entries.take(k as int));
        assert(entries.take(k + 1).last() == entry@);
        let mut found = false;
        let mut i: usize = 0;
        while i < pinned.len()
            invariant
                i <= pinned@.len(),
                found == strs(pinned@).take(i as int).contains(entry@),
            decreases pinned.len() - i,
        {
            let ghost prefix = strs(pinned@).take(i as int);
            let ghost next = strs(pinned@).take(i + 1);
            assert(next =~= prefix.push(pinned@[i as int]@));
            if pinned[i] == *entry {
                found = true;
                assert(next[i as int] == entry@);
            } else {
                assert(next.contains(entry@) ==> prefix.contains(entry@)) by {
                    if next.contains(entry@) {
                        let j = choose|j: int| 0 <= j < next.len() && next[j] == entry@;
                        assert(j != i);
                        assert(prefix[j] == entry@);
                    }
                }
                assert(prefix.contains(entry@) ==> next.contains(entry@)) by {
                    if prefix.contains(entry@) {
                        let j = choose|j: int| 0 <= j < prefix.len() && prefix[j] == entry@;
                        assert(next[j] == entry@);
                    }
                }
            }
            i = i + 1;
        }
        assert(strs(pinned@).take(pinned@.len() as int) =~= strs(pinned@));
        if !found {
            let mut message = chars_of("`unconfigured` names ");
            push_str(&mut message, crate::quoted(entry.as_str()).as_str());
            push_str(
                &mut message,
                ", which is not a values path this chart pins an image at. The field holds values paths — the same spelling a document's `images[].values` uses — and not repository names",
            );
            if pinned.len() > 0 {
                push_str(&mut message, "; this chart pins images at ");
                push_all(&mut message, &join_strings(&pinned, ", "));
            } else {
                assert(message@ + seq![] =~= message@);
            }
            assert(message@ =~= unconfigured_message(entry@, strs(pinned@)));
            let ghost before = findings_view(report.findings@);
            report.fail(declaration_path(chart), string_of(&message));
            assert(findings_view(report.findings@) =~= before.push(
                (chart@ + ": "@ + crate::DECLARATION@, message@, true),
            ));
        }
        k = k + 1;
    }
    assert(entries.take(entries.len() as int) =~= entries);
}

/// Whether a line of the first-party list names something: not blank, and not a comment.
pub open spec fn names_pattern(line: Seq<char>) -> bool {
    line.len() > 0 && line[0] != '#'
}

/// The patterns of the first-party list: every line trimmed, blank lines and comments dropped.
pub open spec fn patterns_spec(lines: Seq<Seq<char>>) -> Seq<Seq<char>>
    decreases lines.len(),
{
    if lines.len() == 0 {
        seq![]
    } else {
        let rest = patterns_spec(lines.drop_last());
        let line = crate::text::trim_spec(lines.last());
        if names_pattern(line) {
            rest.push(line)
        } else {
            rest
        }
    }
}

/// The repositories an organisation builds, from its own list: `text` is the list at `path`, or
/// `None` where there is no such file.
///
/// A missing list is refused: coverage cannot be decided without it, and deciding it wrongly would
/// call every chart uncovered.
pub fn first_party_patterns(text: Option<&str>, path: &str) -> (r: Result<Vec<String>, Error>)
    ensures
        match r {
            Ok(v) => text matches Some(t) && strs(v@) == patterns_spec(
                crate::text::lines_spec(t@),
            ),
            Err(e) => text is None && e is Invalid && e.said() == path@
                + ": missing; coverage cannot be decided without it"@,
        },
{
    let t = match text {
        Some(t) => t,
        None => {
            let mut message = chars_of(path);
            push_str(&mut message, ": missing; coverage cannot be decided without it");
            return Err(Error::Invalid(string_of(&message)));
        },
    };
    let lines = crate::text::lines(&chars_of(t));
    let ghost all = crate::text::views(lines@);
    let mut found: Vec<String> = Vec::new();
    assert(all.take(0) =~= Seq::<Seq<char>>::empty());
    let mut k: usize = 0;
    while k < lines.len()
        invariant
            k <= lines@.len(),
            all == crate::text::views(lines@),
            strs(found@) == patterns_spec(all.take(k as int)),
        decreases lines.len() - k,
    {
        assert(all.take(k + 1).drop_last() =~= all.take(k as int));
        assert(all.take(k + 1).last() == lines@[k as int]@);
        let line = crate::text::trim(&lines[k]);
        if line.len() > 0 && line[0] != '#' {
            let ghost before = strs(found@);
            found.push(string_of(&line));
            assert(strs(found@) =~= before.push(line@));
        }
        k = k + 1;
    }
    assert(all.take(lines@.len() as int) =~= all);
    Ok(found)
}

} // verus!
