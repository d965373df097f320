//! Walking the charts and handing each rendered pair to the gates: what the walk counts, and what
//! it names a chart's declaration by.

use vstd::prelude::*;

use crate::declaration::{Declaration, Document};
use crate::order::{ascending, held, insert_sorted};
use crate::report::Finding;
use crate::json::{get_spec, json_string, text_spec, Json};
use crate::load::pairs_view;
use crate::report::Report;
use crate::text::{chars_of, decimal, decimal_of, join_spec, push_all, push_str, string_of};
use crate::DECLARATION;

verus! {

/// What a run of the check found, and how much of the tree it looked at.
#[derive(Debug)]
pub struct Checked {
    /// Everything the gates had to say.
    pub report: Report,
    /// How many charts declared a contract. Zero is worth saying out loud: it means the whole run
    /// validated nothing, which looks exactly like a clean run from the outside.
    pub charts: usize,
}

/// Whether a chart declares a contract to check its renders against: it carries a declaration,
/// and the declaration names at least one document.
pub fn declares(declaration: &Option<Declaration>) -> (b: bool)
    ensures
        b == match *declaration {
            Some(held) => held.documents@.len() > 0,
            None => false,
        },
{
    match declaration {
        Some(held) => held.documents.len() > 0,
        None => false,
    }
}

/// Where a chart's declaration lives, for a message.
pub fn declaration_path(chart: &str) -> (s: String)
    ensures
        s@ == chart@ + ": "@ + DECLARATION@,
{
    let mut out = chars_of(chart);
    push_str(&mut out, ": ");
    push_str(&mut out, DECLARATION);
    string_of(&out)
}

/// Where a field sits below a values path: the name alone at the top, else after a dot.
pub open spec fn below(at: Seq<char>, name: Seq<char>) -> Seq<char> {
    if at.len() == 0 {
        name
    } else {
        at + "."@ + name
    }
}

/// Where an item of a list sits below a values path: its index in brackets.
pub open spec fn indexed(at: Seq<char>, index: nat) -> Seq<char> {
    at + "["@ + decimal(index) + "]"@
}

/// The image block a value is, when it is one: a mapping with a non-empty `repository`.
pub open spec fn own_pin(values: Json, at: Seq<char>) -> Seq<(Seq<char>, Seq<char>)> {
    match text_spec(get_spec(values, "repository"@)) {
        Some(repository) => if repository.len() > 0 {
            seq![(at, repository)]
        } else {
            seq![]
        },
        None => seq![],
    }
}

/// Every `(values path, repository)` found in a value sitting at `at`, the value's own first and
/// then its fields' or items' in order.
pub open spec fn pins(values: Json, at: Seq<char>) -> Seq<(Seq<char>, Seq<char>)>
    decreases values, 0nat,
{
    match values {
        Json::Object(fields) => own_pin(values, at) + field_pins(
            fields@,
            at,
            fields@.len() as nat,
        ),
        Json::Array(items) => item_pins(items@, at, items@.len() as nat),
        _ => seq![],
    }
}

/// The pins found in the first `n` fields of a mapping at `at`.
pub open spec fn field_pins(fields: Seq<(String, Json)>, at: Seq<char>, n: nat) -> Seq<
    (Seq<char>, Seq<char>),
>
    decreases fields, n,
{
    if n == 0 || n > fields.len() {
        seq![]
    } else {
        field_pins(fields, at, (n - 1) as nat) + pins(
            fields[n - 1].1,
            below(at, fields[n - 1].0@),
        )
    }
}

/// The pins found in the first `n` items of a list at `at`.
pub open spec fn item_pins(items: Seq<Json>, at: Seq<char>, n: nat) -> Seq<(Seq<char>, Seq<char>)>
    decreases items, n,
{
    if n == 0 || n > items.len() {
        seq![]
    } else {
        item_pins(items, at, (n - 1) as nat) + pins(items[n - 1], indexed(at, (n - 1) as nat))
    }
}

/// Add every pin found in a value sitting at `at`.
fn walk(values: &Json, at: &Vec<char>, found: &mut Vec<(String, String)>)
    ensures
        pairs_view(final(found)@) == pairs_view(old(found)@) + pins(*values, at@),
    decreases values,
{
    let ghost start = pairs_view(found@);
    match values {
        Json::Object(fields) => {
            match values.get("repository") {
                Some(Json::Str(repository)) => {
                    if !repository.as_str().is_empty() {
                        found.push((string_of(at), repository.clone()));
                        assert(pairs_view(found@) =~= start + seq![(at@, repository@)]);
                    } else {
                        assert(start + seq![] =~= start);
                    }
                },
                _ => {
                    assert(start + seq![] =~= start);
                },
            }
            let ghost own = pairs_view(found@);
            assert(own == start + own_pin(*values, at@));
            let mut k: usize = 0;
            while k < fields.len()
                invariant
                    k <= fields@.len(),
                    *values == Json::Object(*fields),
                    pairs_view(found@) == own + field_pins(fields@, at@, k as nat),
                decreases fields.len() - k,
            {
                let mut next = if at.len() == 0 {
                    Vec::new()
                } else {
                    let mut held = crate::text::slice_of(at, 0, at.len());
                    held.push('.');
                    held
                };
                push_str(&mut next, fields[k].0.as_str());
                proof {
                    reveal_strlit(".");
                }
                assert(next@ =~= below(at@, fields@[k as int].0@));
                proof {
                    assert(decreases_to!(*values => (*values)->Object_0));
                    assert(decreases_to!(*fields => fields@));
                    assert(decreases_to!(fields@ => fields@[k as int]));
                    assert(decreases_to!(fields@[k as int] => fields@[k as int].1));
                }
                let ghost before = pairs_view(found@);
                walk(&fields[k].1, &next, found);
                assert(pairs_view(found@) =~= own + field_pins(fields@, at@, (k + 1) as nat));
                k = k + 1;
            }
        },
        Json::Array(items) => {
            assert(start + item_pins(items@, at@, 0) =~= start);
            let mut k: usize = 0;
            while k < items.len()
                invariant
                    k <= items@.len(),
                    *values == Json::Array(*items),
                    pairs_view(found@) == start + item_pins(items@, at@, k as nat),
                decreases items.len() - k,
            {
                let mut next = crate::text::slice_of(at, 0, at.len());
                next.push('[');
                push_all(&mut next, &decimal_of(k as u64));
                next.push(']');
                proof {
                    reveal_strlit("[");
                    reveal_strlit("]");
                }
                assert(next@ =~= indexed(at@, k as nat));
                proof {
                    assert(decreases_to!(*values => (*values)->Array_0));
                    assert(decreases_to!(*items => items@));
                    assert(decreases_to!(items@ => items@[k as int]));
                }
                walk(&items[k], &next, found);
                assert(pairs_view(found@) =~= start + item_pins(items@, at@, (k + 1) as nat));
                k = k + 1;
            }
        },
        _ => {
            assert(start + seq![] =~= start);
        },
    }
}

/// Every `(values path, repository)` a chart's values pin an image at.
///
/// Discovered by shape rather than by a list of known paths: anything with a `repository` is an
/// image block, which is what a chart's own image template assumes, so a chart that grows a new
/// service is seen the moment its values are added.
pub fn pinned_images(values: &Json) -> (found: Vec<(String, String)>)
    ensures
        pairs_view(found@) == pins(*values, seq![]),
{
    let mut found: Vec<(String, String)> = Vec::new();
    let at: Vec<char> = Vec::new();
    assert(at@ =~= seq![]);
    walk(values, &at, &mut found);
    assert(pairs_view(found@) =~= pins(*values, seq![]));
    found
}

/// One label of a selector as a message shows it: both sides as JSON strings.
pub open spec fn label_text(label: (Seq<char>, Seq<char>)) -> Seq<char> {
    json_string(label.0) + ": "@ + json_string(label.1)
}

/// A selector as a message shows it, in the order the declaration wrote it.
pub open spec fn selector_text_spec(selector: Seq<(Seq<char>, Seq<char>)>) -> Seq<char> {
    "{"@ + join_spec(selector.map_values(|l: (Seq<char>, Seq<char>)| label_text(l)), ", "@) + "}"@
}

/// A selector as a message shows it, in the order the declaration wrote it.
pub fn selector_text(selector: &Vec<(String, String)>) -> (s: String)
    ensures
        s@ == selector_text_spec(pairs_view(selector@)),
{
    let ghost want = pairs_view(selector@).map_values(|l: (Seq<char>, Seq<char>)| label_text(l));
    let mut parts: Vec<Vec<char>> = Vec::new();
    let mut k: usize = 0;
    while k < selector.len()
        invariant
            k <= selector@.len(),
            want == pairs_view(selector@).map_values(|l: (Seq<char>, Seq<char>)| label_text(l)),
            want.len() == selector@.len(),
            crate::text::views(parts@) == want.take(k as int),
        decreases selector.len() - k,
    {
        let mut one = chars_of(crate::json::to_json_string(selector[k].0.as_str()).as_str());
        push_str(&mut one, ": ");
        push_str(&mut one, crate::json::to_json_string(selector[k].1.as_str()).as_str());
        assert(want[k as int] == label_text((selector@[k as int].0@, selector@[k as int].1@)));
        let ghost before = crate::text::views(parts@);
        parts.push(one);
        assert(crate::text::views(parts@) =~= before.push(one@));
        assert(want.take(k + 1) =~= want.take(k as int).push(want[k as int]));
        k = k + 1;
    }
    assert(want.take(selector@.len() as int) =~= want);
    let mut out = chars_of("{");
    push_all(&mut out, &crate::text::join(&parts, &chars_of(", ")));
    push_str(&mut out, "}");
    string_of(&out)
}


// ------------------------------------------------------------------------------------------------
// A declared document against every rendered values file
// ------------------------------------------------------------------------------------------------

/// Whether any rendered values file held the document.
pub open spec fn rendered_anywhere(rendered: Seq<(bool, Vec<String>)>) -> bool {
    exists|i: int| 0 <= i < rendered.len() && #[trigger] rendered[i].0
}

/// The containers some rendered values file showed reading the document.
pub open spec fn containers_seen(rendered: Seq<(bool, Vec<String>)>) -> Set<Seq<char>> {
    Set::new(|c: Seq<char>| exists|i: int, j: int| 0 <= i < rendered.len() && 0 <= j < rendered[i].1@.len() && #[trigger] rendered[i].1@[j]@ == c)
}

/// The containers the declaration names as the document's consumers.
pub open spec fn containers_declared(document: Document) -> Set<Seq<char>> {
    Set::new(
        |c: Seq<char>|
            exists|i: int, j: int|
                0 <= i < document.consumers@.len() && 0 <= j < document.consumers@[i].containers@.len()
                    && #[trigger] document.consumers@[i].containers@[j]@ == c,
    )
}

/// The refusal for a document no rendered values file produced.
pub open spec fn never_produced(document: Document, files: nat) -> Seq<char> {
    "the selector "@ + selector_text_spec(pairs_view(document.source.selector@)) + " matches no "@
        + document.source.kind@ + " in any of the "@ + decimal(files)
        + " rendered values files, so this document is declared but never produced; correct the selector, or drop the document if the component is gone"@
}

/// The refusal for a consumer container no rendered values file showed.
pub open spec fn never_seen(name: Seq<char>, files: nat) -> Seq<char> {
    "the container "@ + crate::quoted_spec(name) + " is declared as a consumer of this document but appears in none of the "@
        + decimal(files) + " rendered values files; correct the name, or drop it if the workload is gone"@
}

/// Whether one text is among the containers some values file showed.
fn seen_in(rendered: &Vec<(bool, Vec<String>)>, name: &String) -> (b: bool)
    ensures
        b == containers_seen(rendered@).contains(name@),
{
    let mut i: usize = 0;
    while i < rendered.len()
        invariant
            i <= rendered@.len(),
            forall|p: int, j: int| 0 <= p < i && 0 <= j < rendered@[p].1@.len() ==> #[trigger] rendered@[p].1@[j]@ != name@,
        decreases rendered.len() - i,
    {
        let found = &rendered[i].1;
        let mut j: usize = 0;
        while j < found.len()
            invariant
                j <= found@.len(),
                i < rendered@.len(),
                *found == rendered@[i as int].1,
                forall|q: int| 0 <= q < j ==> #[trigger] found@[q]@ != name@,
            decreases found.len() - j,
        {
            if found[j] == *name {
                assert(rendered@[i as int].1@[j as int]@ == name@);
                return true;
            }
            j = j + 1;
        }
        i = i + 1;
    }
    false
}

/// Hold one declared document to every rendered values file: `rendered` holds, per file, whether
/// the document was there and which containers read it. Where there are files and none held the
/// document it is refused as never produced; where some did, each consumer container none of them
/// showed is refused, in name order, once.
pub fn check_rendered(at: &str, document: &Document, rendered: &Vec<(bool, Vec<String>)>, report: &mut Report)
    ensures
        final(report).findings@.take(old(report).findings@.len() as int) == old(report).findings@,
        forall|i: int| old(report).findings@.len() <= i < final(report).findings@.len() ==> (#[trigger] final(report).findings@[i]).failing && final(report).findings@[i].at@ == at@,
        rendered@.len() == 0 ==> final(report).findings@ == old(report).findings@,
        rendered@.len() > 0 && !rendered_anywhere(rendered@) ==> crate::bindings::failures(final(report).findings@.skip(old(report).findings@.len() as int))
            == seq![(at@, never_produced(*document, rendered@.len() as nat))],
        rendered@.len() > 0 && rendered_anywhere(rendered@) ==> exists|missing: Seq<Seq<char>>|
            ascending(missing) && held(missing) == containers_declared(*document).filter(|c: Seq<char>| !containers_seen(rendered@).contains(c))
                && crate::bindings::failures(final(report).findings@.skip(old(report).findings@.len() as int))
                == missing.map_values(|c: Seq<char>| (at@, never_seen(c, rendered@.len() as nat))),
{
    let ghost start = report.findings@;
    if rendered.len() == 0 {
        return;
    }
    let files = rendered.len() as u64;
    let mut anywhere = false;
    let mut i: usize = 0;
    while i < rendered.len()
        invariant
            i <= rendered@.len(),
            anywhere == exists|p: int| 0 <= p < i && #[trigger] rendered@[p].0,
        decreases rendered.len() - i,
    {
        if rendered[i].0 {
            anywhere = true;
        }
        i = i + 1;
    }
    if !anywhere {
        let mut m = chars_of("the selector ");
        push_str(&mut m, selector_text(&document.source.selector).as_str());
        push_str(&mut m, " matches no ");
        push_str(&mut m, document.source.kind.as_str());
        push_str(&mut m, " in any of the ");
        push_all(&mut m, &decimal_of(files));
        push_str(&mut m, " rendered values files, so this document is declared but never produced; correct the selector, or drop the document if the component is gone");
        report.fail(at.to_owned(), string_of(&m));
        assert(report.findings@.skip(start.len() as int) =~= seq![report.findings@.last()]);
        assert(report.findings@.take(start.len() as int) =~= start);
        return;
    }
    let mut missing: Vec<String> = Vec::new();
    let ghost declared = containers_declared(*document);
    let ghost seen = containers_seen(rendered@);
    let mut c: usize = 0;
    while c < document.consumers.len()
        invariant
            c <= document.consumers@.len(),
            declared == containers_declared(*document),
            seen == containers_seen(rendered@),
            ascending(strs_of(missing@)),
            held(strs_of(missing@)) == Set::new(|x: Seq<char>| exists|p: int, j: int|
                0 <= p < c && 0 <= j < document.consumers@[p].containers@.len()
                    && #[trigger] document.consumers@[p].containers@[j]@ == x).filter(|x: Seq<char>| !seen.contains(x)),
        decreases document.consumers.len() - c,
    {
        let names = &document.consumers[c].containers;
        let ghost before = held(strs_of(missing@));
        let mut j: usize = 0;
        while j < names.len()
            invariant
                j <= names@.len(),
                c < document.consumers@.len(),
                *names == document.consumers@[c as int].containers,
                seen == containers_seen(rendered@),
                ascending(strs_of(missing@)),
                held(strs_of(missing@)) == before.union(Set::new(|x: Seq<char>| exists|q: int| 0 <= q < j && #[trigger] names@[q]@ == x).filter(|x: Seq<char>| !seen.contains(x))),
            decreases names.len() - j,
        {
            let ghost was = held(strs_of(missing@));
            if !seen_in(rendered, &names[j]) {
                insert_sorted(&mut missing, names[j].clone());
            }
            assert(held(strs_of(missing@)) =~= before.union(Set::new(|x: Seq<char>| exists|q: int| 0 <= q < j + 1 && #[trigger] names@[q]@ == x).filter(|x: Seq<char>| !seen.contains(x)))) by {
                assert forall|x: Seq<char>| #[trigger] held(strs_of(missing@)).contains(x) == before.union(Set::new(|x: Seq<char>| exists|q: int| 0 <= q < j + 1 && #[trigger] names@[q]@ == x).filter(|x: Seq<char>| !seen.contains(x))).contains(x) by {
                    if exists|q: int| 0 <= q < j + 1 && #[trigger] names@[q]@ == x {
                        let q = choose|q: int| 0 <= q < j + 1 && #[trigger] names@[q]@ == x;
                        if q < j {
                            assert(exists|q: int| 0 <= q < j && #[trigger] names@[q]@ == x);
                        }
                    }
                    if exists|q: int| 0 <= q < j && #[trigger] names@[q]@ == x {
                        let q = choose|q: int| 0 <= q < j && #[trigger] names@[q]@ == x;
                        assert(0 <= q < j + 1 && names@[q]@ == x);
                    }
                    if x == names@[j as int]@ {
                        assert(0 <= j < j + 1 && names@[j as int]@ == x);
                    }
                }
            }
            j = j + 1;
        }
        assert(held(strs_of(missing@)) =~= Set::new(|x: Seq<char>| exists|p: int, j: int|
            0 <= p < c + 1 && 0 <= j < document.consumers@[p].containers@.len()
                && #[trigger] document.consumers@[p].containers@[j]@ == x).filter(|x: Seq<char>| !seen.contains(x))) by {
            assert forall|x: Seq<char>| #[trigger] held(strs_of(missing@)).contains(x) == Set::new(|x: Seq<char>| exists|p: int, j: int|
                0 <= p < c + 1 && 0 <= j < document.consumers@[p].containers@.len()
                    && #[trigger] document.consumers@[p].containers@[j]@ == x).filter(|x: Seq<char>| !seen.contains(x)).contains(x) by {
                if exists|p: int, q: int| 0 <= p < c + 1 && 0 <= q < document.consumers@[p].containers@.len() && #[trigger] document.consumers@[p].containers@[q]@ == x {
                    let (p, q) = choose|p: int, q: int| 0 <= p < c + 1 && 0 <= q < document.consumers@[p].containers@.len() && #[trigger] document.consumers@[p].containers@[q]@ == x;
                    if p < c {
                    } else {
                        assert(names@[q]@ == x);
                    }
                }
                if exists|q: int| 0 <= q < names@.len() && #[trigger] names@[q]@ == x {
                    let q = choose|q: int| 0 <= q < names@.len() && #[trigger] names@[q]@ == x;
                    assert(document.consumers@[c as int].containers@[q]@ == x);
                }
            }
        }
        c = c + 1;
    }
    assert(Set::new(|x: Seq<char>| exists|p: int, j: int|
        0 <= p < document.consumers@.len() && 0 <= j < document.consumers@[p].containers@.len()
            && #[trigger] document.consumers@[p].containers@[j]@ == x) =~= declared);
    let ghost ms = strs_of(missing@);
    let mut k: usize = 0;
    while k < missing.len()
        invariant
            k <= missing@.len(),
            ms == strs_of(missing@),
            files as nat == rendered@.len(),
            report.findings@.len() >= start.len(),
            report.findings@.take(start.len() as int) == start,
            forall|i: int| start.len() <= i < report.findings@.len() ==> (#[trigger] report.findings@[i]).failing && report.findings@[i].at@ == at@,
            crate::bindings::failures(report.findings@.skip(start.len() as int)) == ms.take(k as int).map_values(|c: Seq<char>| (at@, never_seen(c, rendered@.len() as nat))),
        decreases missing.len() - k,
    {
        let mut m = chars_of("the container ");
        push_str(&mut m, crate::quoted(missing[k].as_str()).as_str());
        push_str(&mut m, " is declared as a consumer of this document but appears in none of the ");
        push_all(&mut m, &decimal_of(files));
        push_str(&mut m, " rendered values files; correct the name, or drop it if the workload is gone");
        assert(ms[k as int] == missing@[k as int]@);
        assert(m@ == never_seen(ms[k as int], rendered@.len() as nat));
        let ghost was = report.findings@;
        report.fail(at.to_owned(), string_of(&m));
        assert(report.findings@.skip(start.len() as int) =~= was.skip(start.len() as int).push(report.findings@.last()));
        assert(crate::bindings::failures(report.findings@.skip(start.len() as int)) =~= crate::bindings::failures(was.skip(start.len() as int)).push((at@, m@)));
        assert(ms.take(k + 1).map_values(|c: Seq<char>| (at@, never_seen(c, rendered@.len() as nat))) =~= ms.take(k as int).map_values(|c: Seq<char>| (at@, never_seen(c, rendered@.len() as nat))).push((at@, never_seen(ms[k as int], rendered@.len() as nat))));
        assert(report.findings@.take(start.len() as int) =~= start);
        assert forall|i: int| start.len() <= i < report.findings@.len() implies (#[trigger] report.findings@[i]).failing && report.findings@[i].at@ == at@ by {
            if i < was.len() {
                assert(report.findings@.take(was.len() as int)[i] == was[i]);
            }
        }
        k = k + 1;
    }
    assert(ms.take(ms.len() as int) =~= ms);
}

/// Texts, by their views.
pub open spec fn strs_of(v: Seq<String>) -> Seq<Seq<char>> {
    crate::text::strs(v)
}

} // verus!
