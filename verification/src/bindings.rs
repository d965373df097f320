//! What the marker check holds an enrolled chart's values file to, and what it writes off.

use vstd::prelude::*;

use crate::declaration::{Declaration, Unbound};
use crate::json::Json;
use crate::markers::{at_spec, Class, Marker, MarkerView};
use crate::order::{ascending, held, insert_sorted};
use crate::report::{Finding, Report};
use crate::text::{chars, chars_of, join_spec, join_strings, push_all, push_str, string_of, strs};

verus! {

/// What a run of the marker check found.
#[derive(Debug)]
pub struct Bindings {
    /// Everything the rules had to say.
    pub report: Report,
    /// One row per enrolled chart: its name, how many contract keys it binds, and how many
    /// declared external variables.
    pub enrolled: Vec<(String, usize, usize)>,
}

/// Whether an `unbound` entry reaches a document: an entry with no scope reaches every one.
pub open spec fn in_scope(entry: Unbound, document: Seq<char>) -> bool {
    match entry.documents {
        None => true,
        Some(named) => strs(named@).contains(document),
    }
}

/// The keys a declaration writes off in one document.
pub open spec fn written_off_spec(unbound: Seq<Unbound>, document: Seq<char>) -> Set<Seq<char>> {
    Set::new(
        |key: Seq<char>|
            exists|i: int, j: int|
                0 <= i < unbound.len() && in_scope(unbound[i], document) && 0 <= j
                    < unbound[i].keys@.len() && #[trigger] unbound[i].keys@[j]@ == key,
    )
}

/// The first `j` keys of an entry.
pub open spec fn first_keys(entry: Unbound, j: int) -> Set<Seq<char>> {
    Set::new(|key: Seq<char>| exists|k: int| 0 <= k < j && #[trigger] entry.keys@[k]@ == key)
}

/// Whether an entry names a document.
fn names(entry: &Unbound, document: &str) -> (b: bool)
    ensures
        b == in_scope(*entry, document@),
{
    match &entry.documents {
        None => true,
        Some(named) => {
            let want = document.to_owned();
            let mut k: usize = 0;
            while k < named.len()
                invariant
                    k <= named@.len(),
                    want@ == document@,
                    entry.documents == Some(*named),
                    forall|q: int| 0 <= q < k ==> #[trigger] strs(named@)[q] != document@,
                decreases named.len() - k,
            {
                if named[k] == want {
                    assert(strs(named@)[k as int] == document@);
                    assert(strs(named@).contains(document@));
                    return true;
                }
                k = k + 1;
            }
            false
        },
    }
}

/// The keys a declaration writes off in one document, sorted and once each.
///
/// An entry with no scope writes its keys off wherever they are declared; a scoped entry writes
/// them off only in the documents it names.
pub fn written_off_in(declaration: &Declaration, document: &str) -> (keys: Vec<String>)
    ensures
        ascending(strs(keys@)),
        held(strs(keys@)) == written_off_spec(declaration.unbound@, document@),
{
    let ghost unbound = declaration.unbound@;
    let mut keys: Vec<String> = Vec::new();
    let mut i: usize = 0;
    assert(held(strs(keys@)) =~= written_off_spec(unbound.take(0), document@));
    while i < declaration.unbound.len()
        invariant
            unbound == declaration.unbound@,
            i <= unbound.len(),
            ascending(strs(keys@)),
            held(strs(keys@)) == written_off_spec(unbound.take(i as int), document@),
        decreases declaration.unbound.len() - i,
    {
        let entry = &declaration.unbound[i];
        let reaches = names(entry, document);
        let ghost prefix = unbound.take(i as int);
        let ghost next = unbound.take(i + 1);
        assert(next =~= prefix.push(*entry));
        assert(first_keys(*entry, 0) =~= Set::empty());
        assert(held(strs(keys@)) =~= written_off_spec(prefix, document@).union(
            if reaches {
                first_keys(*entry, 0)
            } else {
                Set::empty()
            },
        ));
        let mut j: usize = 0;
        while j < entry.keys.len()
            invariant
                j <= entry.keys@.len(),
                *entry == unbound[i as int],
                reaches == in_scope(*entry, document@),
                ascending(strs(keys@)),
                held(strs(keys@)) == written_off_spec(prefix, document@).union(
                    if reaches {
                        first_keys(*entry, j as int)
                    } else {
                        Set::empty()
                    },
                ),
            decreases entry.keys.len() - j,
        {
            let ghost was = held(strs(keys@));
            if reaches {
                insert_sorted(&mut keys, entry.keys[j].clone());
                assert(first_keys(*entry, j + 1) =~= first_keys(*entry, j as int).insert(
                    entry.keys@[j as int]@,
                )) by {
                    assert forall|key: Seq<char>| #[trigger] first_keys(*entry, j + 1).contains(key)
                        implies first_keys(*entry, j as int).insert(entry.keys@[j as int]@).contains(
                        key,
                    ) by {
                        let k = choose|k: int| 0 <= k < j + 1 && #[trigger] entry.keys@[k]@ == key;
                        if k < j {
                            assert(first_keys(*entry, j as int).contains(key));
                        }
                    }
                    assert forall|key: Seq<char>| #[trigger] first_keys(*entry, j as int).insert(
                        entry.keys@[j as int]@,
                    ).contains(key) implies first_keys(*entry, j + 1).contains(key) by {
                        if key == entry.keys@[j as int]@ {
                        } else {
                            let k = choose|k: int| 0 <= k < j && #[trigger] entry.keys@[k]@ == key;
                            assert(0 <= k < j + 1);
                        }
                    }
                }
                assert(held(strs(keys@)) =~= written_off_spec(prefix, document@).union(
                    first_keys(*entry, j + 1),
                ));
            } else {
                assert(held(strs(keys@)) =~= written_off_spec(prefix, document@).union(Set::empty()));
            }
            j = j + 1;
        }
        assert(held(strs(keys@)) =~= written_off_spec(next, document@)) by {
            assert forall|key: Seq<char>| #[trigger] written_off_spec(next, document@).contains(key) <==> held(strs(keys@)).contains(key) by {
                if written_off_spec(next, document@).contains(key) {
                    let (a, b) = choose|a: int, b: int|
                        0 <= a < next.len() && in_scope(next[a], document@) && 0 <= b
                            < next[a].keys@.len() && #[trigger] next[a].keys@[b]@ == key;
                    if a < prefix.len() {
                        assert(prefix[a] == next[a]);
                        assert(prefix[a].keys@[b]@ == key);
                        assert(written_off_spec(prefix, document@).contains(key));
                    } else {
                        assert(next[a] == *entry);
                        assert(entry.keys@[b]@ == key);
                        assert(first_keys(*entry, entry.keys@.len() as int).contains(key));
                    }
                }
                if written_off_spec(prefix, document@).contains(key) {
                    let (a, b) = choose|a: int, b: int|
                        0 <= a < prefix.len() && in_scope(prefix[a], document@) && 0 <= b
                            < prefix[a].keys@.len() && #[trigger] prefix[a].keys@[b]@ == key;
                    assert(next[a] == prefix[a]);
                    assert(next[a].keys@[b]@ == key);
                }
                if reaches && first_keys(*entry, entry.keys@.len() as int).contains(key) {
                    let k = choose|k: int| 0 <= k < entry.keys@.len() && #[trigger] entry.keys@[k]@ == key;
                    assert(next[i as int] == *entry);
                    assert(next[i as int].keys@[k]@ == key);
                }
            }
        }
        i = i + 1;
    }
    assert(unbound.take(unbound.len() as int) =~= unbound);
    keys
}


// ------------------------------------------------------------------------------------------------
// One marker against the documents a chart declares
// ------------------------------------------------------------------------------------------------

/// One declared document, as a marker is held to it: its name, the keys its contracts declare
/// and the external variables they admit, each with the fields the merged contracts publish for
/// it (`constraint`, `text_form`, `ty`, `secret`, ...), and the releases of the images that read
/// it.
#[derive(Debug)]
pub struct BoundDocument {
    /// The document's name.
    pub name: String,
    /// The contract keys, each with its merged fields.
    pub keys: Vec<(String, Vec<(String, Json)>)>,
    /// The declared external variables, each with its merged fields.
    pub env: Vec<(String, Vec<(String, Json)>)>,
    /// The releases of the images that read the document.
    pub releases: Vec<String>,
}

/// What an enrolled chart binds its markers against: its declared documents, in name order.
#[derive(Debug)]
pub struct Bound {
    /// The chart.
    pub chart: String,
    /// Its declared documents.
    pub documents: Vec<BoundDocument>,
}

/// The names of the declared documents, in their order.
pub open spec fn document_names(docs: Seq<BoundDocument>) -> Seq<Seq<char>> {
    docs.map_values(|d: BoundDocument| d.name@)
}

/// The names a marker's class looks its target up among: the keys, or the external variables.
pub open spec fn namespace(doc: BoundDocument, key: bool) -> Seq<Seq<char>> {
    if key {
        doc.keys@.map_values(|e: (String, Vec<(String, Json)>)| e.0@)
    } else {
        doc.env@.map_values(|e: (String, Vec<(String, Json)>)| e.0@)
    }
}

/// The first declared document of a name.
pub open spec fn document_named(docs: Seq<BoundDocument>, name: Seq<char>) -> Option<BoundDocument>
    decreases docs.len(),
{
    if docs.len() == 0 {
        None
    } else if docs[0].name@ == name {
        Some(docs[0])
    } else {
        document_named(docs.drop_first(), name)
    }
}

/// Whether the document of this name declares the target in the namespace a marker reads.
pub open spec fn declares(docs: Seq<BoundDocument>, name: Seq<char>, key: bool, target: Seq<char>) -> bool {
    match document_named(docs, name) {
        Some(d) => namespace(d, key).contains(target),
        None => false,
    }
}

/// The candidate documents that declare a marker's target.
pub open spec fn matching(docs: Seq<BoundDocument>, candidates: Seq<Seq<char>>, key: bool, target: Seq<char>) -> Seq<Seq<char>> {
    candidates.filter(|n: Seq<char>| declares(docs, n, key, target))
}

/// The candidate documents that do not declare a marker's target.
pub open spec fn lacking(docs: Seq<BoundDocument>, candidates: Seq<Seq<char>>, key: bool, target: Seq<char>) -> Seq<Seq<char>> {
    candidates.filter(|n: Seq<char>| !declares(docs, n, key, target))
}

/// The scoped names that are no declared document.
pub open spec fn undeclared(docs: Seq<BoundDocument>, scope: Seq<Seq<char>>) -> Seq<Seq<char>> {
    scope.filter(|n: Seq<char>| !document_names(docs).contains(n))
}

/// The documents a marker binds its target in, and the refusal where it names nothing real.
///
/// An unscoped marker binds every declared document that declares its target; a scope narrows
/// that, and is refused where it names a document the chart does not declare, or one that does
/// not declare the target while another it names does.
pub open spec fn resolve_documents_spec(docs: Seq<BoundDocument>, m: MarkerView) -> (Seq<Seq<char>>, Option<Seq<char>>) {
    let key = !(m.class is External);
    let declared = document_names(docs);
    let unknown = match m.documents {
        Some(scope) => undeclared(docs, scope),
        None => seq![],
    };
    let candidates = match m.documents {
        Some(scope) => scope,
        None => declared,
    };
    let matched = matching(docs, candidates, key, m.target);
    if unknown.len() > 0 {
        (
            seq![],
            Some(
                "is scoped to "@ + join_spec(unknown.map_values(|n: Seq<char>| crate::quoted_spec(n)), ", "@)
                    + ", which this chart does not declare (declared: "@ + join_spec(declared, ", "@) + ")"@,
            ),
        )
    } else if matched.len() > 0 && m.documents is Some && matched.len() != candidates.len() {
        (
            seq![],
            Some(
                "is scoped to "@ + join_spec(lacking(docs, candidates, key, m.target), ", "@)
                    + ", whose contract does not declare "@ + crate::quoted_spec(m.target)
                    + "; a scope that names a document the key is absent from is a scope nobody has re-read since the contract changed"@,
            ),
        )
    } else if matched.len() > 0 {
        (matched, None)
    } else {
        (
            seq![],
            Some(
                "binds the value "@ + crate::quoted_spec(m.values_path) + " to the "@ + (if key {
                    "contract key "@
                } else {
                    "external.env variable "@
                }) + crate::quoted_spec(m.target) + ", which "@ + match m.documents {
                    Some(scope) => "the document(s) "@ + join_spec(scope, ", "@) + " do not declare"@,
                    None => "no contract this chart declares carries"@,
                },
            ),
        )
    }
}

/// Whether `after` is `before` with one failure recorded at `at` for `message`, where there is
/// one, and `before` unchanged where there is none.
pub open spec fn reported(before: Seq<Finding>, after: Seq<Finding>, at: Seq<char>, message: Option<Seq<char>>) -> bool {
    match message {
        None => after == before,
        Some(m) => after.len() == before.len() + 1 && after.take(before.len() as int) == before
            && after.last().at@ == at && after.last().message@ == m && after.last().failing,
    }
}

/// The first declared document of a name.
pub fn document_of<'a>(bound: &'a Bound, name: &String) -> (r: Option<&'a BoundDocument>)
    ensures
        match r {
            Some(d) => document_named(bound.documents@, name@) == Some(*d),
            None => document_named(bound.documents@, name@) is None,
        },
{
    let ghost docs = bound.documents@;
    let mut k: usize = 0;
    assert(docs.skip(0) =~= docs);
    while k < bound.documents.len()
        invariant
            k <= docs.len(),
            docs == bound.documents@,
            document_named(docs, name@) == document_named(docs.skip(k as int), name@),
        decreases bound.documents.len() - k,
    {
        assert(docs.skip(k as int)[0] == docs[k as int]);
        assert(docs.skip(k as int).drop_first() =~= docs.skip(k + 1));
        if bound.documents[k].name == *name {
            return Some(&bound.documents[k]);
        }
        k = k + 1;
    }
    None
}

/// Whether a list of named entries names `target`.
fn names_entry(entries: &Vec<(String, Vec<(String, Json)>)>, target: &String) -> (b: bool)
    ensures
        b == entries@.map_values(|e: (String, Vec<(String, Json)>)| e.0@).contains(target@),
{
    let ghost all = entries@.map_values(|e: (String, Vec<(String, Json)>)| e.0@);
    let mut k: usize = 0;
    while k < entries.len()
        invariant
            k <= entries@.len(),
            all == entries@.map_values(|e: (String, Vec<(String, Json)>)| e.0@),
            forall|q: int| 0 <= q < k ==> all[q] != target@,
        decreases entries.len() - k,
    {
        if entries[k].0 == *target {
            assert(all[k as int] == target@);
            return true;
        }
        k = k + 1;
    }
    false
}

/// Whether the document of this name declares the target.
fn declares_target(bound: &Bound, name: &String, key: bool, target: &String) -> (b: bool)
    ensures
        b == declares(bound.documents@, name@, key, target@),
{
    match document_of(bound, name) {
        Some(d) => if key {
            names_entry(&d.keys, target)
        } else {
            names_entry(&d.env, target)
        },
        None => false,
    }
}

/// Whether a document of this name is declared.
fn is_document(bound: &Bound, name: &String) -> (b: bool)
    ensures
        b == document_names(bound.documents@).contains(name@),
{
    let ghost all = document_names(bound.documents@);
    let mut k: usize = 0;
    while k < bound.documents.len()
        invariant
            k <= bound.documents@.len(),
            all == document_names(bound.documents@),
            forall|q: int| 0 <= q < k ==> all[q] != name@,
        decreases bound.documents.len() - k,
    {
        if bound.documents[k].name == *name {
            assert(all[k as int] == name@);
            return true;
        }
        k = k + 1;
    }
    false
}

/// The names, of those given, that declare (`want`) or do not declare the target.
fn sift(bound: &Bound, names: &Vec<String>, key: bool, target: &String, want: bool) -> (r: Vec<String>)
    ensures
        strs(r@) == if want {
            matching(bound.documents@, strs(names@), key, target@)
        } else {
            lacking(bound.documents@, strs(names@), key, target@)
        },
{
    let ghost all = strs(names@);
    let ghost keep = |n: Seq<char>| declares(bound.documents@, n, key, target@) == want;
    let mut r: Vec<String> = Vec::new();
    let mut k: usize = 0;
    while k < names.len()
        invariant
            k <= names@.len(),
            all == strs(names@),
            keep == (|n: Seq<char>| declares(bound.documents@, n, key, target@) == want),
            strs(r@) == all.take(k as int).filter(keep),
        decreases names.len() - k,
    {
        proof {
            reveal(Seq::filter);
            assert(all.take(k + 1).drop_last() =~= all.take(k as int));
            assert(all.take(k + 1).last() == names@[k as int]@);
        }
        let ghost before = strs(r@);
        if declares_target(bound, &names[k], key, target) == want {
            r.push(names[k].clone());
            assert(strs(r@) =~= before.push(names@[k as int]@));
        }
        k = k + 1;
    }
    assert(all.take(all.len() as int) =~= all);
    proof {
        if want {
            assert(keep =~= (|n: Seq<char>| declares(bound.documents@, n, key, target@)));
        } else {
            assert(keep =~= (|n: Seq<char>| !declares(bound.documents@, n, key, target@)));
        }
    }
    r
}

/// The scoped names that are no declared document.
fn undeclared_of(bound: &Bound, scope: &Vec<String>) -> (r: Vec<String>)
    ensures
        strs(r@) == undeclared(bound.documents@, strs(scope@)),
{
    let ghost all = strs(scope@);
    let ghost keep = |n: Seq<char>| !document_names(bound.documents@).contains(n);
    let mut r: Vec<String> = Vec::new();
    let mut k: usize = 0;
    while k < scope.len()
        invariant
            k <= scope@.len(),
            all == strs(scope@),
            keep == (|n: Seq<char>| !document_names(bound.documents@).contains(n)),
            strs(r@) == all.take(k as int).filter(keep),
        decreases scope.len() - k,
    {
        proof {
            reveal(Seq::filter);
            assert(all.take(k + 1).drop_last() =~= all.take(k as int));
            assert(all.take(k + 1).last() == scope@[k as int]@);
        }
        let ghost before = strs(r@);
        if !is_document(bound, &scope[k]) {
            r.push(scope[k].clone());
            assert(strs(r@) =~= before.push(scope@[k as int]@));
        }
        k = k + 1;
    }
    assert(all.take(all.len() as int) =~= all);
    r
}

/// The names of the declared documents, in their order.
fn names_of(bound: &Bound) -> (r: Vec<String>)
    ensures
        strs(r@) == document_names(bound.documents@),
{
    let mut r: Vec<String> = Vec::new();
    let mut k: usize = 0;
    while k < bound.documents.len()
        invariant
            k <= bound.documents@.len(),
            strs(r@) == document_names(bound.documents@).take(k as int),
        decreases bound.documents.len() - k,
    {
        let ghost before = strs(r@);
        r.push(bound.documents[k].name.clone());
        assert(strs(r@) =~= before.push(bound.documents@[k as int].name@));
        assert(document_names(bound.documents@).take(k + 1) =~= document_names(bound.documents@).take(k as int).push(bound.documents@[k as int].name@));
        k = k + 1;
    }
    assert(document_names(bound.documents@).take(bound.documents@.len() as int) =~= document_names(bound.documents@));
    r
}

/// Each name in single quotes.
fn quoted_all(names: &Vec<String>) -> (r: Vec<String>)
    ensures
        strs(r@) == strs(names@).map_values(|n: Seq<char>| crate::quoted_spec(n)),
{
    let mut r: Vec<String> = Vec::new();
    let mut k: usize = 0;
    while k < names.len()
        invariant
            k <= names@.len(),
            strs(r@) == strs(names@).take(k as int).map_values(|n: Seq<char>| crate::quoted_spec(n)),
        decreases names.len() - k,
    {
        let ghost before = strs(r@);
        r.push(crate::quoted(names[k].as_str()));
        assert(strs(r@) =~= before.push(crate::quoted_spec(names@[k as int]@)));
        assert(strs(names@).take(k + 1).map_values(|n: Seq<char>| crate::quoted_spec(n)) =~= strs(names@).take(k as int).map_values(|n: Seq<char>| crate::quoted_spec(n)).push(crate::quoted_spec(names@[k as int]@)));
        k = k + 1;
    }
    assert(strs(names@).take(names@.len() as int) =~= strs(names@));
    r
}

/// Which documents a marker binds its target in; empty, with the refusal recorded against the
/// marker, where it names nothing real.
///
/// An unscoped marker binds every document whose contract declares the target, which is what a
/// chart does: one template line writes a key into every service that reads it. A scope narrows
/// it, for the case the default over-claims, and naming a document that does not declare the
/// target is refused rather than ignored, because that is how a scope goes stale.
pub fn resolve_documents(bound: &Bound, marker: &Marker, report: &mut Report) -> (r: Vec<String>)
    ensures
        strs(r@) == resolve_documents_spec(bound.documents@, marker@).0,
        reported(
            old(report).findings@,
            final(report).findings@,
            at_spec(marker.chart@, marker.line as nat),
            resolve_documents_spec(bound.documents@, marker@).1,
        ),
{
    let ghost want = resolve_documents_spec(bound.documents@, marker@);
    let key = marker.class.targets_a_key();
    let declared = names_of(bound);
    let candidates = match &marker.documents {
        Some(scope) => {
            let unknown = undeclared_of(bound, scope);
            if unknown.len() > 0 {
                let mut m = chars_of("is scoped to ");
                push_all(&mut m, &join_strings(&quoted_all(&unknown), ", "));
                push_str(&mut m, ", which this chart does not declare (declared: ");
                push_all(&mut m, &join_strings(&declared, ", "));
                push_str(&mut m, ")");
                let ghost was = report.findings@;
                report.fail(marker.at(), string_of(&m));
                assert(report.findings@.take(was.len() as int) =~= was);
                let none: Vec<String> = Vec::new();
                assert(strs(none@) =~= want.0);
                return none;
            }
            scope.clone()
        },
        None => {
            let names = names_of(bound);
            names
        },
    };
    assert(strs(candidates@) == match marker@.documents {
        Some(scope) => scope,
        None => document_names(bound.documents@),
    });
    let matched = sift(bound, &candidates, key, &marker.target, true);
    if matched.len() > 0 && marker.documents.is_some() && matched.len() != candidates.len() {
        let missing = sift(bound, &candidates, key, &marker.target, false);
        let mut m = chars_of("is scoped to ");
        push_all(&mut m, &join_strings(&missing, ", "));
        push_str(&mut m, ", whose contract does not declare ");
        push_str(&mut m, crate::quoted(marker.target.as_str()).as_str());
        push_str(&mut m, "; a scope that names a document the key is absent from is a scope nobody has re-read since the contract changed");
        let ghost was = report.findings@;
        report.fail(marker.at(), string_of(&m));
        assert(report.findings@.take(was.len() as int) =~= was);
        let none: Vec<String> = Vec::new();
        assert(strs(none@) =~= want.0);
        return none;
    }
    if matched.len() > 0 {
        return matched;
    }
    let mut m = chars_of("binds the value ");
    push_str(&mut m, crate::quoted(marker.values_path.as_str()).as_str());
    push_str(&mut m, " to the ");
    if key {
        push_str(&mut m, "contract key ");
    } else {
        push_str(&mut m, "external.env variable ");
    }
    push_str(&mut m, crate::quoted(marker.target.as_str()).as_str());
    push_str(&mut m, ", which ");
    match &marker.documents {
        Some(scope) => {
            push_str(&mut m, "the document(s) ");
            push_all(&mut m, &join_strings(scope, ", "));
            push_str(&mut m, " do not declare");
        },
        None => {
            push_str(&mut m, "no contract this chart declares carries");
        },
    }
    assert(matching(bound.documents@, strs(candidates@), key, marker.target@).len() == 0);
    assert(marker@.documents is Some ==> undeclared(bound.documents@, marker@.documents->0).len() == 0);
    assert(want.1 == Some(m@));
    let ghost was = report.findings@;
    report.fail(marker.at(), string_of(&m));
    assert(report.findings@.take(was.len() as int) =~= was);
    let none: Vec<String> = Vec::new();
    assert(strs(none@) =~= want.0);
    none
}


// ------------------------------------------------------------------------------------------------
// The coverage rule: every key of an enrolled chart is bound, or written off with a reason
// ------------------------------------------------------------------------------------------------

/// One marker, and one document it resolved its target in.
#[derive(Debug, Clone)]
pub struct Binding {
    /// The marker.
    pub marker: Marker,
    /// The document its target was found in.
    pub document: String,
}

/// The targets bound in one document by a marker whose class names a key.
pub open spec fn bound_in(resolved: Seq<Binding>, document: Seq<char>) -> Set<Seq<char>> {
    Set::new(
        |t: Seq<char>|
            exists|i: int|
                0 <= i < resolved.len() && #[trigger] resolved[i].document@ == document
                    && !(resolved[i].marker.class is External) && resolved[i].marker.target@ == t,
    )
}

/// The keys of one document, in their order, that no value binds and no `unbound` entry writes
/// off.
pub open spec fn owed(doc: BoundDocument, resolved: Seq<Binding>, unbound: Seq<Unbound>) -> Seq<Seq<char>> {
    namespace(doc, true).filter(
        |k: Seq<char>| !bound_in(resolved, doc.name@).contains(k) && !written_off_spec(unbound, doc.name@).contains(k),
    )
}

/// Whether a key's merged fields mark it a credential.
pub open spec fn secret_key(fields: Seq<(String, Json)>) -> bool {
    crate::explain::lookup(fields, "secret"@) == Some(Json::Bool(true))
}

/// The refusal for a key both written off and bound.
pub open spec fn contradicted(key: Seq<char>) -> Seq<char> {
    "`unbound` names "@ + crate::quoted_spec(key)
        + " while a marker binds it; one of the two is out of date, and the reason recorded here is the one that will be believed"@
}

/// The refusal for a key nothing binds and nothing writes off.
pub open spec fn unbound_key(key: Seq<char>, secret: bool) -> Seq<char> {
    "the contract declares "@ + crate::quoted_spec(key)
        + " and no chart value binds it. Add a `# # @config ...` marker to the `@schema` block of the value that feeds it, or an `unbound` entry with a reason in "@
        + crate::DECLARATION@ + if secret {
        " (it is a credential; the secrets inventory is what checks how those are delivered)"@
    } else {
        seq![]
    }
}

/// The fields of the first key of a document named `key`.
pub open spec fn key_fields(doc: BoundDocument, key: Seq<char>) -> Seq<(String, Json)>
{
    match crate::shapes::entry_in(doc.keys@, key) {
        Some(f) => f,
        None => seq![],
    }
}

/// What the coverage rule finds in one document, as `(where, what)`: each key both written off
/// and bound, in key order, then each key owed, in key order.
pub open spec fn coverage_of(chart: Seq<char>, doc: BoundDocument, resolved: Seq<Binding>, unbound: Seq<Unbound>) -> Seq<(Seq<char>, Seq<char>)> {
    let at = chart + ": "@ + doc.name@;
    let keys = namespace(doc, true);
    let both = keys.filter(
        |k: Seq<char>| written_off_spec(unbound, doc.name@).contains(k) && bound_in(resolved, doc.name@).contains(k),
    );
    both.map_values(|k: Seq<char>| (at + ": "@ + crate::DECLARATION@, contradicted(k))) + owed(doc, resolved, unbound).map_values(
        |k: Seq<char>| (at, unbound_key(k, secret_key(key_fields(doc, k)))),
    )
}

/// What the coverage rule finds in every document, document after document.
pub open spec fn coverage_spec(chart: Seq<char>, docs: Seq<BoundDocument>, resolved: Seq<Binding>, unbound: Seq<Unbound>) -> Seq<(Seq<char>, Seq<char>)>
    decreases docs.len(),
{
    if docs.len() == 0 {
        seq![]
    } else {
        coverage_spec(chart, docs.drop_last(), resolved, unbound) + coverage_of(chart, docs.last(), resolved, unbound)
    }
}

/// Findings, as `(where, what)`, every one failing.
pub open spec fn failures(findings: Seq<Finding>) -> Seq<(Seq<char>, Seq<char>)> {
    findings.map_values(|f: Finding| (f.at@, f.message@))
}

/// Whether a key of one document is bound by a marker whose class names a key.
fn binds(resolved: &Vec<Binding>, document: &String, key: &String) -> (b: bool)
    ensures
        b == bound_in(resolved@, document@).contains(key@),
{
    let mut k: usize = 0;
    while k < resolved.len()
        invariant
            k <= resolved@.len(),
            forall|i: int| 0 <= i < k ==> !(#[trigger] resolved@[i].document@ == document@
                && !(resolved@[i].marker.class is External) && resolved@[i].marker.target@ == key@),
        decreases resolved.len() - k,
    {
        if resolved[k].document == *document && resolved[k].marker.class.targets_a_key()
            && resolved[k].marker.target == *key {
            return true;
        }
        k = k + 1;
    }
    false
}

/// Whether a sorted list holds a text.
fn holds(list: &Vec<String>, item: &String) -> (b: bool)
    ensures
        b == strs(list@).contains(item@),
{
    let mut k: usize = 0;
    while k < list.len()
        invariant
            k <= list@.len(),
            forall|j: int| 0 <= j < k ==> strs(list@)[j] != item@,
        decreases list.len() - k,
    {
        if list[k] == *item {
            assert(strs(list@)[k as int] == item@);
            return true;
        }
        k = k + 1;
    }
    false
}

/// Every contract key of an enrolled chart is bound, or written off with a reason: each key both
/// written off and bound is refused, and each key owed.
///
/// Over the keys only. A declared external variable is a namespace the loader does not own, so a
/// chart that offers no value for one has declined to expose somebody else's variable.
pub fn check_coverage(bound: &Bound, declaration: &Declaration, resolved: &Vec<Binding>, report: &mut Report)
    ensures
        final(report).findings@.len() >= old(report).findings@.len(),
        final(report).findings@.take(old(report).findings@.len() as int) == old(report).findings@,
        failures(final(report).findings@.skip(old(report).findings@.len() as int)) == coverage_spec(
            bound.chart@,
            bound.documents@,
            resolved@,
            declaration.unbound@,
        ),
        forall|i: int| old(report).findings@.len() <= i < final(report).findings@.len() ==> (#[trigger] final(report).findings@[i]).failing,
{
    let ghost start = report.findings@;
    let ghost docs = bound.documents@;
    let mut d: usize = 0;
    assert(failures(report.findings@.skip(start.len() as int)) =~= coverage_spec(bound.chart@, docs.take(0), resolved@, declaration.unbound@));
    while d < bound.documents.len()
        invariant
            d <= docs.len(),
            docs == bound.documents@,
            report.findings@.len() >= start.len(),
            report.findings@.take(start.len() as int) == start,
            failures(report.findings@.skip(start.len() as int)) == coverage_spec(bound.chart@, docs.take(d as int), resolved@, declaration.unbound@),
            forall|i: int| start.len() <= i < report.findings@.len() ==> (#[trigger] report.findings@[i]).failing,
        decreases bound.documents.len() - d,
    {
        let doc = &bound.documents[d];
        assert(docs.take(d + 1).drop_last() =~= docs.take(d as int));
        assert(docs.take(d + 1).last() == *doc);
        let written_off = written_off_in(declaration, doc.name.as_str());
        let mut at = chars(&bound.chart);
        push_str(&mut at, ": ");
        push_all(&mut at, &chars(&doc.name));
        let mut at_declaration = at.clone();
        push_str(&mut at_declaration, ": ");
        push_str(&mut at_declaration, crate::DECLARATION);
        let ghost base = failures(report.findings@.skip(start.len() as int));
        let ghost keys = namespace(*doc, true);
        let ghost in_both = |k: Seq<char>| written_off_spec(declaration.unbound@, doc.name@).contains(k) && bound_in(resolved@, doc.name@).contains(k);
        let ghost in_owed = |k: Seq<char>| !bound_in(resolved@, doc.name@).contains(k) && !written_off_spec(declaration.unbound@, doc.name@).contains(k);
        let mut j: usize = 0;
        while j < doc.keys.len()
            invariant
                j <= doc.keys@.len(),
                *doc == docs[d as int],
                keys == namespace(*doc, true),
                held(strs(written_off@)) == written_off_spec(declaration.unbound@, doc.name@),
                in_both == (|k: Seq<char>| written_off_spec(declaration.unbound@, doc.name@).contains(k) && bound_in(resolved@, doc.name@).contains(k)),
                at_declaration@ == bound.chart@ + ": "@ + doc.name@ + ": "@ + crate::DECLARATION@,
                report.findings@.len() >= start.len(),
                report.findings@.take(start.len() as int) == start,
                failures(report.findings@.skip(start.len() as int)) == base + keys.take(j as int).filter(in_both).map_values(
                    |k: Seq<char>| (bound.chart@ + ": "@ + doc.name@ + ": "@ + crate::DECLARATION@, contradicted(k)),
                ),
                forall|i: int| start.len() <= i < report.findings@.len() ==> (#[trigger] report.findings@[i]).failing,
            decreases doc.keys.len() - j,
        {
            let key = &doc.keys[j].0;
            proof {
                reveal(Seq::filter);
                assert(keys.take(j + 1).drop_last() =~= keys.take(j as int));
                assert(keys.take(j + 1).last() == key@);
            }
            let ghost before = report.findings@;
            if holds(&written_off, key) && binds(resolved, &doc.name, key) {
                let mut m = chars_of("`unbound` names ");
                push_str(&mut m, crate::quoted(key.as_str()).as_str());
                push_str(&mut m, " while a marker binds it; one of the two is out of date, and the reason recorded here is the one that will be believed");
                assert(m@ == contradicted(key@));
                report.fail(string_of(&at_declaration), string_of(&m));
                assert(report.findings@.skip(start.len() as int) =~= before.skip(start.len() as int).push(report.findings@.last()));
                assert(failures(report.findings@.skip(start.len() as int)) =~= failures(before.skip(start.len() as int)).push((at_declaration@, m@)));
                assert(report.findings@.take(start.len() as int) =~= start);
            }
            assert(keys.take(j + 1).filter(in_both).map_values(
                |k: Seq<char>| (bound.chart@ + ": "@ + doc.name@ + ": "@ + crate::DECLARATION@, contradicted(k)),
            ) =~= if in_both(key@) {
                keys.take(j as int).filter(in_both).map_values(
                    |k: Seq<char>| (bound.chart@ + ": "@ + doc.name@ + ": "@ + crate::DECLARATION@, contradicted(k)),
                ).push((bound.chart@ + ": "@ + doc.name@ + ": "@ + crate::DECLARATION@, contradicted(key@)))
            } else {
                keys.take(j as int).filter(in_both).map_values(
                    |k: Seq<char>| (bound.chart@ + ": "@ + doc.name@ + ": "@ + crate::DECLARATION@, contradicted(k)),
                )
            });
            j = j + 1;
        }
        assert(keys.take(keys.len() as int) =~= keys);
        let ghost middle = failures(report.findings@.skip(start.len() as int));
        let mut j: usize = 0;
        while j < doc.keys.len()
            invariant
                j <= doc.keys@.len(),
                *doc == docs[d as int],
                keys == namespace(*doc, true),
                held(strs(written_off@)) == written_off_spec(declaration.unbound@, doc.name@),
                in_owed == (|k: Seq<char>| !bound_in(resolved@, doc.name@).contains(k) && !written_off_spec(declaration.unbound@, doc.name@).contains(k)),
                at@ == bound.chart@ + ": "@ + doc.name@,
                report.findings@.len() >= start.len(),
                report.findings@.take(start.len() as int) == start,
                failures(report.findings@.skip(start.len() as int)) == middle + keys.take(j as int).filter(in_owed).map_values(
                    |k: Seq<char>| (bound.chart@ + ": "@ + doc.name@, unbound_key(k, secret_key(key_fields(*doc, k)))),
                ),
                forall|i: int| start.len() <= i < report.findings@.len() ==> (#[trigger] report.findings@[i]).failing,
            decreases doc.keys.len() - j,
        {
            let key = &doc.keys[j].0;
            proof {
                reveal(Seq::filter);
                assert(keys.take(j + 1).drop_last() =~= keys.take(j as int));
                assert(keys.take(j + 1).last() == key@);
            }
            let ghost before = report.findings@;
            if !binds(resolved, &doc.name, key) && !holds(&written_off, key) {
                let secret = match crate::shapes::entry_named(&doc.keys, key) {
                    Some(fields) => match crate::shapes::field_of(fields, "secret") {
                        Some(Json::Bool(true)) => true,
                        _ => false,
                    },
                    None => false,
                };
                assert(secret == secret_key(key_fields(*doc, key@)));
                let mut m = chars_of("the contract declares ");
                push_str(&mut m, crate::quoted(key.as_str()).as_str());
                push_str(&mut m, " and no chart value binds it. Add a `# # @config ...` marker to the `@schema` block of the value that feeds it, or an `unbound` entry with a reason in ");
                push_str(&mut m, crate::DECLARATION);
                if secret {
                    push_str(&mut m, " (it is a credential; the secrets inventory is what checks how those are delivered)");
                }
                assert(m@ == unbound_key(key@, secret_key(key_fields(*doc, key@))));
                report.fail(string_of(&at), string_of(&m));
                assert(report.findings@.skip(start.len() as int) =~= before.skip(start.len() as int).push(report.findings@.last()));
                assert(failures(report.findings@.skip(start.len() as int)) =~= failures(before.skip(start.len() as int)).push((at@, m@)));
                assert(report.findings@.take(start.len() as int) =~= start);
            }
            assert(keys.take(j + 1).filter(in_owed).map_values(
                |k: Seq<char>| (bound.chart@ + ": "@ + doc.name@, unbound_key(k, secret_key(key_fields(*doc, k)))),
            ) =~= if in_owed(key@) {
                keys.take(j as int).filter(in_owed).map_values(
                    |k: Seq<char>| (bound.chart@ + ": "@ + doc.name@, unbound_key(k, secret_key(key_fields(*doc, k)))),
                ).push((bound.chart@ + ": "@ + doc.name@, unbound_key(key@, secret_key(key_fields(*doc, key@)))))
            } else {
                keys.take(j as int).filter(in_owed).map_values(
                    |k: Seq<char>| (bound.chart@ + ": "@ + doc.name@, unbound_key(k, secret_key(key_fields(*doc, k)))),
                )
            });
            j = j + 1;
        }
        assert(keys.take(keys.len() as int) =~= keys);
        assert(failures(report.findings@.skip(start.len() as int)) =~= base + coverage_of(bound.chart@, *doc, resolved@, declaration.unbound@));
        d = d + 1;
    }
    assert(docs.take(docs.len() as int) =~= docs);
}

/// The keys of each document that no value binds and no `unbound` entry writes off, document by
/// document and in key order: never sparse, a document whose keys are all bound listed with none.
pub fn missing_keys(bound: &Bound, declaration: &Declaration, resolved: &Vec<Binding>) -> (r: Vec<(String, Vec<String>)>)
    ensures
        r@.len() == bound.documents@.len(),
        forall|d: int| 0 <= d < r@.len() ==> (#[trigger] r@[d]).0@ == bound.documents@[d].name@ && strs(r@[d].1@) == owed(
            bound.documents@[d],
            resolved@,
            declaration.unbound@,
        ),
{
    let mut r: Vec<(String, Vec<String>)> = Vec::new();
    let mut d: usize = 0;
    while d < bound.documents.len()
        invariant
            d <= bound.documents@.len(),
            r@.len() == d,
            forall|q: int| 0 <= q < d ==> (#[trigger] r@[q]).0@ == bound.documents@[q].name@ && strs(r@[q].1@) == owed(
                bound.documents@[q],
                resolved@,
                declaration.unbound@,
            ),
        decreases bound.documents.len() - d,
    {
        let doc = &bound.documents[d];
        let written_off = written_off_in(declaration, doc.name.as_str());
        let ghost keys = namespace(*doc, true);
        let ghost keep = |k: Seq<char>| !bound_in(resolved@, doc.name@).contains(k) && !written_off_spec(declaration.unbound@, doc.name@).contains(k);
        let mut owing: Vec<String> = Vec::new();
        let mut j: usize = 0;
        while j < doc.keys.len()
            invariant
                j <= doc.keys@.len(),
                keys == namespace(*doc, true),
                held(strs(written_off@)) == written_off_spec(declaration.unbound@, doc.name@),
                keep == (|k: Seq<char>| !bound_in(resolved@, doc.name@).contains(k) && !written_off_spec(declaration.unbound@, doc.name@).contains(k)),
                strs(owing@) == keys.take(j as int).filter(keep),
            decreases doc.keys.len() - j,
        {
            let key = &doc.keys[j].0;
            proof {
                reveal(Seq::filter);
                assert(keys.take(j + 1).drop_last() =~= keys.take(j as int));
                assert(keys.take(j + 1).last() == key@);
            }
            let ghost before = strs(owing@);
            if !binds(resolved, &doc.name, key) && !holds(&written_off, key) {
                owing.push(key.clone());
                assert(strs(owing@) =~= before.push(key@));
            }
            j = j + 1;
        }
        assert(keys.take(keys.len() as int) =~= keys);
        r.push((doc.name.clone(), owing));
        d = d + 1;
    }
    r
}


// ------------------------------------------------------------------------------------------------
// One key, one value, unless every value binding it says `composed`
// ------------------------------------------------------------------------------------------------

/// The document and target one binding resolved to.
pub open spec fn pair_of(b: Binding) -> Seq<Seq<char>> {
    seq![b.document@, b.marker.target@]
}

/// Every document and target the bindings resolved to.
pub open spec fn pairs_held(resolved: Seq<Binding>) -> Set<Seq<Seq<char>>> {
    resolved.map_values(|b: Binding| pair_of(b)).to_set()
}

/// The bindings that resolved to one document and target, in order.
pub open spec fn group_of(resolved: Seq<Binding>, pair: Seq<Seq<char>>) -> Seq<Binding> {
    resolved.filter(|b: Binding| pair_of(b) == pair)
}

/// The bindings among some that say `composed`.
pub open spec fn composed_in(group: Seq<Binding>) -> Seq<Binding> {
    group.filter(|b: Binding| b.marker.class is Composed)
}

/// The refusal for one key bound by several values not all of which say `composed`.
pub open spec fn several(pair: Seq<Seq<char>>, group: Seq<Binding>) -> Seq<char> {
    pair[0] + ": "@ + crate::quoted_spec(pair[1]) + " is bound by "@ + crate::text::decimal(group.len())
        + " values ("@ + join_spec(group.map_values(|b: Binding| b.marker.values_path@), ", "@)
        + "); only `composed` admits several, and then every one of them must say so"@
}

/// What the uniqueness rule finds, as `(where, what)`, for the document and target pairs in
/// their order.
pub open spec fn uniqueness_spec(resolved: Seq<Binding>, pairs: Seq<Seq<Seq<char>>>) -> Seq<(Seq<char>, Seq<char>)>
    decreases pairs.len(),
{
    if pairs.len() == 0 {
        seq![]
    } else {
        let g = group_of(resolved, pairs.last());
        let rest = uniqueness_spec(resolved, pairs.drop_last());
        if g.len() > 1 && composed_in(g).len() != g.len() {
            rest.push((at_spec(g[0].marker.chart@, g[0].marker.line as nat), several(pairs.last(), g)))
        } else {
            rest
        }
    }
}

/// One key, one value: each document and target, in order, bound by several values of which
/// not every one says `composed` is refused at the first of them.
///
/// Keyed by the document the target resolved to rather than by how it was written, so a scoped
/// and an unscoped marker naming one key collide as they should.
pub fn check_uniqueness(resolved: &Vec<Binding>, report: &mut Report)
    ensures
        final(report).findings@.len() >= old(report).findings@.len(),
        final(report).findings@.take(old(report).findings@.len() as int) == old(report).findings@,
        exists|pairs: Seq<Seq<Seq<char>>>|
            crate::order::lists_ascending(pairs) && crate::order::lists_held(pairs) == pairs_held(resolved@)
                && failures(final(report).findings@.skip(old(report).findings@.len() as int)) == uniqueness_spec(resolved@, pairs),
        forall|i: int| old(report).findings@.len() <= i < final(report).findings@.len() ==> (#[trigger] final(report).findings@[i]).failing,
{
    let ghost all = resolved@;
    let mut pairs: Vec<Vec<String>> = Vec::new();
    let mut i: usize = 0;
    assert(crate::order::lists_held(crate::order::lists_of(pairs@)) =~= pairs_held(all.take(0)));
    while i < resolved.len()
        invariant
            i <= all.len(),
            all == resolved@,
            crate::order::lists_ascending(crate::order::lists_of(pairs@)),
            crate::order::lists_held(crate::order::lists_of(pairs@)) == pairs_held(all.take(i as int)),
        decreases resolved.len() - i,
    {
        let item = vec![resolved[i].document.clone(), resolved[i].marker.target.clone()];
        assert(strs(item@) =~= pair_of(all[i as int]));
        crate::order::insert_sorted_list(&mut pairs, item);
        assert(all.take(i + 1).map_values(|b: Binding| pair_of(b)) =~= all.take(i as int).map_values(|b: Binding| pair_of(b)).push(pair_of(all[i as int])));
        assert(pairs_held(all.take(i + 1)) =~= pairs_held(all.take(i as int)).insert(pair_of(all[i as int]))) by {
            vstd::seq_lib::seq_to_set_is_finite(all.take(i as int).map_values(|b: Binding| pair_of(b)));
            assert forall|p: Seq<Seq<char>>| #[trigger] pairs_held(all.take(i + 1)).contains(p) <==> pairs_held(all.take(i as int)).insert(pair_of(all[i as int])).contains(p) by {
                let before = all.take(i as int).map_values(|b: Binding| pair_of(b));
                let after = before.push(pair_of(all[i as int]));
                if after.contains(p) {
                    let k = choose|k: int| 0 <= k < after.len() && after[k] == p;
                    if k < before.len() {
                        assert(before[k] == p);
                    }
                }
                if before.contains(p) {
                    let k = choose|k: int| 0 <= k < before.len() && before[k] == p;
                    assert(after[k] == p);
                }
                if p == pair_of(all[i as int]) {
                    assert(after[before.len() as int] == p);
                }
            }
        }
        i = i + 1;
    }
    assert(all.take(all.len() as int) =~= all);
    let ghost ps = crate::order::lists_of(pairs@);
    let ghost start = report.findings@;
    let mut k: usize = 0;
    assert(failures(report.findings@.skip(start.len() as int)) =~= uniqueness_spec(all, ps.take(0)));
    while k < pairs.len()
        invariant
            k <= pairs@.len(),
            all == resolved@,
            ps == crate::order::lists_of(pairs@),
            crate::order::lists_held(ps) == pairs_held(all),
            crate::order::lists_ascending(ps),
            report.findings@.len() >= start.len(),
            report.findings@.take(start.len() as int) == start,
            failures(report.findings@.skip(start.len() as int)) == uniqueness_spec(all, ps.take(k as int)),
            forall|q: int| start.len() <= q < report.findings@.len() ==> (#[trigger] report.findings@[q]).failing,
        decreases pairs.len() - k,
    {
        assert(ps.take(k + 1).drop_last() =~= ps.take(k as int));
        assert(ps.take(k + 1).last() == ps[k as int]);
        let pair = &pairs[k];
        if pair.len() != 2 {
            proof {
                assert(ps.contains(ps[k as int]));
                assert(crate::order::lists_held(ps).contains(ps[k as int]));
                assert(pairs_held(all).contains(ps[k as int]));
                let mp = all.map_values(|b: Binding| pair_of(b));
                assert(mp.to_set().contains(ps[k as int]));
                assert(mp.contains(ps[k as int]));
                let j = choose|j: int| 0 <= j < mp.len() && #[trigger] mp[j] == ps[k as int];
                assert(mp[j] == pair_of(all[j]));
                assert(ps[k as int].len() == 2);
                assert(pair@.len() == ps[k as int].len());
            }
            k = k + 1;
            continue;
        }
        let ghost p = ps[k as int];
        assert(p == seq![pair@[0]@, pair@[1]@]);
        let ghost keep = |b: Binding| pair_of(b) == p;
        let ghost comp = |b: Binding| b.marker.class is Composed;
        let mut group: Vec<&Binding> = Vec::new();
        let mut composed: usize = 0;
        let mut j: usize = 0;
        while j < resolved.len()
            invariant
                j <= all.len(),
                all == resolved@,
                keep == (|b: Binding| pair_of(b) == p),
                comp == (|b: Binding| b.marker.class is Composed),
                p == seq![pair@[0]@, pair@[1]@],
                pair@.len() == 2,
                group@.map_values(|b: &Binding| *b) == all.take(j as int).filter(keep),
                composed == all.take(j as int).filter(keep).filter(comp).len(),
                composed <= j,
            decreases resolved.len() - j,
        {
            proof {
                reveal(Seq::filter);
                assert(all.take(j + 1).drop_last() =~= all.take(j as int));
                assert(all.take(j + 1).last() == all[j as int]);
            }
            let b = &resolved[j];
            let ghost before = group@.map_values(|b: &Binding| *b);
            if b.document == pair[0] && b.marker.target == pair[1] {
                assert(keep(*b));
                group.push(b);
                assert(group@.map_values(|b: &Binding| *b) =~= before.push(*b));
                proof {
                    assert(before.push(*b).drop_last() =~= before);
                }
                if matches!(b.marker.class, Class::Composed) {
                    composed = composed + 1;
                }
            } else {
                assert(!keep(*b)) by {
                    if keep(*b) {
                        assert(pair_of(*b)[0] == p[0]);
                        assert(pair_of(*b)[1] == p[1]);
                    }
                }
            }
            j = j + 1;
        }
        assert(all.take(all.len() as int) =~= all);
        let ghost g = group_of(all, p);
        assert(group@.map_values(|b: &Binding| *b) == g);
        assert(composed == composed_in(g).len());
        if group.len() > 1 && composed != group.len() {
            let mut paths: Vec<String> = Vec::new();
            let mut q: usize = 0;
            while q < group.len()
                invariant
                    q <= group@.len(),
                    group@.map_values(|b: &Binding| *b) == g,
                    strs(paths@) == g.take(q as int).map_values(|b: Binding| b.marker.values_path@),
                decreases group.len() - q,
            {
                let ghost before = strs(paths@);
                paths.push(group[q].marker.values_path.clone());
                assert(strs(paths@) =~= before.push(g[q as int].marker.values_path@));
                assert(g.take(q + 1).map_values(|b: Binding| b.marker.values_path@) =~= g.take(q as int).map_values(|b: Binding| b.marker.values_path@).push(g[q as int].marker.values_path@));
                q = q + 1;
            }
            assert(g.take(g.len() as int) =~= g);
            let mut m = chars(&pair[0]);
            push_str(&mut m, ": ");
            push_str(&mut m, crate::quoted(pair[1].as_str()).as_str());
            push_str(&mut m, " is bound by ");
            push_all(&mut m, &crate::text::decimal_of(group.len() as u64));
            push_str(&mut m, " values (");
            push_all(&mut m, &join_strings(&paths, ", "));
            push_str(&mut m, "); only `composed` admits several, and then every one of them must say so");
            assert(m@ == several(p, g));
            let ghost was = report.findings@;
            report.fail(group[0].marker.at(), string_of(&m));
            assert(report.findings@.skip(start.len() as int) =~= was.skip(start.len() as int).push(report.findings@.last()));
            assert(failures(report.findings@.skip(start.len() as int)) =~= failures(was.skip(start.len() as int)).push((at_spec(g[0].marker.chart@, g[0].marker.line as nat), m@)));
            assert(report.findings@.take(start.len() as int) =~= start);
        }
        k = k + 1;
    }
    assert(ps.take(ps.len() as int) =~= ps);
}


// ------------------------------------------------------------------------------------------------
// The class matches the key
// ------------------------------------------------------------------------------------------------

/// The form a document's contract gives a marker's target (`text_form`), where it gives one.
pub open spec fn form_of(docs: Seq<BoundDocument>, name: Seq<char>, key: bool, target: Seq<char>) -> Option<Seq<char>> {
    match crate::shapes::entry_of(docs, name, key, target) {
        Some(f) => match crate::explain::lookup(f, "text_form"@) {
            Some(Json::Str(t)) => Some(t@),
            _ => None,
        },
        None => None,
    }
}

/// A form as a message spells it.
pub open spec fn form_text(form: Option<Seq<char>>) -> Seq<char> {
    match form {
        Some(t) => t,
        None => "None"@,
    }
}

/// Whether every document a marker binds gives its target the same form.
pub open spec fn forms_agree(docs: Seq<BoundDocument>, documents: Seq<Seq<char>>, key: bool, target: Seq<char>) -> bool {
    forall|i: int| 0 <= i < documents.len() ==> #[trigger] form_of(docs, documents[i], key, target) == form_of(docs, documents[0], key, target)
}

/// What rule 2 says of a marker bound in `documents`, given those documents in name order once
/// each: a refusal where they disagree on the target's form, where a `structured` marker names a
/// scalar key, or where a `projection` names a structured one; none otherwise.
pub open spec fn shape_refusal(docs: Seq<BoundDocument>, m: MarkerView, documents: Seq<Seq<char>>, sorted: Seq<Seq<char>>) -> Option<Seq<char>> {
    let key = !(m.class is External);
    let form = if documents.len() == 0 { None } else { form_of(docs, documents[0], key, m.target) };
    let structured = form == Some("structured"@);
    if !forms_agree(docs, documents, key, m.target) {
        Some("binds "@ + crate::quoted_spec(m.target) + " in documents that do not agree what it is ("@ + join_spec(
            sorted.map_values(|d: Seq<char>| d + ": "@ + form_text(form_of(docs, d, key, m.target))),
            ", "@,
        ) + "); one path in two shapes is two settings, so scope the marker to the one this value feeds"@)
    } else if m.class is Structured && !structured {
        Some("is `structured`, but the contract calls "@ + crate::quoted_spec(m.target) + " a scalar ("@
            + form_text(form) + "); a scalar key takes `projection`"@)
    } else if m.class is Projection && structured {
        Some("is `projection`, but the contract calls "@ + crate::quoted_spec(m.target)
            + " structured — the keys underneath it are the operator's own names, which is what `structured` says"@)
    } else {
        None
    }
}

/// The form a document gives a target.
fn form_in(bound: &Bound, name: &String, key: bool, target: &String) -> (r: Option<String>)
    ensures
        match r {
            Some(t) => form_of(bound.documents@, name@, key, target@) == Some(t@),
            None => form_of(bound.documents@, name@, key, target@) is None,
        },
{
    match document_of(bound, name) {
        Some(d) => {
            let list = if key {
                &d.keys
            } else {
                &d.env
            };
            match crate::shapes::entry_named(list, target) {
                Some(f) => match crate::shapes::field_of(f, "text_form") {
                    Some(Json::Str(t)) => Some(t.clone()),
                    _ => None,
                },
                None => None,
            }
        },
        None => None,
    }
}

/// Whether two forms are the same.
fn same_form(a: &Option<String>, b: &Option<String>) -> (r: bool)
    ensures
        r == (match a { Some(t) => Some(t@), None => None::<Seq<char>> } == match b { Some(t) => Some(t@), None => None::<Seq<char>> }),
{
    match (a, b) {
        (Some(x), Some(y)) => *x == *y,
        (None, None) => true,
        _ => false,
    }
}

/// Rule 2: a `structured` marker names a key the contract calls structured and a `projection`
/// one names a key it does not, every document the marker binds agreeing what the key is; the
/// refusal recorded against the marker where not.
pub fn check_shape(bound: &Bound, marker: &Marker, documents: &Vec<String>, report: &mut Report) -> (ok: bool)
    ensures
        exists|sorted: Seq<Seq<char>>|
            ascending(sorted) && held(sorted) == strs(documents@).to_set() && {
                let refusal = shape_refusal(bound.documents@, marker@, strs(documents@), sorted);
                &&& ok == refusal is None
                &&& reported(old(report).findings@, final(report).findings@, at_spec(marker.chart@, marker.line as nat), refusal)
            },
{
    let key = marker.class.targets_a_key();
    let ghost docs = bound.documents@;
    let ghost ds = strs(documents@);
    let mut sorted: Vec<String> = Vec::new();
    let mut i: usize = 0;
    assert(held(strs(sorted@)) =~= ds.take(0).to_set());
    while i < documents.len()
        invariant
            i <= documents@.len(),
            ds == strs(documents@),
            ascending(strs(sorted@)),
            held(strs(sorted@)) == ds.take(i as int).to_set(),
        decreases documents.len() - i,
    {
        insert_sorted(&mut sorted, documents[i].clone());
        assert(ds.take(i + 1) =~= ds.take(i as int).push(documents@[i as int]@));
        assert(ds.take(i + 1).to_set() =~= ds.take(i as int).to_set().insert(documents@[i as int]@)) by {
            assert forall|x: Seq<char>| #[trigger] ds.take(i + 1).to_set().contains(x) <==> ds.take(i as int).to_set().insert(documents@[i as int]@).contains(x) by {
                let t = ds.take(i + 1);
                if t.contains(x) {
                    let q = choose|q: int| 0 <= q < t.len() && t[q] == x;
                    if q < i {
                        assert(ds.take(i as int)[q] == x);
                    }
                }
                if ds.take(i as int).contains(x) {
                    let q = choose|q: int| 0 <= q < i && ds.take(i as int)[q] == x;
                    assert(t[q] == x);
                }
                if x == documents@[i as int]@ {
                    assert(t[i as int] == x);
                }
            }
        }
        i = i + 1;
    }
    assert(ds.take(ds.len() as int) =~= ds);
    let ghost sv = strs(sorted@);
    let ghost want = shape_refusal(docs, marker@, ds, sv);
    let first = if documents.len() == 0 {
        None
    } else {
        form_in(bound, &documents[0], key, &marker.target)
    };
    let ghost fv = crate::restarts::text_view(first);
    assert(fv == if ds.len() == 0 { None } else { form_of(docs, ds[0], key, marker.target@) });
    let mut agree = true;
    let mut k: usize = 0;
    while k < documents.len()
        invariant
            k <= documents@.len(),
            ds == strs(documents@),
            docs == bound.documents@,
            key == !(marker.class is External),
            fv == crate::restarts::text_view(first),
            documents@.len() > 0 ==> fv == form_of(docs, ds[0], key, marker.target@),
            agree == forall|q: int| 0 <= q < k ==> #[trigger] form_of(docs, ds[q], key, marker.target@) == form_of(docs, ds[0], key, marker.target@),
        decreases documents.len() - k,
    {
        let here = form_in(bound, &documents[k], key, &marker.target);
        let same = same_form(&here, &first);
        proof {
            assert(same == (form_of(docs, ds[k as int], key, marker.target@) == form_of(docs, ds[0], key, marker.target@)));
            assert((agree && same) == forall|q: int| 0 <= q < k + 1 ==> #[trigger] form_of(docs, ds[q], key, marker.target@) == form_of(docs, ds[0], key, marker.target@)) by {
                if agree && same {
                    assert forall|q: int| 0 <= q < k + 1 implies #[trigger] form_of(docs, ds[q], key, marker.target@) == form_of(docs, ds[0], key, marker.target@) by {
                        if q < k {
                        }
                    }
                }
                if forall|q: int| 0 <= q < k + 1 ==> #[trigger] form_of(docs, ds[q], key, marker.target@) == form_of(docs, ds[0], key, marker.target@) {
                    assert(form_of(docs, ds[k as int], key, marker.target@) == form_of(docs, ds[0], key, marker.target@));
                }
            }
        }
        agree = agree && same;
        k = k + 1;
    }
    assert(agree == forms_agree(docs, ds, key, marker.target@));
    let ghost was = report.findings@;
    if !agree {
        let mut spelt: Vec<String> = Vec::new();
        let mut q: usize = 0;
        while q < sorted.len()
            invariant
                q <= sorted@.len(),
                sv == strs(sorted@),
                docs == bound.documents@,
                strs(spelt@) == sv.take(q as int).map_values(|d: Seq<char>| d + ": "@ + form_text(form_of(docs, d, key, marker.target@))),
            decreases sorted.len() - q,
        {
            let form = form_in(bound, &sorted[q], key, &marker.target);
            let mut one = chars(&sorted[q]);
            push_str(&mut one, ": ");
            match &form {
                Some(t) => push_all(&mut one, &chars(t)),
                None => push_str(&mut one, "None"),
            }
            let ghost before = strs(spelt@);
            spelt.push(string_of(&one));
            assert(strs(spelt@) =~= before.push(sv[q as int] + ": "@ + form_text(form_of(docs, sv[q as int], key, marker.target@))));
            assert(sv.take(q + 1).map_values(|d: Seq<char>| d + ": "@ + form_text(form_of(docs, d, key, marker.target@))) =~= sv.take(q as int).map_values(|d: Seq<char>| d + ": "@ + form_text(form_of(docs, d, key, marker.target@))).push(sv[q as int] + ": "@ + form_text(form_of(docs, sv[q as int], key, marker.target@))));
            q = q + 1;
        }
        assert(sv.take(sv.len() as int) =~= sv);
        let mut m = chars_of("binds ");
        push_str(&mut m, crate::quoted(marker.target.as_str()).as_str());
        push_str(&mut m, " in documents that do not agree what it is (");
        push_all(&mut m, &join_strings(&spelt, ", "));
        push_str(&mut m, "); one path in two shapes is two settings, so scope the marker to the one this value feeds");
        assert(want == Some(m@));
        report.fail(marker.at(), string_of(&m));
        assert(report.findings@.take(was.len() as int) =~= was);
        return false;
    }
    let structured = match &first {
        Some(t) => crate::text::same(&chars(t), &chars_of("structured")),
        None => false,
    };
    proof {
        reveal_strlit("structured");
    }
    assert(structured == (fv == Some("structured"@)));
    let shown = match &first {
        Some(t) => t.clone(),
        None => "None".to_owned(),
    };
    assert(shown@ == form_text(fv));
    if matches!(marker.class, Class::Structured) && !structured {
        let mut m = chars_of("is `structured`, but the contract calls ");
        push_str(&mut m, crate::quoted(marker.target.as_str()).as_str());
        push_str(&mut m, " a scalar (");
        push_all(&mut m, &chars(&shown));
        push_str(&mut m, "); a scalar key takes `projection`");
        assert(want == Some(m@));
        report.fail(marker.at(), string_of(&m));
        assert(report.findings@.take(was.len() as int) =~= was);
        return false;
    }
    if matches!(marker.class, Class::Projection) && structured {
        let mut m = chars_of("is `projection`, but the contract calls ");
        push_str(&mut m, crate::quoted(marker.target.as_str()).as_str());
        push_str(&mut m, " structured — the keys underneath it are the operator's own names, which is what `structured` says");
        assert(want == Some(m@));
        report.fail(marker.at(), string_of(&m));
        assert(report.findings@.take(was.len() as int) =~= was);
        return false;
    }
    assert(want is None);
    true
}


// ------------------------------------------------------------------------------------------------
// Rules 1 to 3, one marker at a time
// ------------------------------------------------------------------------------------------------

/// Whether rule 2 passes a marker bound in `documents`.
pub open spec fn shape_fine(docs: Seq<BoundDocument>, m: MarkerView, documents: Seq<Seq<char>>) -> bool {
    let key = !(m.class is External);
    let form = if documents.len() == 0 { None } else { form_of(docs, documents[0], key, m.target) };
    let structured = form == Some("structured"@);
    forms_agree(docs, documents, key, m.target) && !(m.class is Structured && !structured) && !(m.class is Projection && structured)
}

/// Rule 2's refusal is absent exactly where it passes, whatever order the documents are named in.
proof fn lemma_shape_fine(docs: Seq<BoundDocument>, m: MarkerView, documents: Seq<Seq<char>>, sorted: Seq<Seq<char>>)
    ensures
        (shape_refusal(docs, m, documents, sorted) is None) == shape_fine(docs, m, documents),
{
}

/// The refusal rule 3 records for a marker whose gate value the chart does not have.
pub open spec fn condition_refusal(m: MarkerView, values: Json) -> Option<Seq<char>> {
    match m.condition {
        Some(c) => if crate::json::dig_spec(values, crate::text::split_spec(c, '.')) is Some {
            None
        } else {
            Some("is written only `when "@ + c
                + "`, and this chart has no value at that path; a condition nothing evaluates is a subtree nobody can predict"@)
        },
        None => None,
    }
}

/// Rule 3: a `when` clause names a values path the chart has, including one whose value is
/// `null` or `false`.
pub fn check_condition(marker: &Marker, values: &Json, report: &mut Report)
    ensures
        reported(old(report).findings@, final(report).findings@, at_spec(marker.chart@, marker.line as nat), condition_refusal(marker@, *values)),
{
    let condition = match &marker.condition {
        Some(c) => c,
        None => {
            return;
        },
    };
    if crate::json::has_path(values, condition.as_str()) {
        return;
    }
    let mut m = chars_of("is written only `when ");
    push_str(&mut m, condition.as_str());
    push_str(&mut m, "`, and this chart has no value at that path; a condition nothing evaluates is a subtree nobody can predict");
    let ghost was = report.findings@;
    report.fail(marker.at(), string_of(&m));
    assert(report.findings@.take(was.len() as int) =~= was);
}

/// The bindings one marker makes: one per document it resolves its target in, where it names
/// something real and its class matches the key.
pub open spec fn bindings_of(docs: Seq<BoundDocument>, m: Marker) -> Seq<(MarkerView, Seq<char>)> {
    let documents = resolve_documents_spec(docs, m@).0;
    if documents.len() == 0 || !shape_fine(docs, m@, documents) {
        seq![]
    } else {
        documents.map_values(|d: Seq<char>| (m@, d))
    }
}

/// The bindings every marker makes, marker after marker.
pub open spec fn resolve_spec(docs: Seq<BoundDocument>, markers: Seq<Marker>) -> Seq<(MarkerView, Seq<char>)>
    decreases markers.len(),
{
    if markers.len() == 0 {
        seq![]
    } else {
        resolve_spec(docs, markers.drop_last()) + bindings_of(docs, markers.last())
    }
}

/// Bindings, as values.
pub open spec fn bindings_view(v: Seq<Binding>) -> Seq<(MarkerView, Seq<char>)> {
    v.map_values(|b: Binding| (b.marker@, b.document@))
}

/// Every marker that names something real, once per document it binds the key in, with rules
/// 1 to 3 recorded against each marker they refuse; every finding added fails the run.
pub fn resolve(bound: &Bound, markers: &Vec<Marker>, values: &Json, report: &mut Report) -> (r: Vec<Binding>)
    ensures
        bindings_view(r@) == resolve_spec(bound.documents@, markers@),
        final(report).findings@.take(old(report).findings@.len() as int) == old(report).findings@,
        final(report).findings@.len() >= old(report).findings@.len(),
        forall|i: int| old(report).findings@.len() <= i < final(report).findings@.len() ==> (#[trigger] final(report).findings@[i]).failing,
{
    let ghost start = report.findings@;
    let mut r: Vec<Binding> = Vec::new();
    let mut k: usize = 0;
    while k < markers.len()
        invariant
            k <= markers@.len(),
            bindings_view(r@) == resolve_spec(bound.documents@, markers@.take(k as int)),
            report.findings@.len() >= start.len(),
            report.findings@.take(start.len() as int) == start,
            forall|i: int| start.len() <= i < report.findings@.len() ==> (#[trigger] report.findings@[i]).failing,
        decreases markers.len() - k,
    {
        let marker = &markers[k];
        assert(markers@.take(k + 1).drop_last() =~= markers@.take(k as int));
        assert(markers@.take(k + 1).last() == *marker);
        let ghost before = report.findings@;
        let documents = resolve_documents(bound, marker, report);
        proof {
            lemma_still_failing(start, before, report.findings@, at_spec(marker.chart@, marker.line as nat), resolve_documents_spec(bound.documents@, marker@).1);
        }
        let ghost mid = report.findings@;
        let fine = if documents.len() == 0 {
            false
        } else {
            let ok = check_shape(bound, marker, &documents, report);
            proof {
                let sorted = choose|sorted: Seq<Seq<char>>|
                    ascending(sorted) && held(sorted) == strs(documents@).to_set() && {
                        let refusal = shape_refusal(bound.documents@, marker@, strs(documents@), sorted);
                        &&& ok == refusal is None
                        &&& reported(mid, report.findings@, at_spec(marker.chart@, marker.line as nat), refusal)
                    };
                lemma_shape_fine(bound.documents@, marker@, strs(documents@), sorted);
                lemma_still_failing(start, mid, report.findings@, at_spec(marker.chart@, marker.line as nat), shape_refusal(bound.documents@, marker@, strs(documents@), sorted));
            }
            ok
        };
        let ghost here = bindings_of(bound.documents@, *marker);
        if fine {
            let ghost mid2 = report.findings@;
            check_condition(marker, values, report);
            proof {
                lemma_still_failing(start, mid2, report.findings@, at_spec(marker.chart@, marker.line as nat), condition_refusal(marker@, *values));
            }
            let ghost base = bindings_view(r@);
            let mut j: usize = 0;
            while j < documents.len()
                invariant
                    j <= documents@.len(),
                    bindings_view(r@) == base + strs(documents@).take(j as int).map_values(|d: Seq<char>| (marker@, d)),
                decreases documents.len() - j,
            {
                let ghost was = bindings_view(r@);
                r.push(Binding { marker: copy_marker(marker), document: documents[j].clone() });
                assert(bindings_view(r@) =~= was.push((marker@, documents@[j as int]@)));
                assert(strs(documents@).take(j + 1).map_values(|d: Seq<char>| (marker@, d)) =~= strs(documents@).take(j as int).map_values(|d: Seq<char>| (marker@, d)).push((marker@, documents@[j as int]@)));
                j = j + 1;
            }
            assert(strs(documents@).take(documents@.len() as int) =~= strs(documents@));
            assert(bindings_view(r@) =~= resolve_spec(bound.documents@, markers@.take(k + 1)));
        } else {
            assert(here =~= Seq::<(MarkerView, Seq<char>)>::empty());
            assert(bindings_view(r@) =~= resolve_spec(bound.documents@, markers@.take(k + 1)));
        }
        k = k + 1;
    }
    assert(markers@.take(markers@.len() as int) =~= markers@);
    r
}

/// A copy of a list of texts.
fn copy_texts(v: &Vec<String>) -> (c: Vec<String>)
    ensures
        strs(c@) == strs(v@),
{
    let mut c: Vec<String> = Vec::new();
    let mut k: usize = 0;
    while k < v.len()
        invariant
            k <= v@.len(),
            strs(c@) == strs(v@).take(k as int),
        decreases v.len() - k,
    {
        let ghost before = strs(c@);
        c.push(v[k].clone());
        assert(strs(c@) =~= before.push(v@[k as int]@));
        assert(strs(v@).take(k + 1) =~= strs(v@).take(k as int).push(v@[k as int]@));
        k = k + 1;
    }
    assert(strs(v@).take(v@.len() as int) =~= strs(v@));
    c
}

/// A copy of a marker.
fn copy_marker(m: &Marker) -> (c: Marker)
    ensures
        c@ == m@,
{
    let documents = match &m.documents {
        Some(d) => Some(copy_texts(d)),
        None => None,
    };
    let condition = match &m.condition {
        Some(t) => Some(t.clone()),
        None => None,
    };
    let c = Marker {
        chart: m.chart.clone(),
        values_path: m.values_path.clone(),
        line: m.line,
        class: m.class,
        documents,
        target: m.target.clone(),
        optional: m.optional,
        condition,
    };
    assert(c@ =~= m@);
    c
}

/// A failure recorded after a run of failures leaves every finding from `start` on failing, and
/// what came before it in place.
proof fn lemma_still_failing(start: Seq<Finding>, before: Seq<Finding>, after: Seq<Finding>, at: Seq<char>, message: Option<Seq<char>>)
    requires
        reported(before, after, at, message),
        before.len() >= start.len(),
        before.take(start.len() as int) == start,
        forall|i: int| start.len() <= i < before.len() ==> (#[trigger] before[i]).failing,
    ensures
        after.len() >= start.len(),
        after.take(start.len() as int) == start,
        forall|i: int| start.len() <= i < after.len() ==> (#[trigger] after[i]).failing,
{
    if message is Some {
        assert forall|i: int| start.len() <= i < after.len() implies (#[trigger] after[i]).failing by {
            if i < before.len() {
                assert(after.take(before.len() as int)[i] == before[i]);
            }
        }
        assert(after.take(start.len() as int) =~= before.take(start.len() as int)) by {
            assert forall|i: int| 0 <= i < start.len() implies after.take(start.len() as int)[i] == before.take(start.len() as int)[i] by {
                assert(after.take(before.len() as int)[i] == before[i]);
            }
        }
    }
}


/// What a chart's declaration makes of its binding markers.
#[derive(Debug, PartialEq, Eq, Structural)]
pub enum Enrolment {
    /// Not enrolled, and nothing to say: no markers, or no values file.
    Untouched,
    /// Refused outright, with the refusal reported.
    Refused,
    /// Enrolled, with markers and documents to hold them against.
    Enrolled,
}

/// The refusal of markers in a chart that does not enrol them.
pub open spec fn unenrolled_markers(markers: nat, declared: bool) -> Seq<char> {
    "carries "@ + crate::text::decimal(markers) + " `"@ + crate::markers::MARKER@ + "` marker(s), and its "@ + (if declared {
        "config-contract.yaml does not declare `bindings: true`"@
    } else {
        "chart has no config-contract.yaml to declare `bindings: true` in"@
    }) + ". Enrolment is declared rather than inferred, so that a chart which loses its markers goes red instead of quietly leaving the report"@
}

/// The refusal of an enrolment with no document to hold markers against.
pub open spec fn enrolled_without_documents() -> Seq<char> {
    "declares `bindings: true` but no configuration contract, so there is nothing to hold a `"@ + crate::markers::MARKER@
        + "` marker against; declare a document, or drop the switch"@
}

/// The refusal of an enrolment with no markers.
pub open spec fn enrolled_without_markers() -> Seq<char> {
    "declares `bindings: true` and carries no `"@ + crate::markers::MARKER@
        + "` marker. Either the markers were lost — which is the drift this switch exists to catch — or the chart was never bound and the switch should not be set"@
}

/// What a chart's declaration makes of its markers: `None` where it holds nothing to say, else
/// whether they are checked, with the refusal where they are not.
pub open spec fn enrolment_spec(markers: nat, declaration: Option<Declaration>) -> (Enrolment, Option<Seq<char>>) {
    let enrolled = match declaration {
        Some(d) => d.bindings,
        None => false,
    };
    if !enrolled {
        if markers == 0 {
            (Enrolment::Untouched, None)
        } else {
            (Enrolment::Refused, Some(unenrolled_markers(markers, declaration is Some)))
        }
    } else if declaration.unwrap().documents@.len() == 0 {
        (Enrolment::Refused, Some(enrolled_without_documents()))
    } else if markers == 0 {
        (Enrolment::Refused, Some(enrolled_without_markers()))
    } else {
        (Enrolment::Enrolled, None)
    }
}

/// Whether a chart's binding markers are to be checked: enrolment is declared rather than
/// inferred, so markers in a chart that does not declare `bindings: true`, an enrolment with no
/// document, and an enrolment with no marker are each refused at `at`.
pub fn enrolment(at: &str, markers: usize, declaration: Option<&Declaration>, report: &mut Report) -> (e: Enrolment)
    ensures
        e == enrolment_spec(markers as nat, match declaration { Some(d) => Some(*d), None => None }).0,
        final(report).findings@.take(old(report).findings@.len() as int) == old(report).findings@,
        match enrolment_spec(markers as nat, match declaration { Some(d) => Some(*d), None => None }).1 {
            Some(m) => failures(final(report).findings@.skip(old(report).findings@.len() as int)) == seq![(at@, m)]
                && final(report).findings@.len() == old(report).findings@.len() + 1
                && final(report).findings@.last().failing,
            None => final(report).findings@ == old(report).findings@,
        },
{
    let ghost start = report.findings@;
    let enrolled = match declaration {
        Some(d) => d.bindings,
        None => false,
    };
    let message = if !enrolled {
        if markers == 0 {
            return Enrolment::Untouched;
        }
        let mut m = chars_of("carries ");
        push_all(&mut m, &crate::text::decimal_of(markers as u64));
        push_str(&mut m, " `");
        push_str(&mut m, crate::markers::MARKER);
        push_str(&mut m, "` marker(s), and its ");
        if declaration.is_some() {
            push_str(&mut m, "config-contract.yaml does not declare `bindings: true`");
        } else {
            push_str(&mut m, "chart has no config-contract.yaml to declare `bindings: true` in");
        }
        push_str(&mut m, ". Enrolment is declared rather than inferred, so that a chart which loses its markers goes red instead of quietly leaving the report");
        m
    } else {
        let d = match declaration {
            Some(d) => d,
            None => {
                return Enrolment::Untouched;
            },
        };
        if d.documents.len() == 0 {
            let mut m = chars_of("declares `bindings: true` but no configuration contract, so there is nothing to hold a `");
            push_str(&mut m, crate::markers::MARKER);
            push_str(&mut m, "` marker against; declare a document, or drop the switch");
            m
        } else if markers == 0 {
            let mut m = chars_of("declares `bindings: true` and carries no `");
            push_str(&mut m, crate::markers::MARKER);
            push_str(&mut m, "` marker. Either the markers were lost — which is the drift this switch exists to catch — or the chart was never bound and the switch should not be set");
            m
        } else {
            return Enrolment::Enrolled;
        }
    };
    report.fail(at.to_owned(), string_of(&message));
    assert(report.findings@.skip(start.len() as int) =~= seq![report.findings@.last()]);
    assert(report.findings@.take(start.len() as int) =~= start);
    Enrolment::Refused
}

/// How many bindings name a key, among the first `n`.
pub open spec fn key_bindings(resolved: Seq<(MarkerView, Seq<char>)>, n: int) -> nat
    decreases n,
{
    if n <= 0 || n > resolved.len() {
        0
    } else {
        key_bindings(resolved, n - 1) + if resolved[n - 1].0.class is External {
            0nat
        } else {
            1nat
        }
    }
}

/// Hold an enrolled chart's markers against the contracts they name: every marker resolved, each
/// target bound once per document, and every key a document declares bound or written off.
/// Returns how many bindings name a key and how many name an external variable.
pub fn bound_checks(bound: &Bound, declaration: &Declaration, markers: &Vec<Marker>, values: &Json, report: &mut Report) -> (r: (usize, usize))
    ensures
        r.0 == key_bindings(resolve_spec(bound.documents@, markers@), resolve_spec(bound.documents@, markers@).len() as int),
        r.0 + r.1 == resolve_spec(bound.documents@, markers@).len(),
        final(report).findings@.take(old(report).findings@.len() as int) == old(report).findings@,
        forall|i: int| old(report).findings@.len() <= i < final(report).findings@.len() ==> (#[trigger] final(report).findings@[i]).failing,
{
    let ghost start = report.findings@;
    let resolved = resolve(bound, markers, values, report);
    let ghost after_resolve = report.findings@;
    check_uniqueness(&resolved, report);
    let ghost after_unique = report.findings@;
    check_coverage(bound, declaration, &resolved, report);
    proof {
        assert(report.findings@.take(start.len() as int) =~= start) by {
            assert(report.findings@.take(after_unique.len() as int) == after_unique);
            assert(after_unique.take(after_resolve.len() as int) == after_resolve);
            assert(after_resolve.take(start.len() as int) == start);
        }
        assert forall|i: int| start.len() <= i < report.findings@.len() implies (#[trigger] report.findings@[i]).failing by {
            if i < after_resolve.len() {
                assert(after_unique.take(after_resolve.len() as int)[i] == after_resolve[i]);
                assert(report.findings@.take(after_unique.len() as int)[i] == after_unique[i]);
            } else if i < after_unique.len() {
                assert(report.findings@.take(after_unique.len() as int)[i] == after_unique[i]);
            }
        }
    }
    let ghost rv = bindings_view(resolved@);
    let mut keys: usize = 0;
    let mut k: usize = 0;
    while k < resolved.len()
        invariant
            k <= resolved@.len(),
            rv == bindings_view(resolved@),
            keys == key_bindings(rv, k as int),
            keys <= k,
        decreases resolved.len() - k,
    {
        assert(rv[k as int].0 == resolved@[k as int].marker@);
        if resolved[k].marker.class.targets_a_key() {
            keys = keys + 1;
        }
        k = k + 1;
    }
    (keys, resolved.len() - keys)
}

} // verus!
