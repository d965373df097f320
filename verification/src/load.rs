//! Reading a chart's `config-contract.yaml` once it has been parsed.
//!
//! The file is written by hand, in the chart's own repository, and its whole job is to be
//! exhaustive: a key nobody reads is a typo, and every key that is read is checked for the shape a
//! later rule relies on. Each refusal names the declaration and what is wrong with it, and the
//! first one found in reading order is the one reported.

use vstd::prelude::*;

use crate::declaration::{
    Consumer, CredentialNote, Declaration, Document, Exemption, Format, ImageRef, Source, Unbound,
};
use crate::json::{get_spec, json_text, text_spec, Json};
use crate::order::{
    ascending, held, in_order, in_order_once, insert_keeping, insert_sorted, lemma_in_order,
    lemma_in_order_once, nondecreasing,
};
use crate::text::{join_spec, join_strings, push_all, push_str, string_of, strs};
use crate::{quoted_spec, shown_spec, Error};

verus! {

// ------------------------------------------------------------------------------------------------
// The keys each part of a declaration may carry
// ------------------------------------------------------------------------------------------------

/// Keys the top level may carry.
pub open spec fn declaration_keys() -> Seq<Seq<char>> {
    seq![
        "bindings"@,
        "credentials"@,
        "documents"@,
        "reason"@,
        "unbound"@,
        "unconfigured"@,
    ]
}

/// Keys a `credentials` entry may carry.
pub open spec fn credential_keys() -> Seq<Seq<char>> {
    seq!["key"@, "note"@, "value"@]
}

/// Keys a `documents` entry may carry.
pub open spec fn document_keys() -> Seq<Seq<char>> {
    seq!["consumers"@, "exempt"@, "images"@, "name"@, "source"@]
}

/// Keys a document's `source` may carry.
pub open spec fn source_keys() -> Seq<Seq<char>> {
    seq!["format"@, "key"@, "kind"@, "selector"@]
}

/// Keys an `images` entry may carry.
pub open spec fn image_keys() -> Seq<Seq<char>> {
    seq!["contract"@, "values"@]
}

/// Keys a `consumers` entry may carry.
pub open spec fn consumer_keys() -> Seq<Seq<char>> {
    seq!["containers"@, "workload"@]
}

/// Keys an `exempt` entry may carry.
pub open spec fn exempt_keys() -> Seq<Seq<char>> {
    seq!["gates"@, "reason"@, "values"@]
}

/// Keys an `unbound` entry may carry.
pub open spec fn unbound_keys() -> Seq<Seq<char>> {
    seq!["documents"@, "keys"@, "reason"@]
}

fn owned(parts: &[&str]) -> (v: Vec<String>)
    ensures
        v@.len() == parts@.len(),
        forall|i: int| 0 <= i < parts@.len() ==> #[trigger] v@[i]@ == parts@[i]@,
{
    let mut v: Vec<String> = Vec::new();
    let mut i: usize = 0;
    while i < parts.len()
        invariant
            i <= parts@.len(),
            v@.len() == i,
            forall|k: int| 0 <= k < i ==> #[trigger] v@[k]@ == parts@[k]@,
        decreases parts.len() - i,
    {
        v.push(parts[i].to_owned());
        i = i + 1;
    }
    v
}

fn top_keys() -> (v: Vec<String>)
    ensures
        strs(v@) == declaration_keys(),
{
    let v = owned(&["bindings", "credentials", "documents", "reason", "unbound", "unconfigured"]);
    assert(strs(v@) =~= declaration_keys());
    v
}

fn credential_key_list() -> (v: Vec<String>)
    ensures
        strs(v@) == credential_keys(),
{
    let v = owned(&["key", "note", "value"]);
    assert(strs(v@) =~= credential_keys());
    v
}

fn document_key_list() -> (v: Vec<String>)
    ensures
        strs(v@) == document_keys(),
{
    let v = owned(&["consumers", "exempt", "images", "name", "source"]);
    assert(strs(v@) =~= document_keys());
    v
}

fn source_key_list() -> (v: Vec<String>)
    ensures
        strs(v@) == source_keys(),
{
    let v = owned(&["format", "key", "kind", "selector"]);
    assert(strs(v@) =~= source_keys());
    v
}

fn image_key_list() -> (v: Vec<String>)
    ensures
        strs(v@) == image_keys(),
{
    let v = owned(&["contract", "values"]);
    assert(strs(v@) =~= image_keys());
    v
}

fn consumer_key_list() -> (v: Vec<String>)
    ensures
        strs(v@) == consumer_keys(),
{
    let v = owned(&["containers", "workload"]);
    assert(strs(v@) =~= consumer_keys());
    v
}

fn exempt_key_list() -> (v: Vec<String>)
    ensures
        strs(v@) == exempt_keys(),
{
    let v = owned(&["gates", "reason", "values"]);
    assert(strs(v@) =~= exempt_keys());
    v
}

fn unbound_key_list() -> (v: Vec<String>)
    ensures
        strs(v@) == unbound_keys(),
{
    let v = owned(&["documents", "keys", "reason"]);
    assert(strs(v@) =~= unbound_keys());
    v
}

// ------------------------------------------------------------------------------------------------
// Reading single values
// ------------------------------------------------------------------------------------------------

/// Whether a result is the refusal `message` names: `Ok` where it names none, and otherwise an
/// `Invalid` error saying exactly it.
pub open spec fn refused_as<T>(r: Result<T, Error>, message: Option<Seq<char>>) -> bool {
    match r {
        Ok(_) => message is None,
        Err(e) => e is Invalid && message == Some(e.said()),
    }
}

/// The keys of an object in their order; nothing for any other value.
pub open spec fn keys_of(j: Json) -> Seq<Seq<char>> {
    match j {
        Json::Object(fields) => fields@.map_values(|f: (String, Json)| f.0@),
        _ => seq![],
    }
}

/// The keys among `keys` that `allowed` does not list, in their order.
pub open spec fn outside(keys: Seq<Seq<char>>, allowed: Seq<Seq<char>>) -> Seq<Seq<char>>
    decreases keys.len(),
{
    if keys.len() == 0 {
        seq![]
    } else if allowed.contains(keys.last()) {
        outside(keys.drop_last(), allowed)
    } else {
        outside(keys.drop_last(), allowed).push(keys.last())
    }
}

/// What refuses a mapping that carries a key nobody reads: the declaration, where in it, the
/// unknown keys in order and the keys that are known.
pub open spec fn strange_spec(
    at: Seq<char>,
    where_: Seq<char>,
    j: Json,
    allowed: Seq<Seq<char>>,
) -> Option<Seq<char>> {
    let unknown = outside(keys_of(j), allowed);
    if unknown.len() == 0 {
        None
    } else {
        Some(
            at + ": "@ + (if where_.len() == 0 {
                seq![]
            } else {
                where_ + ": "@
            }) + "unknown key(s) "@ + join_spec(in_order(unknown), ", "@) + "; known keys are "@
                + join_spec(allowed, ", "@),
        )
    }
}

/// Whether a text is one of a list's.
fn listed(list: &Vec<String>, text: &str) -> (b: bool)
    ensures
        b == strs(list@).contains(text@),
{
    let mut i: usize = 0;
    while i < list.len()
        invariant
            i <= list@.len(),
            forall|k: int| 0 <= k < i ==> #[trigger] strs(list@)[k] != text@,
        decreases list.len() - i,
    {
        if list[i] == text.to_owned() {
            assert(strs(list@)[i as int] == text@);
            return true;
        }
        i = i + 1;
    }
    false
}

/// Refuse a key nobody reads, which for a file whose job is to be exhaustive is a typo.
fn reject_unknown(at: &str, where_: &str, mapping: &Json, allowed: &Vec<String>) -> (r: Result<
    (),
    Error,
>)
    ensures
        refused_as(r, strange_spec(at@, where_@, *mapping, strs(allowed@))),
{
    let ghost allowed_view = strs(allowed@);
    let mut unknown: Vec<String> = Vec::new();
    if let Json::Object(fields) = mapping {
        let ghost keys = keys_of(*mapping);
        assert(keys.take(0) =~= Seq::<Seq<char>>::empty());
        assert(strs(unknown@) =~= Seq::<Seq<char>>::empty());
        let mut i: usize = 0;
        while i < fields.len()
            invariant
                i <= fields@.len(),
                *mapping == Json::Object(*fields),
                keys == keys_of(*mapping),
                keys.len() == fields@.len(),
                allowed_view == strs(allowed@),
                nondecreasing(strs(unknown@)),
                strs(unknown@).to_multiset() == outside(keys.take(i as int), allowed_view).to_multiset(),
            decreases fields.len() - i,
        {
            let ghost before = strs(unknown@);
            assert(keys.take(i + 1).drop_last() =~= keys.take(i as int));
            assert(keys.take(i + 1).last() == fields@[i as int].0@);
            if !listed(allowed, fields[i].0.as_str()) {
                insert_keeping(&mut unknown, fields[i].0.clone());
                proof {
                    vstd::seq_lib::to_multiset_build(
                        outside(keys.take(i as int), allowed_view),
                        fields@[i as int].0@,
                    );
                }
            }
            i = i + 1;
        }
        assert(keys.take(fields@.len() as int) =~= keys);
    } else {
        assert(outside(keys_of(*mapping), allowed_view) =~= seq![]);
        assert(strs(unknown@) =~= seq![]);
    }
    proof {
        lemma_in_order(outside(keys_of(*mapping), allowed_view), strs(unknown@));
        vstd::seq_lib::to_multiset_len(strs(unknown@));
        vstd::seq_lib::to_multiset_len(outside(keys_of(*mapping), allowed_view));
    }
    if unknown.len() == 0 {
        return Ok(());
    }
    let mut message: Vec<char> = crate::text::chars_of(at);
    push_str(&mut message, ": ");
    let spot = crate::text::chars_of(where_);
    if spot.len() > 0 {
        push_str(&mut message, where_);
        push_str(&mut message, ": ");
    } else {
        assert(where_@ =~= seq![]);
    }
    push_str(&mut message, "unknown key(s) ");
    let names = join_strings(&unknown, ", ");
    push_all(&mut message, &names);
    push_str(&mut message, "; known keys are ");
    let known = join_strings(allowed, ", ");
    push_all(&mut message, &known);
    assert(message@ =~= strange_spec(at@, where_@, *mapping, allowed_view)->Some_0);
    Err(Error::Invalid(string_of(&message)))
}

/// One scalar as the text a declaration meant by it: a string as itself, anything else as its
/// JSON text.
pub open spec fn meant(j: Json) -> Seq<char> {
    match j {
        Json::Str(text) => text@,
        _ => json_text(j),
    }
}

/// One scalar as the text a declaration meant by it.
fn meant_text(value: &Json) -> (s: String)
    ensures
        s@ == meant(*value),
{
    match value {
        Json::Str(text) => text.clone(),
        _ => value.to_json(),
    }
}

/// Pairs of texts, as pairs of their views.
pub open spec fn pairs_view(v: Seq<(String, String)>) -> Seq<(Seq<char>, Seq<char>)> {
    v.map_values(|p: (String, String)| (p.0@, p.1@))
}

/// A label selector, in the order it was written; nothing where the value is not a mapping.
pub open spec fn selector_spec(value: Option<Json>) -> Seq<(Seq<char>, Seq<char>)> {
    match value {
        Some(Json::Object(fields)) => fields@.map_values(
            |f: (String, Json)| (f.0@, meant(f.1)),
        ),
        _ => seq![],
    }
}

/// A label selector, in the order it was written.
fn selector(value: Option<&Json>) -> (v: Vec<(String, String)>)
    ensures
        pairs_view(v@) == selector_spec(match value {
            Some(j) => Some(*j),
            None => None,
        }),
{
    let mut v: Vec<(String, String)> = Vec::new();
    if let Some(Json::Object(fields)) = value {
        let ghost want = selector_spec(Some(Json::Object(*fields)));
        assert(pairs_view(v@) =~= want.take(0));
        let mut i: usize = 0;
        while i < fields.len()
            invariant
                i <= fields@.len(),
                want == selector_spec(Some(Json::Object(*fields))),
                want.len() == fields@.len(),
                pairs_view(v@) == want.take(i as int),
            decreases fields.len() - i,
        {
            let name = fields[i].0.clone();
            let text = meant_text(&fields[i].1);
            let ghost before = v@;
            assert(pairs_view(before).len() == i);
            v.push((name, text));
            assert(want[i as int] == (fields@[i as int].0@, meant(fields@[i as int].1)));
            assert(v@ == before.push((name, text)));
            assert forall|k: int| 0 <= k < i + 1 implies #[trigger] pairs_view(v@)[k] == want.take(
                i + 1,
            )[k] by {
                if k < i {
                    assert(pairs_view(before)[k] == want.take(i as int)[k]);
                    assert(v@[k] == before[k]);
                }
            }
            assert(pairs_view(v@) =~= want.take(i + 1));
            i = i + 1;
        }
        assert(want.take(fields@.len() as int) =~= want);
    } else {
        assert(pairs_view(v@) =~= seq![]);
    }
    v
}

/// Every item of a list as the text it meant.
pub open spec fn meant_list(items: Seq<Json>) -> Seq<Seq<char>> {
    items.map_values(|j: Json| meant(j))
}

/// Every item of a list field as the text it meant; nothing where the value is not a list.
pub open spec fn strings_spec(value: Option<Json>) -> Seq<Seq<char>> {
    match value {
        Some(Json::Array(items)) => meant_list(items@),
        _ => seq![],
    }
}

/// Every item of a list as the text it meant.
fn meant_all(items: &Vec<Json>) -> (v: Vec<String>)
    ensures
        strs(v@) == meant_list(items@),
{
    let ghost want = meant_list(items@);
    let mut v: Vec<String> = Vec::new();
    assert(strs(v@) =~= want.take(0));
    let mut i: usize = 0;
    while i < items.len()
        invariant
            i <= items@.len(),
            want == meant_list(items@),
            want.len() == items@.len(),
            strs(v@) == want.take(i as int),
        decreases items.len() - i,
    {
        let one = meant_text(&items[i]);
        let ghost before = v@;
        assert(strs(before).len() == i);
        v.push(one);
        assert(want[i as int] == meant(items@[i as int]));
        assert(v@ == before.push(one));
        assert forall|k: int| 0 <= k < i + 1 implies #[trigger] strs(v@)[k] == want.take(i + 1)[k] by {
            if k < i {
                assert(strs(before)[k] == want.take(i as int)[k]);
                assert(v@[k] == before[k]);
            }
        }
        assert(strs(v@) =~= want.take(i + 1));
        i = i + 1;
    }
    assert(want.take(items@.len() as int) =~= want);
    v
}

/// Every string in a list field, and nothing when there is none.
fn strings(value: Option<&Json>) -> (v: Vec<String>)
    ensures
        strs(v@) == strings_spec(match value {
            Some(j) => Some(*j),
            None => None,
        }),
{
    match value {
        Some(Json::Array(items)) => meant_all(items),
        _ => {
            let v: Vec<String> = Vec::new();
            assert(strs(v@) =~= seq![]);
            v
        },
    }
}

/// The first refusal of a list of them, in order; `None` when there is none.
pub open spec fn first_error(errors: Seq<Option<Seq<char>>>) -> Option<Seq<char>>
    decreases errors.len(),
{
    if errors.len() == 0 {
        None
    } else if errors[0] is Some {
        errors[0]
    } else {
        first_error(errors.drop_first())
    }
}

/// With nothing refused before `i`, the first refusal is the one at `i`, or none at the end.
pub proof fn lemma_first_error(errors: Seq<Option<Seq<char>>>, i: int)
    requires
        0 <= i <= errors.len(),
        forall|k: int| 0 <= k < i ==> #[trigger] errors[k] is None,
    ensures
        i == errors.len() ==> first_error(errors) is None,
        i < errors.len() && errors[i] is Some ==> first_error(errors) == errors[i],
    decreases i,
{
    if i > 0 {
        let rest = errors.drop_first();
        assert forall|k: int| 0 <= k < i - 1 implies #[trigger] rest[k] is None by {
            assert(rest[k] == errors[k + 1]);
        }
        lemma_first_error(rest, i - 1);
        assert(errors[0] is None);
    }
}

/// A format's spelling in a declaration: `toml`, `json` or `yaml`.
pub open spec fn format_spec(spelling: Seq<char>) -> Option<Format> {
    if spelling == "toml"@ {
        Some(Format::Toml)
    } else if spelling == "json"@ {
        Some(Format::Json)
    } else if spelling == "yaml"@ {
        Some(Format::Yaml)
    } else {
        None
    }
}

/// A format read from its spelling.
fn format_of(spelling: &str) -> (f: Option<Format>)
    ensures
        f == format_spec(spelling@),
{
    proof {
        reveal_strlit("toml");
        reveal_strlit("json");
        reveal_strlit("yaml");
    }
    let spelled = spelling.to_owned();
    if spelled == "toml".to_owned() {
        Some(Format::Toml)
    } else if spelled == "json".to_owned() {
        Some(Format::Json)
    } else if spelled == "yaml".to_owned() {
        Some(Format::Yaml)
    } else {
        None
    }
}

// ------------------------------------------------------------------------------------------------
// One document
// ------------------------------------------------------------------------------------------------

/// A value that may be absent, by value.
pub open spec fn deref(v: Option<&Json>) -> Option<Json> {
    match v {
        Some(j) => Some(*j),
        None => None,
    }
}

/// The head of a message about one document: `{at}: {name}: `.
pub open spec fn about(at: Seq<char>, name: Seq<char>) -> Seq<char> {
    at + ": "@ + name + ": "@
}

/// A message about one document.
fn about_msg(at: &str, name: &str, rest: &str) -> (s: String)
    ensures
        s@ == about(at@, name@) + rest@,
{
    let mut held = crate::text::chars_of(at);
    push_str(&mut held, ": ");
    push_str(&mut held, name);
    push_str(&mut held, ": ");
    push_str(&mut held, rest);
    assert(held@ =~= about(at@, name@) + rest@);
    string_of(&held)
}

/// A message about the declaration as a whole: `{at}{rest}`.
fn at_msg(at: &str, rest: &str) -> (s: String)
    ensures
        s@ == at@ + rest@,
{
    let mut held = crate::text::chars_of(at);
    push_str(&mut held, rest);
    string_of(&held)
}

/// The text of a string field, when there is one.
fn field_str<'a>(j: &'a Json, name: &str) -> (r: Option<&'a String>)
    ensures
        match r {
            Some(s) => text_spec(get_spec(*j, name@)) == Some(s@),
            None => text_spec(get_spec(*j, name@)) is None,
        },
{
    match j.get(name) {
        Some(value) => match value.as_text() {
            Some(s) => Some(s),
            None => None,
        },
        None => None,
    }
}

/// How a document's format is spelled: `toml` where the source names none.
pub open spec fn spelling_spec(j: Json) -> Seq<char> {
    match text_spec(get_spec(j, "format"@)) {
        Some(t) => t,
        None => "toml"@,
    }
}

/// What refuses a document's `source`, if anything.
pub open spec fn source_error(at: Seq<char>, name: Seq<char>, source: Option<Json>) -> Option<
    Seq<char>,
> {
    match source {
        Some(j) => if !(j is Object) {
            Some(about(at, name) + "`source` is missing"@)
        } else if strange_spec(at, name + ".source"@, j, source_keys()) is Some {
            strange_spec(at, name + ".source"@, j, source_keys())
        } else if text_spec(get_spec(j, "kind"@)) is None {
            Some(about(at, name) + "`source.kind` is missing"@)
        } else if text_spec(get_spec(j, "key"@)) is None {
            Some(about(at, name) + "`source.key` is missing"@)
        } else if format_spec(spelling_spec(j)) is None {
            Some(
                about(at, name) + "`source.format` "@ + quoted_spec(spelling_spec(j))
                    + " is not one of toml, json, yaml"@,
            )
        } else {
            None
        },
        None => Some(about(at, name) + "`source` is missing"@),
    }
}

/// Whether a source is what a `source` mapping says.
pub open spec fn source_fits(s: Source, j: Json) -> bool {
    &&& Some(s.kind@) == text_spec(get_spec(j, "kind"@))
    &&& Some(s.key@) == text_spec(get_spec(j, "key"@))
    &&& Some(s.format) == format_spec(spelling_spec(j))
    &&& pairs_view(s.selector@) == selector_spec(get_spec(j, "selector"@))
}

/// Where the document is rendered.
fn load_source(at: &str, name: &str, source: Option<&Json>) -> (r: Result<Source, Error>)
    ensures
        refused_as(r, source_error(at@, name@, deref(source))),
        r matches Ok(s) ==> source_fits(s, *source.unwrap()),
{
    let j = match source {
        Some(j) => j,
        None => {
            return Err(Error::Invalid(about_msg(at, name, "`source` is missing")));
        },
    };
    match j {
        Json::Object(_) => {},
        _ => {
            return Err(Error::Invalid(about_msg(at, name, "`source` is missing")));
        },
    }
    let mut spot = crate::text::chars_of(name);
    push_str(&mut spot, ".source");
    let spot = string_of(&spot);
    reject_unknown(at, spot.as_str(), j, &source_key_list())?;
    let kind = match field_str(j, "kind") {
        Some(kind) => kind,
        None => {
            return Err(Error::Invalid(about_msg(at, name, "`source.kind` is missing")));
        },
    };
    let key = match field_str(j, "key") {
        Some(key) => key,
        None => {
            return Err(Error::Invalid(about_msg(at, name, "`source.key` is missing")));
        },
    };
    let spelling = match field_str(j, "format") {
        Some(spelling) => spelling.clone(),
        None => "toml".to_owned(),
    };
    let format = match format_of(spelling.as_str()) {
        Some(format) => format,
        None => {
            let mut held = crate::text::chars_of(about_msg(at, name, "`source.format` ").as_str());
            push_str(&mut held, crate::quoted(spelling.as_str()).as_str());
            push_str(&mut held, " is not one of toml, json, yaml");
            assert(held@ =~= source_error(at@, name@, deref(source))->Some_0);
            return Err(Error::Invalid(string_of(&held)));
        },
    };
    Ok(Source { kind: kind.clone(), selector: selector(j.get("selector")), key: key.clone(), format })
}

/// What refuses one entry of `images`, if anything.
pub open spec fn image_error(at: Seq<char>, name: Seq<char>, i: Json) -> Option<Seq<char>> {
    if !(i is Object) {
        Some(about(at, name) + "every entry of `images` must be a mapping"@)
    } else if strange_spec(at, name + ".images[]"@, i, image_keys()) is Some {
        strange_spec(at, name + ".images[]"@, i, image_keys())
    } else if text_spec(get_spec(i, "values"@)) is None {
        Some(about(at, name) + "`images[].values` is missing"@)
    } else if text_spec(get_spec(i, "contract"@)) is None {
        Some(about(at, name) + "`images[].contract` is missing"@)
    } else {
        None
    }
}

/// What refuses each entry of `images`.
pub open spec fn image_errors(at: Seq<char>, name: Seq<char>, items: Seq<Json>) -> Seq<
    Option<Seq<char>>,
> {
    items.map_values(|i: Json| image_error(at, name, i))
}

/// What refuses a document's `images`, if anything: it must be a non-empty list.
pub open spec fn images_error(at: Seq<char>, name: Seq<char>, images: Option<Json>) -> Option<
    Seq<char>,
> {
    match images {
        Some(Json::Array(items)) => if items@.len() == 0 {
            Some(about(at, name) + "`images` is missing or empty"@)
        } else {
            first_error(image_errors(at, name, items@))
        },
        _ => Some(about(at, name) + "`images` is missing or empty"@),
    }
}

/// Whether an image reference is what an `images` entry says.
pub open spec fn image_fits(r: ImageRef, i: Json) -> bool {
    &&& Some(r.values@) == text_spec(get_spec(i, "values"@))
    &&& Some(r.contract@) == text_spec(get_spec(i, "contract"@))
}

/// Whether the image references are, one for one, what `images` lists.
pub open spec fn images_fit(v: Seq<ImageRef>, images: Option<Json>) -> bool {
    match images {
        Some(Json::Array(items)) => v.len() == items@.len() && forall|k: int|
            0 <= k < v.len() ==> #[trigger] image_fits(v[k], items@[k]),
        _ => false,
    }
}

/// One entry of `images`.
fn load_image(at: &str, name: &str, image: &Json) -> (r: Result<ImageRef, Error>)
    ensures
        refused_as(r, image_error(at@, name@, *image)),
        r matches Ok(i) ==> image_fits(i, *image),
{
    match image {
        Json::Object(_) => {},
        _ => {
            return Err(Error::Invalid(about_msg(at, name, "every entry of `images` must be a mapping")));
        },
    }
    let mut spot = crate::text::chars_of(name);
    push_str(&mut spot, ".images[]");
    let spot = string_of(&spot);
    reject_unknown(at, spot.as_str(), image, &image_key_list())?;
    let values = match field_str(image, "values") {
        Some(values) => values,
        None => {
            return Err(Error::Invalid(about_msg(at, name, "`images[].values` is missing")));
        },
    };
    let contract = match field_str(image, "contract") {
        Some(contract) => contract,
        None => {
            return Err(Error::Invalid(about_msg(at, name, "`images[].contract` is missing")));
        },
    };
    Ok(ImageRef { values: values.clone(), contract: contract.clone() })
}

/// The images a document is read by.
fn load_images(at: &str, name: &str, images: Option<&Json>) -> (r: Result<Vec<ImageRef>, Error>)
    ensures
        refused_as(r, images_error(at@, name@, deref(images))),
        r matches Ok(v) ==> images_fit(v@, deref(images)),
{
    let items = match images {
        Some(Json::Array(items)) => items,
        _ => {
            return Err(Error::Invalid(about_msg(at, name, "`images` is missing or empty")));
        },
    };
    if items.len() == 0 {
        return Err(Error::Invalid(about_msg(at, name, "`images` is missing or empty")));
    }
    let ghost errors = image_errors(at@, name@, items@);
    let mut loaded: Vec<ImageRef> = Vec::new();
    let mut k: usize = 0;
    while k < items.len()
        invariant
            k <= items@.len(),
            errors == image_errors(at@, name@, items@),
            deref(images) == Some(Json::Array(*items)),
            errors.len() == items@.len(),
            forall|j: int| 0 <= j < k ==> #[trigger] errors[j] is None,
            loaded@.len() == k,
            forall|j: int| 0 <= j < k ==> #[trigger] image_fits(loaded@[j], items@[j]),
        decreases items.len() - k,
    {
        assert(errors[k as int] == image_error(at@, name@, items@[k as int]));
        match load_image(at, name, &items[k]) {
            Ok(image) => {
                loaded.push(image);
            },
            Err(e) => {
                proof {
                    lemma_first_error(errors, k as int);
                }
                return Err(e);
            },
        }
        k = k + 1;
    }
    proof {
        lemma_first_error(errors, k as int);
    }
    Ok(loaded)
}

/// The kind a `consumers` entry names for its workload.
pub open spec fn workload_kind(c: Json) -> Option<Seq<char>> {
    match get_spec(c, "workload"@) {
        Some(w) => text_spec(get_spec(w, "kind"@)),
        None => None,
    }
}

/// The labels a `consumers` entry names its workload by.
pub open spec fn workload_selector(c: Json) -> Option<Json> {
    match get_spec(c, "workload"@) {
        Some(w) => get_spec(w, "selector"@),
        None => None,
    }
}

/// Whether a value is a list with at least one item.
pub open spec fn listing(v: Option<Json>) -> bool {
    match v {
        Some(Json::Array(items)) => items@.len() > 0,
        _ => false,
    }
}

/// What refuses one entry of `consumers`, if anything.
pub open spec fn consumer_error(at: Seq<char>, name: Seq<char>, c: Json) -> Option<Seq<char>> {
    if !(c is Object) {
        Some(about(at, name) + "every entry of `consumers` must be a mapping"@)
    } else if strange_spec(at, name + ".consumers[]"@, c, consumer_keys()) is Some {
        strange_spec(at, name + ".consumers[]"@, c, consumer_keys())
    } else if workload_kind(c) is None {
        Some(about(at, name) + "`consumers[].workload.kind` is missing"@)
    } else if !listing(get_spec(c, "containers"@)) {
        Some(about(at, name) + "`consumers[].containers` is missing or empty"@)
    } else {
        None
    }
}

/// What refuses each entry of `consumers`.
pub open spec fn consumer_errors(at: Seq<char>, name: Seq<char>, items: Seq<Json>) -> Seq<
    Option<Seq<char>>,
> {
    items.map_values(|c: Json| consumer_error(at, name, c))
}

/// What refuses a document's `consumers`, if anything; a document may have none.
pub open spec fn consumers_error(at: Seq<char>, name: Seq<char>, consumers: Option<Json>) -> Option<
    Seq<char>,
> {
    match consumers {
        Some(Json::Array(items)) => first_error(consumer_errors(at, name, items@)),
        _ => None,
    }
}

/// Whether a consumer is what a `consumers` entry says.
pub open spec fn consumer_fits(x: Consumer, c: Json) -> bool {
    &&& Some(x.kind@) == workload_kind(c)
    &&& pairs_view(x.selector@) == selector_spec(workload_selector(c))
    &&& strs(x.containers@) == strings_spec(get_spec(c, "containers"@))
}

/// Whether the consumers are, one for one, what `consumers` lists.
pub open spec fn consumers_fit(v: Seq<Consumer>, consumers: Option<Json>) -> bool {
    match consumers {
        Some(Json::Array(items)) => v.len() == items@.len() && forall|k: int|
            0 <= k < v.len() ==> #[trigger] consumer_fits(v[k], items@[k]),
        _ => v.len() == 0,
    }
}

/// One entry of `consumers`.
fn load_consumer(at: &str, name: &str, consumer: &Json) -> (r: Result<Consumer, Error>)
    ensures
        refused_as(r, consumer_error(at@, name@, *consumer)),
        r matches Ok(x) ==> consumer_fits(x, *consumer),
{
    match consumer {
        Json::Object(_) => {},
        _ => {
            return Err(
                Error::Invalid(about_msg(at, name, "every entry of `consumers` must be a mapping")),
            );
        },
    }
    let mut spot = crate::text::chars_of(name);
    push_str(&mut spot, ".consumers[]");
    let spot = string_of(&spot);
    reject_unknown(at, spot.as_str(), consumer, &consumer_key_list())?;
    let workload = consumer.get("workload");
    let kind = match workload {
        Some(w) => field_str(w, "kind"),
        None => None,
    };
    let kind = match kind {
        Some(kind) => kind,
        None => {
            return Err(
                Error::Invalid(about_msg(at, name, "`consumers[].workload.kind` is missing")),
            );
        },
    };
    let containers = consumer.get("containers");
    let listed_ok = match containers {
        Some(Json::Array(items)) => items.len() > 0,
        _ => false,
    };
    if !listed_ok {
        return Err(
            Error::Invalid(about_msg(at, name, "`consumers[].containers` is missing or empty")),
        );
    }
    let picked = match workload {
        Some(w) => w.get("selector"),
        None => None,
    };
    Ok(Consumer { kind: kind.clone(), selector: selector(picked), containers: strings(containers) })
}

/// The workloads that mount a document.
fn load_consumers(at: &str, name: &str, consumers: Option<&Json>) -> (r: Result<
    Vec<Consumer>,
    Error,
>)
    ensures
        refused_as(r, consumers_error(at@, name@, deref(consumers))),
        r matches Ok(v) ==> consumers_fit(v@, deref(consumers)),
{
    let mut loaded: Vec<Consumer> = Vec::new();
    let items = match consumers {
        Some(Json::Array(items)) => items,
        _ => {
            return Ok(loaded);
        },
    };
    let ghost errors = consumer_errors(at@, name@, items@);
    let mut k: usize = 0;
    while k < items.len()
        invariant
            k <= items@.len(),
            errors == consumer_errors(at@, name@, items@),
            deref(consumers) == Some(Json::Array(*items)),
            errors.len() == items@.len(),
            forall|j: int| 0 <= j < k ==> #[trigger] errors[j] is None,
            loaded@.len() == k,
            forall|j: int| 0 <= j < k ==> #[trigger] consumer_fits(loaded@[j], items@[j]),
        decreases items.len() - k,
    {
        assert(errors[k as int] == consumer_error(at@, name@, items@[k as int]));
        match load_consumer(at, name, &items[k]) {
            Ok(consumer) => {
                loaded.push(consumer);
            },
            Err(e) => {
                proof {
                    lemma_first_error(errors, k as int);
                }
                return Err(e);
            },
        }
        k = k + 1;
    }
    proof {
        lemma_first_error(errors, k as int);
    }
    Ok(loaded)
}

/// Whether a text is there and not empty.
pub open spec fn filled(t: Option<Seq<char>>) -> bool {
    match t {
        Some(t) => t.len() > 0,
        None => false,
    }
}

/// The text of a field, or nothing where it holds none.
pub open spec fn text_or_empty(t: Option<Seq<char>>) -> Seq<char> {
    match t {
        Some(t) => t,
        None => seq![],
    }
}

/// The gates an `exempt` entry names, as the texts it meant.
pub open spec fn gate_list(x: Json) -> Seq<Seq<char>> {
    strings_spec(get_spec(x, "gates"@))
}

/// What refuses one entry of `exempt`, if anything: it names at least one gate, only gates that
/// exist, and why.
pub open spec fn exemption_error(
    at: Seq<char>,
    name: Seq<char>,
    x: Json,
    gates: Seq<Seq<char>>,
) -> Option<Seq<char>> {
    if !(x is Object) {
        Some(about(at, name) + "every entry of `exempt` must be a mapping"@)
    } else if strange_spec(at, name + ".exempt[]"@, x, exempt_keys()) is Some {
        strange_spec(at, name + ".exempt[]"@, x, exempt_keys())
    } else if !listing(get_spec(x, "gates"@)) {
        Some(about(at, name) + "an `exempt` entry names no `gates`"@)
    } else if outside(gate_list(x), gates).len() > 0 {
        Some(
            about(at, name) + "`exempt` names gates that do not exist: "@ + join_spec(
                in_order_once(outside(gate_list(x), gates)),
                ", "@,
            ) + " (known: "@ + join_spec(gates, ", "@) + ")"@,
        )
    } else if !filled(text_spec(get_spec(x, "reason"@))) {
        Some(
            about(at, name) + "the exemption for "@ + shown_spec(get_spec(x, "values"@))
                + " has no `reason`; an unexplained hole in a gate is indistinguishable from an oversight"@,
        )
    } else {
        None
    }
}

/// What refuses each entry of `exempt`.
pub open spec fn exemption_errors(
    at: Seq<char>,
    name: Seq<char>,
    items: Seq<Json>,
    gates: Seq<Seq<char>>,
) -> Seq<Option<Seq<char>>> {
    items.map_values(|x: Json| exemption_error(at, name, x, gates))
}

/// What refuses a document's `exempt`, if anything; a document may have none.
pub open spec fn exemptions_error(
    at: Seq<char>,
    name: Seq<char>,
    exempt: Option<Json>,
    gates: Seq<Seq<char>>,
) -> Option<Seq<char>> {
    match exempt {
        Some(Json::Array(items)) => first_error(exemption_errors(at, name, items@, gates)),
        _ => None,
    }
}

/// Whether an exemption is what an `exempt` entry says.
pub open spec fn exemption_fits(e: Exemption, x: Json) -> bool {
    &&& e.values@ == text_or_empty(text_spec(get_spec(x, "values"@)))
    &&& strs(e.gates@) == gate_list(x)
    &&& Some(e.reason@) == text_spec(get_spec(x, "reason"@))
}

/// Whether the exemptions are, one for one, what `exempt` lists.
pub open spec fn exemptions_fit(v: Seq<Exemption>, exempt: Option<Json>) -> bool {
    match exempt {
        Some(Json::Array(items)) => v.len() == items@.len() && forall|k: int|
            0 <= k < v.len() ==> #[trigger] exemption_fits(v[k], items@[k]),
        _ => v.len() == 0,
    }
}

/// The texts of a list that another does not list, each once and in order.
fn missing_from(named: &Vec<String>, known: &Vec<String>) -> (unknown: Vec<String>)
    ensures
        strs(unknown@) == in_order_once(outside(strs(named@), strs(known@))),
        unknown@.len() == 0 <==> outside(strs(named@), strs(known@)).len() == 0,
{
    let ghost all = strs(named@);
    let ghost allowed = strs(known@);
    let mut unknown: Vec<String> = Vec::new();
    assert(all.take(0) =~= Seq::<Seq<char>>::empty());
    assert(held(strs(unknown@)) =~= held(outside(all.take(0), allowed)));
    let mut k: usize = 0;
    while k < named.len()
        invariant
            k <= named@.len(),
            all == strs(named@),
            allowed == strs(known@),
            ascending(strs(unknown@)),
            held(strs(unknown@)) == held(outside(all.take(k as int), allowed)),
        decreases named.len() - k,
    {
        assert(all.take(k + 1).drop_last() =~= all.take(k as int));
        assert(all.take(k + 1).last() == named@[k as int]@);
        let ghost before = outside(all.take(k as int), allowed);
        if !listed(known, named[k].as_str()) {
            insert_sorted(&mut unknown, named[k].clone());
            proof {
                before.lemma_push_to_set_commute(named@[k as int]@);
            }
        }
        k = k + 1;
    }
    assert(all.take(named@.len() as int) =~= all);
    proof {
        let out = outside(all, allowed);
        lemma_in_order_once(out, strs(unknown@));
        if out.len() > 0 {
            assert(held(out).contains(out[0]));
            assert(held(strs(unknown@)).contains(out[0]));
        }
        if unknown@.len() > 0 {
            assert(held(strs(unknown@)).contains(strs(unknown@)[0]));
        }
    }
    unknown
}

/// One entry of `exempt`.
fn load_exemption(at: &str, name: &str, exemption: &Json, gates: &Vec<String>) -> (r: Result<
    Exemption,
    Error,
>)
    ensures
        refused_as(r, exemption_error(at@, name@, *exemption, strs(gates@))),
        r matches Ok(e) ==> exemption_fits(e, *exemption),
{
    match exemption {
        Json::Object(_) => {},
        _ => {
            return Err(
                Error::Invalid(about_msg(at, name, "every entry of `exempt` must be a mapping")),
            );
        },
    }
    let mut spot = crate::text::chars_of(name);
    push_str(&mut spot, ".exempt[]");
    let spot = string_of(&spot);
    reject_unknown(at, spot.as_str(), exemption, &exempt_key_list())?;
    let items = match exemption.get("gates") {
        Some(Json::Array(items)) => items,
        _ => {
            return Err(Error::Invalid(about_msg(at, name, "an `exempt` entry names no `gates`")));
        },
    };
    if items.len() == 0 {
        return Err(Error::Invalid(about_msg(at, name, "an `exempt` entry names no `gates`")));
    }
    let named = meant_all(items);
    let unknown = missing_from(&named, gates);
    if unknown.len() > 0 {
        let mut held = crate::text::chars_of(
            about_msg(at, name, "`exempt` names gates that do not exist: ").as_str(),
        );
        push_all(&mut held, &join_strings(&unknown, ", "));
        push_str(&mut held, " (known: ");
        push_all(&mut held, &join_strings(gates, ", "));
        push_str(&mut held, ")");
        assert(held@ =~= exemption_error(at@, name@, *exemption, strs(gates@))->Some_0);
        return Err(Error::Invalid(string_of(&held)));
    }
    let reason = match field_str(exemption, "reason") {
        Some(reason) => reason,
        None => {
            let mut held = crate::text::chars_of(
                about_msg(at, name, "the exemption for ").as_str(),
            );
            push_str(&mut held, crate::shown(exemption.get("values")).as_str());
            push_str(
                &mut held,
                " has no `reason`; an unexplained hole in a gate is indistinguishable from an oversight",
            );
            assert(held@ =~= exemption_error(at@, name@, *exemption, strs(gates@))->Some_0);
            return Err(Error::Invalid(string_of(&held)));
        },
    };
    if reason.as_str().is_empty() {
        let mut held = crate::text::chars_of(about_msg(at, name, "the exemption for ").as_str());
        push_str(&mut held, crate::shown(exemption.get("values")).as_str());
        push_str(
            &mut held,
            " has no `reason`; an unexplained hole in a gate is indistinguishable from an oversight",
        );
        assert(held@ =~= exemption_error(at@, name@, *exemption, strs(gates@))->Some_0);
        return Err(Error::Invalid(string_of(&held)));
    }
    let values = match field_str(exemption, "values") {
        Some(values) => values.clone(),
        None => String::new(),
    };
    Ok(Exemption { values, gates: named, reason: reason.clone() })
}

/// The per-values-file exemptions.
fn load_exemptions(at: &str, name: &str, exempt: Option<&Json>, gates: &Vec<String>) -> (r: Result<
    Vec<Exemption>,
    Error,
>)
    ensures
        refused_as(r, exemptions_error(at@, name@, deref(exempt), strs(gates@))),
        r matches Ok(v) ==> exemptions_fit(v@, deref(exempt)),
{
    let mut loaded: Vec<Exemption> = Vec::new();
    let items = match exempt {
        Some(Json::Array(items)) => items,
        _ => {
            return Ok(loaded);
        },
    };
    let ghost errors = exemption_errors(at@, name@, items@, strs(gates@));
    let mut k: usize = 0;
    while k < items.len()
        invariant
            k <= items@.len(),
            errors == exemption_errors(at@, name@, items@, strs(gates@)),
            deref(exempt) == Some(Json::Array(*items)),
            errors.len() == items@.len(),
            forall|j: int| 0 <= j < k ==> #[trigger] errors[j] is None,
            loaded@.len() == k,
            forall|j: int| 0 <= j < k ==> #[trigger] exemption_fits(loaded@[j], items@[j]),
        decreases items.len() - k,
    {
        assert(errors[k as int] == exemption_error(at@, name@, items@[k as int], strs(gates@)));
        match load_exemption(at, name, &items[k], gates) {
            Ok(exemption) => {
                loaded.push(exemption);
            },
            Err(e) => {
                proof {
                    lemma_first_error(errors, k as int);
                }
                return Err(e);
            },
        }
        k = k + 1;
    }
    proof {
        lemma_first_error(errors, k as int);
    }
    Ok(loaded)
}

/// The name a `documents` entry gives its document.
pub open spec fn doc_name(entry: Json) -> Option<Seq<char>> {
    text_spec(get_spec(entry, "name"@))
}

/// What refuses one entry of `documents`, if anything, given the gates that exist.
pub open spec fn document_error(at: Seq<char>, entry: Json, gates: Seq<Seq<char>>) -> Option<
    Seq<char>,
> {
    if !(entry is Object) {
        Some(at + ": every entry of `documents` must be a mapping"@)
    } else if strange_spec(at, "documents[]"@, entry, document_keys()) is Some {
        strange_spec(at, "documents[]"@, entry, document_keys())
    } else if !filled(doc_name(entry)) {
        Some(at + ": a document has no `name`"@)
    } else {
        let name = doc_name(entry)->Some_0;
        if source_error(at, name, get_spec(entry, "source"@)) is Some {
            source_error(at, name, get_spec(entry, "source"@))
        } else if images_error(at, name, get_spec(entry, "images"@)) is Some {
            images_error(at, name, get_spec(entry, "images"@))
        } else if consumers_error(at, name, get_spec(entry, "consumers"@)) is Some {
            consumers_error(at, name, get_spec(entry, "consumers"@))
        } else {
            exemptions_error(at, name, get_spec(entry, "exempt"@), gates)
        }
    }
}

/// Whether a document is what a `documents` entry says.
pub open spec fn document_fits(d: Document, entry: Json) -> bool {
    &&& Some(d.name@) == doc_name(entry)
    &&& source_fits(d.source, get_spec(entry, "source"@)->Some_0)
    &&& images_fit(d.images@, get_spec(entry, "images"@))
    &&& consumers_fit(d.consumers@, get_spec(entry, "consumers"@))
    &&& exemptions_fit(d.exempt@, get_spec(entry, "exempt"@))
    &&& d.restart@.len() == 0
}

/// One document entry.
fn load_document(at: &str, entry: &Json, gates: &Vec<String>) -> (r: Result<Document, Error>)
    ensures
        refused_as(r, document_error(at@, *entry, strs(gates@))),
        r matches Ok(d) ==> document_fits(d, *entry),
{
    match entry {
        Json::Object(_) => {},
        _ => {
            return Err(Error::Invalid(at_msg(at, ": every entry of `documents` must be a mapping")));
        },
    }
    reject_unknown(at, "documents[]", entry, &document_key_list())?;
    let name = match field_str(entry, "name") {
        Some(name) => name,
        None => {
            return Err(Error::Invalid(at_msg(at, ": a document has no `name`")));
        },
    };
    if name.as_str().is_empty() {
        return Err(Error::Invalid(at_msg(at, ": a document has no `name`")));
    }
    let source = load_source(at, name.as_str(), entry.get("source"))?;
    let images = load_images(at, name.as_str(), entry.get("images"))?;
    let consumers = load_consumers(at, name.as_str(), entry.get("consumers"))?;
    let exempt = load_exemptions(at, name.as_str(), entry.get("exempt"), gates)?;
    Ok(Document { name: name.clone(), source, images, consumers, exempt, restart: Vec::new() })
}

// ------------------------------------------------------------------------------------------------
// Keys the chart binds no value to
// ------------------------------------------------------------------------------------------------

/// A text that may be absent, by its view.
pub open spec fn opt_view(o: Option<String>) -> Option<Seq<char>> {
    match o {
        Some(t) => Some(t@),
        None => None,
    }
}

/// Texts that may be absent, by their views.
pub open spec fn opt_strs(o: Option<Vec<String>>) -> Option<Seq<Seq<char>>> {
    match o {
        Some(v) => Some(strs(v@)),
        None => None,
    }
}

/// Where a message puts one `unbound` entry: `unbound[{position}]`.
pub open spec fn entry_at(position: nat) -> Seq<char> {
    "unbound["@ + crate::text::decimal(position) + "]"@
}

/// Where a message puts one `unbound` entry.
fn entry_at_text(position: usize) -> (s: String)
    ensures
        s@ == entry_at(position as nat),
{
    let mut held = crate::text::chars_of("unbound[");
    push_all(&mut held, &crate::text::decimal_of(position as u64));
    push_str(&mut held, "]");
    string_of(&held)
}

/// Whether a value is a non-empty string, which is what a key is written as.
pub open spec fn is_name(j: Json) -> bool {
    match j {
        Json::Str(t) => t@.len() > 0,
        _ => false,
    }
}

/// The items of a list, or nothing where the value is not a list.
pub open spec fn items_of(v: Option<Json>) -> Seq<Json> {
    match v {
        Some(Json::Array(items)) => items@,
        _ => seq![],
    }
}

/// Texts, each in single quotes.
pub open spec fn quoted_all(s: Seq<Seq<char>>) -> Seq<Seq<char>> {
    s.map_values(|t: Seq<char>| quoted_spec(t))
}

/// The documents an `unbound` entry is scoped to, when it names any.
pub open spec fn scope_of_value(v: Option<Json>) -> Option<Seq<Seq<char>>> {
    match v {
        Some(Json::Array(items)) => Some(meant_list(items@)),
        _ => None,
    }
}

/// What refuses the scope of one `unbound` entry, if anything: absent means every document, and a
/// scope must be a non-empty list of documents the chart declares.
pub open spec fn scope_error(
    at: Seq<char>,
    where_: Seq<char>,
    scope: Option<Json>,
    docs: Seq<Seq<char>>,
) -> Option<Seq<char>> {
    match scope {
        None => None,
        Some(Json::Null) => None,
        Some(j) => if !listing(Some(j)) {
            Some(
                about(at, where_)
                    + "`documents` scopes the write-off and must be a non-empty list; leave              it out to write the keys off wherever they are declared"@,
            )
        } else if outside(meant_list(items_of(Some(j))), docs).len() == 0 {
            None
        } else {
            Some(
                about(at, where_) + "`documents` names "@ + join_spec(
                    in_order_once(quoted_all(outside(meant_list(items_of(Some(j))), docs))),
                    ", "@,
                ) + ", which this chart does not declare (declared:              "@ + join_spec(
                    in_order_once(docs),
                    ", "@,
                ) + ")"@,
            )
        },
    }
}

/// What refuses one `unbound` entry on its own, if anything.
pub open spec fn unbound_entry_error(
    at: Seq<char>,
    position: nat,
    e: Json,
    docs: Seq<Seq<char>>,
) -> Option<Seq<char>> {
    let where_ = entry_at(position);
    if !(e is Object) {
        Some(at + ": every entry of `unbound` must be a mapping"@)
    } else if strange_spec(at, where_, e, unbound_keys()) is Some {
        strange_spec(at, where_, e, unbound_keys())
    } else if !listing(get_spec(e, "keys"@)) {
        Some(
            about(at, where_)
                + "`keys` is missing or empty; an entry writes off at least one key, listed by name — there is no pattern form, so a key an image release adds cannot be written off by something somebody typed before it existed"@,
        )
    } else if exists|k: int|
        0 <= k < items_of(get_spec(e, "keys"@)).len() && !is_name(
            #[trigger] items_of(get_spec(e, "keys"@))[k],
        ) {
        Some(about(at, where_) + "every entry of `keys` must be a name"@)
    } else if !filled(text_spec(get_spec(e, "reason"@))) {
        Some(
            about(at, where_)
                + "no `reason`; a key nothing surfaces is either a decision or the oversight this gate exists to catch, and silence cannot say which"@,
        )
    } else {
        scope_error(at, where_, get_spec(e, "documents"@), docs)
    }
}

/// Whether an `Unbound` is what an `unbound` entry says.
pub open spec fn unbound_fits(u: Unbound, e: Json) -> bool {
    &&& strs(u.keys@) == meant_list(items_of(get_spec(e, "keys"@)))
    &&& Some(u.reason@) == text_spec(get_spec(e, "reason"@))
    &&& opt_strs(u.documents) == scope_of_value(get_spec(e, "documents"@))
}

/// The scopes a list of documents stands for: each of them, or every document where there is
/// no list.
pub open spec fn scopes_from(names: Option<Seq<Seq<char>>>) -> Seq<Option<Seq<char>>> {
    match names {
        Some(names) => names.map_values(|n: Seq<char>| Some(n)),
        None => seq![None],
    }
}

/// The scopes one entry writes its keys off in: each document it names, or every one.
pub open spec fn scopes_of(e: Json) -> Seq<Option<Seq<char>>> {
    scopes_from(scope_of_value(get_spec(e, "documents"@)))
}

/// One key paired with each scope.
pub open spec fn with_key(key: Seq<char>, scopes: Seq<Option<Seq<char>>>) -> Seq<
    (Seq<char>, Option<Seq<char>>),
> {
    scopes.map_values(|s: Option<Seq<char>>| (key, s))
}

/// Every key paired with every scope, key by key.
pub open spec fn pairs_for(keys: Seq<Seq<char>>, scopes: Seq<Option<Seq<char>>>) -> Seq<
    (Seq<char>, Option<Seq<char>>),
>
    decreases keys.len(),
{
    if keys.len() == 0 {
        seq![]
    } else {
        pairs_for(keys.drop_last(), scopes) + with_key(keys.last(), scopes)
    }
}

/// The (key, scope) pairs one `unbound` entry writes off, in the order they are checked.
pub open spec fn entry_pairs(e: Json) -> Seq<(Seq<char>, Option<Seq<char>>)> {
    pairs_for(meant_list(items_of(get_spec(e, "keys"@))), scopes_of(e))
}

/// Pairs, each marked with the entry that wrote it off.
pub open spec fn tag(pairs: Seq<(Seq<char>, Option<Seq<char>>)>, t: nat) -> Seq<
    ((Seq<char>, Option<Seq<char>>), nat),
> {
    pairs.map_values(|p: (Seq<char>, Option<Seq<char>>)| (p, t))
}

/// The pairs the first `n` entries write off, each with its entry.
pub open spec fn seen_upto(entries: Seq<Json>, n: int) -> Seq<
    ((Seq<char>, Option<Seq<char>>), nat),
>
    decreases n,
{
    if n <= 0 {
        seq![]
    } else {
        seen_upto(entries, n - 1) + tag(entry_pairs(entries[n - 1]), (n - 1) as nat)
    }
}

/// The entry that first wrote a pair off, if one has.
pub open spec fn first_seen(
    seen: Seq<((Seq<char>, Option<Seq<char>>), nat)>,
    p: (Seq<char>, Option<Seq<char>>),
) -> Option<nat>
    decreases seen.len(),
{
    if seen.len() == 0 {
        None
    } else if seen[0].0 == p {
        Some(seen[0].1)
    } else {
        first_seen(seen.drop_first(), p)
    }
}

/// With no match before `m`, the first match is the one at `m`, or none at the end.
proof fn lemma_first_seen(
    seen: Seq<((Seq<char>, Option<Seq<char>>), nat)>,
    p: (Seq<char>, Option<Seq<char>>),
    m: int,
)
    requires
        0 <= m <= seen.len(),
        forall|i: int| 0 <= i < m ==> (#[trigger] seen[i]).0 != p,
    ensures
        m == seen.len() ==> first_seen(seen, p) is None,
        m < seen.len() && seen[m].0 == p ==> first_seen(seen, p) == Some(seen[m].1),
    decreases m,
{
    if m > 0 {
        let rest = seen.drop_first();
        assert forall|i: int| 0 <= i < m - 1 implies (#[trigger] rest[i]).0 != p by {
            assert(rest[i] == seen[i + 1]);
        }
        lemma_first_seen(rest, p, m - 1);
    }
}

/// What refuses a pair an entry writes off that an earlier one, or an earlier key of the same
/// entry, already wrote off.
pub open spec fn clash(
    at: Seq<char>,
    position: nat,
    seen: Seq<((Seq<char>, Option<Seq<char>>), nat)>,
    mine: Seq<(Seq<char>, Option<Seq<char>>)>,
) -> Option<Seq<char>>
    decreases mine.len(),
{
    if mine.len() == 0 {
        None
    } else {
        match first_seen(seen, mine[0]) {
            Some(first) => Some(
                about(at, entry_at(position)) + quoted_spec(mine[0].0)
                    + " is already written off by unbound["@ + crate::text::decimal(first)
                    + "]; two reasons for one key means one of them is not the reason"@,
            ),
            None => clash(at, position, seen.push((mine[0], position)), mine.drop_first()),
        }
    }
}

/// What refuses the first `n` entries of `unbound`, if anything: each entry on its own, then
/// whether it writes off a key, in a scope, that is already written off.
pub open spec fn unbound_error(at: Seq<char>, entries: Seq<Json>, docs: Seq<Seq<char>>, n: int) -> Option<
    Seq<char>,
>
    decreases n,
{
    if n <= 0 {
        None
    } else if unbound_error(at, entries, docs, n - 1) is Some {
        unbound_error(at, entries, docs, n - 1)
    } else if unbound_entry_error(at, (n - 1) as nat, entries[n - 1], docs) is Some {
        unbound_entry_error(at, (n - 1) as nat, entries[n - 1], docs)
    } else {
        clash(at, (n - 1) as nat, seen_upto(entries, n - 1), entry_pairs(entries[n - 1]))
    }
}

/// Once the first `m` entries are refused, so is every longer prefix, for the same reason.
proof fn lemma_unbound_sticks(
    at: Seq<char>,
    entries: Seq<Json>,
    docs: Seq<Seq<char>>,
    m: int,
    n: int,
)
    requires
        0 <= m <= n,
        unbound_error(at, entries, docs, m) is Some,
    ensures
        unbound_error(at, entries, docs, n) == unbound_error(at, entries, docs, m),
    decreases n - m,
{
    if n > m {
        lemma_unbound_sticks(at, entries, docs, m, n - 1);
    }
}

/// Whether the `Unbound`s are, one for one, what `unbound` lists.
pub open spec fn unbounds_fit(v: Seq<Unbound>, entries: Seq<Json>) -> bool {
    &&& v.len() == entries.len()
    &&& forall|k: int| 0 <= k < v.len() ==> #[trigger] unbound_fits(v[k], entries[k])
}

/// The texts of a list, each once and in order.
fn once_in_order(names: &Vec<String>) -> (v: Vec<String>)
    ensures
        strs(v@) == in_order_once(strs(names@)),
{
    let ghost all = strs(names@);
    let mut v: Vec<String> = Vec::new();
    assert(held(strs(v@)) =~= held(all.take(0)));
    let mut k: usize = 0;
    while k < names.len()
        invariant
            k <= names@.len(),
            all == strs(names@),
            ascending(strs(v@)),
            held(strs(v@)) == held(all.take(k as int)),
        decreases names.len() - k,
    {
        assert(all.take(k + 1) =~= all.take(k as int).push(names@[k as int]@));
        proof {
            all.take(k as int).lemma_push_to_set_commute(names@[k as int]@);
        }
        insert_sorted(&mut v, names[k].clone());
        k = k + 1;
    }
    assert(all.take(names@.len() as int) =~= all);
    proof {
        lemma_in_order_once(all, strs(v@));
    }
    v
}

/// The documents one `unbound` entry is scoped to, when it names any.
///
/// Absent means every document that declares the key. Naming documents says the key is surfaced in
/// some of them and not others, and naming one the chart does not declare is a scope that silently
/// covers nothing.
fn unbound_scope(at: &str, where_: &str, scope: Option<&Json>, docs: &Vec<String>) -> (r: Result<
    Option<Vec<String>>,
    Error,
>)
    ensures
        refused_as(r, scope_error(at@, where_@, deref(scope), strs(docs@))),
        r matches Ok(s) ==> opt_strs(s) == scope_of_value(deref(scope)),
{
    let j = match scope {
        None => {
            return Ok(None);
        },
        Some(j) => j,
    };
    let items = match j {
        Json::Null => {
            return Ok(None);
        },
        Json::Array(items) => items,
        _ => {
            return Err(
                Error::Invalid(
                    about_msg(
                        at,
                        where_,
                        "`documents` scopes the write-off and must be a non-empty list; leave              it out to write the keys off wherever they are declared",
                    ),
                ),
            );
        },
    };
    if items.len() == 0 {
        return Err(
            Error::Invalid(
                about_msg(
                    at,
                    where_,
                    "`documents` scopes the write-off and must be a non-empty list; leave              it out to write the keys off wherever they are declared",
                ),
            ),
        );
    }
    let named = meant_all(items);
    let ghost all = strs(named@);
    let ghost allowed = strs(docs@);
    let mut unknown: Vec<String> = Vec::new();
    assert(all.take(0) =~= Seq::<Seq<char>>::empty());
    assert(held(strs(unknown@)) =~= held(quoted_all(outside(all.take(0), allowed))));
    let mut k: usize = 0;
    while k < named.len()
        invariant
            k <= named@.len(),
            all == strs(named@),
            all == meant_list(items@),
            deref(scope) == Some(Json::Array(*items)),
            allowed == strs(docs@),
            ascending(strs(unknown@)),
            held(strs(unknown@)) == held(quoted_all(outside(all.take(k as int), allowed))),
        decreases named.len() - k,
    {
        assert(all.take(k + 1).drop_last() =~= all.take(k as int));
        assert(all.take(k + 1).last() == named@[k as int]@);
        let ghost before = quoted_all(outside(all.take(k as int), allowed));
        if !listed(docs, named[k].as_str()) {
            let q = crate::quoted(named[k].as_str());
            insert_sorted(&mut unknown, q);
            assert(quoted_all(outside(all.take(k + 1), allowed)) =~= before.push(q@));
            proof {
                before.lemma_push_to_set_commute(q@);
            }
        }
        k = k + 1;
    }
    assert(all.take(named@.len() as int) =~= all);
    let ghost out = outside(all, allowed);
    proof {
        lemma_in_order_once(quoted_all(out), strs(unknown@));
        if out.len() > 0 {
            assert(quoted_all(out)[0] == quoted_spec(out[0]));
            assert(held(quoted_all(out)).contains(quoted_all(out)[0]));
        }
        if unknown@.len() > 0 {
            assert(held(strs(unknown@)).contains(strs(unknown@)[0]));
        }
    }
    if unknown.len() == 0 {
        return Ok(Some(named));
    }
    let declared = once_in_order(docs);
    let mut held = crate::text::chars_of(about_msg(at, where_, "`documents` names ").as_str());
    push_all(&mut held, &join_strings(&unknown, ", "));
    push_str(&mut held, ", which this chart does not declare (declared:              ");
    push_all(&mut held, &join_strings(&declared, ", "));
    push_str(&mut held, ")");
    assert(held@ =~= scope_error(at@, where_@, deref(scope), strs(docs@))->Some_0);
    Err(Error::Invalid(string_of(&held)))
}

/// Whether every item of a list is a non-empty string.
fn all_names(items: &Vec<Json>) -> (b: bool)
    ensures
        b <==> forall|k: int| 0 <= k < items@.len() ==> is_name(#[trigger] items@[k]),
{
    let mut k: usize = 0;
    while k < items.len()
        invariant
            k <= items@.len(),
            forall|j: int| 0 <= j < k ==> is_name(#[trigger] items@[j]),
        decreases items.len() - k,
    {
        let fine = match &items[k] {
            Json::Str(t) => !t.as_str().is_empty(),
            _ => false,
        };
        if !fine {
            assert(!is_name(items@[k as int]));
            return false;
        }
        k = k + 1;
    }
    true
}

/// One `unbound` entry on its own.
fn load_unbound_entry(at: &str, position: usize, entry: &Json, docs: &Vec<String>) -> (r: Result<
    Unbound,
    Error,
>)
    ensures
        refused_as(r, unbound_entry_error(at@, position as nat, *entry, strs(docs@))),
        r matches Ok(u) ==> unbound_fits(u, *entry),
{
    let spot = entry_at_text(position);
    match entry {
        Json::Object(_) => {},
        _ => {
            return Err(Error::Invalid(at_msg(at, ": every entry of `unbound` must be a mapping")));
        },
    }
    reject_unknown(at, spot.as_str(), entry, &unbound_key_list())?;
    let items = match entry.get("keys") {
        Some(Json::Array(items)) => items,
        _ => {
            return Err(
                Error::Invalid(
                    about_msg(
                        at,
                        spot.as_str(),
                        "`keys` is missing or empty; an entry writes off at least one key, listed by name — there is no pattern form, so a key an image release adds cannot be written off by something somebody typed before it existed",
                    ),
                ),
            );
        },
    };
    if items.len() == 0 {
        return Err(
            Error::Invalid(
                about_msg(
                    at,
                    spot.as_str(),
                    "`keys` is missing or empty; an entry writes off at least one key, listed by name — there is no pattern form, so a key an image release adds cannot be written off by something somebody typed before it existed",
                ),
            ),
        );
    }
    assert(items_of(get_spec(*entry, "keys"@)) == items@);
    if !all_names(items) {
        assert(exists|k: int|
            0 <= k < items_of(get_spec(*entry, "keys"@)).len() && !is_name(
                #[trigger] items_of(get_spec(*entry, "keys"@))[k],
            ));
        return Err(
            Error::Invalid(about_msg(at, spot.as_str(), "every entry of `keys` must be a name")),
        );
    }
    let reason = match field_str(entry, "reason") {
        Some(reason) => reason,
        None => {
            return Err(
                Error::Invalid(
                    about_msg(
                        at,
                        spot.as_str(),
                        "no `reason`; a key nothing surfaces is either a decision or the oversight this gate exists to catch, and silence cannot say which",
                    ),
                ),
            );
        },
    };
    if reason.as_str().is_empty() {
        return Err(
            Error::Invalid(
                about_msg(
                    at,
                    spot.as_str(),
                    "no `reason`; a key nothing surfaces is either a decision or the oversight this gate exists to catch, and silence cannot say which",
                ),
            ),
        );
    }
    let documents = unbound_scope(at, spot.as_str(), entry.get("documents"), docs)?;
    Ok(Unbound { keys: meant_all(items), reason: reason.clone(), documents })
}

/// Texts that may be absent, by their views.
pub open spec fn opts_view(v: Seq<Option<String>>) -> Seq<Option<Seq<char>>> {
    v.map_values(|o: Option<String>| opt_view(o))
}

/// Pairs of a key and a scope, by their views.
pub open spec fn mine_view(v: Seq<(String, Option<String>)>) -> Seq<(Seq<char>, Option<Seq<char>>)> {
    v.map_values(|p: (String, Option<String>)| (p.0@, opt_view(p.1)))
}

/// Pairs written off, each with its entry, by their views.
pub open spec fn seen_view(v: Seq<(String, Option<String>, usize)>) -> Seq<
    ((Seq<char>, Option<Seq<char>>), nat),
> {
    v.map_values(|e: (String, Option<String>, usize)| ((e.0@, opt_view(e.1)), e.2 as nat))
}

/// A copy of a text that may be absent.
fn copy_opt(o: &Option<String>) -> (c: Option<String>)
    ensures
        opt_view(c) == opt_view(*o),
{
    match o {
        Some(t) => Some(t.clone()),
        None => None,
    }
}

/// Whether two texts that may be absent are the same.
fn same_opt(a: &Option<String>, b: &Option<String>) -> (r: bool)
    ensures
        r == (opt_view(*a) == opt_view(*b)),
{
    match (a, b) {
        (Some(x), Some(y)) => *x == *y,
        (None, None) => true,
        _ => false,
    }
}

/// The scopes an entry's documents stand for.
fn scope_list(documents: &Option<Vec<String>>) -> (v: Vec<Option<String>>)
    ensures
        opts_view(v@) == scopes_from(opt_strs(*documents)),
{
    let mut v: Vec<Option<String>> = Vec::new();
    match documents {
        Some(names) => {
            let ghost want = scopes_from(opt_strs(*documents));
            assert(opts_view(v@) =~= want.take(0));
            let mut k: usize = 0;
            while k < names.len()
                invariant
                    k <= names@.len(),
                    want == scopes_from(opt_strs(*documents)),
                    *documents == Some(*names),
                    want.len() == names@.len(),
                    opts_view(v@) == want.take(k as int),
                decreases names.len() - k,
            {
                let ghost before = v@;
                assert(opts_view(before).len() == k);
                v.push(Some(names[k].clone()));
                assert(want[k as int] == Some(names@[k as int]@));
                assert forall|i: int| 0 <= i < k + 1 implies #[trigger] opts_view(v@)[i] == want.take(
                    k + 1,
                )[i] by {
                    if i < k {
                        assert(opts_view(before)[i] == want.take(k as int)[i]);
                        assert(v@[i] == before[i]);
                    }
                }
                assert(opts_view(v@) =~= want.take(k + 1));
                k = k + 1;
            }
            assert(want.take(names@.len() as int) =~= want);
        },
        None => {
            v.push(None);
            assert(opts_view(v@) =~= seq![None]);
        },
    }
    v
}

/// Every key paired with every scope, key by key.
fn key_scope_pairs(keys: &Vec<String>, scopes: &Vec<Option<String>>) -> (v: Vec<
    (String, Option<String>),
>)
    ensures
        mine_view(v@) == pairs_for(strs(keys@), opts_view(scopes@)),
{
    let ghost all = strs(keys@);
    let ghost each = opts_view(scopes@);
    let mut v: Vec<(String, Option<String>)> = Vec::new();
    assert(all.take(0) =~= Seq::<Seq<char>>::empty());
    assert(mine_view(v@) =~= pairs_for(all.take(0), each));
    let mut i: usize = 0;
    while i < keys.len()
        invariant
            i <= keys@.len(),
            all == strs(keys@),
            each == opts_view(scopes@),
            mine_view(v@) == pairs_for(all.take(i as int), each),
        decreases keys.len() - i,
    {
        let ghost start = mine_view(v@);
        let ghost row = with_key(keys@[i as int]@, each);
        assert(start + row.take(0) =~= start);
        let mut j: usize = 0;
        while j < scopes.len()
            invariant
                i < keys@.len(),
                j <= scopes@.len(),
                each == opts_view(scopes@),
                row == with_key(keys@[i as int]@, each),
                row.len() == scopes@.len(),
                mine_view(v@) == start + row.take(j as int),
            decreases scopes.len() - j,
        {
            let ghost before = v@;
            assert(mine_view(before).len() == start.len() + j);
            v.push((keys[i].clone(), copy_opt(&scopes[j])));
            assert(row[j as int] == (keys@[i as int]@, opt_view(scopes@[j as int])));
            assert forall|n: int| 0 <= n < start.len() + j + 1 implies #[trigger] mine_view(v@)[n] == (
            start + row.take(j + 1))[n] by {
                if n < start.len() + j {
                    assert(mine_view(before)[n] == (start + row.take(j as int))[n]);
                    assert(v@[n] == before[n]);
                }
            }
            assert(mine_view(v@) =~= start + row.take(j + 1));
            j = j + 1;
        }
        assert(row.take(scopes@.len() as int) =~= row);
        assert(all.take(i + 1).drop_last() =~= all.take(i as int));
        assert(all.take(i + 1).last() == keys@[i as int]@);
        i = i + 1;
    }
    assert(all.take(keys@.len() as int) =~= all);
    v
}

/// The entry that first wrote a (key, scope) pair off, if one has.
fn find_pair(seen: &Vec<(String, Option<String>, usize)>, key: &String, scope: &Option<String>) -> (r:
    Option<usize>)
    ensures
        match r {
            Some(first) => first_seen(seen_view(seen@), (key@, opt_view(*scope))) == Some(
                first as nat,
            ),
            None => first_seen(seen_view(seen@), (key@, opt_view(*scope))) is None,
        },
{
    let ghost sv = seen_view(seen@);
    let ghost p = (key@, opt_view(*scope));
    let mut m: usize = 0;
    while m < seen.len()
        invariant
            m <= seen@.len(),
            sv == seen_view(seen@),
            sv.len() == seen@.len(),
            p == (key@, opt_view(*scope)),
            forall|i: int| 0 <= i < m ==> (#[trigger] sv[i]).0 != p,
        decreases seen.len() - m,
    {
        assert(sv[m as int] == ((seen@[m as int].0@, opt_view(seen@[m as int].1)), seen@[m as int].2 as nat));
        if seen[m].0 == *key && same_opt(&seen[m].1, scope) {
            proof {
                lemma_first_seen(sv, p, m as int);
            }
            return Some(seen[m].2);
        }
        m = m + 1;
    }
    proof {
        lemma_first_seen(sv, p, m as int);
    }
    None
}

/// The keys this chart binds no value to, each entry read, and each key in each scope written off
/// once.
fn load_unbound(at: &str, entries: Option<&Json>, docs: &Vec<String>) -> (r: Result<
    Vec<Unbound>,
    Error,
>)
    ensures
        refused_as(
            r,
            unbound_error(
                at@,
                items_of(deref(entries)),
                strs(docs@),
                items_of(deref(entries)).len() as int,
            ),
        ),
        r matches Ok(v) ==> unbounds_fit(v@, items_of(deref(entries))),
{
    let mut loaded: Vec<Unbound> = Vec::new();
    let items = match entries {
        Some(Json::Array(items)) => items,
        _ => {
            return Ok(loaded);
        },
    };
    let ghost list = items@;
    let ghost names = strs(docs@);
    let mut seen: Vec<(String, Option<String>, usize)> = Vec::new();
    assert(seen_view(seen@) =~= seen_upto(list, 0));
    let mut k: usize = 0;
    while k < items.len()
        invariant
            k <= items@.len(),
            list == items@,
            names == strs(docs@),
            deref(entries) == Some(Json::Array(*items)),
            unbound_error(at@, list, names, k as int) is None,
            seen_view(seen@) == seen_upto(list, k as int),
            loaded@.len() == k,
            forall|j: int| 0 <= j < k ==> #[trigger] unbound_fits(loaded@[j], list[j]),
        decreases items.len() - k,
    {
        let u = match load_unbound_entry(at, k, &items[k], docs) {
            Ok(u) => u,
            Err(e) => {
                proof {
                    lemma_unbound_sticks(at@, list, names, k + 1, list.len() as int);
                }
                return Err(e);
            },
        };
        let scopes = scope_list(&u.documents);
        let mine = key_scope_pairs(&u.keys, &scopes);
        let ghost s0 = seen_view(seen@);
        let ghost p = mine_view(mine@);
        assert(p == entry_pairs(list[k as int]));
        let spot = entry_at_text(k);
        assert(p.skip(0) =~= p);
        assert(s0 + tag(p.take(0), k as nat) =~= s0);
        let mut j: usize = 0;
        while j < mine.len()
            invariant
                k < list.len(),
                j <= mine@.len(),
                list == items@,
                names == strs(docs@),
                deref(entries) == Some(Json::Array(*items)),
                unbound_error(at@, list, names, k as int) is None,
                unbound_entry_error(at@, k as nat, list[k as int], names) is None,
                s0 == seen_upto(list, k as int),
                p == entry_pairs(list[k as int]),
                p == mine_view(mine@),
                spot@ == entry_at(k as nat),
                seen_view(seen@) == s0 + tag(p.take(j as int), k as nat),
                clash(at@, k as nat, s0, p) == clash(
                    at@,
                    k as nat,
                    seen_view(seen@),
                    p.skip(j as int),
                ),
            decreases mine.len() - j,
        {
            let ghost now = seen_view(seen@);
            let ghost here = p.skip(j as int);
            assert(here[0] == p[j as int]);
            assert(p[j as int] == (mine@[j as int].0@, opt_view(mine@[j as int].1)));
            match find_pair(&seen, &mine[j].0, &mine[j].1) {
                Some(first) => {
                    proof {
                        reveal_strlit("");
                    }
                    let mut held = crate::text::chars_of(about_msg(at, spot.as_str(), "").as_str());
                    push_str(&mut held, crate::quoted(mine[j].0.as_str()).as_str());
                    push_str(&mut held, " is already written off by unbound[");
                    push_all(&mut held, &crate::text::decimal_of(first as u64));
                    push_str(
                        &mut held,
                        "]; two reasons for one key means one of them is not the reason",
                    );
                    assert(held@ =~= clash(at@, k as nat, now, here)->Some_0);
                    proof {
                        lemma_unbound_sticks(at@, list, names, k + 1, list.len() as int);
                    }
                    return Err(Error::Invalid(string_of(&held)));
                },
                None => {},
            }
            let ghost before = seen@;
            seen.push((mine[j].0.clone(), copy_opt(&mine[j].1), k));
            assert(here.drop_first() =~= p.skip(j + 1));
            assert(seen_view(seen@) =~= now.push((p[j as int], k as nat)));
            assert(tag(p.take(j + 1), k as nat) =~= tag(p.take(j as int), k as nat).push(
                (p[j as int], k as nat),
            ));
            assert(seen_view(seen@) =~= s0 + tag(p.take(j + 1), k as nat));
            j = j + 1;
        }
        assert(p.take(mine@.len() as int) =~= p);
        assert(p.skip(mine@.len() as int) =~= Seq::<(Seq<char>, Option<Seq<char>>)>::empty());
        assert(seen_upto(list, k + 1) == seen_upto(list, k as int) + tag(
            entry_pairs(list[k as int]),
            k as nat,
        ));
        loaded.push(u);
        k = k + 1;
    }
    Ok(loaded)
}

// ------------------------------------------------------------------------------------------------
// What a chart adds to its credential reference
// ------------------------------------------------------------------------------------------------

/// The contract key a `credentials` entry names.
pub open spec fn credential_key(e: Json) -> Option<Seq<char>> {
    text_spec(get_spec(e, "key"@))
}

/// Whether an optional field of a `credentials` entry is refused: it is there, not null, and not
/// a string with something in it.
pub open spec fn blank(v: Option<Json>) -> bool {
    match v {
        None => false,
        Some(Json::Null) => false,
        Some(Json::Str(t)) => crate::text::trim_spec(t@).len() == 0,
        _ => true,
    }
}

/// The text of an optional field of a `credentials` entry, when it holds one.
pub open spec fn optional_spec(v: Option<Json>) -> Option<Seq<char>> {
    match v {
        Some(Json::Str(t)) => Some(t@),
        _ => None,
    }
}

/// The keys the first `n` entries of `credentials` name.
pub open spec fn keys_upto(entries: Seq<Json>, n: int) -> Seq<Seq<char>>
    decreases n,
{
    if n <= 0 {
        seq![]
    } else {
        keys_upto(entries, n - 1).push(text_or_empty(credential_key(entries[n - 1])))
    }
}

/// What refuses an optional field of a `credentials` entry that is there and empty.
pub open spec fn empty_field(at: Seq<char>, key: Seq<char>, field: Seq<char>) -> Seq<char> {
    at + ": the `credentials` entry for "@ + quoted_spec(key) + " carries an empty `"@ + field + "`"@
}

/// What refuses one entry of `credentials`, given the keys the entries before it name.
pub open spec fn credential_error(at: Seq<char>, e: Json, earlier: Seq<Seq<char>>) -> Option<
    Seq<char>,
> {
    if !(e is Object) {
        Some(
            at
                + ": every entry of `credentials` must be a mapping carrying `key` and at least one of `value` and `note`"@,
        )
    } else if strange_spec(at, "credentials[]"@, e, credential_keys()) is Some {
        strange_spec(at, "credentials[]"@, e, credential_keys())
    } else if !filled(credential_key(e)) {
        Some(at + ": an entry of `credentials` names no `key`"@)
    } else {
        let key = credential_key(e)->Some_0;
        if earlier.contains(key) {
            Some(
                at + ": "@ + quoted_spec(key)
                    + " is named by two `credentials` entries, so one of the two is stale"@,
            )
        } else if blank(get_spec(e, "value"@)) {
            Some(empty_field(at, key, "value"@))
        } else if blank(get_spec(e, "note"@)) {
            Some(empty_field(at, key, "note"@))
        } else if optional_spec(get_spec(e, "value"@)) is None && optional_spec(
            get_spec(e, "note"@),
        ) is None {
            Some(
                at + ": the `credentials` entry for "@ + quoted_spec(key)
                    + " adds neither a `value` nor a `note`, and the row it describes is generated from the contract without it"@,
            )
        } else {
            None
        }
    }
}

/// What refuses the first `n` entries of `credentials`, if anything.
pub open spec fn credentials_error(at: Seq<char>, entries: Seq<Json>, n: int) -> Option<Seq<char>>
    decreases n,
{
    if n <= 0 {
        None
    } else if credentials_error(at, entries, n - 1) is Some {
        credentials_error(at, entries, n - 1)
    } else {
        credential_error(at, entries[n - 1], keys_upto(entries, n - 1))
    }
}

/// Once the first `m` entries are refused, so is every longer prefix, for the same reason.
proof fn lemma_credentials_sticks(at: Seq<char>, entries: Seq<Json>, m: int, n: int)
    requires
        0 <= m <= n,
        credentials_error(at, entries, m) is Some,
    ensures
        credentials_error(at, entries, n) == credentials_error(at, entries, m),
    decreases n - m,
{
    if n > m {
        lemma_credentials_sticks(at, entries, m, n - 1);
    }
}

/// Whether a note is what a `credentials` entry says: its key, its value trimmed, and its note
/// with every run of whitespace collapsed to one space, since the note is a table cell.
pub open spec fn note_fits(c: CredentialNote, e: Json) -> bool {
    &&& Some(c.key@) == credential_key(e)
    &&& opt_view(c.value) == match optional_spec(get_spec(e, "value"@)) {
        Some(t) => Some(crate::text::trim_spec(t)),
        None => None,
    }
    &&& opt_view(c.note) == match optional_spec(get_spec(e, "note"@)) {
        Some(t) => Some(join_spec(crate::text::words(t), " "@)),
        None => None,
    }
}

/// The keys of a list of notes, in its order.
pub open spec fn note_keys(v: Seq<CredentialNote>) -> Seq<Seq<char>> {
    v.map_values(|c: CredentialNote| c.key@)
}

/// Whether one of the notes is what a `credentials` entry says.
pub open spec fn noted(v: Seq<CredentialNote>, e: Json) -> bool {
    exists|i: int| 0 <= i < v.len() && #[trigger] note_fits(v[i], e)
}

/// Whether the notes are one for each entry, in the order of their keys.
pub open spec fn credentials_fit(v: Seq<CredentialNote>, entries: Seq<Json>) -> bool {
    &&& v.len() == entries.len()
    &&& ascending(note_keys(v))
    &&& forall|j: int| 0 <= j < entries.len() ==> #[trigger] noted(v, entries[j])
}

/// One optional non-empty string field of a credential entry.
fn optional_text(at: &str, value: Option<&Json>, key: &str, field: &str) -> (r: Result<
    Option<String>,
    Error,
>)
    ensures
        refused_as(
            r,
            if blank(deref(value)) {
                Some(empty_field(at@, key@, field@))
            } else {
                None
            },
        ),
        r matches Ok(o) ==> opt_view(o) == optional_spec(deref(value)),
{
    let fine = match value {
        None => true,
        Some(Json::Null) => true,
        Some(Json::Str(t)) => crate::text::trim(&crate::text::chars(t)).len() > 0,
        _ => false,
    };
    if !fine {
        let mut held = crate::text::chars_of(at);
        push_str(&mut held, ": the `credentials` entry for ");
        push_str(&mut held, crate::quoted(key).as_str());
        push_str(&mut held, " carries an empty `");
        push_str(&mut held, field);
        push_str(&mut held, "`");
        assert(held@ =~= empty_field(at@, key@, field@));
        return Err(Error::Invalid(string_of(&held)));
    }
    match value {
        Some(Json::Str(t)) => Ok(Some(t.clone())),
        _ => Ok(None),
    }
}

/// Whether a key is among the notes'.
fn has_key(notes: &Vec<CredentialNote>, key: &String) -> (b: bool)
    ensures
        b == note_keys(notes@).contains(key@),
{
    let mut i: usize = 0;
    while i < notes.len()
        invariant
            i <= notes@.len(),
            forall|k: int| 0 <= k < i ==> #[trigger] note_keys(notes@)[k] != key@,
        decreases notes.len() - i,
    {
        if notes[i].key == *key {
            assert(note_keys(notes@)[i as int] == key@);
            return true;
        }
        i = i + 1;
    }
    false
}

/// Add a note to a list kept in the order of its keys, where no note has its key yet.
fn insert_note(list: &mut Vec<CredentialNote>, note: CredentialNote)
    requires
        ascending(note_keys(old(list)@)),
        !note_keys(old(list)@).contains(note.key@),
    ensures
        ascending(note_keys(final(list)@)),
        exists|at: int| 0 <= at <= old(list)@.len() && final(list)@ == old(list)@.insert(at, note),
{
    let ghost before = note_keys(list@);
    let ghost it = note.key@;
    let mut at: usize = 0;
    while at < list.len() && crate::order::less(list[at].key.as_str(), note.key.as_str())
        invariant
            at <= list@.len(),
            note_keys(list@) == before,
            before.len() == list@.len(),
            ascending(before),
            it == note.key@,
            forall|k: int| 0 <= k < at ==> crate::order::text_lt(#[trigger] before[k], it),
        decreases list.len() - at,
    {
        at = at + 1;
    }
    proof {
        if at < before.len() {
            crate::order::lemma_lt_total(before[at as int], it);
            assert(before[at as int] != it) by {
                if before[at as int] == it {
                    assert(before.contains(it));
                }
            }
        }
    }
    let ghost old_list = list@;
    list.insert(at, note);
    let ghost after = note_keys(list@);
    assert(after =~= before.insert(at as int, it));
    assert forall|i: int, j: int| 0 <= i < j < after.len() implies crate::order::text_lt(
        #[trigger] after[i],
        #[trigger] after[j],
    ) by {
        if j < at {
        } else if i < at && j == at {
        } else if i < at && j > at {
            assert(after[j] == before[j - 1]);
            if j - 1 > at {
                assert(crate::order::text_lt(before[at as int], before[j - 1]));
            }
            if i < at {
                assert(crate::order::text_lt(before[i], it));
                if j - 1 == at {
                    crate::order::lemma_lt_transitive(before[i], it, before[at as int]);
                } else {
                    crate::order::lemma_lt_transitive(before[i], it, before[at as int]);
                    crate::order::lemma_lt_transitive(before[i], before[at as int], before[j - 1]);
                }
            }
        } else if i == at {
            assert(after[j] == before[j - 1]);
            if j - 1 > at {
                assert(crate::order::text_lt(before[at as int], before[j - 1]));
                crate::order::lemma_lt_transitive(it, before[at as int], before[j - 1]);
            }
        } else {
            assert(after[i] == before[i - 1]);
            assert(after[j] == before[j - 1]);
        }
    }
    assert(list@ == old_list.insert(at as int, note));
}

/// One entry of `credentials`, given the keys the entries before it name.
fn load_credential(
    at: &str,
    entry: &Json,
    notes: &Vec<CredentialNote>,
    Ghost(earlier): Ghost<Seq<Seq<char>>>,
) -> (r: Result<CredentialNote, Error>)
    requires
        held(note_keys(notes@)) == held(earlier),
    ensures
        refused_as(r, credential_error(at@, *entry, earlier)),
        r matches Ok(c) ==> note_fits(c, *entry) && !earlier.contains(c.key@),
{
    match entry {
        Json::Object(_) => {},
        _ => {
            return Err(
                Error::Invalid(
                    at_msg(
                        at,
                        ": every entry of `credentials` must be a mapping carrying `key` and at least one of `value` and `note`",
                    ),
                ),
            );
        },
    }
    reject_unknown(at, "credentials[]", entry, &credential_key_list())?;
    let key = match field_str(entry, "key") {
        Some(key) => key,
        None => {
            return Err(Error::Invalid(at_msg(at, ": an entry of `credentials` names no `key`")));
        },
    };
    if key.as_str().is_empty() {
        return Err(Error::Invalid(at_msg(at, ": an entry of `credentials` names no `key`")));
    }
    let named = crate::quoted(key.as_str());
    if has_key(notes, key) {
        assert(held(note_keys(notes@)).contains(key@));
        let mut held = crate::text::chars_of(at);
        push_str(&mut held, ": ");
        push_str(&mut held, named.as_str());
        push_str(&mut held, " is named by two `credentials` entries, so one of the two is stale");
        return Err(Error::Invalid(string_of(&held)));
    }
    assert(!earlier.contains(key@)) by {
        if earlier.contains(key@) {
            assert(held(earlier).contains(key@));
            assert(held(note_keys(notes@)).contains(key@));
        }
    }
    let value = optional_text(at, entry.get("value"), key.as_str(), "value")?;
    let note = optional_text(at, entry.get("note"), key.as_str(), "note")?;
    if value.is_none() && note.is_none() {
        let mut held = crate::text::chars_of(at);
        push_str(&mut held, ": the `credentials` entry for ");
        push_str(&mut held, named.as_str());
        push_str(
            &mut held,
            " adds neither a `value` nor a `note`, and the row it describes is generated from the contract without it",
        );
        return Err(Error::Invalid(string_of(&held)));
    }
    let value = match value {
        Some(t) => Some(string_of(&crate::text::trim(&crate::text::chars(&t)))),
        None => None,
    };
    let note = match note {
        Some(t) => {
            let words = crate::text::split_whitespace(&crate::text::chars(&t));
            let space = crate::text::chars_of(" ");
            Some(string_of(&crate::text::join(&words, &space)))
        },
        None => None,
    };
    Ok(CredentialNote { key: key.clone(), value, note })
}

/// What the chart adds to each credential's row, in the order of their keys.
fn load_credentials(at: &str, entries: Option<&Json>) -> (r: Result<Vec<CredentialNote>, Error>)
    ensures
        refused_as(
            r,
            credentials_error(at@, items_of(deref(entries)), items_of(deref(entries)).len() as int),
        ),
        r matches Ok(v) ==> credentials_fit(v@, items_of(deref(entries))),
{
    let mut notes: Vec<CredentialNote> = Vec::new();
    let items = match entries {
        Some(Json::Array(items)) => items,
        _ => {
            assert(note_keys(notes@) =~= Seq::<Seq<char>>::empty());
            return Ok(notes);
        },
    };
    let ghost list = items@;
    assert(note_keys(notes@) =~= keys_upto(list, 0));
    let mut k: usize = 0;
    while k < items.len()
        invariant
            k <= items@.len(),
            list == items@,
            deref(entries) == Some(Json::Array(*items)),
            credentials_error(at@, list, k as int) is None,
            ascending(note_keys(notes@)),
            held(note_keys(notes@)) == held(keys_upto(list, k as int)),
            notes@.len() == k,
            forall|j: int| 0 <= j < k ==> #[trigger] noted(notes@, list[j]),
        decreases items.len() - k,
    {
        let ghost earlier = keys_upto(list, k as int);
        let c = match load_credential(at, &items[k], &notes, Ghost(earlier)) {
            Ok(c) => c,
            Err(e) => {
                proof {
                    lemma_credentials_sticks(at@, list, k + 1, list.len() as int);
                }
                return Err(e);
            },
        };
        assert(!note_keys(notes@).contains(c.key@)) by {
            if note_keys(notes@).contains(c.key@) {
                assert(held(note_keys(notes@)).contains(c.key@));
            }
        }
        let ghost old_notes = notes@;
        let ghost key = c.key@;
        let ghost fresh = c;
        insert_note(&mut notes, c);
        let ghost at_index = choose|a: int|
            0 <= a <= old_notes.len() && notes@ == old_notes.insert(a, fresh);
        proof {
            assert(keys_upto(list, k + 1) == earlier.push(key));
            earlier.lemma_push_to_set_commute(key);
            assert(note_keys(notes@) =~= note_keys(old_notes).insert(at_index, key));
            assert forall|t: Seq<char>|
                held(note_keys(notes@)).contains(t) <==> held(note_keys(old_notes)).insert(
                    key,
                ).contains(t) by {
                let now = note_keys(notes@);
                let was = note_keys(old_notes);
                if held(now).contains(t) {
                    let i = choose|i: int| 0 <= i < now.len() && now[i] == t;
                    if i < at_index {
                        assert(was[i] == t);
                        assert(held(was).contains(t));
                    } else if i > at_index {
                        assert(was[i - 1] == t);
                        assert(held(was).contains(t));
                    }
                }
                if held(was).contains(t) {
                    let i = choose|i: int| 0 <= i < was.len() && was[i] == t;
                    if i < at_index {
                        assert(now[i] == t);
                    } else {
                        assert(now[i + 1] == t);
                    }
                }
                if t == key {
                    assert(now[at_index] == t);
                }
            }
            assert(held(note_keys(notes@)) =~= held(keys_upto(list, k + 1)));
            assert forall|j: int| 0 <= j < k + 1 implies #[trigger] noted(notes@, list[j]) by {
                if j == k {
                    assert(notes@[at_index] == fresh);
                    assert(note_fits(notes@[at_index], list[k as int]));
                } else {
                    assert(noted(old_notes, list[j]));
                    let i = choose|i: int|
                        0 <= i < old_notes.len() && #[trigger] note_fits(old_notes[i], list[j]);
                    if i < at_index {
                        assert(notes@[i] == old_notes[i]);
                        assert(note_fits(notes@[i], list[j]));
                    } else {
                        assert(notes@[i + 1] == old_notes[i]);
                        assert(note_fits(notes@[i + 1], list[j]));
                    }
                }
            }
        }
        k = k + 1;
    }
    Ok(notes)
}

// ------------------------------------------------------------------------------------------------
// The declaration
// ------------------------------------------------------------------------------------------------

/// What refuses each entry of `documents`.
pub open spec fn document_errors(at: Seq<char>, raw: Seq<Json>, gates: Seq<Seq<char>>) -> Seq<
    Option<Seq<char>>,
> {
    raw.map_values(|e: Json| document_error(at, e, gates))
}

/// The names the entries of `documents` give their documents.
pub open spec fn doc_names(raw: Seq<Json>) -> Seq<Seq<char>> {
    raw.map_values(|e: Json| text_or_empty(doc_name(e)))
}

/// Whether `bindings` is refused: it is the chart's enrolment in the marker check, and is either
/// absent, null, or true or false.
pub open spec fn bindings_refused(v: Option<Json>) -> bool {
    match v {
        None => false,
        Some(Json::Null) => false,
        Some(Json::Bool(_)) => false,
        _ => true,
    }
}

/// Whether a value is a list.
pub open spec fn is_list(v: Option<Json>) -> bool {
    match v {
        Some(Json::Array(_)) => true,
        _ => false,
    }
}

/// What refuses a declaration, if anything, given the gates that exist: the first thing wrong
/// with it in reading order, named with the declaration's path `at`.
pub open spec fn declaration_error(at: Seq<char>, doc: Json, gates: Seq<Seq<char>>) -> Option<
    Seq<char>,
> {
    let raw = items_of(get_spec(doc, "documents"@));
    let unbound = items_of(get_spec(doc, "unbound"@));
    let credentials = items_of(get_spec(doc, "credentials"@));
    if !(doc is Object) {
        Some(at + ": expected a mapping at the top level"@)
    } else if strange_spec(at, seq![], doc, declaration_keys()) is Some {
        strange_spec(at, seq![], doc, declaration_keys())
    } else if !is_list(get_spec(doc, "documents"@)) {
        Some(at + ": `documents` is missing or not a list"@)
    } else if raw.len() == 0 && text_spec(get_spec(doc, "reason"@)) is None {
        Some(at + ": `documents` is empty, which is an explicit opt-out and needs a `reason`"@)
    } else if bindings_refused(get_spec(doc, "bindings"@)) {
        Some(
            at
                + ": `bindings` is the chart's enrolment in the marker check and must be true or false, not "@
                + shown_spec(get_spec(doc, "bindings"@)),
        )
    } else if first_error(document_errors(at, raw, gates)) is Some {
        first_error(document_errors(at, raw, gates))
    } else if unbound_error(at, unbound, doc_names(raw), unbound.len() as int) is Some {
        unbound_error(at, unbound, doc_names(raw), unbound.len() as int)
    } else {
        credentials_error(at, credentials, credentials.len() as int)
    }
}

/// Whether a declaration is what the parsed `config-contract.yaml` of chart `chart`, at `path`,
/// says.
pub open spec fn declaration_fits(d: Declaration, chart: Seq<char>, path: Seq<char>, doc: Json) -> bool {
    let raw = items_of(get_spec(doc, "documents"@));
    &&& d.chart@ == chart
    &&& d.path@ == path
    &&& d.documents@.len() == raw.len()
    &&& forall|k: int| 0 <= k < raw.len() ==> #[trigger] document_fits(d.documents@[k], raw[k])
    &&& opt_view(d.reason) == text_spec(get_spec(doc, "reason"@))
    &&& strs(d.unconfigured@) == strings_spec(get_spec(doc, "unconfigured"@))
    &&& d.bindings == (get_spec(doc, "bindings"@) == Some(Json::Bool(true)))
    &&& unbounds_fit(d.unbound@, items_of(get_spec(doc, "unbound"@)))
    &&& credentials_fit(d.credentials@, items_of(get_spec(doc, "credentials"@)))
}

/// Every document entry, in order, with the names the documents are given.
fn load_documents(at: &str, raw: &Vec<Json>, gates: &Vec<String>) -> (r: Result<
    (Vec<Document>, Vec<String>),
    Error,
>)
    ensures
        refused_as(r, first_error(document_errors(at@, raw@, strs(gates@)))),
        r matches Ok((documents, names)) ==> {
            &&& documents@.len() == raw@.len()
            &&& forall|k: int|
                0 <= k < raw@.len() ==> #[trigger] document_fits(documents@[k], raw@[k])
            &&& strs(names@) == doc_names(raw@)
        },
{
    let ghost errors = document_errors(at@, raw@, strs(gates@));
    let mut documents: Vec<Document> = Vec::new();
    let mut names: Vec<String> = Vec::new();
    let mut k: usize = 0;
    while k < raw.len()
        invariant
            k <= raw@.len(),
            errors == document_errors(at@, raw@, strs(gates@)),
            errors.len() == raw@.len(),
            forall|j: int| 0 <= j < k ==> #[trigger] errors[j] is None,
            documents@.len() == k,
            forall|j: int| 0 <= j < k ==> #[trigger] document_fits(documents@[j], raw@[j]),
            strs(names@) == doc_names(raw@).take(k as int),
        decreases raw.len() - k,
    {
        assert(errors[k as int] == document_error(at@, raw@[k as int], strs(gates@)));
        match load_document(at, &raw[k], gates) {
            Ok(document) => {
                let ghost before = names@;
                assert(strs(before).len() == k);
                names.push(document.name.clone());
                assert(doc_names(raw@)[k as int] == document.name@);
                assert forall|i: int| 0 <= i < k + 1 implies #[trigger] strs(names@)[i] == doc_names(
                    raw@,
                ).take(k + 1)[i] by {
                    if i < k {
                        assert(strs(before)[i] == doc_names(raw@).take(k as int)[i]);
                        assert(names@[i] == before[i]);
                    }
                }
                assert(strs(names@) =~= doc_names(raw@).take(k + 1));
                documents.push(document);
            },
            Err(e) => {
                proof {
                    lemma_first_error(errors, k as int);
                }
                return Err(e);
            },
        }
        k = k + 1;
    }
    proof {
        lemma_first_error(errors, k as int);
        assert(doc_names(raw@).take(raw@.len() as int) =~= doc_names(raw@));
    }
    Ok((documents, names))
}

/// Read one chart's declaration, once parsed: `chart` is the chart's directory name, `path` the
/// declaration's own path as messages name it, and `gates` the gates an exemption may name.
///
/// One with `documents: []` has opted out explicitly and must say why.
pub fn declaration_from(chart: &str, path: &str, document: &Json, gates: &Vec<String>) -> (r: Result<
    Declaration,
    Error,
>)
    ensures
        refused_as(r, declaration_error(path@, *document, strs(gates@))),
        r matches Ok(d) ==> declaration_fits(d, chart@, path@, *document),
{
    let at = path;
    match document {
        Json::Object(_) => {},
        _ => {
            return Err(Error::Invalid(at_msg(at, ": expected a mapping at the top level")));
        },
    }
    proof {
        reveal_strlit("");
    }
    reject_unknown(at, "", document, &top_keys())?;
    let raw = match document.get("documents") {
        Some(Json::Array(raw)) => raw,
        _ => {
            return Err(Error::Invalid(at_msg(at, ": `documents` is missing or not a list")));
        },
    };
    let reason = match field_str(document, "reason") {
        Some(reason) => Some(reason.clone()),
        None => None,
    };
    if raw.len() == 0 && reason.is_none() {
        return Err(
            Error::Invalid(
                at_msg(
                    at,
                    ": `documents` is empty, which is an explicit opt-out and needs a `reason`",
                ),
            ),
        );
    }
    let held_bindings = document.get("bindings");
    let bindings = match held_bindings {
        None => false,
        Some(Json::Null) => false,
        Some(Json::Bool(held)) => *held,
        Some(_) => {
            let mut message = crate::text::chars_of(at);
            push_str(
                &mut message,
                ": `bindings` is the chart's enrolment in the marker check and must be true or false, not ",
            );
            push_str(&mut message, crate::shown(held_bindings).as_str());
            return Err(Error::Invalid(string_of(&message)));
        },
    };
    let (documents, names) = load_documents(at, raw, gates)?;
    let unconfigured = strings(document.get("unconfigured"));
    let unbound = load_unbound(at, document.get("unbound"), &names)?;
    let credentials = load_credentials(at, document.get("credentials"))?;
    Ok(
        Declaration {
            chart: chart.to_owned(),
            path: path.to_owned(),
            documents,
            reason,
            unconfigured,
            bindings,
            unbound,
            credentials,
        },
    )
}

/// The gates an exemption may name: those a rendered chart is held to. A declaration naming
/// any other is refused.
pub fn known_gates() -> (v: Vec<String>)
    ensures
        strs(v@) == seq!["env"@, "closed"@],
{
    let v = vec!["env".to_owned(), "closed".to_owned()];
    assert(strs(v@) =~= seq!["env"@, "closed"@]);
    v
}

/// Read one chart's declaration, `None` when the chart has none: `document` is the parsed
/// `config-contract.yaml`, where the chart carries one.
///
/// A chart with no declaration is skipped rather than failed.
pub fn load_declaration(
    chart: &str,
    path: &str,
    document: Option<&Json>,
    gates: &Vec<String>,
) -> (r: Result<Option<Declaration>, Error>)
    ensures
        document is None ==> r matches Ok(None),
        document matches Some(d) ==> {
            &&& refused_as(r, declaration_error(path@, *d, strs(gates@)))
            &&& r matches Ok(found) ==> (found matches Some(found) && declaration_fits(
                found,
                chart@,
                path@,
                *d,
            ))
        },
{
    match document {
        None => Ok(None),
        Some(d) => match declaration_from(chart, path, d, gates) {
            Ok(found) => Ok(Some(found)),
            Err(e) => Err(e),
        },
    }
}

} // verus!
