//! The `@schema` block one contract key calls for, how a chart's declared departures change it,
//! and the comment lines a values file carries it as.
//!
//! Every object here is read and written as a sorted mapping: a schema's fields come out in key
//! order, and a value put into a mapping goes where its key sorts.

use vstd::prelude::*;

use crate::json::{
    json_string, lemma_fields_view, lemma_items_view, lemma_text_view, view_of, vtext, Json,
    JsonView,
};
use crate::markers::at_spec;
use crate::order::text_lt;
use crate::markers::Block;
use crate::shapes::{field_name_spec, quoted_spec, Added, Departure, Divergence, DivergenceView, EXCEPT_MARKER, NARROW_MARKER};
use crate::text::{chars, chars_of, push_str, string_of, strs};

verus! {

// ------------------------------------------------------------------------------------------------
// Reading a view
// ------------------------------------------------------------------------------------------------

/// The index of the first field named `name` from `i` on, or the number of fields.
pub open spec fn vfind(fields: Seq<(Seq<char>, JsonView)>, name: Seq<char>, i: int) -> int
    decreases fields.len() - i,
{
    if i < 0 || i >= fields.len() {
        fields.len() as int
    } else if fields[i].0 == name {
        i
    } else {
        vfind(fields, name, i + 1)
    }
}

/// The value of the first field named `name`.
pub open spec fn vget(fields: Seq<(Seq<char>, JsonView)>, name: Seq<char>) -> Option<JsonView> {
    let k = vfind(fields, name, 0);
    if 0 <= k < fields.len() {
        Some(fields[k].1)
    } else {
        None
    }
}

/// An object view's fields, or none for anything else.
pub open spec fn fields_of(v: Option<JsonView>) -> Seq<(Seq<char>, JsonView)> {
    match v {
        Some(JsonView::Object(f)) => f,
        _ => seq![],
    }
}

/// The view of an object's fields.
pub open spec fn fview(fields: Seq<(String, Json)>) -> Seq<(Seq<char>, JsonView)> {
    crate::json::fields_view(fields, fields.len() as nat)
}

pub proof fn lemma_vfind(fields: Seq<(Seq<char>, JsonView)>, name: Seq<char>, i: int)
    requires
        0 <= i <= fields.len(),
    ensures
        i <= vfind(fields, name, i) <= fields.len(),
        vfind(fields, name, i) < fields.len() ==> fields[vfind(fields, name, i)].0 == name,
        forall|j: int| i <= j < vfind(fields, name, i) ==> fields[j].0 != name,
    decreases fields.len() - i,
{
    if i < fields.len() && fields[i].0 != name {
        lemma_vfind(fields, name, i + 1);
    }
}

/// The index of the first field named `name`, as the view reads it.
pub fn position(fields: &Vec<(String, Json)>, name: &str) -> (k: usize)
    ensures
        k as int == vfind(fview(fields@), name@, 0),
        k <= fields@.len(),
{
    proof {
        lemma_fields_view(fields@, fields@.len() as nat);
    }
    let want = name.to_owned();
    let mut k: usize = 0;
    while k < fields.len()
        invariant
            k <= fields@.len(),
            want@ == name@,
            fview(fields@).len() == fields@.len(),
            forall|i: int| 0 <= i < fields@.len() ==> #[trigger] fview(fields@)[i] == (
                fields@[i].0@,
                view_of(fields@[i].1),
            ),
            vfind(fview(fields@), name@, 0) == vfind(fview(fields@), name@, k as int),
        decreases fields.len() - k,
    {
        if fields[k].0 == want {
            assert(fview(fields@)[k as int].0 == name@);
            return k;
        }
        assert(fview(fields@)[k as int].0 != name@);
        k = k + 1;
    }
    k
}

// ------------------------------------------------------------------------------------------------
// Copying a subschema
// ------------------------------------------------------------------------------------------------

/// Whether a keyword says something to a reader and asserts nothing about a value.
pub open spec fn is_annotation_spec(name: Seq<char>) -> bool {
    name == "description"@ || name == "title"@ || name == "default"@ || name == "examples"@
        || name == "$comment"@
}

/// One subschema, with every annotation dropped at every level.
pub open spec fn copy_spec(v: JsonView) -> JsonView
    decreases v, 1nat,
{
    match v {
        JsonView::Object(fields) => JsonView::Object(copy_fields(fields, fields.len())),
        JsonView::Array(items) => JsonView::Array(copy_items(items, items.len())),
        other => other,
    }
}

/// The first `n` fields of a subschema, annotations dropped and each copied as its keyword holds.
pub open spec fn copy_fields(fields: Seq<(Seq<char>, JsonView)>, n: nat) -> Seq<(Seq<char>, JsonView)>
    decreases fields, n,
{
    if n == 0 || n > fields.len() {
        seq![]
    } else {
        let rest = copy_fields(fields, (n - 1) as nat);
        let f = fields[n - 1];
        if is_annotation_spec(f.0) {
            rest
        } else {
            rest.push((f.0, copy_keyword_spec(f.0, f.1)))
        }
    }
}

/// The first `n` items of an array, each copied.
pub open spec fn copy_items(items: Seq<JsonView>, n: nat) -> Seq<JsonView>
    decreases items, n,
{
    if n == 0 || n > items.len() {
        seq![]
    } else {
        copy_items(items, (n - 1) as nat).push(copy_spec(items[n - 1]))
    }
}

/// The first `n` fields of a `properties` mapping: field names kept, each subschema copied.
pub open spec fn copy_properties(fields: Seq<(Seq<char>, JsonView)>, n: nat) -> Seq<
    (Seq<char>, JsonView),
>
    decreases fields, n,
{
    if n == 0 || n > fields.len() {
        seq![]
    } else {
        copy_properties(fields, (n - 1) as nat).push((fields[n - 1].0, copy_spec(fields[n - 1].1)))
    }
}

/// One keyword's value, copied as the thing that keyword holds: `properties` maps field names,
/// which are not keywords, to subschemas.
pub open spec fn copy_keyword_spec(keyword: Seq<char>, v: JsonView) -> JsonView
    decreases v, 2nat,
{
    match v {
        JsonView::Object(fields) => if keyword == "properties"@ {
            JsonView::Object(copy_properties(fields, fields.len()))
        } else {
            copy_spec(v)
        },
        _ => copy_spec(v),
    }
}

/// Whether a keyword is an annotation.
fn is_annotation(name: &String) -> (b: bool)
    ensures
        b == is_annotation_spec(name@),
{
    let held = chars(name);
    crate::text::same(&held, &chars_of("description")) || crate::text::same(
        &held,
        &chars_of("title"),
    ) || crate::text::same(&held, &chars_of("default")) || crate::text::same(
        &held,
        &chars_of("examples"),
    ) || crate::text::same(&held, &chars_of("$comment"))
}

/// One subschema, with every annotation dropped at every level.
///
/// `format` is kept: it is the one annotation a validator acts on. Everything else is copied
/// rather than translated — a constraint is JSON Schema and so is an `@schema` block.
pub fn copy(v: &Json) -> (c: Json)
    ensures
        view_of(c) == copy_spec(view_of(*v)),
    decreases v, 1nat,
{
    match v {
        Json::Object(fields) => {
            proof {
                lemma_fields_view(fields@, fields@.len() as nat);
            }
            let ghost fv = fview(fields@);
            let mut out: Vec<(String, Json)> = Vec::new();
            let mut k: usize = 0;
            while k < fields.len()
                invariant
                    k <= fields@.len(),
                    *v == Json::Object(*fields),
                    fv == fview(fields@),
                    fv.len() == fields@.len(),
                    forall|i: int| 0 <= i < fields@.len() ==> #[trigger] fv[i] == (
                        fields@[i].0@,
                        view_of(fields@[i].1),
                    ),
                    fview(out@) == copy_fields(fv, k as nat),
                decreases fields.len() - k,
            {
                if !is_annotation(&fields[k].0) {
                    proof {
                        assert(decreases_to!(*v => (*v)->Object_0));
                        assert(decreases_to!(*fields => fields@));
                        assert(decreases_to!(fields@ => fields@[k as int]));
                        assert(decreases_to!(fields@[k as int] => fields@[k as int].1));
                    }
                    let inner = copy_keyword(&fields[k].0, &fields[k].1);
                    let ghost before = out@;
                    out.push((fields[k].0.clone(), inner));
                    proof {
                        lemma_fields_view(out@, out@.len() as nat);
                        lemma_fields_view(before, before.len() as nat);
                        assert(fview(out@) =~= fview(before).push((fields@[k as int].0@, view_of(inner))));
                    }
                }
                k = k + 1;
            }
            Json::Object(out)
        },
        Json::Array(items) => {
            proof {
                lemma_items_view(items@, items@.len() as nat);
            }
            let ghost iv = crate::json::items_view(items@, items@.len() as nat);
            let mut out: Vec<Json> = Vec::new();
            let mut k: usize = 0;
            while k < items.len()
                invariant
                    k <= items@.len(),
                    *v == Json::Array(*items),
                    iv == crate::json::items_view(items@, items@.len() as nat),
                    iv.len() == items@.len(),
                    forall|i: int| 0 <= i < items@.len() ==> #[trigger] iv[i] == view_of(items@[i]),
                    crate::json::items_view(out@, out@.len() as nat) == copy_items(iv, k as nat),
                    out@.len() == k,
                decreases items.len() - k,
            {
                proof {
                    assert(decreases_to!(*v => (*v)->Array_0));
                    assert(decreases_to!(*items => items@));
                    assert(decreases_to!(items@ => items@[k as int]));
                }
                let inner = copy(&items[k]);
                let ghost before = out@;
                out.push(inner);
                proof {
                    lemma_items_view(out@, out@.len() as nat);
                    lemma_items_view(before, before.len() as nat);
                    assert(crate::json::items_view(out@, out@.len() as nat) =~= crate::json::items_view(
                        before,
                        before.len() as nat,
                    ).push(view_of(inner)));
                }
                k = k + 1;
            }
            Json::Array(out)
        },
        other => other.copy(),
    }
}

/// One keyword's value, copied as the thing that keyword holds.
///
/// `properties` is the only container keyword whose value maps *names* to schemas, so it is the
/// one place a key must not be read as a keyword: a struct with a field called `description` is
/// an ordinary struct.
pub fn copy_keyword(keyword: &String, v: &Json) -> (c: Json)
    ensures
        view_of(c) == copy_keyword_spec(keyword@, view_of(*v)),
    decreases v, 2nat,
{
    let properties = crate::text::same(&chars(keyword), &chars_of("properties"));
    match v {
        Json::Object(fields) => {
            if !properties {
                return copy(v);
            }
            proof {
                lemma_fields_view(fields@, fields@.len() as nat);
            }
            let ghost fv = fview(fields@);
            let mut out: Vec<(String, Json)> = Vec::new();
            let mut k: usize = 0;
            while k < fields.len()
                invariant
                    k <= fields@.len(),
                    *v == Json::Object(*fields),
                    fv == fview(fields@),
                    fv.len() == fields@.len(),
                    forall|i: int| 0 <= i < fields@.len() ==> #[trigger] fv[i] == (
                        fields@[i].0@,
                        view_of(fields@[i].1),
                    ),
                    fview(out@) == copy_properties(fv, k as nat),
                decreases fields.len() - k,
            {
                proof {
                    assert(decreases_to!(*v => (*v)->Object_0));
                    assert(decreases_to!(*fields => fields@));
                    assert(decreases_to!(fields@ => fields@[k as int]));
                    assert(decreases_to!(fields@[k as int] => fields@[k as int].1));
                }
                let inner = copy(&fields[k].1);
                let ghost before = out@;
                out.push((fields[k].0.clone(), inner));
                proof {
                    lemma_fields_view(out@, out@.len() as nat);
                    lemma_fields_view(before, before.len() as nat);
                    assert(fview(out@) =~= fview(before).push((fields@[k as int].0@, view_of(inner))));
                }
                k = k + 1;
            }
            Json::Object(out)
        },
        _ => copy(v),
    }
}

// ------------------------------------------------------------------------------------------------
// The schema a constraint calls for
// ------------------------------------------------------------------------------------------------

/// A value held by reference, as a view.
pub open spec fn opt_view(o: Option<&Json>) -> Option<JsonView> {
    match o {
        Some(j) => Some(view_of(*j)),
        None => None,
    }
}

/// Whether a constraint says anything a schema could hold a value to: a `type`, an `enum` or a
/// `const`.
pub open spec fn describing_spec(c: Option<JsonView>) -> bool {
    match c {
        Some(JsonView::Object(f)) => vget(f, "type"@) is Some || vget(f, "enum"@) is Some || vget(
            f,
            "const"@,
        ) is Some,
        _ => false,
    }
}

/// Whether a value is an object with at least one field.
pub open spec fn nonempty_object(v: Option<JsonView>) -> bool {
    match v {
        Some(JsonView::Object(f)) => f.len() > 0,
        _ => false,
    }
}

/// What one element of a container-typed key holds: a non-empty `items`, else a non-empty
/// `additionalProperties`; `true` and `false` are flags rather than element descriptions.
pub open spec fn element_spec(c: Option<JsonView>) -> Option<JsonView> {
    match c {
        Some(JsonView::Object(f)) => if nonempty_object(vget(f, "items"@)) {
            vget(f, "items"@)
        } else if nonempty_object(vget(f, "additionalProperties"@)) {
            vget(f, "additionalProperties"@)
        } else {
            None
        },
        _ => None,
    }
}

/// One JSON scalar as the name a `type` keyword spells it with.
pub open spec fn scalar_name_spec(v: JsonView) -> Seq<char> {
    match v {
        JsonView::Str(s) => s,
        other => vtext(other),
    }
}

/// The names among the first `n` members of a `type` list, `null` members left out.
pub open spec fn named_types(names: Seq<JsonView>, n: nat) -> Seq<Seq<char>>
    decreases n,
{
    if n == 0 || n > names.len() {
        seq![]
    } else {
        let rest = named_types(names, (n - 1) as nat);
        if names[n - 1] == JsonView::Null {
            rest
        } else {
            rest.push(scalar_name_spec(names[n - 1]))
        }
    }
}

/// The type names a `type` keyword declares.
pub open spec fn type_names(t: Option<JsonView>) -> Seq<Seq<char>> {
    match t {
        Some(JsonView::Array(names)) => named_types(names, names.len()),
        Some(JsonView::Null) => seq![],
        None => seq![],
        Some(single) => seq![scalar_name_spec(single)],
    }
}

/// Every JSON type, for a constraint that names none.
pub open spec fn every_type() -> Seq<Seq<char>> {
    seq!["string"@, "integer"@, "boolean"@, "array"@, "object"@, "null"@]
}

/// Whether a `structured` key is opened as a table: its constraint names no type or `object`,
/// and carries no `items`.
pub open spec fn opened(c: Option<JsonView>, structured: bool) -> bool {
    let types = type_names(vget(fields_of(c), "type"@));
    structured && (types.len() == 0 || types.contains("object"@)) && vget(fields_of(c), "items"@) is None
}

/// The types the generated block declares.
pub open spec fn declared_types(c: Option<JsonView>, optional: bool, structured: bool) -> Seq<Seq<char>> {
    let named = if opened(c, structured) {
        seq!["object"@]
    } else {
        type_names(vget(fields_of(c), "type"@))
    };
    let some = if named.len() == 0 {
        every_type()
    } else {
        named
    };
    if optional && !some.contains("null"@) {
        some.push("null"@)
    } else {
        some
    }
}

/// The `type` keyword's value: one name, or the list of them.
pub open spec fn type_value(types: Seq<Seq<char>>) -> JsonView {
    if types.len() == 1 {
        JsonView::Str(types[0])
    } else {
        JsonView::Array(types.map_values(|t: Seq<char>| JsonView::Str(t)))
    }
}

/// The keywords a generated block can hold beside `enum`, in the order a sorted mapping holds them.
pub open spec fn sorted_keywords() -> Seq<Seq<char>> {
    seq![
        "additionalProperties"@,
        "const"@,
        "exclusiveMaximum"@,
        "exclusiveMinimum"@,
        "format"@,
        "items"@,
        "maxItems"@,
        "maxLength"@,
        "maximum"@,
        "minItems"@,
        "minLength"@,
        "minimum"@,
        "multipleOf"@,
        "pattern"@,
        "properties"@,
        "required"@,
        "type"@,
        "uniqueItems"@,
    ]
}

/// What the generated block holds under the keyword at index `i` of `sorted_keywords`: the
/// types under `type` (index 16); for a table, the element schema under `additionalProperties`
/// (index 0) and the published `properties` and `required` (indices 14 and 15); for any other
/// key, whatever the constraint holds under the keyword.
pub open spec fn expected_entry(c: Option<JsonView>, optional: bool, structured: bool, i: int) -> Option<
    JsonView,
> {
    let held = fields_of(c);
    let key = sorted_keywords()[i];
    if i == 16 {
        Some(type_value(declared_types(c, optional, structured)))
    } else if opened(c, structured) {
        if i == 0 {
            Some(
                match element_spec(c) {
                    Some(e) => copy_spec(e),
                    None => JsonView::Bool(true),
                },
            )
        } else if i == 14 || i == 15 {
            match vget(held, key) {
                Some(v) => Some(copy_keyword_spec(key, v)),
                None => None,
            }
        } else {
            None
        }
    } else {
        match vget(held, key) {
            Some(v) => Some(copy_keyword_spec(key, v)),
            None => None,
        }
    }
}

/// The generated block's fields under the keywords of `sorted_keywords` from index `i` on.
pub open spec fn expected_fields(c: Option<JsonView>, optional: bool, structured: bool, i: int) -> Seq<
    (Seq<char>, JsonView),
>
    decreases 18 - i,
{
    if i < 0 || i >= 18 {
        seq![]
    } else {
        let key = sorted_keywords()[i];
        let rest = expected_fields(c, optional, structured, i + 1);
        match expected_entry(c, optional, structured, i) {
            Some(v) => seq![(key, v)] + rest,
            None => rest,
        }
    }
}

/// The `@schema` mapping one contract key's constraint calls for.
///
/// An `enum` is the whole block, with `null` joining its members where the value is optional.
/// Otherwise the block declares the constraint's types, or every type where it names none, with
/// `null` added for an optional value; a `structured` key that names no type or `object`, and no
/// `items`, is a table: its published `required` and `properties` come across and its
/// `additionalProperties` is the element schema, or `true` where none is described. Any other
/// key's keywords are copied with their annotations dropped.
pub open spec fn expected_spec(c: Option<JsonView>, optional: bool, structured: bool) -> JsonView {
    match vget(fields_of(c), "enum"@) {
        Some(JsonView::Array(members)) => JsonView::Object(
            seq![
                (
                    "enum"@,
                    JsonView::Array(
                        if optional && !members.contains(JsonView::Null) {
                            members.push(JsonView::Null)
                        } else {
                            members
                        },
                    ),
                ),
            ],
        ),
        _ => JsonView::Object(expected_fields(c, optional, structured, 0)),
    }
}

/// Whether a generated block names a keyword.
pub open spec fn names_keyword(block: JsonView, key: Seq<char>) -> bool {
    match block {
        JsonView::Object(f) => exists|j: int| 0 <= j < f.len() && #[trigger] f[j].0 == key,
        _ => false,
    }
}

/// Whether a generated block lets a value be `null`: `null` among its `enum` members, or among
/// its types.
pub open spec fn admits_null(block: JsonView) -> bool {
    match block {
        JsonView::Object(f) => exists|j: int|
            0 <= j < f.len() && {
                let (k, v) = #[trigger] f[j];
                ||| k == "enum"@ && (v matches JsonView::Array(m) && m.contains(JsonView::Null))
                ||| k == "type"@ && (v == JsonView::Str("null"@) || (v matches JsonView::Array(ts)
                    && ts.contains(JsonView::Str("null"@))))
            },
        _ => false,
    }
}

/// Every keyword a generated block's fields carry, from index `i` on, is one of the sorted
/// keywords at or after `i`.
proof fn lemma_fields_keys(c: Option<JsonView>, optional: bool, structured: bool, i: int)
    requires
        0 <= i,
    ensures
        forall|j: int| 0 <= j < expected_fields(c, optional, structured, i).len() ==> exists|k: int|
            i <= k < 18 && #[trigger] expected_fields(c, optional, structured, i)[j].0 == sorted_keywords()[k],
    decreases 18 - i,
{
    if i < 18 {
        lemma_fields_keys(c, optional, structured, i + 1);
        let rest = expected_fields(c, optional, structured, i + 1);
        let all = expected_fields(c, optional, structured, i);
        assert forall|j: int| 0 <= j < all.len() implies exists|k: int|
            i <= k < 18 && #[trigger] all[j].0 == sorted_keywords()[k] by {
            match expected_entry(c, optional, structured, i) {
                Some(v) => {
                    if j == 0 {
                        assert(all[j].0 == sorted_keywords()[i]);
                    } else {
                        assert(all[j] == rest[j - 1]);
                        let k = choose|k: int| i + 1 <= k < 18 && #[trigger] rest[j - 1].0 == sorted_keywords()[k];
                        assert(all[j].0 == sorted_keywords()[k]);
                    }
                },
                None => {
                    let k = choose|k: int| i + 1 <= k < 18 && #[trigger] rest[j].0 == sorted_keywords()[k];
                    assert(all[j].0 == sorted_keywords()[k]);
                },
            }
        }
    }
}

/// A generated block's fields from index `i` on, for `i` at most that of `type`, carry the
/// declared types under `type`.
proof fn lemma_fields_type(c: Option<JsonView>, optional: bool, structured: bool, i: int)
    requires
        0 <= i <= 16,
    ensures
        expected_fields(c, optional, structured, i).contains(
            ("type"@, type_value(declared_types(c, optional, structured))),
        ),
    decreases 16 - i,
{
    let all = expected_fields(c, optional, structured, i);
    let want = ("type"@, type_value(declared_types(c, optional, structured)));
    if i == 16 {
        assert(sorted_keywords()[16] == "type"@);
        assert(all[0] == want);
    } else {
        lemma_fields_type(c, optional, structured, i + 1);
        let rest = expected_fields(c, optional, structured, i + 1);
        let j = choose|j: int| 0 <= j < rest.len() && rest[j] == want;
        match expected_entry(c, optional, structured, i) {
            Some(v) => {
                assert(all[j + 1] == rest[j]);
            },
            None => {
                assert(all[j] == rest[j]);
            },
        }
    }
}

/// The block one contract key's constraint calls for is a mapping that never carries `enum`
/// beside `type`, and that lets an optional value be `null`.
pub proof fn lemma_expected_shape(c: Option<JsonView>, optional: bool, structured: bool)
    ensures
        expected_spec(c, optional, structured) is Object,
        !(names_keyword(expected_spec(c, optional, structured), "enum"@) && names_keyword(
            expected_spec(c, optional, structured),
            "type"@,
        )),
        optional ==> admits_null(expected_spec(c, optional, structured)),
{
    reveal_strlit("enum");
    reveal_strlit("type");
    reveal_strlit("null");
    reveal_strlit("additionalProperties");
    reveal_strlit("const");
    reveal_strlit("exclusiveMaximum");
    reveal_strlit("exclusiveMinimum");
    reveal_strlit("format");
    reveal_strlit("items");
    reveal_strlit("maxItems");
    reveal_strlit("maxLength");
    reveal_strlit("maximum");
    reveal_strlit("minItems");
    reveal_strlit("minLength");
    reveal_strlit("minimum");
    reveal_strlit("multipleOf");
    reveal_strlit("pattern");
    reveal_strlit("properties");
    reveal_strlit("required");
    reveal_strlit("uniqueItems");
    let block = expected_spec(c, optional, structured);
    match vget(fields_of(c), "enum"@) {
        Some(JsonView::Array(members)) => {
            let f = seq![
                (
                    "enum"@,
                    JsonView::Array(
                        if optional && !members.contains(JsonView::Null) {
                            members.push(JsonView::Null)
                        } else {
                            members
                        },
                    ),
                ),
            ];
            assert(block == JsonView::Object(f));
            if names_keyword(block, "type"@) {
                let j = choose|j: int| 0 <= j < f.len() && #[trigger] f[j].0 == "type"@;
                assert(f[j].0 == "enum"@);
                assert("enum"@[0] != "type"@[0]);
            }
            if optional {
                let m = f[0].1->Array_0;
                if !members.contains(JsonView::Null) {
                    assert(m[members.len() as int] == JsonView::Null);
                }
                assert(m.contains(JsonView::Null));
            }
        },
        _ => {
            let f = expected_fields(c, optional, structured, 0);
            assert(block == JsonView::Object(f));
            lemma_fields_keys(c, optional, structured, 0);
            let ks = sorted_keywords();
            assert forall|k: int| 0 <= k < 18 implies #[trigger] ks[k] != "enum"@ by {
                assert(ks[k].len() != 4 || ks[k][0] != 'e');
            }
            if names_keyword(block, "enum"@) {
                let j = choose|j: int| 0 <= j < f.len() && #[trigger] f[j].0 == "enum"@;
                let k = choose|k: int| 0 <= k < 18 && #[trigger] f[j].0 == sorted_keywords()[k];
                assert(ks[k] != "enum"@);
            }
            if optional {
                lemma_fields_type(c, optional, structured, 0);
                let types = declared_types(c, optional, structured);
                let want = ("type"@, type_value(types));
                let j = choose|j: int| 0 <= j < f.len() && f[j] == want;
                assert(types.contains("null"@)) by {
                    let named = if opened(c, structured) {
                        seq!["object"@]
                    } else {
                        type_names(vget(fields_of(c), "type"@))
                    };
                    let some = if named.len() == 0 {
                        every_type()
                    } else {
                        named
                    };
                    if !some.contains("null"@) {
                        assert(types[some.len() as int] == "null"@);
                    }
                }
                let q = choose|q: int| 0 <= q < types.len() && types[q] == "null"@;
                if types.len() != 1 {
                    let ts = types.map_values(|t: Seq<char>| JsonView::Str(t));
                    assert(ts[q] == JsonView::Str("null"@));
                    assert(ts.contains(JsonView::Str("null"@)));
                }
                let (k, v) = f[j];
                assert(k == "type"@);
            }
        },
    }
}

/// The keyword at index `i` of `sorted_keywords`.
fn sorted_keyword(i: usize) -> (s: &'static str)
    requires
        i < 18,
    ensures
        s@ == sorted_keywords()[i as int],
{
    match i {
        0 => "additionalProperties",
        1 => "const",
        2 => "exclusiveMaximum",
        3 => "exclusiveMinimum",
        4 => "format",
        5 => "items",
        6 => "maxItems",
        7 => "maxLength",
        8 => "maximum",
        9 => "minItems",
        10 => "minLength",
        11 => "minimum",
        12 => "multipleOf",
        13 => "pattern",
        14 => "properties",
        15 => "required",
        16 => "type",
        _ => "uniqueItems",
    }
}

/// An object's fields, or none for anything else.
fn fields_in<'a>(c: Option<&'a Json>, empty: &'a Vec<(String, Json)>) -> (f: &'a Vec<(String, Json)>)
    requires
        empty@.len() == 0,
    ensures
        fview(f@) == fields_of(opt_view(c)),
{
    proof {
        lemma_fields_view(empty@, 0);
    }
    match c {
        Some(Json::Object(f)) => f,
        _ => {
            assert(fview(empty@) =~= Seq::<(Seq<char>, JsonView)>::empty());
            empty
        },
    }
}

/// The value of a field by name, as a view reads it.
fn field<'a>(fields: &'a Vec<(String, Json)>, name: &str) -> (r: Option<&'a Json>)
    ensures
        opt_view(r) == vget(fview(fields@), name@),
{
    proof {
        lemma_fields_view(fields@, fields@.len() as nat);
    }
    let k = position(fields, name);
    if k < fields.len() {
        Some(&fields[k].1)
    } else {
        None
    }
}

/// Whether a value is an object with at least one field.
fn is_nonempty_object(v: Option<&Json>) -> (b: bool)
    ensures
        b == nonempty_object(opt_view(v)),
{
    match v {
        Some(Json::Object(f)) => {
            proof {
                lemma_fields_view(f@, f@.len() as nat);
            }
            f.len() > 0
        },
        _ => false,
    }
}

/// Whether a constraint says anything a schema could hold a value to.
///
/// A key the producer publishes no constraint for would leave `expected` with a block naming all
/// six JSON types, which nothing rejects; the generator refuses such a key instead.
pub fn describing(constraint: Option<&Json>) -> (b: bool)
    ensures
        b == describing_spec(opt_view(constraint)),
{
    match constraint {
        Some(Json::Object(f)) => field(f, "type").is_some() || field(f, "enum").is_some() || field(
            f,
            "const",
        ).is_some(),
        _ => false,
    }
}

/// What one element of a container-typed key holds, or `None` when the contract does not say.
pub fn element_schema(constraint: Option<&Json>) -> (r: Option<&Json>)
    ensures
        opt_view(r) == element_spec(opt_view(constraint)),
{
    match constraint {
        Some(Json::Object(f)) => {
            let items = field(f, "items");
            if is_nonempty_object(items) {
                return items;
            }
            let additional = field(f, "additionalProperties");
            if is_nonempty_object(additional) {
                return additional;
            }
            None
        },
        _ => None,
    }
}

/// Whether the contract says what one element of a container-typed key holds.
pub fn describes_element(constraint: Option<&Json>) -> (b: bool)
    ensures
        b == (element_spec(opt_view(constraint)) is Some),
{
    element_schema(constraint).is_some()
}

/// One JSON scalar as the name a `type` keyword spells it with.
pub fn scalar_name(v: &Json) -> (s: String)
    ensures
        s@ == scalar_name_spec(view_of(*v)),
{
    match v {
        Json::Str(t) => t.clone(),
        other => {
            proof {
                lemma_text_view(*other);
            }
            other.to_json()
        },
    }
}

/// The type names a `type` keyword declares.
fn types_of(t: Option<&Json>) -> (r: Vec<String>)
    ensures
        crate::text::strs(r@) == type_names(opt_view(t)),
{
    let mut out: Vec<String> = Vec::new();
    match t {
        Some(Json::Array(names)) => {
            proof {
                lemma_items_view(names@, names@.len() as nat);
            }
            let ghost nv = crate::json::items_view(names@, names@.len() as nat);
            let mut k: usize = 0;
            while k < names.len()
                invariant
                    k <= names@.len(),
                    nv == crate::json::items_view(names@, names@.len() as nat),
                    nv.len() == names@.len(),
                    forall|i: int| 0 <= i < names@.len() ==> #[trigger] nv[i] == view_of(names@[i]),
                    crate::text::strs(out@) == named_types(nv, k as nat),
                decreases names.len() - k,
            {
                match &names[k] {
                    Json::Null => {},
                    other => {
                        let name = scalar_name(other);
                        let ghost before = crate::text::strs(out@);
                        out.push(name);
                        assert(crate::text::strs(out@) =~= before.push(name@));
                    },
                }
                k = k + 1;
            }
            out
        },
        Some(Json::Null) => out,
        None => out,
        Some(single) => {
            let name = scalar_name(single);
            out.push(name);
            assert(crate::text::strs(out@) =~= seq![name@]);
            out
        },
    }
}

/// Whether a list of texts holds one.
fn has_text(list: &Vec<String>, text: &str) -> (b: bool)
    ensures
        b == crate::text::strs(list@).contains(text@),
{
    let want = text.to_owned();
    let mut k: usize = 0;
    while k < list.len()
        invariant
            k <= list@.len(),
            want@ == text@,
            forall|j: int| 0 <= j < k ==> crate::text::strs(list@)[j] != text@,
        decreases list.len() - k,
    {
        if list[k] == want {
            assert(crate::text::strs(list@)[k as int] == text@);
            return true;
        }
        k = k + 1;
    }
    false
}

/// A field, as a sorted mapping's one-field object.
fn pair(name: &str, value: Json) -> (f: (String, Json))
    ensures
        f.0@ == name@,
        f.1 == value,
{
    (name.to_owned(), value)
}

/// The `@schema` mapping one contract key's constraint calls for.
///
/// An `enum` is the whole block: a generator refuses one carrying both `enum` and `type`. A
/// `structured` key whose element is undescribed is opened rather than described, one whose
/// element is described takes the description, and one whose constraint names an array is
/// neither. A constraint that names no type accepts every JSON type, and an optional value
/// accepts `null`.
pub fn expected(constraint: Option<&Json>, optional: bool, structured: bool) -> (j: Json)
    ensures
        view_of(j) == expected_spec(opt_view(constraint), optional, structured),
{
    let ghost c = opt_view(constraint);
    let empty: Vec<(String, Json)> = Vec::new();
    let held = fields_in(constraint, &empty);
    match field(held, "enum") {
        Some(Json::Array(members)) => {
            proof {
                lemma_items_view(members@, members@.len() as nat);
            }
            let ghost mv = crate::json::items_view(members@, members@.len() as nat);
            let mut out: Vec<Json> = Vec::new();
            let mut has_null = false;
            let mut k: usize = 0;
            while k < members.len()
                invariant
                    k <= members@.len(),
                    mv == crate::json::items_view(members@, members@.len() as nat),
                    mv.len() == members@.len(),
                    forall|i: int| 0 <= i < members@.len() ==> #[trigger] mv[i] == view_of(members@[i]),
                    out@.len() == k,
                    forall|i: int| 0 <= i < k ==> view_of(#[trigger] out@[i]) == mv[i],
                    has_null == mv.take(k as int).contains(JsonView::Null),
                decreases members.len() - k,
            {
                let one = members[k].copy();
                let null_here = match &members[k] {
                    Json::Null => true,
                    _ => false,
                };
                assert(mv.take(k + 1) =~= mv.take(k as int).push(mv[k as int]));
                assert(null_here == (mv[k as int] == JsonView::Null));
                assert(mv.take(k + 1).contains(JsonView::Null) == (mv.take(k as int).contains(
                    JsonView::Null,
                ) || mv[k as int] == JsonView::Null)) by {
                    let t = mv.take(k + 1);
                    if mv.take(k as int).contains(JsonView::Null) {
                        let j = choose|j: int| 0 <= j < k && mv.take(k as int)[j] == JsonView::Null;
                        assert(t[j] == JsonView::Null);
                    }
                    if mv[k as int] == JsonView::Null {
                        assert(t[k as int] == JsonView::Null);
                    }
                    if t.contains(JsonView::Null) {
                        let j = choose|j: int| 0 <= j < t.len() && t[j] == JsonView::Null;
                        if j < k {
                            assert(mv.take(k as int)[j] == JsonView::Null);
                        }
                    }
                }
                has_null = has_null || null_here;
                out.push(one);
                k = k + 1;
            }
            assert(mv.take(members@.len() as int) =~= mv);
            if optional && !has_null {
                out.push(Json::Null);
            }
            proof {
                lemma_items_view(out@, out@.len() as nat);
                let want = if optional && !mv.contains(JsonView::Null) {
                    mv.push(JsonView::Null)
                } else {
                    mv
                };
                assert(crate::json::items_view(out@, out@.len() as nat) =~= want);
            }
            let fields: Vec<(String, Json)> = vec![pair("enum", Json::Array(out))];
            proof {
                lemma_fields_view(fields@, fields@.len() as nat);
                assert(fview(fields@) =~= seq![("enum"@, view_of(fields@[0].1))]);
            }
            Json::Object(fields)
        },
        _ => {
            let named = types_of(field(held, "type"));
            let is_opened = structured && (named.len() == 0 || has_text(&named, "object"))
                && field(held, "items").is_none();
            assert(is_opened == opened(c, structured));
            let mut types: Vec<String> = if is_opened {
                let mut t: Vec<String> = Vec::new();
                t.push("object".to_owned());
                assert(crate::text::strs(t@) =~= seq!["object"@]);
                t
            } else {
                named
            };
            if types.len() == 0 {
                types = vec![
                    "string".to_owned(),
                    "integer".to_owned(),
                    "boolean".to_owned(),
                    "array".to_owned(),
                    "object".to_owned(),
                    "null".to_owned(),
                ];
                assert(crate::text::strs(types@) =~= every_type());
            }
            if optional && !has_text(&types, "null") {
                let ghost before = crate::text::strs(types@);
                types.push("null".to_owned());
                assert(crate::text::strs(types@) =~= before.push("null"@));
            }
            assert(crate::text::strs(types@) == declared_types(c, optional, structured));
            let type_json = if types.len() == 1 {
                Json::Str(types[0].clone())
            } else {
                let mut names: Vec<Json> = Vec::new();
                let mut k: usize = 0;
                while k < types.len()
                    invariant
                        k <= types@.len(),
                        names@.len() == k,
                        forall|i: int| 0 <= i < k ==> view_of(#[trigger] names@[i]) == JsonView::Str(
                            types@[i]@,
                        ),
                    decreases types.len() - k,
                {
                    names.push(Json::Str(types[k].clone()));
                    k = k + 1;
                }
                proof {
                    lemma_items_view(names@, names@.len() as nat);
                    assert(crate::json::items_view(names@, names@.len() as nat) =~= crate::text::strs(
                        types@,
                    ).map_values(|t: Seq<char>| JsonView::Str(t)));
                }
                Json::Array(names)
            };
            assert(view_of(type_json) == type_value(declared_types(c, optional, structured)));
            let element = element_schema(constraint);
            let mut out: Vec<(String, Json)> = Vec::new();
            let mut i: usize = 0;
            while i < 18
                invariant
                    i <= 18,
                    fview(held@) == fields_of(c),
                    c == opt_view(constraint),
                    is_opened == opened(c, structured),
                    opt_view(element) == element_spec(c),
                    view_of(type_json) == type_value(declared_types(c, optional, structured)),
                    fview(out@) + expected_fields(c, optional, structured, i as int)
                        == expected_fields(c, optional, structured, 0),
                decreases 18 - i,
            {
                let key = sorted_keyword(i);
                let entry: Option<Json> = if i == 16 {
                    Some(type_json.copy())
                } else if is_opened {
                    if i == 0 {
                        match element {
                            Some(e) => Some(copy(e)),
                            None => Some(Json::Bool(true)),
                        }
                    } else if i == 14 || i == 15 {
                        match field(held, key) {
                            Some(v) => Some(copy_keyword(&key.to_owned(), v)),
                            None => None,
                        }
                    } else {
                        None
                    }
                } else {
                    match field(held, key) {
                        Some(v) => Some(copy_keyword(&key.to_owned(), v)),
                        None => None,
                    }
                };
                let ghost entry_view = match &entry {
                    Some(v) => Some(view_of(*v)),
                    None => None,
                };
                assert(entry_view == expected_entry(c, optional, structured, i as int));
                let ghost before = out@;
                match entry {
                    Some(v) => {
                        out.push((key.to_owned(), v));
                        proof {
                            lemma_fields_view(out@, out@.len() as nat);
                            lemma_fields_view(before, before.len() as nat);
                            assert(fview(out@) =~= fview(before).push((key@, entry_view->0)));
                        }
                    },
                    None => {},
                }
                assert(fview(out@) + expected_fields(c, optional, structured, i + 1)
                    =~= expected_fields(c, optional, structured, 0));
                i = i + 1;
            }
            assert(fview(out@) =~= expected_fields(c, optional, structured, 0));
            Json::Object(out)
        },
    }
}

// ------------------------------------------------------------------------------------------------
// Declared departures
// ------------------------------------------------------------------------------------------------

/// One position inside a schema, by a walk of keywords.
pub open spec fn vdig(v: JsonView, parts: Seq<Seq<char>>) -> Option<JsonView>
    decreases parts.len(),
{
    if parts.len() == 0 {
        Some(v)
    } else {
        match v {
            JsonView::Object(f) => match vget(f, parts[0]) {
                Some(inner) => vdig(inner, parts.drop_first()),
                None => None,
            },
            _ => None,
        }
    }
}

/// Where a key goes in a sorted mapping: the first field from `i` on whose name does not sort
/// before it, or the end.
pub open spec fn slot(fields: Seq<(Seq<char>, JsonView)>, key: Seq<char>, i: int) -> int
    decreases fields.len() - i,
{
    if i < 0 || i >= fields.len() {
        fields.len() as int
    } else if !text_lt(fields[i].0, key) {
        i
    } else {
        slot(fields, key, i + 1)
    }
}

/// A sorted mapping with one key set: its value replaced where the key is present, else the
/// field put where the key sorts.
pub open spec fn map_insert(fields: Seq<(Seq<char>, JsonView)>, key: Seq<char>, value: JsonView) -> Seq<
    (Seq<char>, JsonView),
> {
    let i = slot(fields, key, 0);
    if 0 <= i < fields.len() && fields[i].0 == key {
        fields.update(i, (key, value))
    } else {
        fields.insert(i, (key, value))
    }
}

/// One position inside a schema written, whose enclosing position is there: a schema whose walk
/// leaves the objects it holds is left as it is.
pub open spec fn put_spec(v: JsonView, parts: Seq<Seq<char>>, value: JsonView) -> JsonView
    decreases parts.len(),
{
    if parts.len() == 0 {
        v
    } else if parts.len() == 1 {
        match v {
            JsonView::Object(f) => JsonView::Object(map_insert(f, parts[0], value)),
            other => other,
        }
    } else {
        match v {
            JsonView::Object(f) => {
                let k = vfind(f, parts[0], 0);
                if 0 <= k < f.len() {
                    JsonView::Object(
                        f.update(k, (f[k].0, put_spec(f[k].1, parts.drop_first(), value))),
                    )
                } else {
                    v
                }
            },
            other => other,
        }
    }
}

/// A block with the pair a schema generator refuses resolved in the enum's favour: `type` dropped
/// where `enum` stands beside it.
pub open spec fn settle_spec(v: JsonView) -> JsonView {
    match v {
        JsonView::Object(f) => if vget(f, "enum"@) is Some && vget(f, "type"@) is Some {
            JsonView::Object(f.remove(vfind(f, "type"@, 0)))
        } else {
            v
        },
        other => other,
    }
}

/// Where a departure stands, then what is wrong with it.
pub open spec fn departure_problem(d: DivergenceView, what: Seq<char>) -> Seq<char> {
    at_spec(d.chart, d.line) + what
}

/// The problem with a departure whose sub-path the chart's own block does not declare.
pub open spec fn nothing_to_keep(d: DivergenceView) -> Seq<char> {
    departure_problem(
        d,
        ": keeps '"@ + d.sub_path + "' of '"@ + d.values_path
            + "', which the block below does not declare — there is nothing to keep"@,
    )
}

/// The problem with an override of something the contract does not describe.
pub open spec fn overrides_nothing(d: DivergenceView) -> Seq<char> {
    departure_problem(
        d,
        ": overrides '"@ + d.sub_path + "' of '"@ + d.values_path
            + "', which the generated schema does not contain. Either the contract no longer describes it — in which case this is a narrowing and the marker is `"@
            + NARROW_MARKER@ + "` — or the sub-path is a typo"@,
    )
}

/// The problem with a narrowing of something the contract describes.
pub open spec fn narrows_described(d: DivergenceView) -> Seq<char> {
    departure_problem(
        d,
        ": narrows '"@ + d.sub_path + "' of '"@ + d.values_path
            + "', which the contract now describes itself. Decide between them: `"@ + EXCEPT_MARKER@
            + "` keeps the chart's, and deleting the marker takes the image's"@,
    )
}

/// The problem with a narrowing whose enclosing position is not there.
pub open spec fn nowhere_to_put(d: DivergenceView) -> Seq<char> {
    departure_problem(
        d,
        ": narrows '"@ + d.sub_path + "' of '"@ + d.values_path
            + "', whose enclosing position the generated schema does not contain either, so there is nowhere to put it"@,
    )
}

/// The positions a narrowing adds, with one more: a field's, whose second-last part is
/// `properties`.
pub open spec fn recorded(added: Seq<Seq<char>>, parts: Seq<Seq<char>>) -> Seq<Seq<char>> {
    if parts.len() >= 2 && parts[parts.len() - 2] == "properties"@ {
        added.push(crate::text::join_spec(parts, seq!['.']))
    } else {
        added
    }
}

/// The schema, the positions added and the problems found, after one more departure.
pub open spec fn depart(
    state: (JsonView, Seq<Seq<char>>, Seq<Seq<char>>),
    generated: JsonView,
    present: JsonView,
    d: DivergenceView,
) -> (JsonView, Seq<Seq<char>>, Seq<Seq<char>>) {
    let (result, added, problems) = state;
    let parts = crate::text::split_spec(d.sub_path, '.');
    match vdig(present, parts) {
        None => (result, added, problems.push(nothing_to_keep(d))),
        Some(kept) => {
            let described = vdig(generated, parts) is Some;
            if d.kind == Departure::Override && !described {
                (result, added, problems.push(overrides_nothing(d)))
            } else if d.kind == Departure::Narrowing && described {
                (result, added, problems.push(narrows_described(d)))
            } else if !described && vdig(result, parts.drop_last()) is None {
                (result, added, problems.push(nowhere_to_put(d)))
            } else {
                (
                    put_spec(result, parts, kept),
                    if !described {
                        recorded(added, parts)
                    } else {
                        added
                    },
                    problems,
                )
            }
        },
    }
}

/// Every departure taken in turn, the first `n` of them.
pub open spec fn departed(
    generated: JsonView,
    present: JsonView,
    ds: Seq<DivergenceView>,
    n: nat,
) -> (JsonView, Seq<Seq<char>>, Seq<Seq<char>>)
    decreases n,
{
    if n == 0 || n > ds.len() {
        (generated, seq![], seq![])
    } else {
        depart(departed(generated, present, ds, (n - 1) as nat), generated, present, ds[n - 1])
    }
}

/// The index of the first field named `name`, as the view reads it.
fn position_of(fields: &Vec<(String, Json)>, name: &[char]) -> (k: usize)
    ensures
        k as int == vfind(fview(fields@), name@, 0),
        k <= fields@.len(),
{
    proof {
        lemma_fields_view(fields@, fields@.len() as nat);
    }
    let mut k: usize = 0;
    while k < fields.len()
        invariant
            k <= fields@.len(),
            fview(fields@).len() == fields@.len(),
            forall|i: int| 0 <= i < fields@.len() ==> #[trigger] fview(fields@)[i] == (
                fields@[i].0@,
                view_of(fields@[i].1),
            ),
            vfind(fview(fields@), name@, 0) == vfind(fview(fields@), name@, k as int),
        decreases fields.len() - k,
    {
        if crate::text::same(&chars(&fields[k].0), name) {
            return k;
        }
        k = k + 1;
    }
    k
}

/// One position inside a schema, by a walk of the first `n` keywords.
fn dig<'a>(schema: &'a Json, parts: &Vec<Vec<char>>, n: usize) -> (r: Option<&'a Json>)
    requires
        n <= parts@.len(),
    ensures
        opt_view(r) == vdig(view_of(*schema), crate::text::views(parts@).take(n as int)),
{
    let ghost t = crate::text::views(parts@).take(n as int);
    assert(t.skip(0) =~= t);
    let mut current = schema;
    let mut k: usize = 0;
    while k < n
        invariant
            k <= n <= parts@.len(),
            t == crate::text::views(parts@).take(n as int),
            vdig(view_of(*schema), t) == vdig(view_of(*current), t.skip(k as int)),
        decreases n - k,
    {
        assert(t.skip(k as int)[0] == parts@[k as int]@);
        assert(t.skip(k as int).drop_first() =~= t.skip(k + 1));
        match current {
            Json::Object(f) => {
                proof {
                    lemma_fields_view(f@, f@.len() as nat);
                }
                let at = position_of(f, &parts[k]);
                if at < f.len() {
                    current = &f[at].1;
                } else {
                    return None;
                }
            },
            _ => {
                return None;
            },
        }
        k = k + 1;
    }
    assert(t.skip(n as int) =~= Seq::<Seq<char>>::empty());
    Some(current)
}

/// Where a key goes in a sorted mapping.
fn slot_of(fields: &Vec<(String, Json)>, key: &String) -> (i: usize)
    ensures
        i as int == slot(fview(fields@), key@, 0),
        i <= fields@.len(),
{
    proof {
        lemma_fields_view(fields@, fields@.len() as nat);
    }
    let mut i: usize = 0;
    while i < fields.len()
        invariant
            i <= fields@.len(),
            fview(fields@).len() == fields@.len(),
            forall|j: int| 0 <= j < fields@.len() ==> #[trigger] fview(fields@)[j] == (
                fields@[j].0@,
                view_of(fields@[j].1),
            ),
            slot(fview(fields@), key@, 0) == slot(fview(fields@), key@, i as int),
        decreases fields.len() - i,
    {
        if !crate::order::less(fields[i].0.as_str(), key.as_str()) {
            return i;
        }
        i = i + 1;
    }
    i
}

/// Write one position inside a schema, from the part at `from` on.
fn put(schema: Json, parts: &Vec<Vec<char>>, from: usize, value: Json) -> (r: Json)
    requires
        from <= parts@.len(),
    ensures
        view_of(r) == put_spec(
            view_of(schema),
            crate::text::views(parts@).skip(from as int),
            view_of(value),
        ),
    decreases parts@.len() - from,
{
    let ghost rest = crate::text::views(parts@).skip(from as int);
    if from == parts.len() {
        return schema;
    }
    assert(rest[0] == parts@[from as int]@);
    match schema {
        Json::Object(mut f) => {
            proof {
                lemma_fields_view(f@, f@.len() as nat);
            }
            let ghost fv = fview(f@);
            if from + 1 == parts.len() {
                let key = string_of(&parts[from]);
                let i = slot_of(&f, &key);
                let ghost vv = view_of(value);
                if i < f.len() && f[i].0 == key {
                    f.set(i, (key, value));
                    proof {
                        lemma_fields_view(f@, f@.len() as nat);
                        assert(fview(f@) =~= fv.update(i as int, (parts@[from as int]@, vv)));
                    }
                } else {
                    f.insert(i, (key, value));
                    proof {
                        lemma_fields_view(f@, f@.len() as nat);
                        assert(fview(f@) =~= fv.insert(i as int, (parts@[from as int]@, vv)));
                    }
                }
                Json::Object(f)
            } else {
                assert(rest.drop_first() =~= crate::text::views(parts@).skip(from + 1));
                let k = position_of(&f, &parts[from]);
                if k < f.len() {
                    let (name, inner) = f.remove(k);
                    let changed = put(inner, parts, from + 1, value);
                    let ghost cv = view_of(changed);
                    f.insert(k, (name, changed));
                    proof {
                        lemma_fields_view(f@, f@.len() as nat);
                        assert(fview(f@) =~= fv.update(k as int, (fv[k as int].0, cv)));
                    }
                    Json::Object(f)
                } else {
                    Json::Object(f)
                }
            }
        },
        other => other,
    }
}

/// A block with `type` dropped where `enum` stands beside it.
fn settle(schema: Json) -> (r: Json)
    ensures
        view_of(r) == settle_spec(view_of(schema)),
{
    match schema {
        Json::Object(mut f) => {
            proof {
                lemma_fields_view(f@, f@.len() as nat);
            }
            let ghost fv = fview(f@);
            let e = position(&f, "enum");
            let t = position(&f, "type");
            if e < f.len() && t < f.len() {
                f.remove(t);
                proof {
                    lemma_fields_view(f@, f@.len() as nat);
                    assert(fview(f@) =~= fv.remove(t as int));
                }
            }
            Json::Object(f)
        },
        other => other,
    }
}

/// The views of a list of departures.
pub open spec fn departures_view(ds: Seq<&Divergence>) -> Seq<DivergenceView> {
    ds.map_values(|d: &Divergence| d@)
}

/// A departure's problem: where it stands, then the pieces of what is wrong.
fn problem(d: &Divergence, head: &str, middle: &str, tail: &str) -> (s: String)
    ensures
        s@ == departure_problem(d@, head@ + d.sub_path@ + middle@ + d.values_path@ + tail@),
{
    let mut v = chars(&d.at());
    push_str(&mut v, head);
    push_str(&mut v, d.sub_path.as_str());
    push_str(&mut v, middle);
    push_str(&mut v, d.values_path.as_str());
    push_str(&mut v, tail);
    assert(v@ =~= at_spec(d.chart@, d.line as nat) + (head@ + d.sub_path@ + middle@
        + d.values_path@ + tail@));
    string_of(&v)
}

/// The generated schema with each declared position taken from the chart's own block.
///
/// An override has to name a position the generated schema describes, and a narrowing one it
/// does not; either has to name one the chart's block declares, and a narrowing's enclosing
/// position has to be there. Each departure that fails one of these is a problem, and the rest
/// are applied in order; a field a narrowing adds is recorded so it renders after the
/// published ones. Finally `type` is dropped wherever a departure put an `enum` beside it.
pub fn apply_divergences(generated: &Json, present: &Json, divergences: &Vec<&Divergence>) -> (r: (
    Json,
    Added,
    Vec<String>,
))
    ensures
        ({
            let (result, added, problems) = departed(
                view_of(*generated),
                view_of(*present),
                departures_view(divergences@),
                divergences@.len() as nat,
            );
            &&& view_of(r.0) == settle_spec(result)
            &&& r.1.positions() == added
            &&& strs(r.2@) == problems
        }),
{
    let ghost g = view_of(*generated);
    let ghost p = view_of(*present);
    let ghost ds = departures_view(divergences@);
    let mut result = generated.copy();
    let mut added = Added::new();
    let mut problems: Vec<String> = Vec::new();
    let mut k: usize = 0;
    assert(strs(problems@) =~= Seq::<Seq<char>>::empty());
    while k < divergences.len()
        invariant
            k <= divergences@.len(),
            g == view_of(*generated),
            p == view_of(*present),
            ds == departures_view(divergences@),
            ({
                let (res, add, probs) = departed(g, p, ds, k as nat);
                &&& view_of(result) == res
                &&& added.positions() == add
                &&& strs(problems@) == probs
            }),
        decreases divergences.len() - k,
    {
        let d = divergences[k];
        assert(ds[k as int] == d@);
        let parts = crate::text::split_char(&chars(&d.sub_path), '.');
        let ghost pv = crate::text::views(parts@);
        let ghost st = departed(g, p, ds, k as nat);
        assert(departed(g, p, ds, (k + 1) as nat) == depart(st, g, p, d@));
        assert(pv == crate::text::split_spec(d@.sub_path, '.'));
        assert(pv.take(parts@.len() as int) =~= pv);
        assert(pv.take(parts@.len() - 1) =~= pv.drop_last());
        let ghost before_problems = strs(problems@);
        match dig(present, &parts, parts.len()) {
            None => {
                let m = problem(
                    d,
                    ": keeps '",
                    "' of '",
                    "', which the block below does not declare — there is nothing to keep",
                );
                assert(m@ =~= nothing_to_keep(d@));
                problems.push(m);
                assert(strs(problems@) =~= before_problems.push(m@));
            },
            Some(kept) => {
                let described = dig(generated, &parts, parts.len()).is_some();
                let overriding = match d.kind {
                    Departure::Override => true,
                    Departure::Narrowing => false,
                };
                if overriding && !described {
                    let m = problem(
                        d,
                        ": overrides '",
                        "' of '",
                        "', which the generated schema does not contain. Either the contract no longer describes it — in which case this is a narrowing and the marker is `@config-shape-narrow` — or the sub-path is a typo",
                    );
                    proof {
                        reveal_strlit("@config-shape-narrow");
                        reveal_strlit("', which the generated schema does not contain. Either the contract no longer describes it — in which case this is a narrowing and the marker is `@config-shape-narrow` — or the sub-path is a typo");
                        reveal_strlit("', which the generated schema does not contain. Either the contract no longer describes it — in which case this is a narrowing and the marker is `");
                        reveal_strlit("` — or the sub-path is a typo");
                        assert("', which the generated schema does not contain. Either the contract no longer describes it — in which case this is a narrowing and the marker is `@config-shape-narrow` — or the sub-path is a typo"@
                            =~= "', which the generated schema does not contain. Either the contract no longer describes it — in which case this is a narrowing and the marker is `"@
                            + NARROW_MARKER@ + "` — or the sub-path is a typo"@);
                    }
                    assert(m@ =~= overrides_nothing(d@));
                    problems.push(m);
                    assert(strs(problems@) =~= before_problems.push(m@));
                } else if !overriding && described {
                    let m = problem(
                        d,
                        ": narrows '",
                        "' of '",
                        "', which the contract now describes itself. Decide between them: `@config-shape-except` keeps the chart's, and deleting the marker takes the image's",
                    );
                    proof {
                        reveal_strlit("@config-shape-except");
                        reveal_strlit("', which the contract now describes itself. Decide between them: `@config-shape-except` keeps the chart's, and deleting the marker takes the image's");
                        reveal_strlit("', which the contract now describes itself. Decide between them: `");
                        reveal_strlit("` keeps the chart's, and deleting the marker takes the image's");
                        assert("', which the contract now describes itself. Decide between them: `@config-shape-except` keeps the chart's, and deleting the marker takes the image's"@
                            =~= "', which the contract now describes itself. Decide between them: `"@
                            + EXCEPT_MARKER@ + "` keeps the chart's, and deleting the marker takes the image's"@);
                    }
                    assert(m@ =~= narrows_described(d@));
                    problems.push(m);
                    assert(strs(problems@) =~= before_problems.push(m@));
                } else if !described && dig(&result, &parts, parts.len() - 1).is_none() {
                    let m = problem(
                        d,
                        ": narrows '",
                        "' of '",
                        "', whose enclosing position the generated schema does not contain either, so there is nowhere to put it",
                    );
                    assert(m@ =~= nowhere_to_put(d@));
                    problems.push(m);
                    assert(strs(problems@) =~= before_problems.push(m@));
                } else {
                    if !described {
                        added.record(&parts);
                    }
                    assert(pv.skip(0) =~= pv);
                    result = put(result, &parts, 0, kept.copy());
                }
            },
        }
        assert(view_of(result) == departed(g, p, ds, (k + 1) as nat).0);
        assert(added.positions() == departed(g, p, ds, (k + 1) as nat).1);
        assert(strs(problems@) == departed(g, p, ds, (k + 1) as nat).2);
        k = k + 1;
    }
    (settle(result), added, problems)
}

// ------------------------------------------------------------------------------------------------
// Writing a block back out
// ------------------------------------------------------------------------------------------------

/// Keywords in the order a generated block spells them: what the value is, then its bounds, then
/// what it holds.
pub open spec fn shape_order() -> Seq<Seq<char>> {
    seq![
        "type"@,
        "enum"@,
        "const"@,
        "pattern"@,
        "format"@,
        "minimum"@,
        "exclusiveMinimum"@,
        "maximum"@,
        "exclusiveMaximum"@,
        "multipleOf"@,
        "minLength"@,
        "maxLength"@,
        "minItems"@,
        "maxItems"@,
        "uniqueItems"@,
        "required"@,
        "properties"@,
        "additionalProperties"@,
        "items"@,
    ]
}

/// One keyword's value as the YAML an `@schema` comment carries: scalars bare, a text
/// double-quoted, a list in brackets, and a mapping as `{}`.
pub open spec fn scalar_spec(v: JsonView) -> Seq<char>
    decreases v, 1nat,
{
    match v {
        JsonView::Bool(b) => if b {
            "true"@
        } else {
            "false"@
        },
        JsonView::Null => "null"@,
        JsonView::Number(n) => n,
        JsonView::Array(items) => "["@ + scalar_items(items, items.len()) + "]"@,
        JsonView::Str(t) => quoted_spec(t),
        JsonView::Object(_) => "{}"@,
    }
}

/// The first `n` items of a list, each as `scalar_spec` writes it, separated by `, `.
pub open spec fn scalar_items(items: Seq<JsonView>, n: nat) -> Seq<char>
    decreases items, n,
{
    if n == 0 || n > items.len() {
        seq![]
    } else if n == 1 {
        scalar_spec(items[0])
    } else {
        scalar_items(items, (n - 1) as nat) + ", "@ + scalar_spec(items[n - 1])
    }
}

/// One type name as the `type` keyword writes it: `null` quoted, since bare it is YAML's null.
pub open spec fn type_member(name: Seq<char>) -> Seq<char> {
    if name == "null"@ {
        "'null'"@
    } else {
        name
    }
}

/// The `type` keyword's line: one name bare, several in brackets.
pub open spec fn type_line_spec(v: JsonView) -> Seq<char> {
    let names = match v {
        JsonView::Array(items) => items.map_values(|i: JsonView| scalar_name_spec(i)),
        single => seq![scalar_name_spec(single)],
    };
    let rendered = names.map_values(|n: Seq<char>| type_member(n));
    if names.len() == 1 {
        "type: "@ + rendered[0]
    } else {
        "type: ["@ + crate::text::join_spec(rendered, ", "@) + "]"@
    }
}

/// The keywords of `shape_order` from index `i` on that a level holds.
pub open spec fn known_keywords(fields: Seq<(Seq<char>, JsonView)>, i: int) -> Seq<Seq<char>>
    decreases 19 - i,
{
    if i < 0 || i >= 19 {
        seq![]
    } else if vget(fields, shape_order()[i]) is Some {
        seq![shape_order()[i]] + known_keywords(fields, i + 1)
    } else {
        known_keywords(fields, i + 1)
    }
}

/// The names of the first `n` fields that are not keywords of `shape_order`, in their order.
pub open spec fn other_keywords(fields: Seq<(Seq<char>, JsonView)>, n: nat) -> Seq<Seq<char>>
    decreases n,
{
    if n == 0 || n > fields.len() {
        seq![]
    } else if shape_order().contains(fields[n - 1].0) {
        other_keywords(fields, (n - 1) as nat)
    } else {
        other_keywords(fields, (n - 1) as nat).push(fields[n - 1].0)
    }
}

/// The keywords of one level: canonical ones first, the rest after in key order.
pub open spec fn ordered_spec(fields: Seq<(Seq<char>, JsonView)>) -> Seq<Seq<char>> {
    known_keywords(fields, 0) + other_keywords(fields, fields.len())
}

/// The keyword at index `i` of `shape_order`.
fn shape_keyword(i: usize) -> (s: &'static str)
    requires
        i < 19,
    ensures
        s@ == shape_order()[i as int],
{
    match i {
        0 => "type",
        1 => "enum",
        2 => "const",
        3 => "pattern",
        4 => "format",
        5 => "minimum",
        6 => "exclusiveMinimum",
        7 => "maximum",
        8 => "exclusiveMaximum",
        9 => "multipleOf",
        10 => "minLength",
        11 => "maxLength",
        12 => "minItems",
        13 => "maxItems",
        14 => "uniqueItems",
        15 => "required",
        16 => "properties",
        17 => "additionalProperties",
        _ => "items",
    }
}

/// Whether a keyword is one of `shape_order`.
fn is_shape_keyword(name: &[char]) -> (b: bool)
    ensures
        b == shape_order().contains(name@),
{
    let mut i: usize = 0;
    while i < 19
        invariant
            i <= 19,
            forall|j: int| 0 <= j < i ==> shape_order()[j] != name@,
        decreases 19 - i,
    {
        if crate::text::same(&chars_of(shape_keyword(i)), name) {
            assert(shape_order()[i as int] == name@);
            return true;
        }
        i = i + 1;
    }
    false
}

/// The keywords of one level, canonical ones first and the rest in key order after.
fn ordered(fields: &Vec<(String, Json)>) -> (names: Vec<Vec<char>>)
    ensures
        crate::text::views(names@) == ordered_spec(fview(fields@)),
{
    proof {
        lemma_fields_view(fields@, fields@.len() as nat);
    }
    let ghost fv = fview(fields@);
    let mut known: Vec<Vec<char>> = Vec::new();
    let mut i: usize = 0;
    while i < 19
        invariant
            i <= 19,
            fv == fview(fields@),
            fv.len() == fields@.len(),
            crate::text::views(known@) + known_keywords(fv, i as int) == known_keywords(fv, 0),
        decreases 19 - i,
    {
        let keyword = chars_of(shape_keyword(i));
        let ghost before = crate::text::views(known@);
        let ghost now = known_keywords(fv, i as int);
        let ghost next = known_keywords(fv, i + 1);
        assert(now == if vget(fv, shape_order()[i as int]) is Some {
            seq![shape_order()[i as int]] + next
        } else {
            next
        });
        if position_of(fields, &keyword) < fields.len() {
            known.push(keyword);
            assert(crate::text::views(known@) =~= before.push(keyword@));
            assert(before + now =~= before.push(keyword@) + next);
        }
        assert(crate::text::views(known@) + next =~= known_keywords(fv, 0));
        i = i + 1;
    }
    assert(crate::text::views(known@) =~= known_keywords(fv, 0));
    let mut k: usize = 0;
    let ghost first = crate::text::views(known@);
    while k < fields.len()
        invariant
            k <= fields@.len(),
            fv == fview(fields@),
            fv.len() == fields@.len(),
            forall|j: int| 0 <= j < fields@.len() ==> #[trigger] fv[j] == (
                fields@[j].0@,
                view_of(fields@[j].1),
            ),
            crate::text::views(known@) == first + other_keywords(fv, k as nat),
        decreases fields.len() - k,
    {
        let name = chars(&fields[k].0);
        if !is_shape_keyword(&name) {
            let ghost before = crate::text::views(known@);
            known.push(name);
            assert(crate::text::views(known@) =~= before.push(name@));
        }
        k = k + 1;
    }
    known
}

/// One keyword's value, as the YAML an `@schema` comment carries.
fn scalar(v: &Json) -> (s: Vec<char>)
    ensures
        s@ == scalar_spec(view_of(*v)),
    decreases v,
{
    match v {
        Json::Bool(b) => if *b {
            chars_of("true")
        } else {
            chars_of("false")
        },
        Json::Null => chars_of("null"),
        Json::Number(n) => chars(n),
        Json::Array(items) => {
            proof {
                lemma_items_view(items@, items@.len() as nat);
            }
            let ghost iv = crate::json::items_view(items@, items@.len() as nat);
            let mut out = chars_of("[");
            let mut k: usize = 0;
            while k < items.len()
                invariant
                    k <= items@.len(),
                    *v == Json::Array(*items),
                    iv == crate::json::items_view(items@, items@.len() as nat),
                    iv.len() == items@.len(),
                    forall|i: int| 0 <= i < items@.len() ==> #[trigger] iv[i] == view_of(items@[i]),
                    out@ == "["@ + scalar_items(iv, k as nat),
                decreases items.len() - k,
            {
                if k > 0 {
                    push_str(&mut out, ", ");
                }
                proof {
                    assert(decreases_to!(*v => (*v)->Array_0));
                    assert(decreases_to!(*items => items@));
                    assert(decreases_to!(items@ => items@[k as int]));
                }
                let one = scalar(&items[k]);
                crate::text::push_all(&mut out, &one);
                k = k + 1;
            }
            push_str(&mut out, "]");
            out
        },
        Json::Str(t) => crate::shapes::quoted(&chars(t)),
        Json::Object(_) => chars_of("{}"),
    }
}

/// The `type` keyword, whose members are schema vocabulary rather than data: written bare, but
/// for `null`, which bare is YAML's null.
fn type_line(v: &Json) -> (s: Vec<char>)
    ensures
        s@ == type_line_spec(view_of(*v)),
{
    let ghost names_spec = match view_of(*v) {
        JsonView::Array(items) => items.map_values(|i: JsonView| scalar_name_spec(i)),
        single => seq![scalar_name_spec(single)],
    };
    let mut names: Vec<Vec<char>> = Vec::new();
    match v {
        Json::Array(items) => {
            proof {
                lemma_items_view(items@, items@.len() as nat);
            }
            let mut k: usize = 0;
            while k < items.len()
                invariant
                    k <= items@.len(),
                    *v == Json::Array(*items),
                    crate::json::items_view(items@, items@.len() as nat).len() == items@.len(),
                    forall|i: int|
                        0 <= i < items@.len() ==> #[trigger] crate::json::items_view(
                            items@,
                            items@.len() as nat,
                        )[i] == view_of(items@[i]),
                    crate::text::views(names@) == crate::json::items_view(
                        items@,
                        items@.len() as nat,
                    ).take(k as int).map_values(|i: JsonView| scalar_name_spec(i)),
                decreases items.len() - k,
            {
                let one = chars(&scalar_name(&items[k]));
                let ghost before = crate::text::views(names@);
                let ghost iv = crate::json::items_view(items@, items@.len() as nat);
                names.push(one);
                assert(crate::text::views(names@) =~= before.push(one@));
                assert(one@ == scalar_name_spec(iv[k as int]));
                assert(iv.take(k + 1).map_values(|i: JsonView| scalar_name_spec(i)) =~= iv.take(
                    k as int,
                ).map_values(|i: JsonView| scalar_name_spec(i)).push(scalar_name_spec(iv[k as int])));
                assert(crate::text::views(names@) =~= crate::json::items_view(
                    items@,
                    items@.len() as nat,
                ).take(k + 1).map_values(|i: JsonView| scalar_name_spec(i)));
                k = k + 1;
            }
            assert(crate::json::items_view(items@, items@.len() as nat).take(items@.len() as int)
                =~= crate::json::items_view(items@, items@.len() as nat));
        },
        single => {
            names.push(chars(&scalar_name(single)));
            assert(crate::text::views(names@) =~= seq![scalar_name_spec(view_of(*single))]);
        },
    }
    assert(crate::text::views(names@) =~= names_spec);
    let mut rendered: Vec<Vec<char>> = Vec::new();
    let mut k: usize = 0;
    while k < names.len()
        invariant
            k <= names@.len(),
            crate::text::views(rendered@) == crate::text::views(names@).take(k as int).map_values(
                |n: Seq<char>| type_member(n),
            ),
        decreases names.len() - k,
    {
        let member = if crate::text::same(&names[k], &chars_of("null")) {
            chars_of("'null'")
        } else {
            crate::text::slice_of(&names[k], 0, names[k].len())
        };
        assert(names@[k as int]@.subrange(0, names@[k as int]@.len() as int) =~= names@[k as int]@);
        let ghost before = crate::text::views(rendered@);
        let ghost nv = crate::text::views(names@);
        assert(nv[k as int] == names@[k as int]@);
        assert(member@ == type_member(nv[k as int]));
        rendered.push(member);
        assert(crate::text::views(rendered@) =~= before.push(member@));
        assert(nv.take(k + 1).map_values(|n: Seq<char>| type_member(n)) =~= nv.take(k as int).map_values(
            |n: Seq<char>| type_member(n),
        ).push(type_member(nv[k as int])));
        assert(crate::text::views(rendered@) =~= crate::text::views(names@).take(k + 1).map_values(
            |n: Seq<char>| type_member(n),
        ));
        k = k + 1;
    }
    assert(crate::text::views(names@).take(names@.len() as int) =~= crate::text::views(names@));
    assert(crate::text::views(rendered@) =~= names_spec.map_values(|n: Seq<char>| type_member(n)));
    if names.len() == 1 {
        let mut out = chars_of("type: ");
        assert(crate::text::views(rendered@)[0] == rendered@[0]@);
        crate::text::push_all(&mut out, &rendered[0]);
        out
    } else {
        let mut out = chars_of("type: [");
        crate::text::push_all(&mut out, &crate::text::join(&rendered, &chars_of(", ")));
        push_str(&mut out, "]");
        out
    }
}

/// Each line with a margin in front.
pub open spec fn indent_all(lines: Seq<Seq<char>>, pad: Seq<char>) -> Seq<Seq<char>> {
    lines.map_values(|l: Seq<char>| pad + l)
}

/// Where a keyword or field sits below a position.
pub open spec fn below_spec(at: Seq<char>, name: Seq<char>) -> Seq<char> {
    if at.len() == 0 {
        name
    } else {
        at + "."@ + name
    }
}

/// Whether the field at a position was added by a narrowing rather than published.
pub open spec fn was_added(added: Seq<Seq<char>>, at: Seq<char>, field: Seq<char>) -> bool {
    added.contains(Added::field_position(at, field))
}

/// The names of the first `n` fields, those added by a narrowing (`held`) or the others.
pub open spec fn fields_added(
    g: Seq<(Seq<char>, JsonView)>,
    n: nat,
    added: Seq<Seq<char>>,
    at: Seq<char>,
    held: bool,
) -> Seq<Seq<char>>
    decreases n,
{
    if n == 0 || n > g.len() {
        seq![]
    } else if was_added(added, at, g[n - 1].0) == held {
        fields_added(g, (n - 1) as nat, added, at, held).push(g[n - 1].0)
    } else {
        fields_added(g, (n - 1) as nat, added, at, held)
    }
}

/// A struct's field names as they are written: the producer's in their order, then what a
/// narrowing added.
pub open spec fn property_order(g: Seq<(Seq<char>, JsonView)>, added: Seq<Seq<char>>, at: Seq<char>) -> Seq<
    Seq<char>,
> {
    fields_added(g, g.len(), added, at, false) + fields_added(g, g.len(), added, at, true)
}

/// Whether any item of a list is a mapping or a list.
pub open spec fn any_container(items: Seq<JsonView>) -> bool {
    exists|i: int|
        0 <= i < items.len() && (#[trigger] items[i] is Object || items[i] is Array)
}

/// The lines of one level of a schema, its keywords in `ordered_spec` order.
pub open spec fn lines_spec(v: JsonView, at: Seq<char>, added: Seq<Seq<char>>) -> Seq<Seq<char>>
    decreases v, 2nat,
{
    match v {
        JsonView::Object(f) => lines_from(f, ordered_spec(f), 0, at, added),
        _ => seq![],
    }
}

/// The lines of the keywords named from index `i` on.
pub open spec fn lines_from(
    f: Seq<(Seq<char>, JsonView)>,
    names: Seq<Seq<char>>,
    i: int,
    at: Seq<char>,
    added: Seq<Seq<char>>,
) -> Seq<Seq<char>>
    decreases f, (names.len() - i) as nat,
{
    if i < 0 || i >= names.len() {
        seq![]
    } else {
        let k = vfind(f, names[i], 0);
        let here = if 0 <= k < f.len() {
            keyword_spec(names[i], f[k].1, below_spec(at, names[i]), at, added)
        } else {
            seq![]
        };
        here + lines_from(f, names, i + 1, at, added)
    }
}

/// One JSON Schema keyword as the YAML lines an `@schema` comment carries.
pub open spec fn keyword_spec(
    name: Seq<char>,
    value: JsonView,
    below: Seq<char>,
    at: Seq<char>,
    added: Seq<Seq<char>>,
) -> Seq<Seq<char>>
    decreases value, 3nat,
{
    if name == "type"@ {
        seq![type_line_spec(value)]
    } else {
        match value {
            JsonView::Object(g) => if g.len() == 0 {
                seq![name + ": {}"@]
            } else if name == "properties"@ {
                seq!["properties:"@] + property_lines(g, property_order(g, added, at), 0, below, added)
            } else {
                seq![name + ":"@] + indent_all(lines_spec(value, below, added), "  "@)
            },
            JsonView::Array(items) => if any_container(items) {
                seq![name + ":"@] + item_lines(items, 0, below, added)
            } else {
                seq![name + ": "@ + scalar_spec(value)]
            },
            other => seq![name + ": "@ + scalar_spec(other)],
        }
    }
}

/// The lines of a struct's fields named from index `i` on.
pub open spec fn property_lines(
    g: Seq<(Seq<char>, JsonView)>,
    names: Seq<Seq<char>>,
    i: int,
    below: Seq<char>,
    added: Seq<Seq<char>>,
) -> Seq<Seq<char>>
    decreases g, (names.len() - i) as nat,
{
    if i < 0 || i >= names.len() {
        seq![]
    } else {
        let k = vfind(g, names[i], 0);
        let here = if 0 <= k < g.len() {
            match g[k].1 {
                JsonView::Object(h) => if h.len() > 0 {
                    seq!["  "@ + field_name_spec(names[i]) + ":"@] + indent_all(
                        lines_spec(g[k].1, below + "."@ + names[i], added),
                        "    "@,
                    )
                } else {
                    seq!["  "@ + field_name_spec(names[i]) + ": {}"@]
                },
                _ => seq!["  "@ + field_name_spec(names[i]) + ": {}"@],
            }
        } else {
            seq![]
        };
        here + property_lines(g, names, i + 1, below, added)
    }
}

/// The lines of a list's items from index `j` on: a mapping opens with `- ` and continues
/// indented, anything else is one `- ` line.
pub open spec fn item_lines(
    items: Seq<JsonView>,
    j: int,
    below: Seq<char>,
    added: Seq<Seq<char>>,
) -> Seq<Seq<char>>
    decreases items, (items.len() - j) as nat,
{
    if j < 0 || j >= items.len() {
        seq![]
    } else {
        let here = match items[j] {
            JsonView::Object(_) => {
                let r = lines_spec(items[j], below, added);
                if r.len() > 0 {
                    seq!["  - "@ + r[0]] + indent_all(r.drop_first(), "    "@)
                } else {
                    seq![]
                }
            },
            _ => seq!["  - "@ + scalar_spec(items[j])],
        };
        here + item_lines(items, j + 1, below, added)
    }
}

/// One `@schema` mapping as the comment lines a values file carries it as.
pub open spec fn render_spec(schema: JsonView, indent: nat, added: Seq<Seq<char>>) -> Seq<Seq<char>> {
    lines_spec(schema, seq![], added).map_values(
        |l: Seq<char>|
            if l.len() == 0 {
                Seq::new(indent, |i: int| ' ') + "#"@
            } else {
                Seq::new(indent, |i: int| ' ') + "# "@ + l
            },
    )
}

/// Each line with a margin in front.
fn indent_lines(lines: &Vec<Vec<char>>, pad: &str) -> (r: Vec<Vec<char>>)
    ensures
        crate::text::views(r@) == indent_all(crate::text::views(lines@), pad@),
{
    let mut out: Vec<Vec<char>> = Vec::new();
    let mut k: usize = 0;
    while k < lines.len()
        invariant
            k <= lines@.len(),
            crate::text::views(out@) == indent_all(crate::text::views(lines@).take(k as int), pad@),
        decreases lines.len() - k,
    {
        let mut line = chars_of(pad);
        crate::text::push_all(&mut line, &lines[k]);
        let ghost before = crate::text::views(out@);
        out.push(line);
        assert(crate::text::views(out@) =~= before.push(line@));
        assert(indent_all(crate::text::views(lines@).take(k + 1), pad@) =~= indent_all(
            crate::text::views(lines@).take(k as int),
            pad@,
        ).push(pad@ + lines@[k as int]@));
        k = k + 1;
    }
    assert(crate::text::views(lines@).take(lines@.len() as int) =~= crate::text::views(lines@));
    out
}

/// One text, then another.
fn joined(a: &[char], b: &str) -> (v: Vec<char>)
    ensures
        v@ == a@ + b@,
{
    let mut v = crate::text::slice_of(a, 0, a.len());
    assert(a@.subrange(0, a@.len() as int) =~= a@);
    push_str(&mut v, b);
    v
}

/// Where a keyword or field sits below a position.
fn below_of(at: &[char], name: &[char]) -> (v: Vec<char>)
    ensures
        v@ == below_spec(at@, name@),
{
    if at.len() == 0 {
        let v = crate::text::slice_of(name, 0, name.len());
        assert(name@.subrange(0, name@.len() as int) =~= name@);
        v
    } else {
        let mut v = joined(at, ".");
        crate::text::push_all(&mut v, name);
        v
    }
}

/// A struct's field names as they are written: the producer's, then what a narrowing added.
fn property_names(g: &Vec<(String, Json)>, added: &Added, at: &[char]) -> (names: Vec<Vec<char>>)
    ensures
        crate::text::views(names@) == property_order(fview(g@), added.positions(), at@),
{
    proof {
        lemma_fields_view(g@, g@.len() as nat);
    }
    let ghost gv = fview(g@);
    let mut names: Vec<Vec<char>> = Vec::new();
    let mut pass: usize = 0;
    while pass < 2
        invariant
            pass <= 2,
            gv == fview(g@),
            gv.len() == g@.len(),
            forall|j: int| 0 <= j < g@.len() ==> #[trigger] gv[j] == (g@[j].0@, view_of(g@[j].1)),
            crate::text::views(names@) == if pass == 0 {
                Seq::<Seq<char>>::empty()
            } else if pass == 1 {
                fields_added(gv, gv.len(), added.positions(), at@, false)
            } else {
                property_order(gv, added.positions(), at@)
            },
        decreases 2 - pass,
    {
        let held = pass == 1;
        let ghost start = crate::text::views(names@);
        let mut k: usize = 0;
        while k < g.len()
            invariant
                k <= g@.len(),
                gv == fview(g@),
                gv.len() == g@.len(),
                forall|j: int| 0 <= j < g@.len() ==> #[trigger] gv[j] == (g@[j].0@, view_of(g@[j].1)),
                crate::text::views(names@) == start + fields_added(
                    gv,
                    k as nat,
                    added.positions(),
                    at@,
                    held,
                ),
            decreases g.len() - k,
        {
            let field = chars(&g[k].0);
            if added.holds(at, &field) == held {
                let ghost before = crate::text::views(names@);
                names.push(field);
                assert(crate::text::views(names@) =~= before.push(field@));
            }
            k = k + 1;
        }
        pass = pass + 1;
    }
    names
}

/// Whether any item of a list is a mapping or a list.
fn has_container(items: &Vec<Json>) -> (b: bool)
    ensures
        b == any_container(crate::json::items_view(items@, items@.len() as nat)),
{
    proof {
        lemma_items_view(items@, items@.len() as nat);
    }
    let ghost iv = crate::json::items_view(items@, items@.len() as nat);
    let mut k: usize = 0;
    while k < items.len()
        invariant
            k <= items@.len(),
            iv == crate::json::items_view(items@, items@.len() as nat),
            iv.len() == items@.len(),
            forall|j: int| 0 <= j < items@.len() ==> #[trigger] iv[j] == view_of(items@[j]),
            forall|j: int| 0 <= j < k ==> !(#[trigger] iv[j] is Object || iv[j] is Array),
        decreases items.len() - k,
    {
        let container = match &items[k] {
            Json::Object(_) => true,
            Json::Array(_) => true,
            _ => false,
        };
        if container {
            assert(iv[k as int] is Object || iv[k as int] is Array);
            return true;
        }
        k = k + 1;
    }
    false
}

/// The lines of one level of a schema, its keywords canonical ones first.
fn lines_of(schema: &Json, at: &[char], added: &Added) -> (r: Vec<Vec<char>>)
    ensures
        crate::text::views(r@) == lines_spec(view_of(*schema), at@, added.positions()),
    decreases schema, 2nat,
{
    match schema {
        Json::Object(f) => {
            proof {
                lemma_fields_view(f@, f@.len() as nat);
            }
            let ghost fv = fview(f@);
            let names = ordered(f);
            let ghost nv = crate::text::views(names@);
            let mut out: Vec<Vec<char>> = Vec::new();
            let mut i: usize = 0;
            while i < names.len()
                invariant
                    i <= names@.len(),
                    *schema == Json::Object(*f),
                    fv == fview(f@),
                    fv.len() == f@.len(),
                    forall|j: int| 0 <= j < f@.len() ==> #[trigger] fv[j] == (f@[j].0@, view_of(f@[j].1)),
                    nv == crate::text::views(names@),
                    crate::text::views(out@) + lines_from(fv, nv, i as int, at@, added.positions())
                        == lines_from(fv, nv, 0, at@, added.positions()),
                decreases names.len() - i,
            {
                let k = position_of(f, &names[i]);
                let ghost before = crate::text::views(out@);
                let ghost rest = lines_from(fv, nv, i + 1, at@, added.positions());
                assert(nv[i as int] == names@[i as int]@);
                if k < f.len() {
                    let below = below_of(at, &names[i]);
                    proof {
                        assert(decreases_to!(*schema => (*schema)->Object_0));
                        assert(decreases_to!(*f => f@));
                        assert(decreases_to!(f@ => f@[k as int]));
                        assert(decreases_to!(f@[k as int] => f@[k as int].1));
                    }
                    let mut more = keyword_lines(&names[i], &f[k].1, &below, at, added);
                    let ghost added_lines = crate::text::views(more@);
                    out.append(&mut more);
                    assert(crate::text::views(out@) =~= before + added_lines);
                }
                assert(crate::text::views(out@) + rest =~= lines_from(fv, nv, 0, at@, added.positions()));
                i = i + 1;
            }
            assert(crate::text::views(out@) =~= lines_from(fv, nv, 0, at@, added.positions()));
            out
        },
        _ => {
            let out: Vec<Vec<char>> = Vec::new();
            assert(crate::text::views(out@) =~= Seq::<Seq<char>>::empty());
            out
        },
    }
}

/// One list of lines.
fn one_line(v: Vec<char>) -> (r: Vec<Vec<char>>)
    ensures
        crate::text::views(r@) == seq![v@],
{
    let r = vec![v];
    assert(crate::text::views(r@) =~= seq![r@[0]@]);
    r
}

/// One JSON Schema keyword as the YAML lines an `@schema` comment carries.
fn keyword_lines(name: &[char], value: &Json, below: &[char], at: &[char], added: &Added) -> (r: Vec<
    Vec<char>,
>)
    ensures
        crate::text::views(r@) == keyword_spec(name@, view_of(*value), below@, at@, added.positions()),
    decreases value, 3nat,
{
    if crate::text::same(name, &chars_of("type")) {
        return one_line(type_line(value));
    }
    match value {
        Json::Object(g) => {
            proof {
                lemma_fields_view(g@, g@.len() as nat);
            }
            let ghost gv = fview(g@);
            if g.len() == 0 {
                return one_line(joined(name, ": {}"));
            }
            if !crate::text::same(name, &chars_of("properties")) {
                let mut out = one_line(joined(name, ":"));
                let inner = lines_of(value, below, added);
                let mut more = indent_lines(&inner, "  ");
                let ghost first = crate::text::views(out@);
                let ghost rest = crate::text::views(more@);
                out.append(&mut more);
                assert(crate::text::views(out@) =~= first + rest);
                return out;
            }
            let names = property_names(g, added, at);
            let ghost nv = crate::text::views(names@);
            let mut out = one_line(chars_of("properties:"));
            let ghost head = crate::text::views(out@);
            let mut i: usize = 0;
            while i < names.len()
                invariant
                    i <= names@.len(),
                    *value == Json::Object(*g),
                    gv == fview(g@),
                    gv.len() == g@.len(),
                    forall|j: int| 0 <= j < g@.len() ==> #[trigger] gv[j] == (g@[j].0@, view_of(g@[j].1)),
                    nv == crate::text::views(names@),
                    crate::text::views(out@) + property_lines(gv, nv, i as int, below@, added.positions())
                        == head + property_lines(gv, nv, 0, below@, added.positions()),
                decreases names.len() - i,
            {
                let k = position_of(g, &names[i]);
                let ghost before = crate::text::views(out@);
                let ghost rest = property_lines(gv, nv, i + 1, below@, added.positions());
                assert(nv[i as int] == names@[i as int]@);
                if k < g.len() {
                    let label = crate::shapes::field_name(&names[i]);
                    let nonempty = match &g[k].1 {
                        Json::Object(h) => {
                            proof {
                                lemma_fields_view(h@, h@.len() as nat);
                            }
                            h.len() > 0
                        },
                        _ => false,
                    };
                    if nonempty {
                        let mut line = chars_of("  ");
                        crate::text::push_all(&mut line, &label);
                        push_str(&mut line, ":");
                        out.push(line);
                        let mut sub_at = joined(below, ".");
                        crate::text::push_all(&mut sub_at, &names[i]);
                        proof {
                            assert(decreases_to!(*value => (*value)->Object_0));
                            assert(decreases_to!(*g => g@));
                            assert(decreases_to!(g@ => g@[k as int]));
                            assert(decreases_to!(g@[k as int] => g@[k as int].1));
                        }
                        let inner = lines_of(&g[k].1, &sub_at, added);
                        let mut more = indent_lines(&inner, "    ");
                        let ghost mid = crate::text::views(out@);
                        let ghost tail = crate::text::views(more@);
                        out.append(&mut more);
                        assert(crate::text::views(out@) =~= mid + tail);
                        assert(mid =~= before.push(line@));
                    } else {
                        let mut line = chars_of("  ");
                        crate::text::push_all(&mut line, &label);
                        push_str(&mut line, ": {}");
                        out.push(line);
                        assert(crate::text::views(out@) =~= before.push(line@));
                    }
                }
                assert(crate::text::views(out@) + rest =~= head + property_lines(
                    gv,
                    nv,
                    0,
                    below@,
                    added.positions(),
                ));
                i = i + 1;
            }
            assert(crate::text::views(out@) =~= head + property_lines(gv, nv, 0, below@, added.positions()));
            out
        },
        Json::Array(items) => {
            proof {
                lemma_items_view(items@, items@.len() as nat);
            }
            let ghost iv = crate::json::items_view(items@, items@.len() as nat);
            if !has_container(items) {
                let mut line = joined(name, ": ");
                crate::text::push_all(&mut line, &scalar(value));
                return one_line(line);
            }
            let mut out = one_line(joined(name, ":"));
            let ghost head = crate::text::views(out@);
            let mut j: usize = 0;
            while j < items.len()
                invariant
                    j <= items@.len(),
                    *value == Json::Array(*items),
                    iv == crate::json::items_view(items@, items@.len() as nat),
                    iv.len() == items@.len(),
                    forall|x: int| 0 <= x < items@.len() ==> #[trigger] iv[x] == view_of(items@[x]),
                    crate::text::views(out@) + item_lines(iv, j as int, below@, added.positions())
                        == head + item_lines(iv, 0, below@, added.positions()),
                decreases items.len() - j,
            {
                let ghost before = crate::text::views(out@);
                let ghost rest = item_lines(iv, j + 1, below@, added.positions());
                match &items[j] {
                    Json::Object(_) => {
                        proof {
                            assert(decreases_to!(*value => (*value)->Array_0));
                            assert(decreases_to!(*items => items@));
                            assert(decreases_to!(items@ => items@[j as int]));
                        }
                        let rendered = lines_of(&items[j], below, added);
                        if rendered.len() > 0 {
                            let mut first = chars_of("  - ");
                            crate::text::push_all(&mut first, &rendered[0]);
                            out.push(first);
                            let mut tail: Vec<Vec<char>> = Vec::new();
                            let mut m: usize = 1;
                            while m < rendered.len()
                                invariant
                                    1 <= m <= rendered@.len(),
                                    crate::text::views(tail@) == crate::text::views(rendered@).subrange(
                                        1,
                                        m as int,
                                    ),
                                decreases rendered.len() - m,
                            {
                                let copy_line = crate::text::slice_of(&rendered[m], 0, rendered[m].len());
                                let ghost tb = crate::text::views(tail@);
                                assert(rendered@[m as int]@.subrange(0, rendered@[m as int]@.len() as int)
                                    =~= rendered@[m as int]@);
                                tail.push(copy_line);
                                assert(crate::text::views(tail@) =~= tb.push(rendered@[m as int]@));
                                assert(crate::text::views(tail@) =~= crate::text::views(rendered@).subrange(
                                    1,
                                    m + 1,
                                ));
                                m = m + 1;
                            }
                            assert(crate::text::views(rendered@).subrange(1, rendered@.len() as int)
                                =~= crate::text::views(rendered@).drop_first());
                            let mut more = indent_lines(&tail, "    ");
                            let ghost mid = crate::text::views(out@);
                            let ghost t2 = crate::text::views(more@);
                            out.append(&mut more);
                            assert(crate::text::views(out@) =~= mid + t2);
                            assert(mid =~= before.push(first@));
                        }
                    },
                    other => {
                        let mut line = chars_of("  - ");
                        crate::text::push_all(&mut line, &scalar(other));
                        out.push(line);
                        assert(crate::text::views(out@) =~= before.push(line@));
                    },
                }
                assert(crate::text::views(out@) + rest =~= head + item_lines(
                    iv,
                    0,
                    below@,
                    added.positions(),
                ));
                j = j + 1;
            }
            assert(crate::text::views(out@) =~= head + item_lines(iv, 0, below@, added.positions()));
            out
        },
        other => {
            let mut line = joined(name, ": ");
            crate::text::push_all(&mut line, &scalar(other));
            one_line(line)
        },
    }
}

/// One `@schema` mapping as the comment lines a values file carries it as, each behind `# ` at
/// the indentation given, a blank one as a bare `#`.
pub fn render(schema: &Json, indent: usize, added: &Added) -> (lines: Vec<String>)
    ensures
        strs(lines@) == render_spec(view_of(*schema), indent as nat, added.positions()),
{
    let mut padding: Vec<char> = Vec::new();
    let mut p: usize = 0;
    while p < indent
        invariant
            p <= indent,
            padding@ == Seq::new(p as nat, |i: int| ' '),
        decreases indent - p,
    {
        padding.push(' ');
        assert(padding@ =~= Seq::new((p + 1) as nat, |i: int| ' '));
        p = p + 1;
    }
    let empty: Vec<char> = Vec::new();
    let body = lines_of(schema, &empty, added);
    assert(empty@ =~= Seq::<char>::empty());
    let ghost bv = crate::text::views(body@);
    let mut out: Vec<String> = Vec::new();
    let mut k: usize = 0;
    while k < body.len()
        invariant
            k <= body@.len(),
            bv == crate::text::views(body@),
            padding@ == Seq::new(indent as nat, |i: int| ' '),
            strs(out@) == bv.take(k as int).map_values(
                |l: Seq<char>|
                    if l.len() == 0 {
                        Seq::new(indent as nat, |i: int| ' ') + "#"@
                    } else {
                        Seq::new(indent as nat, |i: int| ' ') + "# "@ + l
                    },
            ),
        decreases body.len() - k,
    {
        let mut line = crate::text::slice_of(&padding, 0, padding.len());
        assert(padding@.subrange(0, padding@.len() as int) =~= padding@);
        if body[k].len() == 0 {
            push_str(&mut line, "#");
        } else {
            push_str(&mut line, "# ");
            crate::text::push_all(&mut line, &body[k]);
        }
        let ghost before = strs(out@);
        let ghost f = |l: Seq<char>|
            if l.len() == 0 {
                Seq::new(indent as nat, |i: int| ' ') + "#"@
            } else {
                Seq::new(indent as nat, |i: int| ' ') + "# "@ + l
            };
        assert(bv[k as int] == body@[k as int]@);
        assert(line@ == f(bv[k as int]));
        out.push(string_of(&line));
        assert(strs(out@) =~= before.push(line@));
        assert(bv.take(k + 1).map_values(f) =~= bv.take(k as int).map_values(f).push(f(bv[k as int])));
        assert(strs(out@) =~= bv.take(k + 1).map_values(
            |l: Seq<char>|
                if l.len() == 0 {
                    Seq::new(indent as nat, |i: int| ' ') + "#"@
                } else {
                    Seq::new(indent as nat, |i: int| ' ') + "# "@ + l
                },
        ));
        k = k + 1;
    }
    assert(bv.take(body@.len() as int) =~= bv);
    out
}

// ------------------------------------------------------------------------------------------------
// Reading a chart's own block
// ------------------------------------------------------------------------------------------------

/// What one line inside an `@schema` block says, once its `#` and the single space after it are
/// taken off; `None` for a line that is not a comment.
pub open spec fn comment_body(line: Seq<char>) -> Option<Seq<char>> {
    let t = crate::text::trim_spec(line);
    if t.len() > 0 && t[0] == '#' {
        let rest = t.drop_first();
        Some(
            if rest.len() > 0 && rest[0] == ' ' {
                rest.drop_first()
            } else {
                rest
            },
        )
    } else {
        None
    }
}

/// Why a line inside an `@schema` block cannot be read.
pub open spec fn not_a_comment(line: Seq<char>) -> Seq<char> {
    "line '"@ + line + "' inside an `@schema` block is not a comment"@
}

/// The bodies of the first `n` lines, or why the first that is not a comment cannot be read.
pub open spec fn bodies(lines: Seq<Seq<char>>, n: nat) -> Result<Seq<Seq<char>>, Seq<char>>
    decreases n,
{
    if n == 0 || n > lines.len() {
        Ok(seq![])
    } else {
        match bodies(lines, (n - 1) as nat) {
            Err(m) => Err(m),
            Ok(b) => match comment_body(lines[n - 1]) {
                Some(body) => Ok(b.push(body)),
                None => Err(not_a_comment(lines[n - 1])),
            },
        }
    }
}

/// The YAML text of a block's schema: `None` when every line of it is blank, so the schema is
/// the empty mapping; the lines joined otherwise; or why a line is not a comment.
pub open spec fn schema_body_spec(lines: Seq<Seq<char>>) -> Result<Option<Seq<char>>, Seq<char>> {
    let schema = crate::shapes::split_block_spec(crate::markers::content_spec(lines)).1;
    match bodies(schema, schema.len()) {
        Err(m) => Err(m),
        Ok(b) => if forall|i: int| 0 <= i < b.len() ==> crate::text::trim_spec(#[trigger] b[i]).len()
            == 0 {
            Ok(None)
        } else {
            Ok(Some(crate::text::join_spec(b, seq!['\n'])))
        },
    }
}

/// The YAML text of a block's schema, its comment markers taken off: `None` when there is no
/// schema in it at all.
///
/// The text is parsed outside the library; `schema_of` reads what the parse gives back.
pub fn schema_body(block: &Block) -> (r: Result<Option<String>, crate::Error>)
    ensures
        match r {
            Ok(Some(t)) => schema_body_spec(block@.lines) == Ok::<Option<Seq<char>>, Seq<char>>(Some(t@)),
            Ok(None) => schema_body_spec(block@.lines) == Ok::<Option<Seq<char>>, Seq<char>>(None),
            Err(e) => e is Invalid && schema_body_spec(block@.lines) == Err::<Option<Seq<char>>, Seq<char>>(
                e.said(),
            ),
        },
{
    let (_, lines) = crate::shapes::split_block(block);
    let ghost ls = strs(lines@);
    assert(ls =~= crate::shapes::split_block_spec(crate::markers::content_spec(block@.lines)).1);
    let mut body: Vec<Vec<char>> = Vec::new();
    assert(crate::text::views(body@) =~= Seq::<Seq<char>>::empty());
    let mut k: usize = 0;
    while k < lines.len()
        invariant
            k <= lines@.len(),
            ls == strs(lines@),
            ls == crate::shapes::split_block_spec(crate::markers::content_spec(block@.lines)).1,
            bodies(ls, k as nat) == Ok::<Seq<Seq<char>>, Seq<char>>(crate::text::views(body@)),
        decreases lines.len() - k,
    {
        let stripped = crate::text::trim(&chars(&lines[k]));
        assert(ls[k as int] == lines@[k as int]@);
        if stripped.len() == 0 || stripped[0] != '#' {
            let mut m = chars_of("line '");
            push_str(&mut m, lines[k].as_str());
            push_str(&mut m, "' inside an `@schema` block is not a comment");
            assert(comment_body(ls[k as int]) is None);
            assert(m@ == not_a_comment(ls[k as int]));
            assert(bodies(ls, (k + 1) as nat) == Err::<Seq<Seq<char>>, Seq<char>>(m@));
            proof {
                lemma_bodies_stop(ls, (k + 1) as nat);
            }
            return Err(crate::Error::Invalid(string_of(&m)));
        }
        let rest = crate::text::slice_of(&stripped, 1, stripped.len());
        assert(rest@ =~= stripped@.drop_first());
        let one = if rest.len() > 0 && rest[0] == ' ' {
            let v = crate::text::slice_of(&rest, 1, rest.len());
            assert(v@ =~= rest@.drop_first());
            v
        } else {
            rest
        };
        let ghost before = crate::text::views(body@);
        body.push(one);
        assert(crate::text::views(body@) =~= before.push(one@));
        k = k + 1;
    }
    proof {
        lemma_bodies_stop(ls, ls.len());
    }
    assert(ls =~= crate::shapes::split_block_spec(crate::markers::content_spec(block@.lines)).1);
    let mut all_blank = true;
    let mut m: usize = 0;
    while m < body.len()
        invariant
            m <= body@.len(),
            all_blank == forall|i: int| 0 <= i < m ==> crate::text::trim_spec(
                #[trigger] crate::text::views(body@)[i],
            ).len() == 0,
        decreases body.len() - m,
    {
        let t = crate::text::trim(&body[m]);
        assert(crate::text::views(body@)[m as int] == body@[m as int]@);
        if t.len() > 0 {
            all_blank = false;
        }
        m = m + 1;
    }
    if all_blank {
        Ok(None)
    } else {
        let joined = crate::text::join(&body, &chars_of("\n"));
        proof {
            reveal_strlit("\n");
            assert("\n"@ =~= seq!['\n']);
        }
        Ok(Some(string_of(&joined)))
    }
}

/// Once a line stops the reading, the reading stays stopped; before, it carries on.
proof fn lemma_bodies_stop(lines: Seq<Seq<char>>, k: nat)
    requires
        k <= lines.len(),
    ensures
        bodies(lines, k) is Err ==> bodies(lines, lines.len()) == bodies(lines, k),
    decreases lines.len() - k,
{
    if k < lines.len() {
        lemma_bodies_stop(lines, k + 1);
    }
}

/// What a parsed `@schema` block reads as: nothing is the empty mapping, a mapping is itself, and
/// anything else is refused.
pub open spec fn schema_of_spec(parsed: JsonView) -> Result<JsonView, Seq<char>> {
    match parsed {
        JsonView::Null => Ok(JsonView::Object(seq![])),
        JsonView::Object(f) => Ok(parsed),
        _ => Err("an `@schema` block has to be a mapping"@),
    }
}

/// What a parsed `@schema` block reads as: the schema half of one block as the mapping a schema
/// generator reads it as.
pub fn schema_of(parsed: Json) -> (r: Result<Json, crate::Error>)
    ensures
        match r {
            Ok(j) => schema_of_spec(view_of(parsed)) == Ok::<JsonView, Seq<char>>(view_of(j)),
            Err(e) => e is Invalid && schema_of_spec(view_of(parsed)) == Err::<JsonView, Seq<char>>(
                e.said(),
            ),
        },
{
    match parsed {
        Json::Null => {
            let empty: Vec<(String, Json)> = Vec::new();
            proof {
                lemma_fields_view(empty@, 0);
            }
            Ok(Json::Object(empty))
        },
        Json::Object(f) => Ok(Json::Object(f)),
        _ => Err(crate::Error::Invalid("an `@schema` block has to be a mapping".to_owned())),
    }
}

} // verus!
