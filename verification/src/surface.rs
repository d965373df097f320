//! One chart's settings as its images describe them, and the sections `explain` prints about the
//! variables that are not settings.
//!
//! A setting is held as the occurrences rather than as a merged entry, because the divergence
//! between two images' descriptions is a thing to print, not a thing to resolve. Reading one field
//! of it applies the merge rule: `required` unions, prose takes the first non-empty description,
//! and everything else takes the first image's.

use vstd::prelude::*;

use crate::explain::{describe_constraint, describe_spec, prose, prose_spec, wrap, Reader};
use crate::explain::lookup;
use crate::json::{field_index, get_spec, json_same, json_text, text_spec, Json};
use crate::report::{Finding, Report};
use crate::order::{ascending, held, insert_sorted, text_lt};
use crate::text::{
    chars, chars_of, decimal, decimal_of, join, join_spec, push_all, push_str, string_of, strs,
    views,
};

verus! {

/// One setting, and every image that declared it: the image's name and the entry it published.
pub struct Setting {
    /// The path, variable or name it is keyed on.
    pub name: String,
    /// Each image that declared it, and what it said.
    pub occurrences: Vec<(String, Vec<(String, Json)>)>,
}

/// The images that declared a setting, in the order they were absorbed.
pub open spec fn readers_spec(occurrences: Seq<(String, Vec<(String, Json)>)>) -> Seq<Seq<char>> {
    occurrences.map_values(|o: (String, Vec<(String, Json)>)| o.0@)
}

/// Whether a published value says nothing: null, an empty text, list or mapping.
pub open spec fn is_empty_spec(value: Json) -> bool {
    match value {
        Json::Null => true,
        Json::Str(t) => t@.len() == 0,
        Json::Array(items) => items@.len() == 0,
        Json::Object(fields) => fields@.len() == 0,
        _ => false,
    }
}

/// Whether a field is one whose representative is the first non-empty description.
pub open spec fn is_prose(name: Seq<char>) -> bool {
    name == "docs"@ || name == "note"@
}

/// The first non-empty value of a field among the occurrences from `k` on.
pub open spec fn first_said(
    occurrences: Seq<(String, Vec<(String, Json)>)>,
    name: Seq<char>,
    k: int,
) -> Option<Json>
    decreases occurrences.len() - k,
{
    if k < 0 || k >= occurrences.len() {
        None
    } else {
        match lookup(occurrences[k].1@, name) {
            Some(v) => if !is_empty_spec(v) {
                Some(v)
            } else {
                first_said(occurrences, name, k + 1)
            },
            None => first_said(occurrences, name, k + 1),
        }
    }
}

/// Whether any occurrence marks the setting required.
pub open spec fn any_required(occurrences: Seq<(String, Vec<(String, Json)>)>) -> bool {
    exists|k: int|
        0 <= k < occurrences.len() && lookup(#[trigger] occurrences[k].1@, "required"@) == Some(
            Json::Bool(true),
        )
}

/// The value to show for one field other than `required`: prose takes the first non-empty, and
/// everything else the first image's.
pub open spec fn value_spec(occurrences: Seq<(String, Vec<(String, Json)>)>, name: Seq<char>) -> Option<
    Json,
> {
    if name == "required"@ {
        Some(Json::Bool(any_required(occurrences)))
    } else if is_prose(name) {
        first_said(occurrences, name, 0)
    } else if occurrences.len() == 0 {
        None
    } else {
        lookup(occurrences[0].1@, name)
    }
}

/// Whether a published value says nothing.
pub fn is_empty(value: &Json) -> (b: bool)
    ensures
        b == is_empty_spec(*value),
{
    match value {
        Json::Null => true,
        Json::Str(t) => chars(t).len() == 0,
        Json::Array(items) => items.len() == 0,
        Json::Object(fields) => fields.len() == 0,
        _ => false,
    }
}

impl Setting {
    /// The images that declared it, in the order they were absorbed.
    pub fn readers(&self) -> (r: Vec<String>)
        ensures
            strs(r@) == readers_spec(self.occurrences@),
    {
        let mut out: Vec<String> = Vec::new();
        let mut k: usize = 0;
        while k < self.occurrences.len()
            invariant
                k <= self.occurrences@.len(),
                strs(out@) == readers_spec(self.occurrences@.take(k as int)),
            decreases self.occurrences.len() - k,
        {
            let ghost before = strs(out@);
            out.push(self.occurrences[k].0.clone());
            assert(strs(out@) =~= before.push(self.occurrences@[k as int].0@));
            assert(readers_spec(self.occurrences@.take(k + 1)) =~= readers_spec(
                self.occurrences@.take(k as int),
            ).push(self.occurrences@[k as int].0@));
            k = k + 1;
        }
        assert(self.occurrences@.take(self.occurrences@.len() as int) =~= self.occurrences@);
        out
    }

    /// Whether any image that declared the setting requires it: the merge rule for `required`,
    /// since a setting any reader requires must be present.
    pub fn required(&self) -> (b: bool)
        ensures
            b == any_required(self.occurrences@),
    {
        let mut k: usize = 0;
        while k < self.occurrences.len()
            invariant
                k <= self.occurrences@.len(),
                forall|j: int|
                    0 <= j < k ==> lookup(#[trigger] self.occurrences@[j].1@, "required"@) != Some(
                        Json::Bool(true),
                    ),
            decreases self.occurrences.len() - k,
        {
            let fields = &self.occurrences[k].1;
            let at = field_index(fields, "required");
            if at < fields.len() {
                match &fields[at].1 {
                    Json::Bool(true) => {
                        assert(lookup(self.occurrences@[k as int].1@, "required"@) == Some(
                            Json::Bool(true),
                        ));
                        return true;
                    },
                    _ => {},
                }
            }
            k = k + 1;
        }
        false
    }

    /// The value to show for one field: `required` is whether any image requires it, prose takes
    /// the first non-empty description, everything else the first image's.
    pub fn value(&self, name: &str) -> (r: Option<&Json>)
        ensures
            r == match value_spec(self.occurrences@, name@) {
                Some(v) => Some(&v),
                None => None::<&Json>,
            },
    {
        let held = chars_of(name);
        proof {
            reveal_strlit("required");
        }
        if crate::text::same(&held, &chars_of("required")) {
            return if self.required() {
                Some(&Json::Bool(true))
            } else {
                Some(&Json::Bool(false))
            };
        }
        let prose_field = crate::text::same(&held, &chars_of("docs")) || crate::text::same(
            &held,
            &chars_of("note"),
        );
        assert(prose_field == is_prose(name@));
        if prose_field {
            let mut k: usize = 0;
            while k < self.occurrences.len()
                invariant
                    k <= self.occurrences@.len(),
                    is_prose(name@),
                    name@ != "required"@,
                    first_said(self.occurrences@, name@, 0) == first_said(
                        self.occurrences@,
                        name@,
                        k as int,
                    ),
                decreases self.occurrences.len() - k,
            {
                let fields = &self.occurrences[k].1;
                let at = field_index(fields, name);
                if at < fields.len() && !is_empty(&fields[at].1) {
                    assert(lookup(self.occurrences@[k as int].1@, name@) == Some(
                        fields@[at as int].1,
                    ));
                    assert(first_said(self.occurrences@, name@, k as int) == Some(
                        fields@[at as int].1,
                    ));
                    return Some(&fields[at].1);
                }
                assert(first_said(self.occurrences@, name@, k as int) == first_said(
                    self.occurrences@,
                    name@,
                    k + 1,
                ));
                k = k + 1;
            }
            None
        } else if self.occurrences.len() == 0 {
            None
        } else {
            let fields = &self.occurrences[0].1;
            let at = field_index(fields, name);
            if at < fields.len() {
                Some(&fields[at].1)
            } else {
                None
            }
        }
    }
}

/// The names of a list of fields, in order.
pub open spec fn field_names(fields: Seq<(String, Json)>) -> Seq<Seq<char>> {
    fields.map_values(|f: (String, Json)| f.0@)
}

/// Every field name the occurrences' entries carry, entry by entry.
pub open spec fn names_of(occurrences: Seq<(String, Vec<(String, Json)>)>) -> Seq<Seq<char>>
    decreases occurrences.len(),
{
    if occurrences.len() == 0 {
        seq![]
    } else {
        names_of(occurrences.drop_last()) + field_names(occurrences.last().1@)
    }
}

/// The value a setting's representative entry holds for one field: `required` unioned across the
/// images, any other field as `value` shows it, and `null` where that shows nothing.
pub open spec fn representative_value(
    occurrences: Seq<(String, Vec<(String, Json)>)>,
    name: Seq<char>,
) -> Json {
    if name == "required"@ {
        Json::Bool(any_required(occurrences))
    } else {
        match value_spec(occurrences, name) {
            Some(v) => v,
            None => Json::Null,
        }
    }
}

impl Setting {
    /// One entry standing for every image's: each field any image published, in name order, with
    /// the value `value` shows for it (`required` unioned, `null` where nothing is shown).
    pub fn representative(&self) -> (entry: Vec<(String, Json)>)
        ensures
            ascending(field_names(entry@)),
            held(field_names(entry@)) == held(names_of(self.occurrences@)),
            forall|k: int|
                0 <= k < entry@.len() ==> crate::json::view_of(#[trigger] entry@[k].1)
                    == crate::json::view_of(representative_value(self.occurrences@, entry@[k].0@)),
    {
        let ghost occ = self.occurrences@;
        let mut names: Vec<String> = Vec::new();
        assert(occ.take(0) =~= Seq::<(String, Vec<(String, Json)>)>::empty());
        assert(held(strs(names@)) =~= held(names_of(occ.take(0))));
        let mut k: usize = 0;
        while k < self.occurrences.len()
            invariant
                k <= occ.len(),
                occ == self.occurrences@,
                ascending(strs(names@)),
                held(strs(names@)) == held(names_of(occ.take(k as int))),
            decreases self.occurrences.len() - k,
        {
            let fields = &self.occurrences[k].1;
            let ghost start = names_of(occ.take(k as int));
            let ghost keys = field_names(fields@);
            assert(start + keys.take(0) =~= start);
            let mut f: usize = 0;
            while f < fields.len()
                invariant
                    f <= fields@.len(),
                    keys == field_names(fields@),
                    keys.len() == fields@.len(),
                    ascending(strs(names@)),
                    held(strs(names@)) == held(start + keys.take(f as int)),
                decreases fields.len() - f,
            {
                assert(start + keys.take(f + 1) =~= (start + keys.take(f as int)).push(
                    fields@[f as int].0@,
                ));
                proof {
                    (start + keys.take(f as int)).lemma_push_to_set_commute(fields@[f as int].0@);
                }
                insert_sorted(&mut names, fields[f].0.clone());
                f = f + 1;
            }
            assert(keys.take(fields@.len() as int) =~= keys);
            assert(occ.take(k + 1).drop_last() =~= occ.take(k as int));
            assert(occ.take(k + 1).last() == occ[k as int]);
            k = k + 1;
        }
        assert(occ.take(occ.len() as int) =~= occ);
        let mut entry: Vec<(String, Json)> = Vec::new();
        let mut i: usize = 0;
        while i < names.len()
            invariant
                i <= names@.len(),
                occ == self.occurrences@,
                entry@.len() == i,
                field_names(entry@) == strs(names@).take(i as int),
                forall|k: int|
                    0 <= k < i ==> crate::json::view_of(#[trigger] entry@[k].1)
                        == crate::json::view_of(representative_value(occ, entry@[k].0@)),
            decreases names.len() - i,
        {
            proof {
                reveal_strlit("required");
            }
            let value = if names[i] == "required".to_owned() {
                Json::Bool(self.required())
            } else {
                match self.value(names[i].as_str()) {
                    Some(v) => v.copy(),
                    None => Json::Null,
                }
            };
            let ghost before = entry@;
            assert(field_names(before).len() == i);
            entry.push((names[i].clone(), value));
            assert forall|n: int| 0 <= n < i + 1 implies #[trigger] field_names(entry@)[n]
                == strs(names@).take(i + 1)[n] by {
                if n < i {
                    assert(field_names(before)[n] == strs(names@).take(i as int)[n]);
                    assert(entry@[n] == before[n]);
                }
            }
            assert(field_names(entry@) =~= strs(names@).take(i + 1));
            assert forall|k: int| 0 <= k < i + 1 implies crate::json::view_of(#[trigger] entry@[k].1)
                == crate::json::view_of(representative_value(occ, entry@[k].0@)) by {
                if k < i {
                    assert(entry@[k] == before[k]);
                }
            }
            i = i + 1;
        }
        assert(strs(names@).take(names@.len() as int) =~= strs(names@));
        entry
    }
}

/// A field's value in one entry, `null` where the entry has none.
pub open spec fn entry_value(fields: Seq<(String, Json)>, name: Seq<char>) -> Json {
    match lookup(fields, name) {
        Some(v) => v,
        None => Json::Null,
    }
}

/// The first group, from `j` on, whose value is the same as `v`.
pub open spec fn first_same(seen: Seq<(Json, Seq<Seq<char>>)>, v: Json, j: int) -> int
    decreases seen.len() - j,
{
    if j < 0 || j >= seen.len() {
        seen.len() as int
    } else if json_same(seen[j].0, v) {
        j
    } else {
        first_same(seen, v, j + 1)
    }
}

/// One more image's value, put with the first group holding the same value or in a new one.
pub open spec fn place(seen: Seq<(Json, Seq<Seq<char>>)>, v: Json, reader: Seq<char>) -> Seq<
    (Json, Seq<Seq<char>>),
> {
    let j = first_same(seen, v, 0);
    if 0 <= j < seen.len() {
        seen.update(j, (seen[j].0, seen[j].1.push(reader)))
    } else {
        seen.push((v, seq![reader]))
    }
}

/// Each distinct value of one field, in the order first published, with the images that
/// published it.
pub open spec fn variants_spec(occurrences: Seq<(String, Vec<(String, Json)>)>, name: Seq<char>) -> Seq<
    (Json, Seq<Seq<char>>),
>
    decreases occurrences.len(),
{
    if occurrences.len() == 0 {
        seq![]
    } else {
        place(
            variants_spec(occurrences.drop_last(), name),
            entry_value(occurrences.last().1@, name),
            occurrences.last().0@,
        )
    }
}

/// A value held by reference, `null` where there is none.
pub open spec fn or_null(o: Option<&Json>) -> Json {
    match o {
        Some(v) => *v,
        None => Json::Null,
    }
}

/// Whether two values, `null` standing for a missing one, are the same.
fn same_or_null(a: Option<&Json>, b: Option<&Json>) -> (r: bool)
    ensures
        r == json_same(or_null(a), or_null(b)),
{
    let null = Json::Null;
    let x = match a {
        Some(v) => v,
        None => &null,
    };
    let y = match b {
        Some(v) => v,
        None => &null,
    };
    x.same(y)
}

/// A copy of a list of texts.
fn copied(list: &Vec<String>) -> (r: Vec<String>)
    ensures
        strs(r@) == strs(list@),
{
    let mut out: Vec<String> = Vec::new();
    let mut k: usize = 0;
    while k < list.len()
        invariant
            k <= list@.len(),
            strs(out@) == strs(list@).take(k as int),
        decreases list.len() - k,
    {
        let ghost before = strs(out@);
        out.push(list[k].clone());
        assert(strs(out@) =~= before.push(list@[k as int]@));
        assert(strs(list@).take(k + 1) =~= strs(list@).take(k as int).push(list@[k as int]@));
        k = k + 1;
    }
    assert(strs(list@).take(list@.len() as int) =~= strs(list@));
    out
}

/// The names of every field any occurrence publishes.
pub open spec fn published(occurrences: Seq<(String, Vec<(String, Json)>)>) -> Set<Seq<char>> {
    Set::new(
        |n: Seq<char>|
            exists|k: int, f: int|
                0 <= k < occurrences.len() && 0 <= f < occurrences[k].1@.len()
                    && #[trigger] occurrences[k].1@[f].0@ == n,
    )
}

/// Fields two images describe differently; `required` is left out, since it unions by rule.
pub open spec fn divergent_spec(occurrences: Seq<(String, Vec<(String, Json)>)>) -> Set<Seq<char>> {
    published(occurrences).filter(
        |n: Seq<char>| n != "required"@ && variants_spec(occurrences, n).len() > 1,
    )
}

impl Setting {
    /// Each distinct value of one field, with the images that published it, in the order each
    /// value was first published; a missing field counts as `null`.
    pub fn variants(&self, name: &str) -> (r: Vec<(Option<&Json>, Vec<String>)>)
        ensures
            r@.len() == variants_spec(self.occurrences@, name@).len(),
            forall|i: int|
                0 <= i < r@.len() ==> or_null(#[trigger] r@[i].0) == variants_spec(
                    self.occurrences@,
                    name@,
                )[i].0 && strs(r@[i].1@) == variants_spec(self.occurrences@, name@)[i].1,
    {
        let mut values: Vec<Option<&Json>> = Vec::new();
        let mut readers: Vec<Vec<String>> = Vec::new();
        let mut k: usize = 0;
        while k < self.occurrences.len()
            invariant
                k <= self.occurrences@.len(),
                values@.len() == readers@.len(),
                values@.len() == variants_spec(self.occurrences@.take(k as int), name@).len(),
                forall|i: int|
                    0 <= i < values@.len() ==> or_null(#[trigger] values@[i]) == variants_spec(
                        self.occurrences@.take(k as int),
                        name@,
                    )[i].0 && strs(readers@[i]@) == variants_spec(
                        self.occurrences@.take(k as int),
                        name@,
                    )[i].1,
            decreases self.occurrences.len() - k,
        {
            let ghost seen = variants_spec(self.occurrences@.take(k as int), name@);
            assert(self.occurrences@.take(k + 1).drop_last() =~= self.occurrences@.take(k as int));
            assert(self.occurrences@.take(k + 1).last() == self.occurrences@[k as int]);
            let fields = &self.occurrences[k].1;
            let at = field_index(fields, name);
            let value: Option<&Json> = if at < fields.len() {
                Some(&fields[at].1)
            } else {
                None
            };
            assert(or_null(value) == entry_value(fields@, name@));
            let mut j: usize = 0;
            while j < values.len()
                invariant
                    j <= values@.len(),
                    values@.len() == seen.len(),
                    forall|i: int| 0 <= i < values@.len() ==> or_null(#[trigger] values@[i]) == seen[i].0,
                    first_same(seen, or_null(value), 0) == first_same(seen, or_null(value), j as int),
                ensures
                    j <= values@.len(),
                    j < values@.len() ==> json_same(seen[j as int].0, or_null(value)),
                    first_same(seen, or_null(value), 0) == first_same(seen, or_null(value), j as int),
                decreases values.len() - j,
            {
                if same_or_null(values[j], value) {
                    break;
                }
                j = j + 1;
            }
            let reader = self.occurrences[k].0.clone();
            if j < values.len() {
                assert(first_same(seen, or_null(value), 0) == j);
                let mut grown = copied(&readers[j]);
                let ghost old_readers = readers@;
                grown.push(reader);
                readers.set(j, grown);
                assert forall|i: int| 0 <= i < values@.len() implies or_null(
                    #[trigger] values@[i],
                ) == place(seen, or_null(value), self.occurrences@[k as int].0@)[i].0 && strs(
                    readers@[i]@,
                ) == place(seen, or_null(value), self.occurrences@[k as int].0@)[i].1 by {
                    if i == j {
                        assert(strs(readers@[i]@) =~= strs(old_readers[i]@).push(reader@));
                    }
                }
            } else {
                assert(first_same(seen, or_null(value), 0) == seen.len());
                values.push(value);
                let mut fresh: Vec<String> = Vec::new();
                fresh.push(reader);
                assert(strs(fresh@) =~= seq![reader@]);
                readers.push(fresh);
                assert forall|i: int| 0 <= i < values@.len() implies or_null(
                    #[trigger] values@[i],
                ) == place(seen, or_null(value), self.occurrences@[k as int].0@)[i].0 && strs(
                    readers@[i]@,
                ) == place(seen, or_null(value), self.occurrences@[k as int].0@)[i].1 by {}
            }
            k = k + 1;
        }
        assert(self.occurrences@.take(self.occurrences@.len() as int) =~= self.occurrences@);
        let mut out: Vec<(Option<&Json>, Vec<String>)> = Vec::new();
        let mut m: usize = 0;
        while m < values.len()
            invariant
                m <= values@.len(),
                values@.len() == readers@.len(),
                out@.len() == m,
                forall|i: int|
                    0 <= i < m ==> (#[trigger] out@[i]).0 == values@[i] && strs(out@[i].1@)
                        == strs(readers@[i]@),
            decreases values.len() - m,
        {
            out.push((values[m], copied(&readers[m])));
            m = m + 1;
        }
        out
    }

    /// Fields two images describe differently, sorted; `required` is left out, since it unions
    /// by rule.
    pub fn divergent(&self) -> (names: Vec<String>)
        ensures
            ascending(strs(names@)),
            held(strs(names@)) == divergent_spec(self.occurrences@),
    {
        let mut all: Vec<String> = Vec::new();
        let mut k: usize = 0;
        while k < self.occurrences.len()
            invariant
                k <= self.occurrences@.len(),
                ascending(strs(all@)),
                held(strs(all@)) == published(self.occurrences@.take(k as int)),
            decreases self.occurrences.len() - k,
        {
            let fields = &self.occurrences[k].1;
            let mut f: usize = 0;
            while f < fields.len()
                invariant
                    f <= fields@.len(),
                    *fields == self.occurrences@[k as int].1,
                    k < self.occurrences@.len(),
                    ascending(strs(all@)),
                    held(strs(all@)) == published(self.occurrences@.take(k as int)).union(
                        Set::new(|n: Seq<char>| exists|g: int| 0 <= g < f && #[trigger] fields@[g].0@ == n),
                    ),
                decreases fields.len() - f,
            {
                let ghost before = held(strs(all@));
                insert_sorted(&mut all, fields[f].0.clone());
                assert(held(strs(all@)) =~= published(self.occurrences@.take(k as int)).union(
                    Set::new(|n: Seq<char>| exists|g: int| 0 <= g < f + 1 && #[trigger] fields@[g].0@ == n),
                )) by {
                    assert forall|n: Seq<char>| held(strs(all@)).contains(n) == published(
                        self.occurrences@.take(k as int),
                    ).union(
                        Set::new(|n: Seq<char>| exists|g: int| 0 <= g < f + 1 && #[trigger] fields@[g].0@ == n),
                    ).contains(n) by {
                        if n == fields@[f as int].0@ {
                        } else if exists|g: int| 0 <= g < f + 1 && #[trigger] fields@[g].0@ == n {
                            let g = choose|g: int| 0 <= g < f + 1 && #[trigger] fields@[g].0@ == n;
                            assert(g < f);
                        }
                    }
                }
                f = f + 1;
            }
            assert(held(strs(all@)) =~= published(self.occurrences@.take(k + 1))) by {
                let now = self.occurrences@.take(k + 1);
                let was = self.occurrences@.take(k as int);
                assert forall|n: Seq<char>| held(strs(all@)).contains(n) == published(now).contains(n) by {
                    if published(now).contains(n) {
                        let (a, g) = choose|a: int, g: int|
                            0 <= a < now.len() && 0 <= g < now[a].1@.len() && #[trigger] now[a].1@[g].0@ == n;
                        if a < k {
                            assert(was[a] == now[a]);
                            assert(published(was).contains(n));
                        } else {
                            assert(now[a] == self.occurrences@[k as int]);
                            assert(fields@[g].0@ == n);
                        }
                    }
                    if held(strs(all@)).contains(n) {
                        if published(was).contains(n) {
                            let (a, g) = choose|a: int, g: int|
                                0 <= a < was.len() && 0 <= g < was[a].1@.len() && #[trigger] was[a].1@[g].0@ == n;
                            assert(now[a] == was[a]);
                            assert(now[a].1@[g].0@ == n);
                        } else {
                            let g = choose|g: int| 0 <= g < fields@.len() && #[trigger] fields@[g].0@ == n;
                            assert(now[k as int] == self.occurrences@[k as int]);
                            assert(now[k as int].1@[g].0@ == n);
                        }
                    }
                }
            }
            k = k + 1;
        }
        assert(self.occurrences@.take(self.occurrences@.len() as int) =~= self.occurrences@);
        let mut names: Vec<String> = Vec::new();
        let mut m: usize = 0;
        let ghost keep_it = |n: Seq<char>| n != "required"@ && variants_spec(self.occurrences@, n).len() > 1;
        while m < all.len()
            invariant
                m <= all@.len(),
                keep_it == (|n: Seq<char>| n != "required"@ && variants_spec(self.occurrences@, n).len() > 1),
                ascending(strs(names@)),
                held(strs(names@)) == held(strs(all@).take(m as int)).filter(keep_it),
            decreases all.len() - m,
        {
            let name = &all[m];
            proof {
                reveal_strlit("required");
            }
            let keep = !crate::text::same(&chars(name), &chars_of("required")) && self.variants(
                name.as_str(),
            ).len() > 1;
            assert(keep == keep_it(name@));
            let ghost before = held(strs(names@));
            if keep {
                insert_sorted(&mut names, name.clone());
            }
            assert(strs(all@).take(m + 1) =~= strs(all@).take(m as int).push(name@));
            assert(held(strs(names@)) =~= held(strs(all@).take(m + 1)).filter(keep_it)) by {
                assert forall|n: Seq<char>| held(strs(names@)).contains(n) == held(
                    strs(all@).take(m + 1),
                ).filter(keep_it).contains(n) by {
                    assert(held(strs(all@).take(m + 1)).contains(n) == (held(
                        strs(all@).take(m as int),
                    ).contains(n) || n == name@)) by {
                        let t = strs(all@).take(m + 1);
                        if t.contains(n) {
                            let i = choose|i: int| 0 <= i < t.len() && t[i] == n;
                            if i < m {
                                assert(strs(all@).take(m as int)[i] == n);
                            }
                        }
                        if strs(all@).take(m as int).contains(n) {
                            let i = choose|i: int| 0 <= i < m && strs(all@).take(m as int)[i] == n;
                            assert(t[i] == n);
                        }
                        if n == name@ {
                            assert(t[m as int] == n);
                        }
                    }
                }
            }
            m = m + 1;
        }
        assert(strs(all@).take(all@.len() as int) =~= strs(all@));
        assert(held(strs(names@)) =~= divergent_spec(self.occurrences@));
        names
    }
}

/// Everything one chart's images read, merged across every document the chart declares.
pub struct Surface {
    /// The chart.
    pub chart: String,
    /// The spelling rules the first image absorbed uses.
    pub dialect: Vec<(String, Json)>,
    /// The images.
    pub readers: Vec<Reader>,
    /// Every configuration key, in path order.
    pub keys: Vec<Setting>,
    /// Every loader variable, in name order.
    pub loader: Vec<Setting>,
    /// Every declared external variable, in name order.
    pub external: Vec<Setting>,
    /// The ignore patterns, in the order they were absorbed.
    pub ignore: Vec<String>,
    /// The strictest policy any image declared.
    pub unknown: String,
}

/// The images that read one setting, or `all N` when that is every image the chart pins.
pub open spec fn reader_list_spec(occurrences: Seq<(String, Vec<(String, Json)>)>, total: nat) -> Seq<
    char,
> {
    if total > 1 && occurrences.len() == total {
        "all "@ + decimal(total)
    } else {
        join_spec(readers_spec(occurrences), ", "@)
    }
}

/// The images that read one setting, or `all N` when that is every image the chart pins.
pub fn reader_list(setting: &Setting, total: usize) -> (s: String)
    ensures
        s@ == reader_list_spec(setting.occurrences@, total as nat),
{
    if total > 1 && setting.occurrences.len() == total {
        let mut v = chars_of("all ");
        push_all(&mut v, &decimal_of(total as u64));
        return string_of(&v);
    }
    let names = setting.readers();
    let mut parts: Vec<Vec<char>> = Vec::new();
    let mut k: usize = 0;
    while k < names.len()
        invariant
            k <= names@.len(),
            views(parts@) == strs(names@).take(k as int),
        decreases names.len() - k,
    {
        let ghost before = views(parts@);
        parts.push(chars(&names[k]));
        assert(views(parts@) =~= before.push(names@[k as int]@));
        assert(strs(names@).take(k + 1) =~= strs(names@).take(k as int).push(names@[k as int]@));
        k = k + 1;
    }
    assert(strs(names@).take(names@.len() as int) =~= strs(names@));
    string_of(&join(&parts, &chars_of(", ")))
}

/// A default as the loader would read it: `-` for none, `(empty)` for an empty text, a text as
/// itself and anything else as JSON.
pub open spec fn shown_spec(value: Option<Json>) -> Seq<char> {
    match value {
        None => "-"@,
        Some(Json::Null) => "-"@,
        Some(Json::Str(t)) => if t@.len() == 0 {
            "(empty)"@
        } else {
            t@
        },
        Some(other) => json_text(other),
    }
}

/// A value as a default is shown.
fn shown(value: Option<&Json>) -> (s: String)
    ensures
        s@ == shown_spec(
            match value {
                Some(v) => Some(*v),
                None => None,
            },
        ),
{
    match value {
        None => "-".to_owned(),
        Some(Json::Null) => "-".to_owned(),
        Some(Json::Str(t)) => if chars(t).len() == 0 {
            "(empty)".to_owned()
        } else {
            t.clone()
        },
        Some(other) => other.to_json(),
    }
}

/// The default as the loader would read it, or `-` when the entry has none.
///
/// An empty string is a default, not an absence, so it is spelt out rather than folded into the
/// same dash.
pub fn shown_default(entry: &Vec<(String, Json)>) -> (s: String)
    ensures
        s@ == shown_spec(lookup(entry@, "default"@)),
{
    let k = field_index(entry, "default");
    if k < entry.len() {
        shown(Some(&entry[k].1))
    } else {
        shown(None)
    }
}

/// Whether an entry's boolean field is `true`.
pub open spec fn flag_spec(entry: Seq<(String, Json)>, name: Seq<char>) -> bool {
    lookup(entry, name) == Some(Json::Bool(true))
}

/// Whether an entry's boolean field is `true`.
fn flag(entry: &Vec<(String, Json)>, name: &str) -> (b: bool)
    ensures
        b == flag_spec(entry@, name@),
{
    let k = field_index(entry, name);
    if k < entry.len() {
        match &entry[k].1 {
            Json::Bool(true) => true,
            _ => false,
        }
    } else {
        false
    }
}

/// The two-character flag column: `R` required, `S` secret, `.` for each that is not.
pub open spec fn markers_spec(entry: Seq<(String, Json)>) -> Seq<char> {
    (if flag_spec(entry, "required"@) {
        "R"@
    } else {
        "."@
    }) + (if flag_spec(entry, "secret"@) {
        "S"@
    } else {
        "."@
    })
}

/// The two-character flag column: `R` required, `S` secret.
pub fn markers(entry: &Vec<(String, Json)>) -> (s: String)
    ensures
        s@ == markers_spec(entry@),
{
    let mut v: Vec<char> = Vec::new();
    if flag(entry, "required") {
        push_str(&mut v, "R");
    } else {
        push_str(&mut v, ".");
    }
    if flag(entry, "secret") {
        push_str(&mut v, "S");
    } else {
        push_str(&mut v, ".");
    }
    string_of(&v)
}

/// One boolean field, as the entry reads: `yes` or `no`.
pub fn yes_no(entry: &Vec<(String, Json)>, name: &str) -> (s: &'static str)
    ensures
        s@ == if flag_spec(entry@, name@) {
            "yes"@
        } else {
            "no"@
        },
{
    if flag(entry, name) {
        "yes"
    } else {
        "no"
    }
}

/// A field of a setting's representative entry as text, `null` for anything but a text.
pub open spec fn field_spec(occurrences: Seq<(String, Vec<(String, Json)>)>, name: Seq<char>) -> Seq<
    char,
> {
    match value_spec(occurrences, name) {
        Some(Json::Str(t)) => t@,
        _ => "null"@,
    }
}

/// The documentation a variable's representative entry carries, when it is a non-empty text.
pub open spec fn docs_spec(occurrences: Seq<(String, Vec<(String, Json)>)>) -> Option<Seq<char>> {
    match value_spec(occurrences, "docs"@) {
        Some(Json::Str(d)) => if d@.len() > 0 {
            Some(d@)
        } else {
            None
        },
        _ => None,
    }
}

/// One loader or external variable: its name and summary, its prose, and who reads it.
pub open spec fn variable_spec(setting: Setting, summary: Seq<char>, total: nat) -> Seq<Seq<char>> {
    seq!["    "@ + setting.name@ + "  ("@ + summary + ")"@] + (match docs_spec(
        setting.occurrences@,
    ) {
        Some(d) => prose_spec(d, "        "@),
        None => seq![],
    }) + (if total > 1 {
        seq!["        read by  "@ + reader_list_spec(setting.occurrences@, total)]
    } else {
        seq![]
    })
}

/// A setting's field as text, `null` for anything but a text.
fn field(setting: &Setting, name: &str) -> (s: Vec<char>)
    requires
        name@ != "required"@,
    ensures
        s@ == field_spec(setting.occurrences@, name@),
{
    match setting.value(name) {
        Some(Json::Str(t)) => chars(t),
        _ => chars_of("null"),
    }
}

/// One loader or external variable: what it is, what it says, and who reads it.
///
/// Neither is a setting, so neither gets the full entry: there is no path, no file spelling and
/// no secrets file to report. What they have in common is a name, a one-line summary and prose.
pub fn variable(setting: &Setting, summary: &str, total: usize) -> (lines: Vec<String>)
    ensures
        strs(lines@) == variable_spec(*setting, summary@, total as nat),
{
    proof {
        reveal_strlit("docs");
        reveal_strlit("required");
        reveal_strlit("        ");
        assert("docs"@.len() != "required"@.len());
    }
    let mut head = chars_of("    ");
    push_str(&mut head, setting.name.as_str());
    push_str(&mut head, "  (");
    push_str(&mut head, summary);
    push_str(&mut head, ")");
    let mut lines: Vec<String> = vec![string_of(&head)];
    assert(strs(lines@) =~= seq![head@]);
    let docs: Option<&String> = match setting.value("docs") {
        Some(Json::Str(d)) => if chars(d).len() > 0 {
            Some(d)
        } else {
            None
        },
        _ => None,
    };
    match docs {
        Some(d) => {
            let mut more = prose(d.as_str(), "        ");
            let ghost before = strs(lines@);
            lines.append(&mut more);
            assert(strs(lines@) =~= before + prose_spec(d@, "        "@));
        },
        None => {},
    }
    if total > 1 {
        let mut v = chars_of("        read by  ");
        push_str(&mut v, reader_list(setting, total).as_str());
        let ghost before = strs(lines@);
        lines.push(string_of(&v));
        assert(strs(lines@) =~= before.push(v@));
    }
    lines
}

/// The heading of the loader variables.
pub const LOADER_HEADING: &'static str = "\n==> loader variables — where the settings are read from\n\n";

/// The heading of the external variables.
pub const EXTERNAL_HEADING: &'static str = "\n==> external variables — read by the image, and nobody's configuration\n\n";

/// What is said of every external variable before any is listed.
pub const EXTERNAL_NOTE: &'static str = "These are not settings. They belong to a runtime or a library the image carries, they are outside the loader's namespace, and nothing in this chart's document can change one. A value set here and expected to reach the application's configuration is a value that is ignored.";

/// A loader variable's summary: its role and its default.
pub open spec fn loader_summary(setting: Setting) -> Seq<char> {
    "role "@ + field_spec(setting.occurrences@, "role"@) + ", default "@ + shown_spec(
        value_spec(setting.occurrences@, "default"@),
    )
}

/// The phrase a setting's constraint reads as, nothing when it has none.
pub open spec fn constraint_of(setting: Setting) -> Seq<char> {
    match value_spec(setting.occurrences@, "constraint"@) {
        Some(c) => describe_spec(c),
        None => seq![],
    }
}

/// An external variable's summary: its owner, its type and constraint, and its default.
pub open spec fn external_summary(setting: Setting) -> Seq<char> {
    let c = constraint_of(setting);
    "owner "@ + field_spec(setting.occurrences@, "owner"@) + ", "@ + field_spec(
        setting.occurrences@,
        "ty"@,
    ) + (if c.len() == 0 {
        seq![]
    } else {
        ", "@ + c
    }) + ", default "@ + shown_spec(value_spec(setting.occurrences@, "default"@))
}

/// Each variable as its block of lines joined.
pub open spec fn blocks_spec(settings: Seq<&Setting>, external: bool, total: nat) -> Seq<Seq<char>> {
    settings.map_values(
        |s: &Setting|
            join_spec(
                variable_spec(
                    *s,
                    if external {
                        external_summary(*s)
                    } else {
                        loader_summary(*s)
                    },
                    total,
                ),
                "\n"@,
            ),
    )
}

/// The dialect's prefix, nothing when it names none.
pub open spec fn prefix_spec(dialect: Seq<(String, Json)>) -> Seq<char> {
    match lookup(dialect, "prefix"@) {
        Some(Json::Str(t)) => t@,
        _ => seq![],
    }
}

/// The two sections that are not settings: what locates the document, and what is nobody's.
pub open spec fn variable_sections_spec(
    dialect: Seq<(String, Json)>,
    unknown: Seq<char>,
    ignore: Seq<Seq<char>>,
    loader: Seq<&Setting>,
    external: Seq<&Setting>,
    total: nat,
) -> Seq<char> {
    let head = if loader.len() > 0 {
        LOADER_HEADING@ + join_spec(blocks_spec(loader, false, total), "\n\n"@) + "\n"@
    } else {
        seq![]
    };
    if external.len() == 0 {
        head
    } else {
        head + EXTERNAL_HEADING@ + join_spec(prose_spec(EXTERNAL_NOTE@, "    "@), "\n"@) + "\n"@
            + "\n"@ + join_spec(blocks_spec(external, true, total), "\n\n"@) + "\n"@
            + "\n    unaccounted-for variables under "@ + prefix_spec(dialect) + "*: "@ + unknown
            + "\n"@ + (if ignore.len() > 0 {
            "    ignored by pattern: "@ + join_spec(ignore, ", "@) + "\n"@
        } else {
            seq![]
        })
    }
}

/// A setting's value of a field as a default is shown.
fn shown_field(setting: &Setting, name: &str) -> (s: String)
    requires
        name@ != "required"@,
    ensures
        s@ == shown_spec(value_spec(setting.occurrences@, name@)),
{
    shown(setting.value(name))
}

/// A loader variable's summary.
fn loader_line(setting: &Setting) -> (s: String)
    ensures
        s@ == loader_summary(*setting),
{
    proof {
        reveal_strlit("role");
        reveal_strlit("default");
        reveal_strlit("required");
        assert("role"@.len() != "required"@.len());
        assert("default"@.len() != "required"@.len());
    }
    let mut v = chars_of("role ");
    push_all(&mut v, &field(setting, "role"));
    push_str(&mut v, ", default ");
    push_str(&mut v, shown_field(setting, "default").as_str());
    string_of(&v)
}

/// An external variable's summary.
fn external_line(setting: &Setting) -> (s: String)
    ensures
        s@ == external_summary(*setting),
{
    proof {
        reveal_strlit("owner");
        reveal_strlit("ty");
        reveal_strlit("constraint");
        reveal_strlit("default");
        reveal_strlit("required");
        assert("owner"@.len() != "required"@.len());
        assert("ty"@.len() != "required"@.len());
        assert("constraint"@.len() != "required"@.len());
        assert("default"@.len() != "required"@.len());
    }
    let constraint = chars(&describe_constraint(setting.value("constraint")));
    let mut v = chars_of("owner ");
    push_all(&mut v, &field(setting, "owner"));
    push_str(&mut v, ", ");
    push_all(&mut v, &field(setting, "ty"));
    if constraint.len() > 0 {
        push_str(&mut v, ", ");
        push_all(&mut v, &constraint);
    }
    push_str(&mut v, ", default ");
    push_str(&mut v, shown_field(setting, "default").as_str());
    string_of(&v)
}

/// Each variable as its block of lines, joined.
fn blocks(settings: &Vec<&Setting>, external: bool, total: usize) -> (r: Vec<Vec<char>>)
    ensures
        views(r@) == blocks_spec(settings@, external, total as nat),
{
    let mut out: Vec<Vec<char>> = Vec::new();
    let mut k: usize = 0;
    while k < settings.len()
        invariant
            k <= settings@.len(),
            views(out@) == blocks_spec(settings@.take(k as int), external, total as nat),
        decreases settings.len() - k,
    {
        let setting = settings[k];
        let summary = if external {
            external_line(setting)
        } else {
            loader_line(setting)
        };
        let lines = variable(setting, summary.as_str(), total);
        let mut parts: Vec<Vec<char>> = Vec::new();
        let mut m: usize = 0;
        while m < lines.len()
            invariant
                m <= lines@.len(),
                views(parts@) == strs(lines@).take(m as int),
            decreases lines.len() - m,
        {
            let ghost before = views(parts@);
            parts.push(chars(&lines[m]));
            assert(views(parts@) =~= before.push(lines@[m as int]@));
            assert(strs(lines@).take(m + 1) =~= strs(lines@).take(m as int).push(
                lines@[m as int]@,
            ));
            m = m + 1;
        }
        assert(strs(lines@).take(lines@.len() as int) =~= strs(lines@));
        let block = join(&parts, &chars_of("\n"));
        let ghost before = views(out@);
        out.push(block);
        assert(views(out@) =~= before.push(block@));
        assert(blocks_spec(settings@.take(k + 1), external, total as nat) =~= blocks_spec(
            settings@.take(k as int),
            external,
            total as nat,
        ).push(block@));
        k = k + 1;
    }
    assert(settings@.take(settings@.len() as int) =~= settings@);
    out
}

/// The two sections that are not settings: what locates the document, and what is nobody's.
///
/// The loader variables are listed with their role and default; the external variables after a
/// paragraph saying what they are, each with its owner, type, constraint and default, and then
/// the policy for variables nobody declared and the patterns ignored.
#[verifier::rlimit(40)]
pub fn variable_sections(
    surface: &Surface,
    loader: &Vec<&Setting>,
    external: &Vec<&Setting>,
    total: usize,
) -> (s: String)
    ensures
        s@ == variable_sections_spec(
            surface.dialect@,
            surface.unknown@,
            strs(surface.ignore@),
            loader@,
            external@,
            total as nat,
        ),
{
    proof {
        reveal_strlit("    ");
    }
    let mut out: Vec<char> = Vec::new();
    if loader.len() > 0 {
        push_str(&mut out, LOADER_HEADING);
        push_all(&mut out, &join(&blocks(loader, false, total), &chars_of("\n\n")));
        push_str(&mut out, "\n");
    }
    if external.len() == 0 {
        return string_of(&out);
    }
    push_str(&mut out, EXTERNAL_HEADING);
    let note = prose(EXTERNAL_NOTE, "    ");
    let mut parts: Vec<Vec<char>> = Vec::new();
    let mut m: usize = 0;
    while m < note.len()
        invariant
            m <= note@.len(),
            views(parts@) == strs(note@).take(m as int),
        decreases note.len() - m,
    {
        let ghost before = views(parts@);
        parts.push(chars(&note[m]));
        assert(views(parts@) =~= before.push(note@[m as int]@));
        assert(strs(note@).take(m + 1) =~= strs(note@).take(m as int).push(note@[m as int]@));
        m = m + 1;
    }
    assert(strs(note@).take(note@.len() as int) =~= strs(note@));
    push_all(&mut out, &join(&parts, &chars_of("\n")));
    push_str(&mut out, "\n");
    push_str(&mut out, "\n");
    push_all(&mut out, &join(&blocks(external, true, total), &chars_of("\n\n")));
    push_str(&mut out, "\n");
    push_str(&mut out, "\n    unaccounted-for variables under ");
    let k = field_index(&surface.dialect, "prefix");
    if k < surface.dialect.len() {
        match &surface.dialect[k].1 {
            Json::Str(t) => push_str(&mut out, t.as_str()),
            _ => {},
        }
    }
    push_str(&mut out, "*: ");
    push_str(&mut out, surface.unknown.as_str());
    push_str(&mut out, "\n");
    if surface.ignore.len() > 0 {
        push_str(&mut out, "    ignored by pattern: ");
        let mut names: Vec<Vec<char>> = Vec::new();
        let mut j: usize = 0;
        while j < surface.ignore.len()
            invariant
                j <= surface.ignore@.len(),
                views(names@) == strs(surface.ignore@).take(j as int),
            decreases surface.ignore.len() - j,
        {
            let ghost before = views(names@);
            names.push(chars(&surface.ignore[j]));
            assert(views(names@) =~= before.push(surface.ignore@[j as int]@));
            assert(strs(surface.ignore@).take(j + 1) =~= strs(surface.ignore@).take(j as int).push(
                surface.ignore@[j as int]@,
            ));
            j = j + 1;
        }
        assert(strs(surface.ignore@).take(surface.ignore@.len() as int) =~= strs(surface.ignore@));
        push_all(&mut out, &join(&names, &chars_of(", ")));
        push_str(&mut out, "\n");
    }
    string_of(&out)
}

// ------------------------------------------------------------------------------------------------
// Choosing the settings a pattern names
// ------------------------------------------------------------------------------------------------

/// Whether a character is in a bracket set from index `at` on, ranges such as `a-z` included.
pub open spec fn in_set_spec(set: Seq<char>, c: char, at: int) -> bool
    decreases set.len() - at,
{
    if at < 0 || at >= set.len() {
        false
    } else if at + 2 < set.len() && set[at + 1] == '-' {
        ((set[at] as u32) <= (c as u32) && (c as u32) <= (set[at + 2] as u32)) || in_set_spec(
            set,
            c,
            at + 3,
        )
    } else {
        set[at] == c || in_set_spec(set, c, at + 1)
    }
}

/// Whether a shell-style glob matches a whole name: `*` any run, `?` any one character, `[...]` a
/// set (`[!...]` its complement), and every other character itself. A `[` with no `]` after its
/// first member is a literal `[`.
pub open spec fn glob_spec(p: Seq<char>, n: Seq<char>) -> bool
    decreases p.len(), 1nat, 0nat,
{
    if p.len() == 0 {
        n.len() == 0
    } else if p[0] == '*' {
        any_split(p.drop_first(), n, 0)
    } else if p[0] == '?' {
        n.len() > 0 && glob_spec(p.drop_first(), n.drop_first())
    } else if p[0] == '[' {
        let close = crate::text::next_char(p, ']', 0);
        if !(close < p.len() && close > 1) {
            n.len() > 0 && n[0] == '[' && glob_spec(p.drop_first(), n.drop_first())
        } else if n.len() == 0 {
            false
        } else {
            let negated = p[1] == '!';
            let from = if negated {
                2int
            } else {
                1int
            };
            let held = in_set_spec(p.subrange(from, close), n[0], 0);
            held != negated && glob_spec(p.subrange(close + 1, p.len() as int), n.drop_first())
        }
    } else {
        n.len() > 0 && n[0] == p[0] && glob_spec(p.drop_first(), n.drop_first())
    }
}

/// Whether the rest of a glob matches what is left of a name after some split from `at` on.
pub open spec fn any_split(q: Seq<char>, n: Seq<char>, at: int) -> bool
    decreases q.len() + 1, 0nat, n.len() + 1 - at,
{
    if at < 0 || at > n.len() {
        false
    } else {
        glob_spec(q, n.skip(at)) || any_split(q, n, at + 1)
    }
}

/// Whether a character is in a bracket set, ranges included.
fn in_set(set: &[char], c: char) -> (b: bool)
    ensures
        b == in_set_spec(set@, c, 0),
{
    let mut at: usize = 0;
    while at < set.len()
        invariant
            at <= set@.len(),
            in_set_spec(set@, c, 0) == in_set_spec(set@, c, at as int),
        decreases set.len() - at,
    {
        if set.len() - at > 2 && set[at + 1] == '-' {
            if (set[at] as u32) <= (c as u32) && (c as u32) <= (set[at + 2] as u32) {
                return true;
            }
            at = at + 3;
        } else {
            if set[at] == c {
                return true;
            }
            at = at + 1;
        }
    }
    false
}

proof fn lemma_next_char_skip(p: Seq<char>, c: char, i: int, j: int)
    requires
        0 <= i <= p.len(),
        0 <= j,
    ensures
        crate::text::next_char(p.skip(i), c, j) == crate::text::next_char(p, c, i + j) - i,
    decreases p.len() - i - j,
{
    if i + j < p.len() && p[i + j] != c {
        lemma_next_char_skip(p, c, i, j + 1);
    }
}

/// Whether the glob from `pi` on matches the name from `ni` on.
fn glob_from(p: &[char], pi: usize, n: &[char], ni: usize) -> (b: bool)
    requires
        pi <= p@.len(),
        ni <= n@.len(),
    ensures
        b == glob_spec(p@.skip(pi as int), n@.skip(ni as int)),
    decreases p@.len() - pi,
{
    let ghost q = p@.skip(pi as int);
    let ghost m = n@.skip(ni as int);
    if pi == p.len() {
        return ni == n.len();
    }
    assert(q[0] == p@[pi as int]);
    assert(q.drop_first() =~= p@.skip(pi + 1));
    if ni < n.len() {
        assert(m[0] == n@[ni as int]);
        assert(m.drop_first() =~= n@.skip(ni + 1));
    }
    let first = p[pi];
    if first == '*' {
        let mut at: usize = ni;
        loop
            invariant
                pi < p@.len() <= usize::MAX,
                ni <= at <= n@.len() <= usize::MAX,
                q == p@.skip(pi as int),
                m == n@.skip(ni as int),
                q.len() > 0 && q[0] == '*',
                q.drop_first() == p@.skip(pi + 1),
                any_split(q.drop_first(), m, 0) == any_split(q.drop_first(), m, at - ni),
            decreases n@.len() + 1 - at,
        {
            assert(m.skip(at - ni) =~= n@.skip(at as int));
            if glob_from(p, pi + 1, n, at) {
                return true;
            }
            if at == n.len() {
                assert(m.len() == at - ni);
                assert(!any_split(q.drop_first(), m, at - ni + 1));
                return false;
            }
            at = at + 1;
        }
    }
    if first == '?' {
        return ni < n.len() && glob_from(p, pi + 1, n, ni + 1);
    }
    if first == '[' {
        let close = crate::text::find_char(p, ']', pi);
        proof {
            lemma_next_char_skip(p@, ']', pi as int, 0);
        }
        let rel = close - pi;
        if !(close < p.len() && rel > 1) {
            return ni < n.len() && n[ni] == '[' && glob_from(p, pi + 1, n, ni + 1);
        }
        if ni == n.len() {
            return false;
        }
        let negated = p[pi + 1] == '!';
        assert(q[1] == p@[pi + 1]);
        let from: usize = if negated {
            2
        } else {
            1
        };
        let set = crate::text::slice_of(p, pi + from, close);
        assert(set@ =~= q.subrange(from as int, rel as int));
        let held = in_set(&set, n[ni]);
        assert(q.subrange(rel + 1, q.len() as int) =~= p@.skip(close + 1));
        return held != negated && glob_from(p, close + 1, n, ni + 1);
    }
    ni < n.len() && n[ni] == first && glob_from(p, pi + 1, n, ni + 1)
}

/// Whether a shell-style glob matches a whole name.
pub fn glob(pattern: &str, name: &str) -> (b: bool)
    ensures
        b == glob_spec(pattern@, name@),
{
    let p = chars_of(pattern);
    let n = chars_of(name);
    assert(p@.skip(0) =~= p@);
    assert(n@.skip(0) =~= n@);
    glob_from(&p, 0, &n, 0)
}

/// What `str::to_lowercase` makes of a text: its Unicode lower-case mapping.
pub uninterp spec fn lowercase(text: Seq<char>) -> Seq<char>;

/// `str::to_lowercase`.
///
/// Its contract names the result: a function of the text alone, the full Unicode mapping that
/// std's documentation describes, which this library does not restate.
#[verifier::external_body]
fn to_lowercase(text: &str) -> (s: String)
    ensures
        s@ == lowercase(text@),
{
    text.to_lowercase()
}

/// Whether a pattern is a glob: it carries `*`, `?` or `[`.
pub open spec fn is_glob(pattern: Seq<char>) -> bool {
    pattern.contains('*') || pattern.contains('?') || pattern.contains('[')
}

/// Whether a pattern names a setting: as a glob against the whole name, or else as a
/// case-insensitive substring of it.
pub open spec fn names_setting(pattern: Seq<char>, setting: Setting) -> bool {
    if is_glob(pattern) {
        glob_spec(pattern, setting.name@)
    } else {
        crate::text::contains_spec(lowercase(setting.name@), lowercase(pattern))
    }
}

/// The settings a pattern names, in their order; all of them for no pattern or an empty one.
pub open spec fn select_spec(settings: Seq<Setting>, pattern: Option<Seq<char>>) -> Seq<Setting> {
    match pattern {
        Some(p) => if p.len() == 0 {
            settings
        } else {
            settings.filter(|s: Setting| names_setting(p, s))
        },
        None => settings,
    }
}

/// The settings a pattern names, in path order.
///
/// A pattern carrying a glob metacharacter is matched as a glob against the whole name; anything
/// else is a case-insensitive substring, because the name an operator has in hand is usually a
/// fragment of a path they read in a values file.
pub fn select<'a>(settings: &'a Vec<Setting>, pattern: Option<&str>) -> (chosen: Vec<&'a Setting>)
    ensures
        chosen@.map_values(|s: &Setting| *s) == select_spec(
            settings@,
            match pattern {
                Some(p) => Some(p@),
                None => None,
            },
        ),
{
    let mut chosen: Vec<&'a Setting> = Vec::new();
    let wanted: Option<&str> = match pattern {
        Some(p) => if chars_of(p).len() > 0 {
            Some(p)
        } else {
            None
        },
        None => None,
    };
    match wanted {
        None => {
            let mut k: usize = 0;
            while k < settings.len()
                invariant
                    k <= settings@.len(),
                    chosen@.map_values(|s: &Setting| *s) == settings@.take(k as int),
                decreases settings.len() - k,
            {
                let ghost before = chosen@.map_values(|s: &Setting| *s);
                chosen.push(&settings[k]);
                assert(chosen@.map_values(|s: &Setting| *s) =~= before.push(settings@[k as int]));
                assert(settings@.take(k + 1) =~= settings@.take(k as int).push(settings@[k as int]));
                k = k + 1;
            }
            assert(settings@.take(settings@.len() as int) =~= settings@);
            chosen
        },
        Some(p) => {
            let held = chars_of(p);
            let as_glob = crate::text::contains_char(&held, '*') || crate::text::contains_char(
                &held,
                '?',
            ) || crate::text::contains_char(&held, '[');
            let lowered = chars(&to_lowercase(p));
            let ghost keep = |s: Setting| names_setting(p@, s);
            let mut k: usize = 0;
            while k < settings.len()
                invariant
                    k <= settings@.len(),
                    as_glob == is_glob(p@),
                    lowered@ == lowercase(p@),
                    keep == (|s: Setting| names_setting(p@, s)),
                    chosen@.map_values(|s: &Setting| *s) == settings@.take(k as int).filter(keep),
                decreases settings.len() - k,
            {
                let named = if as_glob {
                    glob(p, settings[k].name.as_str())
                } else {
                    let name = chars(&to_lowercase(settings[k].name.as_str()));
                    crate::text::contains(&name, &lowered)
                };
                assert(named == keep(settings@[k as int]));
                proof {
                    reveal(Seq::filter);
                    assert(settings@.take(k + 1).drop_last() =~= settings@.take(k as int));
                    assert(settings@.take(k + 1).last() == settings@[k as int]);
                }
                let ghost before = chosen@.map_values(|s: &Setting| *s);
                if named {
                    chosen.push(&settings[k]);
                    assert(chosen@.map_values(|s: &Setting| *s) =~= before.push(
                        settings@[k as int],
                    ));
                } else {
                    assert(chosen@.map_values(|s: &Setting| *s) =~= before);
                }
                k = k + 1;
            }
            assert(settings@.take(settings@.len() as int) =~= settings@);
            chosen
        },
    }
}

// ------------------------------------------------------------------------------------------------
// Everything one contract says about one setting
// ------------------------------------------------------------------------------------------------

/// `n` spaces.
pub open spec fn spaces(n: nat) -> Seq<char> {
    Seq::new(n, |i: int| ' ')
}

/// `n` spaces.
fn spaces_of(n: usize) -> (v: Vec<char>)
    ensures
        v@ == spaces(n as nat),
{
    let mut v: Vec<char> = Vec::new();
    let mut i: usize = 0;
    while i < n
        invariant
            i <= n,
            v@ == spaces(i as nat),
        decreases n - i,
    {
        v.push(' ');
        assert(v@ =~= spaces((i + 1) as nat));
        i = i + 1;
    }
    v
}

/// A row's label column: the label, padded with spaces to fourteen characters.
pub open spec fn padded(label: Seq<char>) -> Seq<char> {
    if label.len() >= 14 {
        label
    } else {
        label + spaces((14 - label.len()) as nat)
    }
}

/// Where a row's value starts: eight spaces, then the label column.
pub open spec fn margin_spec(label: Seq<char>) -> Seq<char> {
    spaces(8) + padded(label)
}

/// Wrapped lines set under a margin: the first after it, the rest under it.
pub open spec fn labelled(lines: Seq<Seq<char>>, margin: Seq<char>) -> Seq<Seq<char>> {
    Seq::new(
        lines.len(),
        |i: int|
            if i == 0 {
                margin + lines[i]
            } else {
                spaces(margin.len()) + lines[i]
            },
    )
}

/// One labelled value, wrapped under its own label to the width: nothing for an empty value.
#[verifier::opaque]
pub open spec fn row_spec(label: Seq<char>, value: Seq<char>) -> Seq<Seq<char>> {
    if value.len() == 0 {
        seq![]
    } else {
        labelled(
            crate::explain::wrap_spec(value, (crate::explain::WIDTH - margin_spec(label).len()) as nat),
            margin_spec(label),
        )
    }
}

/// One labelled line, wrapped under its own label rather than off the terminal.
fn row(into: &mut Vec<String>, label: &str, value: &str)
    requires
        label@.len() <= 88,
    ensures
        strs(final(into)@) == strs(old(into)@) + row_spec(label@, value@),
{
    reveal(row_spec);
    let ghost start = strs(into@);
    if value.is_empty() {
        assert(start + row_spec(label@, value@) =~= start);
        return;
    }
    let named = chars_of(label);
    let mut margin = spaces_of(8);
    push_all(&mut margin, &named);
    if named.len() < 14 {
        push_all(&mut margin, &spaces_of(14 - named.len()));
    }
    assert(margin@ =~= margin_spec(label@));
    let indent = spaces_of(margin.len());
    let lines = wrap(value, crate::explain::WIDTH - margin.len());
    let ghost want = labelled(strs(lines@), margin@);
    assert(start + want.take(0) =~= start);
    let mut i: usize = 0;
    while i < lines.len()
        invariant
            i <= lines@.len(),
            want == labelled(strs(lines@), margin@),
            want.len() == lines@.len(),
            indent@ == spaces(margin@.len()),
            strs(into@) == start + want.take(i as int),
        decreases lines.len() - i,
    {
        let mut line = if i == 0 {
            crate::text::slice_of(&margin, 0, margin.len())
        } else {
            crate::text::slice_of(&indent, 0, indent.len())
        };
        push_str(&mut line, lines[i].as_str());
        assert(line@ == want[i as int]);
        let ghost before = strs(into@);
        into.push(string_of(&line));
        assert(strs(into@) =~= before.push(line@));
        assert(want.take(i + 1) =~= want.take(i as int).push(want[i as int]));
        i = i + 1;
    }
    assert(want.take(lines@.len() as int) =~= want);
}

/// Whether any image's entry carries a field by this name.
fn carries(setting: &Setting, name: &str) -> (b: bool)
    ensures
        b == published(setting.occurrences@).contains(name@),
{
    let ghost occ = setting.occurrences@;
    let mut k: usize = 0;
    while k < setting.occurrences.len()
        invariant
            k <= occ.len(),
            occ == setting.occurrences@,
            forall|j: int, f: int|
                0 <= j < k && 0 <= f < occ[j].1@.len() ==> #[trigger] occ[j].1@[f].0@ != name@,
        decreases setting.occurrences.len() - k,
    {
        let fields = &setting.occurrences[k].1;
        let at = field_index(fields, name);
        proof {
            crate::json::lemma_field_at(fields@, name@, fields@.len() as int);
        }
        if at < fields.len() {
            assert(occ[k as int].1@[at as int].0@ == name@);
            return true;
        }
        k = k + 1;
    }
    false
}

/// A field of the setting's representative entry: absent where no image publishes it.
#[verifier::opaque]
pub open spec fn rep_field(occurrences: Seq<(String, Vec<(String, Json)>)>, name: Seq<char>) -> Option<
    Json,
> {
    if published(occurrences).contains(name) {
        Some(representative_value(occurrences, name))
    } else {
        None
    }
}

/// A field of the setting's representative entry, other than `required`.
fn rep_get<'a>(setting: &'a Setting, name: &str, null: &'a Json) -> (r: Option<&'a Json>)
    requires
        name@ != "required"@,
        *null == Json::Null,
    ensures
        match r {
            Some(v) => rep_field(setting.occurrences@, name@) == Some(*v),
            None => rep_field(setting.occurrences@, name@) is None,
        },
{
    reveal(rep_field);
    if !carries(setting, name) {
        return None;
    }
    match setting.value(name) {
        Some(v) => Some(v),
        None => Some(null),
    }
}

/// Whether a field of the representative entry is `true`.
pub open spec fn rep_flag(occurrences: Seq<(String, Vec<(String, Json)>)>, name: Seq<char>) -> bool {
    rep_field(occurrences, name) == Some(Json::Bool(true))
}

/// Every item of a list as a value is printed, in order.
pub open spec fn plains(items: Seq<Json>) -> Seq<Seq<char>> {
    items.map_values(|v: Json| crate::explain::plain_spec(v))
}

/// Every item of a list as a value is printed, joined with a separator.
fn plain_joined(items: &Vec<Json>, sep: &str) -> (s: String)
    ensures
        s@ == join_spec(plains(items@), sep@),
{
    let mut parts: Vec<Vec<char>> = Vec::new();
    let mut k: usize = 0;
    while k < items.len()
        invariant
            k <= items@.len(),
            views(parts@) == plains(items@).take(k as int),
        decreases items.len() - k,
    {
        let ghost before = views(parts@);
        let one = crate::explain::plain(&items[k]);
        parts.push(chars(&one));
        assert(views(parts@) =~= before.push(one@));
        assert(plains(items@).take(k + 1) =~= plains(items@).take(k as int).push(
            crate::explain::plain_spec(items@[k as int]),
        ));
        k = k + 1;
    }
    assert(plains(items@).take(items@.len() as int) =~= plains(items@));
    string_of(&join(&parts, &chars_of(sep)))
}

/// The rows a list field of the representative entry gives: one, joining the items, where it is a
/// non-empty list.
pub open spec fn list_row(
    occurrences: Seq<(String, Vec<(String, Json)>)>,
    label: Seq<char>,
    name: Seq<char>,
    sep: Seq<char>,
) -> Seq<Seq<char>> {
    match rep_field(occurrences, name) {
        Some(Json::Array(items)) => if items@.len() > 0 {
            row_spec(label, join_spec(plains(items@), sep))
        } else {
            seq![]
        },
        _ => seq![],
    }
}

/// The row a list field gives, where it is a non-empty list.
fn list_row_of(into: &mut Vec<String>, setting: &Setting, label: &str, name: &str, sep: &str)
    requires
        label@.len() <= 88,
        name@ != "required"@,
    ensures
        strs(final(into)@) == strs(old(into)@) + list_row(setting.occurrences@, label@, name@, sep@),
{
    let ghost start = strs(into@);
    let null = Json::Null;
    match rep_get(setting, name, &null) {
        Some(Json::Array(items)) => {
            if items.len() > 0 {
                row(into, label, plain_joined(items, sep).as_str());
                return;
            }
        },
        _ => {},
    }
    assert(start + list_row(setting.occurrences@, label@, name@, sep@) =~= start);
}

/// The row a spelling field of the representative entry gives, where it says something.
pub open spec fn spelling_row(
    occurrences: Seq<(String, Vec<(String, Json)>)>,
    label: Seq<char>,
    name: Seq<char>,
) -> Seq<Seq<char>> {
    match rep_field(occurrences, name) {
        Some(v) => if !is_empty_spec(v) {
            row_spec(label, crate::explain::plain_spec(v))
        } else {
            seq![]
        },
        None => seq![],
    }
}

/// The row a spelling field gives, where it says something.
fn spelling_row_of(into: &mut Vec<String>, setting: &Setting, label: &str, name: &str)
    requires
        label@.len() <= 88,
        name@ != "required"@,
    ensures
        strs(final(into)@) == strs(old(into)@) + spelling_row(setting.occurrences@, label@, name@),
{
    let ghost start = strs(into@);
    let null = Json::Null;
    match rep_get(setting, name, &null) {
        Some(v) => {
            if !is_empty(v) {
                row(into, label, crate::explain::plain(v).as_str());
                return;
            }
        },
        None => {},
    }
    assert(start + spelling_row(setting.occurrences@, label@, name@) =~= start);
}

/// The suffix a dialect spells the file form of a variable with: `_FILE` where it names none.
pub open spec fn suffix_spec(dialect: Seq<(String, Json)>) -> Seq<char> {
    match lookup(dialect, "indirection_suffix"@) {
        Some(Json::Str(t)) => t@,
        _ => "_FILE"@,
    }
}

/// Whether the representative entry spells a file form of the key.
pub open spec fn by_file(occurrences: Seq<(String, Vec<(String, Json)>)>) -> bool {
    ||| (match rep_field(occurrences, "env_file"@) {
        Some(v) => !is_empty_spec(v),
        None => false,
    })
    ||| (match rep_field(occurrences, "secrets_file"@) {
        Some(v) => !is_empty_spec(v),
        None => false,
    })
}

/// Every name the loader accepts for one key, and whether a file can supply it: `form` is the form
/// the key is read as, and `from_file` whether a file's text can supply that form.
pub open spec fn spellings_spec(
    occurrences: Seq<(String, Vec<(String, Json)>)>,
    dialect: Seq<(String, Json)>,
    form: Seq<char>,
    from_file: bool,
) -> Seq<Seq<char>> {
    spelling_row(occurrences, "environment"@, "env"@) + spelling_row(
        occurrences,
        suffix_spec(dialect) + " form"@,
        "env_file"@,
    ) + spelling_row(occurrences, "secrets file"@, "secrets_file"@) + list_row(
        occurrences,
        "env aliases"@,
        "env_aliases"@,
        ", "@,
    ) + list_row(occurrences, "aliases"@, "aliases"@, ", "@) + list_row(
        occurrences,
        "secrets file aliases"@,
        "secrets_file_aliases"@,
        ", "@,
    ) + if !by_file(occurrences) {
        seq![]
    } else if from_file {
        row_spec("from a file"@, "yes"@)
    } else {
        row_spec(
            "from a file"@,
            "no — a file supplies text, and this key is read as "@ + form
                + "; set it in the document or the environment"@,
        )
    }
}

/// Every name the loader will accept for one key, and whether a file can supply it.
///
/// For a key of any form but text neither file spelling can supply it: a file delivers a string,
/// and a loader will not coerce one into a number, a boolean or a literal.
fn spellings(
    lines: &mut Vec<String>,
    setting: &Setting,
    dialect: &Vec<(String, Json)>,
    form: &str,
    from_file: bool,
)
    requires
        suffix_spec(dialect@).len() <= 83,
    ensures
        strs(final(lines)@) == strs(old(lines)@) + spellings_spec(
            setting.occurrences@,
            dialect@,
            form@,
            from_file,
        ),
{
    proof {
        reveal_strlit("required");
        reveal_strlit("env");
        reveal_strlit("env_file");
        reveal_strlit("secrets_file");
        reveal_strlit("env_aliases");
        reveal_strlit("aliases");
        reveal_strlit("secrets_file_aliases");
        reveal_strlit("environment");
        reveal_strlit(" form");
        reveal_strlit("secrets file");
        reveal_strlit("env aliases");
        reveal_strlit("secrets file aliases");
        reveal_strlit("from a file");
        reveal_strlit("_FILE");
        assert("env"@.len() != "required"@.len());
        assert("env_file"@[0] != "required"@[0]);
        assert("secrets_file"@.len() != "required"@.len());
        assert("env_aliases"@.len() != "required"@.len());
        assert("aliases"@.len() != "required"@.len());
        assert("secrets_file_aliases"@.len() != "required"@.len());
    }
    let ghost start = strs(lines@);
    let ghost occ = setting.occurrences@;
    let at = field_index(dialect, "indirection_suffix");
    let mut label = if at < dialect.len() {
        match &dialect[at].1 {
            Json::Str(t) => chars(t),
            _ => chars_of("_FILE"),
        }
    } else {
        chars_of("_FILE")
    };
    push_str(&mut label, " form");
    assert(label@ == suffix_spec(dialect@) + " form"@);
    let label = string_of(&label);
    spelling_row_of(lines, setting, "environment", "env");
    spelling_row_of(lines, setting, label.as_str(), "env_file");
    spelling_row_of(lines, setting, "secrets file", "secrets_file");
    list_row_of(lines, setting, "env aliases", "env_aliases", ", ");
    list_row_of(lines, setting, "aliases", "aliases", ", ");
    list_row_of(lines, setting, "secrets file aliases", "secrets_file_aliases", ", ");
    let ghost middle = strs(lines@);
    let null = Json::Null;
    let file_form = match rep_get(setting, "env_file", &null) {
        Some(v) => !is_empty(v),
        None => false,
    };
    let secrets_form = match rep_get(setting, "secrets_file", &null) {
        Some(v) => !is_empty(v),
        None => false,
    };
    if !(file_form || secrets_form) {
        assert(middle + seq![] =~= middle);
        return;
    }
    if from_file {
        row(lines, "from a file", "yes");
    } else {
        let mut said = chars_of("no — a file supplies text, and this key is read as ");
        push_str(&mut said, form);
        push_str(&mut said, "; set it in the document or the environment");
        row(lines, "from a file", string_of(&said).as_str());
    }
}

/// The type the representative entry names, `?` where it names none.
pub open spec fn ty_spec(occurrences: Seq<(String, Vec<(String, Json)>)>) -> Seq<char> {
    match rep_field(occurrences, "ty"@) {
        Some(Json::Str(t)) => t@,
        _ => "?"@,
    }
}

/// A constraint in words, nothing where there is none.
pub open spec fn described(constraint: Option<Json>) -> Seq<char> {
    match constraint {
        Some(c) => describe_spec(c),
        None => seq![],
    }
}

/// What a documentation variant is shown as: its text, or `(nothing)` where it has none.
pub open spec fn docs_text(value: Json) -> Seq<char> {
    match value {
        Json::Str(t) => if t@.len() == 0 {
            "(nothing)"@
        } else {
            t@
        },
        _ => "(nothing)"@,
    }
}

/// Each documentation variant: the images that published it, then it as prose.
pub open spec fn variant_lines(variants: Seq<(Json, Seq<Seq<char>>)>) -> Seq<Seq<char>>
    decreases variants.len(),
{
    if variants.len() == 0 {
        seq![]
    } else {
        variant_lines(variants.drop_last()) + seq![
            "          "@ + join_spec(variants.last().1, ", "@) + ":"@,
        ] + prose_spec(docs_text(variants.last().0), spaces(12))
    }
}

/// The fields two images describe differently, in order: the one list in order that holds them.
pub open spec fn divergent_names(occurrences: Seq<(String, Vec<(String, Json)>)>) -> Seq<Seq<char>> {
    choose|u: Seq<Seq<char>>| ascending(u) && held(u) == divergent_spec(occurrences)
}

/// A list of names without `docs`, in order.
pub open spec fn without_docs(names: Seq<Seq<char>>) -> Seq<Seq<char>>
    decreases names.len(),
{
    if names.len() == 0 {
        seq![]
    } else if names.last() == "docs"@ {
        without_docs(names.drop_last())
    } else {
        without_docs(names.drop_last()).push(names.last())
    }
}

/// The documentation lines: every variant where the images disagree on it, else the one text.
pub open spec fn docs_lines(occurrences: Seq<(String, Vec<(String, Json)>)>) -> Seq<Seq<char>> {
    if divergent_spec(occurrences).contains("docs"@) {
        seq!["        docs (the images disagree)"@] + variant_lines(
            variants_spec(occurrences, "docs"@),
        )
    } else {
        match value_spec(occurrences, "docs"@) {
            Some(Json::Str(d)) => seq!["        docs"@] + prose_spec(d@, spaces(12)),
            _ => seq![],
        }
    }
}

/// The row naming the other fields the images disagree on, and whose values are shown.
pub open spec fn disagreement_spec(occurrences: Seq<(String, Vec<(String, Json)>)>) -> Seq<
    Seq<char>,
> {
    let remaining = without_docs(divergent_names(occurrences));
    let first = if occurrences.len() > 0 {
        occurrences[0].0@
    } else {
        seq![]
    };
    if remaining.len() == 0 {
        seq![]
    } else {
        row_spec(
            "disagreement"@,
            "the images describe "@ + join_spec(remaining, ", "@)
                + " differently; the values above are "@ + first + "'s"@,
        )
    }
}

/// The first rows of a setting's entry: type and form, and its flags.
pub open spec fn flag_rows(occ: Seq<(String, Vec<(String, Json)>)>, form: Seq<char>) -> Seq<
    Seq<char>,
> {
    row_spec("type"@, ty_spec(occ) + "  (read as "@ + form + ")"@) + row_spec(
        "required"@,
        if any_required(occ) {
            "yes"@
        } else {
            "no"@
        },
    ) + row_spec(
        "secret"@,
        if rep_flag(occ, "secret"@) {
            "yes"@
        } else {
            "no"@
        },
    ) + (if rep_flag(occ, "reserved"@) {
        row_spec(
            "reserved"@,
            "yes — the loader claims this path; a deployment must not set it"@,
        )
    } else {
        seq![]
    })
}

/// The rows of a setting's entry after its flags: default, note, values, what it accepts, and who
/// reads it.
pub open spec fn value_rows(occ: Seq<(String, Vec<(String, Json)>)>, total: nat) -> Seq<Seq<char>> {
    row_spec("default"@, shown_spec(rep_field(occ, "default"@))) + row_spec(
        "note"@,
        match value_spec(occ, "note"@) {
            Some(v) => crate::explain::plain_spec(v),
            None => seq![],
        },
    ) + list_row(occ, "values"@, "values"@, " | "@) + row_spec(
        "accepts"@,
        described(rep_field(occ, "constraint"@)),
    ) + row_spec("as text"@, described(rep_field(occ, "text_constraint"@))) + (if total > 1 {
        row_spec("read by"@, reader_list_spec(occ, total))
    } else {
        seq![]
    })
}

/// The rows of a setting's entry: type and form, flags, default, note, values, what it accepts,
/// and who reads it.
pub open spec fn entry_rows(
    occ: Seq<(String, Vec<(String, Json)>)>,
    total: nat,
    form: Seq<char>,
) -> Seq<Seq<char>> {
    flag_rows(occ, form) + value_rows(occ, total)
}

/// Everything one contract says about one setting, as `full` prints it: `form` is the form the
/// key is read as, and `from_file` whether a file can supply it.
pub open spec fn full_spec(
    setting: Setting,
    dialect: Seq<(String, Json)>,
    total: nat,
    form: Seq<char>,
    from_file: bool,
) -> Seq<Seq<char>> {
    let occ = setting.occurrences@;
    seq!["    "@ + setting.name@] + entry_rows(occ, total, form) + spellings_spec(
        occ,
        dialect,
        form,
        from_file,
    ) + docs_lines(occ) + disagreement_spec(occ) + seq![seq![]]
}

/// Whether a text is `docs`.
fn is_docs(name: &String) -> (b: bool)
    ensures
        b == (name@ == "docs"@),
{
    *name == "docs".to_owned()
}

/// The documentation lines of one setting.
fn docs_of(lines: &mut Vec<String>, setting: &Setting, divergent: &Vec<String>)
    requires
        held(strs(divergent@)) == divergent_spec(setting.occurrences@),
    ensures
        strs(final(lines)@) == strs(old(lines)@) + docs_lines(setting.occurrences@),
{
    proof {
        reveal_strlit("docs");
        reveal_strlit("required");
        assert("docs"@.len() != "required"@.len());
        reveal_strlit("            ");
        assert("            "@ =~= spaces(12));
    }
    let ghost start = strs(lines@);
    let ghost occ = setting.occurrences@;
    let mut disputed = false;
    let mut k: usize = 0;
    while k < divergent.len()
        invariant
            k <= divergent@.len(),
            disputed == strs(divergent@).take(k as int).contains("docs"@),
        decreases divergent.len() - k,
    {
        assert(strs(divergent@).take(k + 1) =~= strs(divergent@).take(k as int).push(
            divergent@[k as int]@,
        ));
        let ghost prefix = strs(divergent@).take(k as int);
        let ghost next = strs(divergent@).take(k + 1);
        if is_docs(&divergent[k]) {
            disputed = true;
            assert(next[k as int] == "docs"@);
        } else {
            assert(next.contains("docs"@) ==> prefix.contains("docs"@)) by {
                if next.contains("docs"@) {
                    let i = choose|i: int| 0 <= i < next.len() && next[i] == "docs"@;
                    assert(i != k);
                    assert(prefix[i] == "docs"@);
                }
            }
            assert(prefix.contains("docs"@) ==> next.contains("docs"@)) by {
                if prefix.contains("docs"@) {
                    let i = choose|i: int| 0 <= i < prefix.len() && prefix[i] == "docs"@;
                    assert(next[i] == "docs"@);
                }
            }
        }
        k = k + 1;
    }
    assert(strs(divergent@).take(divergent@.len() as int) =~= strs(divergent@));
    assert(disputed == divergent_spec(occ).contains("docs"@)) by {
        if divergent_spec(occ).contains("docs"@) {
            assert(held(strs(divergent@)).contains("docs"@));
        }
    }
    if disputed {
        lines.push("        docs (the images disagree)".to_owned());
        let ghost head = strs(lines@);
        assert(head =~= start + seq!["        docs (the images disagree)"@]);
        let variants = setting.variants("docs");
        let ghost vs = variants_spec(occ, "docs"@);
        assert(vs.take(0) =~= Seq::<(Json, Seq<Seq<char>>)>::empty());
        assert(head + variant_lines(vs.take(0)) =~= head);
        let mut i: usize = 0;
        while i < variants.len()
            invariant
                i <= variants@.len(),
                vs == variants_spec(occ, "docs"@),
                occ == setting.occurrences@,
                variants@.len() == vs.len(),
                forall|j: int|
                    0 <= j < variants@.len() ==> or_null(#[trigger] variants@[j].0) == vs[j].0
                        && strs(variants@[j].1@) == vs[j].1,
                strs(lines@) == head + variant_lines(vs.take(i as int)),
            decreases variants.len() - i,
        {
            proof {
                reveal_strlit("            ");
                assert("            "@ =~= spaces(12));
            }
            let mut header = chars_of("          ");
            let mut parts: Vec<Vec<char>> = Vec::new();
            let readers = &variants[i].1;
            let mut r: usize = 0;
            while r < readers.len()
                invariant
                    r <= readers@.len(),
                    views(parts@) == strs(readers@).take(r as int),
                decreases readers.len() - r,
            {
                let ghost before = views(parts@);
                parts.push(chars(&readers[r]));
                assert(views(parts@) =~= before.push(readers@[r as int]@));
                assert(strs(readers@).take(r + 1) =~= strs(readers@).take(r as int).push(
                    readers@[r as int]@,
                ));
                r = r + 1;
            }
            assert(strs(readers@).take(readers@.len() as int) =~= strs(readers@));
            push_all(&mut header, &join(&parts, &chars_of(", ")));
            push_str(&mut header, ":");
            let null = Json::Null;
            let value = match variants[i].0 {
                Some(v) => v,
                None => &null,
            };
            let text = match value {
                Json::Str(t) => if chars(t).len() == 0 {
                    "(nothing)".to_owned()
                } else {
                    t.clone()
                },
                _ => "(nothing)".to_owned(),
            };
            assert(text@ == docs_text(vs[i as int].0));
            let ghost before = strs(lines@);
            lines.push(string_of(&header));
            let mut more = prose(text.as_str(), "            ");
            let ghost said = strs(more@);
            lines.append(&mut more);
            assert(strs(lines@) =~= before + seq![header@] + said);
            assert(vs.take(i + 1).drop_last() =~= vs.take(i as int));
            assert(vs.take(i + 1).last() == vs[i as int]);
            i = i + 1;
        }
        assert(vs.take(variants@.len() as int) =~= vs);
        assert(strs(lines@) =~= start + docs_lines(occ));
    } else {
        match setting.value("docs") {
            Some(Json::Str(d)) => {
                lines.push("        docs".to_owned());
                let ghost before = strs(lines@);
                let mut more = prose(d.as_str(), "            ");
                lines.append(&mut more);
                assert(strs(lines@) =~= start + docs_lines(occ));
            },
            _ => {
                assert(start + docs_lines(occ) =~= start);
            },
        }
    }
}

/// The first rows of a setting's entry.
fn flag_rows_of(lines: &mut Vec<String>, setting: &Setting, form: &str)
    ensures
        strs(final(lines)@) == strs(old(lines)@) + flag_rows(setting.occurrences@, form@),
{
    proof {
        reveal_strlit("required");
        reveal_strlit("ty");
        reveal_strlit("secret");
        reveal_strlit("reserved");
        assert("ty"@.len() != "required"@.len());
        assert("secret"@.len() != "required"@.len());
        assert("reserved"@[2] != "required"@[2]);
        reveal_strlit("type");
    }
    let null = Json::Null;
    let mut ty = match rep_get(setting, "ty", &null) {
        Some(Json::Str(t)) => chars(t),
        _ => chars_of("?"),
    };
    push_str(&mut ty, "  (read as ");
    push_str(&mut ty, form);
    push_str(&mut ty, ")");
    row(lines, "type", string_of(&ty).as_str());
    row(lines, "required", if setting.required() { "yes" } else { "no" });
    let secret = match rep_get(setting, "secret", &null) {
        Some(Json::Bool(true)) => true,
        _ => false,
    };
    row(lines, "secret", if secret { "yes" } else { "no" });
    let reserved = match rep_get(setting, "reserved", &null) {
        Some(Json::Bool(true)) => true,
        _ => false,
    };
    let ghost before = strs(lines@);
    if reserved {
        row(lines, "reserved", "yes — the loader claims this path; a deployment must not set it");
    } else {
        assert(before + seq![] =~= before);
    }
}

/// The rows of a setting's entry after its flags.
fn value_rows_of(lines: &mut Vec<String>, setting: &Setting, total: usize)
    ensures
        strs(final(lines)@) == strs(old(lines)@) + value_rows(setting.occurrences@, total as nat),
{
    proof {
        reveal_strlit("required");
        reveal_strlit("default");
        reveal_strlit("constraint");
        reveal_strlit("text_constraint");
        assert("default"@.len() != "required"@.len());
        assert("constraint"@.len() != "required"@.len());
        assert("text_constraint"@.len() != "required"@.len());
        reveal_strlit("accepts");
        reveal_strlit("as text");
        reveal_strlit("read by");
        reveal_strlit("note");
        reveal_strlit("values");
        assert("note"@.len() != "required"@.len());
        assert("values"@.len() != "required"@.len());
    }
    let null = Json::Null;
    let default = shown(rep_get(setting, "default", &null));
    row(lines, "default", default.as_str());
    let note = match setting.value("note") {
        Some(v) => crate::explain::plain(v),
        None => String::new(),
    };
    row(lines, "note", note.as_str());
    list_row_of(lines, setting, "values", "values", " | ");
    row(lines, "accepts", describe_constraint(rep_get(setting, "constraint", &null)).as_str());
    row(
        lines,
        "as text",
        describe_constraint(rep_get(setting, "text_constraint", &null)).as_str(),
    );
    let ghost before = strs(lines@);
    if total > 1 {
        row(lines, "read by", reader_list(setting, total).as_str());
    } else {
        assert(before + seq![] =~= before);
    }
}

/// The rows of a setting's entry.
fn entry_rows_of(lines: &mut Vec<String>, setting: &Setting, total: usize, form: &str)
    ensures
        strs(final(lines)@) == strs(old(lines)@) + entry_rows(
            setting.occurrences@,
            total as nat,
            form@,
        ),
{
    let ghost start = strs(lines@);
    flag_rows_of(lines, setting, form);
    value_rows_of(lines, setting, total);
    assert(strs(lines@) =~= start + entry_rows(setting.occurrences@, total as nat, form@));
}

/// The row naming the other fields the images disagree on.
fn disagreement_of(lines: &mut Vec<String>, setting: &Setting, divergent: &Vec<String>)
    requires
        ascending(strs(divergent@)),
        held(strs(divergent@)) == divergent_spec(setting.occurrences@),
    ensures
        strs(final(lines)@) == strs(old(lines)@) + disagreement_spec(setting.occurrences@),
{
    proof {
        reveal_strlit("disagreement");
    }
    let ghost occ = setting.occurrences@;
    let mut remaining: Vec<Vec<char>> = Vec::new();
    let mut k: usize = 0;
    while k < divergent.len()
        invariant
            k <= divergent@.len(),
            views(remaining@) == without_docs(strs(divergent@).take(k as int)),
        decreases divergent.len() - k,
    {
        assert(strs(divergent@).take(k + 1).drop_last() =~= strs(divergent@).take(k as int));
        assert(strs(divergent@).take(k + 1).last() == divergent@[k as int]@);
        if !is_docs(&divergent[k]) {
            let ghost was = views(remaining@);
            remaining.push(chars(&divergent[k]));
            assert(views(remaining@) =~= was.push(divergent@[k as int]@));
        }
        k = k + 1;
    }
    assert(strs(divergent@).take(divergent@.len() as int) =~= strs(divergent@));
    proof {
        let w = divergent_names(occ);
        assert(ascending(w) && held(w) == divergent_spec(occ));
        crate::order::lemma_one_ascending(w, strs(divergent@));
    }
    let ghost before = strs(lines@);
    if remaining.len() > 0 {
        let mut said = chars_of("the images describe ");
        push_all(&mut said, &join(&remaining, &chars_of(", ")));
        push_str(&mut said, " differently; the values above are ");
        if setting.occurrences.len() > 0 {
            push_str(&mut said, setting.occurrences[0].0.as_str());
        }
        push_str(&mut said, "'s");
        row(lines, "disagreement", string_of(&said).as_str());
    } else {
        assert(before + seq![] =~= before);
    }
}

/// Everything one contract says about one setting: its type and the form it is read as, its
/// flags, default and note, what it accepts, who reads it, every name the loader takes for it,
/// its documentation, and where the images describing it disagree.
///
/// `form` is the form the loader reads the key as, and `from_file` whether a file's text can
/// supply that form; both are the loader's rules for the entry.
pub fn full(
    setting: &Setting,
    dialect: &Vec<(String, Json)>,
    total: usize,
    form: &str,
    from_file: bool,
) -> (lines: Vec<String>)
    requires
        suffix_spec(dialect@).len() <= 83,
    ensures
        strs(lines@) == full_spec(*setting, dialect@, total as nat, form@, from_file),
{
    let mut head = chars_of("    ");
    push_str(&mut head, setting.name.as_str());
    let mut lines: Vec<String> = vec![string_of(&head)];
    assert(strs(lines@) =~= seq!["    "@ + setting.name@]);
    entry_rows_of(&mut lines, setting, total, form);
    spellings(&mut lines, setting, dialect, form, from_file);
    let divergent = setting.divergent();
    docs_of(&mut lines, setting, &divergent);
    disagreement_of(&mut lines, setting, &divergent);
    let ghost before = strs(lines@);
    lines.push(String::new());
    assert(strs(lines@) =~= before + seq![seq![]]);
    lines
}

// ------------------------------------------------------------------------------------------------
// One line per setting
// ------------------------------------------------------------------------------------------------

/// The widest a path column is allowed to grow.
pub const MAX_PATH: usize = 46;

/// The widest a type column is allowed to grow.
pub const MAX_TYPE: usize = 30;

/// The widest a default column is allowed to grow.
pub const MAX_DEFAULT: usize = 22;

/// The type a listing shows: the one the entry names, else the form it is read as.
pub open spec fn type_cell(occ: Seq<(String, Vec<(String, Json)>)>, form: Seq<char>) -> Seq<char> {
    match rep_field(occ, "ty"@) {
        Some(Json::Str(t)) => if t@.len() > 0 {
            t@
        } else {
            form
        },
        _ => form,
    }
}

/// The flag column of the representative entry: `R` required, `S` secret, `.` for each that is not.
pub open spec fn rep_markers(occ: Seq<(String, Vec<(String, Json)>)>) -> Seq<char> {
    (if any_required(occ) {
        "R"@
    } else {
        "."@
    }) + (if rep_flag(occ, "secret"@) {
        "S"@
    } else {
        "."@
    })
}

/// One setting's cells: path, type, flags, default, and the images that read it.
pub open spec fn cells_spec(setting: Setting, form: Seq<char>, total: nat) -> Seq<Seq<char>> {
    let occ = setting.occurrences@;
    seq![
        crate::explain::clip_spec(setting.name@, MAX_PATH as nat),
        crate::explain::clip_spec(type_cell(occ, form), MAX_TYPE as nat),
        rep_markers(occ),
        crate::explain::clip_spec(shown_spec(rep_field(occ, "default"@)), MAX_DEFAULT as nat),
        if total > 1 {
            reader_list_spec(occ, total)
        } else {
            seq![]
        },
    ]
}

/// The widest cell of a column among the first `n` rows.
pub open spec fn column_width(rows: Seq<Seq<Seq<char>>>, column: int, n: int) -> nat
    decreases n,
{
    if n <= 0 {
        0
    } else {
        let rest = column_width(rows, column, n - 1);
        if rows[n - 1][column].len() > rest {
            rows[n - 1][column].len()
        } else {
            rest
        }
    }
}

/// A cell padded with spaces on the right to a width.
pub open spec fn pad_right(text: Seq<char>, width: nat) -> Seq<char> {
    if text.len() >= width {
        text
    } else {
        text + spaces((width - text.len()) as nat)
    }
}

/// Whether any of the first `n` rows shows a default.
pub open spec fn defaults_upto(rows: Seq<Seq<Seq<char>>>, n: int) -> bool
    decreases n,
{
    if n <= 0 {
        false
    } else {
        defaults_upto(rows, n - 1) || rows[n - 1][3] != "-"@
    }
}

/// Whether any row shows a default.
pub open spec fn shows_defaults(rows: Seq<Seq<Seq<char>>>) -> bool {
    defaults_upto(rows, rows.len() as int)
}

/// One row as its line: the padded columns, the default column only where some row shows one, and
/// the unpadded reader list last.
pub open spec fn compact_line(row: Seq<Seq<char>>, rows: Seq<Seq<Seq<char>>>) -> Seq<char> {
    let n = rows.len() as int;
    let line = "    "@ + pad_right(row[0], column_width(rows, 0, n)) + "  "@ + pad_right(
        row[1],
        column_width(rows, 1, n),
    ) + "  "@ + row[2];
    let line = if shows_defaults(rows) {
        line + "  "@ + pad_right(row[3], column_width(rows, 3, n))
    } else {
        line
    };
    if row[4].len() == 0 {
        crate::text::trim_end_spec(line)
    } else {
        crate::text::trim_end_spec(line) + "  "@ + row[4]
    }
}

/// Every setting's row, each setting read as the form given for it.
pub open spec fn rows_spec(settings: Seq<&Setting>, forms: Seq<Seq<char>>, total: nat) -> Seq<
    Seq<Seq<char>>,
> {
    Seq::new(settings.len(), |k: int| cells_spec(*settings[k], forms[k], total))
}

/// One line per setting, the columns sized to the selection.
pub open spec fn compact_spec(settings: Seq<&Setting>, forms: Seq<Seq<char>>, total: nat) -> Seq<
    Seq<char>,
> {
    let rows = rows_spec(settings, forms, total);
    Seq::new(rows.len(), |k: int| compact_line(rows[k], rows))
}

/// One setting's cells.
fn cells_of(setting: &Setting, form: &str, total: usize) -> (cells: Vec<String>)
    ensures
        strs(cells@) == cells_spec(*setting, form@, total as nat),
{
    proof {
        reveal_strlit("ty");
        reveal_strlit("secret");
        reveal_strlit("default");
        reveal_strlit("required");
        assert("ty"@.len() != "required"@.len());
        assert("secret"@.len() != "required"@.len());
        assert("default"@.len() != "required"@.len());
    }
    let null = Json::Null;
    let ghost occ = setting.occurrences@;
    let name = crate::explain::clip(setting.name.as_str(), MAX_PATH);
    let ty = match rep_get(setting, "ty", &null) {
        Some(Json::Str(t)) => if chars(t).len() > 0 {
            t.clone()
        } else {
            form.to_owned()
        },
        _ => form.to_owned(),
    };
    let ty = crate::explain::clip(ty.as_str(), MAX_TYPE);
    let mut flags = if setting.required() {
        chars_of("R")
    } else {
        chars_of(".")
    };
    let secret = match rep_get(setting, "secret", &null) {
        Some(Json::Bool(true)) => true,
        _ => false,
    };
    if secret {
        push_str(&mut flags, "S");
    } else {
        push_str(&mut flags, ".");
    }
    let default = crate::explain::clip(shown(rep_get(setting, "default", &null)).as_str(), MAX_DEFAULT);
    let readers = if total > 1 {
        reader_list(setting, total)
    } else {
        String::new()
    };
    let cells = vec![name, ty, string_of(&flags), default, readers];
    assert(strs(cells@) =~= cells_spec(*setting, form@, total as nat));
    cells
}

/// A cell padded with spaces on the right to a width.
fn pad_right_of(line: &mut Vec<char>, text: &String, width: usize)
    ensures
        final(line)@ == old(line)@ + pad_right(text@, width as nat),
{
    let held = chars(text);
    push_all(line, &held);
    if held.len() < width {
        push_all(line, &spaces_of(width - held.len()));
    }
}

/// One line per setting: path, type, markers, default, and the images that read it, each setting
/// read as the form given for it.
///
/// The columns size themselves to the selection rather than to the chart, and the default column
/// disappears entirely when nothing in the selection has one. The reader list is last and
/// unpadded: it is the widest field and the one that varies most.
pub fn compact(settings: &Vec<&Setting>, forms: &Vec<String>, total: usize) -> (lines: Vec<String>)
    requires
        forms@.len() == settings@.len(),
    ensures
        strs(lines@) == compact_spec(settings@, strs(forms@), total as nat),
{
    let ghost want = rows_spec(settings@, strs(forms@), total as nat);
    let mut rows: Vec<Vec<String>> = Vec::new();
    let mut k: usize = 0;
    while k < settings.len()
        invariant
            k <= settings@.len(),
            forms@.len() == settings@.len(),
            want == rows_spec(settings@, strs(forms@), total as nat),
            rows@.len() == k,
            forall|j: int| 0 <= j < k ==> strs(#[trigger] rows@[j]@) == want[j],
        decreases settings.len() - k,
    {
        rows.push(cells_of(settings[k], forms[k].as_str(), total));
        k = k + 1;
    }
    let ghost table = Seq::new(rows@.len(), |j: int| strs(rows@[j]@));
    assert(table =~= want);
    let mut widths: Vec<usize> = vec![0, 0, 0, 0];
    let mut defaults = false;
    let mut k: usize = 0;
    while k < rows.len()
        invariant
            k <= rows@.len(),
            table == Seq::new(rows@.len(), |j: int| strs(rows@[j]@)),
            forall|j: int| 0 <= j < rows@.len() ==> (#[trigger] rows@[j])@.len() == 5,
            widths@.len() == 4,
            widths@[0] == column_width(table, 0, k as int),
            widths@[1] == column_width(table, 1, k as int),
            widths@[3] == column_width(table, 3, k as int),
            defaults == defaults_upto(table, k as int),
        decreases rows.len() - k,
    {
        assert(table[k as int] == strs(rows@[k as int]@));
        let row = &rows[k];
        let a = chars(&row[0]).len();
        if a > widths[0] {
            widths.set(0, a);
        }
        let b = chars(&row[1]).len();
        if b > widths[1] {
            widths.set(1, b);
        }
        let d = chars(&row[3]).len();
        if d > widths[3] {
            widths.set(3, d);
        }
        proof {
            reveal_strlit("-");
        }
        if row[3] != "-".to_owned() {
            defaults = true;
        }
        k = k + 1;
    }
    assert(defaults == shows_defaults(table));
    let mut lines: Vec<String> = Vec::new();
    let mut k: usize = 0;
    while k < rows.len()
        invariant
            k <= rows@.len(),
            table == Seq::new(rows@.len(), |j: int| strs(rows@[j]@)),
            forall|j: int| 0 <= j < rows@.len() ==> (#[trigger] rows@[j])@.len() == 5,
            widths@.len() == 4,
            widths@[0] == column_width(table, 0, table.len() as int),
            widths@[1] == column_width(table, 1, table.len() as int),
            widths@[3] == column_width(table, 3, table.len() as int),
            defaults == shows_defaults(table),
            lines@.len() == k,
            forall|j: int| 0 <= j < k ==> (#[trigger] lines@[j])@ == compact_line(table[j], table),
        decreases rows.len() - k,
    {
        let row = &rows[k];
        assert(table[k as int] == strs(row@));
        let mut line = chars_of("    ");
        pad_right_of(&mut line, &row[0], widths[0]);
        push_str(&mut line, "  ");
        pad_right_of(&mut line, &row[1], widths[1]);
        push_str(&mut line, "  ");
        push_str(&mut line, row[2].as_str());
        if defaults {
            push_str(&mut line, "  ");
            pad_right_of(&mut line, &row[3], widths[3]);
        }
        let mut out = crate::text::trim_end(&line);
        if !row[4].as_str().is_empty() {
            push_str(&mut out, "  ");
            push_str(&mut out, row[4].as_str());
        }
        assert(out@ == compact_line(table[k as int], table));
        lines.push(string_of(&out));
        k = k + 1;
    }
    assert(strs(lines@) =~= compact_spec(settings@, strs(forms@), total as nat));
    lines
}

// ------------------------------------------------------------------------------------------------
// Where the images disagree
// ------------------------------------------------------------------------------------------------

/// One value clipped to the width a finding can carry: its JSON text, cut after sixty characters
/// with an ellipsis.
pub open spec fn terse_spec(value: Json) -> Seq<char> {
    let t = json_text(value);
    if t.len() <= 60 {
        t
    } else {
        t.take(60) + "..."@
    }
}

/// One value clipped to the width a finding can carry.
fn terse(value: &Json) -> (s: Vec<char>)
    ensures
        s@ == terse_spec(*value),
{
    let text = chars(&value.to_json());
    if text.len() <= 60 {
        text
    } else {
        let mut cut = crate::text::slice_of(&text, 0, 60);
        push_str(&mut cut, "...");
        cut
    }
}

/// One side of a disagreement: the images that published a value, and the value.
pub open spec fn side(variant: (Json, Seq<Seq<char>>)) -> Seq<char> {
    join_spec(variant.1, ", "@) + ": "@ + terse_spec(variant.0)
}

/// Every side of a disagreement, in the order the values were first published.
pub open spec fn sides(variants: Seq<(Json, Seq<Seq<char>>)>) -> Seq<Seq<char>> {
    variants.map_values(|v: (Json, Seq<Seq<char>>)| side(v))
}

/// The warning for one field the images describe one setting differently by.
pub open spec fn divergence_message(section: Seq<char>, setting: Setting, name: Seq<char>) -> Seq<
    char,
> {
    "the images pinned here describe the "@ + section + " "@ + crate::quoted_spec(setting.name@)
        + " differently: `"@ + name + "` is "@ + join_spec(
        sides(variants_spec(setting.occurrences@, name)),
        "; "@,
    )
}

/// A finding as what it says: where, what, and whether it fails the run.
pub open spec fn finding_view(f: Finding) -> (Seq<char>, Seq<char>, bool) {
    (f.at@, f.message@, f.failing)
}

/// A report's findings as what they say.
pub open spec fn findings_view(findings: Seq<Finding>) -> Seq<(Seq<char>, Seq<char>, bool)> {
    findings.map_values(|f: Finding| finding_view(f))
}

/// The warnings for one setting: one per field the images describe it differently by, in name
/// order.
pub open spec fn setting_warnings(chart: Seq<char>, section: Seq<char>, setting: Setting) -> Seq<
    (Seq<char>, Seq<char>, bool),
> {
    divergent_names(setting.occurrences@).map_values(
        |name: Seq<char>| (chart, divergence_message(section, setting, name), false),
    )
}

/// The warnings for a section's settings, setting by setting.
pub open spec fn section_warnings(chart: Seq<char>, section: Seq<char>, settings: Seq<Setting>) -> Seq<
    (Seq<char>, Seq<char>, bool),
>
    decreases settings.len(),
{
    if settings.len() == 0 {
        seq![]
    } else {
        section_warnings(chart, section, settings.drop_last()) + setting_warnings(
            chart,
            section,
            settings.last(),
        )
    }
}

/// Every warning a surface's disagreements give, for the settings a pattern names: keys, then
/// loader variables, then external variables.
pub open spec fn divergences_spec(surface: Surface, pattern: Option<Seq<char>>) -> Seq<
    (Seq<char>, Seq<char>, bool),
> {
    section_warnings(surface.chart@, "key"@, select_spec(surface.keys@, pattern))
        + section_warnings(
        surface.chart@,
        "loader variable"@,
        select_spec(surface.loader@, pattern),
    ) + section_warnings(
        surface.chart@,
        "external variable"@,
        select_spec(surface.external@, pattern),
    )
}

/// The warning for one field the images describe one setting differently by.
fn divergence_of(section: &str, setting: &Setting, name: &String) -> (s: String)
    ensures
        s@ == divergence_message(section@, *setting, name@),
{
    let variants = setting.variants(name.as_str());
    let ghost vs = variants_spec(setting.occurrences@, name@);
    let mut parts: Vec<Vec<char>> = Vec::new();
    let mut i: usize = 0;
    while i < variants.len()
        invariant
            i <= variants@.len(),
            vs == variants_spec(setting.occurrences@, name@),
            variants@.len() == vs.len(),
            forall|j: int|
                0 <= j < variants@.len() ==> or_null(#[trigger] variants@[j].0) == vs[j].0
                    && strs(variants@[j].1@) == vs[j].1,
            views(parts@) == sides(vs).take(i as int),
        decreases variants.len() - i,
    {
        let readers = &variants[i].1;
        let mut names: Vec<Vec<char>> = Vec::new();
        let mut r: usize = 0;
        while r < readers.len()
            invariant
                r <= readers@.len(),
                views(names@) == strs(readers@).take(r as int),
            decreases readers.len() - r,
        {
            let ghost before = views(names@);
            names.push(chars(&readers[r]));
            assert(views(names@) =~= before.push(readers@[r as int]@));
            assert(strs(readers@).take(r + 1) =~= strs(readers@).take(r as int).push(
                readers@[r as int]@,
            ));
            r = r + 1;
        }
        assert(strs(readers@).take(readers@.len() as int) =~= strs(readers@));
        let mut one = join(&names, &chars_of(", "));
        push_str(&mut one, ": ");
        let null = Json::Null;
        let value = match variants[i].0 {
            Some(v) => v,
            None => &null,
        };
        push_all(&mut one, &terse(value));
        assert(one@ == side(vs[i as int]));
        let ghost before = views(parts@);
        parts.push(one);
        assert(views(parts@) =~= before.push(side(vs[i as int])));
        assert(sides(vs).take(i + 1) =~= sides(vs).take(i as int).push(side(vs[i as int])));
        i = i + 1;
    }
    assert(sides(vs).take(variants@.len() as int) =~= sides(vs));
    let mut message = chars_of("the images pinned here describe the ");
    push_str(&mut message, section);
    push_str(&mut message, " ");
    push_str(&mut message, crate::quoted(setting.name.as_str()).as_str());
    push_str(&mut message, " differently: `");
    push_str(&mut message, name.as_str());
    push_str(&mut message, "` is ");
    push_all(&mut message, &join(&parts, &chars_of("; ")));
    string_of(&message)
}

/// Warn about every field the images describe the settings of one section differently by.
fn section_divergences(report: &mut Report, chart: &String, section: &str, chosen: &Vec<&Setting>)
    ensures
        findings_view(final(report).findings@) == findings_view(old(report).findings@)
            + section_warnings(chart@, section@, chosen@.map_values(|s: &Setting| *s)),
{
    let ghost start = findings_view(report.findings@);
    let ghost sel = chosen@.map_values(|s: &Setting| *s);
    assert(sel.take(0) =~= Seq::<Setting>::empty());
    assert(start + section_warnings(chart@, section@, sel.take(0)) =~= start);
    let mut i: usize = 0;
    while i < chosen.len()
        invariant
            i <= chosen@.len(),
            sel == chosen@.map_values(|s: &Setting| *s),
            findings_view(report.findings@) == start + section_warnings(
                chart@,
                section@,
                sel.take(i as int),
            ),
        decreases chosen.len() - i,
    {
        let setting = chosen[i];
        let names = setting.divergent();
        let ghost occ = setting.occurrences@;
        proof {
            let w = divergent_names(occ);
            assert(ascending(w) && held(w) == divergent_spec(occ));
            crate::order::lemma_one_ascending(w, strs(names@));
        }
        let ghost mid = findings_view(report.findings@);
        let ghost want = setting_warnings(chart@, section@, *setting);
        assert(mid + want.take(0) =~= mid);
        let mut j: usize = 0;
        while j < names.len()
            invariant
                j <= names@.len(),
                strs(names@) == divergent_names(setting.occurrences@),
                want == setting_warnings(chart@, section@, *setting),
                want.len() == names@.len(),
                findings_view(report.findings@) == mid + want.take(j as int),
            decreases names.len() - j,
        {
            let message = divergence_of(section, setting, &names[j]);
            let ghost before = findings_view(report.findings@);
            report.warn(chart.clone(), message);
            assert(want[j as int] == (chart@, divergence_message(section@, *setting, names@[j as int]@), false));
            assert(findings_view(report.findings@) =~= before.push(want[j as int]));
            assert(want.take(j + 1) =~= want.take(j as int).push(want[j as int]));
            j = j + 1;
        }
        assert(want.take(names@.len() as int) =~= want);
        assert(sel.take(i + 1).drop_last() =~= sel.take(i as int));
        assert(sel.take(i + 1).last() == *setting);
        i = i + 1;
    }
    assert(sel.take(chosen@.len() as int) =~= sel);
}

/// Warn about every field the images pinned in one chart describe one setting differently by,
/// for the settings a pattern names: each side the images that published a value and the value.
pub fn report_divergences(surface: &Surface, pattern: Option<&str>, report: &mut Report)
    ensures
        findings_view(final(report).findings@) == findings_view(old(report).findings@)
            + divergences_spec(
            *surface,
            match pattern {
                Some(p) => Some(p@),
                None => None,
            },
        ),
{
    let ghost start = findings_view(report.findings@);
    let keys = select(&surface.keys, pattern);
    section_divergences(report, &surface.chart, "key", &keys);
    let loader = select(&surface.loader, pattern);
    section_divergences(report, &surface.chart, "loader variable", &loader);
    let external = select(&surface.external, pattern);
    section_divergences(report, &surface.chart, "external variable", &external);
}


// ------------------------------------------------------------------------------------------------
// Folding one image's contract into the surface
// ------------------------------------------------------------------------------------------------

/// One vendored contract, as the surface reads it: the document, the file it sits in, and the
/// image and digest it was published for.
pub struct Vendored {
    /// The contract document.
    pub contract: Json,
    /// The contract's file name.
    pub file: String,
    /// The image it describes.
    pub image: String,
    /// The digest it was published for.
    pub digest: String,
}

/// One image's entry for a setting, as values: the image and the fields it published.
pub type OccurrenceView = (Seq<char>, Seq<(Seq<char>, crate::json::JsonView)>);

/// A setting, as values.
pub type SettingView = (Seq<char>, Seq<OccurrenceView>);

/// Settings, as values.
pub open spec fn settings_view(s: Seq<Setting>) -> Seq<SettingView> {
    s.map_values(
        |x: Setting|
            (
                x.name@,
                x.occurrences@.map_values(
                    |o: (String, Vec<(String, Json)>)| (o.0@, crate::schema::fview(o.1@)),
                ),
            ),
    )
}

/// Settings kept in name order, with one more image's entry for `name`: appended to that
/// setting's entries where there is one, else a new setting in its place in the order.
pub open spec fn record_spec(ss: Seq<SettingView>, name: Seq<char>, occ: OccurrenceView) -> Seq<SettingView>
    decreases ss.len(),
{
    if ss.len() == 0 {
        seq![(name, seq![occ])]
    } else if ss[0].0 == name {
        ss.update(0, (name, ss[0].1.push(occ)))
    } else if text_lt(name, ss[0].0) {
        seq![(name, seq![occ])] + ss
    } else {
        seq![ss[0]] + record_spec(ss.drop_first(), name, occ)
    }
}

/// One published entry recorded against the name it is keyed on; an entry with no such name,
/// or that is not a mapping, is skipped.
pub open spec fn record_entry(ss: Seq<SettingView>, entry: Json, keyed_on: Seq<char>, reader: Seq<char>) -> Seq<SettingView> {
    match (text_spec(get_spec(entry, keyed_on)), entry) {
        (Some(n), Json::Object(f)) => record_spec(ss, n, (reader, crate::schema::fview(f@))),
        _ => ss,
    }
}

/// Every entry of a list recorded, in order.
pub open spec fn record_all(ss: Seq<SettingView>, entries: Seq<Json>, keyed_on: Seq<char>, reader: Seq<char>) -> Seq<SettingView>
    decreases entries.len(),
{
    if entries.len() == 0 {
        ss
    } else {
        record_entry(record_all(ss, entries.drop_last(), keyed_on, reader), entries.last(), keyed_on, reader)
    }
}

/// The list a contract holds at `a.b`, or nothing.
pub open spec fn list_at(contract: Json, a: Seq<char>, b: Seq<char>) -> Seq<Json> {
    match crate::json::dig_spec(contract, seq![a, b]) {
        Some(Json::Array(items)) => items@,
        _ => seq![],
    }
}

/// A text a contract holds at `a.b`, or the fallback.
pub open spec fn text_at(contract: Json, a: Seq<char>, b: Seq<char>, fallback: Seq<char>) -> Seq<char> {
    match text_spec(crate::json::dig_spec(contract, seq![a, b])) {
        Some(t) => t,
        None => fallback,
    }
}

/// The spelling rules a contract states, or none.
pub open spec fn dialect_of(contract: Json) -> Seq<(String, Json)> {
    match crate::json::dig_spec(contract, seq!["schema"@, "dialect"@]) {
        Some(Json::Object(f)) => f@,
        _ => seq![],
    }
}

/// The ignore patterns, with each text of `items` not already among them added in order.
pub open spec fn add_ignores(held: Seq<Seq<char>>, items: Seq<Json>) -> Seq<Seq<char>>
    decreases items.len(),
{
    if items.len() == 0 {
        held
    } else {
        let before = add_ignores(held, items.drop_last());
        match items.last() {
            Json::Str(t) => if before.contains(t@) {
                before
            } else {
                before.push(t@)
            },
            _ => before,
        }
    }
}

/// Where a policy first stands among the known ones from `i` on, strictest last; `None` when it
/// is none of them.
pub open spec fn rank_from(policies: Seq<Seq<char>>, p: Seq<char>, i: int) -> Option<int>
    decreases policies.len() - i,
{
    if i < 0 || i >= policies.len() {
        None
    } else if policies[i] == p {
        Some(i)
    } else {
        rank_from(policies, p, i + 1)
    }
}

/// Where a policy stands among the known ones, strictest last; `None` when it is none of them.
pub open spec fn policy_rank(policies: Seq<Seq<char>>, p: Seq<char>) -> Option<int> {
    rank_from(policies, p, 0)
}

/// Whether one rank is above another, an unknown policy ranking below every known one.
pub open spec fn ranks_above(a: Option<int>, b: Option<int>) -> bool {
    match (a, b) {
        (Some(x), Some(y)) => x > y,
        (Some(_), None) => true,
        _ => false,
    }
}

/// The warning for an image that reads its configuration under different spelling rules.
pub open spec fn dialect_warning(
    name: Seq<char>,
    theirs: Seq<(Seq<char>, crate::json::JsonView)>,
    ours: Seq<(Seq<char>, crate::json::JsonView)>,
) -> Seq<char> {
    name + " reads its configuration under the dialect "@ + crate::json::vtext(
        crate::json::JsonView::Object(theirs),
    ) + ", where the other images this chart pins use "@ + crate::json::vtext(
        crate::json::JsonView::Object(ours),
    ) + "; the header below reports the latter"@
}

/// What folding one contract into a surface does to it, section by section.
pub open spec fn absorbed(
    before: Surface,
    after: Surface,
    vendored: Vendored,
    name: Seq<char>,
    documents: Seq<Seq<char>>,
    policies: Seq<Seq<char>>,
) -> bool {
    let c = vendored.contract;
    let policy = text_at(c, "external"@, "unknown"@, "reject"@);
    let first = before.dialect@.len() == 0;
    let unknown = if first { policy } else { before.unknown@ };
    &&& after.chart == before.chart
    &&& after.readers@.len() == before.readers@.len() + 1
    &&& after.readers@.take(before.readers@.len() as int) == before.readers@
    &&& after.readers@.last().name@ == name
    &&& after.readers@.last().contract == vendored.file
    &&& after.readers@.last().image == vendored.image
    &&& after.readers@.last().digest == vendored.digest
    &&& after.readers@.last().app@ == text_at(c, "app"@, "name"@, name)
    &&& after.readers@.last().version@ == text_at(c, "app"@, "version"@, "?"@)
    &&& strs(after.readers@.last().documents@) == documents
    &&& crate::schema::fview(after.dialect@) == crate::schema::fview(
        if first { dialect_of(c) } else { before.dialect@ },
    )
    &&& settings_view(after.keys@) == record_all(settings_view(before.keys@), list_at(c, "schema"@, "keys"@), "path"@, name)
    &&& settings_view(after.loader@) == record_all(settings_view(before.loader@), list_at(c, "schema"@, "loader"@), "env"@, name)
    &&& settings_view(after.external@) == record_all(settings_view(before.external@), list_at(c, "external"@, "env"@), "name"@, name)
    &&& strs(after.ignore@) == add_ignores(strs(before.ignore@), list_at(c, "external"@, "ignore"@))
    &&& after.unknown@ == if ranks_above(policy_rank(policies, policy), policy_rank(policies, unknown)) {
        policy
    } else {
        unknown
    }
}

/// Whether two mappings have the same fields, in the same order.
fn same_fields(x: &Vec<(String, Json)>, y: &Vec<(String, Json)>) -> (b: bool)
    ensures
        b == (x@.len() == y@.len() && crate::json::fields_same(x@, y@, x@.len() as nat)),
{
    if x.len() != y.len() {
        return false;
    }
    let mut k: usize = 0;
    while k < x.len()
        invariant
            k <= x@.len(),
            x@.len() == y@.len(),
            crate::json::fields_same(x@, y@, k as nat),
        decreases x.len() - k,
    {
        if !(x[k].0 == y[k].0) || !x[k].1.same(&y[k].1) {
            proof {
                lemma_fields_not_same(x@, y@, (k + 1) as nat, x@.len() as nat);
            }
            return false;
        }
        k = k + 1;
    }
    true
}

/// Two mappings that differ in their first `n` fields differ in any longer run.
proof fn lemma_fields_not_same(x: Seq<(String, Json)>, y: Seq<(String, Json)>, n: nat, m: nat)
    requires
        n <= m,
        !crate::json::fields_same(x, y, n),
    ensures
        !crate::json::fields_same(x, y, m),
    decreases m,
{
    if n < m {
        lemma_fields_not_same(x, y, n, (m - 1) as nat);
    }
}

/// A copy of each field.
fn copy_all(f: &Vec<(String, Json)>) -> (c: Vec<(String, Json)>)
    ensures
        crate::schema::fview(c@) == crate::schema::fview(f@),
{
    let mut c: Vec<(String, Json)> = Vec::new();
    let mut k: usize = 0;
    while k < f.len()
        invariant
            k <= f@.len(),
            c@.len() == k,
            forall|i: int| 0 <= i < k ==> (#[trigger] c@[i]).0@ == f@[i].0@ && crate::json::view_of(c@[i].1) == crate::json::view_of(f@[i].1),
        decreases f.len() - k,
    {
        c.push((f[k].0.clone(), f[k].1.copy()));
        k = k + 1;
    }
    proof {
        crate::json::lemma_fields_view(c@, c@.len() as nat);
        crate::json::lemma_fields_view(f@, f@.len() as nat);
        assert(crate::schema::fview(c@) =~= crate::schema::fview(f@));
    }
    c
}

/// The value a contract holds at `a.b`.
fn at_path<'a>(c: &'a Json, a: &str, b: &str) -> (r: Option<&'a Json>)
    ensures
        r == match crate::json::dig_spec(*c, seq![a@, b@]) {
            Some(v) => Some(&v),
            None => None::<&Json>,
        },
{
    proof {
        assert(seq![a@, b@].drop_last() =~= seq![a@]);
        assert(seq![a@].drop_last() =~= Seq::<Seq<char>>::empty());
        assert(seq![a@, b@].last() == b@);
        assert(seq![a@].last() == a@);
        assert(crate::json::dig_spec(*c, Seq::<Seq<char>>::empty()) == Some(*c));
        assert(crate::json::dig_spec(*c, seq![a@]) == get_spec(*c, a@));
        assert(crate::json::dig_spec(*c, seq![a@, b@]) == match get_spec(*c, a@) {
            Some(x) => get_spec(x, b@),
            None => None,
        });
    }
    match c.get(a) {
        Some(x) => x.get(b),
        None => None,
    }
}

/// The text a contract holds at `a.b`, or the fallback.
fn text_at_path(c: &Json, a: &str, b: &str, fallback: &str) -> (t: String)
    ensures
        t@ == text_at(*c, a@, b@, fallback@),
{
    match at_path(c, a, b) {
        Some(Json::Str(t)) => t.clone(),
        _ => fallback.to_owned(),
    }
}

/// Record one published entry against the name it is keyed on, keeping the settings in name
/// order.
fn record(into: &mut Vec<Setting>, entry: &Json, keyed_on: &str, reader: &str)
    requires
        names_ascending(settings_view(old(into)@)),
    ensures
        names_ascending(settings_view(final(into)@)),
        settings_view(final(into)@) == record_entry(settings_view(old(into)@), *entry, keyed_on@, reader@),
{
    let name = match entry.get(keyed_on) {
        Some(Json::Str(t)) => t,
        _ => {
            return;
        },
    };
    let fields = match entry {
        Json::Object(f) => f,
        _ => {
            return;
        },
    };
    let occurrence = (reader.to_owned(), copy_all(fields));
    let ghost occ: OccurrenceView = (reader@, crate::schema::fview(fields@));
    let ghost ss = settings_view(into@);
    let mut k: usize = 0;
    assert(ss.skip(0) =~= ss);
    assert(ss.take(0) + record_spec(ss.skip(0), name@, occ) =~= record_spec(ss, name@, occ));
    while k < into.len() && crate::order::less(into[k].name.as_str(), name.as_str())
        invariant
            k <= into@.len(),
            ss == settings_view(into@),
            names_ascending(ss),
            record_spec(ss, name@, occ) == ss.take(k as int) + record_spec(ss.skip(k as int), name@, occ),
            forall|j: int| 0 <= j < k ==> text_lt(#[trigger] ss[j].0, name@),
        decreases into.len() - k,
    {
        let ghost rest = ss.skip(k as int);
        assert(rest[0] == ss[k as int]);
        assert(rest[0].0 != name@) by {
            crate::order::lemma_lt_irreflexive(name@);
        }
        assert(!text_lt(name@, rest[0].0)) by {
            crate::order::lemma_lt_irreflexive(name@);
            if text_lt(name@, rest[0].0) {
                crate::order::lemma_lt_transitive(name@, rest[0].0, name@);
            }
        }
        assert(rest.drop_first() =~= ss.skip(k + 1));
        assert(ss.take(k + 1) =~= ss.take(k as int) + seq![ss[k as int]]);
        assert(ss.take(k as int) + (seq![rest[0]] + record_spec(rest.drop_first(), name@, occ)) =~= ss.take(k + 1) + record_spec(ss.skip(k + 1), name@, occ));
        k = k + 1;
    }
    let ghost rest = ss.skip(k as int);
    if k < into.len() && into[k].name == *name {
        assert(rest[0] == ss[k as int]);
        let mut setting = into.remove(k);
        setting.occurrences.push(occurrence);
        let ghost sv = (setting.name@, setting.occurrences@.map_values(
            |o: (String, Vec<(String, Json)>)| (o.0@, crate::schema::fview(o.1@)),
        ));
        assert(sv == (name@, ss[k as int].1.push(occ))) by {
            assert(setting.occurrences@.map_values(
                |o: (String, Vec<(String, Json)>)| (o.0@, crate::schema::fview(o.1@)),
            ) =~= ss[k as int].1.push(occ));
        }
        into.insert(k, setting);
        assert(settings_view(into@) =~= ss.update(k as int, sv));
        assert(record_spec(rest, name@, occ) =~= rest.update(0, sv));
        assert(ss.update(k as int, sv) =~= ss.take(k as int) + rest.update(0, sv));
        proof {
            assert forall|i: int, j: int| 0 <= i < j < settings_view(into@).len() implies text_lt(
                #[trigger] settings_view(into@)[i].0,
                #[trigger] settings_view(into@)[j].0,
            ) by {
                assert(settings_view(into@)[i].0 == ss[i].0);
                assert(settings_view(into@)[j].0 == ss[j].0);
            }
        }
    } else {
        let mut occurrences: Vec<(String, Vec<(String, Json)>)> = Vec::new();
        occurrences.push(occurrence);
        let setting = Setting { name: name.clone(), occurrences };
        let ghost sv = (name@, seq![occ]);
        assert(setting.occurrences@.map_values(
            |o: (String, Vec<(String, Json)>)| (o.0@, crate::schema::fview(o.1@)),
        ) =~= seq![occ]);
        proof {
            if k < ss.len() {
                assert(rest[0] == ss[k as int]);
                assert(rest[0].0 != name@);
                assert(!text_lt(rest[0].0, name@));
                crate::order::lemma_lt_total(rest[0].0, name@);
                assert(text_lt(name@, rest[0].0));
                assert(record_spec(rest, name@, occ) =~= seq![sv] + rest);
            } else {
                assert(rest =~= Seq::<SettingView>::empty());
            }
        }
        into.insert(k, setting);
        assert(settings_view(into@) =~= ss.take(k as int) + (seq![sv] + rest));
        proof {
            assert forall|i: int, j: int| 0 <= i < j < settings_view(into@).len() implies text_lt(
                #[trigger] settings_view(into@)[i].0,
                #[trigger] settings_view(into@)[j].0,
            ) by {
                let v = settings_view(into@);
                if j < k {
                    assert(v[i].0 == ss[i].0 && v[j].0 == ss[j].0);
                } else if j == k {
                    assert(v[i].0 == ss[i].0);
                } else if i < k {
                    assert(v[i].0 == ss[i].0 && v[j].0 == ss[j - 1].0);
                    if j - 1 > k {
                        assert(text_lt(ss[k as int].0, ss[j - 1].0));
                        crate::order::lemma_lt_transitive(name@, ss[k as int].0, ss[j - 1].0);
                    }
                    crate::order::lemma_lt_transitive(ss[i].0, name@, ss[j - 1].0);
                } else if i == k {
                    assert(v[j].0 == ss[j - 1].0);
                    if j - 1 > k {
                        assert(text_lt(ss[k as int].0, ss[j - 1].0));
                        crate::order::lemma_lt_transitive(name@, ss[k as int].0, ss[j - 1].0);
                    }
                } else {
                    assert(v[i].0 == ss[i - 1].0 && v[j].0 == ss[j - 1].0);
                }
            }
        }
    }
}

/// Whether settings are in strictly ascending name order.
pub open spec fn names_ascending(ss: Seq<SettingView>) -> bool {
    forall|i: int, j: int| 0 <= i < j < ss.len() ==> text_lt(#[trigger] ss[i].0, #[trigger] ss[j].0)
}

/// Where a policy stands among the known ones.
fn rank_of(policies: &Vec<String>, p: &String) -> (r: Option<usize>)
    ensures
        match r {
            Some(i) => policy_rank(strs(policies@), p@) == Some(i as int),
            None => policy_rank(strs(policies@), p@) is None,
        },
{
    let mut k: usize = 0;
    while k < policies.len()
        invariant
            k <= policies@.len(),
            policy_rank(strs(policies@), p@) == rank_from(strs(policies@), p@, k as int),
        decreases policies.len() - k,
    {
        if policies[k] == *p {
            return Some(k);
        }
        k = k + 1;
    }
    None
}

/// Whether a list holds a text.
fn holds_text(list: &Vec<String>, t: &String) -> (b: bool)
    ensures
        b == strs(list@).contains(t@),
{
    let mut k: usize = 0;
    while k < list.len()
        invariant
            k <= list@.len(),
            forall|j: int| 0 <= j < k ==> strs(list@)[j] != t@,
        decreases list.len() - k,
    {
        if list[k] == *t {
            assert(strs(list@)[k as int] == t@);
            return true;
        }
        k = k + 1;
    }
    false
}

/// Record every entry of the list a contract holds at `a.b`.
fn record_list(into: &mut Vec<Setting>, contract: &Json, a: &str, b: &str, keyed_on: &str, reader: &str)
    requires
        names_ascending(settings_view(old(into)@)),
    ensures
        names_ascending(settings_view(final(into)@)),
        settings_view(final(into)@) == record_all(settings_view(old(into)@), list_at(*contract, a@, b@), keyed_on@, reader@),
{
    let empty: Vec<Json> = Vec::new();
    let items = match at_path(contract, a, b) {
        Some(Json::Array(items)) => items,
        _ => &empty,
    };
    let ghost start = settings_view(into@);
    let mut k: usize = 0;
    while k < items.len()
        invariant
            k <= items@.len(),
            items@ == list_at(*contract, a@, b@),
            names_ascending(settings_view(into@)),
            settings_view(into@) == record_all(start, items@.take(k as int), keyed_on@, reader@),
        decreases items.len() - k,
    {
        assert(items@.take(k + 1).drop_last() =~= items@.take(k as int));
        assert(items@.take(k + 1).last() == items@[k as int]);
        record(into, &items[k], keyed_on, reader);
        k = k + 1;
    }
    assert(items@.take(items@.len() as int) =~= items@);
}

/// Fold one image's contract into the chart-wide surface: the image among the readers, its
/// spelling rules where none are held yet (and a warning where they differ from those held), its
/// keys, loader variables and external variables recorded by name, its ignore patterns added once
/// each, and its policy for unknown variables kept where it is stricter than the one held.
/// `policies` are the known policies, strictest last.
pub fn absorb(
    surface: &mut Surface,
    vendored: Vendored,
    name: &str,
    documents: Vec<String>,
    policies: &Vec<String>,
    report: &mut Report,
)
    requires
        names_ascending(settings_view(old(surface).keys@)),
        names_ascending(settings_view(old(surface).loader@)),
        names_ascending(settings_view(old(surface).external@)),
    ensures
        absorbed(*old(surface), *final(surface), vendored, name@, strs(documents@), strs(policies@)),
        names_ascending(settings_view(final(surface).keys@)),
        names_ascending(settings_view(final(surface).loader@)),
        names_ascending(settings_view(final(surface).external@)),
        crate::report::recorded(
            old(report).findings@,
            final(report).findings@,
            old(surface).chart@,
            if old(surface).dialect@.len() > 0 && !(old(surface).dialect@.len() == dialect_of(vendored.contract).len()
                && crate::json::fields_same(old(surface).dialect@, dialect_of(vendored.contract), old(surface).dialect@.len() as nat)) {
                Some(dialect_warning(name@, crate::schema::fview(dialect_of(vendored.contract)), crate::schema::fview(old(surface).dialect@)))
            } else {
                None
            },
            false,
        ),
{
    let ghost before = *surface;
    let ghost c = vendored.contract;
    let app = text_at_path(&vendored.contract, "app", "name", name);
    let version = text_at_path(&vendored.contract, "app", "version", "?");
    let policy = text_at_path(&vendored.contract, "external", "unknown", "reject");
    let empty: Vec<(String, Json)> = Vec::new();
    let dialect = match at_path(&vendored.contract, "schema", "dialect") {
        Some(Json::Object(f)) => f,
        _ => &empty,
    };
    assert(dialect@ == dialect_of(c));
    if surface.dialect.len() == 0 {
        surface.dialect = copy_all(dialect);
        surface.unknown = policy.clone();
    } else if !same_fields(&surface.dialect, dialect) {
        let tj = Json::Object(copy_all(dialect));
        let oj = Json::Object(copy_all(&surface.dialect));
        let theirs = tj.to_json();
        let ours = oj.to_json();
        proof {
            crate::json::lemma_text_view(tj);
            crate::json::lemma_text_view(oj);
        }
        let mut m = chars_of(name);
        push_str(&mut m, " reads its configuration under the dialect ");
        push_str(&mut m, theirs.as_str());
        push_str(&mut m, ", where the other images this chart pins use ");
        push_str(&mut m, ours.as_str());
        push_str(&mut m, "; the header below reports the latter");
        let ghost was = report.findings@;
        report.warn(surface.chart.clone(), string_of(&m));
        assert(report.findings@.take(was.len() as int) =~= was);
    }
    assert(surface.keys == before.keys && surface.loader == before.loader && surface.external == before.external);
    assert(surface.ignore == before.ignore && surface.readers == before.readers && surface.chart == before.chart);
    record_list(&mut surface.keys, &vendored.contract, "schema", "keys", "path", name);
    record_list(&mut surface.loader, &vendored.contract, "schema", "loader", "env", name);
    record_list(&mut surface.external, &vendored.contract, "external", "env", "name", name);
    assert(names_ascending(settings_view(surface.keys@)));
    let no_patterns: Vec<Json> = Vec::new();
    let patterns = match at_path(&vendored.contract, "external", "ignore") {
        Some(Json::Array(items)) => items,
        _ => &no_patterns,
    };
    let ghost held_before = strs(surface.ignore@);
    let ghost s2 = *surface;
    let mut k: usize = 0;
    while k < patterns.len()
        invariant
            k <= patterns@.len(),
            surface.keys == s2.keys,
            surface.loader == s2.loader,
            surface.external == s2.external,
            surface.readers == s2.readers,
            surface.dialect == s2.dialect,
            surface.chart == s2.chart,
            surface.unknown == s2.unknown,
            patterns@ == list_at(c, "external"@, "ignore"@),
            strs(surface.ignore@) == add_ignores(held_before, patterns@.take(k as int)),
        decreases patterns.len() - k,
    {
        assert(patterns@.take(k + 1).drop_last() =~= patterns@.take(k as int));
        assert(patterns@.take(k + 1).last() == patterns@[k as int]);
        match &patterns[k] {
            Json::Str(t) => {
                if !holds_text(&surface.ignore, t) {
                    let ghost was = strs(surface.ignore@);
                    surface.ignore.push(t.clone());
                    assert(strs(surface.ignore@) =~= was.push(t@));
                }
            },
            _ => {},
        }
        k = k + 1;
    }
    assert(patterns@.take(patterns@.len() as int) =~= patterns@);
    let mine = rank_of(policies, &policy);
    let held = rank_of(policies, &surface.unknown);
    let above = match (mine, held) {
        (Some(x), Some(y)) => x > y,
        (Some(_), None) => true,
        _ => false,
    };
    if above {
        surface.unknown = policy;
    }
    surface.readers.push(Reader {
        name: name.to_owned(),
        contract: vendored.file,
        image: vendored.image,
        digest: vendored.digest,
        app,
        version,
        documents,
    });
    assert(names_ascending(settings_view(surface.keys@)));
    assert(surface.readers@.take(before.readers@.len() as int) =~= before.readers@);
    assert(strs(surface.ignore@) == add_ignores(strs(before.ignore@), list_at(c, "external"@, "ignore"@)));
    assert(crate::schema::fview(surface.dialect@) == crate::schema::fview(
        if before.dialect@.len() == 0 { dialect_of(c) } else { before.dialect@ },
    ));
}

} // verus!
