//! A parsed JSON or YAML value, as the rules here read one: a chart's values, a declaration, a
//! published contract.
//!
//! An object holds its fields in key order, each key once, which is how the parsers this tree is
//! read with hand them over.

use vstd::prelude::*;

use crate::text::{chars_of, split_char, split_spec, string_of, strs, views};

verus! {

/// A JSON value.
#[derive(Debug, PartialEq)]
pub enum Json {
    Null,
    Bool(bool),
    /// A number, as it was written.
    Number(String),
    Str(String),
    Array(Vec<Json>),
    Object(Vec<(String, Json)>),
}

/// The index of the first field named `name` among the first `n`, or `n`.
pub open spec fn field_at(fields: Seq<(String, Json)>, name: Seq<char>, n: int) -> int
    decreases n,
{
    if n <= 0 {
        n
    } else if field_at(fields, name, n - 1) < n - 1 {
        field_at(fields, name, n - 1)
    } else if fields[n - 1].0@ == name {
        n - 1
    } else {
        n
    }
}

/// The value of an object's field, when the value is an object holding one by that name.
pub open spec fn get_spec(j: Json, name: Seq<char>) -> Option<Json> {
    match j {
        Json::Object(fields) => {
            let k = field_at(fields@, name, fields@.len() as int);
            if 0 <= k < fields@.len() {
                Some(fields@[k].1)
            } else {
                None
            }
        },
        _ => None,
    }
}

/// Follow a list of field names from a value, `None` at the first missing step.
pub open spec fn dig_spec(j: Json, parts: Seq<Seq<char>>) -> Option<Json>
    decreases parts.len(),
{
    if parts.len() == 0 {
        Some(j)
    } else {
        match dig_spec(j, parts.drop_last()) {
            Some(inner) => get_spec(inner, parts.last()),
            None => None,
        }
    }
}

/// A value's text, when it is a string.
pub open spec fn text_spec(j: Option<Json>) -> Option<Seq<char>> {
    match j {
        Some(Json::Str(s)) => Some(s@),
        _ => None,
    }
}

impl Json {
    /// The field of an object by name; `None` for a missing field or a value that is not an
    /// object.
    pub fn get(&self, name: &str) -> (r: Option<&Json>)
        ensures
            r == match get_spec(*self, name@) {
                Some(v) => Some(&v),
                None => None::<&Json>,
            },
    {
        match self {
            Json::Object(fields) => {
                let want = name.to_owned();
                let mut k: usize = 0;
                while k < fields.len()
                    invariant
                        k <= fields@.len(),
                        *self == Json::Object(*fields),
                        want@ == name@,
                        field_at(fields@, name@, k as int) == k,
                    decreases fields.len() - k,
                {
                    if fields[k].0 == want {
                        proof {
                            lemma_field_found(fields@, name@, k as int, fields@.len() as int);
                        }
                        return Some(&fields[k].1);
                    }
                    k = k + 1;
                }
                None
            },
            _ => None,
        }
    }

    /// The text of a string.
    pub fn as_text(&self) -> (r: Option<&String>)
        ensures
            match r {
                Some(s) => *self == Json::Str(*s),
                None => !(*self is Str),
            },
    {
        match self {
            Json::Str(s) => Some(s),
            _ => None,
        }
    }
}

/// `field_at` finds the first field by a name among the first `n`, and says `n` only where none
/// of them has it.
pub proof fn lemma_field_at(fields: Seq<(String, Json)>, name: Seq<char>, n: int)
    requires
        0 <= n <= fields.len(),
    ensures
        0 <= field_at(fields, name, n) <= n,
        field_at(fields, name, n) < n ==> fields[field_at(fields, name, n)].0@ == name,
        field_at(fields, name, n) == n <==> forall|i: int| 0 <= i < n ==> #[trigger] fields[i].0@ != name,
    decreases n,
{
    if n > 0 {
        lemma_field_at(fields, name, n - 1);
    }
}

proof fn lemma_field_found(fields: Seq<(String, Json)>, name: Seq<char>, k: int, n: int)
    requires
        0 <= k < n <= fields.len(),
        field_at(fields, name, k) == k,
        fields[k].0@ == name,
    ensures
        field_at(fields, name, n) == k,
    decreases n,
{
    if n > k + 1 {
        lemma_field_found(fields, name, k, n - 1);
    }
}

/// The index of the first field named `name`, or the number of fields when none is.
pub fn field_index(fields: &Vec<(String, Json)>, name: &str) -> (k: usize)
    ensures
        k as int == field_at(fields@, name@, fields@.len() as int),
        k <= fields@.len(),
{
    let want = name.to_owned();
    let mut k: usize = 0;
    while k < fields.len()
        invariant
            k <= fields@.len(),
            want@ == name@,
            field_at(fields@, name@, k as int) == k,
        decreases fields.len() - k,
    {
        if fields[k].0 == want {
            proof {
                lemma_field_found(fields@, name@, k as int, fields@.len() as int);
            }
            return k;
        }
        k = k + 1;
    }
    k
}

/// Follow a dotted values path, returning `None` at the first missing step.
///
/// Absence is an ordinary answer rather than an error: every caller is asking whether a chart
/// happens to declare something, and most charts do not declare most things.
pub fn dig<'a>(values: &'a Json, path: &str) -> (r: Option<&'a Json>)
    ensures
        r == match dig_spec(*values, split_spec(path@, '.')) {
            Some(v) => Some(&v),
            None => None::<&Json>,
        },
{
    let parts = split_char(&chars_of(path), '.');
    let ghost ps = views(parts@);
    let mut current = values;
    let mut k: usize = 0;
    while k < parts.len()
        invariant
            k <= parts@.len(),
            ps == views(parts@),
            ps == split_spec(path@, '.'),
            dig_spec(*values, ps.take(k as int)) == Some(*current),
        decreases parts.len() - k,
    {
        assert(ps.take(k + 1).drop_last() =~= ps.take(k as int));
        assert(ps.take(k + 1).last() == parts@[k as int]@);
        let name = string_of(&parts[k]);
        match current.get(name.as_str()) {
            Some(next) => {
                current = next;
            },
            None => {
                proof {
                    assert(dig_spec(*values, ps.take(k + 1)) is None);
                    lemma_dig_stops(*values, ps, k as int + 1);
                }
                return None;
            },
        }
        k = k + 1;
    }
    assert(ps.take(parts@.len() as int) =~= ps);
    Some(current)
}

proof fn lemma_dig_stops(j: Json, parts: Seq<Seq<char>>, k: int)
    requires
        0 < k <= parts.len(),
        dig_spec(j, parts.take(k)) is None,
    ensures
        dig_spec(j, parts) is None,
    decreases parts.len() - k,
{
    if k < parts.len() {
        assert(parts.take(k + 1).drop_last() =~= parts.take(k));
        lemma_dig_stops(j, parts, k + 1);
    } else {
        assert(parts.take(k) =~= parts);
    }
}

/// Whether a dotted values path exists: presence rather than truth, so a value set to `false`
/// or `null` is still a value the chart has.
pub fn has_path(values: &Json, path: &str) -> (b: bool)
    ensures
        b == dig_spec(*values, split_spec(path@, '.')) is Some,
{
    dig(values, path).is_some()
}

} // verus!

verus! {

/// An object's field as text: the string it holds, or nothing for a missing field or one that is
/// not a string.
pub open spec fn field_text(j: Json, name: Seq<char>) -> Seq<char> {
    match get_spec(j, name) {
        Some(Json::Str(s)) => s@,
        _ => seq![],
    }
}

/// An object's field as text, empty when it holds none.
pub fn text_of(j: &Json, name: &str) -> (s: String)
    ensures
        s@ == field_text(*j, name@),
{
    match j.get(name) {
        Some(held) => match held.as_text() {
            Some(text) => text.clone(),
            None => String::new(),
        },
        None => String::new(),
    }
}

/// What follows the first `@` of a text, when it holds one.
pub open spec fn after_at(text: Seq<char>) -> Option<Seq<char>> {
    let at = crate::text::next_char(text, '@', 0);
    if at < text.len() {
        Some(text.skip(at + 1))
    } else {
        None
    }
}

/// What follows the first `@` of a text, when it holds one: the digest a tag pins inline.
pub fn digest_of(text: &String) -> (d: Option<String>)
    ensures
        match d {
            Some(s) => after_at(text@) == Some(s@),
            None => after_at(text@) is None,
        },
{
    let held = crate::text::chars(text);
    let at = crate::text::find_char(&held, '@', 0);
    if at < held.len() {
        let rest = crate::text::slice_of(&held, at + 1, held.len());
        assert(rest@ =~= held@.skip(at + 1));
        Some(string_of(&rest))
    } else {
        None
    }
}

/// A hexadecimal digit, lower case.
pub open spec fn hex_digit(n: int) -> char {
    if n < 10 {
        ((n + 48) as u8) as char
    } else {
        ((n + 87) as u8) as char
    }
}

/// One character as JSON writes it inside a string: the quote, the backslash and the control
/// characters escaped, with the short forms where JSON has one, and everything else as itself.
pub open spec fn json_char(c: char) -> Seq<char> {
    if c == '"' {
        seq!['\\', '"']
    } else if c == '\\' {
        seq!['\\', '\\']
    } else if c == '\u{8}' {
        seq!['\\', 'b']
    } else if c == '\t' {
        seq!['\\', 't']
    } else if c == '\n' {
        seq!['\\', 'n']
    } else if c == '\u{c}' {
        seq!['\\', 'f']
    } else if c == '\r' {
        seq!['\\', 'r']
    } else if (c as u32) < 0x20 {
        seq!['\\', 'u', '0', '0', hex_digit(((c as u32) / 16) as int), hex_digit(((c as u32) % 16) as int)]
    } else {
        seq![c]
    }
}

/// A text as a JSON string: in double quotes, each character written by `json_char`.
pub open spec fn json_string(text: Seq<char>) -> Seq<char> {
    seq!['"'] + text.map_values(|c: char| json_char(c)).flatten() + seq!['"']
}

/// `serde_json::to_string` on a text.
///
/// Its contract: the JSON string for the text, as `format_escaped_str` in the crate's serialiser
/// writes one — the escape table there names exactly the characters `json_char` escapes. A text
/// always serialises, so the `Result` is never an error.
#[verifier::external_body]
pub(crate) fn to_json_string(text: &str) -> (s: String)
    ensures
        s@ == json_string(text@),
{
    serde_json::to_string(text).unwrap_or_default()
}

/// A value as compact JSON text: what `Display` writes for a parsed value. Arrays and objects
/// are bracketed with their members separated by commas and no spaces; a number is written as it
/// was read.
pub open spec fn json_text(j: Json) -> Seq<char>
    decreases j, 0nat,
{
    match j {
        Json::Null => "null"@,
        Json::Bool(b) => if b {
            "true"@
        } else {
            "false"@
        },
        Json::Number(n) => n@,
        Json::Str(s) => json_string(s@),
        Json::Array(items) => seq!['['] + items_text(items@, items@.len() as nat) + seq![']'],
        Json::Object(fields) => seq!['{'] + fields_text(fields@, fields@.len() as nat) + seq!['}'],
    }
}

/// The first `n` items of an array, as JSON text separated by commas.
pub open spec fn items_text(items: Seq<Json>, n: nat) -> Seq<char>
    decreases items, n,
{
    if n == 0 || n > items.len() {
        seq![]
    } else if n == 1 {
        json_text(items[0])
    } else {
        items_text(items, (n - 1) as nat) + seq![','] + json_text(items[n - 1])
    }
}

/// The first `n` fields of an object, as JSON text separated by commas.
pub open spec fn fields_text(fields: Seq<(String, Json)>, n: nat) -> Seq<char>
    decreases fields, n,
{
    if n == 0 || n > fields.len() {
        seq![]
    } else if n == 1 {
        json_string(fields[0].0@) + seq![':'] + json_text(fields[0].1)
    } else {
        fields_text(fields, (n - 1) as nat) + seq![','] + json_string(fields[n - 1].0@) + seq![
            ':',
        ] + json_text(fields[n - 1].1)
    }
}

impl Json {
    /// The value as compact JSON text.
    pub fn to_json(&self) -> (s: String)
        ensures
            s@ == json_text(*self),
        decreases self,
    {
        match self {
            Json::Null => "null".to_owned(),
            Json::Bool(b) => if *b {
                "true".to_owned()
            } else {
                "false".to_owned()
            },
            Json::Number(n) => n.clone(),
            Json::Str(s) => to_json_string(s.as_str()),
            Json::Array(items) => {
                let mut out: Vec<char> = vec!['['];
                let mut k: usize = 0;
                while k < items.len()
                    invariant
                        k <= items@.len(),
                        *self == Json::Array(*items),
                        out@ == seq!['['] + items_text(items@, k as nat),
                    decreases items.len() - k,
                {
                    if k > 0 {
                        out.push(',');
                    }
                    proof {
                        assert(decreases_to!(*self => (*self)->Array_0));
                        assert(decreases_to!(*items => items@));
                        assert(decreases_to!(items@ => items@[k as int]));
                        assert(decreases_to!(*self => items@[k as int]));
                    }
                    let one = items[k].to_json();
                    crate::text::push_str(&mut out, one.as_str());
                    k = k + 1;
                }
                out.push(']');
                string_of(&out)
            },
            Json::Object(fields) => {
                let mut out: Vec<char> = vec!['{'];
                let mut k: usize = 0;
                while k < fields.len()
                    invariant
                        k <= fields@.len(),
                        *self == Json::Object(*fields),
                        out@ == seq!['{'] + fields_text(fields@, k as nat),
                    decreases fields.len() - k,
                {
                    if k > 0 {
                        out.push(',');
                    }
                    let key = to_json_string(fields[k].0.as_str());
                    crate::text::push_str(&mut out, key.as_str());
                    out.push(':');
                    proof {
                        assert(decreases_to!(*self => (*self)->Object_0));
                        assert(decreases_to!(*fields => fields@));
                        assert(decreases_to!(fields@ => fields@[k as int]));
                        assert(decreases_to!(fields@[k as int] => fields@[k as int].1));
                        assert(decreases_to!(*self => fields@[k as int].1));
                    }
                    let one = fields[k].1.to_json();
                    crate::text::push_str(&mut out, one.as_str());
                    k = k + 1;
                }
                out.push('}');
                string_of(&out)
            },
        }
    }
}

/// Whether two values are the same value: the same variant holding the same text, number or
/// members, an object's fields compared pair by pair in their order.
pub open spec fn json_same(a: Json, b: Json) -> bool
    decreases a, 0nat,
{
    match (a, b) {
        (Json::Null, Json::Null) => true,
        (Json::Bool(x), Json::Bool(y)) => x == y,
        (Json::Number(x), Json::Number(y)) => x@ == y@,
        (Json::Str(x), Json::Str(y)) => x@ == y@,
        (Json::Array(x), Json::Array(y)) => x@.len() == y@.len() && items_same(
            x@,
            y@,
            x@.len() as nat,
        ),
        (Json::Object(x), Json::Object(y)) => x@.len() == y@.len() && fields_same(
            x@,
            y@,
            x@.len() as nat,
        ),
        _ => false,
    }
}

/// Whether the first `n` items of two arrays are the same values.
pub open spec fn items_same(x: Seq<Json>, y: Seq<Json>, n: nat) -> bool
    decreases x, n,
{
    if n == 0 {
        true
    } else if n > x.len() || n > y.len() {
        false
    } else {
        items_same(x, y, (n - 1) as nat) && json_same(x[n - 1], y[n - 1])
    }
}

/// Whether the first `n` fields of two objects have the same names and values.
pub open spec fn fields_same(x: Seq<(String, Json)>, y: Seq<(String, Json)>, n: nat) -> bool
    decreases x, n,
{
    if n == 0 {
        true
    } else if n > x.len() || n > y.len() {
        false
    } else {
        fields_same(x, y, (n - 1) as nat) && x[n - 1].0@ == y[n - 1].0@ && json_same(
            x[n - 1].1,
            y[n - 1].1,
        )
    }
}

proof fn lemma_items_same_prefix(x: Seq<Json>, y: Seq<Json>, n: nat, m: nat)
    requires
        m <= n,
        items_same(x, y, n),
    ensures
        items_same(x, y, m),
    decreases n,
{
    if m < n {
        lemma_items_same_prefix(x, y, (n - 1) as nat, m);
    }
}

proof fn lemma_fields_same_prefix(x: Seq<(String, Json)>, y: Seq<(String, Json)>, n: nat, m: nat)
    requires
        m <= n,
        fields_same(x, y, n),
    ensures
        fields_same(x, y, m),
    decreases n,
{
    if m < n {
        lemma_fields_same_prefix(x, y, (n - 1) as nat, m);
    }
}

impl Json {
    /// Whether two values are the same value.
    pub fn same(&self, other: &Json) -> (b: bool)
        ensures
            b == json_same(*self, *other),
        decreases self,
    {
        match (self, other) {
            (Json::Null, Json::Null) => true,
            (Json::Bool(x), Json::Bool(y)) => *x == *y,
            (Json::Number(x), Json::Number(y)) => *x == *y,
            (Json::Str(x), Json::Str(y)) => *x == *y,
            (Json::Array(x), Json::Array(y)) => {
                if x.len() != y.len() {
                    return false;
                }
                let mut k: usize = 0;
                while k < x.len()
                    invariant
                        k <= x@.len(),
                        x@.len() == y@.len(),
                        *self == Json::Array(*x),
                        *other == Json::Array(*y),
                        items_same(x@, y@, k as nat),
                    decreases x.len() - k,
                {
                    proof {
                        assert(decreases_to!(*self => (*self)->Array_0));
                        assert(decreases_to!(*x => x@));
                        assert(decreases_to!(x@ => x@[k as int]));
                    }
                    if !x[k].same(&y[k]) {
                        proof {
                            if items_same(x@, y@, x@.len() as nat) {
                                lemma_items_same_prefix(x@, y@, x@.len() as nat, (k + 1) as nat);
                            }
                        }
                        return false;
                    }
                    k = k + 1;
                }
                true
            },
            (Json::Object(x), Json::Object(y)) => {
                if x.len() != y.len() {
                    return false;
                }
                let mut k: usize = 0;
                while k < x.len()
                    invariant
                        k <= x@.len(),
                        x@.len() == y@.len(),
                        *self == Json::Object(*x),
                        *other == Json::Object(*y),
                        fields_same(x@, y@, k as nat),
                    decreases x.len() - k,
                {
                    proof {
                        assert(decreases_to!(*self => (*self)->Object_0));
                        assert(decreases_to!(*x => x@));
                        assert(decreases_to!(x@ => x@[k as int]));
                        assert(decreases_to!(x@[k as int] => x@[k as int].1));
                    }
                    if x[k].0 != y[k].0 || !x[k].1.same(&y[k].1) {
                        proof {
                            if fields_same(x@, y@, x@.len() as nat) {
                                lemma_fields_same_prefix(x@, y@, x@.len() as nat, (k + 1) as nat);
                            }
                        }
                        return false;
                    }
                    k = k + 1;
                }
                true
            },
            _ => false,
        }
    }
}

/// A JSON value as the mathematics of it: texts as sequences, an array's items and an object's
/// fields as sequences, each in its order.
pub enum JsonView {
    Null,
    Bool(bool),
    Number(Seq<char>),
    Str(Seq<char>),
    Array(Seq<JsonView>),
    Object(Seq<(Seq<char>, JsonView)>),
}

/// What a value is, as a `JsonView`.
pub open spec fn view_of(j: Json) -> JsonView
    decreases j, 0nat,
{
    match j {
        Json::Null => JsonView::Null,
        Json::Bool(b) => JsonView::Bool(b),
        Json::Number(n) => JsonView::Number(n@),
        Json::Str(s) => JsonView::Str(s@),
        Json::Array(items) => JsonView::Array(items_view(items@, items@.len() as nat)),
        Json::Object(fields) => JsonView::Object(fields_view(fields@, fields@.len() as nat)),
    }
}

/// The views of the first `n` items.
pub open spec fn items_view(items: Seq<Json>, n: nat) -> Seq<JsonView>
    decreases items, n,
{
    if n == 0 || n > items.len() {
        seq![]
    } else {
        items_view(items, (n - 1) as nat).push(view_of(items[n - 1]))
    }
}

/// The names and the views of the values of the first `n` fields.
pub open spec fn fields_view(fields: Seq<(String, Json)>, n: nat) -> Seq<(Seq<char>, JsonView)>
    decreases fields, n,
{
    if n == 0 || n > fields.len() {
        seq![]
    } else {
        fields_view(fields, (n - 1) as nat).push((fields[n - 1].0@, view_of(fields[n - 1].1)))
    }
}

/// The views of the first `n` items are the views of each.
pub proof fn lemma_items_view(items: Seq<Json>, n: nat)
    requires
        n <= items.len(),
    ensures
        items_view(items, n).len() == n,
        forall|i: int| 0 <= i < n ==> #[trigger] items_view(items, n)[i] == view_of(items[i]),
    decreases n,
{
    if n > 0 {
        lemma_items_view(items, (n - 1) as nat);
    }
}

/// The views of the first `n` fields are the names and value views of each.
pub proof fn lemma_fields_view(fields: Seq<(String, Json)>, n: nat)
    requires
        n <= fields.len(),
    ensures
        fields_view(fields, n).len() == n,
        forall|i: int|
            0 <= i < n ==> #[trigger] fields_view(fields, n)[i] == (
                fields[i].0@,
                view_of(fields[i].1),
            ),
    decreases n,
{
    if n > 0 {
        lemma_fields_view(fields, (n - 1) as nat);
    }
}

impl Json {
    /// A copy of the value.
    pub fn copy(&self) -> (c: Json)
        ensures
            view_of(c) == view_of(*self),
        decreases self,
    {
        match self {
            Json::Null => Json::Null,
            Json::Bool(b) => Json::Bool(*b),
            Json::Number(n) => Json::Number(n.clone()),
            Json::Str(s) => Json::Str(s.clone()),
            Json::Array(items) => {
                let mut out: Vec<Json> = Vec::new();
                let mut k: usize = 0;
                while k < items.len()
                    invariant
                        k <= items@.len(),
                        *self == Json::Array(*items),
                        out@.len() == k,
                        forall|i: int| 0 <= i < k ==> view_of(#[trigger] out@[i]) == view_of(items@[i]),
                    decreases items.len() - k,
                {
                    proof {
                        assert(decreases_to!(*self => (*self)->Array_0));
                        assert(decreases_to!(*items => items@));
                        assert(decreases_to!(items@ => items@[k as int]));
                    }
                    let one = items[k].copy();
                    out.push(one);
                    k = k + 1;
                }
                proof {
                    lemma_items_view(out@, out@.len() as nat);
                    lemma_items_view(items@, items@.len() as nat);
                    assert(items_view(out@, out@.len() as nat) =~= items_view(
                        items@,
                        items@.len() as nat,
                    ));
                }
                Json::Array(out)
            },
            Json::Object(fields) => {
                let mut out: Vec<(String, Json)> = Vec::new();
                let mut k: usize = 0;
                while k < fields.len()
                    invariant
                        k <= fields@.len(),
                        *self == Json::Object(*fields),
                        out@.len() == k,
                        forall|i: int|
                            0 <= i < k ==> (#[trigger] out@[i]).0@ == fields@[i].0@ && view_of(
                                out@[i].1,
                            ) == view_of(fields@[i].1),
                    decreases fields.len() - k,
                {
                    proof {
                        assert(decreases_to!(*self => (*self)->Object_0));
                        assert(decreases_to!(*fields => fields@));
                        assert(decreases_to!(fields@ => fields@[k as int]));
                        assert(decreases_to!(fields@[k as int] => fields@[k as int].1));
                    }
                    let one = fields[k].1.copy();
                    out.push((fields[k].0.clone(), one));
                    k = k + 1;
                }
                proof {
                    lemma_fields_view(out@, out@.len() as nat);
                    lemma_fields_view(fields@, fields@.len() as nat);
                    assert(fields_view(out@, out@.len() as nat) =~= fields_view(
                        fields@,
                        fields@.len() as nat,
                    ));
                }
                Json::Object(out)
            },
        }
    }
}

/// A view as compact JSON text.
pub open spec fn vtext(v: JsonView) -> Seq<char>
    decreases v, 0nat,
{
    match v {
        JsonView::Null => "null"@,
        JsonView::Bool(b) => if b {
            "true"@
        } else {
            "false"@
        },
        JsonView::Number(n) => n,
        JsonView::Str(s) => json_string(s),
        JsonView::Array(items) => seq!['['] + vitems_text(items, items.len()) + seq![']'],
        JsonView::Object(fields) => seq!['{'] + vfields_text(fields, fields.len()) + seq!['}'],
    }
}

/// The first `n` items of an array view, as JSON text separated by commas.
pub open spec fn vitems_text(items: Seq<JsonView>, n: nat) -> Seq<char>
    decreases items, n,
{
    if n == 0 || n > items.len() {
        seq![]
    } else if n == 1 {
        vtext(items[0])
    } else {
        vitems_text(items, (n - 1) as nat) + seq![','] + vtext(items[n - 1])
    }
}

/// The first `n` fields of an object view, as JSON text separated by commas.
pub open spec fn vfields_text(fields: Seq<(Seq<char>, JsonView)>, n: nat) -> Seq<char>
    decreases fields, n,
{
    if n == 0 || n > fields.len() {
        seq![]
    } else if n == 1 {
        json_string(fields[0].0) + seq![':'] + vtext(fields[0].1)
    } else {
        vfields_text(fields, (n - 1) as nat) + seq![','] + json_string(fields[n - 1].0) + seq![
            ':',
        ] + vtext(fields[n - 1].1)
    }
}

/// A value's JSON text is its view's.
pub proof fn lemma_text_view(j: Json)
    ensures
        json_text(j) == vtext(view_of(j)),
    decreases j, 0nat,
{
    match j {
        Json::Array(items) => {
            lemma_items_view(items@, items@.len() as nat);
            lemma_items_text(items@, items@.len() as nat, items@.len() as nat);
        },
        Json::Object(fields) => {
            lemma_fields_view(fields@, fields@.len() as nat);
            lemma_fields_text(fields@, fields@.len() as nat, fields@.len() as nat);
        },
        _ => {},
    }
}

proof fn lemma_items_text(items: Seq<Json>, n: nat, total: nat)
    requires
        n <= total <= items.len(),
    ensures
        items_text(items, n) == vitems_text(items_view(items, total), n),
    decreases items, n,
{
    lemma_items_view(items, total);
    if n > 0 {
        lemma_items_text(items, (n - 1) as nat, total);
        lemma_text_view(items[n - 1]);
        if n == 1 {
            lemma_text_view(items[0]);
        }
    }
}

proof fn lemma_fields_text(fields: Seq<(String, Json)>, n: nat, total: nat)
    requires
        n <= total <= fields.len(),
    ensures
        fields_text(fields, n) == vfields_text(fields_view(fields, total), n),
    decreases fields, n,
{
    lemma_fields_view(fields, total);
    if n > 0 {
        lemma_fields_text(fields, (n - 1) as nat, total);
        lemma_text_view(fields[n - 1].1);
        if n == 1 {
            lemma_text_view(fields[0].1);
        }
    }
}

} // verus!
