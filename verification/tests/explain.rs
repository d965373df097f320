use terrace_helm::explain::{clip, describe_constraint, prose, wrap, WIDTH};
use terrace_helm::json::Json;

#[test]
fn a_value_that_fits_is_left_alone_and_one_that_does_not_is_clipped() {
    assert_eq!(clip("short", 10), "short");
    assert_eq!(clip("exactly-10", 10), "exactly-10");
    assert_eq!(clip("a much longer value", 10), "a much ...");
}

#[test]
fn a_wrap_never_breaks_a_word_and_keeps_the_spacing_inside_a_line() {
    assert_eq!(wrap("PathBuf  (read as text)", 40), ["PathBuf  (read as text)"]);
    let lines = wrap("one two three four five six seven eight nine ten eleven", 16);
    assert!(lines.iter().all(|line| line.chars().count() <= 16), "{lines:?}");
    assert_eq!(lines.join(" "), "one two three four five six seven eight nine ten eleven");
    assert_eq!(lines[0], "one two three");
}

#[test]
fn a_token_wider_than_the_width_overflows_rather_than_breaking() {
    let token = "x".repeat(30);
    assert_eq!(wrap(&format!("a {token} b"), 16), ["a", token.as_str(), "b"]);
}

#[test]
fn the_width_never_drops_below_sixteen() {
    assert_eq!(wrap("aaaa bbbb cccc dddd", 4), ["aaaa bbbb cccc", "dddd"]);
}

#[test]
fn nothing_to_wrap_is_one_empty_line() {
    assert_eq!(wrap("", 20), [""]);
}

#[test]
fn prose_keeps_paragraphs_and_indents_every_line_but_the_blank_one() {
    let lines = prose("First   paragraph\nwraps here.\n\nSecond one.", "  ");
    assert_eq!(lines, ["  First paragraph wraps here.", "", "  Second one."]);
    assert!(prose("\n\n  \n\n", "  ").is_empty());
    let long = "word ".repeat(40);
    let wrapped = prose(&long, "    ");
    assert!(wrapped.iter().all(|line| line.chars().count() <= WIDTH), "{wrapped:?}");
}

/// An object with its fields in key order, as a parsed document holds them.
fn object(fields: &[(&str, Json)]) -> Json {
    let mut held: Vec<(String, Json)> = Vec::new();
    for (name, value) in fields {
        held.push((name.to_string(), copy(value)));
    }
    held.sort_by(|a, b| a.0.cmp(&b.0));
    Json::Object(held)
}

fn copy(value: &Json) -> Json {
    match value {
        Json::Null => Json::Null,
        Json::Bool(b) => Json::Bool(*b),
        Json::Number(n) => Json::Number(n.clone()),
        Json::Str(s) => Json::Str(s.clone()),
        Json::Array(items) => Json::Array(items.iter().map(copy).collect()),
        Json::Object(fields) => {
            Json::Object(fields.iter().map(|(k, v)| (k.clone(), copy(v))).collect())
        }
    }
}

fn text(s: &str) -> Json {
    Json::Str(s.to_owned())
}

fn number(n: &str) -> Json {
    Json::Number(n.to_owned())
}

fn described(constraint: &Json) -> String {
    describe_constraint(Some(constraint))
}

#[test]
fn a_bound_reads_as_a_range_and_says_which_side_when_it_is_one_sided() {
    assert_eq!(
        described(&object(&[
            ("type", text("integer")),
            ("minimum", number("0")),
            ("maximum", number("65535"))
        ])),
        "integer, 0 to 65535"
    );
    assert_eq!(
        described(&object(&[("type", text("integer")), ("minimum", number("1"))])),
        "integer, at least 1"
    );
    assert_eq!(
        described(&object(&[("type", text("integer")), ("maximum", number("9"))])),
        "integer, at most 9"
    );
    assert_eq!(described(&object(&[("exclusiveMinimum", number("0"))])), "above 0");
}

#[test]
fn a_vocabulary_this_renderer_knows_reads_as_prose() {
    assert_eq!(
        described(&object(&[
            ("type", text("string")),
            ("enum", Json::Array(vec![text("a"), text("b")]))
        ])),
        "string, one of \"a\" | \"b\""
    );
    assert_eq!(
        described(&object(&[
            ("type", text("string")),
            ("minLength", number("1")),
            ("maxLength", number("64"))
        ])),
        "string, 1 to 64 characters"
    );
    assert_eq!(
        described(&object(&[
            ("type", text("array")),
            ("items", object(&[("type", text("string"))])),
            ("uniqueItems", Json::Bool(true))
        ])),
        "array, distinct, of string"
    );
}

#[test]
fn an_unrecognised_keyword_is_printed_rather_than_dropped() {
    let found = described(&object(&[("type", text("string")), ("contentEncoding", text("base64"))]));
    assert!(found.contains("contentEncoding=\"base64\""), "{found}");
}

#[test]
fn nothing_to_say_is_said_with_nothing() {
    assert_eq!(describe_constraint(None), "");
    assert_eq!(described(&object(&[])), "");
}

#[test]
fn open_bounds_both_sides_and_a_struct_element_read_as_prose() {
    assert_eq!(
        described(&object(&[
            ("exclusiveMinimum", number("0")),
            ("exclusiveMaximum", number("1"))
        ])),
        "above 0, below 1"
    );
    assert_eq!(
        described(&object(&[
            ("type", text("object")),
            (
                "additionalProperties",
                object(&[
                    ("type", text("object")),
                    ("properties", object(&[("b", Json::Null), ("a", Json::Null)])),
                    ("required", Json::Array(vec![text("b")]))
                ])
            )
        ])),
        "object, of (object, fields a, b*)"
    );
    assert_eq!(
        described(&object(&[("type", Json::Array(vec![text("string"), text("null")]))])),
        "string or null"
    );
    assert_eq!(
        described(&object(&[("minItems", number("1")), ("const", Json::Array(vec![Json::Null]))])),
        "exactly [null], at least 1 item(s)"
    );
    assert_eq!(
        described(&object(&[("pattern", text("^a$")), ("multipleOf", number("2"))])),
        "matching ^a$, a multiple of 2"
    );
}

#[test]
fn whitespace_no_break_lands_on_is_kept() {
    assert_eq!(terrace_helm::explain::wrap("a b  ", 20), ["a b  "]);
    assert_eq!(terrace_helm::explain::wrap("aaaa bbbb cccc dddd  ", 4), ["aaaa bbbb cccc", "dddd  "]);
}
