use terrace_helm::json::{dig, Json};
use terrace_helm::schema::{
    apply_divergences, describes_element, describing, expected, render, schema_body, schema_of,
};
use terrace_helm::shapes::{Added, Departure, Divergence};

fn s(text: &str) -> Json {
    Json::Str(text.to_owned())
}

fn n(number: &str) -> Json {
    Json::Number(number.to_owned())
}

fn arr(items: Vec<Json>) -> Json {
    Json::Array(items)
}

/// An object with its fields in key order, as a parsed document holds them.
fn obj(fields: Vec<(&str, Json)>) -> Json {
    let mut held: Vec<(String, Json)> =
        fields.into_iter().map(|(name, value)| (name.to_owned(), value)).collect();
    held.sort_by(|a, b| a.0.cmp(&b.0));
    Json::Object(held)
}

fn divergence(sub_path: &str, kind: Departure) -> Divergence {
    Divergence {
        chart: "x".to_owned(),
        line: 1,
        values_path: "a".to_owned(),
        sub_path: sub_path.to_owned(),
        reason: "because".to_owned(),
        kind,
    }
}

#[test]
fn an_enum_is_the_whole_block() {
    let held = expected(
        Some(&obj(vec![("type", s("string")), ("enum", arr(vec![s("a"), s("b")]))])),
        false,
        false,
    );
    assert_eq!(held, obj(vec![("enum", arr(vec![s("a"), s("b")]))]));
}

#[test]
fn an_optional_enum_gains_null_as_a_member() {
    let held = expected(Some(&obj(vec![("enum", arr(vec![s("a")]))])), true, false);
    assert_eq!(held, obj(vec![("enum", arr(vec![s("a"), Json::Null]))]));
}

#[test]
fn a_structured_key_with_no_element_is_opened_rather_than_described() {
    let held = expected(Some(&obj(vec![("type", s("object"))])), false, true);
    assert_eq!(
        held,
        obj(vec![("type", s("object")), ("additionalProperties", Json::Bool(true))])
    );
}

#[test]
fn a_structured_key_whose_element_is_described_takes_the_description() {
    let held = expected(
        Some(&obj(vec![
            ("type", s("object")),
            (
                "additionalProperties",
                obj(vec![
                    ("type", s("object")),
                    ("properties", obj(vec![("token", obj(vec![("type", s("string"))]))])),
                ]),
            ),
        ])),
        false,
        true,
    );
    assert_eq!(
        dig(&held, "additionalProperties.properties.token"),
        Some(&obj(vec![("type", s("string"))]))
    );
}

#[test]
fn a_structured_key_whose_constraint_names_an_array_is_neither() {
    let held = expected(
        Some(&obj(vec![("type", s("array")), ("items", obj(vec![("type", s("string"))]))])),
        false,
        true,
    );
    assert_eq!(dig(&held, "type"), Some(&s("array")));
    assert_eq!(dig(&held, "items"), Some(&obj(vec![("type", s("string"))])));
}

#[test]
fn a_constraint_with_no_type_accepts_every_json_type_rather_than_a_guess() {
    let held = expected(Some(&obj(vec![("minimum", n("1"))])), false, false);
    assert_eq!(
        dig(&held, "type"),
        Some(&arr(vec![
            s("string"),
            s("integer"),
            s("boolean"),
            s("array"),
            s("object"),
            s("null")
        ]))
    );
}

#[test]
fn an_optional_value_accepts_null() {
    let held = expected(Some(&obj(vec![("type", s("string"))])), true, false);
    assert_eq!(dig(&held, "type"), Some(&arr(vec![s("string"), s("null")])));
}

#[test]
fn annotations_do_not_come_across_but_format_does() {
    let held = expected(
        Some(&obj(vec![
            ("type", s("array")),
            (
                "items",
                obj(vec![("type", s("string")), ("description", s("prose")), ("format", s("uri"))]),
            ),
        ])),
        false,
        false,
    );
    assert_eq!(
        dig(&held, "items"),
        Some(&obj(vec![("type", s("string")), ("format", s("uri"))]))
    );
}

#[test]
fn a_struct_field_called_description_is_a_field_and_not_an_annotation() {
    let held = expected(
        Some(&obj(vec![
            ("type", s("object")),
            ("properties", obj(vec![("description", obj(vec![("type", s("string"))]))])),
        ])),
        false,
        true,
    );
    assert_eq!(
        dig(&held, "properties.description"),
        Some(&obj(vec![("type", s("string"))]))
    );
}

#[test]
fn the_generated_block_holds_its_keywords_in_key_order() {
    let held = expected(
        Some(&obj(vec![
            ("type", s("integer")),
            ("minimum", n("0")),
            ("maximum", n("9")),
            ("title", s("dropped")),
        ])),
        false,
        false,
    );
    match held {
        Json::Object(fields) => {
            let names: Vec<&str> = fields.iter().map(|(name, _)| name.as_str()).collect();
            assert_eq!(names, ["maximum", "minimum", "type"]);
        }
        other => panic!("{other:?}"),
    }
}

#[test]
fn a_constraint_describes_only_with_a_type_an_enum_or_a_const() {
    assert!(describing(Some(&obj(vec![("const", n("1"))]))));
    assert!(!describing(Some(&obj(vec![("minimum", n("1"))]))));
    assert!(!describing(None));
    assert!(describes_element(Some(&obj(vec![(
        "additionalProperties",
        obj(vec![("type", s("string"))])
    )]))));
    assert!(!describes_element(Some(&obj(vec![("additionalProperties", Json::Bool(true))]))));
    assert!(!describes_element(Some(&obj(vec![("items", obj(vec![]))]))));
}

#[test]
fn an_override_must_name_a_position_the_contract_describes() {
    let generated = obj(vec![
        ("type", s("array")),
        ("items", obj(vec![("properties", obj(vec![("id", obj(vec![("type", s("integer"))]))]))])),
    ]);
    let present = obj(vec![
        ("type", s("array")),
        ("items", obj(vec![("properties", obj(vec![("id", obj(vec![("type", s("string"))]))]))])),
    ]);
    let kept = divergence("items.properties.id", Departure::Override);
    let (result, _added, problems) = apply_divergences(&generated, &present, &vec![&kept]);
    assert!(problems.is_empty(), "{problems:?}");
    assert_eq!(
        dig(&result, "items.properties.id"),
        Some(&obj(vec![("type", s("string"))]))
    );

    let wrong = divergence("items.properties.id", Departure::Narrowing);
    let (_, _added, problems) = apply_divergences(&generated, &present, &vec![&wrong]);
    assert!(problems[0].contains("the contract now describes itself"), "{problems:?}");
}

#[test]
fn a_narrowing_must_name_a_position_the_contract_does_not_describe() {
    let generated = obj(vec![
        ("type", s("object")),
        ("properties", obj(vec![("a", obj(vec![("type", s("number"))]))])),
    ]);
    let present = obj(vec![
        ("type", s("object")),
        (
            "properties",
            obj(vec![("a", obj(vec![("type", s("number"))])), ("b", obj(vec![("type", s("string"))]))]),
        ),
    ]);
    let kept = divergence("properties.b", Departure::Narrowing);
    let (result, _added, problems) = apply_divergences(&generated, &present, &vec![&kept]);
    assert!(problems.is_empty(), "{problems:?}");
    assert_eq!(dig(&result, "properties.b"), Some(&obj(vec![("type", s("string"))])));

    let wrong = divergence("properties.a", Departure::Narrowing);
    let (_, _added, problems) = apply_divergences(&generated, &present, &vec![&wrong]);
    assert!(problems[0].contains("now describes itself"), "{problems:?}");
}

#[test]
fn a_departure_naming_nothing_in_the_block_has_nothing_to_keep() {
    let kept = divergence("properties.nope", Departure::Narrowing);
    let (_, _added, problems) = apply_divergences(&obj(vec![]), &obj(vec![]), &vec![&kept]);
    assert!(problems[0].contains("nothing to keep"), "{problems:?}");
    assert_eq!(
        problems[0],
        "x/values.yaml:1: keeps 'properties.nope' of 'a', which the block below does not declare — there is nothing to keep"
    );
}

#[test]
fn an_override_of_nothing_and_a_narrowing_with_nowhere_to_go_are_refused() {
    let present = obj(vec![("properties", obj(vec![("b", obj(vec![]))])), ("minimum", n("1"))]);
    let over = divergence("minimum", Departure::Override);
    let (_, _, problems) = apply_divergences(&obj(vec![]), &present, &vec![&over]);
    assert!(problems[0].contains("or the sub-path is a typo"), "{problems:?}");
    assert!(problems[0].contains("`@config-shape-narrow`"), "{problems:?}");
    let nowhere = divergence("properties.b", Departure::Narrowing);
    let (_, _, problems) = apply_divergences(&obj(vec![]), &present, &vec![&nowhere]);
    assert!(problems[0].contains("so there is nowhere to put it"), "{problems:?}");
}

#[test]
fn a_narrowing_that_reintroduces_an_enum_beside_a_type_settles_on_the_enum() {
    let generated = obj(vec![("type", s("string"))]);
    let present = obj(vec![("type", s("string")), ("enum", arr(vec![s("debug"), s("info")]))]);
    let kept = divergence("enum", Departure::Narrowing);
    let (result, _added, problems) = apply_divergences(&generated, &present, &vec![&kept]);
    assert!(problems.is_empty(), "{problems:?}");
    assert_eq!(result, obj(vec![("enum", arr(vec![s("debug"), s("info")]))]));
}

#[test]
fn the_rendering_is_block_form_and_keeps_the_canonical_order() {
    let rendered = render(
        &obj(vec![("minimum", n("1")), ("type", s("integer")), ("maximum", n("9"))]),
        2,
        &Added::default(),
    );
    assert_eq!(rendered, ["  # type: integer", "  # minimum: 1", "  # maximum: 9"]);
}

#[test]
fn the_null_type_is_quoted_and_a_null_enum_member_is_not() {
    assert_eq!(
        render(&obj(vec![("type", arr(vec![s("string"), s("null")]))]), 0, &Added::default()),
        ["# type: [string, 'null']"]
    );
    assert_eq!(
        render(&obj(vec![("enum", arr(vec![s("a"), Json::Null]))]), 0, &Added::default()),
        ["# enum: [\"a\", null]"]
    );
}

#[test]
fn a_field_yaml_would_read_as_a_boolean_is_quoted() {
    let rendered = render(
        &obj(vec![("type", s("object")), ("properties", obj(vec![("on", obj(vec![("type", s("string"))]))]))]),
        0,
        &Added::default(),
    );
    assert!(rendered.iter().any(|line| line.contains("\"on\":")), "{rendered:?}");
}

#[test]
fn a_struct_field_named_like_a_keyword_is_still_a_field() {
    let rendered = render(
        &obj(vec![
            ("type", s("object")),
            ("properties", obj(vec![("items", obj(vec![("type", s("string"))]))])),
        ]),
        0,
        &Added::default(),
    );
    assert_eq!(
        rendered,
        ["# type: object", "# properties:", "#   items:", "#     type: string"]
    );
}

#[test]
fn a_field_a_narrowing_added_is_written_after_the_published_ones() {
    let generated = obj(vec![
        ("type", s("object")),
        ("properties", obj(vec![("b", obj(vec![("type", s("number"))]))])),
    ]);
    let present = obj(vec![
        ("type", s("object")),
        (
            "properties",
            obj(vec![("a", obj(vec![("type", s("string"))])), ("b", obj(vec![("type", s("number"))]))]),
        ),
    ]);
    let kept = divergence("properties.a", Departure::Narrowing);
    let (result, added, problems) = apply_divergences(&generated, &present, &vec![&kept]);
    assert!(problems.is_empty(), "{problems:?}");
    assert_eq!(
        render(&result, 0, &added),
        [
            "# type: object",
            "# properties:",
            "#   b:",
            "#     type: number",
            "#   a:",
            "#     type: string",
        ]
    );
}

#[test]
fn a_list_of_mappings_is_written_item_by_item() {
    let rendered = render(
        &obj(vec![(
            "anyOf",
            arr(vec![obj(vec![("type", s("string")), ("minLength", n("1"))]), obj(vec![]), s("x")]),
        )]),
        0,
        &Added::default(),
    );
    assert_eq!(
        rendered,
        ["# anyOf:", "#   - type: string", "#     minLength: 1", "#   - \"x\""]
    );
    assert_eq!(
        render(&obj(vec![("additionalProperties", obj(vec![]))]), 0, &Added::default()),
        ["# additionalProperties: {}"]
    );
}

fn block(lines: &[&str]) -> terrace_helm::markers::Block {
    terrace_helm::markers::Block {
        chart: "x".to_owned(),
        values_path: "a".to_owned(),
        start: 1,
        end: 4,
        indent: 0,
        lines: lines.iter().map(|line| (*line).to_owned()).collect(),
    }
}

#[test]
fn a_block_is_read_as_its_comment_bodies() {
    assert_eq!(
        schema_body(&block(&["  # type: string", "#   minLength: 1"])),
        Ok(Some("type: string\n  minLength: 1".to_owned()))
    );
    assert_eq!(schema_body(&block(&["#", "#   "])), Ok(None));
    assert_eq!(
        schema_body(&block(&["# type: string", "type: x"])),
        Err(terrace_helm::Error::Invalid(
            "line 'type: x' inside an `@schema` block is not a comment".to_owned()
        ))
    );
    assert_eq!(schema_of(Json::Null), Ok(obj(vec![])));
    assert_eq!(schema_of(obj(vec![("type", s("string"))])), Ok(obj(vec![("type", s("string"))])));
    assert_eq!(
        schema_of(s("x")),
        Err(terrace_helm::Error::Invalid("an `@schema` block has to be a mapping".to_owned()))
    );
}
