use terrace_helm::markers::{read, Class, Marker};

fn markers(text: &str) -> Vec<Marker> {
    read(text, "x").expect("the markers read").0
}

fn failure(text: &str) -> String {
    read(text, "x").expect_err("the markers do not read").message()
}

#[test]
fn a_marker_binds_the_value_its_block_belongs_to() {
    let found = markers(
        "telemetry:\n  # @schema\n  # # @config projection telemetry.sentry_dsn optional\n  \
         # type: string\n  # @schema\n  # -- Sentry DSN.\n  sentryDsn: \"\"\n",
    );
    assert_eq!(found.len(), 1, "{found:?}");
    assert_eq!(found[0].values_path, "telemetry.sentryDsn");
    assert_eq!(found[0].target, "telemetry.sentry_dsn");
    assert_eq!(found[0].class, Class::Projection);
    assert!(found[0].optional);
    assert_eq!(found[0].line, 3);
}

#[test]
fn the_values_path_comes_from_the_structure_rather_than_from_indentation() {
    let found = markers(
        "csp:\n  cloudflare:\n    # @schema\n    # # @config projection csp.cf.nonce\n    \
         # type: string\n    # @schema\n    scriptNonce: \"\"\n",
    );
    assert_eq!(found[0].values_path, "csp.cloudflare.scriptNonce");
}

#[test]
fn a_mapping_key_inside_a_block_scalar_is_not_a_value() {
    let found = markers(
        "literal: |\n  not: a mapping\n  port: 1\n# @schema\n# # @config projection a.b\n\
         # type: string\n# @schema\nafter: \"\"\n",
    );
    assert_eq!(found.len(), 1, "{found:?}");
    assert_eq!(found[0].values_path, "after");
}

#[test]
fn a_scope_narrows_the_binding_and_may_not_name_a_document_twice() {
    let found = markers(
        "# @schema\n# # @config projection api,worker:server.port\n# type: integer\n\
         # @schema\nport: 1\n",
    );
    assert_eq!(
        found[0].documents.as_deref(),
        Some(["api".to_owned(), "worker".to_owned()].as_slice())
    );
    assert_eq!(found[0].target, "server.port");

    assert!(failure(
        "# @schema\n# # @config projection api,api:server.port\n# type: integer\n\
         # @schema\nport: 1\n"
    )
    .contains("names a document twice"));
}

#[test]
fn a_condition_names_the_gate_the_value_is_behind() {
    let found = markers(
        "# @schema\n# # @config projection seed.email when bootstrap.seedAdmin.enabled\n\
         # type: string\n# @schema\nemail: \"\"\n",
    );
    assert_eq!(
        found[0].condition.as_deref(),
        Some("bootstrap.seedAdmin.enabled")
    );
}

#[test]
fn the_two_modifiers_have_one_order() {
    assert!(failure(
        "# @schema\n# # @config projection a.b when c optional\n# type: string\n# @schema\n\
         a: \"\"\n"
    )
    .contains("in that order"));
}

#[test]
fn an_unreadable_marker_fails_rather_than_binding_nothing_quietly() {
    assert!(
        failure("# @schema\n# # @config\n# type: string\n# @schema\na: 1\n")
            .contains("names nothing")
    );
    assert!(
        failure("# @schema\n# # @config guess a.b\n# type: string\n# @schema\na: 1\n")
            .contains("unknown class 'guess'")
    );
    assert!(
        failure("# @schema\n# # @config projection\n# type: string\n# @schema\na: 1\n")
            .contains("names no target")
    );
}

#[test]
fn a_marker_below_the_schema_is_refused_by_name() {
    assert!(
        failure("# @schema\n# type: string\n# # @config projection a.b\n# @schema\na: \"\"\n")
            .contains("below the schema rather than above it")
    );
}

#[test]
fn a_marker_written_as_schema_content_is_refused_with_the_spelling_that_works() {
    assert!(
        failure("# @schema\n# @config projection a.b\n# type: string\n# @schema\na: \"\"\n")
            .contains("reserved indicator in YAML")
    );
}

#[test]
fn a_marker_on_its_own_comment_line_names_what_it_would_have_broken() {
    let message = failure("# @config projection a.b\n# -- The value.\na: \"\"\n");
    assert!(
        message.contains("outside the `@schema` delimiters"),
        "{message}"
    );
    assert!(message.contains("leading newline"), "{message}");
}

#[test]
fn a_marker_as_a_trailing_comment_is_refused() {
    assert!(failure("a: \"\" # @config projection a.b").contains("the value's trailing comment"));
}

#[test]
fn a_blank_line_between_the_block_and_the_value_strands_the_marker() {
    assert!(failure(
        "# @schema\n# # @config projection a.b\n# type: string\n# @schema\n\na: \"\"\n"
    )
    .contains("binds nothing"));
}

#[test]
fn a_marker_whose_block_is_followed_by_a_sequence_item_binds_nothing() {
    assert!(failure(
        "items:\n  # @schema\n  # # @config projection a.b\n  # type: string\n  \
             # @schema\n  - one\n"
    )
    .contains("binds nothing"));
}

#[test]
fn one_binding_said_twice_is_one_of_the_two_being_out_of_date() {
    assert!(failure(
        "# @schema\n# # @config projection a.b\n# # @config projection a.b\n\
         # type: string\n# @schema\na: \"\"\n"
    )
    .contains("already binds"));
}

#[test]
fn two_different_bindings_on_one_value_are_ordinary() {
    let found = markers(
        "# @schema\n# # @config composed a.b\n# # @config composed a.c\n# type: string\n\
         # @schema\na: \"\"\n",
    );
    assert_eq!(found.len(), 2, "{found:?}");
}

#[test]
fn a_hash_inside_a_quoted_value_is_not_a_comment() {
    let found = markers(
        "# @schema\n# # @config projection a.b\n# type: string\n# @schema\ncolour: \"#fff\"\n",
    );
    assert_eq!(found[0].values_path, "colour");
}

#[test]
fn a_block_carries_its_delimiters_and_its_body() {
    let (_, blocks) = read(
        "# @schema\n# # @config projection a.b\n# type: string\n# @schema\na: \"\"\n",
        "x",
    )
    .expect("it reads");
    assert_eq!(blocks.len(), 1);
    assert_eq!((blocks[0].start, blocks[0].end), (1, 4));
    assert_eq!(blocks[0].values_path, "a");
    assert_eq!(blocks[0].lines.len(), 2);
}

#[test]
fn every_problem_is_collected_before_any_is_raised() {
    let message = failure(
        "# @schema\n# # @config guess a.b\n# @schema\na: 1\n\
         # @schema\n# # @config projection\n# @schema\nb: 2\n",
    );
    assert_eq!(message.lines().count(), 2, "{message}");
}

#[test]
fn a_class_is_spelled_and_read_back_the_same_way() {
    for class in [Class::Projection, Class::Structured, Class::Composed, Class::External] {
        assert_eq!(Class::parse(class.label()), Some(class));
    }
    assert_eq!(Class::parse("guess"), None);
    assert!(!Class::External.targets_a_key());
    assert!(Class::Composed.targets_a_key());
}

#[test]
fn a_marker_names_the_line_a_reader_has_to_edit() {
    let found = markers("# @schema\n# # @config projection a.b\n# @schema\na: \"\"\n");
    assert_eq!(found[0].at(), "x/values.yaml:2");
}

#[test]
fn text_that_is_not_yaml_is_refused_as_such() {
    assert!(failure("a: [1, 2\n").contains("is not valid YAML"));
}

#[test]
fn a_block_keeps_the_lines_between_its_delimiters_as_written() {
    let (_, blocks) = read(
        "# @schema\n# # @config projection a.b   \n\n# type: string\n# @schema\na: \"\"\n",
        "x",
    )
    .expect("it reads");
    assert_eq!((blocks[0].start, blocks[0].end), (1, 5));
    assert_eq!(blocks[0].lines, ["# # @config projection a.b   ", "", "# type: string"]);
    assert_eq!(blocks[0].lines.len(), blocks[0].end - blocks[0].start - 1);
    let (markers, schema) = terrace_helm::shapes::split_block(&blocks[0]);
    assert_eq!(markers, ["# # @config projection a.b"]);
    assert_eq!(schema, ["# type: string"]);
}
