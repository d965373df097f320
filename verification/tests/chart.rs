use terrace_helm::bindings::{Bound, BoundDocument};
use terrace_helm::json::Json;
use terrace_helm::markers::{Block, Class, Marker};
use terrace_helm::shapes::{check, rewrite, superseded, Chart, Publisher, Resolved, Shape};

fn s(t: &str) -> Json {
    Json::Str(t.to_owned())
}

fn integer_at_least_one() -> Json {
    Json::Object(vec![("minimum".to_owned(), Json::Number("1".to_owned())), ("type".to_owned(), s("integer"))])
}

fn bound() -> Bound {
    Bound {
        chart: "c".to_owned(),
        documents: vec![BoundDocument {
            name: "api".to_owned(),
            keys: vec![(
                "port".to_owned(),
                vec![
                    ("constraint".to_owned(), integer_at_least_one()),
                    ("text_form".to_owned(), s("scalar")),
                    ("ty".to_owned(), s("u16")),
                ],
            )],
            env: vec![],
            releases: vec!["1.0.0".to_owned()],
        }],
    }
}

fn generated_shape() -> Shape {
    Shape {
        chart: "c".to_owned(),
        line: 2,
        values_path: "service.port".to_owned(),
        handwritten: false,
        version: None,
        source: None,
        declared: false,
    }
}

/// A chart whose one generated block holds `schema` between its delimiters.
fn chart_holding(schema: &[String]) -> Chart {
    let mut text = String::from("service:\n  # @schema\n");
    for line in schema {
        text.push_str(line);
        text.push('\n');
    }
    text.push_str("  # @schema\n  port: 8080\n");
    let block = Block {
        chart: "c".to_owned(),
        values_path: "service.port".to_owned(),
        start: 2,
        end: 3 + schema.len(),
        indent: 2,
        lines: schema.to_vec(),
    };
    Chart {
        name: "c".to_owned(),
        text,
        problems: vec![],
        transcribed: vec![],
        divergences: vec![],
        blocks: vec![("service.port".to_owned(), block)],
        schemas: vec![("service.port".to_owned(), Ok(Json::Object(vec![("type".to_owned(), s("integer"))])))],
        markers: vec![(
            "service.port".to_owned(),
            vec![Marker {
                chart: "c".to_owned(),
                values_path: "service.port".to_owned(),
                line: 3,
                class: Class::Projection,
                documents: None,
                target: "port".to_owned(),
                optional: false,
                condition: None,
            }],
        )],
        bound: Some(bound()),
        app_version: "1.0.0".to_owned(),
        shapes: vec![generated_shape()],
    }
}

fn wanted() -> Vec<String> {
    let mut probe = chart_holding(&["  # type: string".to_owned()]);
    probe.target(&generated_shape()).expect("the contract describes the key")
}

#[test]
fn a_block_that_is_its_contract_passes_the_check() {
    let target = wanted();
    assert!(target.iter().any(|line| line.contains("minimum: 1")));
    assert!(target.iter().all(|line| line.starts_with("  #")));
    let mut chart = chart_holding(&target);
    check(&mut chart);
    assert!(chart.problems.is_empty(), "{:?}", chart.problems);
}

#[test]
fn a_block_that_drifted_is_reported_with_both_sides() {
    let mut chart = chart_holding(&["  # type: string".to_owned()]);
    check(&mut chart);
    assert_eq!(chart.problems.len(), 1);
    let problem = &chart.problems[0];
    assert!(problem.starts_with("c/values.yaml:2: the `@schema` block for 'service.port' is not what its contract describes; regenerate it\n--- values.yaml\n  # type: string\n--- the contract\n"), "{problem}");
}

#[test]
fn a_rewrite_puts_the_contract_in_place_of_a_drifted_block() {
    let target = wanted();
    let mut chart = chart_holding(&["  # type: string".to_owned()]);
    let (text, written) = rewrite(&mut chart);
    assert_eq!(written, 1);
    assert!(chart.problems.is_empty());
    assert_eq!(text, chart_holding(&target).text);
}

#[test]
fn a_rewrite_of_a_current_block_changes_nothing() {
    let target = wanted();
    let mut chart = chart_holding(&target);
    let before = chart.text.clone();
    let (text, written) = rewrite(&mut chart);
    assert_eq!(written, 0);
    assert_eq!(text, before);
}

#[test]
fn a_rewrite_keeps_a_crlf_file_crlf() {
    let mut chart = chart_holding(&["  # type: string".to_owned()]);
    chart.text = chart.text.replace('\n', "\r\n");
    let (text, written) = rewrite(&mut chart);
    assert_eq!(written, 1);
    assert!(!text.replace("\r\n", "").contains('\n'));
}

#[test]
fn a_value_with_no_block_is_named() {
    let mut chart = chart_holding(&[]);
    chart.blocks.clear();
    assert!(chart.target(&generated_shape()).is_none());
    assert_eq!(
        chart.problems,
        vec!["c/values.yaml:2: names 'service.port', which has no `@schema` block for this marker to describe".to_owned()]
    );
}

#[test]
fn a_marker_away_from_its_block_is_refused() {
    let mut chart = chart_holding(&["  # type: string".to_owned()]);
    let mut declared = generated_shape();
    declared.declared = true;
    declared.line = 5;
    assert!(chart.block_for(&declared).is_none());
    assert_eq!(
        chart.problems,
        vec!["c/values.yaml:5: sits away from the `@schema` block for 'service.port' on line 2. A marker is read next to the thing it describes or it is not read at all; write it in the comment run directly above the block".to_owned()]
    );
}

#[test]
fn a_marker_in_the_comment_run_above_its_block_is_read() {
    let mut chart = chart_holding(&["  # type: string".to_owned()]);
    chart.text = String::from(
        "service:\n  # @config-shape service.port handwritten 1.0.0 src/lib.rs\n\n  # a note\n  # @schema\n  # type: string\n  # @schema\n  port: 8080\n",
    );
    let mut declared = generated_shape();
    declared.declared = true;
    declared.line = 2;
    if let Some(entry) = chart.blocks.first_mut() {
        entry.1.start = 5;
        entry.1.end = 7;
    }
    assert!(chart.block_for(&declared).is_some());
    assert!(chart.problems.is_empty());
    chart.text = chart.text.replacen("  # a note", "  other: 1", 1);
    assert!(chart.block_for(&declared).is_none());
    assert_eq!(chart.problems.len(), 1);
}

#[test]
fn a_key_no_contract_describes_is_refused_with_the_marker_to_write() {
    let mut chart = chart_holding(&["  # type: string".to_owned()]);
    if let Some(held) = chart.bound.as_mut() {
        held.documents[0].keys[0].1[0].1 = Json::Object(vec![("description".to_owned(), s("a port"))]);
    }
    assert!(chart.target(&generated_shape()).is_none());
    assert_eq!(
        chart.problems,
        vec!["c/values.yaml:2: the contract publishes no constraint for 'service.port', so a generated block would accept every JSON type and check nothing. Transcribe it and declare `@config-shape service.port handwritten 1.0.0 u16`, which is held against the version it was read at".to_owned()]
    );
}

#[test]
fn a_block_that_is_not_a_mapping_is_named() {
    let mut chart = chart_holding(&["  # type: string".to_owned()]);
    chart.schemas[0].1 = Err("an `@schema` block has to be a mapping".to_owned());
    assert!(chart.target(&generated_shape()).is_none());
    assert_eq!(chart.problems, vec!["c/values.yaml:2: an `@schema` block has to be a mapping".to_owned()]);
}

fn resolved(structured: bool, constraint: Option<Json>, releases: &[&str]) -> Resolved {
    Resolved {
        constraint,
        optional: false,
        structured,
        ty: String::new(),
        publishers: releases
            .iter()
            .map(|release| Publisher { document: "api".to_owned(), version: (*release).to_owned() })
            .collect(),
    }
}

#[test]
fn the_newest_release_is_ordered_numerically() {
    assert_eq!(resolved(false, None, &["1.9.0", "1.10.0", "1.10"]).newest(), "1.10.0");
    assert_eq!(resolved(false, None, &["2.0.0", "v2.0.0"]).newest(), "v2.0.0");
    assert_eq!(resolved(false, None, &[]).newest(), "");
}

#[test]
fn a_transcription_is_superseded_once_the_contract_describes_it() {
    assert!(superseded(&resolved(false, Some(integer_at_least_one()), &[])));
    assert!(!superseded(&resolved(false, None, &[])));
    let list = Json::Object(vec![("type".to_owned(), s("array"))]);
    assert!(!superseded(&resolved(true, Some(list), &[])));
    let described = Json::Object(vec![("items".to_owned(), integer_at_least_one()), ("type".to_owned(), s("array"))]);
    assert!(superseded(&resolved(true, Some(described), &[])));
}

/// A chart whose one block is a hand transcription read at `read_at`, declared directly above it.
fn transcribed_chart(read_at: &str, app_version: &str, constraint: Json) -> (Chart, Shape) {
    let mut chart = chart_holding(&["  # type: string".to_owned()]);
    chart.text = String::from(
        "service:\n  # @config-shape service.port handwritten 1.0.0 src/lib.rs\n  # @schema\n  # type: string\n  # @schema\n  port: 8080\n",
    );
    if let Some(entry) = chart.blocks.first_mut() {
        entry.1.start = 3;
        entry.1.end = 5;
    }
    if let Some(held) = chart.bound.as_mut() {
        held.documents[0].keys[0].1[0].1 = constraint;
        held.documents[0].releases = vec!["2.0.0".to_owned()];
    }
    chart.app_version = app_version.to_owned();
    let shape = Shape {
        chart: "c".to_owned(),
        line: 2,
        values_path: "service.port".to_owned(),
        handwritten: true,
        version: Some(read_at.to_owned()),
        source: Some("src/lib.rs".to_owned()),
        declared: true,
    };
    (chart, shape)
}

fn undescribed() -> Json {
    Json::Object(vec![("description".to_owned(), s("a port"))])
}

#[test]
fn a_transcription_behind_its_publisher_names_the_publisher() {
    let (mut chart, shape) = transcribed_chart("1.0.0", "1.0.0", undescribed());
    chart.check_handwritten(&shape);
    assert_eq!(
        chart.problems,
        vec!["c/values.yaml:2: 'service.port' was transcribed at 1.0.0, and api now publishes it at 2.0.0\n    re-read src/lib.rs at 2.0.0, bring the `@schema` block for 'service.port' up to it, and move the marker".to_owned()]
    );
}

#[test]
fn a_transcription_at_its_publisher_release_passes() {
    let (mut chart, shape) = transcribed_chart("2.0.0", "1.0.0", undescribed());
    chart.check_handwritten(&shape);
    assert!(chart.problems.is_empty(), "{:?}", chart.problems);
}

#[test]
fn a_transcription_the_contract_now_describes_is_retired() {
    let (mut chart, shape) = transcribed_chart("2.0.0", "1.0.0", integer_at_least_one());
    chart.check_handwritten(&shape);
    assert_eq!(
        chart.problems,
        vec!["c/values.yaml:2: 'service.port' was transcribed by hand, and the contract now describes it itself. Delete the marker and regenerate; declare any position the chart keeps with `@config-shape-except` or `@config-shape-narrow`".to_owned()]
    );
}

#[test]
fn an_unbound_transcription_is_held_against_the_chart_release() {
    let (mut chart, shape) = transcribed_chart("0.9.0", "1.0.0", undescribed());
    chart.markers.clear();
    chart.check_handwritten(&shape);
    assert_eq!(
        chart.problems,
        vec!["c/values.yaml:2: 'service.port' was transcribed at 0.9.0, and the chart now pins appVersion 1.0.0\n    re-read src/lib.rs at 1.0.0, bring the `@schema` block for 'service.port' up to it, and move the marker".to_owned()]
    );
    let (mut current, shape) = transcribed_chart("v1.0.0", "1.0.0", undescribed());
    current.markers.clear();
    current.check_handwritten(&shape);
    assert!(current.problems.is_empty(), "{:?}", current.problems);
}

#[test]
fn a_transcription_with_nothing_to_hold_it_against_is_refused() {
    let (mut chart, shape) = transcribed_chart("1.0.0", "", undescribed());
    chart.markers.clear();
    chart.check_handwritten(&shape);
    assert_eq!(
        chart.problems,
        vec!["c/values.yaml:2: declares a shape for 'service.port', but no contract records the release the key was published at and the chart has no appVersion either, so there is nothing to hold the transcription against".to_owned()]
    );
}

fn departure(values_path: &str) -> terrace_helm::shapes::Divergence {
    terrace_helm::shapes::Divergence {
        chart: "c".to_owned(),
        line: 9,
        values_path: values_path.to_owned(),
        sub_path: "items".to_owned(),
        reason: "kept".to_owned(),
        kind: terrace_helm::shapes::Departure::Override,
    }
}

#[test]
fn what_the_markers_alone_decide_is_refused_before_any_contract() {
    let mut chart = chart_holding(&["  # type: string".to_owned()]);
    let (_, first) = transcribed_chart("1.0.0", "1.0.0", undescribed());
    let mut second = first.clone();
    second.line = 7;
    let mut other = first.clone();
    other.values_path = "other".to_owned();
    chart.transcribed = vec![first.clone(), other, second];
    chart.divergences = vec![departure("service.port"), departure("other"), departure("nowhere")];
    chart.check_markers();
    assert_eq!(
        chart.problems,
        vec![
            "c/values.yaml:7: 'service.port' already declares a shape on line 2. One value has one block, so the second marker is either a duplicate or the migration of the first left half-done".to_owned(),
            "c/values.yaml:9: departs from the generated shape of 'other', whose block is `handwritten` and so is not generated at all. A departure from a hand-written block is just the block".to_owned(),
            "c/values.yaml:9: departs from the generated shape of 'nowhere', which carries no `@config` marker naming a contract key, so nothing is generated there to depart from".to_owned(),
        ]
    );
}
