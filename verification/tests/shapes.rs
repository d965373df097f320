use terrace_helm::shapes::{covers, ordinal, parse_markers};

#[test]
fn a_release_is_ordered_numerically_rather_than_as_text() {
    assert!(ordinal("8.10.0") > ordinal("8.9.1"));
    assert!(covers("v8.9.1", "8.9.1"));
    assert!(covers("8.9.1", "8.9.0"));
    assert!(!covers("8.9.0", "8.9.1"));
    // A tag that is not a release is held to equality, which errs towards asking for a re-read.
    assert!(!covers("nightly", "8.9.1"));
    assert!(covers("nightly", "nightly"));
}

#[test]
fn the_retired_enrolment_marker_is_refused_by_name() {
    let error = parse_markers("# @config-shape a.b generated\n", "x")
        .expect_err("the obsolete spelling is refused");
    assert!(error.message().contains("is obsolete"), "{}", error.message());
}

#[test]
fn a_transcription_names_the_release_and_the_source() {
    let (shapes, _) = parse_markers("# @config-shape a.b handwritten 8.9.1 src/config.rs\n", "x")
        .expect("the marker reads");
    assert_eq!(shapes.len(), 1);
    assert_eq!(shapes[0].values_path, "a.b");
    assert!(shapes[0].handwritten);
    assert_eq!(shapes[0].version.as_deref(), Some("8.9.1"));
    assert_eq!(shapes[0].source.as_deref(), Some("src/config.rs"));

    assert!(parse_markers("# @config-shape a.b handwritten 8.9.1\n", "x")
        .expect_err("a transcription names both")
        .message()
        .contains("takes the release"));
}

#[test]
fn a_departure_without_a_reason_is_refused() {
    let error = parse_markers("# @config-shape-except a.b items.id\n", "x")
        .expect_err("a departure carries a reason");
    assert!(error.message().contains("nobody can review"), "{}", error.message());
}

#[test]
fn a_marker_named_in_prose_is_not_a_declaration() {
    let (shapes, divergences) = parse_markers(
        "# -- see @config-shape a.b handwritten 1 x for the escape hatch\n",
        "x",
    )
    .expect("prose reads");
    assert!(shapes.is_empty() && divergences.is_empty());
}

#[test]
fn a_release_covers_itself_whatever_its_prefix() {
    assert!(covers("8.9.1", "v8.9.1"));
    assert!(covers("10.0", "9.99.99"));
    assert!(!covers("1.2", "1.10"));
}
