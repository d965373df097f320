use terrace_helm::pull::{civil, normalized_image, now, Scratch};

#[test]
fn a_bare_docker_hub_name_is_qualified_before_it_reaches_a_client() {
    assert_eq!(normalized_image("", "demo/api"), "docker.io/demo/api");
    assert_eq!(normalized_image("ghcr.io", "demo/api"), "ghcr.io/demo/api");
}

#[test]
fn the_calendar_this_carries_agrees_with_a_known_instant() {
    assert_eq!(civil(0), "1970-01-01T00:00:00Z");
    assert_eq!(civil(951_782_400), "2000-02-29T00:00:00Z");
    assert_eq!(civil(1_767_225_599), "2025-12-31T23:59:59Z");
}

#[test]
fn the_moment_a_refresh_happened_is_spelled_the_way_a_vendored_file_records_it() {
    let held = now();
    assert_eq!(held.len(), 20, "{held}");
    assert!(held.ends_with('Z'), "{held}");
    assert!(
        regex::Regex::new(r"^\d{4}-\d{2}-\d{2}T\d{2}:\d{2}:\d{2}Z$")
            .expect("it compiles")
            .is_match(&held),
        "{held}"
    );
}

#[test]
fn a_day_boundary_and_the_end_of_a_leap_year_are_spelled_exactly() {
    assert_eq!(civil(86_399), "1970-01-01T23:59:59Z");
    assert_eq!(civil(86_400), "1970-01-02T00:00:00Z");
    assert_eq!(civil(1_483_228_799), "2016-12-31T23:59:59Z");
    assert_eq!(civil(4_102_444_800), "2100-01-01T00:00:00Z");
    assert_eq!(civil(4_107_542_400), "2100-03-01T00:00:00Z");
}

#[test]
fn a_scratch_copy_names_where_it_was_taken() {
    let scratch = Scratch("/tmp/copy".to_owned());
    assert_eq!(scratch.path(), "/tmp/copy");
}
