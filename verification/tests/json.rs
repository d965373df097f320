use terrace_helm::declaration::resolve_image;
use terrace_helm::json::{dig, has_path, Json};
use terrace_helm::pull::reference_for;

fn obj(fields: Vec<(&str, Json)>) -> Json {
    let mut fields: Vec<(String, Json)> =
        fields.into_iter().map(|(name, value)| (name.to_owned(), value)).collect();
    fields.sort_by(|a, b| a.0.cmp(&b.0));
    Json::Object(fields)
}

fn text(s: &str) -> Json {
    Json::Str(s.to_owned())
}

#[test]
fn a_missing_step_is_an_ordinary_answer() {
    let values = obj(vec![("image", obj(vec![("repository", text("ghcr.io/x/y"))]))]);
    match dig(&values, "image.repository") {
        Some(Json::Str(found)) => assert_eq!(found, "ghcr.io/x/y"),
        other => panic!("{other:?}"),
    }
    assert!(dig(&values, "image.tag").is_none());
    assert!(dig(&values, "nothing.at.all").is_none());
}

#[test]
fn a_values_path_that_is_null_or_false_still_exists() {
    let values = obj(vec![(
        "bootstrap",
        obj(vec![("seedAdmin", obj(vec![("enabled", Json::Bool(false)), ("email", Json::Null)]))]),
    )]);
    assert!(has_path(&values, "bootstrap.seedAdmin.enabled"));
    assert!(has_path(&values, "bootstrap.seedAdmin.email"));
    assert!(!has_path(&values, "bootstrap.seedAdmin.missing"));
    assert!(!has_path(&values, "nothing"));
}

#[test]
fn a_digest_pinned_in_the_tag_is_taken_rather_than_resolved() {
    let image = obj(vec![("repository", text("demo/api")), ("tag", text("v1@sha256:aa"))]);
    let (repository, reference, digest) =
        reference_for(&image, None).expect("the block names a repository");
    assert_eq!(repository, "docker.io/demo/api");
    assert_eq!(reference, "docker.io/demo/api:v1@sha256:aa");
    assert_eq!(digest.as_deref(), Some("sha256:aa"));
}

#[test]
fn a_block_with_no_tag_falls_back_to_the_charts_app_version() {
    let image = obj(vec![("repository", text("demo/api"))]);
    let (_, reference, digest) = reference_for(&image, Some("v2")).expect("it reads");
    assert_eq!(reference, "docker.io/demo/api:v2");
    assert!(digest.is_none(), "nothing pinned it");
    let refused = reference_for(&obj(vec![]), None).expect_err("no repository");
    assert_eq!(refused.message(), "image block has no `repository`");
}

#[test]
fn an_image_reference_falls_back_to_the_charts_app_version() {
    let values = obj(vec![("image", obj(vec![("repository", text("ghcr.io/x/y"))]))]);
    let pinned = resolve_image(&values, "image", Some("v1.2.3@sha256:ab")).expect("the path resolves");
    assert_eq!(pinned.reference, "ghcr.io/x/y:v1.2.3@sha256:ab");
    assert_eq!(pinned.normalized, "docker.io/ghcr.io/x/y");
    assert_eq!(pinned.digest.as_deref(), Some("sha256:ab"));
}

#[test]
fn a_values_path_that_pins_nothing_is_refused_by_name() {
    let error = resolve_image(&obj(vec![]), "image", None).expect_err("nothing resolves");
    assert!(error.message().contains("'image'"), "{}", error.message());
}

#[test]
fn a_registry_is_written_before_the_repository() {
    let values = obj(vec![(
        "api",
        obj(vec![
            ("registry", text("ghcr.io")),
            ("repository", text("demo/api")),
            ("tag", text("1.0")),
        ]),
    )]);
    let pinned = resolve_image(&values, "api", Some("ignored")).expect("it resolves");
    assert_eq!(pinned.reference, "ghcr.io/demo/api:1.0");
    assert_eq!(pinned.normalized, "ghcr.io/demo/api");
    assert!(pinned.digest.is_none());
}
