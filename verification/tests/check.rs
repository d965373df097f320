use terrace_helm::check::{pinned_images, selector_text};
use terrace_helm::coverage::{check_unconfigured, first_party_patterns};
use terrace_helm::declaration::{Consumer, Declaration, Document, Format, Source};
use terrace_helm::json::Json;
use terrace_helm::report::Report;

fn s(text: &str) -> Json {
    Json::Str(text.to_owned())
}

/// An object with its fields in key order, as a parsed document holds them.
fn obj(fields: Vec<(&str, Json)>) -> Json {
    let mut held: Vec<(String, Json)> =
        fields.into_iter().map(|(name, value)| (name.to_owned(), value)).collect();
    held.sort_by(|a, b| a.0.cmp(&b.0));
    Json::Object(held)
}

fn declaration(unconfigured: &[&str]) -> Declaration {
    Declaration {
        chart: "x".to_owned(),
        path: "x".to_owned(),
        documents: Vec::new(),
        reason: None,
        unconfigured: unconfigured.iter().map(|held| (*held).to_owned()).collect(),
        bindings: false,
        unbound: Vec::new(),
        credentials: Vec::new(),
    }
}

#[test]
fn an_image_block_is_found_by_its_shape_rather_than_by_a_list_of_paths() {
    let values = obj(vec![
        ("image", obj(vec![("repository", s("ghcr.io/x/y"))])),
        (
            "services",
            obj(vec![("api", obj(vec![("image", obj(vec![("repository", s("ghcr.io/x/api"))]))]))]),
        ),
        ("nothing", obj(vec![("here", Json::Bool(true))])),
    ]);
    let mut found = pinned_images(&values);
    found.sort();
    assert_eq!(
        found,
        vec![
            ("image".to_owned(), "ghcr.io/x/y".to_owned()),
            ("services.api.image".to_owned(), "ghcr.io/x/api".to_owned()),
        ]
    );
}

#[test]
fn an_image_block_inside_a_list_is_named_by_its_index() {
    let values = obj(vec![(
        "sidecars",
        Json::Array(vec![
            obj(vec![("name", s("a"))]),
            obj(vec![("repository", s("ghcr.io/x/side")), ("tag", s(""))]),
        ]),
    )]);
    assert_eq!(
        pinned_images(&values),
        vec![("sidecars[1]".to_owned(), "ghcr.io/x/side".to_owned())]
    );
    assert!(pinned_images(&obj(vec![("repository", s(""))])).is_empty());
}

#[test]
fn a_selector_is_shown_in_the_order_it_was_written() {
    let selector = vec![("b".to_owned(), "2".to_owned()), ("a".to_owned(), "1".to_owned())];
    assert_eq!(selector_text(&selector), r#"{"b": "2", "a": "1"}"#);
}

#[test]
fn unconfigured_holds_a_values_path_and_a_repository_name_is_refused() {
    let values = obj(vec![("image", obj(vec![("repository", s("ghcr.io/x/y"))]))]);
    let mut report = Report::new();
    check_unconfigured("x", &declaration(&["image"]), &values, &mut report);
    assert_eq!(report.findings.len(), 0);

    let mut report = Report::new();
    check_unconfigured("x", &declaration(&["ghcr.io/x/y"]), &values, &mut report);
    assert_eq!(report.findings.len(), 1);
    assert!(
        report.findings[0].message.contains("this chart pins images at image"),
        "{:?}",
        report.findings[0]
    );
    assert!(report.findings[0].failing);
    assert_eq!(report.findings[0].at, "x: config-contract.yaml");
}

#[test]
fn unconfigured_in_a_chart_that_pins_nothing_says_so_by_saying_no_more() {
    let mut report = Report::new();
    check_unconfigured("x", &declaration(&["image"]), &obj(Vec::new()), &mut report);
    assert_eq!(
        report.findings[0].message,
        "`unconfigured` names 'image', which is not a values path this chart pins an image at. \
         The field holds values paths — the same spelling a document's `images[].values` uses — \
         and not repository names"
    );
}

#[test]
fn the_first_party_list_skips_blank_lines_and_comments() {
    let patterns = first_party_patterns(Some("# ours\n  ghcr.io/acme/*  \n\nquay.io/acme/api\r\n"), "list")
        .expect("the list reads");
    assert_eq!(patterns, ["ghcr.io/acme/*", "quay.io/acme/api"]);
    let missing = first_party_patterns(None, "list").expect_err("a missing list is refused");
    assert_eq!(missing.message(), "list: missing; coverage cannot be decided without it");
}

fn consumed_by(containers: &[&str]) -> Document {
    Document {
        name: "app".to_owned(),
        source: Source {
            kind: "ConfigMap".to_owned(),
            selector: vec![("app".to_owned(), "x".to_owned())],
            key: "config.toml".to_owned(),
            format: Format::Toml,
        },
        images: vec![],
        consumers: vec![Consumer {
            kind: "Deployment".to_owned(),
            selector: vec![("app".to_owned(), "x".to_owned())],
            containers: containers.iter().map(|c| (*c).to_owned()).collect(),
        }],
        exempt: vec![],
        restart: vec![],
    }
}

#[test]
fn a_document_no_values_file_produces_is_refused_once() {
    let document = consumed_by(&["web"]);
    let mut report = Report::new();
    let rendered = vec![(false, vec![]), (false, vec![])];
    terrace_helm::check::check_rendered("x: app", &document, &rendered, &mut report);
    assert_eq!(report.findings.len(), 1);
    assert!(report.findings[0].failing);
    assert_eq!(report.findings[0].at, "x: app");
    assert_eq!(
        report.findings[0].message,
        format!(
            "the selector {} matches no ConfigMap in any of the 2 rendered values files, so this document is declared but never produced; correct the selector, or drop the document if the component is gone",
            selector_text(&document.source.selector)
        )
    );
}

#[test]
fn a_consumer_no_values_file_shows_is_refused_once_in_name_order() {
    let document = consumed_by(&["web", "migrate", "web", "init"]);
    let mut report = Report::new();
    let rendered = vec![(false, vec![]), (true, vec!["init".to_owned()])];
    terrace_helm::check::check_rendered("x: app", &document, &rendered, &mut report);
    let messages: Vec<&str> = report.findings.iter().map(|f| f.message.as_str()).collect();
    assert_eq!(
        messages,
        vec![
            "the container 'migrate' is declared as a consumer of this document but appears in none of the 2 rendered values files; correct the name, or drop it if the workload is gone",
            "the container 'web' is declared as a consumer of this document but appears in none of the 2 rendered values files; correct the name, or drop it if the workload is gone",
        ]
    );
}

#[test]
fn nothing_rendered_checks_nothing() {
    let document = consumed_by(&["web"]);
    let mut report = Report::new();
    terrace_helm::check::check_rendered("x: app", &document, &vec![], &mut report);
    assert!(report.findings.is_empty());
}
