use terrace_helm::bindings::{Bound, BoundDocument};
use terrace_helm::json::Json;
use terrace_helm::markers::{Class, Marker};
use terrace_helm::shapes::{resolve, Shape};

fn s(t: &str) -> Json {
    Json::Str(t.to_owned())
}

fn entry(name: &str, constraint: Json, form: &str, ty: &str) -> (String, Vec<(String, Json)>) {
    (
        name.to_owned(),
        vec![
            ("constraint".to_owned(), constraint),
            ("text_form".to_owned(), s(form)),
            ("ty".to_owned(), s(ty)),
        ],
    )
}

fn minimum(n: &str) -> Json {
    Json::Object(vec![("minimum".to_owned(), Json::Number(n.to_owned()))])
}

fn bound(worker: Json) -> Bound {
    Bound {
        chart: "c".to_owned(),
        documents: vec![
            BoundDocument {
                name: "api".to_owned(),
                keys: vec![entry("port", minimum("1"), "scalar", "u16")],
                env: vec![],
                releases: vec!["1.0.0".to_owned(), "1.1.0".to_owned()],
            },
            BoundDocument {
                name: "worker".to_owned(),
                keys: vec![entry("port", worker, "scalar", "u16")],
                env: vec![],
                releases: vec!["2.0.0".to_owned()],
            },
        ],
    }
}

fn shape() -> Shape {
    Shape {
        chart: "c".to_owned(),
        line: 3,
        values_path: "service.port".to_owned(),
        handwritten: false,
        version: None,
        source: None,
        declared: false,
    }
}

fn marker(target: &str, class: Class) -> Marker {
    Marker {
        chart: "c".to_owned(),
        values_path: "service.port".to_owned(),
        line: 2,
        class,
        documents: None,
        target: target.to_owned(),
        optional: true,
        condition: None,
    }
}

#[test]
fn a_value_resolves_against_every_document_that_carries_its_key() {
    let mut problems = Vec::new();
    let held = bound(minimum("1"));
    let resolved = resolve(Some(&held), &shape(), &vec![marker("port", Class::Projection)], &mut problems, true)
        .expect("it resolves");
    assert!(problems.is_empty());
    assert!(resolved.optional);
    assert!(!resolved.structured);
    assert_eq!(resolved.ty, "u16");
    let publishers: Vec<(&str, &str)> =
        resolved.publishers.iter().map(|p| (p.document.as_str(), p.version.as_str())).collect();
    assert_eq!(publishers, [("api", "1.0.0"), ("api", "1.1.0"), ("worker", "2.0.0")]);
    assert!(resolved.constraint.is_some());
}

#[test]
fn documents_that_describe_the_key_differently_are_refused() {
    let mut problems = Vec::new();
    let held = bound(minimum("2"));
    assert!(resolve(Some(&held), &shape(), &vec![marker("port", Class::Projection)], &mut problems, true).is_none());
    assert_eq!(
        problems,
        ["c/values.yaml:3: the documents this chart declares describe 'port' differently, so no one schema is derivable from them"]
    );
}

#[test]
fn a_value_with_no_deriving_marker_or_no_declaration_is_refused_only_when_asked() {
    let mut problems = Vec::new();
    assert!(resolve(None, &shape(), &vec![marker("port", Class::Composed)], &mut problems, false).is_none());
    assert!(problems.is_empty());
    assert!(resolve(None, &shape(), &vec![marker("port", Class::Projection)], &mut problems, true).is_none());
    assert_eq!(
        problems,
        ["c/values.yaml:3: 'service.port' binds 'port', and this chart has no config-contract.yaml naming the document that declares it"]
    );
    let held = bound(minimum("1"));
    assert!(resolve(Some(&held), &shape(), &vec![marker("nope", Class::Projection)], &mut problems, true).is_none());
    assert_eq!(
        problems[1],
        "c/values.yaml:3: 'service.port' binds 'nope', which no contract this chart declares carries — see the bindings gate"
    );
}
