use terrace_helm::bindings::{resolve_documents, Bound, BoundDocument};
use terrace_helm::json::Json;
use terrace_helm::markers::{Class, Marker};
use terrace_helm::report::Report;

fn bound() -> Bound {
    let key = |name: &str| (name.to_owned(), vec![("text_form".to_owned(), Json::Str("scalar".to_owned()))]);
    Bound {
        chart: "c".to_owned(),
        documents: vec![
            BoundDocument { name: "api".to_owned(), keys: vec![key("db.url"), key("port")], env: vec![], releases: vec![] },
            BoundDocument { name: "worker".to_owned(), keys: vec![key("db.url")], env: vec![key("TOKEN")], releases: vec![] },
        ],
    }
}

fn marker(target: &str, class: Class, documents: Option<Vec<&str>>) -> Marker {
    Marker {
        chart: "c".to_owned(),
        values_path: "database.url".to_owned(),
        line: 7,
        class,
        documents: documents.map(|d| d.into_iter().map(str::to_owned).collect()),
        target: target.to_owned(),
        optional: false,
        condition: None,
    }
}

#[test]
fn an_unscoped_marker_binds_every_document_that_declares_its_target() {
    let mut report = Report::new();
    let found = resolve_documents(&bound(), &marker("db.url", Class::Projection, None), &mut report);
    assert_eq!(found, vec!["api".to_owned(), "worker".to_owned()]);
    assert!(report.findings.is_empty());
    let found = resolve_documents(&bound(), &marker("TOKEN", Class::External, None), &mut report);
    assert_eq!(found, vec!["worker".to_owned()]);
    assert!(report.findings.is_empty());
}

#[test]
fn a_scope_naming_an_undeclared_document_is_refused() {
    let mut report = Report::new();
    let found = resolve_documents(&bound(), &marker("db.url", Class::Projection, Some(vec!["gone"])), &mut report);
    assert!(found.is_empty());
    assert_eq!(report.findings.len(), 1);
    assert_eq!(report.findings[0].at, "c/values.yaml:7");
    assert_eq!(
        report.findings[0].message,
        "is scoped to 'gone', which this chart does not declare (declared: api, worker)"
    );
}

#[test]
fn a_scope_naming_a_document_without_the_key_is_refused() {
    let mut report = Report::new();
    let found = resolve_documents(&bound(), &marker("port", Class::Projection, Some(vec!["api", "worker"])), &mut report);
    assert!(found.is_empty());
    assert_eq!(
        report.findings[0].message,
        "is scoped to worker, whose contract does not declare 'port'; a scope that names a document the key is absent from is a scope nobody has re-read since the contract changed"
    );
    let found = resolve_documents(&bound(), &marker("port", Class::Projection, Some(vec!["api"])), &mut report);
    assert_eq!(found, vec!["api".to_owned()]);
    assert_eq!(report.findings.len(), 1);
}

#[test]
fn a_target_nothing_declares_is_refused() {
    let mut report = Report::new();
    let found = resolve_documents(&bound(), &marker("nope", Class::Projection, None), &mut report);
    assert!(found.is_empty());
    assert_eq!(
        report.findings[0].message,
        "binds the value 'database.url' to the contract key 'nope', which no contract this chart declares carries"
    );
    let found = resolve_documents(&bound(), &marker("nope", Class::External, Some(vec!["api"])), &mut report);
    assert!(found.is_empty());
    assert_eq!(
        report.findings[1].message,
        "binds the value 'database.url' to the external.env variable 'nope', which the document(s) api do not declare"
    );
}

use terrace_helm::bindings::{check_coverage, missing_keys, Binding};
use terrace_helm::declaration::{Declaration, Unbound};

fn declaration(unbound: Vec<Unbound>) -> Declaration {
    Declaration {
        chart: "c".to_owned(),
        path: "charts/c/config-contract.yaml".to_owned(),
        documents: Vec::new(),
        reason: None,
        unconfigured: Vec::new(),
        bindings: true,
        unbound,
        credentials: Vec::new(),
    }
}

fn secret_bound() -> Bound {
    let key = |name: &str, secret: bool| (name.to_owned(), vec![("secret".to_owned(), Json::Bool(secret))]);
    Bound {
        chart: "c".to_owned(),
        documents: vec![BoundDocument {
            name: "api".to_owned(),
            keys: vec![key("a.one", false), key("b.two", false), key("c.token", true)],
            env: vec![],
            releases: vec![],
        }],
    }
}

#[test]
fn every_key_is_bound_or_written_off_and_not_both() {
    let resolved = vec![
        Binding { marker: marker("a.one", Class::Projection, None), document: "api".to_owned() },
        Binding { marker: marker("b.two", Class::Projection, None), document: "api".to_owned() },
    ];
    let unbound = vec![Unbound { keys: vec!["b.two".to_owned()], reason: "later".to_owned(), documents: None }];
    let held = secret_bound();
    let decl = declaration(unbound);
    let mut report = Report::new();
    check_coverage(&held, &decl, &resolved, &mut report);
    assert_eq!(report.findings.len(), 2);
    assert_eq!(report.findings[0].at, "c: api: config-contract.yaml");
    assert_eq!(
        report.findings[0].message,
        "`unbound` names 'b.two' while a marker binds it; one of the two is out of date, and the reason recorded here is the one that will be believed"
    );
    assert_eq!(report.findings[1].at, "c: api");
    assert_eq!(
        report.findings[1].message,
        "the contract declares 'c.token' and no chart value binds it. Add a `# # @config ...` marker to the `@schema` block of the value that feeds it, or an `unbound` entry with a reason in config-contract.yaml (it is a credential; the secrets inventory is what checks how those are delivered)"
    );
    let missing = missing_keys(&held, &decl, &resolved);
    assert_eq!(missing, vec![("api".to_owned(), vec!["c.token".to_owned()])]);
}

use terrace_helm::bindings::check_uniqueness;

fn bound_by(path: &str, target: &str, class: Class, document: &str) -> Binding {
    let mut m = marker(target, class, None);
    m.values_path = path.to_owned();
    Binding { marker: m, document: document.to_owned() }
}

#[test]
fn one_key_takes_one_value_unless_every_value_says_composed() {
    let resolved = vec![
        bound_by("host", "db.url", Class::Composed, "api"),
        bound_by("port", "db.url", Class::Composed, "api"),
        bound_by("a", "port", Class::Projection, "worker"),
        bound_by("b", "port", Class::Composed, "worker"),
        bound_by("c", "port", Class::Projection, "api"),
    ];
    let mut report = Report::new();
    check_uniqueness(&resolved, &mut report);
    assert_eq!(report.findings.len(), 1);
    assert_eq!(report.findings[0].at, "c/values.yaml:7");
    assert_eq!(
        report.findings[0].message,
        "worker: 'port' is bound by 2 values (a, b); only `composed` admits several, and then every one of them must say so"
    );
}

use terrace_helm::bindings::{check_condition, check_shape, resolve};

#[test]
fn a_structured_marker_on_a_scalar_key_is_refused() {
    let mut report = Report::new();
    let ok = check_shape(&bound(), &marker("db.url", Class::Structured, None), &vec!["api".to_owned(), "worker".to_owned()], &mut report);
    assert!(!ok);
    assert_eq!(
        report.findings[0].message,
        "is `structured`, but the contract calls 'db.url' a scalar (scalar); a scalar key takes `projection`"
    );
    assert!(check_shape(&bound(), &marker("db.url", Class::Projection, None), &vec!["api".to_owned()], &mut report));
    assert_eq!(report.findings.len(), 1);
}

#[test]
fn a_condition_the_chart_does_not_have_is_refused() {
    let values = Json::Object(vec![(
        "bootstrap".to_owned(),
        Json::Object(vec![("enabled".to_owned(), Json::Bool(false))]),
    )]);
    let mut report = Report::new();
    let mut gated = marker("db.url", Class::Projection, None);
    gated.condition = Some("bootstrap.enabled".to_owned());
    check_condition(&gated, &values, &mut report);
    assert!(report.findings.is_empty());
    gated.condition = Some("bootstrap.missing".to_owned());
    check_condition(&gated, &values, &mut report);
    assert_eq!(
        report.findings[0].message,
        "is written only `when bootstrap.missing`, and this chart has no value at that path; a condition nothing evaluates is a subtree nobody can predict"
    );
}

#[test]
fn markers_resolve_once_per_document_they_bind() {
    let mut report = Report::new();
    let markers = vec![
        marker("db.url", Class::Projection, None),
        marker("nope", Class::Projection, None),
        marker("TOKEN", Class::External, None),
    ];
    let found = resolve(&bound(), &markers, &Json::Null, &mut report);
    let pairs: Vec<(&str, &str)> = found.iter().map(|b| (b.marker.target.as_str(), b.document.as_str())).collect();
    assert_eq!(pairs, [("db.url", "api"), ("db.url", "worker"), ("TOKEN", "worker")]);
    assert_eq!(report.findings.len(), 1);
}
