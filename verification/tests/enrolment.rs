use terrace_helm::bindings::{bound_checks, enrolment, Bound, BoundDocument, Enrolment};
use terrace_helm::declaration::{Declaration, Document, Format, Source};
use terrace_helm::json::Json;
use terrace_helm::markers::{Class, Marker};
use terrace_helm::report::Report;

fn declaration(bindings: bool, documents: usize) -> Declaration {
    let document = Document {
        name: "api".to_owned(),
        source: Source {
            kind: "ConfigMap".to_owned(),
            selector: vec![],
            key: "config.toml".to_owned(),
            format: Format::Toml,
        },
        images: vec![],
        consumers: vec![],
        exempt: vec![],
        restart: vec![],
    };
    Declaration {
        chart: "c".to_owned(),
        path: "charts/c/config-contract.yaml".to_owned(),
        documents: (0..documents).map(|_| document.clone()).collect(),
        reason: None,
        unconfigured: Vec::new(),
        bindings,
        unbound: Vec::new(),
        credentials: Vec::new(),
    }
}

fn refusal(markers: usize, declared: Option<&Declaration>) -> (Enrolment, Vec<String>) {
    let mut report = Report::new();
    let e = enrolment("c: values.yaml", markers, declared, &mut report);
    assert!(report.findings.iter().all(|f| f.failing && f.at == "c: values.yaml"));
    (e, report.findings.into_iter().map(|f| f.message).collect())
}

#[test]
fn markers_in_a_chart_that_does_not_enrol_are_refused() {
    assert_eq!(
        refusal(2, None),
        (
            Enrolment::Refused,
            vec!["carries 2 `@config` marker(s), and its chart has no config-contract.yaml to declare `bindings: true` in. Enrolment is declared rather than inferred, so that a chart which loses its markers goes red instead of quietly leaving the report".to_owned()]
        )
    );
    let (e, messages) = refusal(1, Some(&declaration(false, 1)));
    assert_eq!(e, Enrolment::Refused);
    assert!(messages[0].contains("its config-contract.yaml does not declare `bindings: true`. Enrolment"));
}

#[test]
fn a_chart_with_nothing_to_bind_is_left_alone() {
    assert_eq!(refusal(0, None), (Enrolment::Untouched, vec![]));
    assert_eq!(refusal(0, Some(&declaration(false, 1))), (Enrolment::Untouched, vec![]));
}

#[test]
fn an_enrolment_needs_a_document_and_a_marker() {
    let (e, messages) = refusal(3, Some(&declaration(true, 0)));
    assert_eq!(e, Enrolment::Refused);
    assert_eq!(messages, vec!["declares `bindings: true` but no configuration contract, so there is nothing to hold a `@config` marker against; declare a document, or drop the switch".to_owned()]);
    let (e, messages) = refusal(0, Some(&declaration(true, 1)));
    assert_eq!(e, Enrolment::Refused);
    assert!(messages[0].starts_with("declares `bindings: true` and carries no `@config` marker. Either the markers were lost"));
    assert_eq!(refusal(1, Some(&declaration(true, 1))), (Enrolment::Enrolled, vec![]));
}

#[test]
fn an_enrolled_chart_counts_its_bindings_by_kind() {
    let entry = |name: &str| (name.to_owned(), vec![("text_form".to_owned(), Json::Str("scalar".to_owned()))]);
    let bound = Bound {
        chart: "c".to_owned(),
        documents: vec![BoundDocument {
            name: "api".to_owned(),
            keys: vec![entry("port")],
            env: vec![entry("TOKEN")],
            releases: vec![],
        }],
    };
    let marker = |path: &str, target: &str, class: Class| Marker {
        chart: "c".to_owned(),
        values_path: path.to_owned(),
        line: 4,
        class,
        documents: None,
        target: target.to_owned(),
        optional: false,
        condition: None,
    };
    let markers = vec![marker("service.port", "port", Class::Projection), marker("token", "TOKEN", Class::External)];
    let mut report = Report::new();
    let counted = bound_checks(&bound, &declaration(true, 1), &markers, &Json::Object(vec![]), &mut report);
    assert_eq!(counted, (1, 1));
}
