use terrace_helm::check::{declaration_path, declares};
use terrace_helm::declaration::{declared, Declaration, Document, Exemption, Format, Source};
use terrace_helm::bindings::written_off_in;
use terrace_helm::declaration::Unbound;
use terrace_helm::secrets::contracted_charts;

fn document(exempt: Vec<Exemption>) -> Document {
    Document {
        name: "app".to_owned(),
        source: Source {
            kind: "ConfigMap".to_owned(),
            selector: Vec::new(),
            key: "config.toml".to_owned(),
            format: Format::Toml,
        },
        images: Vec::new(),
        consumers: Vec::new(),
        exempt,
        restart: Vec::new(),
    }
}

fn declaration(chart: &str, documents: Vec<Document>, unbound: Vec<Unbound>) -> Declaration {
    Declaration {
        chart: chart.to_owned(),
        path: format!("charts/{chart}/config-contract.yaml"),
        documents,
        reason: None,
        unconfigured: Vec::new(),
        bindings: false,
        unbound,
        credentials: Vec::new(),
    }
}

#[test]
fn the_relaxed_gates_follow_the_exemptions_in_order() {
    let document = document(vec![
        Exemption { values: "ci/a.yaml".to_owned(), gates: vec!["env".to_owned()], reason: "r".to_owned() },
        Exemption { values: "*".to_owned(), gates: vec!["closed".to_owned()], reason: "r".to_owned() },
    ]);
    assert!(document.relaxed("a.yaml").relaxes("env"));
    assert!(!document.relaxed("b.yaml").relaxes("env"));
    assert!(document.relaxed("b.yaml").relaxes("closed"));
    assert!(document.relaxed("ci\\a.yaml").relaxes("env"));
    assert_eq!(document.relaxed("a.yaml").gates, ["env", "closed"]);
}

#[test]
fn a_chart_with_no_declaration_is_skipped_and_an_opt_out_is_kept_only_when_asked() {
    let charts = vec![
        ("a".to_owned(), Some(declaration("a", vec![document(Vec::new())], Vec::new()))),
        ("b".to_owned(), None),
        ("c".to_owned(), Some(declaration("c", Vec::new(), Vec::new()))),
    ];
    let all: Vec<String> = declared(charts.clone(), false).into_iter().map(|(name, _)| name).collect();
    assert_eq!(all, ["a", "c"]);
    let gated: Vec<String> = contracted_charts(charts).into_iter().map(|(name, _)| name).collect();
    assert_eq!(gated, ["a"]);
}

#[test]
fn a_declaration_is_named_by_its_chart() {
    assert_eq!(declaration_path("api"), "api: config-contract.yaml");
    assert!(declares(&Some(declaration("a", vec![document(Vec::new())], Vec::new()))));
    assert!(!declares(&Some(declaration("a", Vec::new(), Vec::new()))));
    assert!(!declares(&None));
}

#[test]
fn an_unscoped_entry_writes_its_keys_off_everywhere_and_a_scoped_one_only_where_it_says() {
    let held = declaration(
        "c",
        Vec::new(),
        vec![
            Unbound { keys: vec!["z".to_owned(), "a".to_owned()], reason: "r".to_owned(), documents: None },
            Unbound {
                keys: vec!["m".to_owned(), "a".to_owned()],
                reason: "r".to_owned(),
                documents: Some(vec!["worker".to_owned()]),
            },
        ],
    );
    assert_eq!(written_off_in(&held, "api"), ["a", "z"]);
    assert_eq!(written_off_in(&held, "worker"), ["a", "m", "z"]);
}
