use terrace_helm::json::Json;
use terrace_helm::load::load_declaration;
use terrace_helm::{shown, Error};

/// A parsed value as the library holds one, object fields in key order.
fn json_of(value: &serde_json::Value) -> Json {
    match value {
        serde_json::Value::Null => Json::Null,
        serde_json::Value::Bool(held) => Json::Bool(*held),
        serde_json::Value::Number(number) => Json::Number(number.to_string()),
        serde_json::Value::String(text) => Json::Str(text.clone()),
        serde_json::Value::Array(items) => Json::Array(items.iter().map(json_of).collect()),
        serde_json::Value::Object(fields) => {
            let mut held: Vec<(String, Json)> =
                fields.iter().map(|(name, value)| (name.clone(), json_of(value))).collect();
            held.sort_by(|left, right| left.0.cmp(&right.0));
            Json::Object(held)
        }
    }
}

fn yaml(body: &str) -> Json {
    let value: serde_json::Value = serde_norway::from_str(body).expect("the body is YAML");
    json_of(&value)
}

fn gates() -> Vec<String> {
    vec!["env".to_owned(), "closed".to_owned()]
}

const PATH: &str = "charts/x/config-contract.yaml";

fn load(body: &str) -> Result<Option<terrace_helm::declaration::Declaration>, Error> {
    load_declaration("x", PATH, Some(&yaml(body)), &gates())
}

fn refusal(body: &str) -> String {
    match load(body) {
        Err(error) => error.message(),
        Ok(_) => panic!("the declaration is refused"),
    }
}

#[test]
fn a_key_nobody_reads_is_a_typo_rather_than_something_to_ignore() {
    let error = refusal("documents: []\nreason: not adopted\nunbounded: []\n");
    assert!(error.contains("unknown key(s) unbounded"), "{error}");
}

#[test]
fn an_empty_document_list_is_an_opt_out_and_needs_a_reason() {
    let error = refusal("documents: []\n");
    assert!(error.contains("explicit opt-out"), "{error}");

    let declaration = load("documents: []\nreason: the image publishes none yet\n")
        .expect("an explained opt-out reads")
        .expect("the chart has a declaration");
    assert!(declaration.documents.is_empty());
    assert_eq!(declaration.reason.as_deref(), Some("the image publishes none yet"));
}

#[test]
fn a_chart_with_no_declaration_is_skipped_rather_than_failed() {
    assert!(load_declaration("x", PATH, None, &gates())
        .expect("no declaration is not an error")
        .is_none());
}

#[test]
fn an_exemption_names_a_gate_that_exists_and_says_why() {
    let error = refusal(
        "documents:\n  - name: app\n    source: {kind: ConfigMap, key: config.toml}\n    \
         images: [{values: image, contract: contracts/app.json}]\n    exempt:\n      \
         - {values: 'ci/a.yaml', gates: [gate2], reason: x}\n",
    );
    assert!(error.contains("gates that do not exist: gate2"), "{error}");

    let error = refusal(
        "documents:\n  - name: app\n    source: {kind: ConfigMap, key: config.toml}\n    \
         images: [{values: image, contract: contracts/app.json}]\n    exempt:\n      \
         - {values: 'ci/a.yaml', gates: [env]}\n",
    );
    assert!(error.contains("indistinguishable from an oversight"), "{error}");
}

#[test]
fn an_exemption_applies_to_the_values_file_it_names_and_a_star_to_every_one() {
    let declaration = load(
        "documents:\n  - name: app\n    source: {kind: ConfigMap, key: config.toml}\n    \
         images: [{values: image, contract: contracts/app.json}]\n    exempt:\n      \
         - {values: 'ci/a.yaml', gates: [env], reason: r}\n      \
         - {values: '*', gates: [closed], reason: r}\n",
    )
    .expect("the declaration reads")
    .expect("the chart has one");
    let document = &declaration.documents[0];
    assert!(document.relaxed("a.yaml").relaxes("env"));
    assert!(!document.relaxed("b.yaml").relaxes("env"));
    assert!(document.relaxed("b.yaml").relaxes("closed"));
}

#[test]
fn two_reasons_for_one_unbound_key_means_one_of_them_is_not_the_reason() {
    let error = refusal(
        "documents: []\nreason: r\nunbound:\n  - {keys: [a], reason: one}\n  \
         - {keys: [a], reason: two}\n",
    );
    assert!(error.contains("already written off"), "{error}");
}

#[test]
fn an_unbound_scope_must_name_a_document_the_chart_declares() {
    let error = refusal(
        "documents:\n  - name: app\n    source: {kind: ConfigMap, key: config.toml}\n    \
         images: [{values: image, contract: contracts/app.json}]\nunbound:\n  \
         - {keys: [a], reason: r, documents: [other]}\n",
    );
    assert!(error.contains("does not declare"), "{error}");
}

#[test]
fn a_credential_row_adds_something_or_is_not_written() {
    let error = refusal("documents: []\nreason: r\ncredentials:\n  - {key: a}\n");
    assert!(error.contains("adds neither"), "{error}");
}

#[test]
fn a_malformed_value_is_shown_as_it_was_written() {
    assert_eq!(shown(Some(&Json::Str("yes".to_owned()))), "'yes'");
    assert_eq!(shown(Some(&Json::Bool(true))), "True");
    assert_eq!(shown(None), "None");
    assert_eq!(shown(Some(&Json::Number("1".to_owned()))), "1");
}

#[test]
fn every_refusal_names_the_declaration_and_what_is_wrong() {
    assert_eq!(
        refusal("- a\n"),
        "charts/x/config-contract.yaml: expected a mapping at the top level"
    );
    assert_eq!(
        refusal("reason: r\n"),
        "charts/x/config-contract.yaml: `documents` is missing or not a list"
    );
    assert_eq!(
        refusal("documents: []\nreason: r\nzz: 1\naa: 2\n"),
        "charts/x/config-contract.yaml: unknown key(s) aa, zz; known keys are bindings, \
         credentials, documents, reason, unbound, unconfigured"
    );
    assert_eq!(
        refusal("documents: []\nreason: r\nbindings: 'yes'\n"),
        "charts/x/config-contract.yaml: `bindings` is the chart's enrolment in the marker check \
         and must be true or false, not 'yes'"
    );
    assert_eq!(
        refusal("documents: [{name: app}]\n"),
        "charts/x/config-contract.yaml: app: `source` is missing"
    );
    assert_eq!(
        refusal("documents: [{name: app, source: {kind: ConfigMap, key: k, format: ini}}]\n"),
        "charts/x/config-contract.yaml: app: `source.format` 'ini' is not one of toml, json, yaml"
    );
    assert_eq!(
        refusal("documents: [{name: app, source: {kind: ConfigMap, key: k}, images: []}]\n"),
        "charts/x/config-contract.yaml: app: `images` is missing or empty"
    );
    assert_eq!(
        refusal("documents: [{source: {}}]\n"),
        "charts/x/config-contract.yaml: a document has no `name`"
    );
}

#[test]
fn an_exemption_lists_the_unknown_gates_once_and_in_order() {
    let error = refusal(
        "documents:\n  - name: app\n    source: {kind: ConfigMap, key: config.toml}\n    \
         images: [{values: image, contract: contracts/app.json}]\n    exempt:\n      \
         - {values: '*', gates: [zz, env, aa, zz], reason: x}\n",
    );
    assert_eq!(
        error,
        "charts/x/config-contract.yaml: app: `exempt` names gates that do not exist: aa, zz \
         (known: env, closed)"
    );
}

#[test]
fn a_key_written_off_twice_names_the_entry_that_wrote_it_off_first() {
    let error = refusal(
        "documents: []\nreason: r\nunbound:\n  - {keys: [a, b], reason: one}\n  \
         - {keys: [c], reason: two}\n  - {keys: [b], reason: three}\n",
    );
    assert_eq!(
        error,
        "charts/x/config-contract.yaml: unbound[2]: 'b' is already written off by unbound[0]; \
         two reasons for one key means one of them is not the reason"
    );
    let declaration = load(
        "documents:\n  - name: app\n    source: {kind: ConfigMap, key: config.toml}\n    \
         images: [{values: image, contract: contracts/app.json}]\nunbound:\n  \
         - {keys: [a], reason: r, documents: [app]}\n  - {keys: [a], reason: s}\n",
    )
    .expect("one scoped and one unscoped entry do not clash")
    .expect("the chart has one");
    assert_eq!(declaration.unbound.len(), 2);
    assert_eq!(declaration.unbound[0].documents, Some(vec!["app".to_owned()]));
    assert_eq!(declaration.unbound[1].documents, None);
}

#[test]
fn credentials_are_read_in_key_order_with_their_text_tidied() {
    let declaration = load(
        "documents: []\nreason: r\ncredentials:\n  - {key: z, value: ' auth.z '}\n  \
         - {key: a, note: \"only when\n    enabled\"}\n",
    )
    .expect("the declaration reads")
    .expect("the chart has one");
    let keys: Vec<&str> = declaration.credentials.iter().map(|note| note.key.as_str()).collect();
    assert_eq!(keys, ["a", "z"]);
    assert_eq!(declaration.credentials[0].note.as_deref(), Some("only when enabled"));
    assert_eq!(declaration.credentials[1].value.as_deref(), Some("auth.z"));

    let error = refusal("documents: []\nreason: r\ncredentials:\n  - {key: a, value: x}\n  - {key: a, note: y}\n");
    assert_eq!(
        error,
        "charts/x/config-contract.yaml: 'a' is named by two `credentials` entries, so one of the \
         two is stale"
    );
    let error = refusal("documents: []\nreason: r\ncredentials:\n  - {key: a, value: '  '}\n");
    assert_eq!(
        error,
        "charts/x/config-contract.yaml: the `credentials` entry for 'a' carries an empty `value`"
    );
}

#[test]
fn a_document_reads_as_it_was_declared() {
    let declaration = load(
        "bindings: true\nunconfigured: [sidecar.image]\ndocuments:\n  - name: app\n    \
         source: {kind: ConfigMap, key: config.json, format: json, selector: {app: x}}\n    \
         images: [{values: image, contract: contracts/app.json}]\n    consumers:\n      \
         - {workload: {kind: Deployment, selector: {tier: web}}, containers: [main, 2]}\n",
    )
    .expect("the declaration reads")
    .expect("the chart has one");
    assert_eq!(declaration.chart, "x");
    assert!(declaration.bindings);
    assert_eq!(declaration.unconfigured, ["sidecar.image"]);
    let document = &declaration.documents[0];
    assert_eq!(document.name, "app");
    assert_eq!(document.source.kind, "ConfigMap");
    assert_eq!(document.source.key, "config.json");
    assert_eq!(document.source.format, terrace_helm::declaration::Format::Json);
    assert_eq!(document.source.selector, [("app".to_owned(), "x".to_owned())]);
    assert_eq!(document.images[0].values, "image");
    assert_eq!(document.images[0].contract, "contracts/app.json");
    assert_eq!(document.consumers[0].kind, "Deployment");
    assert_eq!(document.consumers[0].selector, [("tier".to_owned(), "web".to_owned())]);
    assert_eq!(document.consumers[0].containers, ["main", "2"]);
}
