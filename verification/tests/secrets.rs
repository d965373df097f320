use terrace_helm::json::Json;
use terrace_helm::secrets::{
    by_container, common_prefix, credentials, document_paths, inventory, is_chart_text,
    names_credential, Credential, Declared, Mount,
};

fn declared(document: &str, contract: &str, image: &str, required: bool) -> Declared {
    Declared {
        chart: "c".to_owned(),
        document: document.to_owned(),
        contract: contract.to_owned(),
        image: image.to_owned(),
        path: "database.url".to_owned(),
        secrets_file: "database__url".to_owned(),
        env: "FIXTURE_DATABASE__URL".to_owned(),
        env_file: "FIXTURE_DATABASE__URL_FILE".to_owned(),
        text_form: "text".to_owned(),
        required,
        summary: "The connection string.".to_owned(),
    }
}

#[test]
fn two_images_reading_one_key_are_one_row_naming_both() {
    let rows = credentials(&vec![
        declared("api", "c/contracts/api.json", "api", false),
        declared("worker", "c/contracts/worker.json", "worker", false),
    ]);
    assert_eq!(rows.len(), 1);
    assert_eq!(rows[0].images, ["api", "worker"]);
    assert_eq!(rows[0].documents, ["api", "worker"]);
}

#[test]
fn required_unions_the_way_the_contract_model_unions_it() {
    let rows = credentials(&vec![
        declared("d", "c/contracts/a.json", "a", false),
        declared("d", "c/contracts/b.json", "b", true),
    ]);
    assert_eq!(rows.len(), 1);
    assert!(rows[0].required);
}

#[test]
fn two_spellings_of_one_path_stay_two_rows() {
    let mut renamed = declared("d", "c/contracts/b.json", "b", false);
    renamed.secrets_file = "db__url".to_owned();
    let rows = credentials(&vec![declared("d", "c/contracts/a.json", "a", false), renamed]);
    assert_eq!(rows.len(), 2);
}

#[test]
fn rows_are_ordered_by_chart_path_and_file_and_ties_keep_their_first_appearance() {
    let mut later = declared("d", "c/contracts/a.json", "a", false);
    later.path = "a.key".to_owned();
    later.secrets_file = "a__key".to_owned();
    let mut by_variable = declared("d", "c/contracts/a.json", "a", false);
    by_variable.env = "OTHER_DATABASE__URL".to_owned();
    let rows = credentials(&vec![
        declared("d", "c/contracts/a.json", "a", false),
        by_variable,
        later,
    ]);
    assert_eq!(rows.len(), 3);
    assert_eq!(rows[0].path, "a.key");
    assert_eq!(rows[1].env, "FIXTURE_DATABASE__URL");
    assert_eq!(rows[2].env, "OTHER_DATABASE__URL");
    assert_eq!(rows[0].summary, "The connection string.");
}

#[test]
fn one_container_over_projecting_several_files_is_one_row() {
    let mount = |file_name: &str, values_file: &str| Mount {
        chart: "c".to_owned(),
        values_file: values_file.to_owned(),
        workload: "Deployment app".to_owned(),
        container: "migrate".to_owned(),
        image: "bootstrap".to_owned(),
        mount_path: "/secrets".to_owned(),
        file_name: file_name.to_owned(),
        judged_by_gate_three: false,
    };
    let rows = by_container(&vec![
        mount("a", "one.yaml"),
        mount("b", "one.yaml"),
        mount("a", "two.yaml"),
    ]);
    assert_eq!(rows.len(), 1);
    assert_eq!(rows[0].files, ["a", "b"]);
    assert_eq!(rows[0].values_files, ["one.yaml", "two.yaml"]);
}

#[test]
fn two_containers_are_two_rows_in_order() {
    let mount = |container: &str| Mount {
        chart: "c".to_owned(),
        values_file: "v.yaml".to_owned(),
        workload: "Deployment app".to_owned(),
        container: container.to_owned(),
        image: "api".to_owned(),
        mount_path: "/secrets".to_owned(),
        file_name: "f".to_owned(),
        judged_by_gate_three: false,
    };
    let rows = by_container(&vec![mount("zeta"), mount("alpha"), mount("zeta")]);
    assert_eq!(rows.len(), 2);
    assert_eq!(rows[0].container, "alpha");
    assert_eq!(rows[1].container, "zeta");
}

#[test]
fn the_dialect_prefix_is_what_every_spelling_shares() {
    assert_eq!(
        common_prefix(&vec!["FIXTURE_A__B".to_owned(), "FIXTURE_C__D".to_owned()]),
        "FIXTURE_"
    );
    assert_eq!(common_prefix(&vec!["A_ONE".to_owned(), "B_TWO".to_owned()]), "");
    assert_eq!(common_prefix(&vec![]), "");
}

#[test]
fn the_inventory_is_every_chart_in_turn() {
    let found = inventory(vec![
        vec![declared("a", "c/contracts/a.json", "a", false)],
        vec![],
        vec![declared("b", "c/contracts/b.json", "b", true)],
    ]);
    assert_eq!(found.len(), 2);
    assert_eq!(found[0].document, "a");
    assert_eq!(found[1].document, "b");
}

use terrace_helm::secrets::{report_of, secrets_of, Elevated, Surface, Undeliverable};

fn obj(fields: Vec<(&str, Json)>) -> Json {
    let mut fields: Vec<(String, Json)> =
        fields.into_iter().map(|(name, value)| (name.to_owned(), value)).collect();
    fields.sort_by(|a, b| a.0.cmp(&b.0));
    Json::Object(fields)
}

fn text(s: &str) -> Json {
    Json::Str(s.to_owned())
}

#[test]
fn only_the_keys_a_contract_marks_secret_are_declared() {
    let contract = obj(vec![
        ("app", obj(vec![("name", text("api"))])),
        (
            "schema",
            obj(vec![(
                "keys",
                Json::Array(vec![
                    obj(vec![
                        ("path", text("database.url")),
                        ("secrets_file", text("database__url")),
                        ("env", text("APP_DATABASE__URL")),
                        ("env_file", text("APP_DATABASE__URL_FILE")),
                        ("text_form", text("text")),
                        ("secret", Json::Bool(true)),
                        ("required", Json::Bool(true)),
                        ("docs", text("\n  The connection string.  \nMore.")),
                    ]),
                    obj(vec![("path", text("log")), ("secret", Json::Bool(false))]),
                ]),
            )]),
        ),
    ]);
    let found = secrets_of("c", "api", "c/contracts/api.json", "ghcr.io/x/api", &contract);
    assert_eq!(found.len(), 1);
    assert_eq!(found[0].image, "api");
    assert_eq!(found[0].path, "database.url");
    assert!(found[0].required);
    assert_eq!(found[0].summary, "The connection string.");

    let unnamed = obj(vec![]);
    assert!(secrets_of("c", "api", "x", "img", &unnamed).is_empty());
}

#[test]
fn a_report_fails_only_what_the_chart_cannot_deliver() {
    let row = Credential {
        chart: "c".to_owned(),
        path: "db.url".to_owned(),
        secrets_file: "db__url".to_owned(),
        env: "APP_DB__URL".to_owned(),
        env_file: "APP_DB__URL_FILE".to_owned(),
        required: true,
        summary: String::new(),
        documents: vec!["api".to_owned()],
        images: vec!["api".to_owned()],
        contracts: Vec::new(),
    };
    let surface = Surface {
        charts: vec!["c".to_owned()],
        values_files: vec!["ci/a.yaml".to_owned()],
        undeliverable: vec![Undeliverable {
            credential: row,
            values_files: vec!["ci/a.yaml".to_owned()],
            named_by_chart: false,
            named_in: Vec::new(),
        }],
        unclaimed: Vec::new(),
        over_projected: Vec::new(),
        elevated: vec![Elevated {
            chart: "c".to_owned(),
            path: "log".to_owned(),
            file_name: "log".to_owned(),
            text_form: "text".to_owned(),
            containers: vec!["api".to_owned()],
        }],
        notes: vec!["d: not rendered".to_owned()],
    };
    let report = report_of(&surface);
    assert_eq!(report.findings.len(), 3);
    assert_eq!(report.findings[0].at, "not reconciled");
    assert!(!report.findings[0].failing);
    assert_eq!(report.findings[1].at, "undeliverable: c");
    assert!(report.findings[1].failing);
    assert!(report.findings[1].message.contains("not as the file 'db__url' in a secrets directory"));
    assert!(report.findings[1].message.contains("Checked against all 1 `ci/` values file(s); required to the image."));
    assert_eq!(report.findings[2].at, "elevated: c");
    assert!(!report.passed());
}

fn credential(path: &str, secrets_file: &str) -> Credential {
    Credential {
        chart: "c".to_owned(),
        path: path.to_owned(),
        secrets_file: secrets_file.to_owned(),
        env: "TANKOVAULT_INTERNAL__TOKEN".to_owned(),
        env_file: "TANKOVAULT_INTERNAL__TOKEN_FILE".to_owned(),
        required: false,
        summary: String::new(),
        documents: vec!["d".to_owned()],
        images: vec!["a".to_owned()],
        contracts: vec!["c/contracts/a.json".to_owned()],
    }
}

/// The files of a chart a walk hands over: its text files outside the contracts and the
/// dependencies, with their contents.
fn chart(files: &[(&str, &str)]) -> Vec<(String, String)> {
    files
        .iter()
        .filter(|(name, _)| is_chart_text(name))
        .map(|(name, body)| ((*name).to_owned(), (*body).to_owned()))
        .collect()
}

#[test]
fn a_longer_spelling_that_contains_the_shorter_one_does_not_name_it() {
    let files = chart(&[(
        "templates/_secrets.tpl",
        "key: {{ printf \"internal__tokens__%s\" . }}\n{{ .Values.internal.tokens }}\n",
    )]);
    assert!(names_credential(&files, &credential("internal.token", "internal__token"))
        .expect("the chart is readable")
        .is_empty());
}

#[test]
fn the_spelling_itself_names_it() {
    let files = chart(&[("values.yaml", "# internal.token is gone\n")]);
    assert_eq!(
        names_credential(&files, &credential("internal.token", "internal__token"))
            .expect("the chart is readable"),
        ["values.yaml"]
    );
}

#[test]
fn the_vendored_contracts_are_not_evidence_that_the_chart_delivers_it() {
    let files = chart(&[("contracts/a.json", "{\"secrets_file\": \"internal__token\"}")]);
    assert!(names_credential(&files, &credential("internal.token", "internal__token"))
        .expect("the chart is readable")
        .is_empty());
}

#[test]
fn the_files_naming_a_credential_come_back_sorted() {
    let files = chart(&[
        ("values.yaml", "secrets_file: internal__token\n"),
        ("README.md", "Set TANKOVAULT_INTERNAL__TOKEN_FILE to the file.\n"),
        ("templates/a.tpl", "{{ .Values.internal.tokenized }}\n"),
        ("charts/dep/values.yaml", "internal__token\n"),
    ]);
    assert_eq!(
        names_credential(&files, &credential("internal.token", "internal__token")).unwrap(),
        ["README.md", "values.yaml"]
    );
    let nameless = Credential {
        path: String::new(),
        secrets_file: String::new(),
        env: String::new(),
        env_file: String::new(),
        ..credential("x", "y")
    };
    assert!(names_credential(&files, &nameless).unwrap().is_empty());
}

#[test]
fn a_chart_text_file_is_read_by_its_extension_outside_the_excluded_trees() {
    assert!(is_chart_text("values.yaml"));
    assert!(is_chart_text("templates/_helpers.tpl"));
    assert!(is_chart_text("ci/test.values.yml"));
    assert!(!is_chart_text("contracts/api.json"));
    assert!(!is_chart_text("charts/dep/values.yaml"));
    assert!(is_chart_text("charts.yaml"));
    assert!(!is_chart_text(".yaml"));
    assert!(!is_chart_text("Chart.lock"));
    assert!(!is_chart_text("templates/NOTES"));
}

#[test]
fn every_table_and_every_leaf_of_a_document_is_a_path() {
    let document = Json::Object(vec![
        (
            "auth".to_owned(),
            Json::Object(vec![("jwt_secret".to_owned(), Json::Str("x".to_owned()))]),
        ),
        ("port".to_owned(), Json::Number("8080".to_owned())),
    ]);
    assert_eq!(document_paths(&document, ""), ["auth", "auth.jwt_secret", "port"]);
    assert_eq!(document_paths(&document, "config"), ["config.auth", "config.auth.jwt_secret", "config.port"]);
}
