use terrace_helm::json::Json;
use terrace_helm::report::Report;
use terrace_helm::surface::{absorb, Surface, Vendored};

fn s(t: &str) -> Json {
    Json::Str(t.to_owned())
}

fn obj(fields: Vec<(&str, Json)>) -> Json {
    Json::Object(fields.into_iter().map(|(k, v)| (k.to_owned(), v)).collect())
}

fn contract(app: &str, prefix: &str, keys: &[&str], unknown: &str, ignore: &[&str]) -> Json {
    obj(vec![
        ("app", obj(vec![("name", s(app)), ("version", s("1.2.0"))])),
        (
            "schema",
            obj(vec![
                ("dialect", obj(vec![("prefix", s(prefix))])),
                ("keys", Json::Array(keys.iter().map(|k| obj(vec![("path", s(k)), ("docs", s("d"))])).collect())),
                ("loader", Json::Array(vec![obj(vec![("env", s("APP_CONFIG"))])])),
            ]),
        ),
        (
            "external",
            obj(vec![
                ("env", Json::Array(vec![obj(vec![("name", s("HOME"))]), s("not a mapping")])),
                ("unknown", s(unknown)),
                ("ignore", Json::Array(ignore.iter().map(|p| s(p)).collect())),
            ]),
        ),
    ])
}

fn vendored(contract: Json) -> Vendored {
    Vendored { contract, file: "api.json".to_owned(), image: "repo/api".to_owned(), digest: "sha256:1".to_owned() }
}

fn empty() -> Surface {
    Surface {
        chart: "c".to_owned(),
        dialect: Vec::new(),
        readers: Vec::new(),
        keys: Vec::new(),
        loader: Vec::new(),
        external: Vec::new(),
        ignore: Vec::new(),
        unknown: String::new(),
    }
}

fn policies() -> Vec<String> {
    vec!["ignore".to_owned(), "warn".to_owned(), "reject".to_owned()]
}

#[test]
fn a_contract_is_folded_in_by_name_and_its_image_becomes_a_reader() {
    let mut surface = empty();
    let mut report = Report::new();
    absorb(&mut surface, vendored(contract("api", "APP_", &["b.key", "a.key"], "warn", &["X_*"])), "api", vec!["server".to_owned()], &policies(), &mut report);
    absorb(&mut surface, vendored(contract("worker", "APP_", &["a.key", "c.key"], "reject", &["X_*", "Y_*"])), "worker", vec!["server".to_owned()], &policies(), &mut report);
    assert!(report.findings.is_empty());
    let names: Vec<&str> = surface.keys.iter().map(|k| k.name.as_str()).collect();
    assert_eq!(names, ["a.key", "b.key", "c.key"]);
    let readers: Vec<&str> = surface.keys[0].occurrences.iter().map(|o| o.0.as_str()).collect();
    assert_eq!(readers, ["api", "worker"]);
    assert_eq!(surface.loader.len(), 1);
    assert_eq!(surface.external.len(), 1);
    assert_eq!(surface.external[0].name, "HOME");
    assert_eq!(surface.ignore, ["X_*", "Y_*"]);
    assert_eq!(surface.unknown, "reject");
    assert_eq!(surface.readers.len(), 2);
    assert_eq!(surface.readers[1].app, "worker");
    assert_eq!(surface.readers[1].version, "1.2.0");
    assert_eq!(surface.readers[1].contract, "api.json");
}

#[test]
fn a_looser_policy_does_not_replace_a_stricter_one_and_another_dialect_is_said() {
    let mut surface = empty();
    let mut report = Report::new();
    absorb(&mut surface, vendored(contract("api", "APP_", &[], "reject", &[])), "api", Vec::new(), &policies(), &mut report);
    absorb(&mut surface, vendored(contract("other", "OTHER_", &[], "ignore", &[])), "other", Vec::new(), &policies(), &mut report);
    assert_eq!(surface.unknown, "reject");
    assert_eq!(report.findings.len(), 1);
    assert!(!report.findings[0].failing);
    assert_eq!(report.findings[0].at, "c");
    assert_eq!(
        report.findings[0].message,
        "other reads its configuration under the dialect {\"prefix\":\"OTHER_\"}, where the other images this chart pins use {\"prefix\":\"APP_\"}; the header below reports the latter"
    );
}

#[test]
fn a_contract_without_an_app_name_is_named_by_its_file_stem() {
    let mut surface = empty();
    let mut report = Report::new();
    absorb(&mut surface, vendored(obj(vec![])), "api", Vec::new(), &policies(), &mut report);
    assert_eq!(surface.readers[0].app, "api");
    assert_eq!(surface.readers[0].version, "?");
    assert_eq!(surface.unknown, "reject");
}
