use terrace_helm::declaration::{Document, Format, Restarted, Source};
use terrace_helm::restarts::{quoted, render, restart_set, ReloadContract, ReloadKey, RestartSet};

fn key(path: &str, restart: bool) -> ReloadKey {
    ReloadKey {
        path: path.to_owned(),
        aliases: Vec::new(),
        secrets_file: Some(path.replace('.', "__")),
        secrets_file_aliases: Vec::new(),
        reserved: false,
        restart_class: restart,
    }
}

fn rebuilding(keys: Vec<ReloadKey>) -> ReloadContract {
    ReloadContract { rebuilds: true, watches_document: true, watches_secrets_dir: true, keys }
}

fn document(restart: Vec<Restarted>) -> Document {
    Document {
        name: "server".to_owned(),
        source: Source {
            kind: "ConfigMap".to_owned(),
            selector: Vec::new(),
            key: "config.toml".to_owned(),
            format: Format::Toml,
        },
        images: Vec::new(),
        consumers: Vec::new(),
        exempt: Vec::new(),
        restart,
    }
}

fn set(contracts: Vec<ReloadContract>, restart: Vec<Restarted>) -> RestartSet {
    let labelled: Vec<(String, ReloadContract)> =
        contracts.into_iter().map(|contract| ("c.json".to_owned(), contract)).collect();
    restart_set(&document(restart), &labelled).expect("a set")
}

#[test]
fn only_the_restart_keys_are_listed() {
    let found = set(vec![rebuilding(vec![key("ttl", false), key("log.level", true)])], Vec::new());
    assert!(!found.document_all);
    assert_eq!(found.paths, [vec!["log".to_owned(), "level".to_owned()]]);
    assert_eq!(found.files, ["log__level"]);
}

#[test]
fn an_image_that_does_not_rebuild_makes_everything_restart_content() {
    let found = set(
        vec![
            rebuilding(vec![key("ttl", false)]),
            ReloadContract {
                rebuilds: false,
                watches_document: false,
                watches_secrets_dir: false,
                keys: vec![key("ttl", true)],
            },
        ],
        Vec::new(),
    );
    assert!(found.document_all && found.secrets_all);
    assert!(found.paths.is_empty() && found.files.is_empty());
}

#[test]
fn a_key_one_image_calls_restart_is_restart_for_the_document() {
    let found = set(
        vec![rebuilding(vec![key("ttl", false)]), rebuilding(vec![key("ttl", true)])],
        Vec::new(),
    );
    assert_eq!(found.paths, [vec!["ttl".to_owned()]]);
}

#[test]
fn a_chart_can_promote_a_key_and_a_stale_promotion_is_refused() {
    let live = rebuilding(vec![key("ttl", false)]);
    let promoted = set(
        vec![live.clone()],
        vec![Restarted { keys: vec!["ttl".to_owned()], reason: "canaried".to_owned() }],
    );
    assert_eq!(promoted.paths, [vec!["ttl".to_owned()]]);

    let stale = restart_set(
        &document(vec![Restarted { keys: vec!["gone".to_owned()], reason: "was here once".to_owned() }]),
        &vec![("c.json".to_owned(), live)],
    )
    .expect_err("a key nothing declares");
    assert!(stale[0].contains("`gone`"), "{stale:?}");
    assert_eq!(
        stale[0],
        "`restart` names `gone`, which no contract this document reads declares; drop the entry, or correct the path"
    );
}

#[test]
fn a_reserved_key_and_aliases_are_handled_as_the_contract_says() {
    let mut aliased = key("db.url", true);
    aliased.aliases = vec!["database.url".to_owned()];
    aliased.secrets_file_aliases = vec!["database__url".to_owned()];
    let mut reserved = key("profile", true);
    reserved.reserved = true;
    let found = set(vec![rebuilding(vec![aliased, reserved])], Vec::new());
    assert_eq!(
        found.paths,
        [
            vec!["database".to_owned(), "url".to_owned()],
            vec!["db".to_owned(), "url".to_owned()]
        ]
    );
    assert_eq!(found.files, ["database__url", "db__url"]);
}

#[test]
fn the_file_is_stable_and_inert_to_the_template_engine() {
    let sets = vec![RestartSet {
        document: "server".to_owned(),
        document_all: false,
        paths: vec![vec!["odd{{".to_owned(), "key".to_owned()]],
        secrets_all: true,
        files: Vec::new(),
    }];
    let rendered = render("chart", &sets);
    assert!(rendered.contains("{{- define \"chart.terrace.reload.server\" -}}"));
    assert!(rendered.contains(r#"- ["odd\u007b\u007b", "key"]"#), "{rendered}");
    assert!(rendered.contains("  files: []\n"), "{rendered}");
    assert_eq!(rendered, render("chart", &sets));
}

#[test]
fn documents_are_written_in_name_order_and_the_later_of_two_wins() {
    let one = |name: &str, all: bool| RestartSet {
        document: name.to_owned(),
        document_all: all,
        paths: Vec::new(),
        secrets_all: true,
        files: Vec::new(),
    };
    let rendered = render("c", &vec![one("worker", true), one("api", true), one("worker", false)]);
    let api = rendered.find("c.terrace.reload.api").expect("api is written");
    let worker = rendered.find("c.terrace.reload.worker").expect("worker is written");
    assert!(api < worker);
    assert_eq!(rendered.matches("c.terrace.reload.worker").count(), 1);
    assert!(rendered.contains("c.terrace.reload.worker\" -}}\ndocument:\n  all: false\n"), "{rendered}");
}

#[test]
fn a_quoted_text_escapes_what_json_escapes_and_the_braces() {
    assert_eq!(quoted("a\"b\\c\n{x}"), "\"a\\\"b\\\\c\\n\\u007bx\\u007d\"");
    assert_eq!(quoted("\u{1}"), "\"\\u0001\"");
}
