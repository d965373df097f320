use terrace_helm::readme::{carries_markers, difference, splice, CLOSE, OPEN};

fn block() -> Vec<String> {
    vec!["one".to_owned(), String::new(), "two".to_owned()]
}

#[test]
fn the_block_replaces_what_is_between_the_markers_and_nothing_else() {
    let text = format!("head\n{OPEN}\nold\n{CLOSE}\ntail\n");
    assert_eq!(
        splice(&text, &block(), "x").expect("one pair of markers"),
        format!("head\n{OPEN}\none\n\ntwo\n{CLOSE}\ntail\n")
    );
}

#[test]
fn a_nested_block_stays_nested_and_a_blank_line_gains_no_trailing_space() {
    let text = format!("- head\n  {OPEN}\n  {CLOSE}\n");
    assert_eq!(
        splice(&text, &block(), "x").expect("one pair of markers"),
        format!("- head\n  {OPEN}\n  one\n\n  two\n  {CLOSE}\n")
    );
}

#[test]
fn the_line_ending_the_file_already_uses_is_the_one_written_back() {
    let text = format!("head\r\n{OPEN}\r\nold\r\n{CLOSE}\r\n");
    let written = splice(&text, &block(), "x").expect("one pair of markers");
    assert!(!written.contains("\n\n"), "{written:?}");
    assert!(written.contains("\r\none\r\n"), "{written:?}");
}

#[test]
fn anything_but_one_pair_is_refused_rather_than_guessed_at() {
    for text in [
        format!("{OPEN}\n{CLOSE}\n{OPEN}\n{CLOSE}\n"),
        format!("{OPEN}\n"),
        format!("{CLOSE}\n{OPEN}\n"),
    ] {
        assert!(splice(&text, &block(), "x").is_err(), "{text:?}");
    }
}

#[test]
fn a_marker_is_a_whole_line_and_not_a_mention_of_one() {
    assert!(!carries_markers(&format!("write `{OPEN}` where it belongs\n")));
    assert!(carries_markers(&format!("  {OPEN}  \n")));
}

#[test]
fn each_refusal_says_what_it_found() {
    let twice = splice(&format!("{OPEN}\n{CLOSE}\n{OPEN}\n{CLOSE}\n"), &block(), "x").unwrap_err();
    assert_eq!(
        twice,
        format!("x: carries 2 `{OPEN}` and 2 `{CLOSE}` markers, and a generated block is delimited by exactly one of each")
    );
    let inverted = splice(&format!("{CLOSE}\n{OPEN}\n"), &block(), "x").unwrap_err();
    assert_eq!(inverted, format!("x: the `{CLOSE}` marker sits above the `{OPEN}` one"));
}

#[test]
fn splicing_what_was_spliced_changes_nothing() {
    let text = format!("head\n  {OPEN}\nold\n  {CLOSE}\ntail");
    let once = splice(&text, &block(), "x").expect("one pair");
    let twice = splice(&once, &block(), "x").expect("still one pair");
    assert_eq!(once, twice);
}

#[test]
fn splicing_again_keeps_a_crlf_text_and_a_trailing_carriage_return() {
    let crlf = format!("head\r\n\t{OPEN}\r\n{CLOSE}\r\n");
    let once = splice(&crlf, &block(), "x").expect("one pair");
    assert_eq!(once, format!("head\r\n\t{OPEN}\r\n\tone\r\n\r\n\ttwo\r\n{CLOSE}\r\n"));
    assert_eq!(splice(&once, &block(), "x").expect("still one pair"), once);
    let lone = format!("{OPEN}\n{CLOSE}\ntail\r");
    let once = splice(&lone, &block(), "x").expect("one pair");
    assert_eq!(splice(&once, &block(), "x").expect("still one pair"), once);
}

#[test]
fn the_difference_lists_only_the_lines_that_moved() {
    assert_eq!(
        difference("a\nb\nc\n", "a\nB\nc\n", "README.md.gotmpl"),
        "--- README.md.gotmpl\n+++ the contract\n-b\n+B\n"
    );
}

use terrace_helm::declaration::{CredentialNote, Declaration};
use terrace_helm::json::Json;
use terrace_helm::readme::{block_for, env_prefix, walk, ChartReadme};
use terrace_helm::secrets::Credential;

fn credential(path: &str, documents: &[&str]) -> Credential {
    Credential {
        chart: "c".to_owned(),
        path: path.to_owned(),
        secrets_file: path.replace('.', "__"),
        env: format!("APP_{}", path.replace('.', "__").to_uppercase()),
        env_file: format!("APP_{}_FILE", path.replace('.', "__").to_uppercase()),
        required: true,
        summary: String::new(),
        documents: documents.iter().map(|d| d.to_string()).collect(),
        images: Vec::new(),
        contracts: Vec::new(),
    }
}

fn declared(notes: Vec<CredentialNote>) -> Declaration {
    Declaration {
        chart: "c".to_owned(),
        path: "charts/c/config-contract.yaml".to_owned(),
        documents: Vec::new(),
        reason: None,
        unconfigured: Vec::new(),
        bindings: false,
        unbound: Vec::new(),
        credentials: notes,
    }
}

fn values() -> Json {
    Json::Object(vec![("auth".to_owned(), Json::Object(vec![("existingSecret".to_owned(), Json::Null)]))])
}

#[test]
fn the_table_carries_only_the_columns_that_say_something() {
    let lines = block_for(&declared(Vec::new()), &vec![credential("db.url", &["api"])], &values(), None)
        .expect("nothing outlived");
    assert_eq!(lines[5], "| Secrets file | Required |");
    assert_eq!(lines[6], "|---|---|");
    assert_eq!(lines[7], "| `db__url` | yes |");
    assert_eq!(lines.len(), 8);
}

#[test]
fn a_note_adds_its_columns_and_the_prefix_its_paragraph() {
    let notes = vec![CredentialNote {
        key: "db.url".to_owned(),
        value: Some("auth.existingSecret".to_owned()),
        note: Some("first install only".to_owned()),
    }];
    let lines = block_for(&declared(notes), &vec![credential("db.url", &["api"])], &values(), Some("APP_"))
        .expect("nothing outlived");
    assert_eq!(lines[5], "| Secrets file | Required | Chart value | When |");
    assert_eq!(lines[7], "| `db__url` | yes | `auth.existingSecret` | first install only |");
    assert_eq!(lines[9], "The same value is addressable as the variable `APP_<PATH>`, upper-cased with `.`");
}

#[test]
fn a_note_that_has_outlived_its_credential_is_refused() {
    let notes = vec![CredentialNote { key: "gone".to_owned(), value: None, note: Some("x".to_owned()) }];
    let refused = block_for(&declared(notes), &vec![credential("db.url", &["api"])], &values(), None)
        .expect_err("the note is stale");
    assert!(refused.contains("'gone'"), "{refused}");
    let renamed = vec![CredentialNote {
        key: "db.url".to_owned(),
        value: Some("auth.renamed".to_owned()),
        note: None,
    }];
    let refused = block_for(&declared(renamed), &vec![credential("db.url", &["api"])], &values(), None)
        .expect_err("the value is gone");
    assert!(refused.contains("'auth.renamed'"), "{refused}");
}

#[test]
fn documents_that_disagree_about_their_prefix_name_none() {
    assert_eq!(env_prefix(&vec![Some("APP_".to_owned()), Some("APP_".to_owned())]), Some("APP_".to_owned()));
    assert_eq!(env_prefix(&vec![Some("APP_".to_owned()), Some("OTHER_".to_owned())]), None);
    assert_eq!(env_prefix(&vec![Some("APP_".to_owned()), None]), None);
    assert_eq!(env_prefix(&vec![Some(String::new())]), None);
    assert_eq!(env_prefix(&vec![]), None);
}

#[test]
fn a_pass_writes_what_changed_and_a_check_reports_it() {
    let chart = |template: Option<String>| ChartReadme {
        template_path: "charts/c/README.md.gotmpl".to_owned(),
        template,
        declaration: declared(Vec::new()),
        rows: vec![credential("db.url", &["api"])],
        values: values(),
        prefix: None,
    };
    let stale = format!("head\n{OPEN}\nold\n{CLOSE}\n");
    let (written, writes) = walk(&vec![chart(Some(stale.clone())), chart(None)], false);
    assert_eq!(written.touched, 1);
    assert_eq!(written.problems.len(), 1);
    assert!(written.problems[0].contains("has no README.md.gotmpl"), "{:?}", written.problems);
    assert!(writes[0].1.contains("| `db__url` | yes |"));

    let (checked, none) = walk(&vec![chart(Some(stale))], true);
    assert!(none.is_empty());
    assert!(checked.problems[0].contains("regenerate it"), "{:?}", checked.problems);

    let (current, nothing) = walk(&vec![chart(Some(writes[0].1.clone()))], true);
    assert!(current.problems.is_empty() && nothing.is_empty());
}
