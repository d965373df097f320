use terrace_helm::json::Json;
use terrace_helm::surface::{
    compact, full, glob, report_divergences, markers, reader_list, select, shown_default, variable, variable_sections, yes_no,
    Setting, Surface,
};

fn text(s: &str) -> Json {
    Json::Str(s.to_owned())
}

fn entry(fields: &[(&str, Json)]) -> Vec<(String, Json)> {
    let mut held: Vec<(String, Json)> = fields
        .iter()
        .map(|(name, value)| (name.to_string(), copy(value)))
        .collect();
    held.sort_by(|a, b| a.0.cmp(&b.0));
    held
}

fn copy(value: &Json) -> Json {
    match value {
        Json::Null => Json::Null,
        Json::Bool(b) => Json::Bool(*b),
        Json::Number(n) => Json::Number(n.clone()),
        Json::Str(s) => Json::Str(s.clone()),
        Json::Array(items) => Json::Array(items.iter().map(copy).collect()),
        Json::Object(fields) => {
            Json::Object(fields.iter().map(|(k, v)| (k.clone(), copy(v))).collect())
        }
    }
}

fn setting(name: &str, occurrences: &[(&str, &[(&str, Json)])]) -> Setting {
    Setting {
        name: name.to_owned(),
        occurrences: occurrences
            .iter()
            .map(|(reader, fields)| ((*reader).to_owned(), entry(fields)))
            .collect(),
    }
}

#[test]
fn required_unions_because_any_reader_requiring_it_wins() {
    let merged = setting(
        "database.url",
        &[
            ("api", &[("path", text("database.url")), ("required", Json::Bool(false))]),
            ("worker", &[("path", text("database.url")), ("required", Json::Bool(true))]),
        ],
    );
    assert!(merged.required());
    assert!(!merged.divergent().iter().any(|name| name == "required"));
}

#[test]
fn empty_prose_is_an_absence_rather_than_a_contradiction() {
    let merged = setting(
        "bind_addr",
        &[
            ("api", &[("path", text("bind_addr")), ("docs", text(""))]),
            ("worker", &[("path", text("bind_addr")), ("docs", text("The listener."))]),
        ],
    );
    assert_eq!(merged.value("docs"), Some(&text("The listener.")));
}

#[test]
fn two_descriptions_of_one_setting_are_both_kept() {
    let merged = setting(
        "bind_addr",
        &[
            ("api", &[("path", text("bind_addr")), ("docs", text("Public."))]),
            ("render", &[("path", text("bind_addr")), ("docs", text(""))]),
            ("worker", &[("path", text("bind_addr")), ("docs", text("Ops only."))]),
        ],
    );
    assert_eq!(merged.divergent(), ["docs"]);
    let variants = merged.variants("docs");
    assert_eq!(variants.len(), 3);
    assert_eq!(variants[0], (Some(&text("Public.")), vec!["api".to_owned()]));
    assert_eq!(variants[1], (Some(&text("")), vec!["render".to_owned()]));
    assert_eq!(variants[2], (Some(&text("Ops only.")), vec!["worker".to_owned()]));
}

#[test]
fn a_disagreement_about_a_constraint_is_reported_and_not_resolved() {
    let merged = setting(
        "port",
        &[
            (
                "api",
                &[
                    ("path", text("port")),
                    (
                        "constraint",
                        Json::Object(entry(&[
                            ("type", text("integer")),
                            ("maximum", Json::Number("65535".to_owned())),
                        ])),
                    ),
                ],
            ),
            (
                "worker",
                &[
                    ("path", text("port")),
                    ("constraint", Json::Object(entry(&[("type", text("integer"))]))),
                ],
            ),
        ],
    );
    assert_eq!(merged.divergent(), ["constraint"]);
    let shown = merged.value("constraint").expect("the first image's");
    match shown {
        Json::Object(fields) => assert!(fields
            .iter()
            .any(|(name, value)| name == "maximum" && *value == Json::Number("65535".to_owned()))),
        other => panic!("{other:?}"),
    }
}

#[test]
fn a_field_only_one_image_publishes_is_still_carried() {
    let merged = setting(
        "log.level",
        &[
            ("api", &[("path", text("log.level"))]),
            ("worker", &[("path", text("log.level")), ("note", text("ignored in tests"))]),
        ],
    );
    assert_eq!(merged.value("note"), Some(&text("ignored in tests")));
}

#[test]
fn a_missing_field_and_a_null_one_are_one_variant() {
    let merged = setting(
        "x",
        &[
            ("a", &[("default", Json::Null)]),
            ("b", &[]),
            ("c", &[("default", Json::Number("1".to_owned()))]),
        ],
    );
    let variants = merged.variants("default");
    assert_eq!(variants.len(), 2);
    assert_eq!(variants[0].1, ["a", "b"]);
    assert_eq!(variants[1].1, ["c"]);
    assert_eq!(merged.divergent(), ["default"]);
    assert_eq!(merged.readers(), ["a", "b", "c"]);
}

#[test]
fn all_of_them_is_said_as_all_rather_than_listed() {
    let shared = setting("database.url", &[("api", &[]), ("worker", &[])]);
    assert_eq!(reader_list(&shared, 2), "all 2");
    assert_eq!(reader_list(&shared, 3), "api, worker");
    assert_eq!(reader_list(&setting("log.level", &[("api", &[])]), 1), "api");
}

#[test]
fn a_default_is_shown_as_the_loader_reads_it() {
    assert_eq!(shown_default(&entry(&[])), "-");
    assert_eq!(shown_default(&entry(&[("default", Json::Null)])), "-");
    assert_eq!(shown_default(&entry(&[("default", text(""))])), "(empty)");
    assert_eq!(shown_default(&entry(&[("default", text("info"))])), "info");
    assert_eq!(shown_default(&entry(&[("default", Json::Number("3600".to_owned()))])), "3600");
    assert_eq!(
        shown_default(&entry(&[("default", Json::Array(vec![text("a"), Json::Bool(true)]))])),
        "[\"a\",true]"
    );
}

#[test]
fn required_and_secret_are_two_markers_in_one_column() {
    assert_eq!(
        markers(&entry(&[("required", Json::Bool(true)), ("secret", Json::Bool(true))])),
        "RS"
    );
    assert_eq!(markers(&entry(&[("required", Json::Bool(false))])), "..");
    assert_eq!(markers(&entry(&[("secret", Json::Bool(true))])), ".S");
    assert_eq!(yes_no(&entry(&[("secret", Json::Bool(true))]), "secret"), "yes");
    assert_eq!(yes_no(&entry(&[("secret", text("true"))]), "secret"), "no");
}

#[test]
fn a_glob_matches_the_whole_name() {
    assert!(glob("database.*", "database.url"));
    assert!(!glob("database.*", "log.database.url"));
    assert!(glob("*.url", "database.url"));
    assert!(glob("log.?evel", "log.level"));
    assert!(!glob("log.?evel", "log.evel"));
    assert!(glob("[a-c]pi", "api"));
    assert!(!glob("[!a-c]pi", "api"));
    assert!(glob("[!a-c]pi", "spi"));
    assert!(glob("[x", "[x"));
    assert!(!glob("[x", "x"));
    assert!(glob("[]x", "[]x"));
    assert!(glob("*", ""));
    assert!(!glob("", "a"));
}

#[test]
fn a_pattern_chooses_by_glob_or_by_case_blind_substring() {
    let settings = vec![
        setting("auth.session_ttl", &[]),
        setting("database.URL", &[]),
        setting("log.level", &[]),
    ];
    let names = |chosen: Vec<&Setting>| -> Vec<String> {
        chosen.iter().map(|held| held.name.clone()).collect()
    };
    assert_eq!(names(select(&settings, None)).len(), 3);
    assert_eq!(names(select(&settings, Some(""))).len(), 3);
    assert_eq!(names(select(&settings, Some("url"))), ["database.URL"]);
    assert_eq!(names(select(&settings, Some("LEV"))), ["log.level"]);
    assert_eq!(names(select(&settings, Some("A"))), ["auth.session_ttl", "database.URL"]);
    assert_eq!(names(select(&settings, Some("*.l*"))), ["log.level"]);
    assert_eq!(names(select(&settings, Some("*.URL"))), ["database.URL"]);
    assert!(names(select(&settings, Some("*.url"))).is_empty());
}

#[test]
fn a_variable_says_its_summary_its_prose_and_who_reads_it() {
    let held = setting(
        "FIXTURE_CONFIG",
        &[
            ("api", &[("docs", text("Where the file is."))]),
            ("worker", &[]),
        ],
    );
    assert_eq!(
        variable(&held, "role path, default -", 2),
        [
            "    FIXTURE_CONFIG  (role path, default -)",
            "        Where the file is.",
            "        read by  all 2",
        ]
    );
    assert_eq!(variable(&held, "s", 1), ["    FIXTURE_CONFIG  (s)", "        Where the file is."]);
}

#[test]
fn the_variables_that_are_not_settings_get_their_own_sections() {
    let loader = setting(
        "FIXTURE_CONFIG",
        &[("api", &[("role", text("path")), ("default", text("/etc/app.toml"))])],
    );
    let external = setting(
        "RUST_LOG",
        &[(
            "api",
            &[
                ("owner", text("tracing")),
                ("ty", text("string")),
                ("constraint", Json::Object(entry(&[("minLength", Json::Number("1".to_owned()))]))),
            ],
        )],
    );
    let surface = Surface {
        chart: "c".to_owned(),
        dialect: entry(&[("prefix", text("FIXTURE_"))]),
        readers: Vec::new(),
        keys: Vec::new(),
        loader: Vec::new(),
        external: Vec::new(),
        ignore: vec!["OTEL_*".to_owned()],
        unknown: "reject".to_owned(),
    };
    let text = variable_sections(&surface, &vec![&loader], &vec![&external], 1);
    assert!(text.starts_with(
        "\n==> loader variables — where the settings are read from\n\n    FIXTURE_CONFIG  (role path, default /etc/app.toml)\n"
    ), "{text}");
    assert!(text.contains("\n==> external variables — read by the image, and nobody's configuration\n\n    These are not settings."), "{text}");
    assert!(text.contains("    RUST_LOG  (owner tracing, string, at least 1 characters, default -)\n"), "{text}");
    assert!(text.ends_with(
        "\n    unaccounted-for variables under FIXTURE_*: reject\n    ignored by pattern: OTEL_*\n"
    ), "{text}");
    assert_eq!(variable_sections(&surface, &vec![], &vec![], 1), "");
    let only_loader = variable_sections(&surface, &vec![&loader], &vec![], 1);
    assert!(only_loader.ends_with("default /etc/app.toml)\n"), "{only_loader}");
}

#[test]
fn the_representative_entry_holds_every_field_with_required_unioned() {
    let merged = setting(
        "port",
        &[
            ("api", &[("ty", text("u16")), ("required", Json::Bool(false))]),
            ("worker", &[("ty", text("u32")), ("required", Json::Bool(true)), ("secret", Json::Bool(true))]),
        ],
    );
    let entry = merged.representative();
    let names: Vec<&str> = entry.iter().map(|(name, _)| name.as_str()).collect();
    assert_eq!(names, ["required", "secret", "ty"]);
    assert_eq!(entry[0].1, Json::Bool(true));
    assert_eq!(entry[1].1, Json::Null);
    assert_eq!(entry[2].1, text("u16"));
}

#[test]
fn a_full_entry_says_everything_one_contract_says_about_a_setting() {
    let merged = setting(
        "database.url",
        &[
            (
                "api",
                &[
                    ("ty", text("String")),
                    ("required", Json::Bool(true)),
                    ("default", text("")),
                    ("env", text("APP_DATABASE__URL")),
                    ("env_file", text("APP_DATABASE__URL_FILE")),
                    ("docs", text("Where the data lives.")),
                ],
            ),
            (
                "worker",
                &[
                    ("ty", text("Url")),
                    ("required", Json::Bool(true)),
                    ("default", text("")),
                    ("env", text("APP_DATABASE__URL")),
                    ("env_file", text("APP_DATABASE__URL_FILE")),
                    ("docs", text("Where the data lives.")),
                ],
            ),
        ],
    );
    let lines = full(&merged, &Vec::new(), 2, "text", true);
    assert_eq!(
        lines,
        [
            "    database.url",
            "        type          String  (read as text)",
            "        required      yes",
            "        secret        no",
            "        default       (empty)",
            "        read by       all 2",
            "        environment   APP_DATABASE__URL",
            "        _FILE form    APP_DATABASE__URL_FILE",
            "        from a file   yes",
            "        docs",
            "            Where the data lives.",
            "        disagreement  the images describe ty differently; the values above are api's",
            "",
        ]
    );
    let refused = full(&merged, &Vec::new(), 1, "an integer", false);
    assert!(refused
        .iter()
        .any(|line| line.starts_with("        from a file   no — a file supplies text, and this key")));
    assert!(!refused.iter().any(|line| line.starts_with("        read by")));
}

#[test]
fn a_compact_listing_sizes_its_columns_to_the_selection() {
    let a = setting(
        "a.long.path",
        &[("api", &[("ty", text("String")), ("required", Json::Bool(true)), ("default", text("x"))])],
    );
    let b = setting("b", &[("api", &[("secret", Json::Bool(true))])]);
    let lines = compact(&vec![&a, &b], &vec!["text".to_owned(), "a boolean".to_owned()], 1);
    assert_eq!(
        lines,
        ["    a.long.path  String     R.  x", "    b            a boolean  .S  -"]
    );
    let bare = compact(&vec![&b], &vec!["a boolean".to_owned()], 1);
    assert_eq!(bare, ["    b  a boolean  .S"]);
}

#[test]
fn a_disagreement_is_reported_with_each_side_and_who_said_it() {
    let port = setting(
        "port",
        &[
            ("api", &[("ty", text("u16")), ("required", Json::Bool(true))]),
            ("worker", &[("ty", text("u32")), ("required", Json::Bool(false))]),
            ("cron", &[("ty", text("u16"))]),
        ],
    );
    let quiet = setting("host", &[("api", &[("ty", text("String"))])]);
    let surface = Surface {
        chart: "c".to_owned(),
        dialect: Vec::new(),
        readers: Vec::new(),
        keys: vec![quiet, port],
        loader: Vec::new(),
        external: Vec::new(),
        ignore: Vec::new(),
        unknown: "reject".to_owned(),
    };
    let mut report = terrace_helm::report::Report::new();
    report_divergences(&surface, None, &mut report);
    assert_eq!(report.findings.len(), 1);
    assert_eq!(report.findings[0].at, "c");
    assert!(!report.findings[0].failing);
    assert_eq!(
        report.findings[0].message,
        "the images pinned here describe the key 'port' differently: `ty` is api, cron: \"u16\"; worker: \"u32\""
    );
    let mut narrowed = terrace_helm::report::Report::new();
    report_divergences(&surface, Some("host"), &mut narrowed);
    assert!(narrowed.findings.is_empty());
}
