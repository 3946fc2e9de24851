use endpoint_profile::config::{Config, ConfigError, FieldValue, RootValue};
use endpoint_profile::emit::{accumulate, base_runtime_path, emit, render_profile};
use endpoint_profile::resolve::resolve;

fn s(x: &str) -> String {
    x.to_string()
}

fn entry(fields: Vec<(&str, FieldValue)>) -> RootValue {
    RootValue::Entry(fields.into_iter().map(|(k, v)| (s(k), v)).collect())
}

fn require(names: Vec<&str>) -> FieldValue {
    FieldValue::List(names.into_iter().map(s).collect())
}

#[test]
fn variables_merge_in_order_joined_by_colon() {
    let cfg = Config {
        items: vec![
            (s("X"), entry(vec![("path", FieldValue::Str(s("/a")))])),
            (s("Y"), entry(vec![("path", FieldValue::Str(s("/b")))])),
        ],
    };
    let a = accumulate(&cfg, &vec![s("X"), s("Y")]).unwrap();
    assert_eq!(a.vars, vec![(s("path"), s("/a:/b"))]);
    let text = render_profile(&s("cfg.toml"), &vec![s("X"), s("Y")], &s("/base"), &a);
    let line = "export path=/a:/b:$path\n";
    assert!(text.contains(line));
    assert_eq!(text.matches("/a").count(), 1);
    assert_eq!(text.matches("/b").count(), 1);
}

#[test]
fn isolated_runtime_first_declaration_wins() {
    let cfg = Config {
        items: vec![
            (s("E1"), entry(vec![("conda", FieldValue::Str(s("/envs/a")))])),
            (s("E2"), entry(vec![("conda", FieldValue::Str(s("/envs/b")))])),
        ],
    };
    let a = accumulate(&cfg, &vec![s("E1"), s("E2")]).unwrap();
    assert_eq!(a.runtime, Some(s("/envs/a")));
    assert_eq!(a.conflicts, vec![s("E2")]);
    let p = emit(&cfg, &s("cfg.toml"), &vec![s("E1"), s("E2")]).unwrap();
    assert!(p.text.contains("source $HOME/conda/bin/activate /envs/a\n"));
    assert!(!p.text.contains("/envs/b"));
    assert_eq!(p.conflicts, vec![s("E2")]);
}

#[test]
fn empty_request_emits_header_only() {
    let cfg = Config {
        items: vec![(s("A"), entry(vec![("path", FieldValue::Str(s("/a")))]))],
    };
    let resolved = resolve(&cfg, &vec![]).unwrap();
    let p = emit(&cfg, &s("cfg.toml"), &resolved).unwrap();
    assert_eq!(p.text, "# software config is \"cfg.toml\" activate modules {}\n");
    assert!(p.conflicts.is_empty());
}

#[test]
fn end_to_end_profile() {
    let cfg = Config {
        items: vec![
            (s("conda"), RootValue::Str(s("/opt/conda"))),
            (s("A"), entry(vec![("require", require(vec!["B"]))])),
            (
                s("B"),
                entry(vec![
                    ("path", FieldValue::Str(s("/opt/B/bin"))),
                    ("conda", FieldValue::Str(s("/envs/b"))),
                ]),
            ),
        ],
    };
    let resolved = resolve(&cfg, &vec![s("A")]).unwrap();
    let mut sorted = resolved.clone();
    sorted.sort();
    assert_eq!(sorted, vec![s("A"), s("B")]);
    let p = emit(&cfg, &s("cfg.toml"), &resolved).unwrap();
    assert!(p.text.contains("source /opt/conda/bin/activate /envs/b\n"));
    assert!(p.text.contains("export path=/opt/B/bin:$path\n"));
    assert!(p.conflicts.is_empty());
}

#[test]
fn header_records_path_and_endpoints() {
    let cfg = Config { items: vec![] };
    let p = emit(&cfg, &s("/etc/sw.toml"), &vec![s("A"), s("B")]).unwrap();
    assert!(p.text.starts_with(
        "# software config is \"/etc/sw.toml\" activate modules {\"A\", \"B\"}\n"
    ));
}

#[test]
fn base_path_defaults_when_absent() {
    let cfg = Config { items: vec![] };
    assert_eq!(base_runtime_path(&cfg).unwrap(), s("$HOME/conda"));
}

#[test]
fn base_path_comes_from_the_root_setting() {
    let cfg = Config {
        items: vec![(s("conda"), RootValue::Str(s("/opt/conda")))],
    };
    assert_eq!(base_runtime_path(&cfg).unwrap(), s("/opt/conda"));
}

#[test]
fn base_path_of_another_shape_is_fatal() {
    let cfg = Config {
        items: vec![(s("conda"), entry(vec![]))],
    };
    assert!(matches!(
        base_runtime_path(&cfg),
        Err(ConfigError::BasePathNotString)
    ));
}

#[test]
fn non_table_endpoint_is_fatal_when_emitting() {
    let cfg = Config {
        items: vec![(s("A"), RootValue::Str(s("/a")))],
    };
    match accumulate(&cfg, &vec![s("A")]) {
        Err(ConfigError::EntryNotTable { endpoint }) => assert_eq!(endpoint, s("A")),
        other => panic!("expected an EntryNotTable error, got {:?}", other.is_ok()),
    }
}

#[test]
fn non_string_contribution_is_fatal() {
    let cfg = Config {
        items: vec![(s("A"), entry(vec![("path", require(vec!["/a"]))]))],
    };
    match accumulate(&cfg, &vec![s("A")]) {
        Err(ConfigError::FieldNotString { endpoint, key }) => {
            assert_eq!(endpoint, s("A"));
            assert_eq!(key, s("path"));
        }
        other => panic!("expected a FieldNotString error, got {:?}", other.is_ok()),
    }
}

#[test]
fn non_string_runtime_is_fatal_only_when_first() {
    let bad = FieldValue::List(vec![s("/envs/x")]);
    let cfg = Config {
        items: vec![
            (s("E1"), entry(vec![("conda", FieldValue::Str(s("/envs/a")))])),
            (s("E2"), entry(vec![("conda", bad)])),
        ],
    };
    // The first declaration already won, so the malformed later one is only a
    // conflict, as when a run discards a second well-formed declaration.
    let a = accumulate(&cfg, &vec![s("E1"), s("E2")]).unwrap();
    assert_eq!(a.runtime, Some(s("/envs/a")));
    assert_eq!(a.conflicts, vec![s("E2")]);
    // Alone, the malformed declaration is fatal.
    match accumulate(&cfg, &vec![s("E2")]) {
        Err(ConfigError::FieldNotString { endpoint, key }) => {
            assert_eq!(endpoint, s("E2"));
            assert_eq!(key, s("conda"));
        }
        other => panic!("expected a FieldNotString error, got {:?}", other.is_ok()),
    }
}

#[test]
fn endpoints_without_entries_contribute_nothing() {
    let cfg = Config {
        items: vec![(s("A"), entry(vec![("path", FieldValue::Str(s("/a")))]))],
    };
    let a = accumulate(&cfg, &vec![s("A"), s("Z")]).unwrap();
    assert_eq!(a.vars, vec![(s("path"), s("/a"))]);
    assert_eq!(a.runtime, None);
    assert!(a.conflicts.is_empty());
}

#[test]
fn require_fields_are_not_exported() {
    let cfg = Config {
        items: vec![(s("A"), entry(vec![("require", require(vec!["B"]))]))],
    };
    let a = accumulate(&cfg, &vec![s("A"), s("B")]).unwrap();
    assert!(a.vars.is_empty());
    let p = emit(&cfg, &s("cfg.toml"), &vec![s("A"), s("B")]).unwrap();
    assert!(!p.text.contains("export"));
}

#[test]
fn distinct_variables_get_one_line_each() {
    let cfg = Config {
        items: vec![
            (
                s("A"),
                entry(vec![
                    ("path", FieldValue::Str(s("/a/bin"))),
                    ("manpath", FieldValue::Str(s("/a/man"))),
                ]),
            ),
        ],
    };
    let p = emit(&cfg, &s("cfg.toml"), &vec![s("A")]).unwrap();
    assert!(p.text.contains("export path=/a/bin:$path\n"));
    assert!(p.text.contains("export manpath=/a/man:$manpath\n"));
}
