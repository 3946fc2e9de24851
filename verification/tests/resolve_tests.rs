use endpoint_profile::config::{Config, ConfigError, FieldValue, RootValue};
use endpoint_profile::resolve::resolve;

fn s(x: &str) -> String {
    x.to_string()
}

fn entry(fields: Vec<(&str, FieldValue)>) -> RootValue {
    RootValue::Entry(fields.into_iter().map(|(k, v)| (s(k), v)).collect())
}

fn require(names: Vec<&str>) -> FieldValue {
    FieldValue::List(names.into_iter().map(s).collect())
}

fn as_sorted(mut v: Vec<String>) -> Vec<String> {
    v.sort();
    v
}

#[test]
fn cycle_terminates_and_closes() {
    let cfg = Config {
        items: vec![
            (s("A"), entry(vec![("require", require(vec!["B"]))])),
            (s("B"), entry(vec![("require", require(vec!["A"]))])),
        ],
    };
    let r = resolve(&cfg, &vec![s("A")]).unwrap();
    assert_eq!(as_sorted(r), vec![s("A"), s("B")]);
}

#[test]
fn undeclared_leaf_is_kept() {
    let cfg = Config {
        items: vec![(s("A"), entry(vec![("require", require(vec!["Z"]))]))],
    };
    let r = resolve(&cfg, &vec![s("A")]).unwrap();
    assert_eq!(as_sorted(r), vec![s("A"), s("Z")]);
}

#[test]
fn resolve_is_idempotent() {
    let cfg = Config {
        items: vec![
            (s("A"), entry(vec![("require", require(vec!["B", "C"]))])),
            (s("B"), entry(vec![("require", require(vec!["D"]))])),
            (s("C"), entry(vec![])),
        ],
    };
    let once = resolve(&cfg, &vec![s("A")]).unwrap();
    let twice = resolve(&cfg, &once).unwrap();
    assert_eq!(as_sorted(once), as_sorted(twice));
}

#[test]
fn resolve_contains_every_requested_name() {
    let cfg = Config {
        items: vec![(s("A"), entry(vec![("require", require(vec!["B"]))]))],
    };
    let r = resolve(&cfg, &vec![s("A"), s("Q")]).unwrap();
    assert!(r.contains(&s("A")));
    assert!(r.contains(&s("Q")));
    assert!(r.contains(&s("B")));
    assert_eq!(r.len(), 3);
}

#[test]
fn empty_request_resolves_to_empty_set() {
    let cfg = Config {
        items: vec![(s("A"), entry(vec![("require", require(vec!["B"]))]))],
    };
    let r = resolve(&cfg, &vec![]).unwrap();
    assert!(r.is_empty());
}

#[test]
fn self_reference_is_harmless() {
    let cfg = Config {
        items: vec![(s("A"), entry(vec![("require", require(vec!["A"]))]))],
    };
    let r = resolve(&cfg, &vec![s("A")]).unwrap();
    assert_eq!(r, vec![s("A")]);
}

#[test]
fn duplicate_requests_are_merged() {
    let cfg = Config { items: vec![] };
    let r = resolve(&cfg, &vec![s("A"), s("A"), s("B")]).unwrap();
    assert_eq!(as_sorted(r), vec![s("A"), s("B")]);
}

#[test]
fn requirements_are_transitive() {
    let cfg = Config {
        items: vec![
            (s("A"), entry(vec![("require", require(vec!["B"]))])),
            (s("B"), entry(vec![("require", require(vec!["C"]))])),
            (s("C"), entry(vec![("path", FieldValue::Str(s("/c")))])),
        ],
    };
    let r = resolve(&cfg, &vec![s("A")]).unwrap();
    assert_eq!(as_sorted(r), vec![s("A"), s("B"), s("C")]);
}

#[test]
fn missing_require_field_is_a_leaf() {
    let cfg = Config {
        items: vec![(s("A"), entry(vec![("path", FieldValue::Str(s("/a")))]))],
    };
    let r = resolve(&cfg, &vec![s("A")]).unwrap();
    assert_eq!(r, vec![s("A")]);
}

#[test]
fn require_that_is_not_a_list_is_fatal() {
    let cfg = Config {
        items: vec![(s("A"), entry(vec![("require", FieldValue::Str(s("B")))]))],
    };
    match resolve(&cfg, &vec![s("A")]) {
        Err(ConfigError::RequireNotList { endpoint }) => assert_eq!(endpoint, s("A")),
        other => panic!("expected a RequireNotList error, got {:?}", other.is_ok()),
    }
}

#[test]
fn require_error_found_through_dependencies() {
    let cfg = Config {
        items: vec![
            (s("A"), entry(vec![("require", require(vec!["B"]))])),
            (s("B"), entry(vec![("require", FieldValue::Other)])),
        ],
    };
    match resolve(&cfg, &vec![s("A")]) {
        Err(ConfigError::RequireNotList { endpoint }) => assert_eq!(endpoint, s("B")),
        other => panic!("expected a RequireNotList error, got {:?}", other.is_ok()),
    }
}

#[test]
fn non_table_entries_do_not_expand() {
    let cfg = Config {
        items: vec![(s("A"), RootValue::Str(s("/a")))],
    };
    let r = resolve(&cfg, &vec![s("A")]).unwrap();
    assert_eq!(r, vec![s("A")]);
}
