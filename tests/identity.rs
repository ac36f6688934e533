use scm::migration::Migration;
use scm::error::MigrationError;

#[test]
fn slug_lowercases_and_replaces_punctuation() {
    let m = Migration::with_timestamp("Add Users!!Table", "20230101000000".to_string());
    assert_eq!(m.name, "add-users--table");
    assert!(m.name.chars().all(|c| c.is_ascii_lowercase() || c.is_ascii_digit() || c == '-'));
    assert!(m.cql.is_none());
}

#[test]
fn slug_lowercases_non_ascii_letters_and_keeps_digits() {
    let m = Migration::with_timestamp("V2 Élan", "20230101000000".to_string());
    assert_eq!(m.name, "v2-élan");
    let m = Migration::with_timestamp("İx", "20230101000000".to_string());
    assert_eq!(m.name, "i\u{307}x");
    let m = Migration::with_timestamp("a\u{a0}b", "20230101000000".to_string());
    assert_eq!(m.name, "a-b");
}

#[test]
fn new_uses_a_fourteen_digit_utc_timestamp() {
    let m = Migration::new("Create Users");
    assert_eq!(m.name, "create-users");
    assert_eq!(m.timestamp.len(), 14);
    assert!(m.timestamp.chars().all(|c| c.is_ascii_digit()));
}

#[test]
fn canonical_joins_timestamp_and_name() {
    let m = Migration::with_timestamp("init", "20230101000000".to_string());
    assert_eq!(m.canonical(), "20230101000000-init");
    assert_eq!(m.filename(), "migrations/20230101000000-init.cql");
    assert_eq!(m.template(), "-- init\n\n-- Write your migration here");
}

#[test]
fn parse_splits_timestamp_and_name() {
    let m = Migration::parse("20210901123456-create-users").unwrap();
    assert_eq!(m.timestamp, "20210901123456");
    assert_eq!(m.name, "create-users");
    assert!(m.cql.is_none());
}

#[test]
fn parse_of_bare_timestamp_has_empty_name() {
    let m = Migration::parse("20210901123456").unwrap();
    assert_eq!(m.timestamp, "20210901123456");
    assert_eq!(m.name, "");
}

#[test]
fn parse_rejects_short_identifier() {
    match Migration::parse("2021090112345") {
        Err(MigrationError::InvalidIdentityFormat { identifier }) => {
            assert_eq!(identifier, "2021090112345")
        }
        other => panic!("unexpected {:?}", other),
    }
}

#[test]
fn parse_of_canonical_round_trips() {
    let m = Migration::with_timestamp("Add Users!!Table", "20230101000000".to_string());
    let p = Migration::parse(&m.canonical()).unwrap();
    assert_eq!(p.timestamp, m.timestamp);
    assert_eq!(p.name, m.name);
    assert!(p.cql.is_none());
    let fresh = Migration::new("Create Index On Users");
    let q = Migration::parse(&fresh.canonical()).unwrap();
    assert_eq!(q.timestamp, fresh.timestamp);
    assert_eq!(q.name, fresh.name);
}

#[test]
fn statements_need_loaded_content() {
    let mut m = Migration::parse("20230101000000-init").unwrap();
    assert!(m.statements().is_none());
    m.set_content("create table a; create table b;".to_string());
    assert_eq!(m.statements().unwrap(), vec!["create table a", "create table b"]);
    assert_eq!(m.cql.as_deref(), Some("create table a; create table b;"));
}
