use scm::discovery::{from_file_name, list_all, resolve_one, timestamp_le, sort_by_timestamp};
use scm::error::MigrationError;
use scm::migration::Migration;

fn names(v: &[&str]) -> Vec<String> {
    v.iter().map(|s| s.to_string()).collect()
}

#[test]
fn file_name_loses_its_extension() {
    let m = from_file_name("20230102000000-add-index.cql").unwrap();
    assert_eq!(m.timestamp, "20230102000000");
    assert_eq!(m.name, "add-index");
}

#[test]
fn file_name_too_short_is_invalid() {
    match from_file_name("init.cql") {
        Err(MigrationError::InvalidIdentityFormat { identifier }) => assert_eq!(identifier, "init"),
        other => panic!("unexpected {:?}", other),
    }
    assert!(from_file_name("abc").is_err());
}

#[test]
fn list_all_orders_by_timestamp_whatever_the_listing_order() {
    let a = list_all(&names(&[
        "20230103000000-c.cql",
        "20230101000000-a.cql",
        "20230102000000-b.cql",
    ]))
    .unwrap();
    let b = list_all(&names(&[
        "20230102000000-b.cql",
        "20230103000000-c.cql",
        "20230101000000-a.cql",
    ]))
    .unwrap();
    let ids: Vec<String> = a.iter().map(|m| m.canonical()).collect();
    assert_eq!(ids, vec!["20230101000000-a", "20230102000000-b", "20230103000000-c"]);
    let ids_b: Vec<String> = b.iter().map(|m| m.canonical()).collect();
    assert_eq!(ids, ids_b);
}

#[test]
fn list_all_keeps_listing_order_for_equal_timestamps() {
    let v = list_all(&names(&[
        "20230101000000-y.cql",
        "20230101000000-x.cql",
        "20220101000000-w.cql",
    ]))
    .unwrap();
    let ids: Vec<String> = v.iter().map(|m| m.canonical()).collect();
    assert_eq!(ids, vec!["20220101000000-w", "20230101000000-y", "20230101000000-x"]);
}

#[test]
fn list_all_of_empty_directory_is_empty() {
    assert!(list_all(&Vec::new()).unwrap().is_empty());
}

#[test]
fn one_bad_file_name_fails_the_listing() {
    match list_all(&names(&["20230101000000-a.cql", "notes.cql", "x.cql"])) {
        Err(MigrationError::InvalidIdentityFormat { identifier }) => assert_eq!(identifier, "notes"),
        other => panic!("unexpected {:?}", other),
    }
}

#[test]
fn resolve_one_gives_exactly_that_migration() {
    let v = resolve_one("20230102000000-add-index").unwrap();
    assert_eq!(v.len(), 1);
    assert_eq!(v[0].canonical(), "20230102000000-add-index");
    assert!(resolve_one("2023").is_err());
}

#[test]
fn timestamps_compare_lexically() {
    assert!(timestamp_le("20230101000000", "20230102000000"));
    assert!(!timestamp_le("20230102000000", "20230101000000"));
    assert!(timestamp_le("2023", "2023"));
    assert!(timestamp_le("202", "2023"));
    assert!(!timestamp_le("2023", "202"));
}

#[test]
fn sort_orders_parsed_migrations() {
    let v = vec![
        Migration::parse("20230105000000-e").unwrap(),
        Migration::parse("20230101000000-a").unwrap(),
    ];
    let s = sort_by_timestamp(v);
    assert_eq!(s[0].name, "a");
    assert_eq!(s[1].name, "e");
}
