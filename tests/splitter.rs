use scm::splitter::{split_statements, trim};

#[test]
fn split_drops_empty_fragments_and_trims() {
    assert_eq!(
        split_statements("create table a;; create table b ;"),
        vec!["create table a".to_string(), "create table b".to_string()]
    );
}

#[test]
fn split_of_empty_content_is_empty() {
    assert!(split_statements("").is_empty());
    assert!(split_statements("  ;\n;\t ").is_empty());
}

#[test]
fn split_keeps_order_and_last_unterminated_statement() {
    assert_eq!(
        split_statements("create table t (a int);\ncreate index i on t (a)\n"),
        vec!["create table t (a int)", "create index i on t (a)"]
    );
}

#[test]
fn split_is_not_quote_aware() {
    assert_eq!(
        split_statements("insert into t (s) values ('a;b');"),
        vec!["insert into t (s) values ('a", "b')"]
    );
}

#[test]
fn trim_removes_unicode_whitespace_only_at_the_ends() {
    assert_eq!(trim("\u{3000}\t a  b \r\n"), "a  b");
    assert_eq!(trim(" \n "), "");
    assert_eq!(trim("x"), "x");
}
