use scm::env::{environment_id, environment_path, is_environment_file, EnvironmentFile};

#[test]
fn environment_defaults_to_dev() {
    assert_eq!(environment_id(None), "dev");
    assert_eq!(environment_id(Some("prod".to_string())), "prod");
}

#[test]
fn environment_file_is_named_after_the_environment() {
    assert_eq!(environment_path("dev"), "dev.scm.toml");
    assert!(is_environment_file("./prod.scm.toml"));
    assert!(!is_environment_file("./prod.toml"));
    assert!(!is_environment_file("toml"));
    assert_eq!(EnvironmentFile::new("10.0.2.1".to_string()).connection.host, "10.0.2.1");
}
