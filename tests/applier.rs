use scm::applier::{Action, Event, Phase, Run};
use scm::discovery::{list_all, resolve_one};
use scm::error::MigrationError;
use scm::migration::Migration;

struct Outcome {
    executed: Vec<String>,
    advanced: Vec<String>,
    loaded: Vec<String>,
    finished: bool,
    error: Option<MigrationError>,
}

/// Drives a run the way a caller would: scripts come from `scripts`
/// (path, content), and a statement fails when it equals `failing`.
fn drive(migrations: Vec<Migration>, scripts: &[(&str, &str)], failing: Option<&str>) -> Outcome {
    let mut run = Run::new(migrations, "localhost:9042".to_string());
    let mut out = Outcome {
        executed: Vec::new(),
        advanced: Vec::new(),
        loaded: Vec::new(),
        finished: false,
        error: None,
    };
    let mut action = run.step(Event::Start);
    loop {
        let event = match action {
            Action::Connect { host } => {
                assert_eq!(host, "localhost:9042");
                Event::Connected
            }
            Action::Load { path } => {
                out.loaded.push(path.clone());
                match scripts.iter().find(|(p, _)| *p == path) {
                    Some((_, c)) => Event::Loaded { content: c.to_string() },
                    None => Event::LoadFailed { reason: "not found".to_string() },
                }
            }
            Action::Execute { statement } => {
                out.executed.push(statement.clone());
                if Some(statement.as_str()) == failing {
                    Event::ExecuteFailed { reason: "syntax error".to_string() }
                } else {
                    Event::Executed
                }
            }
            Action::Advance { label } => {
                out.advanced.push(label);
                Event::Reported
            }
            Action::Finish => {
                out.finished = true;
                break;
            }
            Action::Abort { error } => {
                out.error = Some(error);
                break;
            }
            Action::Nothing => panic!("run stalled"),
        };
        action = run.step(event);
    }
    out
}

fn three() -> Vec<Migration> {
    vec![
        Migration::parse("20230101000000-one").unwrap(),
        Migration::parse("20230102000000-two").unwrap(),
        Migration::parse("20230103000000-three").unwrap(),
    ]
}

const SCRIPTS: [(&str, &str); 3] = [
    ("migrations/20230101000000-one.cql", "a1; a2;"),
    ("migrations/20230102000000-two.cql", "b1; b2; b3;"),
    ("migrations/20230103000000-three.cql", "c1;"),
];

#[test]
fn failure_stops_the_run_at_the_failing_statement() {
    let out = drive(three(), &SCRIPTS, Some("b2"));
    assert_eq!(out.executed, vec!["a1", "a2", "b1", "b2"]);
    assert_eq!(out.advanced, vec!["20230101000000-one"]);
    assert!(!out.finished);
    match out.error {
        Some(MigrationError::StatementExecutionError { migration, position, total, statement, reason }) => {
            assert_eq!(migration, "20230102000000-two");
            assert_eq!(position, 2);
            assert_eq!(total, 3);
            assert_eq!(statement, "b2");
            assert_eq!(reason, "syntax error");
        }
        other => panic!("unexpected {:?}", other),
    }
}

#[test]
fn every_migration_runs_in_order_on_success() {
    let out = drive(three(), &SCRIPTS, None);
    assert_eq!(out.executed, vec!["a1", "a2", "b1", "b2", "b3", "c1"]);
    assert_eq!(
        out.advanced,
        vec!["20230101000000-one", "20230102000000-two", "20230103000000-three"]
    );
    assert!(out.finished);
    assert!(out.error.is_none());
}

#[test]
fn single_explicit_migration_runs_alone() {
    let only = resolve_one("20230102000000-two").unwrap();
    let out = drive(only, &SCRIPTS, None);
    assert_eq!(out.loaded, vec!["migrations/20230102000000-two.cql"]);
    assert_eq!(out.executed, vec!["b1", "b2", "b3"]);
    assert_eq!(out.advanced, vec!["20230102000000-two"]);
    assert!(out.finished);
}

#[test]
fn directory_migrations_apply_init_then_add_index() {
    let files = vec![
        "20230102000000-add-index.cql".to_string(),
        "20230101000000-init.cql".to_string(),
    ];
    let set = list_all(&files).unwrap();
    let scripts = [
        ("migrations/20230101000000-init.cql", "-- init\ncreate table t (a int primary key);"),
        ("migrations/20230102000000-add-index.cql", "create index on t (a);"),
    ];
    let out = drive(set, &scripts, None);
    assert_eq!(
        out.executed,
        vec!["-- init\ncreate table t (a int primary key)", "create index on t (a)"]
    );
    assert_eq!(out.advanced, vec!["20230101000000-init", "20230102000000-add-index"]);
    assert!(out.finished);
}

#[test]
fn connection_failure_halts_before_any_statement() {
    let mut run = Run::new(three(), "db".to_string());
    match run.step(Event::Start) {
        Action::Connect { host } => assert_eq!(host, "db"),
        other => panic!("unexpected {:?}", other),
    }
    match run.step(Event::ConnectFailed { reason: "refused".to_string() }) {
        Action::Abort { error: MigrationError::ConnectionError { reason } } => {
            assert_eq!(reason, "refused")
        }
        other => panic!("unexpected {:?}", other),
    }
    assert_eq!(run.phase(), Phase::Failed);
    assert!(matches!(run.step(Event::Connected), Action::Nothing));
    assert!(matches!(run.step(Event::Executed), Action::Nothing));
    assert_eq!(run.phase(), Phase::Failed);
}

#[test]
fn vanished_script_is_a_content_load_error() {
    let out = drive(three(), &SCRIPTS[..1], None);
    assert_eq!(out.executed, vec!["a1", "a2"]);
    assert_eq!(out.advanced, vec!["20230101000000-one"]);
    match out.error {
        Some(MigrationError::ContentLoadError { migration, reason }) => {
            assert_eq!(migration, "20230102000000-two");
            assert_eq!(reason, "not found");
        }
        other => panic!("unexpected {:?}", other),
    }
}

#[test]
fn empty_script_is_a_no_op_migration() {
    let set = vec![Migration::parse("20230101000000-empty").unwrap()];
    let out = drive(set, &[("migrations/20230101000000-empty.cql", " ;\n ")], None);
    assert!(out.executed.is_empty());
    assert_eq!(out.advanced, vec!["20230101000000-empty"]);
    assert!(out.finished);
}

#[test]
fn empty_set_finishes_after_connecting() {
    let mut run = Run::new(Vec::new(), "db".to_string());
    assert_eq!(run.total(), 0);
    assert!(matches!(run.step(Event::Start), Action::Connect { .. }));
    assert!(matches!(run.step(Event::Connected), Action::Finish));
    assert_eq!(run.phase(), Phase::Succeeded);
}

#[test]
fn events_out_of_turn_are_ignored() {
    let mut run = Run::new(three(), "db".to_string());
    assert!(matches!(run.step(Event::Executed), Action::Nothing));
    assert_eq!(run.phase(), Phase::Idle);
}
