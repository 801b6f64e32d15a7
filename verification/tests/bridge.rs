use phpm::bridge::{declares_script, remove, require, run_script, update, BridgeError, Runner};
use std::cell::RefCell;

#[derive(Default)]
struct RecordingRunner {
    calls: RefCell<Vec<(String, Vec<String>, String)>>,
}

impl Runner for RecordingRunner {
    fn run(&self, program: &str, args: &Vec<String>, cwd: &str) -> Result<(), BridgeError> {
        self.calls.borrow_mut().push((program.to_string(), args.clone(), cwd.to_string()));
        Ok(())
    }
}

struct FailingRunner;

impl Runner for FailingRunner {
    fn run(&self, program: &str, args: &Vec<String>, _cwd: &str) -> Result<(), BridgeError> {
        Err(BridgeError::Failed {
            program: program.to_string(),
            args: args.clone(),
            stderr: "boom".to_string(),
        })
    }
}

#[test]
fn update_invokes_composer_update_no_install() {
    let r = RecordingRunner::default();
    update(&r, "/tmp/proj").unwrap();
    let calls = r.calls.borrow();
    assert_eq!(calls[0].0, "composer");
    assert_eq!(calls[0].1, vec!["update", "--no-install", "--no-interaction"]);
}

#[test]
fn require_passes_packages_and_no_install() {
    let r = RecordingRunner::default();
    require(&r, "/tmp/proj", &vec!["monolog/monolog:^3.0".into()]).unwrap();
    assert_eq!(
        r.calls.borrow()[0].1,
        vec!["require", "--no-install", "--no-interaction", "monolog/monolog:^3.0"]
    );
}

#[test]
fn remove_passes_packages_and_no_install() {
    let r = RecordingRunner::default();
    remove(&r, "/tmp/proj", &vec!["monolog/monolog".into()]).unwrap();
    assert_eq!(
        r.calls.borrow()[0].1,
        vec!["remove", "--no-install", "--no-interaction", "monolog/monolog"]
    );
}

#[test]
fn commands_run_in_the_project_directory() {
    let r = RecordingRunner::default();
    require(&r, "/srv/app", &vec!["a/b".into(), "c/d:^1".into()]).unwrap();
    let calls = r.calls.borrow();
    assert_eq!(calls[0].2, "/srv/app");
    assert_eq!(calls[0].1, vec!["require", "--no-install", "--no-interaction", "a/b", "c/d:^1"]);
}

#[test]
fn runner_failure_is_returned() {
    let e = update(&FailingRunner, "/tmp/proj").unwrap_err();
    match e {
        BridgeError::Failed { program, stderr, .. } => {
            assert_eq!(program, "composer");
            assert_eq!(stderr, "boom");
        }
        _ => panic!("expected Failed"),
    }
}

const WITH_HOOK: &str = r#"{"name":"acme/app","scripts":{"post-autoload-dump":["@php -r \"echo 1;\""]}}"#;

#[test]
fn run_script_runs_declared_event() {
    let r = RecordingRunner::default();
    run_script(&r, "/tmp/proj", Some(WITH_HOOK), "post-autoload-dump").unwrap();
    let calls = r.calls.borrow();
    assert_eq!(calls.len(), 1);
    assert_eq!(calls[0].0, "composer");
    assert_eq!(calls[0].1, vec!["run-script", "--no-interaction", "post-autoload-dump"]);
}

#[test]
fn run_script_skips_undeclared_event() {
    let r = RecordingRunner::default();
    run_script(&r, "/tmp/proj", Some(WITH_HOOK), "post-install-cmd").unwrap();
    assert!(r.calls.borrow().is_empty());
}

#[test]
fn run_script_skips_without_composer_json_or_when_unreadable() {
    let r = RecordingRunner::default();
    run_script(&r, "/tmp/proj", None, "post-autoload-dump").unwrap();
    run_script(&r, "/tmp/proj", Some("{not json"), "post-autoload-dump").unwrap();
    assert!(r.calls.borrow().is_empty());
    // A failing runner is never reached for an undeclared event.
    run_script(&FailingRunner, "/tmp/proj", Some("{}"), "post-autoload-dump").unwrap();
}

#[test]
fn script_declared_only_under_scripts() {
    assert!(declares_script(Some(WITH_HOOK), "post-autoload-dump"));
    assert!(!declares_script(Some(r#"{"post-autoload-dump":["x"]}"#), "post-autoload-dump"));
    assert!(!declares_script(Some(r#"{"scripts":[]}"#), "post-autoload-dump"));
    assert!(declares_script(Some(r#"{"scripts":{"test":"phpunit"}}"#), "test"));
}
