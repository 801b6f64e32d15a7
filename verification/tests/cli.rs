use phpm::cli::{gc_run, lock_possibly_stale, registry_base, store_dir, CliError};
use phpm::gc::{GcError, GcPlan};
use phpm::lockfile::parse_lock;
use phpm::store::PackageCoords;

#[test]
fn store_dir_prefers_the_environment() {
    assert_eq!(store_dir(Some("/data/store"), Some("/home/me")), "/data/store");
    assert_eq!(store_dir(None, Some("/home/me")), "/home/me/.phpm/store");
    assert_eq!(store_dir(None, None), "./.phpm/store");
    assert_eq!(registry_base(Some("/home/me")), "/home/me/.phpm");
    assert_eq!(registry_base(None), "./.phpm");
}

#[test]
fn lock_staleness_ignores_platform_requirements() {
    let lock = parse_lock(r#"{"packages":[{"name":"a/b","version":"1"}],"packages-dev":[{"name":"c/d","version":"2"}]}"#).unwrap();
    assert!(!lock_possibly_stale(&lock, r#"{"require":{"php":"^8.2","ext-json":"*","a/b":"^1"},"require-dev":{"c/d":"^2"}}"#));
    assert!(lock_possibly_stale(&lock, r#"{"require":{"a/b":"^1","new/pkg":"^1"}}"#));
    assert!(lock_possibly_stale(&lock, r#"{"require-dev":{"x/y":"*"}}"#));
    assert!(!lock_possibly_stale(&lock, ""));
    assert!(!lock_possibly_stale(&lock, "{}"));
}

fn c(v: &str) -> PackageCoords {
    PackageCoords { vendor: v.into(), package: "p".into(), version: "1".into() }
}

#[test]
fn gc_run_reports_and_deletes_only_when_pruning() {
    let plan = GcPlan { to_remove: vec![c("a"), c("b")], referenced_count: 3 };
    let (rep, del) = gc_run(Ok(plan), false).unwrap();
    assert_eq!((rep.would_remove, rep.removed), (2, 0));
    assert!(del.is_empty());
    let plan = GcPlan { to_remove: vec![c("a"), c("b")], referenced_count: 3 };
    let (rep, del) = gc_run(Ok(plan), true).unwrap();
    assert_eq!(rep.would_remove, 2);
    assert_eq!(del, vec![c("a"), c("b")]);
}

#[test]
fn gc_run_empty_registry_is_nothing_to_do() {
    let (rep, del) = gc_run(Err(GcError::EmptyRegistry), true).unwrap();
    assert_eq!((rep.would_remove, rep.removed), (0, 0));
    assert!(del.is_empty());
    let e = gc_run(Err(GcError::Io(std::io::Error::other("x"))), true);
    assert!(matches!(e, Err(CliError::Gc(GcError::Io(_)))));
}
