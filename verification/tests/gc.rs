use phpm::gc::{plan_from_locks, plan_gc, GcError, Registry};
use phpm::lockfile::parse_lock;
use phpm::store::PackageCoords;
use tempfile::TempDir;

fn c(v: &str, p: &str, ver: &str) -> PackageCoords {
    PackageCoords { vendor: v.into(), package: p.into(), version: ver.into() }
}

#[test]
fn registry_registers_and_lists_unique_projects() {
    let home = TempDir::new().unwrap();
    let reg = Registry::new(home.path().to_str().unwrap());
    let body = reg.register(None, "/home/me/app-a");
    let body = reg.register(Some(&body), "/home/me/app-b");
    let body = reg.register(Some(&body), "/home/me/app-a"); // dedup
    let mut got = reg.list(Some(&body));
    got.sort();
    assert_eq!(got, vec!["/home/me/app-a".to_string(), "/home/me/app-b".to_string()]);
}

#[test]
fn registry_prune_drops_missing_paths() {
    let home = TempDir::new().unwrap();
    let existing = TempDir::new().unwrap();
    let reg = Registry::new(home.path().to_str().unwrap());
    let body = reg.register(None, existing.path().to_str().unwrap());
    let body = reg.register(Some(&body), "/no/such/path/xyz");
    let flagged: Vec<(String, bool)> = reg
        .list(Some(&body))
        .into_iter()
        .map(|p| {
            let e = std::path::Path::new(&p).exists();
            (p, e)
        })
        .collect();
    let body = reg.prune_missing(&flagged);
    let got = reg.list(Some(&body));
    assert_eq!(got, vec![existing.path().to_str().unwrap().to_string()]);
}

#[test]
fn registry_empty_when_never_registered() {
    let home = TempDir::new().unwrap();
    let reg = Registry::new(home.path().to_str().unwrap());
    assert!(reg.list(None).is_empty());
}

#[test]
fn registry_file_is_sorted_lines_and_ignores_blank_lines() {
    let reg = Registry::new("/home/me/.phpm");
    assert_eq!(reg.file(), "/home/me/.phpm/projects");
    let body = reg.register(Some("/b\n\n   \n/a\r\n"), "/c");
    assert_eq!(body, "/a\n/b\n/c");
    assert_eq!(reg.list(Some("/b\n\n/a\n/b")), vec!["/a".to_string(), "/b".to_string()]);
}

const LOCK_A: &str = r#"{"content-hash":"x","packages":[{"name":"monolog/monolog","version":"3.8.1"},{"name":"php","version":"8.2"}],"packages-dev":[{"name":"phpunit/phpunit","version":"11.0.0"}]}"#;
const LOCK_B: &str = r#"{"packages":[{"name":"monolog/monolog","version":"3.8.1"},{"name":"psr/log","version":"3.0.0"}]}"#;

#[test]
fn plan_removes_only_unreferenced_packages() {
    let stored = vec![
        c("monolog", "monolog", "3.8.1"),
        c("monolog", "monolog", "2.0.0"),
        c("psr", "log", "3.0.0"),
        c("phpunit", "phpunit", "11.0.0"),
    ];
    let texts = vec![Some(LOCK_A.to_string()), None, Some(LOCK_B.to_string())];
    let plan = plan_gc(&texts, &stored).unwrap();
    assert_eq!(plan.to_remove, vec![c("monolog", "monolog", "2.0.0")]);
    assert_eq!(plan.referenced_count, 3);
}

#[test]
fn plan_refuses_empty_registry_and_malformed_lock() {
    assert!(matches!(plan_gc(&vec![], &vec![]), Err(GcError::EmptyRegistry)));
    let texts = vec![Some(LOCK_A.to_string()), Some("{broken".to_string())];
    assert!(matches!(plan_gc(&texts, &vec![c("a", "b", "1")]), Err(GcError::Lock(_))));
}

#[test]
fn plan_with_only_missing_locks_removes_everything() {
    let stored = vec![c("a", "b", "1")];
    let plan = plan_gc(&vec![None], &stored).unwrap();
    assert_eq!(plan.to_remove, stored);
    assert_eq!(plan.referenced_count, 0);
}

#[test]
fn plan_from_parsed_locks() {
    let locks = vec![parse_lock(LOCK_B).unwrap()];
    let plan = plan_from_locks(&locks, &vec![c("psr", "log", "3.0.0"), c("psr", "log", "1.0.0")]);
    assert_eq!(plan.to_remove, vec![c("psr", "log", "1.0.0")]);
    assert_eq!(plan.referenced_count, 2);
}
