use phpm::linker::{
    file_action, is_package_dir, link_mode, same_volume, sentinel_hash, sentinel_key, stale_packages,
    sync_is_noop, sync_targets, FileAction, LinkMode, SyncReport,
};
use phpm::lockfile::{parse_lock, ComposerLock};
use phpm::store::PackageCoords;

fn lock(hash: &str, dev: bool) -> ComposerLock {
    let text = if dev {
        format!(
            r#"{{"content-hash":"{}","packages":[{{"name":"a/b","version":"1"}}],"packages-dev":[{{"name":"c/d","version":"2"}}]}}"#,
            hash
        )
    } else {
        format!(r#"{{"content-hash":"{}","packages":[{{"name":"a/b","version":"1"}},{{"name":"php","version":"8"}}]}}"#, hash)
    };
    parse_lock(&text).unwrap()
}

#[test]
fn sentinel_key_encodes_hash_and_dev_presence() {
    assert_eq!(sentinel_key(&lock("h1", true)), "h1|dev=true");
    assert_eq!(sentinel_key(&lock("h1", false)), "h1|dev=false");
}

#[test]
fn sync_is_noop_only_for_the_recorded_key() {
    let l = lock("h1", false);
    assert!(sync_is_noop(&l, &Some("h1|dev=false".to_string())));
    assert!(!sync_is_noop(&l, &Some("h1|dev=true".to_string())));
    assert!(!sync_is_noop(&l, &None));
    // An empty content hash is never trusted.
    let empty = lock("", false);
    assert!(!sync_is_noop(&empty, &Some("|dev=false".to_string())));
}

#[test]
fn sentinel_hash_reads_state_files() {
    assert_eq!(sentinel_hash(r#"{"content_hash":"h1|dev=true"}"#), Some("h1|dev=true".to_string()));
    assert_eq!(sentinel_hash(r#"{"content_hash":1}"#), None);
    assert_eq!(sentinel_hash("garbage"), None);
    assert_eq!(sentinel_hash(r#"{"other":"x"}"#), None);
    assert_eq!(sentinel_hash(r#"["h2"]"#), Some("h2".to_string()));
    assert_eq!(sentinel_hash(r#"["h2","x"]"#), None);
}

#[test]
fn sync_targets_skip_platform_packages() {
    let t = sync_targets(&lock("h", true));
    assert_eq!(
        t,
        vec![
            PackageCoords { vendor: "a".into(), package: "b".into(), version: "1".into() },
            PackageCoords { vendor: "c".into(), package: "d".into(), version: "2".into() },
        ]
    );
    assert_eq!(sync_targets(&lock("h", false)).len(), 1);
}

#[test]
fn stale_packages_are_those_no_target_names() {
    let targets = sync_targets(&lock("h", false));
    let current = vec![
        ("a".to_string(), "b".to_string()),
        ("old".to_string(), "pkg".to_string()),
        ("a".to_string(), "c".to_string()),
    ];
    assert_eq!(
        stale_packages(&current, &targets),
        vec![("old".to_string(), "pkg".to_string()), ("a".to_string(), "c".to_string())]
    );
}

#[test]
fn reserved_vendor_dirs_are_not_packages() {
    assert!(!is_package_dir("composer"));
    assert!(!is_package_dir("bin"));
    assert!(!is_package_dir(".phpm-state"));
    assert!(is_package_dir("monolog"));
}

#[test]
fn link_modes_and_file_actions() {
    assert!(same_volume(7, 7));
    assert!(!same_volume(7, 8));
    assert_eq!(link_mode(Some(true)), LinkMode::HardLink);
    assert_eq!(link_mode(Some(false)), LinkMode::Copy);
    assert_eq!(link_mode(None), LinkMode::Copy);
    assert_eq!(file_action(LinkMode::HardLink, true), FileAction::Keep);
    assert_eq!(file_action(LinkMode::HardLink, false), FileAction::Link);
    assert_eq!(file_action(LinkMode::Copy, true), FileAction::Copy);
}

#[test]
fn sync_report_default_is_zero() {
    assert_eq!(SyncReport::default(), SyncReport { materialized: 0, removed: 0, no_op: false });
}

#[test]
fn sentinel_json_reads_back() {
    let body = phpm::linker::sentinel_json("h\"1|dev=true");
    assert_eq!(body, "{\"content_hash\":\"h\\\"1|dev=true\"}");
    assert_eq!(sentinel_hash(&body), Some("h\"1|dev=true".to_string()));
}
