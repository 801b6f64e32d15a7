use phpm::store::{owner_writable_mode, path_join, read_only_mode, tree_digest, PackageCoords, Store, StoreError};

fn coords() -> PackageCoords {
    PackageCoords {
        vendor: "monolog".into(),
        package: "monolog".into(),
        version: "3.8.1".into(),
    }
}

#[test]
fn package_path_follows_layout() {
    let store = Store::new("/tmp/phpm-store");
    let p = store.package_path(&coords());
    assert!(p.ends_with("packages/monolog/monolog/3.8.1"));
    assert_eq!(p, "/tmp/phpm-store/packages/monolog/monolog/3.8.1");
}

#[test]
fn coords_from_composer_name_splits_on_slash() {
    let c = PackageCoords::from_name("monolog/monolog", "3.8.1").unwrap();
    assert_eq!(c.vendor, "monolog");
    assert_eq!(c.package, "monolog");
    assert_eq!(c.version, "3.8.1");
    // nome de plataforma sem barra → None
    assert!(PackageCoords::from_name("php", "8.2").is_none());
}

#[test]
fn meta_path_preserves_full_version() {
    let store = Store::new("/tmp/phpm-store");
    let p = store.meta_path(&coords());
    // Must end with the full version "3.8.1.json", NOT "3.8.json"
    assert!(p.ends_with("meta/monolog/monolog/3.8.1.json"), "meta_path was: {}", p);
}

#[test]
fn from_name_rejects_malformed_names() {
    assert!(PackageCoords::from_name("ext-json", "1").is_none());
    assert!(PackageCoords::from_name("/pkg", "1").is_none());
    assert!(PackageCoords::from_name("vendor/", "1").is_none());
    assert!(PackageCoords::from_name("a/b/c", "1").is_none());
}

#[test]
fn lock_and_staging_paths_are_flat_names() {
    let store = Store::new("/s");
    assert_eq!(store.lock_file_path(&coords()), "/s/locks/monolog__monolog__3.8.1.lock");
    assert_eq!(store.staging_path(&coords()), "/s/tmp/monolog__monolog__3.8.1.staging");
    assert_eq!(
        store.classmap_cache_path(&coords()),
        "/s/meta/monolog/monolog/3.8.1.classmap.json"
    );
    assert_eq!(coords().label(), "monolog/monolog@3.8.1");
}

#[test]
fn path_join_like_std() {
    assert_eq!(path_join("a", "b"), "a/b");
    assert_eq!(path_join("a/", "b"), "a/b");
    assert_eq!(path_join("", "b"), "b");
    assert_eq!(path_join("a", "/b"), "/b");
}

#[test]
fn tree_digest_of_one_file() {
    let d = tree_digest(vec![("a.txt".to_string(), b"hi".to_vec())]);
    assert_eq!(d, "d94190b242cc00cb896909e8322401c230fef8ea9403e8b99073e759b5e80616");
}

#[test]
fn tree_digest_of_empty_tree_is_sha256_of_nothing() {
    assert_eq!(
        tree_digest(vec![]),
        "e3b0c44298fc1c149afbf4c8996fb92427ae41e4649b934ca495991b7852b855"
    );
}

#[test]
fn tree_digest_ignores_listing_order_and_separator_style() {
    let expected = "ecac65df85251567b2f25f25328417d9b8e3540a57f5400e1a2d30d00b497520";
    let a = tree_digest(vec![
        ("a/b.php".to_string(), b"x".to_vec()),
        ("c.txt".to_string(), b"yz".to_vec()),
    ]);
    let b = tree_digest(vec![
        ("c.txt".to_string(), b"yz".to_vec()),
        ("a\\b.php".to_string(), b"x".to_vec()),
    ]);
    assert_eq!(a, expected);
    assert_eq!(b, expected);
}

#[test]
fn verify_reports_missing_meta_integrity_and_json_errors() {
    let files = vec![("a.txt".to_string(), b"hi".to_vec())];
    let good = r#"{"name":"monolog/monolog","version":"3.8.1","sha256":"d94190b242cc00cb896909e8322401c230fef8ea9403e8b99073e759b5e80616"}"#;
    assert!(Store::verify(&coords(), Some(good), files.clone()).is_ok());

    match Store::verify(&coords(), None, files.clone()) {
        Err(StoreError::MissingMeta(s)) => assert_eq!(s, "monolog/monolog@3.8.1"),
        other => panic!("unexpected {:?}", other),
    }
    match Store::verify(&coords(), Some(r#"{"sha256":"00"}"#), files.clone()) {
        Err(StoreError::Integrity { expected, actual }) => {
            assert_eq!(expected, "00");
            assert_eq!(actual, "d94190b242cc00cb896909e8322401c230fef8ea9403e8b99073e759b5e80616");
        }
        other => panic!("unexpected {:?}", other),
    }
    assert!(matches!(Store::verify(&coords(), Some("nope"), files.clone()), Err(StoreError::Json(_))));
    assert!(matches!(Store::verify(&coords(), Some(r#"{"sha":"x"}"#), files), Err(StoreError::Json(_))));
}

#[test]
fn write_check_refuses_complete_and_clears_partial() {
    match Store::write_check(&coords(), true, true) {
        Err(StoreError::AlreadyExists(s)) => assert_eq!(s, "monolog/monolog@3.8.1"),
        other => panic!("unexpected {:?}", other),
    }
    assert!(matches!(Store::write_check(&coords(), true, false), Ok(true)));
    assert!(matches!(Store::write_check(&coords(), false, false), Ok(false)));
    assert!(matches!(Store::write_check(&coords(), false, true), Ok(false)));
}

#[test]
fn permission_bits() {
    assert_eq!(read_only_mode(0o755), 0o555);
    assert_eq!(read_only_mode(0o666), 0o444);
    assert_eq!(owner_writable_mode(0o444), 0o644);
    assert_eq!(owner_writable_mode(0o755), 0o755);
}

#[test]
fn verify_reads_the_array_form_of_meta() {
    let files = vec![("a.txt".to_string(), b"hi".to_vec())];
    let arr = r#"["d94190b242cc00cb896909e8322401c230fef8ea9403e8b99073e759b5e80616"]"#;
    assert!(Store::verify(&coords(), Some(arr), files.clone()).is_ok());
    assert!(matches!(Store::verify(&coords(), Some(r#"["a","b"]"#), files), Err(StoreError::Json(_))));
}

#[test]
fn meta_json_lays_out_name_version_and_digest() {
    assert_eq!(
        Store::meta_json(&coords(), "abc"),
        "{\n  \"name\": \"monolog/monolog\",\n  \"version\": \"3.8.1\",\n  \"sha256\": \"abc\"\n}"
    );
}

#[test]
fn meta_written_for_a_tree_verifies_it() {
    let files = vec![("src/A.php".to_string(), b"<?php class A {}".to_vec()), ("x".to_string(), vec![0u8, 255])];
    let digest = tree_digest(files.clone());
    let meta = Store::meta_json(&coords(), &digest);
    assert!(Store::verify(&coords(), Some(&meta), files.clone()).is_ok());
    assert_eq!(Store::recorded_sha256(&coords(), Some(&meta)).unwrap(), digest);
    let changed = vec![("src/A.php".to_string(), b"<?php class B {}".to_vec()), ("x".to_string(), vec![0u8, 255])];
    assert!(matches!(Store::verify(&coords(), Some(&meta), changed), Err(StoreError::Integrity { .. })));
}
