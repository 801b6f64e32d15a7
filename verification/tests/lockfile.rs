use phpm::lockfile::{parse_json, parse_lock, LockError};

const APP: &str = r#"{
    "name": "laravel/laravel",
    "type": "project",
    "require": {
        "php": "^8.2",
        "laravel/framework": "^11.0"
    },
    "require-dev": {
        "phpunit/phpunit": "^11.0"
    },
    "autoload": {
        "psr-4": {
            "App\\": "app/",
            "Database\\Factories\\": ["database/factories/", "extra/factories/"]
        },
        "files": ["app/helpers.php"],
        "classmap": ["app/Legacy"]
    },
    "autoload-dev": {
        "psr-4": {"Tests\\": "tests/"}
    },
    "bin": "bin/console",
    "scripts": {
        "post-autoload-dump": [
            "Illuminate\\Foundation\\ComposerScripts::postAutoloadDump",
            "@php artisan package:discover --ansi"
        ]
    }
}"#;

const MINIMAL: &str = r#"{
    "content-hash": "a1b2c3d4e5f6",
    "packages": [
        {
            "name": "monolog/monolog",
            "version": "3.8.1",
            "type": "library",
            "dist": {
                "type": "zip",
                "url": "https://api.github.com/repos/Seldaek/monolog/zipball/aef6ee73",
                "reference": "aef6ee73a77a66e404dd6540934a9ef1b3c855b4",
                "shasum": ""
            }
        }
    ],
    "packages-dev": [],
    "plugin-api-version": "2.6.0"
}"#;

#[test]
fn parses_require_and_dev() {
    let cj = parse_json(APP).expect("deve parsear");
    assert_eq!(cj.require.get("laravel/framework").map(String::as_str), Some("^11.0"));
    assert_eq!(cj.require.get("php").map(String::as_str), Some("^8.2"));
    assert_eq!(cj.require_dev.get("phpunit/phpunit").map(String::as_str), Some("^11.0"));
}

#[test]
fn parses_psr4_string_and_array() {
    let cj = parse_json(APP).expect("deve parsear");
    let psr4 = &cj.autoload.psr4;
    assert_eq!(psr4.get("App\\").unwrap().as_slice(), &["app/".to_string()]);
    assert_eq!(
        psr4.get("Database\\Factories\\").unwrap().as_slice(),
        &["database/factories/".to_string(), "extra/factories/".to_string()]
    );
}

#[test]
fn parses_files_classmap_scripts_bin() {
    let cj = parse_json(APP).expect("deve parsear");
    assert_eq!(cj.autoload.files, vec!["app/helpers.php".to_string()]);
    assert_eq!(cj.autoload.classmap, vec!["app/Legacy".to_string()]);
    assert_eq!(cj.bin, vec!["bin/console".to_string()]);
    let pad = cj.scripts.get("post-autoload-dump").expect("tem hook");
    assert_eq!(pad.len(), 2);
    assert_eq!(pad[1], "@php artisan package:discover --ansi");
}

#[test]
fn parses_content_hash() {
    let lock = parse_lock(MINIMAL).expect("deve parsear");
    assert_eq!(lock.content_hash, "a1b2c3d4e5f6");
}

#[test]
fn parses_locked_package_fields() {
    let lock = parse_lock(MINIMAL).unwrap();
    assert_eq!(lock.packages.len(), 1);
    let p = &lock.packages[0];
    assert_eq!(p.name, "monolog/monolog");
    assert_eq!(p.version, "3.8.1");
    assert_eq!(p.package_type, "library");
    let d = p.dist.as_ref().unwrap();
    assert_eq!(d.dist_type, "zip");
    assert_eq!(d.url.as_deref(), Some("https://api.github.com/repos/Seldaek/monolog/zipball/aef6ee73"));
    assert_eq!(d.shasum, "");
    assert!(p.source.is_none());
    assert!(lock.packages_dev.is_empty());
    assert_eq!(lock.plugin_api_version, "2.6.0");
}

#[test]
fn package_type_defaults_to_library() {
    let lock = parse_lock(r#"{"packages":[{"name":"a/b","version":"1.0"}]}"#).unwrap();
    assert_eq!(lock.packages[0].package_type, "library");
    assert_eq!(lock.content_hash, "");
}

#[test]
fn package_without_version_is_refused() {
    assert!(parse_lock(r#"{"packages":[{"name":"a/b"}]}"#).is_err());
}

#[test]
fn malformed_documents_are_json_errors() {
    assert!(matches!(parse_lock("{"), Err(LockError::Json(_))));
    assert!(matches!(parse_json("[1, 2]"), Err(LockError::Json(_))));
    assert!(matches!(parse_json(r#"{"require": {"a/b": 1}}"#), Err(LockError::Json(_))));
}

#[test]
fn missing_sections_default_to_empty() {
    let cj = parse_json("{}").unwrap();
    assert_eq!(cj.name, "");
    assert!(cj.require.is_empty());
    assert!(cj.scripts.is_empty());
    assert!(cj.bin.is_empty());
    assert!(cj.autoload.files.is_empty());
}

#[test]
fn bin_list_and_psr0() {
    let cj = parse_json(r#"{"bin":["a","b"],"autoload":{"psr-0":{"Twig_":"lib/"}}}"#).unwrap();
    assert_eq!(cj.bin, vec!["a".to_string(), "b".to_string()]);
    assert_eq!(cj.autoload.psr0.get("Twig_").unwrap(), &vec!["lib/".to_string()]);
}

#[test]
fn lock_reads_the_positional_array_form() {
    let lock = parse_lock(r#"["h1", [["a/b", "1.0", "library", ["zip", "https://x/y.zip", "ref"], null]]]"#)
        .unwrap();
    assert_eq!(lock.content_hash, "h1");
    assert_eq!(lock.packages.len(), 1);
    let p = &lock.packages[0];
    assert_eq!(p.name, "a/b");
    assert_eq!(p.version, "1.0");
    assert_eq!(p.package_type, "library");
    let d = p.dist.as_ref().unwrap();
    assert_eq!(d.dist_type, "zip");
    assert_eq!(d.url.as_deref(), Some("https://x/y.zip"));
    assert_eq!(d.reference, "ref");
    assert_eq!(d.shasum, "");
    assert!(p.source.is_none());
    assert!(lock.packages_dev.is_empty());
    assert_eq!(lock.plugin_api_version, "");
}

#[test]
fn positional_arrays_of_the_wrong_length_are_refused() {
    assert!(matches!(parse_lock(r#"["h", [["a/b", "1.0", "library", null]]]"#), Err(LockError::Json(_))));
    assert!(matches!(parse_lock(r#"["h", [], [], "2.6.0", "extra"]"#), Err(LockError::Json(_))));
    assert!(matches!(parse_json(r#"["n", {}, {}, {}, {}, {}, [], "extra"]"#), Err(LockError::Json(_))));
}

#[test]
fn composer_json_reads_the_positional_array_form() {
    let cj = parse_json(r#"["acme/app", {"a/b": "^1.0"}]"#).unwrap();
    assert_eq!(cj.name, "acme/app");
    assert_eq!(cj.require.get("a/b").map(String::as_str), Some("^1.0"));
    assert!(cj.require_dev.is_empty());
    assert!(cj.bin.is_empty());
    let empty = parse_json("[]").unwrap();
    assert_eq!(empty.name, "");
}
