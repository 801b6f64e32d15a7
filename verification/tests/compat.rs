use phpm::autoload::{aggregate_autoload, aggregate_autoload_dev, AutoloadData, GenError, PathBase};
use phpm::lockfile::{Autoload, ComposerJson};
use phpm::php_emit::{render_classmap_php, render_files_php, render_psr0_php, render_psr4_php};
use phpm::strmap::StrMap;

fn psr4(map: &[(&str, &str)]) -> StrMap<Vec<String>> {
    let mut m = StrMap::new();
    for (k, v) in map {
        m.insert(k.to_string(), vec![v.to_string()]);
    }
    m
}

#[test]
fn gen_error_is_constructible() {
    let e = GenError::Io(std::io::Error::other("x"));
    assert!(matches!(e, GenError::Io(_)));
}

#[test]
fn aggregates_root_and_dependency_psr4_with_correct_base() {
    let root = ComposerJson {
        name: "acme/app".into(),
        autoload: Autoload { psr4: psr4(&[("App\\", "app/")]), ..Default::default() },
        ..Default::default()
    };
    let dep = ComposerJson {
        name: "monolog/monolog".into(),
        autoload: Autoload { psr4: psr4(&[("Monolog\\", "src/Monolog")]), ..Default::default() },
        ..Default::default()
    };

    let mut data = AutoloadData::default();
    aggregate_autoload(&mut data, &root, PathBase::Base, None);
    aggregate_autoload(&mut data, &dep, PathBase::Vendor, Some("monolog/monolog"));

    assert_eq!(data.psr4.get("App\\").unwrap(), &vec![PathBase::Base.join("app")]);
    assert_eq!(
        data.psr4.get("Monolog\\").unwrap(),
        &vec![PathBase::Vendor.join("monolog/monolog/src/Monolog")]
    );
}

#[test]
fn aggregates_files_with_dependency_prefix() {
    let dep = ComposerJson {
        name: "acme/helpers".into(),
        autoload: Autoload { files: vec!["src/helpers.php".into()], ..Default::default() },
        ..Default::default()
    };
    let mut data = AutoloadData::default();
    aggregate_autoload(&mut data, &dep, PathBase::Vendor, Some("acme/helpers"));
    assert_eq!(data.files, vec![PathBase::Vendor.join("acme/helpers/src/helpers.php")]);
}

#[test]
fn path_base_join_handles_empty_and_slashes() {
    assert_eq!(PathBase::Vendor.join(""), "$vendorDir");
    assert_eq!(PathBase::Base.join("/app/"), "$baseDir/app");
    assert_eq!(PathBase::Vendor.join("a/b"), "$vendorDir/a/b");
}

#[test]
fn psr4_php_is_valid_array_with_base_vars() {
    let mut psr4: StrMap<Vec<String>> = StrMap::new();
    psr4.insert("App\\".into(), vec![PathBase::Base.join("app")]);
    psr4.insert("Monolog\\".into(), vec![PathBase::Vendor.join("monolog/monolog/src/Monolog")]);

    let php = render_psr4_php(&psr4);
    assert!(php.starts_with("<?php"));
    assert!(php.contains("$vendorDir = dirname(__DIR__);"));
    assert!(php.contains("$baseDir = dirname($vendorDir);"));
    assert!(php.contains("'App\\\\' => array($baseDir . '/app'),"));
    assert!(php.contains("'Monolog\\\\' => array($vendorDir . '/monolog/monolog/src/Monolog'),"));
}

#[test]
fn files_php_keys_by_stable_identifier() {
    let files = vec![PathBase::Vendor.join("acme/helpers/src/helpers.php")];
    let php = render_files_php(&files);
    assert!(php.starts_with("<?php"));
    assert!(php.contains("=> $vendorDir . '/acme/helpers/src/helpers.php',"));
}

#[test]
fn classmap_php_maps_class_to_path() {
    let mut cm: StrMap<String> = StrMap::new();
    cm.insert("Acme\\Greet\\Hello".into(), PathBase::Vendor.join("acme/greet/src/Hello.php"));
    let php = render_classmap_php(&cm);
    assert!(php.contains("'Acme\\\\Greet\\\\Hello' => $vendorDir . '/acme/greet/src/Hello.php',"));
}

#[test]
fn psr4_entries_of_two_packages_accumulate_in_order() {
    let a = ComposerJson {
        name: "a/a".into(),
        autoload: Autoload { psr4: psr4(&[("Shared\\", "src")]), ..Default::default() },
        ..Default::default()
    };
    let b = ComposerJson {
        name: "b/b".into(),
        autoload: Autoload { psr4: psr4(&[("Shared\\", "lib/")]), ..Default::default() },
        ..Default::default()
    };
    let mut data = AutoloadData::default();
    aggregate_autoload(&mut data, &a, PathBase::Vendor, Some("a/a"));
    aggregate_autoload(&mut data, &b, PathBase::Vendor, Some("b/b"));
    assert_eq!(
        data.psr4.get("Shared\\").unwrap(),
        &vec!["$vendorDir/a/a/src".to_string(), "$vendorDir/b/b/lib".to_string()]
    );
}

#[test]
fn root_autoload_dev_uses_base_dir() {
    let root = ComposerJson {
        name: "acme/app".into(),
        autoload_dev: Autoload {
            psr4: psr4(&[("Tests\\", "tests/")]),
            classmap: vec!["database/".into()],
            ..Default::default()
        },
        ..Default::default()
    };
    let mut data = AutoloadData::default();
    aggregate_autoload_dev(&mut data, &root, PathBase::Base, None);
    assert_eq!(data.psr4.get("Tests\\").unwrap(), &vec!["$baseDir/tests".to_string()]);
    assert_eq!(data.classmap_dirs, vec!["$baseDir/database".to_string()]);
    assert!(data.files.is_empty());
}

#[test]
fn psr0_php_uses_its_own_header() {
    let mut psr0: StrMap<Vec<String>> = StrMap::new();
    psr0.insert("Twig_".into(), vec![PathBase::Vendor.join("twig/twig/lib")]);
    let php = render_psr0_php(&psr0);
    assert!(php.starts_with("<?php\n\n// autoload_namespaces.php"));
    assert!(php.contains("'Twig_' => array($vendorDir . '/twig/twig/lib'),"));
    assert!(php.ends_with(");\n"));
}

#[test]
fn psr4_php_escapes_quotes_in_paths() {
    let mut psr4: StrMap<Vec<String>> = StrMap::new();
    psr4.insert("A\\".into(), vec!["$baseDir/it's".to_string()]);
    let php = render_psr4_php(&psr4);
    assert!(php.contains("'A\\\\' => array($baseDir . '/it\\'s'),"));
}

#[test]
fn empty_maps_render_an_empty_array() {
    let php = render_psr4_php(&StrMap::new());
    assert_eq!(
        php,
        "<?php\n\n// autoload_psr4.php\n\n$vendorDir = dirname(__DIR__);\n$baseDir = dirname($vendorDir);\n\nreturn array(\n);\n"
    );
}
