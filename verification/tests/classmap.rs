use phpm::classmap::{cached_classmap, classes_in_source, is_php_file, rebase, scan_php_classes};
use phpm::store::PackageCoords;

#[test]
fn finds_namespaced_declarations() {
    let src = "<?php\nnamespace Acme\\Greet;\n\nfinal class Hello {}\ninterface Greeter {}\nenum Level: string {}\n// class Commented {}\n";
    assert_eq!(
        classes_in_source(src),
        vec!["Acme\\Greet\\Hello".to_string(), "Acme\\Greet\\Greeter".to_string(), "Acme\\Greet\\Level".to_string()]
    );
}

#[test]
fn skips_heredoc_bodies() {
    let src = "<?php\n$x = <<<EOT\nclass NotAClass {}\nEOT;\nclass Real {}\n";
    assert_eq!(classes_in_source(src), vec!["Real".to_string()]);
}

#[test]
fn php_extension_rule() {
    assert!(is_php_file("src/A.php"));
    assert!(is_php_file("a.b.php"));
    assert!(!is_php_file(".php"));
    assert!(!is_php_file("dir/.php"));
    assert!(!is_php_file("README.md"));
    assert!(!is_php_file("x.phps"));
}

#[test]
fn scan_maps_classes_to_files_later_files_win() {
    let files = vec![
        ("src/A.php".to_string(), Some("<?php\nclass A {}\nclass Shared {}".to_string())),
        ("notes.txt".to_string(), Some("class NotPhp {}".to_string())),
        ("bin\\B.php".to_string(), Some("<?php\nnamespace N;\nclass B {}".to_string())),
        ("broken.php".to_string(), None),
        ("src/Shared.php".to_string(), Some("<?php\nclass Shared {}".to_string())),
    ];
    let m = scan_php_classes(&files);
    assert_eq!(m.len(), 3);
    assert_eq!(classes_in_source("<?php class Inline {}"), Vec::<String>::new());
    assert_eq!(m.get("A").unwrap(), "src/A.php");
    assert_eq!(m.get("Shared").unwrap(), "src/Shared.php");
    assert!(m.get("NotPhp").is_none());
    assert_eq!(m.get("N\\B").unwrap(), "bin/B.php");
}

#[test]
fn scan_normalizes_separators() {
    let files = vec![("lib\\C.php".to_string(), Some("<?php\nclass C {}\n".to_string()))];
    let m = scan_php_classes(&files);
    assert_eq!(m.get("C").unwrap(), "lib/C.php");
}

#[test]
fn rebase_prefixes_the_package_directory() {
    let files = vec![("src/A.php".to_string(), Some("<?php\nclass A {}\n".to_string()))];
    let m = scan_php_classes(&files);
    let c = PackageCoords { vendor: "acme".into(), package: "greet".into(), version: "1".into() };
    let r = rebase(&m, &c);
    assert_eq!(r.get("A").unwrap(), "$vendorDir/acme/greet/src/A.php");
}

#[test]
fn cache_reads_objects_of_strings_only() {
    let m = cached_classmap(r#"{"A":"src/A.php","B\\C":"src/C.php"}"#).unwrap();
    assert_eq!(m.get("B\\C").unwrap(), "src/C.php");
    assert!(cached_classmap(r#"{"A":1}"#).is_none());
    assert!(cached_classmap("[]").is_none());
    assert!(cached_classmap("nope").is_none());
}
