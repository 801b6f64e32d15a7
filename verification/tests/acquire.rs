use phpm::acquire::{extraction_plan, fetch_dist, git_plan, route, unpack_dist, verify_sha1, AcquireError, Fetcher, Route, ZipEntry};
use phpm::lockfile::parse_lock;
use phpm::lockfile::{Dist, Source};
use phpm::store::PackageCoords;
use std::io::Write;

/// Fetcher de teste que devolve bytes fixos, sem rede.
struct StaticFetcher {
    bytes: Vec<u8>,
}

impl Fetcher for StaticFetcher {
    fn fetch(&self, _url: &str) -> Result<Vec<u8>, AcquireError> {
        Ok(self.bytes.clone())
    }
}

#[test]
fn static_fetcher_returns_bytes() {
    let f = StaticFetcher { bytes: vec![1, 2, 3] };
    assert_eq!(f.fetch("http://x").unwrap(), vec![1, 2, 3]);
}

fn coords() -> PackageCoords {
    PackageCoords { vendor: "acme".into(), package: "greet".into(), version: "1.0.0".into() }
}

fn zip_of(entries: &[(&str, &[u8])], dirs: &[&str], links: &[(&str, &str)]) -> Vec<u8> {
    let mut w = zip::ZipWriter::new(std::io::Cursor::new(Vec::new()));
    let opts = zip::write::SimpleFileOptions::default();
    for d in dirs {
        w.add_directory(*d, opts).unwrap();
    }
    for (name, data) in entries {
        w.start_file(*name, opts).unwrap();
        w.write_all(data).unwrap();
    }
    for (name, target) in links {
        w.add_symlink(*name, *target, opts).unwrap();
    }
    w.finish().unwrap().into_inner()
}

#[test]
fn verify_sha1_skips_empty_and_ignores_case() {
    assert!(verify_sha1(b"abc", "").is_ok());
    assert!(verify_sha1(b"abc", "a9993e364706816aba3e25717850c26c9cd0d89d").is_ok());
    assert!(verify_sha1(b"abc", "A9993E364706816ABA3E25717850C26C9CD0D89D").is_ok());
}

#[test]
fn verify_sha1_mismatch_names_both_digests() {
    match verify_sha1(&[1, 2, 3], "ABC") {
        Err(AcquireError::Shasum { expected, actual }) => {
            assert_eq!(expected, "ABC");
            assert_eq!(actual, "7037807198c22a7d2b0807371d763779a84fdfcf");
        }
        other => panic!("unexpected {:?}", other),
    }
}

#[test]
fn unpack_strips_the_single_root_directory() {
    let bytes = zip_of(
        &[("acme-greet-123/src/X.php", b"<?php class X {}"), ("acme-greet-123/composer.json", b"{}")],
        &["acme-greet-123/"],
        &[],
    );
    let plan = unpack_dist(&bytes, "").unwrap();
    let got: Vec<(String, bool, Vec<u8>)> =
        plan.into_iter().map(|p| (p.rel, p.is_dir, p.data)).collect();
    assert_eq!(
        got,
        vec![
            ("src/X.php".to_string(), false, b"<?php class X {}".to_vec()),
            ("composer.json".to_string(), false, b"{}".to_vec()),
        ]
    );
}

#[test]
fn unpack_keeps_names_without_a_shared_root() {
    let bytes = zip_of(&[("a/x.txt", b"1"), ("b/y.txt", b"2")], &[], &[]);
    let plan = unpack_dist(&bytes, "").unwrap();
    let rels: Vec<String> = plan.into_iter().map(|p| p.rel).collect();
    assert_eq!(rels, vec!["a/x.txt".to_string(), "b/y.txt".to_string()]);
}

#[test]
fn unpack_rejects_symlinks_and_bad_archives() {
    let bytes = zip_of(&[("r/a.txt", b"1")], &[], &[("r/link", "/etc/passwd")]);
    match unpack_dist(&bytes, "") {
        Err(AcquireError::Zip(m)) => assert_eq!(m, "symlink rejected: r/link"),
        other => panic!("unexpected {:?}", other),
    }
    assert!(matches!(unpack_dist(b"not a zip", ""), Err(AcquireError::Zip(_))));
    let good = zip_of(&[("r/a.txt", b"1")], &[], &[]);
    assert!(matches!(unpack_dist(&good, "0000"), Err(AcquireError::Shasum { .. })));
}

#[test]
fn extraction_rejects_unsafe_names() {
    let entries = vec![
        ZipEntry { name: "r/ok.txt".into(), is_dir: false, is_symlink: false, enclosed: true, data: Ok(vec![1]) },
        ZipEntry { name: "r/../../evil".into(), is_dir: false, is_symlink: false, enclosed: false, data: Ok(vec![]) },
    ];
    match extraction_plan(&entries) {
        Err(AcquireError::Zip(m)) => assert_eq!(m, "unsafe entry: r/../../evil"),
        other => panic!("unexpected {:?}", other),
    }
}

#[test]
fn extraction_marks_directories() {
    let entries = vec![
        ZipEntry { name: "r/".into(), is_dir: true, is_symlink: false, enclosed: true, data: Ok(vec![]) },
        ZipEntry { name: "r/src/".into(), is_dir: false, is_symlink: false, enclosed: true, data: Ok(vec![]) },
        ZipEntry { name: "r/src/a.php".into(), is_dir: false, is_symlink: false, enclosed: true, data: Ok(vec![7]) },
    ];
    let plan = extraction_plan(&entries).unwrap();
    let got: Vec<(String, bool)> = plan.iter().map(|p| (p.rel.clone(), p.is_dir)).collect();
    assert_eq!(got, vec![("src/".to_string(), true), ("src/a.php".to_string(), false)]);
}

fn dist(t: &str, url: Option<&str>) -> Dist {
    Dist { dist_type: t.into(), url: url.map(|s| s.to_string()), reference: "r".into(), shasum: "".into() }
}

#[test]
fn fetch_dist_needs_a_url_and_a_zip() {
    let f = StaticFetcher { bytes: zip_of(&[("r/a.txt", b"hello")], &[], &[]) };
    match fetch_dist(&f, &coords(), &dist("zip", None)) {
        Err(AcquireError::NoSource(s)) => assert_eq!(s, "acme/greet@1.0.0"),
        other => panic!("unexpected {:?}", other),
    }
    match fetch_dist(&f, &coords(), &dist("tar", Some("http://x"))) {
        Err(AcquireError::Zip(m)) => assert_eq!(m, "tipo de dist não suportado: 'tar' (apenas zip no M2)"),
        other => panic!("unexpected {:?}", other),
    }
    let plan = fetch_dist(&f, &coords(), &dist("ZIP", Some("http://x"))).unwrap();
    assert_eq!(plan.len(), 1);
    assert_eq!(plan[0].rel, "a.txt");
    assert_eq!(plan[0].data, b"hello".to_vec());
}

fn source(url: Option<&str>, reference: &str, t: &str) -> Source {
    Source { source_type: t.into(), url: url.map(|s| s.to_string()), reference: reference.into() }
}

#[test]
fn git_plan_clones_then_checks_out() {
    let p = git_plan(&coords(), &source(Some("https://g/x.git"), "abc123", "Git"), "/tmp/co").unwrap();
    assert_eq!(
        p.clone_args,
        vec!["-c", "protocol.ext.allow=never", "clone", "--quiet", "--", "https://g/x.git", "/tmp/co"]
    );
    assert_eq!(
        p.checkout_args.unwrap(),
        vec!["-c", "advice.detachedHead=false", "checkout", "--quiet", "abc123", "--"]
    );
    let p = git_plan(&coords(), &source(Some("https://g/x.git"), "", "git"), "/tmp/co").unwrap();
    assert!(p.checkout_args.is_none());
}

#[test]
fn git_plan_refuses_option_like_input() {
    match git_plan(&coords(), &source(Some("--upload-pack=x"), "", "git"), "/c") {
        Err(AcquireError::Git(m)) => assert_eq!(m, "git url rejected (starts with '-'): --upload-pack=x"),
        other => panic!("unexpected {:?}", other),
    }
    match git_plan(&coords(), &source(Some("u"), "-x", "git"), "/c") {
        Err(AcquireError::Git(m)) => assert_eq!(m, "git reference rejected (starts with '-'): -x"),
        other => panic!("unexpected {:?}", other),
    }
    match git_plan(&coords(), &source(Some("u"), "r", "hg"), "/c") {
        Err(AcquireError::Git(m)) => assert_eq!(m, "unsupported source type: 'hg' (only git in M2)"),
        other => panic!("unexpected {:?}", other),
    }
    assert!(matches!(
        git_plan(&coords(), &source(None, "r", "git"), "/c"),
        Err(AcquireError::NoSource(_))
    ));
}

#[test]
fn route_prefers_a_dist_with_url_then_git() {
    let lock = parse_lock(
        r#"{"packages":[
            {"name":"php","version":"8.2"},
            {"name":"a/dist","version":"1","dist":{"type":"zip","url":"u"},"source":{"type":"git","url":"g"}},
            {"name":"a/git","version":"1","dist":{"type":"zip"},"source":{"type":"git","url":"g"}},
            {"name":"a/bare","version":"1","dist":{"type":"zip"}},
            {"name":"a/none","version":"1"}
        ]}"#,
    )
    .unwrap();
    let got: Vec<Route> = lock.packages.iter().map(route).collect();
    assert_eq!(got, vec![Route::Platform, Route::Dist, Route::Git, Route::Dist, Route::NoSource]);
}

#[test]
fn unreadable_file_fails_in_order_after_earlier_checks() {
    let entries = vec![
        ZipEntry { name: "r/a.txt".into(), is_dir: false, is_symlink: false, enclosed: true, data: Err("bad crc".into()) },
        ZipEntry { name: "r/../x".into(), is_dir: false, is_symlink: false, enclosed: false, data: Ok(vec![]) },
    ];
    match extraction_plan(&entries) {
        Err(AcquireError::Zip(m)) => assert_eq!(m, "bad crc"),
        other => panic!("unexpected {:?}", other),
    }
    let entries = vec![
        ZipEntry { name: "r/../x".into(), is_dir: false, is_symlink: false, enclosed: false, data: Ok(vec![]) },
        ZipEntry { name: "r/a.txt".into(), is_dir: false, is_symlink: false, enclosed: true, data: Err("bad crc".into()) },
    ];
    match extraction_plan(&entries) {
        Err(AcquireError::Zip(m)) => assert_eq!(m, "unsafe entry: r/../x"),
        other => panic!("unexpected {:?}", other),
    }
    // A directory's content is never read.
    let entries = vec![ZipEntry { name: "r/d/".into(), is_dir: true, is_symlink: false, enclosed: true, data: Err("x".into()) }];
    let plan = extraction_plan(&entries).unwrap();
    assert_eq!(plan.len(), 1);
    assert!(plan[0].is_dir && plan[0].data.is_empty());
}
