//! Acquiring packages: a dist archive is fetched, checked against its sha1 and
//! unpacked into a plan of files (the archive's single root directory
//! stripped); a git source becomes the git invocations that check it out.
use vstd::prelude::*;
use vstd::string::StringExecFns;
use crate::lockfile::{opt_string_view, Dist, LockedPackage, Source};
use crate::store::{hex_encode, hex_lower, spec_label, spec_split_name, PackageCoords, StoreError};
use crate::text::{
    chars_of, concat, eq_ignore_ascii_case, eq_ignore_case, find, lemma_find_from, slice,
    starts_with_char, string_of,
};

verus! {

broadcast use vstd::string::group_string_axioms;

#[derive(Debug)]
pub enum AcquireError {
    Http(String),
    Shasum { expected: String, actual: String },
    Zip(String),
    Git(String),
    NoSource(String),
    Io(std::io::Error),
    Store(StoreError),
}

/// Where package archives come from (the network in production; tests hand
/// out bytes).
pub trait Fetcher {
    fn fetch(&self, url: &str) -> Result<Vec<u8>, AcquireError>;
}

// ----------------------------------------------------------------------------
// sha1

/// SHA-1 of a byte sequence.
pub uninterp spec fn sha1_of(data: Seq<u8>) -> Seq<u8>;

/// `sha1::Sha1::digest`: the SHA-1 digest of `data` (20 bytes).
#[verifier::external_body]
fn sha1_digest(data: &[u8]) -> (r: Vec<u8>)
    ensures
        r@ == sha1_of(data@),
        r@.len() == 20,
{
    <sha1::Sha1 as sha1::Digest>::digest(data).to_vec()
}

/// `str::to_lowercase` (Unicode lower case).
pub uninterp spec fn unicode_lowercase(s: Seq<char>) -> Seq<char>;

/// `str::to_lowercase`: the Unicode lower-case mapping of `s`, a function of
/// `s` alone.
#[verifier::external_body]
fn to_lowercase(s: &str) -> (r: String)
    ensures
        r@ == unicode_lowercase(s@),
{
    s.to_lowercase()
}

/// The lower-case hex sha1 of `bytes`.
pub open spec fn sha1_hex(bytes: Seq<u8>) -> Seq<char> {
    hex_lower(sha1_of(bytes))
}

/// Checks the sha1 of a dist archive against the `shasum` of composer.lock.
/// An empty `expected` (usual for GitHub zipballs) skips the check: the
/// extracted content is still pinned by the store's sha256.
pub fn verify_sha1(bytes: &[u8], expected: &str) -> (r: Result<(), AcquireError>)
    ensures
        (expected@.len() == 0 || sha1_hex(bytes@) == unicode_lowercase(expected@)) ==> r is Ok,
        (expected@.len() > 0 && sha1_hex(bytes@) != unicode_lowercase(expected@)) ==> (r matches Err(
            AcquireError::Shasum { expected: e, actual: a },
        ) && e@ == expected@ && a@ == sha1_hex(bytes@)),
{
    if expected.unicode_len() == 0 {
        return Ok(());
    }
    let digest = sha1_digest(bytes);
    let actual = hex_encode(digest.as_slice());
    let want = to_lowercase(expected);
    if actual == want {
        Ok(())
    } else {
        Err(AcquireError::Shasum { expected: <String as StringExecFns>::from_str(expected), actual })
    }
}

// ----------------------------------------------------------------------------
// Zip archives

/// One entry of a zip archive, as the `zip` crate reports it.
#[derive(Debug)]
pub struct ZipEntry {
    /// The name stored in the archive (may be absolute or hold `..`).
    pub name: String,
    pub is_dir: bool,
    pub is_symlink: bool,
    /// True when the name is a safe relative path (`enclosed_name` is Some).
    pub enclosed: bool,
    /// The decompressed content, or the crate's message when it cannot be read.
    pub data: Result<Vec<u8>, String>,
}

/// An entry as plain values: name, directory, symlink, safe name, content.
pub type ZipEntryView = (Seq<char>, bool, bool, bool, Result<Seq<u8>, Seq<char>>);

pub open spec fn entry_view(e: ZipEntry) -> ZipEntryView {
    (
        e.name@,
        e.is_dir,
        e.is_symlink,
        e.enclosed,
        match e.data {
            Ok(d) => Ok(d@),
            Err(m) => Err(m@),
        },
    )
}

pub open spec fn entry_views(v: Seq<ZipEntry>) -> Seq<ZipEntryView> {
    v.map_values(|e: ZipEntry| entry_view(e))
}

/// The entries that the `zip` crate reads from an archive, in archive order,
/// or None when it cannot read them.
pub uninterp spec fn zip_listing(bytes: Seq<u8>) -> Option<Seq<(Seq<char>, bool, bool, bool, Result<Seq<u8>, Seq<char>>)>>;

/// Reads every entry of a zip archive with `zip::ZipArchive`: per entry
/// `name()`, `is_dir()`, `is_symlink()`, `enclosed_name().is_some()` and the
/// decompressed content (or the message of the read that failed). The
/// contract claims that the outcome is a function of the bytes alone; an
/// archive or entry that cannot be opened is the crate's message.
#[verifier::external_body]
fn read_zip(bytes: &[u8]) -> (r: Result<Vec<ZipEntry>, String>)
    ensures
        r matches Ok(v) ==> zip_listing(bytes@) == Some(entry_views(v@)),
        r is Err ==> zip_listing(bytes@) is None,
{
    let mut archive = zip::ZipArchive::new(std::io::Cursor::new(bytes)).map_err(|e| e.to_string())?;
    let mut out = Vec::new();
    for i in 0..archive.len() {
        let mut f = archive.by_index(i).map_err(|e| e.to_string())?;
        let mut buf = Vec::new();
        let data = std::io::Read::read_to_end(&mut f, &mut buf).map(|_| buf).map_err(|e| e.to_string());
        let (name, enclosed) = (f.name().to_string(), f.enclosed_name().is_some());
        out.push(ZipEntry { name, is_dir: f.is_dir(), is_symlink: f.is_symlink(), enclosed, data });
    }
    Ok(out)
}

/// The first path component of an entry name, when the name has a `/` and
/// the part before it is not empty.
pub open spec fn first_component(name: Seq<char>) -> Option<Seq<char>> {
    match find(name, seq!['/']) {
        Some(k) => if k > 0 {
            Some(name.take(k))
        } else {
            None
        },
        None => None,
    }
}

/// `Some("<root>/")` when every name starts with the same first component
/// `<root>`; None otherwise, and for an archive without entries.
pub open spec fn common_root(names: Seq<Seq<char>>) -> Option<Seq<char>> {
    if names.len() > 0 && first_component(names[0]) is Some && forall|i: int|
        0 <= i < names.len() ==> #[trigger] first_component(names[i]) == first_component(names[0]) {
        Some(first_component(names[0])->0 + seq!['/'])
    } else {
        None
    }
}

/// The name relative to the stripped root.
pub open spec fn strip_root(name: Seq<char>, root: Option<Seq<char>>) -> Seq<char> {
    match root {
        Some(pre) => if pre.len() <= name.len() && name.take(pre.len() as int) == pre {
            name.skip(pre.len() as int)
        } else {
            name
        },
        None => name,
    }
}

/// A file or directory to create below the destination.
#[derive(Debug)]
pub struct PlannedEntry {
    pub rel: String,
    pub is_dir: bool,
    pub data: Vec<u8>,
}

pub open spec fn planned_view(p: PlannedEntry) -> (Seq<char>, bool, Seq<u8>) {
    (p.rel@, p.is_dir, p.data@)
}

pub open spec fn planned_views(v: Seq<PlannedEntry>) -> Seq<(Seq<char>, bool, Seq<u8>)> {
    v.map_values(|x: PlannedEntry| planned_view(x))
}

/// What extraction makes of the entries, in order: the first entry with an
/// unsafe name or a symlink, or the first file whose content cannot be read,
/// fails the whole archive (the message is returned); the root directory entry
/// itself is skipped; a name ending in `/` is a directory (its content is not
/// read).
pub open spec fn spec_extraction(
    es: Seq<ZipEntryView>,
    root: Option<Seq<char>>,
) -> Result<Seq<(Seq<char>, bool, Seq<u8>)>, Seq<char>>
    decreases es.len(),
{
    if es.len() == 0 {
        Ok(seq![])
    } else {
        match spec_extraction(es.drop_last(), root) {
            Err(m) => Err(m),
            Ok(done) => {
                let (name, is_dir, is_symlink, enclosed, data) = es.last();
                if !enclosed {
                    Err("unsafe entry: "@ + name)
                } else if is_symlink {
                    Err("symlink rejected: "@ + name)
                } else {
                    let rel = strip_root(name, root);
                    if rel.len() == 0 {
                        Ok(done)
                    } else if is_dir || (name.len() > 0 && name.last() == '/') {
                        Ok(done.push((rel, true, seq![])))
                    } else {
                        match data {
                            Ok(d) => Ok(done.push((rel, false, d))),
                            Err(m) => Err(m),
                        }
                    }
                }
            },
        }
    }
}

pub open spec fn names_of(es: Seq<ZipEntryView>) -> Seq<Seq<char>> {
    es.map_values(|e: ZipEntryView| e.0)
}

/// The plan for the whole archive.
pub open spec fn spec_unpack(es: Seq<ZipEntryView>) -> Result<
    Seq<(Seq<char>, bool, Seq<u8>)>,
    Seq<char>,
> {
    spec_extraction(es, common_root(names_of(es)))
}

fn first_component_exec(name: &str) -> (r: Option<Vec<char>>)
    ensures
        match first_component(name@) {
            Some(h) => r matches Some(v) && v@ == h,
            None => r is None,
        },
{
    let n = chars_of(name);
    let slash: Vec<char> = vec!['/'];
    assert(slash@ =~= seq!['/']);
    proof {
        lemma_find_from(n@, seq!['/'], 0);
    }
    match crate::text::find_from_exec(&n, &slash, 0) {
        Some(k) => {
            if k > 0 {
                let h = slice(&n, 0, k);
                assert(h@ =~= n@.take(k as int));
                Some(h)
            } else {
                None
            }
        },
        None => None,
    }
}

/// `Some("<root>/")` when all entries share their first component.
pub fn common_root_of(entries: &Vec<ZipEntry>) -> (r: Option<String>)
    ensures
        match common_root(names_of(entry_views(entries@))) {
            Some(p) => r matches Some(s) && s@ == p,
            None => r is None,
        },
{
    let ghost es = entry_views(entries@);
    let ghost names = names_of(es);
    assert(names.len() == entries@.len());
    assert forall|i: int| 0 <= i < entries@.len() implies #[trigger] names[i] == entries@[i].name@ by {
        assert(es[i] == entry_view(entries@[i]));
    }
    if entries.len() == 0 {
        return None;
    }
    let first = match first_component_exec(entries[0].name.as_str()) {
        Some(f) => f,
        None => {
            return None;
        },
    };
    let mut i: usize = 1;
    while i < entries.len()
        invariant
            1 <= i <= entries@.len(),
            names.len() == entries@.len(),
            forall|j: int| 0 <= j < entries@.len() ==> #[trigger] names[j] == entries@[j].name@,
            names == names_of(entry_views(entries@)),
            first_component(names[0]) == Some(first@),
            forall|j: int| 0 <= j < i ==> #[trigger] first_component(names[j]) == Some(first@),
        decreases entries@.len() - i,
    {
        match first_component_exec(entries[i].name.as_str()) {
            Some(f) => {
                if !crate::text::chars_eq(&f, &first) {
                    assert(first_component(names[i as int]) != first_component(names[0]));
                    return None;
                }
            },
            None => {
                assert(first_component(names[i as int]) != first_component(names[0]));
                return None;
            },
        }
        i = i + 1;
    }
    let mut root = first;
    root.push('/');
    Some(string_of(&root))
}

fn strip_root_exec(name: &str, root: &Option<String>) -> (r: Vec<char>)
    ensures
        r@ == strip_root(name@, opt_string_view(*root)),
{
    let n = chars_of(name);
    match root {
        Some(pre) => {
            let p = chars_of(pre.as_str());
            if p.len() <= n.len() && crate::text::starts_with(&n, &p) {
                let r = slice(&n, p.len(), n.len());
                assert(r@ =~= n@.skip(p@.len() as int));
                r
            } else {
                n
            }
        },
        None => n,
    }
}

/// Turns the entries of an archive into the files to create, the single
/// root directory stripped.
pub fn extraction_plan(entries: &Vec<ZipEntry>) -> (r: Result<Vec<PlannedEntry>, AcquireError>)
    ensures
        match spec_unpack(entry_views(entries@)) {
            Ok(p) => r matches Ok(v) && planned_views(v@) == p,
            Err(m) => r matches Err(AcquireError::Zip(s)) && s@ == m,
        },
{
    let ghost es = entry_views(entries@);
    let root = common_root_of(entries);
    let ghost sroot = opt_string_view(root);
    assert(sroot == common_root(names_of(es)));
    let mut out: Vec<PlannedEntry> = Vec::new();
    assert(es.take(0) =~= Seq::<ZipEntryView>::empty());
    assert(planned_views(out@) =~= Seq::<(Seq<char>, bool, Seq<u8>)>::empty());
    let mut i: usize = 0;
    while i < entries.len()
        invariant
            i <= entries@.len(),
            es == entry_views(entries@),
            sroot == opt_string_view(root),
            sroot == common_root(names_of(es)),
            spec_extraction(es.take(i as int), sroot) == Ok::<
                Seq<(Seq<char>, bool, Seq<u8>)>,
                Seq<char>,
            >(planned_views(out@)),
        decreases entries@.len() - i,
    {
        let e = &entries[i];
        let ghost done = planned_views(out@);
        proof {
            assert(es.take(i + 1).drop_last() =~= es.take(i as int));
            assert(es.take(i + 1).last() == entry_view(*e));
        }
        if !e.enclosed {
            let msg = concat("unsafe entry: ", e.name.as_str());
            proof {
                lemma_extraction_stops(es, sroot, i + 1);
            }
            return Err(AcquireError::Zip(msg));
        }
        if e.is_symlink {
            let msg = concat("symlink rejected: ", e.name.as_str());
            proof {
                lemma_extraction_stops(es, sroot, i + 1);
            }
            return Err(AcquireError::Zip(msg));
        }
        let rel = strip_root_exec(e.name.as_str(), &root);
        if rel.len() > 0 {
            let nc = chars_of(e.name.as_str());
            let slash_end = nc.len() > 0 && nc[nc.len() - 1] == '/';
            let item = if e.is_dir || slash_end {
                PlannedEntry { rel: string_of(&rel), is_dir: true, data: Vec::new() }
            } else {
                match &e.data {
                    Ok(d) => PlannedEntry {
                        rel: string_of(&rel),
                        is_dir: false,
                        data: vstd::slice::slice_to_vec(d.as_slice()),
                    },
                    Err(m) => {
                        proof {
                            lemma_extraction_stops(es, sroot, i + 1);
                        }
                        return Err(AcquireError::Zip(m.clone()));
                    },
                }
            };
            out.push(item);
            assert(planned_views(out@) =~= done.push(
                planned_view(item),
            ));
        }
        i = i + 1;
    }
    assert(es.take(entries@.len() as int) =~= es);
    Ok(out)
}

/// Once extraction fails on a prefix, it fails with the same message on
/// every longer prefix.
proof fn lemma_extraction_stops(
    es: Seq<ZipEntryView>,
    root: Option<Seq<char>>,
    i: int,
)
    requires
        0 <= i <= es.len(),
        spec_extraction(es.take(i), root) is Err,
    ensures
        spec_extraction(es, root) == spec_extraction(es.take(i), root),
    decreases es.len() - i,
{
    if i < es.len() {
        assert(es.take(i + 1).drop_last() =~= es.take(i));
        lemma_extraction_stops(es, root, i + 1);
    } else {
        assert(es.take(i) =~= es);
    }
}

/// What `unpack_dist` gives for an archive and the expected sha1: a
/// `Shasum` error naming both digests when they differ, a `Zip` error when
/// the archive cannot be read, else the extraction of its entries.
pub open spec fn unpacked(bytes: Seq<u8>, shasum: Seq<char>, r: Result<Vec<PlannedEntry>, AcquireError>) -> bool {
    if shasum.len() > 0 && sha1_hex(bytes) != unicode_lowercase(shasum) {
        r matches Err(AcquireError::Shasum { expected: e, actual: a }) && e@ == shasum && a@
            == sha1_hex(bytes)
    } else {
        match zip_listing(bytes) {
            None => r matches Err(AcquireError::Zip(_)),
            Some(es) => match spec_unpack(es) {
                Ok(p) => r matches Ok(v) && planned_views(v@) == p,
                Err(m) => r matches Err(AcquireError::Zip(s)) && s@ == m,
            },
        }
    }
}

/// Checks a downloaded dist archive and plans its extraction: the sha1 check
/// first, then the archive is read and its single root directory stripped.
pub fn unpack_dist(bytes: &[u8], shasum: &str) -> (r: Result<Vec<PlannedEntry>, AcquireError>)
    ensures
        unpacked(bytes@, shasum@, r),
{
    match verify_sha1(bytes, shasum) {
        Ok(()) => {},
        Err(e) => {
            return Err(e);
        },
    }
    let entries = match read_zip(bytes) {
        Ok(v) => v,
        Err(msg) => {
            return Err(AcquireError::Zip(msg));
        },
    };
    extraction_plan(&entries)
}

/// The message for a dist type other than zip.
pub open spec fn unsupported_dist(t: Seq<char>) -> Seq<char> {
    "tipo de dist não suportado: '"@ + t + "' (apenas zip no M2)"@
}

/// `res` is an outcome of `fetcher.fetch` on the url `url`.
pub open spec fn fetched<F: Fetcher>(fetcher: &F, url: Seq<char>, res: Result<Vec<u8>, AcquireError>) -> bool {
    exists|s: &str| s@ == url && #[trigger] call_ensures(F::fetch, (fetcher, s), res)
}

/// Downloads a dist with `fetcher` and plans its extraction. A dist without
/// url is `NoSource`; a dist type other than zip (any case) is refused before
/// anything is fetched. Otherwise the dist's url is fetched: a failed fetch
/// is the result, fetched bytes are unpacked against the dist's shasum.
pub fn fetch_dist<F: Fetcher>(fetcher: &F, coords: &PackageCoords, dist: &Dist) -> (r: Result<
    Vec<PlannedEntry>,
    AcquireError,
>)
    ensures
        dist.url is None ==> (r matches Err(AcquireError::NoSource(s)) && s@ == spec_label(
            *coords,
        )),
        dist.url is Some && !eq_ignore_ascii_case(dist.dist_type@, "zip"@) ==> (r matches Err(
            AcquireError::Zip(s),
        ) && s@ == unsupported_dist(dist.dist_type@)),
        match dist.url {
            Some(u) => eq_ignore_ascii_case(dist.dist_type@, "zip"@) ==> exists|
                res: Result<Vec<u8>, AcquireError>,
            |
                #[trigger] fetched(fetcher, u@, res) && match res {
                    Err(e) => r == Err::<Vec<PlannedEntry>, AcquireError>(e),
                    Ok(b) => unpacked(b@, dist.shasum@, r),
                },
            None => true,
        },
{
    let url = match &dist.url {
        Some(u) => u,
        None => {
            return Err(AcquireError::NoSource(coords.label()));
        },
    };
    if !eq_ignore_case(dist.dist_type.as_str(), "zip") {
        let mut msg = concat("tipo de dist não suportado: '", dist.dist_type.as_str());
        msg.append("' (apenas zip no M2)");
        return Err(AcquireError::Zip(msg));
    }
    let res = fetcher.fetch(url.as_str());
    assert(fetched(fetcher, url@, res));
    match res {
        Err(e) => Err(e),
        Ok(bytes) => unpack_dist(bytes.as_slice(), dist.shasum.as_str()),
    }
}

// ----------------------------------------------------------------------------
// git sources

/// The git invocations that check out a source: a clone into `checkout`, then,
/// for a non-empty reference, a checkout of it run inside `checkout`.
#[derive(Debug)]
pub struct GitPlan {
    pub clone_args: Vec<String>,
    pub checkout_args: Option<Vec<String>>,
}

pub open spec fn strs(v: Seq<String>) -> Seq<Seq<char>> {
    v.map_values(|s: String| s@)
}

/// `git -c protocol.ext.allow=never clone --quiet -- <url> <checkout>`: the
/// `ext::` transport is refused and `--` keeps the url from being read as an
/// option.
pub open spec fn spec_clone_args(url: Seq<char>, checkout: Seq<char>) -> Seq<Seq<char>> {
    seq!["-c"@, "protocol.ext.allow=never"@, "clone"@, "--quiet"@, "--"@, url, checkout]
}

/// `git -c advice.detachedHead=false checkout --quiet <reference> --`: the
/// trailing `--` makes the reference a commit-ish, never a path.
pub open spec fn spec_checkout_args(reference: Seq<char>) -> Seq<Seq<char>> {
    seq!["-c"@, "advice.detachedHead=false"@, "checkout"@, "--quiet"@, reference, "--"@]
}

/// The error messages of the git checks.
pub open spec fn url_rejected(url: Seq<char>) -> Seq<char> {
    "git url rejected (starts with '-'): "@ + url
}

pub open spec fn reference_rejected(reference: Seq<char>) -> Seq<char> {
    "git reference rejected (starts with '-'): "@ + reference
}

pub open spec fn unsupported_source(t: Seq<char>) -> Seq<char> {
    "unsupported source type: '"@ + t + "' (only git in M2)"@
}

/// Plans the checkout of a git source into `checkout`. A source without url
/// is `NoSource`; a url or reference starting with `-` (which git would read
/// as an option) and a source type other than git (any case) are refused, in
/// that order.
pub fn git_plan(coords: &PackageCoords, source: &Source, checkout: &str) -> (r: Result<
    GitPlan,
    AcquireError,
>)
    ensures
        match source.url {
            None => r matches Err(AcquireError::NoSource(s)) && s@ == spec_label(*coords),
            Some(url) => if url@.len() > 0 && url@[0] == '-' {
                r matches Err(AcquireError::Git(s)) && s@ == url_rejected(url@)
            } else if source.reference@.len() > 0 && source.reference@[0] == '-' {
                r matches Err(AcquireError::Git(s)) && s@ == reference_rejected(source.reference@)
            } else if !eq_ignore_ascii_case(source.source_type@, "git"@) {
                r matches Err(AcquireError::Git(s)) && s@ == unsupported_source(
                    source.source_type@,
                )
            } else {
                r matches Ok(p) && strs(p.clone_args@) == spec_clone_args(url@, checkout@) && (
                source.reference@.len() == 0 ==> p.checkout_args is None) && (
                source.reference@.len() > 0 ==> (p.checkout_args matches Some(a) && strs(a@)
                    == spec_checkout_args(source.reference@)))
            },
        },
{
    let url = match &source.url {
        Some(u) => u,
        None => {
            return Err(AcquireError::NoSource(coords.label()));
        },
    };
    if starts_with_char(url.as_str(), '-') {
        return Err(AcquireError::Git(concat("git url rejected (starts with '-'): ", url.as_str())));
    }
    if starts_with_char(source.reference.as_str(), '-') {
        return Err(
            AcquireError::Git(
                concat("git reference rejected (starts with '-'): ", source.reference.as_str()),
            ),
        );
    }
    if !eq_ignore_case(source.source_type.as_str(), "git") {
        let mut msg = concat("unsupported source type: '", source.source_type.as_str());
        msg.append("' (only git in M2)");
        return Err(AcquireError::Git(msg));
    }
    let mut clone_args: Vec<String> = Vec::new();
    clone_args.push("-c".to_string());
    clone_args.push("protocol.ext.allow=never".to_string());
    clone_args.push("clone".to_string());
    clone_args.push("--quiet".to_string());
    clone_args.push("--".to_string());
    clone_args.push(url.clone());
    clone_args.push(<String as StringExecFns>::from_str(checkout));
    assert(strs(clone_args@) =~= spec_clone_args(url@, checkout@));
    let checkout_args = if source.reference.unicode_len() == 0 {
        None
    } else {
        let mut a: Vec<String> = Vec::new();
        a.push("-c".to_string());
        a.push("advice.detachedHead=false".to_string());
        a.push("checkout".to_string());
        a.push("--quiet".to_string());
        a.push(source.reference.clone());
        a.push("--".to_string());
        assert(strs(a@) =~= spec_checkout_args(source.reference@));
        Some(a)
    };
    Ok(GitPlan { clone_args, checkout_args })
}

/// A successful extraction comes from an archive whose every entry has a
/// safe name and is no symlink: nothing is written outside the destination
/// and no link is planted.
pub proof fn lemma_extraction_entries_safe(
    es: Seq<ZipEntryView>,
    root: Option<Seq<char>>,
)
    requires
        spec_extraction(es, root) is Ok,
    ensures
        forall|i: int| 0 <= i < es.len() ==> (#[trigger] es[i]).3 && !es[i].2,
    decreases es.len(),
{
    if es.len() > 0 {
        lemma_extraction_entries_safe(es.drop_last(), root);
        assert forall|i: int| 0 <= i < es.len() implies (#[trigger] es[i]).3 && !es[i].2 by {
            if i < es.len() - 1 {
                assert(es[i] == es.drop_last()[i]);
            }
        }
    }
}

/// Every planned entry is a non-empty relative name.
pub proof fn lemma_extraction_names_nonempty(
    es: Seq<ZipEntryView>,
    root: Option<Seq<char>>,
)
    ensures
        spec_extraction(es, root) matches Ok(p) ==> forall|i: int|
            0 <= i < p.len() ==> (#[trigger] p[i]).0.len() > 0,
    decreases es.len(),
{
    if es.len() > 0 {
        lemma_extraction_names_nonempty(es.drop_last(), root);
    }
}

/// `p` is planned from the entries `es` at the indices `idx`, in archive
/// order: each planned entry is named relative to the root; it is a
/// directory exactly when its entry is a directory or its name ends in `/`
/// (and then carries nothing), and otherwise a file carrying exactly its
/// entry's content, whatever its length; every entry below the root is
/// planned.
pub open spec fn planned_from(
    es: Seq<ZipEntryView>,
    root: Option<Seq<char>>,
    p: Seq<(Seq<char>, bool, Seq<u8>)>,
    idx: Seq<int>,
) -> bool {
    &&& idx.len() == p.len()
    &&& forall|j: int, k: int| 0 <= j < k < idx.len() ==> #[trigger] idx[j] < #[trigger] idx[k]
    &&& forall|j: int|
        #![trigger p[j]]
        #![trigger idx[j]]
        0 <= j < p.len() ==> {
            &&& 0 <= idx[j] < es.len()
            &&& p[j].0 == strip_root(es[idx[j]].0, root)
            &&& p[j].1 == (es[idx[j]].1 || (es[idx[j]].0.len() > 0 && es[idx[j]].0.last() == '/'))
            &&& p[j].1 ==> p[j].2.len() == 0
            &&& !p[j].1 ==> es[idx[j]].4 == Ok::<Seq<u8>, Seq<char>>(p[j].2)
        }
    &&& forall|i: int|
        0 <= i < es.len() && strip_root(#[trigger] es[i].0, root).len() > 0 ==> exists|j: int|
            0 <= j < idx.len() && idx[j] == i
}

/// A successful extraction plans every entry below the root, in archive
/// order: an entry is a directory exactly when the archive marks it as one or
/// its name ends in `/`; every other entry is a file carrying exactly its
/// content, an empty file too.
pub proof fn lemma_extraction_kinds(es: Seq<ZipEntryView>, root: Option<Seq<char>>) -> (idx: Seq<int>)
    ensures
        spec_extraction(es, root) matches Ok(p) ==> planned_from(es, root, p, idx),
    decreases es.len(),
{
    if es.len() == 0 {
        seq![]
    } else {
        let pre = es.drop_last();
        let idx0 = lemma_extraction_kinds(pre, root);
        let n = es.len() - 1;
        assert forall|i: int| 0 <= i < n implies #[trigger] es[i] == pre[i] by {}
        match spec_extraction(pre, root) {
            Err(_) => idx0,
            Ok(done) => {
                assert(planned_from(pre, root, done, idx0));
                let (name, is_dir, is_symlink, enclosed, data) = es.last();
                let rel = strip_root(name, root);
                if !enclosed || is_symlink || rel.len() == 0 {
                    if !enclosed || is_symlink {
                        assert(spec_extraction(es, root) is Err);
                    } else {
                        assert(spec_extraction(es, root) == Ok::<Seq<(Seq<char>, bool, Seq<u8>)>, Seq<char>>(done));
                        assert forall|j: int| #![trigger done[j]] #![trigger idx0[j]] 0 <= j < done.len() implies {
                            &&& 0 <= idx0[j] < es.len()
                            &&& done[j].0 == strip_root(es[idx0[j]].0, root)
                            &&& done[j].1 == (es[idx0[j]].1 || (es[idx0[j]].0.len() > 0
                                && es[idx0[j]].0.last() == '/'))
                            &&& done[j].1 ==> done[j].2.len() == 0
                            &&& !done[j].1 ==> es[idx0[j]].4 == Ok::<Seq<u8>, Seq<char>>(done[j].2)
                        } by {
                            assert(planned_from(pre, root, done, idx0));
                            assert(done[j] == done[j]);
                            assert(0 <= idx0[j] < pre.len());
                            assert(es[idx0[j]] == pre[idx0[j]]);
                        }
                        assert forall|i: int|
                            0 <= i < es.len() && strip_root(#[trigger] es[i].0, root).len() > 0
                            implies exists|j: int| 0 <= j < idx0.len() && idx0[j] == i by {
                            assert(i < n);
                            assert(strip_root(pre[i].0, root).len() > 0);
                        }
                        assert(planned_from(es, root, done, idx0));
                    }
                    idx0
                } else {
                    let idx = idx0.push(n);
                    match spec_extraction(es, root) {
                        Err(_) => {},
                        Ok(p) => {
                            assert(p.drop_last() =~= done);
                            assert forall|j: int, k: int|
                                0 <= j < k < idx.len() implies #[trigger] idx[j] < #[trigger] idx[k] by {
                                assert(idx[j] == idx0[j]);
                                if k < idx0.len() {
                                    assert(idx[k] == idx0[k]);
                                } else {
                                    assert(done[j] == done[j]);
                                }
                            }
                            assert forall|j: int| #![trigger p[j]] #![trigger idx[j]] 0 <= j < p.len() implies {
                                &&& 0 <= idx[j] < es.len()
                                &&& p[j].0 == strip_root(es[idx[j]].0, root)
                                &&& p[j].1 == (es[idx[j]].1 || (es[idx[j]].0.len() > 0
                                    && es[idx[j]].0.last() == '/'))
                                &&& p[j].1 ==> p[j].2.len() == 0
                                &&& !p[j].1 ==> es[idx[j]].4 == Ok::<Seq<u8>, Seq<char>>(p[j].2)
                            } by {
                                if j < done.len() {
                                    assert(p[j] == done[j]);
                                    assert(idx[j] == idx0[j]);
                                    assert(es[idx0[j]] == pre[idx0[j]]);
                                }
                            }
                            assert forall|i: int|
                                0 <= i < es.len() && strip_root(#[trigger] es[i].0, root).len() > 0
                                implies exists|j: int| 0 <= j < idx.len() && idx[j] == i by {
                                if i < n {
                                    assert(strip_root(pre[i].0, root).len() > 0);
                                    let j = choose|j: int| 0 <= j < idx0.len() && idx0[j] == i;
                                    assert(idx[j] == i);
                                } else {
                                    assert(idx[idx0.len() as int] == i);
                                }
                            }
                            assert(planned_from(es, root, p, idx));
                        },
                    }
                    idx
                }
            },
        }
    }
}

/// An archive whose every entry lies under one top directory `r/` (the
/// layout of a GitHub zipball) has that directory stripped: a successful
/// plan holds every entry below it, named without the leading `r/`, kinds
/// and contents as `planned_from` says.
pub proof fn lemma_unpack_strips_single_root(es: Seq<ZipEntryView>, r: Seq<char>) -> (idx: Seq<int>)
    requires
        r.len() > 0,
        forall|i: int| 0 <= i < r.len() ==> #[trigger] r[i] != '/',
        es.len() > 0,
        forall|i: int|
            0 <= i < es.len() ==> (#[trigger] es[i]).0.len() > r.len() && es[i].0.take(
                r.len() as int + 1,
            ) == r + seq!['/'],
    ensures
        spec_unpack(es) matches Ok(p) ==> {
            &&& planned_from(es, Some(r + seq!['/']), p, idx)
            &&& forall|j: int|
                0 <= j < p.len() ==> #[trigger] p[j].0 == es[idx[j]].0.skip(r.len() as int + 1)
        },
{
    let root = r + seq!['/'];
    let names = names_of(es);
    assert forall|i: int| 0 <= i < es.len() implies #[trigger] first_component(names[i]) == Some(r) by {
        let name = es[i].0;
        assert(names[i] == name);
        assert(name[r.len() as int] == name.take(r.len() as int + 1)[r.len() as int]);
        assert(name[r.len() as int] == '/');
        lemma_find_from(name, seq!['/'], 0);
        match find(name, seq!['/']) {
            Some(k) => {
                assert(name.subrange(k, k + 1)[0] == name[k]);
                if k < r.len() {
                    assert(name[k] == name.take(r.len() as int + 1)[k]);
                    assert(name[k] == r[k]);
                } else if k > r.len() {
                    assert(name.subrange(r.len() as int, r.len() as int + 1) =~= seq!['/']);
                }
                assert(k == r.len());
                assert(name.take(k) =~= r);
            },
            None => {
                assert(name.subrange(r.len() as int, r.len() as int + 1) =~= seq!['/']);
            },
        }
    }
    assert(first_component(names[0]) == Some(r));
    assert(common_root(names) == Some(root));
    let idx = lemma_extraction_kinds(es, Some(root));
    if let Ok(p) = spec_unpack(es) {
        assert forall|j: int| 0 <= j < p.len() implies #[trigger] p[j].0 == es[idx[j]].0.skip(
            r.len() as int + 1,
        ) by {
            assert(planned_from(es, Some(root), p, idx));
            assert(p[j] == p[j]);
            let e = es[idx[j]];
            assert(e.0.take(r.len() as int + 1) == root);
        }
    }
    idx
}

// ----------------------------------------------------------------------------
// Where a locked package comes from

/// How a locked package is acquired.
#[derive(Debug, Clone, Copy, PartialEq, Eq, Structural)]
pub enum Route {
    /// A platform requirement (`php`, `ext-*`): nothing to acquire.
    Platform,
    /// The dist archive.
    Dist,
    /// The git source.
    Git,
    /// Neither a dist nor a source.
    NoSource,
}

/// A dist with a url first, then a git source, then a dist without url
/// (which fails as `NoSource` when fetched).
pub open spec fn spec_route(p: LockedPackage) -> Route {
    if spec_split_name(p.name@) is None {
        Route::Platform
    } else if p.dist matches Some(d) && d.url is Some {
        Route::Dist
    } else if p.source is Some {
        Route::Git
    } else if p.dist is Some {
        Route::Dist
    } else {
        Route::NoSource
    }
}

pub fn route(p: &LockedPackage) -> (r: Route)
    ensures
        r == spec_route(*p),
{
    match PackageCoords::from_name(p.name.as_str(), p.version.as_str()) {
        None => {
            return Route::Platform;
        },
        Some(_) => {},
    }
    match &p.dist {
        Some(d) => {
            if d.url.is_some() {
                return Route::Dist;
            }
        },
        None => {},
    }
    if p.source.is_some() {
        Route::Git
    } else if p.dist.is_some() {
        Route::Dist
    } else {
        Route::NoSource
    }
}

} // verus!
