//! The global store: its on-disk layout, package coordinates, integrity
//! digests and permission bits.
//!
//! ```text
//! <root>/packages/<vendor>/<package>/<version>/   extracted content, read-only
//! <root>/meta/<vendor>/<package>/<version>.json   {name, version, sha256}
//! <root>/locks/<vendor>__<package>__<version>.lock
//! <root>/tmp/<vendor>__<package>__<version>.staging
//! ```
use vstd::prelude::*;
use vstd::bytes::{spec_u64_to_le_bytes, u64_to_le_bytes};
use vstd::string::StringExecFns;
use vstd::utf8::encode_utf8;
use crate::json::{distinct_keys, json_from_str, json_quote, json_quote_exec, string_members, string_object_text, Json};
use crate::lockfile::{obj_get, LockError};
use crate::text::{chars_of, concat, find, lemma_find_from, lemma_lex_total, lemma_lex_trans, lex_less, lex_lt, slice, string_of};

verus! {

/// `std::io::Error`, carried through opaque.
#[verifier::external_type_specification]
#[verifier::external_body]
pub struct ExIoError(std::io::Error);

#[derive(Debug)]
pub enum StoreError {
    Io(std::io::Error),
    AlreadyExists(String),
    Integrity { expected: String, actual: String },
    MissingMeta(String),
    Json(serde_json::Error),
}

/// `(vendor, package, version)` of a stored package.
#[derive(Debug, Clone, PartialEq, Eq)]
pub struct PackageCoords {
    pub vendor: String,
    pub package: String,
    pub version: String,
}

/// `a.join(b)` for `/`-separated paths: an absolute `b` replaces `a`; a
/// separator is put in between unless `a` is empty or already ends with one.
pub open spec fn spec_path_join(a: Seq<char>, b: Seq<char>) -> Seq<char> {
    if b.len() > 0 && b[0] == '/' {
        b
    } else if a.len() == 0 {
        b
    } else if a.last() == '/' {
        a + b
    } else {
        a + seq!['/'] + b
    }
}

/// `Path::join` (for `/`-separated paths).
pub fn path_join(a: &str, b: &str) -> (r: String)
    ensures
        r@ == spec_path_join(a@, b@),
{
    let bc = chars_of(b);
    if bc.len() > 0 && bc[0] == '/' {
        return string_of(&bc);
    }
    let ac = chars_of(a);
    if ac.len() == 0 {
        return string_of(&bc);
    }
    let mut out = ac;
    if out[out.len() - 1] != '/' {
        out.push('/');
    }
    let ghost mid = out@;
    let mut i: usize = 0;
    while i < bc.len()
        invariant
            i <= bc@.len(),
            out@ == mid + bc@.take(i as int),
        decreases bc@.len() - i,
    {
        out.push(bc[i]);
        i = i + 1;
        assert(out@ =~= mid + bc@.take(i as int));
    }
    assert(bc@.take(bc@.len() as int) =~= bc@);
    string_of(&out)
}

/// A Composer `vendor/package` name split at its first `/`: both parts non-empty
/// and the package part free of further slashes. Platform names ("php",
/// "ext-json") have no slash.
pub open spec fn spec_split_name(name: Seq<char>) -> Option<(Seq<char>, Seq<char>)> {
    match find(name, seq!['/']) {
        Some(k) => {
            let v = name.take(k);
            let p = name.skip(k + 1);
            if v.len() == 0 || p.len() == 0 || p.contains('/') {
                None
            } else {
                Some((v, p))
            }
        },
        None => None,
    }
}

pub open spec fn coords_view(c: PackageCoords) -> (Seq<char>, Seq<char>, Seq<char>) {
    (c.vendor@, c.package@, c.version@)
}

pub open spec fn spec_namespace_rel(c: PackageCoords) -> Seq<char> {
    spec_path_join(c.vendor@, c.package@)
}

pub open spec fn spec_rel(c: PackageCoords) -> Seq<char> {
    spec_path_join(spec_namespace_rel(c), c.version@)
}

/// `vendor/package@version`, as errors name a package.
pub open spec fn spec_label(c: PackageCoords) -> Seq<char> {
    c.vendor@ + seq!['/'] + c.package@ + seq!['@'] + c.version@
}

/// `vendor__package__version` followed by `suffix`.
pub open spec fn spec_flat_name(c: PackageCoords, suffix: Seq<char>) -> Seq<char> {
    c.vendor@ + "__"@ + c.package@ + "__"@ + c.version@ + suffix
}

/// True when `c` occurs in `s`.
fn has_char(s: &Vec<char>, c: char) -> (b: bool)
    ensures
        b == s@.contains(c),
{
    let mut i: usize = 0;
    while i < s.len()
        invariant
            i <= s@.len(),
            forall|j: int| 0 <= j < i ==> s@[j] != c,
        decreases s@.len() - i,
    {
        if s[i] == c {
            assert(s@[i as int] == c);
            return true;
        }
        i = i + 1;
    }
    false
}

impl PackageCoords {
    /// Converts a Composer "vendor/package" name and a version into coords;
    /// None for platform names (no slash, e.g. "php", "ext-json").
    pub fn from_name(name: &str, version: &str) -> (r: Option<PackageCoords>)
        ensures
            match spec_split_name(name@) {
                Some((v, p)) => r matches Some(c) && coords_view(c) == (v, p, version@),
                None => r is None,
            },
    {
        let n = chars_of(name);
        let slash: Vec<char> = vec!['/'];
        assert(slash@ =~= seq!['/']);
        proof {
            lemma_find_from(n@, seq!['/'], 0);
        }
        let k = match crate::text::find_from_exec(&n, &slash, 0) {
            Some(k) => k,
            None => {
                return None;
            },
        };
        assert(find(n@, seq!['/']) == Some(k as int));
        let len = n.len();
        let v = slice(&n, 0, k);
        let p = slice(&n, k + 1, len);
        assert(v@ =~= n@.take(k as int));
        assert(p@ =~= n@.skip(k + 1));
        if v.len() == 0 || p.len() == 0 || has_char(&p, '/') {
            return None;
        }
        assert(!p@.contains('/'));
        Some(PackageCoords {
            vendor: string_of(&v),
            package: string_of(&p),
            version: string_of(&chars_of(version)),
        })
    }

    /// `vendor/package`.
    pub fn namespace_rel(&self) -> (r: String)
        ensures
            r@ == spec_namespace_rel(*self),
    {
        path_join(self.vendor.as_str(), self.package.as_str())
    }

    /// `vendor/package/version`.
    pub fn rel(&self) -> (r: String)
        ensures
            r@ == spec_rel(*self),
    {
        let ns = self.namespace_rel();
        path_join(ns.as_str(), self.version.as_str())
    }

    /// `vendor/package@version`.
    pub fn label(&self) -> (r: String)
        ensures
            r@ == spec_label(*self),
    {
        let mut s = concat(self.vendor.as_str(), "/");
        s.append(self.package.as_str());
        s.append("@");
        s.append(self.version.as_str());
        proof {
            reveal_strlit("/");
            reveal_strlit("@");
        }
        assert(s@ =~= spec_label(*self));
        s
    }

    /// `vendor__package__version` followed by `suffix`.
    pub fn flat_name(&self, suffix: &str) -> (r: String)
        ensures
            r@ == spec_flat_name(*self, suffix@),
    {
        let mut s = concat(self.vendor.as_str(), "__");
        s.append(self.package.as_str());
        s.append("__");
        s.append(self.version.as_str());
        s.append(suffix);
        assert(s@ =~= spec_flat_name(*self, suffix@));
        s
    }
}

/// The store, rooted at a directory.
#[derive(Debug)]
pub struct Store {
    root: String,
}

impl Store {
    pub closed spec fn spec_root(&self) -> Seq<char> {
        self.root@
    }

    pub open spec fn spec_package_path(&self, c: PackageCoords) -> Seq<char> {
        spec_path_join(spec_path_join(self.spec_root(), "packages"@), spec_rel(c))
    }

    pub open spec fn spec_meta_path(&self, c: PackageCoords) -> Seq<char> {
        spec_path_join(
            spec_path_join(spec_path_join(self.spec_root(), "meta"@), spec_namespace_rel(c)),
            c.version@ + ".json"@,
        )
    }

    pub open spec fn spec_lock_file_path(&self, c: PackageCoords) -> Seq<char> {
        spec_path_join(spec_path_join(self.spec_root(), "locks"@), spec_flat_name(c, ".lock"@))
    }

    pub open spec fn spec_staging_path(&self, c: PackageCoords) -> Seq<char> {
        spec_path_join(spec_path_join(self.spec_root(), "tmp"@), spec_flat_name(c, ".staging"@))
    }

    pub fn new(root: &str) -> (s: Store)
        ensures
            s.spec_root() == root@,
    {
        Store { root: string_of(&chars_of(root)) }
    }

    /// `<root>/packages/<vendor>/<package>/<version>`.
    pub fn package_path(&self, coords: &PackageCoords) -> (r: String)
        ensures
            r@ == self.spec_package_path(*coords),
    {
        let base = path_join(self.root.as_str(), "packages");
        let rel = coords.rel();
        path_join(base.as_str(), rel.as_str())
    }

    /// `<root>/meta/<vendor>/<package>/<version>.json`: the full version is kept
    /// (".json" is appended, not put in place of the version's last dotted part).
    pub fn meta_path(&self, coords: &PackageCoords) -> (r: String)
        ensures
            r@ == self.spec_meta_path(*coords),
    {
        let base = path_join(self.root.as_str(), "meta");
        let ns = coords.namespace_rel();
        let dir = path_join(base.as_str(), ns.as_str());
        let file = concat(coords.version.as_str(), ".json");
        path_join(dir.as_str(), file.as_str())
    }

    /// `<root>/locks/<vendor>__<package>__<version>.lock`.
    pub fn lock_file_path(&self, coords: &PackageCoords) -> (r: String)
        ensures
            r@ == self.spec_lock_file_path(*coords),
    {
        let base = path_join(self.root.as_str(), "locks");
        let file = coords.flat_name(".lock");
        path_join(base.as_str(), file.as_str())
    }

    /// `<root>/tmp/<vendor>__<package>__<version>.staging`.
    pub fn staging_path(&self, coords: &PackageCoords) -> (r: String)
        ensures
            r@ == self.spec_staging_path(*coords),
    {
        let base = path_join(self.root.as_str(), "tmp");
        let file = coords.flat_name(".staging");
        path_join(base.as_str(), file.as_str())
    }

    pub fn root_ref(&self) -> (r: &str)
        ensures
            r@ == self.spec_root(),
    {
        self.root.as_str()
    }

    /// Root path for volume comparison (hard links cannot cross filesystems).
    pub fn root_for_volume_check(&self) -> (r: &str)
        ensures
            r@ == self.spec_root(),
    {
        self.root_ref()
    }

    /// The error for writing a package whose installation is complete.
    pub fn already_exists(coords: &PackageCoords) -> (e: StoreError)
        ensures
            e matches StoreError::AlreadyExists(s) && s@ == spec_label(*coords),
    {
        StoreError::AlreadyExists(coords.label())
    }

    /// The `sha256` recorded in a package's meta file; `meta_raw` is the
    /// file's text, or None when the file does not exist.
    pub fn recorded_sha256(coords: &PackageCoords, meta_raw: Option<&str>) -> (r: Result<
        String,
        StoreError,
    >)
        ensures
            meta_raw is None ==> (r matches Err(StoreError::MissingMeta(s)) && s@ == spec_label(
                *coords,
            )),
            meta_raw matches Some(raw) ==> match crate::json::json_document(raw@) {
                Some(j) => match meta_sha(j) {
                    Some(h) => r matches Ok(s) && s@ == h,
                    None => r matches Err(StoreError::Json(_)),
                },
                None => r matches Err(StoreError::Json(_)),
            },
            forall|c: PackageCoords, h: Seq<char>|
                #![trigger spec_meta_json(c, h)]
                (meta_raw matches Some(raw) && raw@ == spec_meta_json(c, h)) ==> (r matches Ok(s)
                    && s@ == h),
    {
        let raw = match meta_raw {
            None => {
                return Err(StoreError::MissingMeta(coords.label()));
            },
            Some(raw) => raw,
        };
        let res = json_from_str(raw);
        proof {
            assert forall|c: PackageCoords, h: Seq<char>| raw@ == spec_meta_json(c, h) implies (
            res matches Ok(Json::Object(es)) && crate::strmap::lookup(es@, "sha256"@) matches Some(
                Json::Str(v),
            ) && v@ == h) by {
                lemma_meta_members(c, h);
                let ms = meta_members(c, h);
                assert(string_object_text(ms, true) == spec_meta_json(c, h));
                assert(ms[2].0 == "sha256"@);
            }
        }
        match res {
            Err(e) => Err(StoreError::Json(e)),
            Ok(Json::Object(es)) => match obj_get(&es, "sha256") {
                Some(Json::Str(s)) => Ok(s.clone()),
                Some(_) => Err(StoreError::Json(crate::json::json_error("invalid type: sha256".to_string()))),
                None => Err(StoreError::Json(crate::json::json_error("missing field `sha256`".to_string()))),
            },
            Ok(Json::Array(items)) => {
                if items.len() == 1 {
                    match &items[0] {
                        Json::Str(s) => {
                            return Ok(s.clone());
                        },
                        _ => {},
                    }
                }
                Err(StoreError::Json(crate::json::json_error("invalid meta array".to_string())))
            },
            Ok(_) => Err(StoreError::Json(crate::json::json_error("expected an object".to_string()))),
        }
    }

    /// `<root>/meta/<vendor>/<package>/<version>.classmap.json`: the cached
    /// classmap of a package, beside its meta file.
    pub fn classmap_cache_path(&self, coords: &PackageCoords) -> (r: String)
        ensures
            r@ == spec_path_join(
                spec_path_join(spec_path_join(self.spec_root(), "meta"@), spec_namespace_rel(*coords)),
                coords.version@ + ".classmap.json"@,
            ),
    {
        let base = path_join(self.root.as_str(), "meta");
        let ns = coords.namespace_rel();
        let dir = path_join(base.as_str(), ns.as_str());
        let file = concat(coords.version.as_str(), ".classmap.json");
        path_join(dir.as_str(), file.as_str())
    }

    /// The text of a package's meta file (as `serde_json::to_vec_pretty`
    /// lays out `{name, version, sha256}`): the name is `vendor/package`.
    pub fn meta_json(coords: &PackageCoords, sha256: &str) -> (r: String)
        ensures
            r@ == spec_meta_json(*coords, sha256@),
    {
        let mut name = concat(coords.vendor.as_str(), "/");
        name.append(coords.package.as_str());
        proof {
            reveal_strlit("/");
        }
        assert(name@ =~= coords.vendor@ + seq!['/'] + coords.package@);
        let mut s = concat("{\n  ", json_quote_exec("name").as_str());
        s.append(": ");
        s.append(json_quote_exec(name.as_str()).as_str());
        s.append(",\n  ");
        s.append(json_quote_exec("version").as_str());
        s.append(": ");
        s.append(json_quote_exec(coords.version.as_str()).as_str());
        s.append(",\n  ");
        s.append(json_quote_exec("sha256").as_str());
        s.append(": ");
        s.append(json_quote_exec(sha256).as_str());
        s.append("\n}");
        let ghost ms = meta_members(*coords, sha256@);
        assert(ms.drop_last().drop_last() =~= seq![ms[0]]);
        assert(ms.drop_last().drop_last().len() == 1);
        assert(ms.drop_last().last() == ms[1]);
        assert(ms.last() == ms[2]);
        let ghost sep = ",\n  "@;
        let ghost colon = ": "@;
        assert(string_members(ms.drop_last().drop_last(), sep, colon) == json_quote(ms[0].0) + colon
            + json_quote(ms[0].1));
        assert(string_members(ms.drop_last(), sep, colon) == string_members(
            ms.drop_last().drop_last(),
            sep,
            colon,
        ) + sep + json_quote(ms[1].0) + colon + json_quote(ms[1].1));
        assert(string_members(ms, sep, colon) == string_members(ms.drop_last(), sep, colon) + sep
            + json_quote(ms[2].0) + colon + json_quote(ms[2].1));
        assert(s@ =~= spec_meta_json(*coords, sha256@));
        s
    }

    /// Decides how a package is written: a complete installation (its
    /// directory and meta file exist) is never rewritten; a directory without
    /// meta is a partial installation that is cleared first (`Ok(true)`);
    /// otherwise the package is written afresh (`Ok(false)`).
    pub fn write_check(coords: &PackageCoords, dir_exists: bool, meta_exists: bool) -> (r: Result<
        bool,
        StoreError,
    >)
        ensures
            dir_exists && meta_exists ==> (r matches Err(StoreError::AlreadyExists(s)) && s@
                == spec_label(*coords)),
            dir_exists && !meta_exists ==> r == Ok::<bool, StoreError>(true),
            !dir_exists ==> r == Ok::<bool, StoreError>(false),
    {
        if dir_exists {
            if meta_exists {
                return Err(Store::already_exists(coords));
            }
            return Ok(true);
        }
        Ok(false)
    }

    /// Checks a stored package: the digest recorded in its meta file
    /// (`meta_raw`, None when the file is missing) against the digest of its
    /// files as they are now.
    pub fn verify(coords: &PackageCoords, meta_raw: Option<&str>, files: Vec<(String, Vec<u8>)>) -> (r:
        Result<(), StoreError>)
        ensures
            meta_raw is None ==> (r matches Err(StoreError::MissingMeta(s)) && s@ == spec_label(
                *coords,
            )),
            meta_raw matches Some(raw) ==> match crate::json::json_document(raw@) {
                Some(j) => match meta_sha(j) {
                    Some(h) => if h == spec_tree_digest(files@) {
                        r is Ok
                    } else {
                        r matches Err(StoreError::Integrity { expected: e, actual: a }) && e@ == h
                            && a@ == spec_tree_digest(files@)
                    },
                    None => r matches Err(StoreError::Json(_)),
                },
                None => r matches Err(StoreError::Json(_)),
            },
            forall|c: PackageCoords|
                #![trigger spec_meta_json(c, spec_tree_digest(files@))]
                (meta_raw matches Some(raw) && raw@ == spec_meta_json(c, spec_tree_digest(files@)))
                    ==> r is Ok,
    {
        let expected = Store::recorded_sha256(coords, meta_raw)?;
        let actual = tree_digest(files);
        Store::check_integrity(expected, actual)
    }

    /// Compares the recomputed digest with the recorded one.
    pub fn check_integrity(expected: String, actual: String) -> (r: Result<(), StoreError>)
        ensures
            expected@ == actual@ ==> r is Ok,
            expected@ != actual@ ==> (r matches Err(StoreError::Integrity { expected: e, actual: a })
                && e@ == expected@ && a@ == actual@),
    {
        if expected == actual {
            Ok(())
        } else {
            Err(StoreError::Integrity { expected, actual })
        }
    }
}

/// The meta file of a package: its name `vendor/package`, version and tree
/// digest, one field per line.
pub open spec fn spec_meta_json(c: PackageCoords, sha256: Seq<char>) -> Seq<char> {
    string_object_text(meta_members(c, sha256), true)
}

pub open spec fn meta_members(c: PackageCoords, sha256: Seq<char>) -> Seq<(Seq<char>, Seq<char>)> {
    seq![
        ("name"@, c.vendor@ + seq!['/'] + c.package@),
        ("version"@, c.version@),
        ("sha256"@, sha256),
    ]
}

/// The meta fields have distinct keys, and `sha256` is the last one.
proof fn lemma_meta_members(c: PackageCoords, h: Seq<char>)
    ensures
        distinct_keys(meta_members(c, h)),
        meta_members(c, h).len() == 3,
        meta_members(c, h)[2] == ("sha256"@, h),
{
    reveal_strlit("name");
    reveal_strlit("version");
    reveal_strlit("sha256");
    let ms = meta_members(c, h);
    assert(ms[0].0.len() == 4 && ms[1].0.len() == 7 && ms[2].0.len() == 6);
    assert(ms[0].0[0] != ms[2].0[0]);
}

/// The `sha256` a meta document records: the `sha256` string field of an
/// object, or the state written as a one-element array.
pub open spec fn meta_sha(j: Json) -> Option<Seq<char>> {
    match j {
        Json::Object(es) => lookup_sha(es@),
        Json::Array(items) => if items@.len() == 1 {
            match items@[0] {
                Json::Str(s) => Some(s@),
                _ => None,
            }
        } else {
            None
        },
        _ => None,
    }
}

/// The `sha256` string field of a meta object.
pub open spec fn lookup_sha(es: Seq<(String, Json)>) -> Option<Seq<char>> {
    match crate::strmap::lookup(es, "sha256"@) {
        Some(Json::Str(s)) => Some(s@),
        _ => None,
    }
}

/// Unix permission bits with every write bit cleared (read and execute kept).
pub fn read_only_mode(mode: u32) -> (r: u32)
    ensures
        r == mode & !0o222u32,
        r & 0o222u32 == 0,
        r & 0o555u32 == mode & 0o555u32,
{
    let r = mode & !0o222u32;
    assert(r & 0o222u32 == 0 && r & 0o555u32 == mode & 0o555u32) by (bit_vector)
        requires
            r == mode & !0o222u32,
    ;
    r
}

/// Unix permission bits with the owner write bit set.
pub fn owner_writable_mode(mode: u32) -> (r: u32)
    ensures
        r == mode | 0o200u32,
        r & 0o200u32 == 0o200u32,
        r & !0o200u32 == mode & !0o200u32,
{
    let r = mode | 0o200u32;
    assert(r & 0o200u32 == 0o200u32 && r & !0o200u32 == mode & !0o200u32) by (bit_vector)
        requires
            r == mode | 0o200u32,
    ;
    r
}

// ----------------------------------------------------------------------------
// Tree digest

/// SHA-256 of a byte sequence.
pub uninterp spec fn sha256_of(data: Seq<u8>) -> Seq<u8>;

/// `sha2::Sha256::digest`: the SHA-256 digest of `data` (32 bytes).
#[verifier::external_body]
pub fn sha256(data: &[u8]) -> (r: Vec<u8>)
    ensures
        r@ == sha256_of(data@),
        r@.len() == 32,
{
    <sha2::Sha256 as sha2::Digest>::digest(data).to_vec()
}

pub open spec fn hex_digit(n: u8) -> char {
    if n < 10 {
        ('0' as u8 + n) as char
    } else {
        ('a' as u8 + (n - 10)) as char
    }
}

/// Lower-case hexadecimal, two digits per byte, high nibble first.
pub open spec fn hex_lower(bytes: Seq<u8>) -> Seq<char>
    decreases bytes.len(),
{
    if bytes.len() == 0 {
        seq![]
    } else {
        hex_lower(bytes.drop_last()) + seq![
            hex_digit(bytes.last() / 16),
            hex_digit(bytes.last() % 16),
        ]
    }
}

/// `hex::encode`: lower-case hexadecimal, two digits per byte, high nibble first.
#[verifier::external_body]
pub fn hex_encode(bytes: &[u8]) -> (r: String)
    ensures
        r@ == hex_lower(bytes@),
{
    hex::encode(bytes)
}

/// A path with each backslash separator turned into `/`.
pub open spec fn slashes(s: Seq<char>) -> Seq<char> {
    Seq::new(s.len(), |i: int| if s[i] == '\\' { '/' } else { s[i] })
}

/// The files of a tree as (relative path with `/` separators, content).
pub open spec fn file_entries(files: Seq<(String, Vec<u8>)>) -> Seq<(Seq<char>, Seq<u8>)> {
    Seq::new(files.len(), |i: int| (slashes(files[i].0@), files[i].1@))
}

pub open spec fn pairs_view(v: Seq<(Vec<char>, Vec<u8>)>) -> Seq<(Seq<char>, Seq<u8>)> {
    Seq::new(v.len(), |i: int| (v[i].0@, v[i].1@))
}

/// The bytes one file contributes: length of its path (u64 little endian),
/// the path (UTF-8), length of its content, the content.
pub open spec fn file_record(rel: Seq<char>, data: Seq<u8>) -> Seq<u8> {
    spec_u64_to_le_bytes(encode_utf8(rel).len() as u64) + encode_utf8(rel) + spec_u64_to_le_bytes(
        data.len() as u64,
    ) + data
}

/// The records of the files, in sequence order.
pub open spec fn tree_stream(files: Seq<(Seq<char>, Seq<u8>)>) -> Seq<u8>
    decreases files.len(),
{
    if files.len() == 0 {
        seq![]
    } else {
        tree_stream(files.drop_last()) + file_record(files.last().0, files.last().1)
    }
}

/// `e` put before the first entry whose path sorts after its own.
pub open spec fn insert_by_path(s: Seq<(Seq<char>, Seq<u8>)>, e: (Seq<char>, Seq<u8>)) -> Seq<
    (Seq<char>, Seq<u8>),
>
    decreases s.len(),
{
    if s.len() == 0 {
        seq![e]
    } else if lex_lt(e.0, s[0].0) {
        seq![e] + s
    } else {
        seq![s[0]] + insert_by_path(s.drop_first(), e)
    }
}

/// Files in increasing path order; files with equal paths keep their order
/// (a stable sort on the path).
pub open spec fn sort_by_path(files: Seq<(Seq<char>, Seq<u8>)>) -> Seq<(Seq<char>, Seq<u8>)>
    decreases files.len(),
{
    if files.len() == 0 {
        seq![]
    } else {
        insert_by_path(sort_by_path(files.drop_last()), files.last())
    }
}

/// The digest of a package tree: SHA-256 over the records of its files taken
/// in path order, in lower-case hexadecimal.
pub open spec fn spec_tree_digest(files: Seq<(String, Vec<u8>)>) -> Seq<char> {
    hex_lower(sha256_of(tree_stream(sort_by_path(file_entries(files)))))
}

proof fn lemma_insert_by_path_at(s: Seq<(Seq<char>, Seq<u8>)>, e: (Seq<char>, Seq<u8>), i: int)
    requires
        0 <= i <= s.len(),
        forall|j: int| 0 <= j < i ==> !lex_lt(e.0, #[trigger] s[j].0),
        i < s.len() ==> lex_lt(e.0, s[i].0),
    ensures
        insert_by_path(s, e) == s.insert(i, e),
    decreases i,
{
    if i == 0 {
        if s.len() == 0 {
            assert(s.insert(0, e) =~= seq![e]);
        } else {
            assert(s.insert(0, e) =~= seq![e] + s);
        }
    } else {
        let t = s.drop_first();
        assert forall|j: int| 0 <= j < i - 1 implies !lex_lt(e.0, #[trigger] t[j].0) by {
            assert(t[j] == s[j + 1]);
        }
        if i < s.len() {
            assert(t[i - 1] == s[i]);
        }
        lemma_insert_by_path_at(t, e, i - 1);
        assert(s.insert(i, e) =~= seq![s[0]] + t.insert(i - 1, e));
    }
}

/// The characters of `s` with each backslash turned into `/`.
pub fn slashes_exec(s: &str) -> (r: Vec<char>)
    ensures
        r@ == slashes(s@),
{
    let c = chars_of(s);
    let mut r: Vec<char> = Vec::new();
    let mut i: usize = 0;
    while i < c.len()
        invariant
            i <= c@.len(),
            c@ == s@,
            r@ == slashes(c@.take(i as int)),
        decreases c@.len() - i,
    {
        if c[i] == '\\' {
            r.push('/');
        } else {
            r.push(c[i]);
        }
        i = i + 1;
        assert(r@ =~= slashes(c@.take(i as int)));
    }
    assert(c@.take(c@.len() as int) =~= c@);
    r
}

/// The files with `/` separators, sorted by path (stable).
fn sorted_entries(files: Vec<(String, Vec<u8>)>) -> (r: Vec<(Vec<char>, Vec<u8>)>)
    ensures
        pairs_view(r@) == sort_by_path(file_entries(files@)),
{
    let ghost all = file_entries(files@);
    let ghost n = files@.len();
    let mut rest = files;
    // Moved out back to front: pending[j] is file n - 1 - j.
    let mut pending: Vec<(Vec<char>, Vec<u8>)> = Vec::new();
    while rest.len() > 0
        invariant
            rest@.len() + pending@.len() == n,
            all.len() == n,
            forall|j: int| 0 <= j < rest@.len() ==> (slashes(#[trigger] rest@[j].0@), rest@[j].1@)
                == all[j],
            forall|j: int|
                0 <= j < pending@.len() ==> #[trigger] pairs_view(pending@)[j] == all[n - 1 - j],
        decreases rest@.len(),
    {
        let ghost k = rest@.len() - 1;
        assert((slashes(rest@[k].0@), rest@[k].1@) == all[k]);
        let (path, data) = rest.pop().unwrap();
        let p = slashes_exec(path.as_str());
        let ghost old_pending = pending@;
        pending.push((p, data));
        assert forall|j: int| 0 <= j < pending@.len() implies #[trigger] pairs_view(pending@)[j]
            == all[n - 1 - j] by {
            if j < old_pending.len() {
                assert(pending@[j] == old_pending[j]);
                assert(pairs_view(old_pending)[j] == all[n - 1 - j]);
            }
        }
    }
    let mut out: Vec<(Vec<char>, Vec<u8>)> = Vec::new();
    assert(all.take(0) =~= Seq::<(Seq<char>, Seq<u8>)>::empty());
    while pending.len() > 0
        invariant
            pending@.len() <= n,
            all.len() == n,
            forall|j: int|
                0 <= j < pending@.len() ==> #[trigger] pairs_view(pending@)[j] == all[n - 1 - j],
            pairs_view(out@) == sort_by_path(all.take(n - pending@.len())),
        decreases pending@.len(),
    {
        let ghost k = n - pending@.len();
        let ghost sorted_before = pairs_view(out@);
        assert(pairs_view(pending@)[pending@.len() - 1] == all[k]);
        let ghost old_pending = pending@;
        let e = pending.pop().unwrap();
        let ghost ev = (e.0@, e.1@);
        assert forall|j: int| 0 <= j < pending@.len() implies #[trigger] pairs_view(pending@)[j]
            == all[n - 1 - j] by {
            assert(pending@[j] == old_pending[j]);
            assert(pairs_view(old_pending)[j] == all[n - 1 - j]);
        }
        assert(ev == all[k]);
        let mut i: usize = 0;
        while i < out.len()
            invariant
                i <= out@.len(),
                pairs_view(out@) == sorted_before,
                ev.0 == e.0@,
                forall|j: int| 0 <= j < i ==> !lex_lt(ev.0, #[trigger] sorted_before[j].0),
            ensures
                i <= out@.len(),
                forall|j: int| 0 <= j < i ==> !lex_lt(ev.0, #[trigger] sorted_before[j].0),
                i < out@.len() ==> lex_lt(ev.0, sorted_before[i as int].0),
            decreases out@.len() - i,
        {
            assert(sorted_before[i as int].0 == out@[i as int].0@);
            if lex_less(&e.0, &out[i].0) {
                break;
            }
            i = i + 1;
        }
        proof {
            lemma_insert_by_path_at(sorted_before, ev, i as int);
            assert(all.take(k + 1).drop_last() =~= all.take(k));
            assert(all.take(k + 1).last() == all[k]);
        }
        out.insert(i, e);
        assert(pairs_view(out@) =~= sorted_before.insert(i as int, ev));
    }
    assert(all.take(n as int) =~= all);
    out
}

/// Appends `b` to `out`.
fn append_bytes(out: &mut Vec<u8>, b: &[u8])
    ensures
        final(out)@ == old(out)@ + b@,
{
    let mut i: usize = 0;
    while i < b.len()
        invariant
            i <= b@.len(),
            out@ == old(out)@ + b@.take(i as int),
        decreases b@.len() - i,
    {
        out.push(b[i]);
        i = i + 1;
        assert(out@ =~= old(out)@ + b@.take(i as int));
    }
    assert(b@.take(b@.len() as int) =~= b@);
}

/// The integrity digest of a package tree, given each file's path relative
/// to the package root and its content: the files are put in path order
/// (separators normalized to `/`) and each contributes its path and content,
/// both preceded by their byte length.
pub fn tree_digest(files: Vec<(String, Vec<u8>)>) -> (r: String)
    ensures
        r@ == spec_tree_digest(files@),
{
    let sorted = sorted_entries(files);
    let ghost sv = pairs_view(sorted@);
    let mut stream: Vec<u8> = Vec::new();
    let mut i: usize = 0;
    while i < sorted.len()
        invariant
            i <= sorted@.len(),
            sv == pairs_view(sorted@),
            stream@ == tree_stream(sv.take(i as int)),
        decreases sorted@.len() - i,
    {
        let rel = string_of(&sorted[i].0);
        let rb = rel.as_str().as_bytes();
        let data = &sorted[i].1;
        let ghost before = stream@;
        append_bytes(&mut stream, u64_to_le_bytes(rb.len() as u64).as_slice());
        append_bytes(&mut stream, rb);
        append_bytes(&mut stream, u64_to_le_bytes(data.len() as u64).as_slice());
        append_bytes(&mut stream, data.as_slice());
        proof {
            assert(sv[i as int] == (sorted@[i as int].0@, sorted@[i as int].1@));
            assert(sv.take(i + 1).drop_last() =~= sv.take(i as int));
            assert(stream@ =~= before + file_record(sv[i as int].0, sv[i as int].1));
        }
        i = i + 1;
    }
    assert(sv.take(sorted@.len() as int) =~= sv);
    let digest = sha256(stream.as_slice());
    hex_encode(digest.as_slice())
}

/// A name that splits into coordinates is their vendor and package joined
/// by `/`; so the label of `from_name(name, version)` is `name@version`.
pub proof fn lemma_split_name_rejoins(name: Seq<char>)
    ensures
        spec_split_name(name) matches Some((v, p)) ==> v + seq!['/'] + p == name,
{
    lemma_find_from(name, seq!['/'], 0);
    if let Some(k) = find(name, seq!['/']) {
        assert(name.subrange(k, k + 1) == seq!['/']);
        assert(name[k] == name.subrange(k, k + 1)[0]);
        assert(name.take(k) + seq!['/'] + name.skip(k + 1) =~= name);
    }
}

/// The label of the coordinates of a Composer name is `name@version`.
pub proof fn lemma_label_of_name(name: Seq<char>, c: PackageCoords)
    requires
        spec_split_name(name) matches Some((v, p)) && c.vendor@ == v && c.package@ == p,
    ensures
        spec_label(c) == name + seq!['@'] + c.version@,
{
    lemma_split_name_rejoins(name);
    assert(spec_label(c) =~= name + seq!['@'] + c.version@);
}

// ----------------------------------------------------------------------------
// The digest does not depend on the listing order

/// Paths in non-decreasing `str` order.
pub open spec fn sorted_by_path(t: Seq<(Seq<char>, Seq<u8>)>) -> bool {
    forall|i: int, j: int| 0 <= i < j < t.len() ==> !lex_lt(#[trigger] t[j].0, #[trigger] t[i].0)
}

/// No two entries share a path.
pub open spec fn distinct_paths(t: Seq<(Seq<char>, Seq<u8>)>) -> bool {
    forall|i: int, j: int| 0 <= i < t.len() && 0 <= j < t.len() && i != j ==> #[trigger] t[i].0
        != #[trigger] t[j].0
}

proof fn lemma_insert_by_path_props(s: Seq<(Seq<char>, Seq<u8>)>, e: (Seq<char>, Seq<u8>))
    ensures
        insert_by_path(s, e).to_multiset() == s.to_multiset().insert(e),
        sorted_by_path(s) ==> sorted_by_path(insert_by_path(s, e)),
        forall|x| #[trigger] insert_by_path(s, e).contains(x) ==> x == e || s.contains(x),
    decreases s.len(),
{
    broadcast use vstd::seq_lib::group_to_multiset_ensures;

    let r = insert_by_path(s, e);
    if s.len() == 0 {
        assert(seq![e] =~= Seq::<(Seq<char>, Seq<u8>)>::empty().push(e));
        assert forall|x| #[trigger] r.contains(x) implies x == e || s.contains(x) by {
            assert(r[0] == e);
        }
    } else if lex_lt(e.0, s[0].0) {
        assert(r =~= s.insert(0, e));
        if sorted_by_path(s) {
            assert forall|i: int, j: int| 0 <= i < j < r.len() implies !lex_lt(
                #[trigger] r[j].0,
                #[trigger] r[i].0,
            ) by {
                if i == 0 {
                    assert(r[j] == s[j - 1]);
                    if j - 1 > 0 {
                        assert(!lex_lt(s[j - 1].0, s[0].0));
                    }
                    lemma_lex_total(s[j - 1].0, s[0].0);
                    lemma_lex_total(e.0, s[0].0);
                    if lex_lt(s[j - 1].0, e.0) {
                        lemma_lex_trans(s[j - 1].0, e.0, s[0].0);
                    }
                } else {
                    assert(r[i] == s[i - 1] && r[j] == s[j - 1]);
                }
            }
        }
        assert forall|x| #[trigger] r.contains(x) implies x == e || s.contains(x) by {
            let k = choose|k: int| 0 <= k < r.len() && r[k] == x;
            if k > 0 {
                assert(s[k - 1] == x);
            }
        }
    } else {
        let t = s.drop_first();
        let rt = insert_by_path(t, e);
        lemma_insert_by_path_props(t, e);
        assert(r == seq![s[0]] + rt);
        assert(r =~= rt.insert(0, s[0]));
        assert(s =~= t.insert(0, s[0]));
        assert(r.to_multiset() =~= s.to_multiset().insert(e));
        assert forall|x| #[trigger] r.contains(x) implies x == e || s.contains(x) by {
            let k = choose|k: int| 0 <= k < r.len() && r[k] == x;
            if k == 0 {
                assert(s[0] == x);
            } else {
                assert(rt[k - 1] == x);
                assert(rt.contains(x));
                if x != e {
                    assert(t.contains(x));
                    let m = choose|m: int| 0 <= m < t.len() && t[m] == x;
                    assert(s[m + 1] == x);
                }
            }
        }
        if sorted_by_path(s) {
            assert(sorted_by_path(t)) by {
                assert forall|i: int, j: int| 0 <= i < j < t.len() implies !lex_lt(
                    #[trigger] t[j].0,
                    #[trigger] t[i].0,
                ) by {
                    assert(t[i] == s[i + 1] && t[j] == s[j + 1]);
                }
            }
            assert forall|i: int, j: int| 0 <= i < j < r.len() implies !lex_lt(
                #[trigger] r[j].0,
                #[trigger] r[i].0,
            ) by {
                if i == 0 {
                    assert(r[0] == s[0]);
                    assert(r[j] == rt[j - 1]);
                    assert(rt.contains(rt[j - 1]));
                    if rt[j - 1] != e {
                        let m = choose|m: int| 0 <= m < s.len() && s[m] == rt[j - 1];
                        if m > 0 {
                            assert(!lex_lt(s[m].0, s[0].0));
                        }
                    }
                } else {
                    assert(r[i] == rt[i - 1] && r[j] == rt[j - 1]);
                }
            }
        }
    }
}

/// Sorting keeps the files and puts them in path order.
pub proof fn lemma_sort_by_path_props(s: Seq<(Seq<char>, Seq<u8>)>)
    ensures
        sort_by_path(s).to_multiset() == s.to_multiset(),
        sorted_by_path(sort_by_path(s)),
    decreases s.len(),
{
    broadcast use vstd::seq_lib::group_to_multiset_ensures;

    if s.len() > 0 {
        lemma_sort_by_path_props(s.drop_last());
        lemma_insert_by_path_props(sort_by_path(s.drop_last()), s.last());
        assert(s.drop_last().push(s.last()) =~= s);
    }
}

/// Two path-sorted sequences of the same entries, no path twice, are equal.
proof fn lemma_sorted_unique(t1: Seq<(Seq<char>, Seq<u8>)>, t2: Seq<(Seq<char>, Seq<u8>)>)
    requires
        sorted_by_path(t1),
        sorted_by_path(t2),
        distinct_paths(t1),
        t1.to_multiset() == t2.to_multiset(),
    ensures
        t1 == t2,
    decreases t1.len(),
{
    broadcast use vstd::seq_lib::group_to_multiset_ensures;

    if t1.len() == 0 {
        assert(t2.to_multiset().len() == 0);
        assert(t2 =~= t1);
    } else {
        assert(t1.to_multiset().len() == t1.len());
        assert(t2.to_multiset().len() == t2.len());
        assert(t2.len() == t1.len());
        let a = t1[0];
        let b = t2[0];
        assert(t1.to_multiset().count(a) > 0);
        assert(t2.contains(a));
        assert(t2.to_multiset().count(b) > 0);
        assert(t1.contains(b));
        let m = choose|m: int| 0 <= m < t2.len() && t2[m] == a;
        let n = choose|n: int| 0 <= n < t1.len() && t1[n] == b;
        if m > 0 {
            assert(!lex_lt(t2[m].0, t2[0].0));
        }
        if n > 0 {
            assert(!lex_lt(t1[n].0, t1[0].0));
        }
        lemma_lex_total(a.0, b.0);
        assert(a.0 == b.0);
        if n != 0 {
            assert(t1[n].0 != t1[0].0);
        }
        assert(a == b);
        let r1 = t1.drop_first();
        let r2 = t2.drop_first();
        assert(t1.remove(0) =~= r1);
        assert(t2.remove(0) =~= r2);
        assert(r1.to_multiset() == r2.to_multiset());
        assert(sorted_by_path(r1)) by {
            assert forall|i: int, j: int| 0 <= i < j < r1.len() implies !lex_lt(
                #[trigger] r1[j].0,
                #[trigger] r1[i].0,
            ) by {
                assert(r1[i] == t1[i + 1] && r1[j] == t1[j + 1]);
            }
        }
        assert(sorted_by_path(r2)) by {
            assert forall|i: int, j: int| 0 <= i < j < r2.len() implies !lex_lt(
                #[trigger] r2[j].0,
                #[trigger] r2[i].0,
            ) by {
                assert(r2[i] == t2[i + 1] && r2[j] == t2[j + 1]);
            }
        }
        assert(distinct_paths(r1)) by {
            assert forall|i: int, j: int|
                0 <= i < r1.len() && 0 <= j < r1.len() && i != j implies #[trigger] r1[i].0
                != #[trigger] r1[j].0 by {
                assert(r1[i] == t1[i + 1] && r1[j] == t1[j + 1]);
            }
        }
        lemma_sorted_unique(r1, r2);
        assert(t1 =~= t2) by {
            assert forall|i: int| 0 <= i < t1.len() implies t1[i] == t2[i] by {
                if i > 0 {
                    assert(t1[i] == r1[i - 1] && t2[i] == r2[i - 1]);
                }
            }
        }
    }
}

/// Entries with the same multiset as entries with distinct paths have
/// distinct paths.
proof fn lemma_distinct_paths_transfer(t: Seq<(Seq<char>, Seq<u8>)>, u: Seq<(Seq<char>, Seq<u8>)>)
    requires
        distinct_paths(u),
        t.to_multiset() == u.to_multiset(),
    ensures
        distinct_paths(t),
{
    broadcast use vstd::seq_lib::group_to_multiset_ensures;

    assert(u.no_duplicates()) by {
        assert forall|i: int, j: int|
            0 <= i < u.len() && 0 <= j < u.len() && i != j implies u[i] != u[j] by {
            assert(u[i].0 != u[j].0);
        }
    }
    u.lemma_multiset_has_no_duplicates();
    t.lemma_multiset_has_no_duplicates_conv();
    assert forall|i: int, j: int|
        0 <= i < t.len() && 0 <= j < t.len() && i != j implies #[trigger] t[i].0 != #[trigger] t[j].0 by {
        assert(t[i] != t[j]);
        assert(t.to_multiset().count(t[i]) > 0);
        assert(t.to_multiset().count(t[j]) > 0);
        assert(u.contains(t[i]));
        assert(u.contains(t[j]));
        let p = choose|p: int| 0 <= p < u.len() && u[p] == t[i];
        let q = choose|q: int| 0 <= q < u.len() && u[q] == t[j];
        assert(p != q);
    }
}

/// The digest of a package tree does not depend on the order in which its
/// files are listed: two listings of the same files (same paths once `\` is
/// read as `/`, same contents), no path twice, have the same digest.
pub proof fn lemma_tree_digest_order_free(a: Seq<(String, Vec<u8>)>, b: Seq<(String, Vec<u8>)>)
    requires
        distinct_paths(file_entries(a)),
        file_entries(a).to_multiset() == file_entries(b).to_multiset(),
    ensures
        spec_tree_digest(a) == spec_tree_digest(b),
{
    let sa = sort_by_path(file_entries(a));
    let sb = sort_by_path(file_entries(b));
    lemma_sort_by_path_props(file_entries(a));
    lemma_sort_by_path_props(file_entries(b));
    lemma_distinct_paths_transfer(sa, file_entries(a));
    lemma_sorted_unique(sa, sb);
}

/// Nor does it depend on the separator style of the listing: paths that
/// agree once a backslash is read as `/` give the same digest.
pub proof fn lemma_tree_digest_separator_free(a: Seq<(String, Vec<u8>)>, b: Seq<(String, Vec<u8>)>)
    requires
        a.len() == b.len(),
        forall|i: int| 0 <= i < a.len() ==> slashes(#[trigger] a[i].0@) == slashes(b[i].0@) && a[i].1@ == b[i].1@,
    ensures
        spec_tree_digest(a) == spec_tree_digest(b),
{
    assert(file_entries(a) =~= file_entries(b));
}


/// The bytes one file's record takes in the hashed stream: its path's UTF-8
/// length and its content length (8 bytes each), the path and the content.
pub open spec fn record_len(rel: Seq<char>, data: Seq<u8>) -> int {
    16 + encode_utf8(rel).len() as int + data.len() as int
}

/// The bytes the records of `files` take together.
pub open spec fn records_len(files: Seq<(Seq<char>, Seq<u8>)>) -> int
    decreases files.len(),
{
    if files.len() == 0 {
        0
    } else {
        records_len(files.drop_last()) + record_len(files.last().0, files.last().1)
    }
}

/// File `i`'s record sits at `off` in `st`: path length, path, content
/// length, content.
pub open spec fn record_at(st: Seq<u8>, off: int, rel: Seq<char>, d: Seq<u8>) -> bool {
    let u = encode_utf8(rel);
    &&& 0 <= off
    &&& off + record_len(rel, d) <= st.len()
    &&& st.subrange(off, off + 8) == spec_u64_to_le_bytes(u.len() as u64)
    &&& st.subrange(off + 8, off + 8 + u.len()) == u
    &&& st.subrange(off + 8 + u.len(), off + 16 + u.len()) == spec_u64_to_le_bytes(d.len() as u64)
    &&& st.subrange(off + 16 + u.len(), off + record_len(rel, d)) == d
}

/// The hashed stream holds one record per file, in order, and nothing else:
/// the record of file `i` starts where those of the files before it end and
/// is its path length, its path, its content length and its content. So every
/// file counts, an empty one too, and no two listings that differ in a path
/// or a content give the same stream.
pub proof fn lemma_tree_stream_framing(files: Seq<(Seq<char>, Seq<u8>)>)
    ensures
        tree_stream(files).len() == records_len(files),
        forall|i: int|
            0 <= i < files.len() ==> record_at(
                tree_stream(files),
                records_len(files.take(i)),
                #[trigger] files[i].0,
                files[i].1,
            ),
{
    lemma_stream_len(files);
    assert forall|i: int| 0 <= i < files.len() implies record_at(
        tree_stream(files),
        records_len(files.take(i)),
        #[trigger] files[i].0,
        files[i].1,
    ) by {
        lemma_record_at(files, i);
    }
}

proof fn lemma_stream_len(files: Seq<(Seq<char>, Seq<u8>)>)
    ensures
        tree_stream(files).len() == records_len(files),
    decreases files.len(),
{
    vstd::bytes::lemma_auto_spec_u64_to_from_le_bytes();
    if files.len() > 0 {
        lemma_stream_len(files.drop_last());
        let (rel, data) = files.last();
        assert(spec_u64_to_le_bytes(encode_utf8(rel).len() as u64).len() == 8);
        assert(spec_u64_to_le_bytes(data.len() as u64).len() == 8);
    }
}

proof fn lemma_record_at(files: Seq<(Seq<char>, Seq<u8>)>, i: int)
    requires
        0 <= i < files.len(),
    ensures
        record_at(tree_stream(files), records_len(files.take(i)), files[i].0, files[i].1),
    decreases files.len(),
{
    vstd::bytes::lemma_auto_spec_u64_to_from_le_bytes();
    let pre = files.drop_last();
    let st = tree_stream(files);
    let ps = tree_stream(pre);
    let (rel, data) = files.last();
    lemma_stream_len(pre);
    lemma_records_len_nonneg(pre);
    assert(st == ps + file_record(rel, data));
    if i < files.len() - 1 {
        lemma_record_at(pre, i);
        assert(files.take(i) =~= pre.take(i));
        assert(files[i] == pre[i]);
        let off = records_len(pre.take(i));
        let ui = encode_utf8(pre[i].0);
        let di = pre[i].1;
        assert(st.subrange(off, off + 8) =~= ps.subrange(off, off + 8));
        assert(st.subrange(off + 8, off + 8 + ui.len()) =~= ps.subrange(off + 8, off + 8 + ui.len()));
        assert(st.subrange(off + 8 + ui.len(), off + 16 + ui.len()) =~= ps.subrange(
            off + 8 + ui.len(),
            off + 16 + ui.len(),
        ));
        assert(st.subrange(off + 16 + ui.len(), off + record_len(pre[i].0, di)) =~= ps.subrange(
            off + 16 + ui.len(),
            off + record_len(pre[i].0, di),
        ));
    } else {
        let u = encode_utf8(rel);
        let a = spec_u64_to_le_bytes(u.len() as u64);
        let b = spec_u64_to_le_bytes(data.len() as u64);
        assert(file_record(rel, data) == a + u + b + data);
        assert(files.take(i) =~= pre);
        let off = ps.len() as int;
        assert(st.subrange(off, off + 8) =~= a);
        assert(st.subrange(off + 8, off + 8 + u.len()) =~= u);
        assert(st.subrange(off + 8 + u.len(), off + 16 + u.len()) =~= b);
        assert(st.subrange(off + 16 + u.len(), off + record_len(rel, data)) =~= data);
    }
}

proof fn lemma_records_len_nonneg(files: Seq<(Seq<char>, Seq<u8>)>)
    ensures
        records_len(files) >= 0,
    decreases files.len(),
{
    if files.len() > 0 {
        lemma_records_len_nonneg(files.drop_last());
    }
}

} // verus!
