//! composer.json and composer.lock: their schema over JSON documents.
//!
//! Reading follows the schema field by field: a missing field takes its
//! default, a field of the wrong JSON type is a data error, unknown fields are
//! ignored. `psr-4`, `psr-0` and `scripts` map each key to a string or a list
//! of strings (anything else counts as no entry); `bin` is a string or a list.
use vstd::prelude::*;
use crate::json::{json_document, json_error, json_from_str, Json};
use crate::strmap::{lemma_insert_then_lookup, lemma_lookup_at, lemma_lookup_none, lookup, StrMap};
use crate::text::{chars_eq, chars_of};

verus! {

#[derive(Debug)]
pub enum LockError {
    Json(serde_json::Error),
}

// ----------------------------------------------------------------------------
// The schema, over JSON values

pub open spec fn strs(v: Seq<String>) -> Seq<Seq<char>> {
    v.map_values(|s: String| s@)
}

pub proof fn lemma_strs_push(v: Seq<String>, e: String)
    ensures
        strs(v.push(e)) == strs(v).push(e@),
{
    assert(strs(v.push(e)) =~= strs(v).push(e@));
}

/// The value of the last entry whose key is `k`.
pub open spec fn lookup_last<V>(s: Seq<(String, V)>, k: Seq<char>) -> Option<V>
    decreases s.len(),
{
    if s.len() == 0 {
        None
    } else if s.last().0@ == k {
        Some(s.last().1)
    } else {
        lookup_last(s.drop_last(), k)
    }
}

pub open spec fn str_value(j: Json) -> Option<Seq<char>> {
    match j {
        Json::Str(s) => Some(s@),
        _ => None,
    }
}

pub open spec fn str_or_empty(j: Json) -> Seq<char> {
    match j {
        Json::Str(s) => s@,
        _ => seq![],
    }
}

pub open spec fn all_strs(items: Seq<Json>) -> bool {
    forall|i: int| 0 <= i < items.len() ==> (#[trigger] items[i] is Str)
}

/// A `Vec<String>`: a JSON array of strings.
pub open spec fn str_list(j: Json) -> Option<Seq<Seq<char>>> {
    match j {
        Json::Array(items) => if all_strs(items@) {
            Some(items@.map_values(|x: Json| str_or_empty(x)))
        } else {
            None
        },
        _ => None,
    }
}

/// A string or a list of strings, as a list; any other value as no entry.
pub open spec fn one_or_many(j: Json) -> Seq<Seq<char>> {
    match j {
        Json::Str(s) => seq![s@],
        _ => match str_list(j) {
            Some(l) => l,
            None => seq![],
        },
    }
}

pub open spec fn opt_string_view(o: Option<String>) -> Option<Seq<char>> {
    match o {
        Some(s) => Some(s@),
        None => None,
    }
}

pub open spec fn opt_list_view(o: Option<Vec<String>>) -> Option<Seq<Seq<char>>> {
    match o {
        Some(v) => Some(strs(v@)),
        None => None,
    }
}

/// `m` maps each key of the object `es` to its (last) string value.
pub open spec fn string_map_matches(m: StrMap<String>, es: Seq<(String, Json)>) -> bool {
    &&& m.wf()
    &&& forall|k: Seq<char>| #[trigger]
        opt_string_view(m.spec_get(k)) == match lookup_last(es, k) {
            Some(j) => Some(str_or_empty(j)),
            None => None,
        }
}

/// `m` maps each key of the object `es` to its (last) value read as a list.
pub open spec fn list_map_matches(m: StrMap<Vec<String>>, es: Seq<(String, Json)>) -> bool {
    &&& m.wf()
    &&& forall|k: Seq<char>| #[trigger]
        opt_list_view(m.spec_get(k)) == match lookup_last(es, k) {
            Some(j) => Some(one_or_many(j)),
            None => None,
        }
}

pub open spec fn empty_map<V>(m: StrMap<V>) -> bool {
    m.wf() && m.entries().len() == 0
}

/// A field of a struct document: an object's entry under `k`, or, in
/// serde's positional form of a struct (an array of the fields in
/// declaration order), the element at `pos`.
pub open spec fn fget(j: Json, k: Seq<char>, pos: int) -> Option<Json> {
    match j {
        Json::Object(es) => lookup(es@, k),
        Json::Array(items) => if 0 <= pos < items@.len() {
            Some(items@[pos])
        } else {
            None
        },
        _ => None,
    }
}

/// A document of a struct's shape: an object, or the positional form with
/// every field up to the last one without default (`min`) and no more
/// elements than fields (`max`).
pub open spec fn struct_shape(j: Json, min: int, max: int) -> bool {
    match j {
        Json::Object(_) => true,
        Json::Array(items) => min <= items@.len() <= max,
        _ => false,
    }
}

/// A `String` field defaulting to "": present values must be strings.
pub open spec fn str_field_ok(v: Option<Json>) -> bool {
    match v {
        None => true,
        Some(j) => j is Str,
    }
}

pub open spec fn str_field(v: Option<Json>) -> Seq<char> {
    match v {
        Some(j) => str_or_empty(j),
        None => seq![],
    }
}

/// A required `String` field.
pub open spec fn req_str_field_ok(v: Option<Json>) -> bool {
    v matches Some(j) && j is Str
}

/// An `Option<String>` field: missing or null is `None`.
pub open spec fn opt_str_field_ok(v: Option<Json>) -> bool {
    match v {
        None => true,
        Some(j) => j is Null || j is Str,
    }
}

pub open spec fn opt_str_field(v: Option<Json>) -> Option<Seq<char>> {
    match v {
        Some(j) => str_value(j),
        None => None,
    }
}

/// A `BTreeMap<String, String>` field defaulting to empty.
pub open spec fn string_map_field_ok(v: Option<Json>) -> bool {
    match v {
        None => true,
        Some(Json::Object(o)) => forall|i: int| 0 <= i < o@.len() ==> (#[trigger] o@[i].1 is Str),
        Some(_) => false,
    }
}

pub open spec fn string_map_field(v: Option<Json>, m: StrMap<String>) -> bool {
    match v {
        Some(Json::Object(o)) => string_map_matches(m, o@),
        _ => empty_map(m),
    }
}

/// A string-or-list map field (`psr-4`, `psr-0`, `scripts`): missing or null is empty.
pub open spec fn list_map_field_ok(v: Option<Json>) -> bool {
    match v {
        None => true,
        Some(j) => j is Null || j is Object,
    }
}

pub open spec fn list_map_field(v: Option<Json>, m: StrMap<Vec<String>>) -> bool {
    match v {
        Some(Json::Object(o)) => list_map_matches(m, o@),
        _ => empty_map(m),
    }
}

/// A `Vec<String>` field defaulting to empty.
pub open spec fn str_list_field_ok(v: Option<Json>) -> bool {
    match v {
        None => true,
        Some(j) => str_list(j) is Some,
    }
}

pub open spec fn str_list_field(v: Option<Json>) -> Seq<Seq<char>> {
    match v {
        Some(j) => match str_list(j) {
            Some(l) => l,
            None => seq![],
        },
        None => seq![],
    }
}

/// The `bin` field: missing or null is empty, else a string or a list.
pub open spec fn string_or_vec_field(v: Option<Json>) -> Seq<Seq<char>> {
    match v {
        None => seq![],
        Some(Json::Null) => seq![],
        Some(j) => one_or_many(j),
    }
}

// ----------------------------------------------------------------------------
// composer.json

/// One `autoload` / `autoload-dev` block.
#[derive(Debug, Clone)]
pub struct Autoload {
    pub psr4: StrMap<Vec<String>>,
    pub psr0: StrMap<Vec<String>>,
    pub files: Vec<String>,
    pub classmap: Vec<String>,
}

pub open spec fn autoload_empty(a: Autoload) -> bool {
    &&& empty_map(a.psr4)
    &&& empty_map(a.psr0)
    &&& a.files@.len() == 0
    &&& a.classmap@.len() == 0
}

pub open spec fn autoload_wf(a: Autoload) -> bool {
    a.psr4.wf() && a.psr0.wf()
}

impl Default for Autoload {
    fn default() -> (r: Self)
        ensures
            autoload_empty(r),
    {
        Autoload { psr4: StrMap::new(), psr0: StrMap::new(), files: Vec::new(), classmap: Vec::new() }
    }
}

pub open spec fn autoload_ok(j: Json) -> bool {
    &&& struct_shape(j, 0, 4)
    &&& list_map_field_ok(fget(j, "psr-4"@, 0))
    &&& list_map_field_ok(fget(j, "psr-0"@, 1))
    &&& str_list_field_ok(fget(j, "files"@, 2))
    &&& str_list_field_ok(fget(j, "classmap"@, 3))
}

pub open spec fn autoload_matches(j: Json, a: Autoload) -> bool {
    &&& list_map_field(fget(j, "psr-4"@, 0), a.psr4)
    &&& list_map_field(fget(j, "psr-0"@, 1), a.psr0)
    &&& strs(a.files@) == str_list_field(fget(j, "files"@, 2))
    &&& strs(a.classmap@) == str_list_field(fget(j, "classmap"@, 3))
}

/// An `Autoload` field defaulting to the empty block.
pub open spec fn autoload_field_ok(v: Option<Json>) -> bool {
    match v {
        None => true,
        Some(j) => autoload_ok(j),
    }
}

pub open spec fn autoload_field(v: Option<Json>, a: Autoload) -> bool {
    match v {
        Some(j) => autoload_matches(j, a),
        None => autoload_empty(a),
    }
}

/// The parts of composer.json that phpm reads.
#[derive(Debug, Clone)]
pub struct ComposerJson {
    pub name: String,
    pub require: StrMap<String>,
    pub require_dev: StrMap<String>,
    pub autoload: Autoload,
    pub autoload_dev: Autoload,
    pub scripts: StrMap<Vec<String>>,
    pub bin: Vec<String>,
}

pub open spec fn composer_json_wf(c: ComposerJson) -> bool {
    &&& c.require.wf()
    &&& c.require_dev.wf()
    &&& autoload_wf(c.autoload)
    &&& autoload_wf(c.autoload_dev)
    &&& c.scripts.wf()
}

impl Default for ComposerJson {
    fn default() -> (r: Self)
        ensures
            r.name@ == Seq::<char>::empty(),
            empty_map(r.require),
            empty_map(r.require_dev),
            autoload_empty(r.autoload),
            autoload_empty(r.autoload_dev),
            empty_map(r.scripts),
            r.bin@.len() == 0,
    {
        ComposerJson {
            name: String::new(),
            require: StrMap::new(),
            require_dev: StrMap::new(),
            autoload: Autoload::default(),
            autoload_dev: Autoload::default(),
            scripts: StrMap::new(),
            bin: Vec::new(),
        }
    }
}

/// The document is a composer.json of the expected shape.
pub open spec fn composer_json_ok(j: Json) -> bool {
    &&& struct_shape(j, 0, 7)
    &&& str_field_ok(fget(j, "name"@, 0))
    &&& string_map_field_ok(fget(j, "require"@, 1))
    &&& string_map_field_ok(fget(j, "require-dev"@, 2))
    &&& autoload_field_ok(fget(j, "autoload"@, 3))
    &&& autoload_field_ok(fget(j, "autoload-dev"@, 4))
    &&& list_map_field_ok(fget(j, "scripts"@, 5))
}

/// `c` is what the document says.
pub open spec fn composer_json_matches(j: Json, c: ComposerJson) -> bool {
    &&& c.name@ == str_field(fget(j, "name"@, 0))
    &&& string_map_field(fget(j, "require"@, 1), c.require)
    &&& string_map_field(fget(j, "require-dev"@, 2), c.require_dev)
    &&& autoload_field(fget(j, "autoload"@, 3), c.autoload)
    &&& autoload_field(fget(j, "autoload-dev"@, 4), c.autoload_dev)
    &&& list_map_field(fget(j, "scripts"@, 5), c.scripts)
    &&& strs(c.bin@) == string_or_vec_field(fget(j, "bin"@, 6))
}

// ----------------------------------------------------------------------------
// composer.lock

#[derive(Debug, Clone)]
pub struct Dist {
    pub dist_type: String,
    pub url: Option<String>,
    pub reference: String,
    pub shasum: String,
}

#[derive(Debug, Clone)]
pub struct Source {
    pub source_type: String,
    pub url: Option<String>,
    pub reference: String,
}

#[derive(Debug, Clone)]
pub struct LockedPackage {
    pub name: String,
    pub version: String,
    pub package_type: String,
    pub dist: Option<Dist>,
    pub source: Option<Source>,
}

#[derive(Debug, Clone)]
pub struct ComposerLock {
    pub content_hash: String,
    pub packages: Vec<LockedPackage>,
    pub packages_dev: Vec<LockedPackage>,
    pub plugin_api_version: String,
}

pub open spec fn dist_ok(j: Json) -> bool {
    &&& struct_shape(j, 2, 4)
    &&& req_str_field_ok(fget(j, "type"@, 0))
    &&& opt_str_field_ok(fget(j, "url"@, 1))
    &&& str_field_ok(fget(j, "reference"@, 2))
    &&& str_field_ok(fget(j, "shasum"@, 3))
}

pub open spec fn dist_matches(j: Json, d: Dist) -> bool {
    &&& d.dist_type@ == str_field(fget(j, "type"@, 0))
    &&& opt_string_view(d.url) == opt_str_field(fget(j, "url"@, 1))
    &&& d.reference@ == str_field(fget(j, "reference"@, 2))
    &&& d.shasum@ == str_field(fget(j, "shasum"@, 3))
}

pub open spec fn source_ok(j: Json) -> bool {
    &&& struct_shape(j, 2, 3)
    &&& req_str_field_ok(fget(j, "type"@, 0))
    &&& opt_str_field_ok(fget(j, "url"@, 1))
    &&& str_field_ok(fget(j, "reference"@, 2))
}

pub open spec fn source_matches(j: Json, s: Source) -> bool {
    &&& s.source_type@ == str_field(fget(j, "type"@, 0))
    &&& opt_string_view(s.url) == opt_str_field(fget(j, "url"@, 1))
    &&& s.reference@ == str_field(fget(j, "reference"@, 2))
}

/// The package type when the lock names none.
pub open spec fn spec_default_type() -> Seq<char> {
    "library"@
}

/// A locked package. In the positional form all five fields are present:
/// `dist` and `source` have no default there.
pub open spec fn package_ok(j: Json) -> bool {
    &&& struct_shape(j, 5, 5)
    &&& req_str_field_ok(fget(j, "name"@, 0))
    &&& req_str_field_ok(fget(j, "version"@, 1))
    &&& str_field_ok(fget(j, "type"@, 2))
    &&& match fget(j, "dist"@, 3) {
        None => true,
        Some(Json::Null) => true,
        Some(d) => dist_ok(d),
    }
    &&& match fget(j, "source"@, 4) {
        None => true,
        Some(Json::Null) => true,
        Some(s) => source_ok(s),
    }
}

pub open spec fn package_matches(j: Json, p: LockedPackage) -> bool {
    &&& p.name@ == str_field(fget(j, "name"@, 0))
    &&& p.version@ == str_field(fget(j, "version"@, 1))
    &&& p.package_type@ == match fget(j, "type"@, 2) {
        Some(t) => str_or_empty(t),
        None => spec_default_type(),
    }
    &&& match fget(j, "dist"@, 3) {
        None => p.dist is None,
        Some(Json::Null) => p.dist is None,
        Some(d) => p.dist matches Some(x) && dist_matches(d, x),
    }
    &&& match fget(j, "source"@, 4) {
        None => p.source is None,
        Some(Json::Null) => p.source is None,
        Some(s) => p.source matches Some(x) && source_matches(s, x),
    }
}

pub open spec fn packages_field_ok(v: Option<Json>) -> bool {
    match v {
        None => true,
        Some(Json::Array(items)) => forall|i: int|
            0 <= i < items@.len() ==> package_ok(#[trigger] items@[i]),
        Some(_) => false,
    }
}

pub open spec fn packages_field(v: Option<Json>, ps: Seq<LockedPackage>) -> bool {
    match v {
        Some(Json::Array(items)) => {
            &&& ps.len() == items@.len()
            &&& forall|i: int| 0 <= i < ps.len() ==> package_matches(#[trigger] items@[i], ps[i])
        },
        _ => ps.len() == 0,
    }
}

/// The document is a composer.lock of the expected shape.
pub open spec fn lock_ok(j: Json) -> bool {
    &&& struct_shape(j, 0, 4)
    &&& str_field_ok(fget(j, "content-hash"@, 0))
    &&& packages_field_ok(fget(j, "packages"@, 1))
    &&& packages_field_ok(fget(j, "packages-dev"@, 2))
    &&& str_field_ok(fget(j, "plugin-api-version"@, 3))
}

/// `l` is what the document says.
pub open spec fn lock_matches(j: Json, l: ComposerLock) -> bool {
    &&& l.content_hash@ == str_field(fget(j, "content-hash"@, 0))
    &&& packages_field(fget(j, "packages"@, 1), l.packages@)
    &&& packages_field(fget(j, "packages-dev"@, 2), l.packages_dev@)
    &&& l.plugin_api_version@ == str_field(fget(j, "plugin-api-version"@, 3))
}

// ----------------------------------------------------------------------------
// Readers

fn schema_error() -> LockError {
    LockError::Json(json_error("invalid type in document".to_string()))
}

fn missing_field() -> LockError {
    LockError::Json(json_error("missing field".to_string()))
}

/// `a == b` for string slices.
pub fn str_eq(a: &str, b: &str) -> (r: bool)
    ensures
        r == (a@ == b@),
{
    let x = chars_of(a);
    let y = chars_of(b);
    chars_eq(&x, &y)
}

/// The value of the first entry of an object whose key is `key`.
pub fn obj_get<'a>(es: &'a Vec<(String, Json)>, key: &str) -> (r: Option<&'a Json>)
    ensures
        r matches Some(v) ==> lookup(es@, key@) == Some(*v),
        r is None ==> lookup(es@, key@) is None,
{
    let mut i: usize = 0;
    while i < es.len()
        invariant
            i <= es@.len(),
            forall|j: int| 0 <= j < i ==> #[trigger] es@[j].0@ != key@,
        decreases es@.len() - i,
    {
        if str_eq(es[i].0.as_str(), key) {
            proof {
                lemma_lookup_at(es@, key@, i as int);
            }
            return Some(&es[i].1);
        }
        assert(es@[i as int].0@ != key@);
        i = i + 1;
    }
    assert(i == es@.len());
    assert(forall|j: int| 0 <= j < es@.len() ==> #[trigger] es@[j].0@ != key@);
    proof {
        lemma_lookup_none(es@, key@);
    }
    None
}

proof fn lemma_lookup_last_step<V>(s: Seq<(String, V)>, i: int, k: Seq<char>)
    requires
        0 <= i < s.len(),
    ensures
        lookup_last(s.take(i + 1), k) == if s[i].0@ == k {
            Some(s[i].1)
        } else {
            lookup_last(s.take(i), k)
        },
{
    assert(s.take(i + 1).drop_last() =~= s.take(i));
    assert(s.take(i + 1).last() == s[i]);
}

/// A list of strings from a JSON array whose items are all strings.
pub fn str_list_of(j: &Json) -> (r: Option<Vec<String>>)
    ensures
        r matches Some(v) ==> str_list(*j) == Some(strs(v@)),
        r is None ==> str_list(*j) is None,
{
    match j {
        Json::Array(items) => {
            let mut out: Vec<String> = Vec::new();
            let mut i: usize = 0;
            while i < items.len()
                invariant
                    *j == Json::Array(*items),
                    i <= items@.len(),
                    out@.len() == i,
                    forall|k: int| 0 <= k < i ==> (#[trigger] items@[k] is Str),
                    forall|k: int| 0 <= k < i ==> #[trigger] out@[k]@ == str_or_empty(items@[k]),
                decreases items@.len() - i,
            {
                match &items[i] {
                    Json::Str(s) => {
                        out.push(s.clone());
                    },
                    _ => {
                        assert(!(items@[i as int] is Str));
                        assert(!all_strs(items@));
                        return None;
                    },
                }
                i = i + 1;
            }
            assert(strs(out@) =~= items@.map_values(|x: Json| str_or_empty(x)));
            Some(out)
        },
        _ => None,
    }
}

/// A string or a list of strings (the untagged `One`, `Many`, or any other value).
pub enum OneOrMany {
    One(String),
    Many(Vec<String>),
    Other,
}

impl OneOrMany {
    /// Classifies a JSON value: a string, else an array of strings, else anything.
    pub fn from_json(j: &Json) -> (r: OneOrMany)
        ensures
            r matches OneOrMany::One(s) ==> *j == Json::Str(s),
            r matches OneOrMany::Many(v) ==> !(j is Str) && str_list(*j) == Some(strs(v@)),
            r is Other ==> !(j is Str) && str_list(*j) is None,
    {
        match j {
            Json::Str(s) => OneOrMany::One(s.clone()),
            _ => match str_list_of(j) {
                Some(v) => OneOrMany::Many(v),
                None => OneOrMany::Other,
            },
        }
    }

    pub open spec fn spec_into_vec(self) -> Seq<Seq<char>> {
        match self {
            OneOrMany::One(s) => seq![s@],
            OneOrMany::Many(v) => strs(v@),
            OneOrMany::Other => seq![],
        }
    }

    /// A string becomes a one-element list; any other value no entry.
    pub fn into_vec(self) -> (r: Vec<String>)
        ensures
            strs(r@) == self.spec_into_vec(),
    {
        match self {
            OneOrMany::One(s) => {
                let r = vec![s];
                assert(strs(r@) =~= self.spec_into_vec());
                r
            },
            OneOrMany::Many(v) => v,
            OneOrMany::Other => {
                let r: Vec<String> = Vec::new();
                assert(strs(r@) =~= seq![]);
                r
            },
        }
    }
}

/// `one_or_many(j)` computed.
pub fn one_or_many_of(j: &Json) -> (r: Vec<String>)
    ensures
        strs(r@) == one_or_many(*j),
{
    OneOrMany::from_json(j).into_vec()
}

/// A `BTreeMap<String, String>` from an object whose values are all strings.
pub fn string_map_of(o: &Vec<(String, Json)>) -> (r: Result<StrMap<String>, LockError>)
    ensures
        r is Ok <==> forall|i: int| 0 <= i < o@.len() ==> (#[trigger] o@[i].1 is Str),
        r matches Ok(m) ==> string_map_matches(m, o@),
{
    let mut m: StrMap<String> = StrMap::new();
    let mut i: usize = 0;
    while i < o.len()
        invariant
            i <= o@.len(),
            m.wf(),
            forall|k: int| 0 <= k < i ==> (#[trigger] o@[k].1 is Str),
            forall|k: Seq<char>| #[trigger]
                opt_string_view(m.spec_get(k)) == match lookup_last(o@.take(i as int), k) {
                    Some(j) => Some(str_or_empty(j)),
                    None => None,
                },
        decreases o@.len() - i,
    {
        match &o[i].1 {
            Json::Str(s) => {
                let ghost before = m.entries();
                let ghost old_m = m;
                let key = o[i].0.clone();
                let v = s.clone();
                m.insert(key, v);
                proof {
                    assert forall|k: Seq<char>| #[trigger]
                        opt_string_view(m.spec_get(k)) == match lookup_last(
                            o@.take(i + 1),
                            k,
                        ) {
                            Some(j) => Some(str_or_empty(j)),
                            None => None,
                        } by {
                        lemma_insert_then_lookup(before, key, v, k);
                        lemma_lookup_last_step(o@, i as int, k);
                        assert(opt_string_view(old_m.spec_get(k)) == match lookup_last(
                            o@.take(i as int),
                            k,
                        ) {
                            Some(j) => Some(str_or_empty(j)),
                            None => None,
                        });
                    }
                }
            },
            _ => {
                return Err(schema_error());
            },
        }
        i = i + 1;
    }
    assert(o@.take(o@.len() as int) =~= o@);
    Ok(m)
}

/// A string-or-list map from an object (`OneOrMany` per value).
pub fn list_map_of(o: &Vec<(String, Json)>) -> (r: StrMap<Vec<String>>)
    ensures
        list_map_matches(r, o@),
{
    let mut m: StrMap<Vec<String>> = StrMap::new();
    let mut i: usize = 0;
    while i < o.len()
        invariant
            i <= o@.len(),
            m.wf(),
            forall|k: Seq<char>| #[trigger]
                opt_list_view(m.spec_get(k)) == match lookup_last(o@.take(i as int), k) {
                    Some(j) => Some(one_or_many(j)),
                    None => None,
                },
        decreases o@.len() - i,
    {
        let ghost before = m.entries();
        let ghost old_m = m;
        let key = o[i].0.clone();
        let v = one_or_many_of(&o[i].1);
        m.insert(key, v);
        proof {
            assert forall|k: Seq<char>| #[trigger]
                opt_list_view(m.spec_get(k)) == match lookup_last(o@.take(i + 1), k) {
                    Some(j) => Some(one_or_many(j)),
                    None => None,
                } by {
                lemma_insert_then_lookup(before, key, v, k);
                lemma_lookup_last_step(o@, i as int, k);
                assert(opt_list_view(old_m.spec_get(k)) == match lookup_last(
                    o@.take(i as int),
                    k,
                ) {
                    Some(j) => Some(one_or_many(j)),
                    None => None,
                });
            }
        }
        i = i + 1;
    }
    assert(o@.take(o@.len() as int) =~= o@);
    m
}

/// The field `key` (at position `pos` in the positional form) of a struct
/// document.
pub fn field<'a>(j: &'a Json, key: &str, pos: usize) -> (r: Option<&'a Json>)
    ensures
        r matches Some(v) ==> fget(*j, key@, pos as int) == Some(*v),
        r is None ==> fget(*j, key@, pos as int) is None,
{
    match j {
        Json::Object(es) => obj_get(es, key),
        Json::Array(items) => {
            if pos < items.len() {
                Some(&items[pos])
            } else {
                None
            }
        },
        _ => None,
    }
}

/// Whether a document has a struct's shape (see `struct_shape`).
pub fn in_shape(j: &Json, min: usize, max: usize) -> (b: bool)
    ensures
        b == struct_shape(*j, min as int, max as int),
{
    match j {
        Json::Object(_) => true,
        Json::Array(items) => min <= items.len() && items.len() <= max,
        _ => false,
    }
}

/// `#[serde(default, deserialize_with = "one_or_many_map")]`: missing or null is empty.
pub fn one_or_many_map(j: &Json, key: &str, pos: usize) -> (r: Result<
    StrMap<Vec<String>>,
    LockError,
>)
    ensures
        r is Ok <==> list_map_field_ok(fget(*j, key@, pos as int)),
        r matches Ok(m) ==> list_map_field(fget(*j, key@, pos as int), m),
{
    match field(j, key, pos) {
        None => Ok(StrMap::new()),
        Some(Json::Null) => Ok(StrMap::new()),
        Some(Json::Object(o)) => Ok(list_map_of(o)),
        Some(_) => Err(schema_error()),
    }
}

/// `#[serde(default, deserialize_with = "string_or_vec")]`: missing or null is empty.
pub fn string_or_vec(j: &Json, key: &str, pos: usize) -> (r: Vec<String>)
    ensures
        strs(r@) == string_or_vec_field(fget(*j, key@, pos as int)),
{
    match field(j, key, pos) {
        None => {
            let r: Vec<String> = Vec::new();
            assert(strs(r@) =~= seq![]);
            r
        },
        Some(Json::Null) => {
            let r: Vec<String> = Vec::new();
            assert(strs(r@) =~= seq![]);
            r
        },
        Some(v) => one_or_many_of(v),
    }
}

fn string_field(j: &Json, key: &str, pos: usize) -> (r: Result<String, LockError>)
    ensures
        r is Ok <==> str_field_ok(fget(*j, key@, pos as int)),
        r matches Ok(s) ==> s@ == str_field(fget(*j, key@, pos as int)),
{
    match field(j, key, pos) {
        None => Ok(String::new()),
        Some(Json::Str(s)) => Ok(s.clone()),
        Some(_) => Err(schema_error()),
    }
}

fn required_string_field(j: &Json, key: &str, pos: usize) -> (r: Result<String, LockError>)
    ensures
        r is Ok <==> req_str_field_ok(fget(*j, key@, pos as int)),
        r matches Ok(s) ==> s@ == str_field(fget(*j, key@, pos as int)),
{
    match field(j, key, pos) {
        None => Err(missing_field()),
        Some(Json::Str(s)) => Ok(s.clone()),
        Some(_) => Err(schema_error()),
    }
}

fn optional_string_field(j: &Json, key: &str, pos: usize) -> (r: Result<
    Option<String>,
    LockError,
>)
    ensures
        r is Ok <==> opt_str_field_ok(fget(*j, key@, pos as int)),
        r matches Ok(s) ==> opt_string_view(s) == opt_str_field(fget(*j, key@, pos as int)),
{
    match field(j, key, pos) {
        None => Ok(None),
        Some(Json::Null) => Ok(None),
        Some(Json::Str(s)) => Ok(Some(s.clone())),
        Some(_) => Err(schema_error()),
    }
}

fn string_map_field_of(j: &Json, key: &str, pos: usize) -> (r: Result<StrMap<String>, LockError>)
    ensures
        r is Ok <==> string_map_field_ok(fget(*j, key@, pos as int)),
        r matches Ok(m) ==> string_map_field(fget(*j, key@, pos as int), m),
{
    match field(j, key, pos) {
        None => Ok(StrMap::new()),
        Some(Json::Object(o)) => string_map_of(o),
        Some(_) => Err(schema_error()),
    }
}

fn str_list_field_of(j: &Json, key: &str, pos: usize) -> (r: Result<Vec<String>, LockError>)
    ensures
        r is Ok <==> str_list_field_ok(fget(*j, key@, pos as int)),
        r matches Ok(v) ==> strs(v@) == str_list_field(fget(*j, key@, pos as int)),
{
    match field(j, key, pos) {
        None => {
            let r: Vec<String> = Vec::new();
            assert(strs(r@) =~= seq![]);
            Ok(r)
        },
        Some(v) => match str_list_of(v) {
            Some(l) => Ok(l),
            None => Err(schema_error()),
        },
    }
}

/// Reads one `autoload` block (an object, or its positional form).
pub fn autoload_from(j: &Json) -> (r: Result<Autoload, LockError>)
    ensures
        r is Ok <==> autoload_ok(*j),
        r matches Ok(a) ==> autoload_matches(*j, a),
{
    if !in_shape(j, 0, 4) {
        return Err(schema_error());
    }
    let psr4 = one_or_many_map(j, "psr-4", 0)?;
    let psr0 = one_or_many_map(j, "psr-0", 1)?;
    let files = str_list_field_of(j, "files", 2)?;
    let classmap = str_list_field_of(j, "classmap", 3)?;
    Ok(Autoload { psr4, psr0, files, classmap })
}

fn autoload_field_of(j: &Json, key: &str, pos: usize) -> (r: Result<Autoload, LockError>)
    ensures
        r is Ok <==> autoload_field_ok(fget(*j, key@, pos as int)),
        r matches Ok(a) ==> autoload_field(fget(*j, key@, pos as int), a),
{
    match field(j, key, pos) {
        None => Ok(Autoload::default()),
        Some(a) => autoload_from(a),
    }
}

/// composer.json from its JSON document (an object, or its positional form).
pub fn composer_json_from(j: &Json) -> (r: Result<ComposerJson, LockError>)
    ensures
        r is Ok <==> composer_json_ok(*j),
        r matches Ok(c) ==> composer_json_matches(*j, c),
{
    if !in_shape(j, 0, 7) {
        return Err(schema_error());
    }
    let name = string_field(j, "name", 0)?;
    let require = string_map_field_of(j, "require", 1)?;
    let require_dev = string_map_field_of(j, "require-dev", 2)?;
    let autoload = autoload_field_of(j, "autoload", 3)?;
    let autoload_dev = autoload_field_of(j, "autoload-dev", 4)?;
    let scripts = one_or_many_map(j, "scripts", 5)?;
    let bin = string_or_vec(j, "bin", 6);
    Ok(ComposerJson { name, require, require_dev, autoload, autoload_dev, scripts, bin })
}

/// Parses composer.json.
pub fn parse_json(input: &str) -> (r: Result<ComposerJson, LockError>)
    ensures
        match json_document(input@) {
            None => r is Err,
            Some(j) => (r is Ok <==> composer_json_ok(j)) && (r matches Ok(c)
                ==> composer_json_matches(j, c)),
        },
{
    match json_from_str(input) {
        Ok(j) => composer_json_from(&j),
        Err(e) => Err(LockError::Json(e)),
    }
}

/// The package type when the lock names none: "library".
pub fn default_type() -> (r: String)
    ensures
        r@ == spec_default_type(),
{
    <String as vstd::string::StringExecFns>::from_str("library")
}

fn dist_from(j: &Json) -> (r: Result<Dist, LockError>)
    ensures
        r is Ok <==> dist_ok(*j),
        r matches Ok(d) ==> dist_matches(*j, d),
{
    if !in_shape(j, 2, 4) {
        return Err(schema_error());
    }
    let dist_type = required_string_field(j, "type", 0)?;
    let url = optional_string_field(j, "url", 1)?;
    let reference = string_field(j, "reference", 2)?;
    let shasum = string_field(j, "shasum", 3)?;
    Ok(Dist { dist_type, url, reference, shasum })
}

fn source_from(j: &Json) -> (r: Result<Source, LockError>)
    ensures
        r is Ok <==> source_ok(*j),
        r matches Ok(s) ==> source_matches(*j, s),
{
    if !in_shape(j, 2, 3) {
        return Err(schema_error());
    }
    let source_type = required_string_field(j, "type", 0)?;
    let url = optional_string_field(j, "url", 1)?;
    let reference = string_field(j, "reference", 2)?;
    Ok(Source { source_type, url, reference })
}

/// One entry of `packages` / `packages-dev` (an object, or its positional
/// form).
pub fn package_from(j: &Json) -> (r: Result<LockedPackage, LockError>)
    ensures
        r is Ok <==> package_ok(*j),
        r matches Ok(p) ==> package_matches(*j, p),
{
    if !in_shape(j, 5, 5) {
        return Err(schema_error());
    }
    let name = required_string_field(j, "name", 0)?;
    let version = required_string_field(j, "version", 1)?;
    let package_type = match field(j, "type", 2) {
        None => default_type(),
        Some(Json::Str(s)) => s.clone(),
        Some(_) => {
            return Err(schema_error());
        },
    };
    let dist = match field(j, "dist", 3) {
        None => None,
        Some(Json::Null) => None,
        Some(d) => Some(dist_from(d)?),
    };
    let source = match field(j, "source", 4) {
        None => None,
        Some(Json::Null) => None,
        Some(s) => Some(source_from(s)?),
    };
    Ok(LockedPackage { name, version, package_type, dist, source })
}

fn packages_field_of(j: &Json, key: &str, pos: usize) -> (r: Result<Vec<LockedPackage>, LockError>)
    ensures
        r is Ok <==> packages_field_ok(fget(*j, key@, pos as int)),
        r matches Ok(v) ==> packages_field(fget(*j, key@, pos as int), v@),
{
    match field(j, key, pos) {
        None => Ok(Vec::new()),
        Some(Json::Array(items)) => {
            let ghost fv = fget(*j, key@, pos as int);
            let mut out: Vec<LockedPackage> = Vec::new();
            let mut i: usize = 0;
            while i < items.len()
                invariant
                    fv == Some(Json::Array(*items)),
                    fv == fget(*j, key@, pos as int),
                    i <= items@.len(),
                    out@.len() == i,
                    forall|k: int| 0 <= k < i ==> package_ok(#[trigger] items@[k]),
                    forall|k: int| 0 <= k < i ==> package_matches(#[trigger] items@[k], out@[k]),
                decreases items@.len() - i,
            {
                let p = match package_from(&items[i]) {
                    Ok(p) => p,
                    Err(e) => {
                        assert(!package_ok(items@[i as int]));
                        assert(!packages_field_ok(fv)) by {
                            match fv {
                                Some(Json::Array(it)) => {
                                    assert(it@ == items@);
                                    assert(!package_ok(it@[i as int]));
                                },
                                _ => {},
                            }
                        }
                        return Err(e);
                    },
                };
                out.push(p);
                i = i + 1;
            }
            Ok(out)
        },
        Some(_) => Err(schema_error()),
    }
}

/// composer.lock from its JSON document (an object, or its positional form).
pub fn lock_from(j: &Json) -> (r: Result<ComposerLock, LockError>)
    ensures
        r is Ok <==> lock_ok(*j),
        r matches Ok(l) ==> lock_matches(*j, l),
{
    if !in_shape(j, 0, 4) {
        return Err(schema_error());
    }
    let content_hash = string_field(j, "content-hash", 0)?;
    let packages = packages_field_of(j, "packages", 1)?;
    let packages_dev = packages_field_of(j, "packages-dev", 2)?;
    let plugin_api_version = string_field(j, "plugin-api-version", 3)?;
    Ok(ComposerLock { content_hash, packages, packages_dev, plugin_api_version })
}

/// Parses composer.lock.
pub fn parse_lock(input: &str) -> (r: Result<ComposerLock, LockError>)
    ensures
        match json_document(input@) {
            None => r is Err,
            Some(j) => (r is Ok <==> lock_ok(j)) && (r matches Ok(l) ==> lock_matches(j, l)),
        },
{
    match json_from_str(input) {
        Ok(j) => lock_from(&j),
        Err(e) => Err(LockError::Json(e)),
    }
}

} // verus!
