//! The decisions of materializing a project's vendor/ from the store: when a
//! sync is a no-op, which packages it links, which vendor directories it
//! removes, and how each file is put in place.
use vstd::prelude::*;
use vstd::string::StringExecFns;
use crate::gc::{coords_views, lock_refs, push_refs};
use crate::json::{distinct_keys, json_document, json_from_str, json_quote, json_quote_exec, string_members, string_object_text, Json};
use crate::lockfile::{obj_get, ComposerLock};
use crate::store::{PackageCoords, StoreError};
use crate::strmap::lookup;
use crate::text::{chars_of, concat};

verus! {

broadcast use vstd::string::group_string_axioms;

#[derive(Debug)]
pub enum LinkError {
    Io(std::io::Error),
    Store(StoreError),
    Json(serde_json::Error),
}

/// Outcome of a sync. `no_op` is true when the sentinel matched and nothing
/// was touched.
#[derive(Debug, PartialEq, Eq, Structural)]
pub struct SyncReport {
    pub materialized: usize,
    pub removed: usize,
    pub no_op: bool,
}

impl Default for SyncReport {
    fn default() -> (r: SyncReport)
        ensures
            r == (SyncReport { materialized: 0, removed: 0, no_op: false }),
    {
        SyncReport { materialized: 0, removed: 0, no_op: false }
    }
}

/// How files are put into vendor/.
#[derive(Debug, Clone, Copy, PartialEq, Eq, Structural)]
pub enum LinkMode {
    /// A hard link to the store's file (no copy of the data); same volume only.
    HardLink,
    /// A plain copy (other volume, or hard links unsupported); no dedup.
    Copy,
}

/// Two paths are on the same filesystem when their device ids agree (hard
/// links cannot cross volumes).
pub fn same_volume(dev_a: u64, dev_b: u64) -> (r: bool)
    ensures
        r == (dev_a == dev_b),
{
    dev_a == dev_b
}

/// The mode for a sync: hard links when store and vendor/ share a volume
/// (`None`: the volumes could not be compared), copies otherwise.
pub fn link_mode(same: Option<bool>) -> (m: LinkMode)
    ensures
        m == (if same == Some(true) {
            LinkMode::HardLink
        } else {
            LinkMode::Copy
        }),
{
    match same {
        Some(true) => LinkMode::HardLink,
        _ => LinkMode::Copy,
    }
}

/// What to do with one file of a package.
#[derive(Debug, Clone, Copy, PartialEq, Eq, Structural)]
pub enum FileAction {
    /// The target already is a hard link to the store's file.
    Keep,
    /// Replace whatever is there by a hard link (a copy if linking fails).
    Link,
    /// Copy the file.
    Copy,
}

/// The action for one file: in hard-link mode a correct link is kept and
/// anything else is re-linked; in copy mode the file is copied.
pub fn file_action(mode: LinkMode, already_linked: bool) -> (a: FileAction)
    ensures
        a == (match mode {
            LinkMode::HardLink => if already_linked {
                FileAction::Keep
            } else {
                FileAction::Link
            },
            LinkMode::Copy => FileAction::Copy,
        }),
{
    match mode {
        LinkMode::HardLink => if already_linked {
            FileAction::Keep
        } else {
            FileAction::Link
        },
        LinkMode::Copy => FileAction::Copy,
    }
}

/// The sentinel key of a lock: its content hash and whether it has dev
/// packages, so that a switch between full and no-dev installs of one lock
/// is a full reconcile.
pub open spec fn spec_sentinel_key(l: ComposerLock) -> Seq<char> {
    l.content_hash@ + "|dev="@ + if l.packages_dev@.len() > 0 {
        "true"@
    } else {
        "false"@
    }
}

pub fn sentinel_key(lock: &ComposerLock) -> (r: String)
    ensures
        r@ == spec_sentinel_key(*lock),
{
    let mut s = concat(lock.content_hash.as_str(), "|dev=");
    if lock.packages_dev.len() > 0 {
        s.append("true");
    } else {
        s.append("false");
    }
    s
}

/// The content hash a sentinel file records: its JSON object's
/// `content_hash` string (or the state written as a one-element array). A
/// sentinel that does not read records nothing.
pub open spec fn spec_sentinel_hash(raw: Seq<char>) -> Option<Seq<char>> {
    match json_document(raw) {
        Some(Json::Object(es)) => match lookup(es@, "content_hash"@) {
            Some(Json::Str(s)) => Some(s@),
            _ => None,
        },
        Some(Json::Array(items)) => if items@.len() == 1 {
            match items@[0] {
                Json::Str(s) => Some(s@),
                _ => None,
            }
        } else {
            None
        },
        _ => None,
    }
}

/// Reads the content hash from the text of `vendor/.phpm-state`; a corrupt
/// sentinel gives None, so that sync falls back to a full reconcile.
pub fn sentinel_hash(raw: &str) -> (r: Option<String>)
    ensures
        match spec_sentinel_hash(raw@) {
            Some(h) => r matches Some(s) && s@ == h,
            None => r is None,
        },
        forall|k: Seq<char>| raw@ == spec_sentinel_json(k) ==> (r matches Some(s) && s@ == k),
{
    let res = json_from_str(raw);
    proof {
        assert forall|k: Seq<char>| raw@ == spec_sentinel_json(k) implies (res matches Ok(
            Json::Object(es),
        ) && lookup(es@, "content_hash"@) matches Some(Json::Str(v)) && v@ == k) by {
            let ms = seq![("content_hash"@, k)];
            assert(ms[0].0 == "content_hash"@);
            assert(string_object_text(ms, false) == spec_sentinel_json(k));
        }
    }
    match res {
        Ok(Json::Object(es)) => match obj_get(&es, "content_hash") {
            Some(Json::Str(s)) => Some(s.clone()),
            _ => None,
        },
        Ok(Json::Array(items)) => {
            if items.len() == 1 {
                match &items[0] {
                    Json::Str(s) => Some(s.clone()),
                    _ => None,
                }
            } else {
                None
            }
        },
        _ => None,
    }
}

/// The text of `vendor/.phpm-state` recording `key` (as `serde_json::to_vec`
/// lays out `{content_hash}`).
pub open spec fn spec_sentinel_json(key: Seq<char>) -> Seq<char> {
    string_object_text(seq![("content_hash"@, key)], false)
}

pub fn sentinel_json(key: &str) -> (r: String)
    ensures
        r@ == spec_sentinel_json(key@),
{
    let k = json_quote_exec("content_hash");
    let mut s = concat("{", k.as_str());
    s.append(":");
    s.append(json_quote_exec(key).as_str());
    s.append("}");
    let ghost ms = seq![("content_hash"@, key@)];
    assert(string_members(ms, ","@, ":"@) == json_quote(ms[0].0) + ":"@ + json_quote(ms[0].1));
    assert(s@ =~= spec_sentinel_json(key@));
    s
}

/// A sync is a no-op when the sentinel records this lock's key. An empty
/// content hash is never trusted: it would hide every change.
pub open spec fn spec_is_noop(l: ComposerLock, recorded: Option<Seq<char>>) -> bool {
    l.content_hash@.len() > 0 && recorded == Some(spec_sentinel_key(l))
}

pub fn sync_is_noop(lock: &ComposerLock, recorded: &Option<String>) -> (r: bool)
    ensures
        r == spec_is_noop(
            *lock,
            match recorded {
                Some(s) => Some(s@),
                None => None,
            },
        ),
{
    if lock.content_hash.unicode_len() == 0 {
        return false;
    }
    match recorded {
        Some(s) => {
            let key = sentinel_key(lock);
            crate::lockfile::str_eq(s.as_str(), key.as_str())
        },
        None => false,
    }
}

/// The packages a sync links, in lock order (`packages`, then
/// `packages-dev`); platform packages are left out.
pub fn sync_targets(lock: &ComposerLock) -> (r: Vec<PackageCoords>)
    ensures
        coords_views(r@) == lock_refs(*lock),
{
    let mut out: Vec<PackageCoords> = Vec::new();
    push_refs(&lock.packages, &mut out);
    push_refs(&lock.packages_dev, &mut out);
    proof {
        crate::gc::lemma_refs_of_append(lock.packages@, lock.packages_dev@);
        assert(coords_views(Seq::<PackageCoords>::empty()) =~= Seq::empty());
    }
    out
}

/// Directories under vendor/ that hold no package: `composer` and `bin`
/// (generated files) and dot entries.
pub open spec fn spec_is_package_dir(name: Seq<char>) -> bool {
    !(name.len() > 0 && name[0] == '.') && name != "composer"@ && name != "bin"@
}

pub fn is_package_dir(name: &str) -> (r: bool)
    ensures
        r == spec_is_package_dir(name@),
{
    !crate::text::starts_with_char(name, '.') && !crate::lockfile::str_eq(name, "composer")
        && !crate::lockfile::str_eq(name, "bin")
}

/// `(vendor, package)` of each target.
pub open spec fn target_pairs(targets: Seq<(Seq<char>, Seq<char>, Seq<char>)>) -> Set<
    (Seq<char>, Seq<char>),
> {
    Set::new(
        |p: (Seq<char>, Seq<char>)|
            exists|i: int| 0 <= i < targets.len() && #[trigger] targets[i].0 == p.0 && targets[i].1 == p.1,
    )
}

pub open spec fn pair_views(s: Seq<(String, String)>) -> Seq<(Seq<char>, Seq<char>)> {
    s.map_values(|p: (String, String)| (p.0@, p.1@))
}

/// The vendor entries that no target wants, in the given order.
pub open spec fn stale(
    current: Seq<(Seq<char>, Seq<char>)>,
    want: Set<(Seq<char>, Seq<char>)>,
) -> Seq<(Seq<char>, Seq<char>)>
    decreases current.len(),
{
    if current.len() == 0 {
        seq![]
    } else {
        let r = stale(current.drop_last(), want);
        if want.contains(current.last()) {
            r
        } else {
            r.push(current.last())
        }
    }
}

fn wanted(targets: &Vec<PackageCoords>, v: &String, p: &String) -> (r: bool)
    ensures
        r == target_pairs(coords_views(targets@)).contains((v@, p@)),
{
    let mut i: usize = 0;
    while i < targets.len()
        invariant
            i <= targets@.len(),
            forall|j: int|
                0 <= j < i ==> !(#[trigger] targets@[j].vendor@ == v@ && targets@[j].package@ == p@),
        decreases targets@.len() - i,
    {
        if crate::lockfile::str_eq(targets[i].vendor.as_str(), v.as_str()) && crate::lockfile::str_eq(
            targets[i].package.as_str(),
            p.as_str(),
        ) {
            assert(coords_views(targets@)[i as int].0 == v@ && coords_views(targets@)[i as int].1
                == p@);
            return true;
        }
        i = i + 1;
    }
    assert forall|j: int| 0 <= j < coords_views(targets@).len() implies !(#[trigger] coords_views(
        targets@,
    )[j].0 == v@ && coords_views(targets@)[j].1 == p@) by {
        assert(coords_views(targets@)[j].0 == targets@[j].vendor@);
    }
    false
}

/// The `(vendor, package)` directories of vendor/ to remove: those that no
/// target of the sync names.
pub fn stale_packages(current: &Vec<(String, String)>, targets: &Vec<PackageCoords>) -> (r: Vec<
    (String, String),
>)
    ensures
        pair_views(r@) == stale(pair_views(current@), target_pairs(coords_views(targets@))),
{
    let ghost want = target_pairs(coords_views(targets@));
    let mut out: Vec<(String, String)> = Vec::new();
    let mut i: usize = 0;
    assert(pair_views(current@).take(0) =~= Seq::<(Seq<char>, Seq<char>)>::empty());
    while i < current.len()
        invariant
            i <= current@.len(),
            want == target_pairs(coords_views(targets@)),
            pair_views(out@) == stale(pair_views(current@).take(i as int), want),
        decreases current@.len() - i,
    {
        let ghost cv = pair_views(current@);
        assert(cv.take(i + 1).drop_last() =~= cv.take(i as int));
        assert(cv.take(i + 1).last() == (current@[i as int].0@, current@[i as int].1@));
        let (v, p) = &current[i];
        if !wanted(targets, v, p) {
            let ghost before = out@;
            out.push((v.clone(), p.clone()));
            assert(pair_views(out@) =~= pair_views(before).push((v@, p@)));
        }
        i = i + 1;
    }
    assert(pair_views(current@).take(current@.len() as int) =~= pair_views(current@));
    out
}

/// Once a sync has recorded a lock's key, syncing the same lock again is a
/// no-op exactly when the lock has a content hash.
pub proof fn lemma_recorded_key_is_noop(l: ComposerLock)
    ensures
        spec_is_noop(l, Some(spec_sentinel_key(l))) <==> l.content_hash@.len() > 0,
{
}

/// Switching between a full and a no-dev install of the same lock changes
/// the key, so the sentinel of one never makes the other a no-op.
pub proof fn lemma_dev_switch_changes_key(a: ComposerLock, b: ComposerLock)
    requires
        a.content_hash@ == b.content_hash@,
        (a.packages_dev@.len() > 0) != (b.packages_dev@.len() > 0),
    ensures
        spec_sentinel_key(a) != spec_sentinel_key(b),
        !spec_is_noop(b, Some(spec_sentinel_key(a))),
{
    reveal_strlit("true");
    reveal_strlit("false");
    assert(spec_sentinel_key(a).len() != spec_sentinel_key(b).len());
}

} // verus!
