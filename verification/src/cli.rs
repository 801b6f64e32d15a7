//! The decisions of the command line: where the store and the registry live,
//! whether composer.lock looks stale next to composer.json, and what a gc
//! run reports and deletes.
use vstd::prelude::*;
use crate::acquire::AcquireError;
use crate::autoload::GenError;
use crate::bridge::BridgeError;
use crate::gc::{spec_plan_outcome, GcError, GcPlan};
use crate::json::{json_document, Json};
use crate::linker::LinkError;
use crate::lockfile::{composer_json_ok, fget, lookup_last, parse_json, ComposerLock, LockError, LockedPackage};
use crate::store::{coords_view, path_join, spec_path_join, spec_split_name, PackageCoords};
use crate::strmap::{lemma_lookup_some_iff, lookup, StrMap};

verus! {

broadcast use vstd::string::group_string_axioms;

#[derive(Debug)]
pub enum CliError {
    Lock(LockError),
    Acquire(AcquireError),
    Link(LinkError),
    Gen(GenError),
    Bridge(BridgeError),
    Gc(GcError),
    Io(std::io::Error),
    /// No composer.lock: `phpm update` resolves one first.
    NoLock,
}

/// Options of an install.
#[derive(Debug)]
pub struct InstallOpts {
    /// Base directory of the project registry (typically `~/.phpm`).
    pub registry_base: String,
    /// When true, `packages-dev` are not acquired, linked or generated.
    pub no_dev: bool,
}

/// Result of an install.
#[derive(Debug)]
pub struct InstallReport {
    /// composer.json requires a real (non-platform) package that composer.lock
    /// lacks; `phpm update` re-resolves. A version-only drift is not seen.
    pub lock_possibly_stale: bool,
}

/// Result of a gc run.
#[derive(Debug)]
pub struct GcReport {
    pub would_remove: usize,
    pub removed: usize,
}

/// The store directory: `$PHPM_STORE_DIR` when set, else `<home>/.phpm/store`
/// (home defaults to `.`).
pub open spec fn spec_store_dir(env_dir: Option<Seq<char>>, home: Option<Seq<char>>) -> Seq<char> {
    match env_dir {
        Some(d) => d,
        None => spec_path_join(spec_registry_base(home), "store"@),
    }
}

/// The registry base: `<home>/.phpm` (home defaults to `.`).
pub open spec fn spec_registry_base(home: Option<Seq<char>>) -> Seq<char> {
    spec_path_join(
        match home {
            Some(h) => h,
            None => "."@,
        },
        ".phpm"@,
    )
}

pub open spec fn opt_view(o: Option<&str>) -> Option<Seq<char>> {
    match o {
        Some(s) => Some(s@),
        None => None,
    }
}

/// Where the store lives; `env_dir` is `$PHPM_STORE_DIR` and `home` is
/// `$HOME`, each when set.
pub fn store_dir(env_dir: Option<&str>, home: Option<&str>) -> (r: String)
    ensures
        r@ == spec_store_dir(opt_view(env_dir), opt_view(home)),
{
    match env_dir {
        Some(d) => d.to_string(),
        None => {
            let base = registry_base(home);
            path_join(base.as_str(), "store")
        },
    }
}

/// Where the project registry lives; `home` is `$HOME` when set.
pub fn registry_base(home: Option<&str>) -> (r: String)
    ensures
        r@ == spec_registry_base(opt_view(home)),
{
    match home {
        Some(h) => path_join(h, ".phpm"),
        None => path_join(".", ".phpm"),
    }
}

/// The package names of a lock, `packages` then `packages-dev`.
pub open spec fn locked_name(l: ComposerLock, k: Seq<char>) -> bool {
    exists|i: int|
        0 <= i < (l.packages@ + l.packages_dev@).len() && #[trigger] (l.packages@
            + l.packages_dev@)[i].name@ == k
}

/// `k` is a key of the object that a field holds.
pub open spec fn obj_has_key(v: Option<Json>, k: Seq<char>) -> bool {
    match v {
        Some(Json::Object(o)) => lookup_last(o@, k) is Some,
        _ => false,
    }
}

/// `require` or `require-dev` names `k`.
pub open spec fn requires_name(j: Json, k: Seq<char>) -> bool {
    obj_has_key(fget(j, "require"@, 1), k) || obj_has_key(fget(j, "require-dev"@, 2), k)
}

/// composer.json reads and requires a `vendor/package` that the lock lacks.
pub open spec fn spec_lock_possibly_stale(l: ComposerLock, composer_json: Seq<char>) -> bool {
    match json_document(composer_json) {
        Some(j) => composer_json_ok(j) && exists|k: Seq<char>|
            #[trigger] requires_name(j, k) && spec_split_name(k) is Some && !locked_name(l, k),
        None => false,
    }
}

fn in_packages(pkgs: &Vec<LockedPackage>, name: &String) -> (r: bool)
    ensures
        r == exists|i: int| 0 <= i < pkgs@.len() && #[trigger] pkgs@[i].name@ == name@,
{
    let mut i: usize = 0;
    while i < pkgs.len()
        invariant
            i <= pkgs@.len(),
            forall|j: int| 0 <= j < i ==> #[trigger] pkgs@[j].name@ != name@,
        decreases pkgs@.len() - i,
    {
        if crate::lockfile::str_eq(pkgs[i].name.as_str(), name.as_str()) {
            return true;
        }
        i = i + 1;
    }
    false
}

fn is_locked(lock: &ComposerLock, name: &String) -> (r: bool)
    ensures
        r == locked_name(*lock, name@),
{
    let a = in_packages(&lock.packages, name);
    let b = in_packages(&lock.packages_dev, name);
    proof {
        let all = lock.packages@ + lock.packages_dev@;
        if a {
            let i = choose|i: int|
                0 <= i < lock.packages@.len() && #[trigger] lock.packages@[i].name@ == name@;
            assert(all[i] == lock.packages@[i]);
        }
        if b {
            let i = choose|i: int|
                0 <= i < lock.packages_dev@.len() && #[trigger] lock.packages_dev@[i].name@ == name@;
            assert(all[lock.packages@.len() + i] == lock.packages_dev@[i]);
        }
        if locked_name(*lock, name@) {
            let i = choose|i: int| 0 <= i < all.len() && #[trigger] all[i].name@ == name@;
            if i < lock.packages@.len() {
                assert(lock.packages@[i] == all[i]);
            } else {
                assert(lock.packages_dev@[i - lock.packages@.len()] == all[i]);
            }
        }
    }
    a || b
}

/// A key of `m` that is a `vendor/package` name the lock lacks.
pub open spec fn has_missing(m: StrMap<String>, l: ComposerLock) -> bool {
    exists|k: Seq<char>|
        #[trigger] m.spec_get(k) is Some && spec_split_name(k) is Some && !locked_name(l, k)
}

fn any_missing(m: &StrMap<String>, lock: &ComposerLock) -> (r: bool)
    requires
        m.wf(),
    ensures
        r == has_missing(*m, *lock),
{
    let ghost es = m.entries();
    let mut i: usize = 0;
    while i < m.len()
        invariant
            i <= es.len(),
            es == m.entries(),
            forall|j: int|
                0 <= j < i ==> !(spec_split_name(#[trigger] es[j].0@) is Some && !locked_name(
                    *lock,
                    es[j].0@,
                )),
        decreases es.len() - i,
    {
        let name = m.key_at(i);
        let platform_free: bool = match PackageCoords::from_name(name.as_str(), "0") {
            Some(_) => true,
            None => false,
        };
        if platform_free && !is_locked(lock, name) {
            proof {
                lemma_lookup_some_iff(es, name@);
                assert(es[i as int].0@ == name@);
                assert(m.spec_get(name@) is Some);
            }
            return true;
        }
        i = i + 1;
    }
    assert forall|k: Seq<char>| #[trigger] m.spec_get(k) is Some implies !(spec_split_name(k) is Some
        && !locked_name(*lock, k)) by {
        lemma_lookup_some_iff(es, k);
        let j = choose|j: int| 0 <= j < es.len() && #[trigger] es[j].0@ == k;
    }
    false
}

/// Whether composer.json requires a real package (not `php` or an
/// extension) that composer.lock lacks; a composer.json that does not read
/// gives false. A heuristic: a version-only drift is not detected.
pub fn lock_possibly_stale(lock: &ComposerLock, composer_json: &str) -> (r: bool)
    ensures
        r == spec_lock_possibly_stale(*lock, composer_json@),
{
    match parse_json(composer_json) {
        Err(_) => false,
        Ok(cj) => {
            let a = any_missing(&cj.require, lock);
            let b = any_missing(&cj.require_dev, lock);
            proof {
                let j = json_document(composer_json@)->0;
                assert forall|k: Seq<char>|
                    #[trigger] requires_name(j, k) <==> (cj.require.spec_get(k) is Some
                        || cj.require_dev.spec_get(k) is Some) by {
                    assert(crate::lockfile::opt_string_view(cj.require.spec_get(k)) is Some
                        <==> cj.require.spec_get(k) is Some);
                    assert(crate::lockfile::opt_string_view(cj.require_dev.spec_get(k)) is Some
                        <==> cj.require_dev.spec_get(k) is Some);
                }
                if a {
                    let k = choose|k: Seq<char>|
                        #[trigger] cj.require.spec_get(k) is Some && spec_split_name(k) is Some
                            && !locked_name(*lock, k);
                    assert(requires_name(j, k));
                }
                if b {
                    let k = choose|k: Seq<char>|
                        #[trigger] cj.require_dev.spec_get(k) is Some && spec_split_name(k) is Some
                            && !locked_name(*lock, k);
                    assert(requires_name(j, k));
                }
                if spec_lock_possibly_stale(*lock, composer_json@) {
                    let k = choose|k: Seq<char>|
                        #[trigger] requires_name(j, k) && spec_split_name(k) is Some && !locked_name(
                            *lock,
                            k,
                        );
                    assert(cj.require.spec_get(k) is Some || cj.require_dev.spec_get(k) is Some);
                }
            }
            a || b
        },
    }
}

pub open spec fn coords_views(s: Seq<PackageCoords>) -> Seq<(Seq<char>, Seq<char>, Seq<char>)> {
    s.map_values(|c: PackageCoords| coords_view(c))
}

/// What `gc_run` gives for a plan: nothing to do without registered
/// projects; a planning failure is the run's error; otherwise the planned
/// count, and the planned packages to delete when pruning.
pub open spec fn spec_gc_outcome(
    plan: Result<GcPlan, GcError>,
    prune: bool,
    r: Result<(GcReport, Vec<PackageCoords>), CliError>,
) -> bool {
    match plan {
        Err(GcError::EmptyRegistry) => r matches Ok((rep, del)) && rep.would_remove == 0
            && rep.removed == 0 && del@.len() == 0,
        Err(e) => r matches Err(CliError::Gc(e2)) && e2 == e,
        Ok(p) => r matches Ok((rep, del)) && rep.would_remove == p.to_remove@.len() && rep.removed
            == 0 && (if prune {
            del@ == p.to_remove@
        } else {
            del@.len() == 0
        }),
    }
}

/// What a gc run reports, and what it deletes: nothing unless `prune`. No
/// registered project is a friendly "nothing to do" (the plan's refusal only
/// guards the store); another planning failure is the run's error. The
/// report's `removed` is filled in as deletions succeed.
pub fn gc_run(plan: Result<GcPlan, GcError>, prune: bool) -> (r: Result<
    (GcReport, Vec<PackageCoords>),
    CliError,
>)
    ensures
        spec_gc_outcome(plan, prune, r),
{
    match plan {
        Err(GcError::EmptyRegistry) => Ok((GcReport { would_remove: 0, removed: 0 }, Vec::new())),
        Err(e) => Err(CliError::Gc(e)),
        Ok(p) => {
            let n = p.to_remove.len();
            let del = if prune {
                p.to_remove
            } else {
                Vec::new()
            };
            Ok((GcReport { would_remove: n, removed: 0 }, del))
        },
    }
}

/// A dry gc run (no prune) over the registered projects deletes nothing:
/// without registered projects it reports nothing to remove; otherwise it
/// succeeds exactly when every existing lock reads (else the lock's error),
/// and reports the number of stored packages that the plan would remove.
pub proof fn lemma_dry_gc_run(
    lock_texts: Seq<Option<String>>,
    stored: Seq<PackageCoords>,
    plan: Result<GcPlan, GcError>,
    out: Result<(GcReport, Vec<PackageCoords>), CliError>,
)
    requires
        spec_plan_outcome(lock_texts, stored, plan),
        spec_gc_outcome(plan, false, out),
    ensures
        out matches Ok((rep, del)) ==> rep.removed == 0 && del@.len() == 0 && rep.would_remove
            == match plan {
            Ok(p) => p.to_remove@.len(),
            Err(_) => 0,
        },
        lock_texts.len() == 0 ==> (out matches Ok((rep, _)) && rep.would_remove == 0),
        lock_texts.len() > 0 ==> (out is Ok <==> plan is Ok),
        out is Err ==> out matches Err(CliError::Gc(GcError::Lock(_))),
{
}

} // verus!
