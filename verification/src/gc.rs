//! Garbage collection of store packages that no registered project's
//! composer.lock references, and the registry of known projects (one path per
//! line in `<base>/projects`).
use vstd::prelude::*;
use crate::json::json_document;
use crate::lockfile::{lock_matches, lock_ok, parse_lock, ComposerLock, LockError, LockedPackage};
use crate::store::{coords_view, path_join, spec_path_join, spec_split_name, PackageCoords, StoreError};
use crate::strmap::{keys_sorted, lemma_insert_then_lookup, lemma_lookup_at, lemma_lookup_none, lookup, StrMap};
use crate::text::{chars_of, join_fwd, lemma_lines_join_fwd, lemma_lines_no_newline, lex_lt, lines, lines_exec, string_of, trim, trim_ws};

verus! {

broadcast use {vstd::string::group_string_axioms, vstd::seq_lib::lemma_seq_contains_after_push};

#[derive(Debug)]
pub enum GcError {
    Io(std::io::Error),
    Store(StoreError),
    Lock(LockError),
    /// No project is registered: an empty referenced set would make the
    /// whole shared store garbage, so no plan is made.
    EmptyRegistry,
}

/// What a gc would delete.
#[derive(Debug)]
pub struct GcPlan {
    pub to_remove: Vec<PackageCoords>,
    pub referenced_count: usize,
}

pub open spec fn coords_views(s: Seq<PackageCoords>) -> Seq<(Seq<char>, Seq<char>, Seq<char>)> {
    s.map_values(|c: PackageCoords| coords_view(c))
}

/// The store coordinates a locked package refers to (None for platform
/// packages such as `php`).
pub open spec fn pkg_ref(p: LockedPackage) -> Option<(Seq<char>, Seq<char>, Seq<char>)> {
    match spec_split_name(p.name@) {
        Some((v, n)) => Some((v, n, p.version@)),
        None => None,
    }
}

pub open spec fn refs_of(pkgs: Seq<LockedPackage>) -> Seq<(Seq<char>, Seq<char>, Seq<char>)>
    decreases pkgs.len(),
{
    if pkgs.len() == 0 {
        seq![]
    } else {
        let r = refs_of(pkgs.drop_last());
        match pkg_ref(pkgs.last()) {
            Some(t) => r.push(t),
            None => r,
        }
    }
}

/// The references of a lock: `packages`, then `packages-dev`.
pub open spec fn lock_refs(l: ComposerLock) -> Seq<(Seq<char>, Seq<char>, Seq<char>)> {
    refs_of(l.packages@ + l.packages_dev@)
}

pub open spec fn all_refs(ls: Seq<ComposerLock>) -> Seq<(Seq<char>, Seq<char>, Seq<char>)>
    decreases ls.len(),
{
    if ls.len() == 0 {
        seq![]
    } else {
        all_refs(ls.drop_last()) + lock_refs(ls.last())
    }
}

/// The stored packages outside `refs`, in store order.
pub open spec fn unreferenced(
    stored: Seq<(Seq<char>, Seq<char>, Seq<char>)>,
    refs: Set<(Seq<char>, Seq<char>, Seq<char>)>,
) -> Seq<(Seq<char>, Seq<char>, Seq<char>)>
    decreases stored.len(),
{
    if stored.len() == 0 {
        seq![]
    } else {
        let r = unreferenced(stored.drop_last(), refs);
        if refs.contains(stored.last()) {
            r
        } else {
            r.push(stored.last())
        }
    }
}

/// `p` is the plan for the locks `ls` over the stored packages.
pub open spec fn plan_matches(p: GcPlan, ls: Seq<ComposerLock>, stored: Seq<PackageCoords>) -> bool {
    &&& coords_views(p.to_remove@) == unreferenced(coords_views(stored), all_refs(ls).to_set())
    &&& p.referenced_count == all_refs(ls).to_set().len()
}

/// The lock texts that exist (None marks a project without composer.lock).
pub open spec fn present(ts: Seq<Option<String>>) -> Seq<Seq<char>>
    decreases ts.len(),
{
    if ts.len() == 0 {
        seq![]
    } else {
        match ts.last() {
            Some(t) => present(ts.drop_last()).push(t@),
            None => present(ts.drop_last()),
        }
    }
}

pub open spec fn lock_text_ok(t: Seq<char>) -> bool {
    json_document(t) matches Some(j) && lock_ok(j)
}

/// `ls` are the locks the present texts read as.
pub open spec fn parsed_locks(ts: Seq<Option<String>>, ls: Seq<ComposerLock>) -> bool {
    &&& ls.len() == present(ts).len()
    &&& forall|i: int| 0 <= i < ls.len() ==> (#[trigger] json_document(present(ts)[i]) matches Some(
        j,
    ) && lock_matches(j, ls[i]))
}

// ----------------------------------------------------------------------------
// Laws

pub(crate) proof fn lemma_refs_of_append(a: Seq<LockedPackage>, b: Seq<LockedPackage>)
    ensures
        refs_of(a + b) == refs_of(a) + refs_of(b),
    decreases b.len(),
{
    if b.len() == 0 {
        assert(a + b =~= a);
        assert(refs_of(a) + refs_of(b) =~= refs_of(a));
    } else {
        assert((a + b).drop_last() =~= a + b.drop_last());
        assert((a + b).last() == b.last());
        lemma_refs_of_append(a, b.drop_last());
        match pkg_ref(b.last()) {
            Some(t) => {
                assert(refs_of(a) + refs_of(b.drop_last()).push(t) =~= (refs_of(a) + refs_of(
                    b.drop_last(),
                )).push(t));
            },
            None => {},
        }
    }
}

/// A gc plan removes exactly the stored packages that no lock references:
/// every planned removal is stored and unreferenced, and every stored,
/// unreferenced package is planned.
pub proof fn lemma_unreferenced_exact(
    stored: Seq<(Seq<char>, Seq<char>, Seq<char>)>,
    refs: Set<(Seq<char>, Seq<char>, Seq<char>)>,
    x: (Seq<char>, Seq<char>, Seq<char>),
)
    ensures
        unreferenced(stored, refs).contains(x) <==> (stored.contains(x) && !refs.contains(x)),
    decreases stored.len(),
{
    if stored.len() > 0 {
        let s0 = stored.drop_last();
        lemma_unreferenced_exact(s0, refs, x);
        assert(stored =~= s0.push(stored.last()));
        if stored.contains(x) && !s0.contains(x) {
            assert(x == stored.last()) by {
                let i = choose|i: int| 0 <= i < stored.len() && stored[i] == x;
                if i < stored.len() - 1 {
                    assert(s0[i] == x);
                }
            }
        }
        if s0.contains(x) {
            let i = choose|i: int| 0 <= i < s0.len() && s0[i] == x;
            assert(stored[i] == x);
        }
        let r = unreferenced(s0, refs);
        if !refs.contains(stored.last()) {
            assert(r.push(stored.last())[r.len() as int] == stored.last());
            if r.contains(x) {
                let i = choose|i: int| 0 <= i < r.len() && r[i] == x;
                assert(r.push(stored.last())[i] == x);
            }
            if r.push(stored.last()).contains(x) && x != stored.last() {
                let i = choose|i: int| 0 <= i < r.len() + 1 && r.push(stored.last())[i] == x;
                assert(r[i] == x);
            }
        }
    }
}

// ----------------------------------------------------------------------------
// Planning

fn copy_string(s: &String) -> (r: String)
    ensures
        r@ == s@,
{
    s.clone()
}

fn copy_coords(c: &PackageCoords) -> (r: PackageCoords)
    ensures
        coords_view(r) == coords_view(*c),
{
    PackageCoords {
        vendor: copy_string(&c.vendor),
        package: copy_string(&c.package),
        version: copy_string(&c.version),
    }
}

fn coords_eq(a: &PackageCoords, b: &PackageCoords) -> (r: bool)
    ensures
        r == (coords_view(*a) == coords_view(*b)),
{
    crate::lockfile::str_eq(a.vendor.as_str(), b.vendor.as_str()) && crate::lockfile::str_eq(
        a.package.as_str(),
        b.package.as_str(),
    ) && crate::lockfile::str_eq(a.version.as_str(), b.version.as_str())
}

fn contains_coords(v: &Vec<PackageCoords>, c: &PackageCoords) -> (r: bool)
    ensures
        r == coords_views(v@).contains(coords_view(*c)),
{
    let mut i: usize = 0;
    while i < v.len()
        invariant
            i <= v@.len(),
            forall|j: int| 0 <= j < i ==> coords_view(#[trigger] v@[j]) != coords_view(*c),
        decreases v@.len() - i,
    {
        if coords_eq(&v[i], c) {
            assert(coords_views(v@)[i as int] == coords_view(*c));
            return true;
        }
        i = i + 1;
    }
    assert forall|j: int| 0 <= j < v@.len() implies coords_views(v@)[j] != coords_view(*c) by {
        assert(coords_views(v@)[j] == coords_view(v@[j]));
    }
    false
}

/// Appends the store coordinates the packages refer to.
pub(crate) fn push_refs(pkgs: &Vec<LockedPackage>, acc: &mut Vec<PackageCoords>)
    ensures
        coords_views(final(acc)@) == coords_views(old(acc)@) + refs_of(pkgs@),
{
    let ghost start = coords_views(acc@);
    let mut i: usize = 0;
    assert(pkgs@.take(0) =~= Seq::<LockedPackage>::empty());
    assert(start + refs_of(pkgs@.take(0)) =~= start);
    while i < pkgs.len()
        invariant
            i <= pkgs@.len(),
            coords_views(acc@) == start + refs_of(pkgs@.take(i as int)),
        decreases pkgs@.len() - i,
    {
        let p = &pkgs[i];
        let ghost before = acc@;
        assert(pkgs@.take(i + 1).drop_last() =~= pkgs@.take(i as int));
        assert(pkgs@.take(i + 1).last() == *p);
        match PackageCoords::from_name(p.name.as_str(), p.version.as_str()) {
            Some(c) => {
                acc.push(c);
                assert(coords_views(acc@) =~= coords_views(before).push(coords_view(c)));
            },
            None => {},
        }
        i = i + 1;
    }
    assert(pkgs@.take(pkgs@.len() as int) =~= pkgs@);
}

/// The distinct coordinates of `v`, first occurrences in order.
fn dedup_coords(v: &Vec<PackageCoords>) -> (r: Vec<PackageCoords>)
    ensures
        coords_views(r@).to_set() == coords_views(v@).to_set(),
        coords_views(r@).no_duplicates(),
{
    let mut out: Vec<PackageCoords> = Vec::new();
    let mut i: usize = 0;
    while i < v.len()
        invariant
            i <= v@.len(),
            coords_views(out@).no_duplicates(),
            forall|x| coords_views(out@).contains(x) <==> coords_views(v@).take(i as int).contains(x),
        decreases v@.len() - i,
    {
        let ghost before = coords_views(out@);
        let ghost vs = coords_views(v@);
        assert(vs.take(i + 1) =~= vs.take(i as int).push(vs[i as int]));
        assert(vs[i as int] == coords_view(v@[i as int]));
        if !contains_coords(&out, &v[i]) {
            let c = copy_coords(&v[i]);
            out.push(c);
            assert(coords_views(out@) =~= before.push(coords_view(c)));
            assert forall|a: int, b: int|
                0 <= a < coords_views(out@).len() && 0 <= b < coords_views(out@).len() && a
                    != b implies coords_views(out@)[a] != coords_views(out@)[b] by {
                if a < before.len() && b < before.len() {
                    assert(before[a] != before[b]);
                } else if a < before.len() {
                    assert(before.contains(before[a]));
                } else if b < before.len() {
                    assert(before.contains(before[b]));
                }
            }
        }
        i = i + 1;
    }
    assert(coords_views(v@).take(v@.len() as int) =~= coords_views(v@));
    assert(coords_views(out@).to_set() =~= coords_views(v@).to_set());
    out
}

/// The plan for already parsed locks.
pub fn plan_from_locks(locks: &Vec<ComposerLock>, stored: &Vec<PackageCoords>) -> (p: GcPlan)
    ensures
        plan_matches(p, locks@, stored@),
{
    let mut all: Vec<PackageCoords> = Vec::new();
    let mut i: usize = 0;
    assert(locks@.take(0) =~= Seq::<ComposerLock>::empty());
    while i < locks.len()
        invariant
            i <= locks@.len(),
            coords_views(all@) == all_refs(locks@.take(i as int)),
        decreases locks@.len() - i,
    {
        let l = &locks[i];
        push_refs(&l.packages, &mut all);
        push_refs(&l.packages_dev, &mut all);
        proof {
            lemma_refs_of_append(l.packages@, l.packages_dev@);
            assert(locks@.take(i + 1).drop_last() =~= locks@.take(i as int));
            assert(locks@.take(i + 1).last() == *l);
        }
        i = i + 1;
    }
    assert(locks@.take(locks@.len() as int) =~= locks@);
    let refs = dedup_coords(&all);
    let ghost rs = all_refs(locks@).to_set();
    proof {
        coords_views(refs@).unique_seq_to_set();
    }
    let mut to_remove: Vec<PackageCoords> = Vec::new();
    let mut k: usize = 0;
    assert(coords_views(stored@).take(0) =~= Seq::<(Seq<char>, Seq<char>, Seq<char>)>::empty());
    while k < stored.len()
        invariant
            k <= stored@.len(),
            coords_views(refs@).to_set() == rs,
            coords_views(to_remove@) == unreferenced(coords_views(stored@).take(k as int), rs),
        decreases stored@.len() - k,
    {
        let ghost sv = coords_views(stored@);
        let ghost before = coords_views(to_remove@);
        assert(sv.take(k + 1).drop_last() =~= sv.take(k as int));
        assert(sv.take(k + 1).last() == coords_view(stored@[k as int]));
        let hit = contains_coords(&refs, &stored[k]);
        assert(hit == rs.contains(coords_view(stored@[k as int])));
        if !hit {
            let c = copy_coords(&stored[k]);
            to_remove.push(c);
            assert(coords_views(to_remove@) =~= before.push(coords_view(c)));
        }
        k = k + 1;
    }
    assert(coords_views(stored@).take(stored@.len() as int) =~= coords_views(stored@));
    GcPlan { to_remove, referenced_count: refs.len() }
}

/// What `plan_gc` gives: `EmptyRegistry` exactly without registered
/// projects; otherwise success exactly when every existing lock reads, a
/// `Lock` error else, and on success the plan for the parsed locks.
pub open spec fn spec_plan_outcome(
    lock_texts: Seq<Option<String>>,
    stored: Seq<PackageCoords>,
    r: Result<GcPlan, GcError>,
) -> bool {
    &&& (lock_texts.len() == 0) == (r matches Err(GcError::EmptyRegistry))
    &&& lock_texts.len() > 0 ==> (r is Ok <==> forall|i: int|
        0 <= i < present(lock_texts).len() ==> lock_text_ok(#[trigger] present(lock_texts)[i]))
    &&& r is Err && lock_texts.len() > 0 ==> (r matches Err(GcError::Lock(_)))
    &&& match r {
        Ok(p) => exists|ls: Seq<ComposerLock>|
            parsed_locks(lock_texts, ls) && plan_matches(p, ls, stored),
        Err(_) => true,
    }
}

/// Plans a gc: `lock_texts` holds, for each registered project, the text of
/// its composer.lock (None when it has none, which contributes no
/// references); `stored` lists the packages of the store. Nothing is deleted.
/// No registered project is `EmptyRegistry`; a lock that does not read aborts
/// the plan, rather than plan with an incomplete referenced set.
pub fn plan_gc(lock_texts: &Vec<Option<String>>, stored: &Vec<PackageCoords>) -> (r: Result<
    GcPlan,
    GcError,
>)
    ensures
        spec_plan_outcome(lock_texts@, stored@, r),
{
    if lock_texts.len() == 0 {
        return Err(GcError::EmptyRegistry);
    }
    let mut locks: Vec<ComposerLock> = Vec::new();
    let mut i: usize = 0;
    assert(lock_texts@.take(0) =~= Seq::<Option<String>>::empty());
    while i < lock_texts.len()
        invariant
            i <= lock_texts@.len(),
            lock_texts@.len() > 0,
            parsed_locks(lock_texts@.take(i as int), locks@),
            forall|j: int|
                0 <= j < present(lock_texts@.take(i as int)).len() ==> lock_text_ok(
                    #[trigger] present(lock_texts@.take(i as int))[j],
                ),
        decreases lock_texts@.len() - i,
    {
        let ghost ts = lock_texts@.take(i + 1);
        assert(ts.drop_last() =~= lock_texts@.take(i as int));
        assert(ts.last() == lock_texts@[i as int]);
        match &lock_texts[i] {
            Some(raw) => {
                match parse_lock(raw.as_str()) {
                    Ok(l) => {
                        let ghost before = locks@;
                        locks.push(l);
                        assert(present(ts) == present(lock_texts@.take(i as int)).push(raw@));
                        assert(locks@ == before.push(l));
                    },
                    Err(e) => {
                        proof {
                            lemma_present_prefix(lock_texts@, i + 1);
                            let pt = present(ts);
                            assert(pt == present(lock_texts@.take(i as int)).push(raw@));
                            assert(pt[pt.len() - 1] == raw@);
                            assert(present(lock_texts@)[pt.len() - 1] == raw@);
                            assert(!lock_text_ok(present(lock_texts@)[pt.len() - 1]));
                        }
                        return Err(GcError::Lock(e));
                    },
                }
            },
            None => {
                assert(present(ts) == present(lock_texts@.take(i as int)));
            },
        }
        i = i + 1;
    }
    assert(lock_texts@.take(lock_texts@.len() as int) =~= lock_texts@);
    let p = plan_from_locks(&locks, stored);
    Ok(p)
}

/// The present texts of a prefix are a prefix of the present texts.
proof fn lemma_present_prefix(ts: Seq<Option<String>>, n: int)
    requires
        0 <= n <= ts.len(),
    ensures
        present(ts.take(n)).len() <= present(ts).len(),
        forall|j: int|
            0 <= j < present(ts.take(n)).len() ==> #[trigger] present(ts)[j] == present(
                ts.take(n),
            )[j],
    decreases ts.len() - n,
{
    if n < ts.len() {
        lemma_present_prefix(ts, n + 1);
        assert(ts.take(n + 1).drop_last() =~= ts.take(n));
    } else {
        assert(ts.take(n) =~= ts);
    }
}

// ----------------------------------------------------------------------------
// The project registry

/// The paths a registry file lists: its non-blank lines (a missing file lists
/// none).
pub open spec fn registry_set(contents: Option<Seq<char>>) -> Set<Seq<char>> {
    match contents {
        None => Set::empty(),
        Some(t) => Set::new(|l: Seq<char>| lines(t).contains(l) && trim(l).len() > 0),
    }
}

pub open spec fn opt_text(contents: Option<&str>) -> Option<Seq<char>> {
    match contents {
        Some(t) => Some(t@),
        None => None,
    }
}

/// Strictly increasing in `str` order.
pub open spec fn sorted_strict(ks: Seq<Seq<char>>) -> bool {
    forall|i: int, j: int| 0 <= i < j < ks.len() ==> lex_lt(#[trigger] ks[i], #[trigger] ks[j])
}

/// The lines joined with `\n` (no final line ending).
pub open spec fn join_lines(ks: Seq<Seq<char>>) -> Seq<char>
    decreases ks.len(),
{
    if ks.len() == 0 {
        seq![]
    } else if ks.len() == 1 {
        ks[0]
    } else {
        join_lines(ks.drop_last()) + seq!['\n'] + ks.last()
    }
}

/// The file body for the set `s`: its paths in increasing order, one per line.
pub open spec fn registry_body(body: Seq<char>, s: Set<Seq<char>>) -> bool {
    exists|ks: Seq<Seq<char>>| sorted_strict(ks) && ks.to_set() == s && body == join_lines(ks)
}

pub open spec fn strs(v: Seq<String>) -> Seq<Seq<char>> {
    v.map_values(|s: String| s@)
}

/// The projects phpm knows about, kept in the file `<base>/projects`.
pub struct Registry {
    file: String,
}

/// The keys of a map, in order.
fn keys_of(m: &StrMap<bool>) -> (r: Vec<String>)
    requires
        m.wf(),
    ensures
        sorted_strict(strs(r@)),
        forall|k: Seq<char>| #[trigger] strs(r@).contains(k) <==> m.spec_get(k) is Some,
{
    let mut r: Vec<String> = Vec::new();
    let mut i: usize = 0;
    while i < m.len()
        invariant
            i <= m.entries().len(),
            m.wf(),
            strs(r@).len() == i,
            forall|j: int| 0 <= j < i ==> #[trigger] strs(r@)[j] == m.entries()[j].0@,
        decreases m.entries().len() - i,
    {
        let k = copy_string(m.key_at(i));
        let ghost before = r@;
        r.push(k);
        assert(strs(r@) =~= strs(before).push(k@));
        i = i + 1;
    }
    let ghost es = m.entries();
    assert forall|a: int, b: int| 0 <= a < b < strs(r@).len() implies lex_lt(
        #[trigger] strs(r@)[a],
        #[trigger] strs(r@)[b],
    ) by {
        assert(lex_lt(es[a].0@, es[b].0@));
    }
    assert forall|k: Seq<char>| #[trigger] strs(r@).contains(k) <==> m.spec_get(k) is Some by {
        if strs(r@).contains(k) {
            let j = choose|j: int| 0 <= j < strs(r@).len() && strs(r@)[j] == k;
            assert(strs(r@)[j] == es[j].0@);
            lemma_first_key(es, k, j);
        } else {
            assert forall|g: int| 0 <= g < es.len() implies #[trigger] es[g].0@ != k by {
                assert(strs(r@)[g] == es[g].0@);
            }
            lemma_lookup_none(es, k);
        }
    }
    r
}

/// In a key-sorted map a key found at `j` is looked up there.
proof fn lemma_first_key(es: Seq<(String, bool)>, k: Seq<char>, j: int)
    requires
        keys_sorted(es),
        0 <= j < es.len(),
        es[j].0@ == k,
    ensures
        lookup(es, k) is Some,
{
    assert forall|g: int| 0 <= g < j implies #[trigger] es[g].0@ != k by {
        assert(lex_lt(es[g].0@, es[j].0@));
        crate::text::lemma_lex_total(es[g].0@, es[j].0@);
    }
    lemma_lookup_at(es, k, j);
}

/// The registry's paths from the file's text, as a sorted map.
fn read_set(contents: Option<&str>) -> (m: StrMap<bool>)
    ensures
        m.wf(),
        forall|k: Seq<char>| #[trigger] m.spec_get(k) is Some <==> registry_set(opt_text(contents)).contains(k),
{
    let mut m: StrMap<bool> = StrMap::new();
    let raw = match contents {
        None => {
            return m;
        },
        Some(t) => t,
    };
    let text = chars_of(raw);
    let ls = lines_exec(&text);
    let ghost all = lines(text@);
    let mut i: usize = 0;
    while i < ls.len()
        invariant
            i <= ls@.len(),
            ls@.len() == all.len(),
            forall|j: int| 0 <= j < ls@.len() ==> #[trigger] ls@[j]@ == all[j],
            m.wf(),
            forall|k: Seq<char>| #[trigger] m.spec_get(k) is Some <==> (all.take(i as int).contains(k)
                && trim(k).len() > 0),
        decreases ls@.len() - i,
    {
        let line = &ls[i];
        let t = trim_ws(line);
        let ghost old_entries = m.entries();
        let ghost old_m = m;
        assert(all.take(i + 1) =~= all.take(i as int).push(all[i as int]));
        if t.len() > 0 {
            let key = string_of(line);
            m.insert(key, true);
            assert forall|k: Seq<char>| #[trigger] m.spec_get(k) is Some <==> (all.take(i + 1).contains(
                k,
            ) && trim(k).len() > 0) by {
                lemma_insert_then_lookup(old_entries, key, true, k);
                lemma_take_push_contains(all, i as int, k);
                assert(old_m.spec_get(k) is Some <==> (all.take(i as int).contains(k) && trim(k).len()
                    > 0));
            }
        } else {
            assert forall|k: Seq<char>| #[trigger] m.spec_get(k) is Some <==> (all.take(i + 1).contains(
                k,
            ) && trim(k).len() > 0) by {
                lemma_take_push_contains(all, i as int, k);
            }
        }
        i = i + 1;
    }
    assert(all.take(ls@.len() as int) =~= all);
    m
}

proof fn lemma_take_push_contains(s: Seq<Seq<char>>, i: int, k: Seq<char>)
    requires
        0 <= i < s.len(),
    ensures
        s.take(i + 1).contains(k) <==> (s.take(i).contains(k) || s[i] == k),
{
    assert(s.take(i + 1) =~= s.take(i).push(s[i]));
}

/// Joins the lines with `\n`.
fn join_exec(ks: &Vec<String>) -> (r: String)
    ensures
        r@ == join_lines(strs(ks@)),
{
    let mut out: Vec<char> = Vec::new();
    let mut i: usize = 0;
    assert(strs(ks@).take(0) =~= Seq::<Seq<char>>::empty());
    while i < ks.len()
        invariant
            i <= ks@.len(),
            out@ == join_lines(strs(ks@).take(i as int)),
        decreases ks@.len() - i,
    {
        let c = chars_of(ks[i].as_str());
        let ghost prev = out@;
        let ghost t = strs(ks@).take(i + 1);
        assert(t.drop_last() =~= strs(ks@).take(i as int));
        assert(t.last() == ks@[i as int]@);
        if i > 0 {
            out.push('\n');
        }
        let mut j: usize = 0;
        let ghost mid = out@;
        while j < c.len()
            invariant
                j <= c@.len(),
                out@ == mid + c@.take(j as int),
            decreases c@.len() - j,
        {
            out.push(c[j]);
            j = j + 1;
            assert(out@ =~= mid + c@.take(j as int));
        }
        assert(c@.take(c@.len() as int) =~= c@);
        if i == 0 {
            assert(t =~= seq![ks@[0]@]);
            assert(out@ =~= t[0]);
        } else {
            assert(out@ =~= prev + seq!['\n'] + t.last());
        }
        i = i + 1;
    }
    assert(strs(ks@).take(ks@.len() as int) =~= strs(ks@));
    string_of(&out)
}

impl Registry {
    pub closed spec fn spec_file(&self) -> Seq<char> {
        self.file@
    }

    /// The registry kept in `<base>/projects`.
    pub fn new(base: &str) -> (r: Registry)
        ensures
            r.spec_file() == spec_path_join(base@, "projects"@),
    {
        Registry { file: path_join(base, "projects") }
    }

    /// The path of the registry file.
    pub fn file(&self) -> (r: &str)
        ensures
            r@ == self.spec_file(),
    {
        self.file.as_str()
    }

    /// The registered projects, in increasing order, each once; `contents` is
    /// the text of the registry file, None when there is none.
    pub fn list(&self, contents: Option<&str>) -> (r: Vec<String>)
        ensures
            sorted_strict(strs(r@)),
            strs(r@).to_set() == registry_set(opt_text(contents)),
    {
        let m = read_set(contents);
        let r = keys_of(&m);
        assert(strs(r@).to_set() =~= registry_set(opt_text(contents)));
        r
    }

    /// The registry file's new text once `project_dir` is added; adding a
    /// path twice keeps it once.
    pub fn register(&self, contents: Option<&str>, project_dir: &str) -> (r: String)
        ensures
            registry_body(r@, registry_set(opt_text(contents)).insert(project_dir@)),
    {
        let mut m = read_set(contents);
        let ghost old_entries = m.entries();
        let ghost old_m = m;
        let key = string_of(&chars_of(project_dir));
        m.insert(key, true);
        assert forall|k: Seq<char>| #[trigger] m.spec_get(k) is Some <==> registry_set(
            opt_text(contents),
        ).insert(project_dir@).contains(k) by {
            lemma_insert_then_lookup(old_entries, key, true, k);
            assert(old_m.spec_get(k) is Some <==> registry_set(opt_text(contents)).contains(k));
        }
        let ks = keys_of(&m);
        let r = join_exec(&ks);
        assert(strs(ks@).to_set() =~= registry_set(opt_text(contents)).insert(project_dir@));
        r
    }

    /// The registry file's new text keeping only the listed paths marked as
    /// existing on disk, in their order.
    pub fn prune_missing(&self, listed: &Vec<(String, bool)>) -> (r: String)
        ensures
            r@ == join_lines(kept_paths(listed@)),
    {
        let mut kept: Vec<String> = Vec::new();
        let mut i: usize = 0;
        assert(listed@.take(0) =~= Seq::<(String, bool)>::empty());
        while i < listed.len()
            invariant
                i <= listed@.len(),
                strs(kept@) == kept_paths(listed@.take(i as int)),
            decreases listed@.len() - i,
        {
            assert(listed@.take(i + 1).drop_last() =~= listed@.take(i as int));
            assert(listed@.take(i + 1).last() == listed@[i as int]);
            if listed[i].1 {
                let ghost before = kept@;
                let s = copy_string(&listed[i].0);
                kept.push(s);
                assert(strs(kept@) =~= strs(before).push(s@));
            }
            i = i + 1;
        }
        assert(listed@.take(listed@.len() as int) =~= listed@);
        join_exec(&kept)
    }
}

/// The paths marked as existing, in order.
pub open spec fn kept_paths(listed: Seq<(String, bool)>) -> Seq<Seq<char>>
    decreases listed.len(),
{
    if listed.len() == 0 {
        seq![]
    } else if listed.last().1 {
        kept_paths(listed.drop_last()).push(listed.last().0@)
    } else {
        kept_paths(listed.drop_last())
    }
}

/// A gc plan removes a package exactly when it is stored and no registered
/// project's lock references it: a referenced package is never planned for
/// removal, and no unreferenced stored package is kept.
pub proof fn lemma_plan_removes_exactly_unreferenced(
    p: GcPlan,
    ls: Seq<ComposerLock>,
    stored: Seq<PackageCoords>,
    x: (Seq<char>, Seq<char>, Seq<char>),
)
    requires
        plan_matches(p, ls, stored),
    ensures
        coords_views(p.to_remove@).contains(x) <==> (coords_views(stored).contains(x)
            && !all_refs(ls).contains(x)),
{
    lemma_unreferenced_exact(coords_views(stored), all_refs(ls).to_set(), x);
}

proof fn lemma_join_fwd_push(ks: Seq<Seq<char>>, x: Seq<char>)
    requires
        ks.len() >= 1,
    ensures
        join_fwd(ks.push(x)) == join_fwd(ks) + seq!['\n'] + x,
    decreases ks.len(),
{
    let t = ks.push(x);
    if ks.len() == 1 {
        assert(t.drop_first() =~= seq![x]);
        assert(join_fwd(t) =~= join_fwd(ks) + seq!['\n'] + x);
    } else {
        let df = ks.drop_first();
        assert(t.drop_first() =~= df.push(x));
        lemma_join_fwd_push(df, x);
        assert(t[0] == ks[0]);
        assert(join_fwd(t) == t[0] + seq!['\n'] + join_fwd(t.drop_first()));
        assert(join_fwd(ks) == ks[0] + seq!['\n'] + join_fwd(df));
        assert(join_fwd(t) =~= join_fwd(ks) + seq!['\n'] + x);
    }
}

proof fn lemma_join_lines_fwd(ks: Seq<Seq<char>>)
    ensures
        join_lines(ks) == join_fwd(ks),
    decreases ks.len(),
{
    if ks.len() >= 2 {
        lemma_join_lines_fwd(ks.drop_last());
        lemma_join_fwd_push(ks.drop_last(), ks.last());
        assert(ks.drop_last().push(ks.last()) =~= ks);
    }
}

/// A path the registry file can hold: not blank, and no `\n` in it.
pub open spec fn registrable(p: Seq<char>) -> bool {
    trim(p).len() > 0 && !p.contains('\n')
}

/// A path ending in `\r` comes last in `str` order (anywhere else its `\r`
/// would merge with the line break after it).
pub open spec fn cr_only_last(s: Set<Seq<char>>) -> bool {
    forall|l: Seq<char>, m: Seq<char>|
        #![trigger s.contains(l), s.contains(m)]
        s.contains(l) && s.contains(m) && l.len() > 0 && l.last() == '\r' && m != l ==> lex_lt(m, l)
}

/// A registry file written for a set of registrable paths lists that set.
pub proof fn lemma_registry_reads_back(body: Seq<char>, s: Set<Seq<char>>)
    requires
        registry_body(body, s),
        forall|p: Seq<char>| #[trigger] s.contains(p) ==> registrable(p),
        cr_only_last(s),
    ensures
        registry_set(Some(body)) == s,
{
    let ks = choose|ks: Seq<Seq<char>>| sorted_strict(ks) && ks.to_set() == s && body == join_lines(ks);
    assert forall|i: int| 0 <= i < ks.len() implies (#[trigger] ks[i]).len() > 0 && !ks[i].contains(
        '\n',
    ) && (i + 1 < ks.len() ==> ks[i].last() != '\r') by {
        assert(ks.to_set().contains(ks[i]));
        assert(s.contains(ks[i]));
        let k = ks[i];
        if k.len() == 0 {
            assert(trim(k) =~= Seq::<char>::empty());
        }
        if i + 1 < ks.len() && k.last() == '\r' {
            assert(ks.to_set().contains(ks[i + 1]));
            assert(lex_lt(ks[i], ks[i + 1]));
            crate::text::lemma_lex_total(ks[i], ks[i + 1]);
            assert(lex_lt(ks[i + 1], ks[i]));
        }
    }
    lemma_join_lines_fwd(ks);
    lemma_lines_join_fwd(ks);
    assert forall|l: Seq<char>| registry_set(Some(body)).contains(l) <==> s.contains(l) by {
        assert(ks.to_set().contains(l) <==> ks.contains(l));
    }
    assert(registry_set(Some(body)) =~= s);
}

/// Registering a path adds it to the listed projects and keeps every other
/// one; registering it again changes nothing. (A path ending in `\r` that is
/// not last in order loses its `\r` when the file is rewritten.)
pub proof fn lemma_register_adds_once(
    contents: Option<Seq<char>>,
    body1: Seq<char>,
    body2: Seq<char>,
    p: Seq<char>,
)
    requires
        registrable(p),
        cr_only_last(registry_set(contents).insert(p)),
        registry_body(body1, registry_set(contents).insert(p)),
        registry_body(body2, registry_set(Some(body1)).insert(p)),
    ensures
        registry_set(Some(body1)) == registry_set(contents).insert(p),
        registry_set(Some(body2)) == registry_set(Some(body1)),
{
    let s = registry_set(contents);
    match contents {
        Some(t) => {
            lemma_lines_no_newline(t, 0);
            assert forall|l: Seq<char>| #[trigger] s.contains(l) implies registrable(l) by {
                let i = choose|i: int| 0 <= i < lines(t).len() && lines(t)[i] == l;
                assert(!lines(t)[i].contains('\n'));
            }
        },
        None => {},
    }
    lemma_registry_reads_back(body1, s.insert(p));
    assert(s.insert(p).insert(p) =~= s.insert(p));
    lemma_registry_reads_back(body2, s.insert(p).insert(p));
}

/// The paths of a listing.
pub open spec fn listed_paths(listed: Seq<(String, bool)>) -> Seq<Seq<char>> {
    listed.map_values(|e: (String, bool)| e.0@)
}

proof fn lemma_kept_paths_sorted(listed: Seq<(String, bool)>)
    requires
        sorted_strict(listed_paths(listed)),
    ensures
        sorted_strict(kept_paths(listed)),
        forall|k: Seq<char>| #[trigger] kept_paths(listed).contains(k) ==> listed_paths(listed).contains(k),
    decreases listed.len(),
{
    if listed.len() > 0 {
        let dl = listed.drop_last();
        let ps = listed_paths(listed);
        assert(listed_paths(dl) =~= ps.drop_last());
        assert(sorted_strict(listed_paths(dl))) by {
            assert forall|i: int, j: int| 0 <= i < j < listed_paths(dl).len() implies lex_lt(
                #[trigger] listed_paths(dl)[i],
                #[trigger] listed_paths(dl)[j],
            ) by {
                assert(listed_paths(dl)[i] == ps[i] && listed_paths(dl)[j] == ps[j]);
            }
        }
        lemma_kept_paths_sorted(dl);
        let kd = kept_paths(dl);
        assert forall|k: Seq<char>| #[trigger] kd.contains(k) implies ps.contains(k) && lex_lt(
            k,
            ps.last(),
        ) by {
            assert(listed_paths(dl).contains(k));
            let j = choose|j: int| 0 <= j < listed_paths(dl).len() && listed_paths(dl)[j] == k;
            assert(ps[j] == k);
            assert(lex_lt(ps[j], ps[ps.len() - 1]));
        }
        assert(ps.last() == listed.last().0@);
        if listed.last().1 {
            let kk = kd.push(listed.last().0@);
            assert forall|i: int, j: int| 0 <= i < j < kk.len() implies lex_lt(
                #[trigger] kk[i],
                #[trigger] kk[j],
            ) by {
                if j < kd.len() {
                    assert(kk[i] == kd[i] && kk[j] == kd[j]);
                } else {
                    assert(kk[i] == kd[i]);
                    assert(kd.contains(kd[i]));
                }
            }
            assert forall|k: Seq<char>| #[trigger] kk.contains(k) implies ps.contains(k) by {
                let j = choose|j: int| 0 <= j < kk.len() && kk[j] == k;
                if j < kd.len() {
                    assert(kd[j] == k);
                    assert(kd.contains(k));
                } else {
                    assert(ps[ps.len() - 1] == k);
                }
            }
        } else {
            assert forall|k: Seq<char>| #[trigger] kd.contains(k) implies ps.contains(k) by {
                assert(kd.contains(k));
            }
        }
    }
}

/// Pruning rewrites the registry so that it lists exactly the kept paths:
/// for a listing as `list` gives it (sorted, each path once), of registrable
/// paths, the pruned file reads back as the paths marked as existing.
pub proof fn lemma_prune_lists_kept(listed: Seq<(String, bool)>)
    requires
        sorted_strict(listed_paths(listed)),
        forall|i: int| 0 <= i < listed.len() ==> registrable(#[trigger] listed_paths(listed)[i]),
        cr_only_last(listed_paths(listed).to_set()),
    ensures
        registry_set(Some(join_lines(kept_paths(listed)))) == kept_paths(listed).to_set(),
{
    let k = kept_paths(listed);
    let ps = listed_paths(listed);
    lemma_kept_paths_sorted(listed);
    assert(registry_body(join_lines(k), k.to_set()));
    assert forall|p: Seq<char>| #[trigger] k.to_set().contains(p) implies registrable(p) by {
        assert(k.contains(p));
        assert(ps.contains(p));
        let j = choose|j: int| 0 <= j < ps.len() && ps[j] == p;
        assert(registrable(ps[j]));
    }
    assert forall|l: Seq<char>, m: Seq<char>|
        #![trigger k.to_set().contains(l), k.to_set().contains(m)]
        k.to_set().contains(l) && k.to_set().contains(m) && l.len() > 0 && l.last() == '\r' && m
            != l implies lex_lt(m, l) by {
        assert(k.contains(l) && k.contains(m));
        assert(ps.contains(l) && ps.contains(m));
        assert(ps.to_set().contains(l) && ps.to_set().contains(m));
    }
    lemma_registry_reads_back(join_lines(k), k.to_set());
}

} // verus!
