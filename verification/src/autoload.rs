//! Aggregation of the packages' autoload rules into one set, with every path
//! anchored to the PHP variable of its base directory.
use vstd::prelude::*;
use crate::lockfile::{autoload_wf, lemma_strs_push, opt_list_view, strs, Autoload, ComposerJson, composer_json_wf};
use crate::strmap::{lemma_insert_then_lookup, lookup, StrMap};
use crate::text::{chars_of, is_char, lemma_ltrim, lemma_rtrim, ltrim, rtrim, string_of, trim_end_char, trim_start_char};

verus! {

/// Failures of generating the autoload files.
#[derive(Debug)]
pub enum GenError {
    Io(std::io::Error),
    Json(serde_json::Error),
    Lock(crate::lockfile::LockError),
    Store(crate::store::StoreError),
}

/// Which PHP base variable a path is anchored to in the emitted files.
#[derive(Debug, Clone, Copy, PartialEq, Eq, Structural)]
pub enum PathBase {
    /// `$baseDir`: the project root (the root package's own autoload).
    Base,
    /// `$vendorDir`: the vendor directory (dependency packages).
    Vendor,
}

pub open spec fn base_var(b: PathBase) -> Seq<char> {
    match b {
        PathBase::Base => "$baseDir"@,
        PathBase::Vendor => "$vendorDir"@,
    }
}

/// `$var/rel` with the slashes around `rel` removed; just `$var` when nothing is left.
pub open spec fn spec_join(b: PathBase, rel: Seq<char>) -> Seq<char> {
    let r = rtrim(ltrim(rel, is_char('/')), is_char('/'));
    if r.len() == 0 {
        base_var(b)
    } else {
        base_var(b) + seq!['/'] + r
    }
}

/// A package-relative path put under the package's vendor-relative prefix.
pub open spec fn spec_prefixed(prefix: Option<Seq<char>>, rel: Seq<char>) -> Seq<char> {
    match prefix {
        Some(p) => rtrim(p, is_char('/')) + seq!['/'] + ltrim(rel, is_char('/')),
        None => rel,
    }
}

pub open spec fn anchored(b: PathBase, prefix: Option<Seq<char>>, rel: Seq<char>) -> Seq<char> {
    spec_join(b, spec_prefixed(prefix, rel))
}

pub open spec fn anchored_all(b: PathBase, prefix: Option<Seq<char>>, rels: Seq<Seq<char>>) -> Seq<
    Seq<char>,
> {
    rels.map_values(|r: Seq<char>| anchored(b, prefix, r))
}

pub open spec fn opt_str_view(o: Option<&str>) -> Option<Seq<char>> {
    match o {
        Some(s) => Some(s@),
        None => None,
    }
}

fn push_all(out: &mut Vec<char>, s: &Vec<char>)
    ensures
        final(out)@ == old(out)@ + s@,
{
    let mut i: usize = 0;
    while i < s.len()
        invariant
            i <= s@.len(),
            out@ == old(out)@ + s@.take(i as int),
        decreases s@.len() - i,
    {
        out.push(s[i]);
        i = i + 1;
        assert(out@ =~= old(out)@ + s@.take(i as int));
    }
    assert(s@.take(s@.len() as int) =~= s@);
}

impl PathBase {
    /// A base-anchored path, e.g. `$vendorDir/monolog/monolog/src`.
    pub fn join(self, rel: &str) -> (r: String)
        ensures
            r@ == spec_join(self, rel@),
    {
        let var = match self {
            PathBase::Base => chars_of("$baseDir"),
            PathBase::Vendor => chars_of("$vendorDir"),
        };
        let c = chars_of(rel);
        let t = trim_start_char(&c, '/');
        let t = trim_end_char(&t, '/');
        if t.len() == 0 {
            string_of(&var)
        } else {
            let mut out = var;
            out.push('/');
            push_all(&mut out, &t);
            string_of(&out)
        }
    }
}

/// `rel` under the vendor-relative prefix `p/` of a dependency, or as is for the root.
pub fn prefixed(pkg_prefix: Option<&str>, rel: &str) -> (r: String)
    ensures
        r@ == spec_prefixed(opt_str_view(pkg_prefix), rel@),
{
    match pkg_prefix {
        Some(p) => {
            let pc = chars_of(p);
            let mut out = trim_end_char(&pc, '/');
            out.push('/');
            let rc = chars_of(rel);
            let tail = trim_start_char(&rc, '/');
            push_all(&mut out, &tail);
            string_of(&out)
        },
        None => string_of(&chars_of(rel)),
    }
}

/// Every path of `rels`, prefixed and anchored.
pub fn anchor_all(base: PathBase, pkg_prefix: Option<&str>, rels: &Vec<String>) -> (r: Vec<String>)
    ensures
        strs(r@) == anchored_all(base, opt_str_view(pkg_prefix), strs(rels@)),
{
    let mut out: Vec<String> = Vec::new();
    let mut i: usize = 0;
    while i < rels.len()
        invariant
            i <= rels@.len(),
            strs(out@) == anchored_all(base, opt_str_view(pkg_prefix), strs(rels@.take(i as int))),
        decreases rels@.len() - i,
    {
        let p = prefixed(pkg_prefix, rels[i].as_str());
        let a = base.join(p.as_str());
        let ghost before = out@;
        out.push(a);
        proof {
            lemma_strs_push(before, a);
            assert(rels@.take(i + 1) =~= rels@.take(i as int).push(rels@[i as int]));
            lemma_strs_push(rels@.take(i as int), rels@[i as int]);
            assert(anchored_all(base, opt_str_view(pkg_prefix), strs(rels@.take(i + 1))) =~= anchored_all(
                base,
                opt_str_view(pkg_prefix),
                strs(rels@.take(i as int)),
            ).push(a@));
        }
        i = i + 1;
        assert(strs(out@) =~= anchored_all(
            base,
            opt_str_view(pkg_prefix),
            strs(rels@.take(i as int)),
        ));
    }
    assert(rels@.take(rels@.len() as int) =~= rels@);
    out
}

/// The list under a key after appending `add` (a missing entry counts as empty).
pub open spec fn appended(old: Option<Seq<Seq<char>>>, add: Seq<Seq<char>>) -> Seq<Seq<char>> {
    match old {
        Some(v) => v + add,
        None => add,
    }
}

impl StrMap<Vec<String>> {
    /// `entry(key).or_default().extend(items)`.
    pub fn extend_entry(&mut self, key: String, items: Vec<String>)
        requires
            old(self).wf(),
        ensures
            final(self).wf(),
            forall|k: Seq<char>| k != key@ ==> #[trigger] final(self).spec_get(k) == old(self).spec_get(k),
            opt_list_view(final(self).spec_get(key@)) == Some(
                appended(opt_list_view(old(self).spec_get(key@)), strs(items@)),
            ),
    {
        let ghost before = self.entries();
        let combined = match self.get(key.as_str()) {
            Some(v) => {
                let mut c = v.clone();
                let mut i: usize = 0;
                while i < items.len()
                    invariant
                        i <= items@.len(),
                        strs(c@) == strs(v@) + strs(items@.take(i as int)),
                    decreases items@.len() - i,
                {
                    let ghost before = c@;
                    let e = items[i].clone();
                    c.push(e);
                    proof {
                        lemma_strs_push(before, e);
                        assert(items@.take(i + 1) =~= items@.take(i as int).push(items@[i as int]));
                        lemma_strs_push(items@.take(i as int), items@[i as int]);
                    }
                    i = i + 1;
                    assert(strs(c@) =~= strs(v@) + strs(items@.take(i as int)));
                }
                assert(items@.take(items@.len() as int) =~= items@);
                c
            },
            None => items,
        };
        let ghost cv = combined;
        self.insert(key, combined);
        proof {
            assert forall|k: Seq<char>| k != key@ implies #[trigger] self.spec_get(k)
                == lookup(before, k) by {
                lemma_insert_then_lookup(before, key, cv, k);
            }
            lemma_insert_then_lookup(before, key, cv, key@);
        }
    }
}

/// Aggregated autoload rules across all packages, ready to emit.
#[derive(Debug)]
pub struct AutoloadData {
    pub psr4: StrMap<Vec<String>>,
    pub psr0: StrMap<Vec<String>>,
    pub files: Vec<String>,
    /// Declared classmap directories (collected; the classmap itself comes from scanning).
    pub classmap_dirs: Vec<String>,
}

pub open spec fn data_wf(d: AutoloadData) -> bool {
    d.psr4.wf() && d.psr0.wf()
}

impl Default for AutoloadData {
    fn default() -> (r: Self)
        ensures
            data_wf(r),
            r.psr4.entries().len() == 0,
            r.psr0.entries().len() == 0,
            r.files@.len() == 0,
            r.classmap_dirs@.len() == 0,
    {
        AutoloadData {
            psr4: StrMap::new(),
            psr0: StrMap::new(),
            files: Vec::new(),
            classmap_dirs: Vec::new(),
        }
    }
}

/// The value under `k` after merging the block map `add` into `old`.
pub open spec fn merged(
    old: Option<Seq<Seq<char>>>,
    add: Option<Seq<Seq<char>>>,
    b: PathBase,
    prefix: Option<Seq<char>>,
) -> Option<Seq<Seq<char>>> {
    match add {
        Some(ds) => Some(appended(old, anchored_all(b, prefix, ds))),
        None => old,
    }
}

/// `old` with every entry of `block` merged in: each namespace of the block
/// gets its anchored directories appended after those already collected.
pub open spec fn map_merged(
    new: StrMap<Vec<String>>,
    old: StrMap<Vec<String>>,
    block: StrMap<Vec<String>>,
    b: PathBase,
    prefix: Option<Seq<char>>,
) -> bool {
    &&& new.wf()
    &&& forall|k: Seq<char>| #[trigger]
        opt_list_view(new.spec_get(k)) == merged(
            opt_list_view(old.spec_get(k)),
            opt_list_view(block.spec_get(k)),
            b,
            prefix,
        )
}

fn merge_map(
    into: &mut StrMap<Vec<String>>,
    block: &StrMap<Vec<String>>,
    base: PathBase,
    pkg_prefix: Option<&str>,
)
    requires
        old(into).wf(),
        block.wf(),
    ensures
        map_merged(*final(into), *old(into), *block, base, opt_str_view(pkg_prefix)),
{
    let ghost start = *into;
    let ghost pre = opt_str_view(pkg_prefix);
    let n = block.len();
    let mut i: usize = 0;
    while i < n
        invariant
            n == block.entries().len(),
            block.wf(),
            i <= n,
            into.wf(),
            pre == opt_str_view(pkg_prefix),
            forall|k: Seq<char>| #[trigger]
                opt_list_view(into.spec_get(k)) == merged(
                    opt_list_view(start.spec_get(k)),
                    opt_list_view(lookup(block.entries().take(i as int), k)),
                    base,
                    pre,
                ),
        decreases n - i,
    {
        let key = block.key_at(i).clone();
        let dirs = anchor_all(base, pkg_prefix, block.value_at(i));
        let ghost prev = *into;
        into.extend_entry(key, dirs);
        proof {
            let es = block.entries();
            assert forall|k: Seq<char>| #[trigger]
                opt_list_view(into.spec_get(k)) == merged(
                    opt_list_view(start.spec_get(k)),
                    opt_list_view(lookup(es.take(i + 1), k)),
                    base,
                    pre,
                ) by {
                lemma_lookup_take_step(es, i as int, k);
                assert(opt_list_view(prev.spec_get(k)) == merged(
                    opt_list_view(start.spec_get(k)),
                    opt_list_view(lookup(es.take(i as int), k)),
                    base,
                    pre,
                ));
                if k == key@ {
                    assert(lookup(es.take(i as int), k) is None);
                }
            }
        }
        i = i + 1;
    }
    proof {
        assert(block.entries().take(n as int) =~= block.entries());
    }
}

/// In a map with strictly increasing keys, entry `i` is found in the first `i + 1`
/// entries exactly when its key is asked for, and nowhere before.
proof fn lemma_lookup_take_step(es: Seq<(String, Vec<String>)>, i: int, k: Seq<char>)
    requires
        crate::strmap::keys_sorted(es),
        0 <= i < es.len(),
    ensures
        lookup(es.take(i + 1), k) == if k == es[i].0@ {
            Some(es[i].1)
        } else {
            lookup(es.take(i), k)
        },
        k == es[i].0@ ==> lookup(es.take(i), k) is None,
    decreases i,
{
    let t = es.take(i + 1);
    if k == es[i].0@ {
        assert forall|j: int| 0 <= j < i implies #[trigger] t[j].0@ != k by {
            crate::text::lemma_lex_total(es[j].0@, es[i].0@);
        }
        crate::strmap::lemma_lookup_at(t, k, i);
        let u = es.take(i);
        assert forall|j: int| 0 <= j < u.len() implies #[trigger] u[j].0@ != k by {
            crate::text::lemma_lex_total(es[j].0@, es[i].0@);
        }
        crate::strmap::lemma_lookup_none(u, k);
    } else {
        lemma_lookup_prefix(es, i, k);
    }
}

/// A lookup that misses the last entry of a prefix reads the shorter prefix.
proof fn lemma_lookup_prefix<V>(es: Seq<(String, V)>, i: int, k: Seq<char>)
    requires
        0 <= i < es.len(),
        es[i].0@ != k,
    ensures
        lookup(es.take(i + 1), k) == lookup(es.take(i), k),
    decreases i,
{
    let t = es.take(i + 1);
    let u = es.take(i);
    if i == 0 {
        assert(t.drop_first() =~= Seq::<(String, V)>::empty());
        assert(u =~= Seq::<(String, V)>::empty());
    } else if t[0].0@ == k {
    } else {
        let rest = es.drop_first();
        lemma_lookup_prefix(rest, i - 1, k);
        assert(t.drop_first() =~= rest.take(i));
        assert(u.drop_first() =~= rest.take(i - 1));
    }
}

/// `base_new` is `base_old` followed by the anchored paths of `rels`.
pub open spec fn list_appended(
    new: Seq<String>,
    old: Seq<String>,
    rels: Seq<String>,
    b: PathBase,
    prefix: Option<Seq<char>>,
) -> bool {
    strs(new) == strs(old) + anchored_all(b, prefix, strs(rels))
}

/// The effect of merging one autoload block into `old`.
pub open spec fn block_merged(
    new: AutoloadData,
    old: AutoloadData,
    a: Autoload,
    b: PathBase,
    prefix: Option<Seq<char>>,
) -> bool {
    &&& map_merged(new.psr4, old.psr4, a.psr4, b, prefix)
    &&& map_merged(new.psr0, old.psr0, a.psr0, b, prefix)
    &&& list_appended(new.files@, old.files@, a.files@, b, prefix)
    &&& list_appended(new.classmap_dirs@, old.classmap_dirs@, a.classmap@, b, prefix)
}

fn append_anchored(into: &mut Vec<String>, rels: &Vec<String>, base: PathBase, pkg_prefix: Option<&str>)
    ensures
        list_appended(final(into)@, old(into)@, rels@, base, opt_str_view(pkg_prefix)),
{
    let add = anchor_all(base, pkg_prefix, rels);
    let mut i: usize = 0;
    while i < add.len()
        invariant
            i <= add@.len(),
            strs(into@) == strs(old(into)@) + strs(add@.take(i as int)),
        decreases add@.len() - i,
    {
        let ghost before = into@;
        let e = add[i].clone();
        into.push(e);
        proof {
            lemma_strs_push(before, e);
            assert(add@.take(i + 1) =~= add@.take(i as int).push(add@[i as int]));
            lemma_strs_push(add@.take(i as int), add@[i as int]);
        }
        i = i + 1;
        assert(strs(into@) =~= strs(old(into)@) + strs(add@.take(i as int)));
    }
    assert(add@.take(add@.len() as int) =~= add@);
}

/// Merges one autoload block into `data`. `pkg_prefix` is the vendor-relative
/// "vendor/package" segment for dependencies, or None for the root package.
pub fn merge_block(data: &mut AutoloadData, autoload: &Autoload, base: PathBase, pkg_prefix: Option<&str>)
    requires
        data_wf(*old(data)),
        autoload_wf(*autoload),
    ensures
        data_wf(*final(data)),
        block_merged(*final(data), *old(data), *autoload, base, opt_str_view(pkg_prefix)),
{
    merge_map(&mut data.psr4, &autoload.psr4, base, pkg_prefix);
    merge_map(&mut data.psr0, &autoload.psr0, base, pkg_prefix);
    append_anchored(&mut data.files, &autoload.files, base, pkg_prefix);
    append_anchored(&mut data.classmap_dirs, &autoload.classmap, base, pkg_prefix);
}

/// Merges a package's `autoload` block into `data`.
pub fn aggregate_autoload(
    data: &mut AutoloadData,
    json: &ComposerJson,
    base: PathBase,
    pkg_prefix: Option<&str>,
)
    requires
        data_wf(*old(data)),
        composer_json_wf(*json),
    ensures
        data_wf(*final(data)),
        block_merged(*final(data), *old(data), json.autoload, base, opt_str_view(pkg_prefix)),
{
    merge_block(data, &json.autoload, base, pkg_prefix);
}

/// Merges a package's `autoload-dev` block into `data` (Composer applies it for
/// the root package only).
pub fn aggregate_autoload_dev(
    data: &mut AutoloadData,
    json: &ComposerJson,
    base: PathBase,
    pkg_prefix: Option<&str>,
)
    requires
        data_wf(*old(data)),
        composer_json_wf(*json),
    ensures
        data_wf(*final(data)),
        block_merged(*final(data), *old(data), json.autoload_dev, base, opt_str_view(pkg_prefix)),
{
    merge_block(data, &json.autoload_dev, base, pkg_prefix);
}

/// Two aggregations list the same namespaces with the same directories,
/// the same files and the same classmap entries.
pub open spec fn same_data(x: AutoloadData, y: AutoloadData) -> bool {
    &&& forall|k: Seq<char>| #[trigger] opt_list_view(x.psr4.spec_get(k)) == opt_list_view(y.psr4.spec_get(k))
    &&& forall|k: Seq<char>| #[trigger] opt_list_view(x.psr0.spec_get(k)) == opt_list_view(y.psr0.spec_get(k))
    &&& strs(x.files@) == strs(y.files@)
    &&& strs(x.classmap_dirs@) == strs(y.classmap_dirs@)
}

/// `aggregate_autoload_dev` is `aggregate_autoload` run on the package with
/// its `autoload-dev` block in place of `autoload`: from the same data, with
/// the same base and prefix, both give the same aggregation (only the dev
/// block is merged; the main block is ignored).
pub proof fn lemma_dev_is_main_on_dev_block(
    dev: AutoloadData,
    main: AutoloadData,
    old: AutoloadData,
    json: ComposerJson,
    swapped: ComposerJson,
    b: PathBase,
    prefix: Option<Seq<char>>,
)
    requires
        swapped.autoload == json.autoload_dev,
        block_merged(dev, old, json.autoload_dev, b, prefix),
        block_merged(main, old, swapped.autoload, b, prefix),
    ensures
        same_data(dev, main),
{
    assert forall|k: Seq<char>| #[trigger] opt_list_view(dev.psr4.spec_get(k)) == opt_list_view(
        main.psr4.spec_get(k),
    ) by {
        assert(opt_list_view(dev.psr4.spec_get(k)) == merged(
            opt_list_view(old.psr4.spec_get(k)),
            opt_list_view(json.autoload_dev.psr4.spec_get(k)),
            b,
            prefix,
        ));
        assert(opt_list_view(main.psr4.spec_get(k)) == merged(
            opt_list_view(old.psr4.spec_get(k)),
            opt_list_view(swapped.autoload.psr4.spec_get(k)),
            b,
            prefix,
        ));
    }
    assert forall|k: Seq<char>| #[trigger] opt_list_view(dev.psr0.spec_get(k)) == opt_list_view(
        main.psr0.spec_get(k),
    ) by {
        assert(opt_list_view(dev.psr0.spec_get(k)) == merged(
            opt_list_view(old.psr0.spec_get(k)),
            opt_list_view(json.autoload_dev.psr0.spec_get(k)),
            b,
            prefix,
        ));
        assert(opt_list_view(main.psr0.spec_get(k)) == merged(
            opt_list_view(old.psr0.spec_get(k)),
            opt_list_view(swapped.autoload.psr0.spec_get(k)),
            b,
            prefix,
        ));
    }
}


/// What `rtrim` leaves: a prefix of `s`, not ending in a trimmed character,
/// followed in `s` by trimmed characters only.
proof fn lemma_rtrim_facts(s: Seq<char>, f: spec_fn(char) -> bool)
    ensures
        rtrim(s, f).len() <= s.len(),
        rtrim(s, f) == s.take(rtrim(s, f).len() as int),
        rtrim(s, f).len() == 0 || !f(s[rtrim(s, f).len() - 1]),
        forall|j: int| rtrim(s, f).len() <= j < s.len() ==> #[trigger] f(s[j]),
    decreases s.len(),
{
    if s.len() > 0 && f(s.last()) {
        let t = s.drop_last();
        lemma_rtrim_facts(t, f);
        assert(t.take(rtrim(t, f).len() as int) =~= s.take(rtrim(t, f).len() as int));
        assert forall|j: int| rtrim(s, f).len() <= j < s.len() implies #[trigger] f(s[j]) by {
            if j < t.len() {
                assert(t[j] == s[j]);
            }
        }
    } else {
        assert(s.take(s.len() as int) =~= s);
    }
}

/// What `ltrim` leaves: a suffix of `s`, not starting with a trimmed
/// character, preceded in `s` by trimmed characters only.
proof fn lemma_ltrim_facts(s: Seq<char>, f: spec_fn(char) -> bool)
    ensures
        ltrim(s, f).len() <= s.len(),
        ltrim(s, f) == s.skip(s.len() - ltrim(s, f).len()),
        ltrim(s, f).len() == 0 || !f(ltrim(s, f)[0]),
        forall|j: int| 0 <= j < s.len() - ltrim(s, f).len() ==> #[trigger] f(s[j]),
    decreases s.len(),
{
    if s.len() > 0 && f(s[0]) {
        let t = s.drop_first();
        lemma_ltrim_facts(t, f);
        assert(t.skip(t.len() - ltrim(t, f).len()) =~= s.skip(s.len() - ltrim(t, f).len()));
        assert forall|j: int| 0 <= j < s.len() - ltrim(s, f).len() implies #[trigger] f(s[j]) by {
            if j > 0 {
                assert(t[j - 1] == s[j]);
            }
        }
    } else {
        assert(s.skip(0) =~= s);
    }
}

/// Every path anchored for a dependency lies in the dependency's own
/// directory: with its vendor-relative directory `p` (not starting with a
/// `/`), a package-relative path that is empty or only slashes is that
/// directory itself, `$var/p` without the trailing slashes of `p`, and any
/// other path is that directory, a `/`, and the path without its surrounding
/// slashes.
pub proof fn lemma_dependency_paths_in_package(b: PathBase, p: Seq<char>, rel: Seq<char>)
    requires
        p.len() > 0,
        p[0] != '/',
    ensures
        ({
            let dir = base_var(b) + seq!['/'] + rtrim(p, is_char('/'));
            let r = rtrim(ltrim(rel, is_char('/')), is_char('/'));
            &&& rtrim(p, is_char('/')).len() > 0
            &&& r.len() == 0 ==> anchored(b, Some(p), rel) == dir
            &&& r.len() > 0 ==> anchored(b, Some(p), rel) == dir + seq!['/'] + r
        }),
{
    let f = is_char('/');
    let q = rtrim(p, f);
    let r1 = ltrim(rel, f);
    let rr = rtrim(r1, f);
    lemma_rtrim_facts(p, f);
    lemma_ltrim_facts(rel, f);
    lemma_rtrim_facts(r1, f);
    if q.len() == 0 {
        assert(f(p[0]));
    }
    let x = q + seq!['/'] + r1;
    assert(spec_prefixed(Some(p), rel) == x);
    assert(x[0] == p[0]);
    lemma_ltrim(x, f, 0);
    assert(x.skip(0) =~= x);
    if r1.len() == 0 {
        assert forall|j: int| q.len() <= j < x.len() implies #[trigger] f(x[j]) by {}
        assert(x[q.len() - 1] == q.last());
        lemma_rtrim(x, f, q.len() as int);
        assert(x.take(q.len() as int) =~= q);
        assert(rr.len() == 0);
    } else {
        if rr.len() == 0 {
            assert(f(r1[0]));
        }
        let k: int = q.len() as int + 1 + rr.len() as int;
        assert forall|j: int| k <= j < x.len() implies #[trigger] f(x[j]) by {
            assert(x[j] == r1[j - q.len() - 1]);
        }
        assert(x[k - 1] == r1[rr.len() - 1]);
        lemma_rtrim(x, f, k);
        assert(x.take(k) =~= q + seq!['/'] + rr);
    }
}
} // verus!
