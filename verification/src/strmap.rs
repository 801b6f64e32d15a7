//! A map from strings to values that keeps its keys strictly increasing in
//! `str` order, so that walking it visits keys as a `BTreeMap<String, V>`
//! would.
use vstd::prelude::*;
use crate::text::{chars_of, lemma_lex_total, lemma_lex_trans, lex_less, lex_lt, str_less};

verus! {

/// Keys strictly increase in `str` order (so no key occurs twice).
pub open spec fn keys_sorted<V>(s: Seq<(String, V)>) -> bool {
    forall|i: int, j: int| 0 <= i < j < s.len() ==> lex_lt(#[trigger] s[i].0@, #[trigger] s[j].0@)
}

/// The value stored under `k` (the first entry whose key is `k`).
pub open spec fn lookup<V>(s: Seq<(String, V)>, k: Seq<char>) -> Option<V>
    decreases s.len(),
{
    if s.len() == 0 {
        None
    } else if s[0].0@ == k {
        Some(s[0].1)
    } else {
        lookup(s.drop_first(), k)
    }
}

/// `s` with `(key, v)` stored: replaces the entry for `key`, or inserts it
/// where the key order puts it.
pub open spec fn insert_sorted<V>(s: Seq<(String, V)>, key: String, v: V) -> Seq<(String, V)>
    decreases s.len(),
{
    if s.len() == 0 {
        seq![(key, v)]
    } else if lex_lt(s[0].0@, key@) {
        seq![s[0]] + insert_sorted(s.drop_first(), key, v)
    } else if s[0].0@ == key@ {
        seq![(key, v)] + s.drop_first()
    } else {
        seq![(key, v)] + s
    }
}

pub proof fn lemma_lookup_at<V>(s: Seq<(String, V)>, k: Seq<char>, i: int)
    requires
        0 <= i < s.len(),
        s[i].0@ == k,
        forall|j: int| 0 <= j < i ==> #[trigger] s[j].0@ != k,
    ensures
        lookup(s, k) == Some(s[i].1),
    decreases i,
{
    if i > 0 {
        let t = s.drop_first();
        assert forall|j: int| 0 <= j < i - 1 implies #[trigger] t[j].0@ != k by {
            assert(t[j] == s[j + 1]);
        }
        assert(s[0].0@ != k);
        lemma_lookup_at(t, k, i - 1);
    }
}

pub proof fn lemma_lookup_none<V>(s: Seq<(String, V)>, k: Seq<char>)
    requires
        forall|j: int| 0 <= j < s.len() ==> #[trigger] s[j].0@ != k,
    ensures
        lookup(s, k) is None,
    decreases s.len(),
{
    if s.len() > 0 {
        let t = s.drop_first();
        assert forall|j: int| 0 <= j < t.len() implies #[trigger] t[j].0@ != k by {
            assert(t[j] == s[j + 1]);
        }
        assert(s[0].0@ != k);
        lemma_lookup_none(t, k);
    }
}

pub proof fn lemma_insert_sorted_prefix<V>(s: Seq<(String, V)>, key: String, v: V, i: int)
    requires
        0 <= i <= s.len(),
        forall|j: int| 0 <= j < i ==> lex_lt(#[trigger] s[j].0@, key@),
    ensures
        insert_sorted(s, key, v) == s.take(i) + insert_sorted(s.skip(i), key, v),
    decreases i,
{
    if i == 0 {
        assert(s.skip(0) =~= s);
        assert(s.take(0) + insert_sorted(s, key, v) =~= insert_sorted(s, key, v));
    } else {
        let t = s.drop_first();
        assert forall|j: int| 0 <= j < i - 1 implies lex_lt(#[trigger] t[j].0@, key@) by {
            assert(t[j] == s[j + 1]);
        }
        lemma_insert_sorted_prefix(t, key, v, i - 1);
        assert(t.skip(i - 1) =~= s.skip(i));
        assert(s.take(i) =~= seq![s[0]] + t.take(i - 1));
        assert(lex_lt(s[0].0@, key@));
        assert(insert_sorted(s, key, v) == seq![s[0]] + insert_sorted(t, key, v));
        assert(insert_sorted(s, key, v) =~= s.take(i) + insert_sorted(s.skip(i), key, v));
    }
}

/// A map keyed by strings, walked in increasing key order.
#[derive(Debug, Clone)]
pub struct StrMap<V> {
    items: Vec<(String, V)>,
}

impl<V> StrMap<V> {
    /// The entries, in increasing key order.
    pub closed spec fn entries(self) -> Seq<(String, V)> {
        self.items@
    }

    pub open spec fn wf(self) -> bool {
        keys_sorted(self.entries())
    }

    /// The value under `k`, if any.
    pub open spec fn spec_get(self, k: Seq<char>) -> Option<V> {
        lookup(self.entries(), k)
    }

    pub fn new() -> (m: Self)
        ensures
            m.entries() == Seq::<(String, V)>::empty(),
            m.wf(),
    {
        StrMap { items: Vec::new() }
    }

    pub fn len(&self) -> (n: usize)
        ensures
            n == self.entries().len(),
    {
        self.items.len()
    }

    pub fn is_empty(&self) -> (b: bool)
        ensures
            b == (self.entries().len() == 0),
    {
        self.items.len() == 0
    }

    /// The `i`-th key in increasing order.
    pub fn key_at(&self, i: usize) -> (k: &String)
        requires
            i < self.entries().len(),
        ensures
            *k == self.entries()[i as int].0,
    {
        &self.items[i].0
    }

    /// The value of the `i`-th entry.
    pub fn value_at(&self, i: usize) -> (v: &V)
        requires
            i < self.entries().len(),
        ensures
            *v == self.entries()[i as int].1,
    {
        &self.items[i].1
    }

    /// Position of `key`, if present.
    pub fn position(&self, key: &str) -> (r: Option<usize>)
        ensures
            r matches Some(i) ==> i < self.entries().len() && self.entries()[i as int].0@ == key@
                && forall|j: int| 0 <= j < i ==> #[trigger] self.entries()[j].0@ != key@,
            r is None ==> forall|j: int|
                0 <= j < self.entries().len() ==> #[trigger] self.entries()[j].0@ != key@,
    {
        let k = chars_of(key);
        let mut i: usize = 0;
        while i < self.items.len()
            invariant
                i <= self.items@.len(),
                k@ == key@,
                forall|j: int| 0 <= j < i ==> #[trigger] self.items@[j].0@ != key@,
            decreases self.items@.len() - i,
        {
            let c = chars_of(self.items[i].0.as_str());
            if crate::text::chars_eq(&c, &k) {
                return Some(i);
            }
            i = i + 1;
        }
        None
    }

    /// `BTreeMap::get`.
    pub fn get(&self, key: &str) -> (r: Option<&V>)
        ensures
            r matches Some(v) ==> self.spec_get(key@) == Some(*v),
            r is None ==> self.spec_get(key@) is None,
    {
        match self.position(key) {
            Some(i) => {
                proof {
                    lemma_lookup_at(self.entries(), key@, i as int);
                }
                Some(&self.items[i].1)
            },
            None => {
                proof {
                    lemma_lookup_none(self.entries(), key@);
                }
                None
            },
        }
    }

    /// `BTreeMap::contains_key`.
    pub fn contains_key(&self, key: &str) -> (b: bool)
        ensures
            b == (self.spec_get(key@) is Some),
    {
        self.get(key).is_some()
    }

    /// `BTreeMap::insert`: stores `value` under `key`, keeping the key order.
    pub fn insert(&mut self, key: String, value: V)
        requires
            old(self).wf(),
        ensures
            final(self).wf(),
            final(self).entries() == insert_sorted(old(self).entries(), key, value),
    {
        let ghost s = self.items@;
        let k = chars_of(key.as_str());
        let n = self.items.len();
        let mut i: usize = 0;
        while i < n
            invariant
                n == self.items@.len(),
                self.items@ == s,
                k@ == key@,
                i <= n,
                forall|j: int| 0 <= j < i ==> lex_lt(#[trigger] s[j].0@, key@),
            ensures
                i <= n,
                self.items@ == s,
                forall|j: int| 0 <= j < i ==> lex_lt(#[trigger] s[j].0@, key@),
                i < n ==> !lex_lt(s[i as int].0@, key@),
            decreases n - i,
        {
            let c = chars_of(self.items[i].0.as_str());
            if !lex_less(&c, &k) {
                break;
            }
            i = i + 1;
        }
        proof {
            lemma_insert_sorted_prefix(s, key, value, i as int);
        }
        if i < n {
            let c = chars_of(self.items[i].0.as_str());
            if crate::text::chars_eq(&c, &k) {
                let ghost t = s.skip(i as int);
                assert(t[0] == s[i as int]);
                proof {
                    lemma_lex_total(t[0].0@, key@);
                }
                self.items.set(i, (key, value));
                proof {
                    assert(insert_sorted(t, key, value) == seq![(key, value)] + t.drop_first());
                    assert(self.items@ =~= s.take(i as int) + insert_sorted(t, key, value));
                    assert forall|a: int, b: int| 0 <= a < b < self.items@.len() implies lex_lt(
                        #[trigger] self.items@[a].0@,
                        #[trigger] self.items@[b].0@,
                    ) by {
                        assert(s[a].0@ == self.items@[a].0@ || a == i);
                        assert(s[b].0@ == self.items@[b].0@ || b == i);
                        assert(lex_lt(s[a].0@, s[b].0@));
                    }
                }
                return;
            }
        }
        proof {
            let t = s.skip(i as int);
            if i < n {
                assert(t[0] == s[i as int]);
                assert(!lex_lt(s[i as int].0@, key@));
                assert(s[i as int].0@ != key@);
                lemma_lex_total(s[i as int].0@, key@);
                assert(lex_lt(key@, s[i as int].0@));
                assert(insert_sorted(t, key, value) == seq![(key, value)] + t);
                assert forall|j: int| i <= j < n implies lex_lt(key@, #[trigger] s[j].0@) by {
                    if j > i {
                        lemma_lex_trans(key@, s[i as int].0@, s[j].0@);
                    }
                }
            } else {
                assert(t =~= Seq::<(String, V)>::empty());
            }
        }
        self.items.insert(i, (key, value));
        proof {
            let t = s.skip(i as int);
            assert(self.items@ =~= s.take(i as int) + insert_sorted(t, key, value));
            assert forall|a: int, b: int| 0 <= a < b < self.items@.len() implies lex_lt(
                #[trigger] self.items@[a].0@,
                #[trigger] self.items@[b].0@,
            ) by {
                if b < i {
                    assert(lex_lt(s[a].0@, s[b].0@));
                } else if b == i {
                } else if a < i {
                    lemma_lex_trans(s[a].0@, key@, s[b - 1].0@);
                } else if a == i {
                } else {
                    assert(lex_lt(s[a - 1].0@, s[b - 1].0@));
                }
            }
        }
    }
}

/// Reading a key back after storing it gives the stored value; other keys
/// are unaffected.
#[verifier::spinoff_prover]
pub proof fn lemma_insert_then_lookup<V>(s: Seq<(String, V)>, key: String, v: V, k: Seq<char>)
    requires
        keys_sorted(s),
    ensures
        lookup(insert_sorted(s, key, v), k) == if k == key@ {
            Some(v)
        } else {
            lookup(s, k)
        },
    decreases s.len(),
{
    if s.len() == 0 {
    } else if lex_lt(s[0].0@, key@) {
        let t = s.drop_first();
        assert(keys_sorted(t)) by {
            assert forall|i: int, j: int| 0 <= i < j < t.len() implies lex_lt(
                #[trigger] t[i].0@,
                #[trigger] t[j].0@,
            ) by {
                assert(t[i] == s[i + 1] && t[j] == s[j + 1]);
            }
        }
        lemma_insert_then_lookup(t, key, v, k);
        let r = insert_sorted(s, key, v);
        assert(r == seq![s[0]] + insert_sorted(t, key, v));
        assert(r[0] == s[0]);
        assert(r.drop_first() =~= insert_sorted(t, key, v));
        lemma_lex_total(s[0].0@, key@);
        if k == s[0].0@ {
            assert(lookup(r, k) == Some(s[0].1));
        } else {
            assert(lookup(r, k) == lookup(r.drop_first(), k));
            assert(lookup(s, k) == lookup(t, k));
        }
    } else if s[0].0@ == key@ {
        let r = insert_sorted(s, key, v);
        assert(r == seq![(key, v)] + s.drop_first());
        assert(r[0] == (key, v));
        assert(r.drop_first() =~= s.drop_first());
        if k != key@ {
            assert(lookup(r, k) == lookup(r.drop_first(), k));
        }
    } else {
        let r = insert_sorted(s, key, v);
        assert(r == seq![(key, v)] + s);
        assert(r[0] == (key, v));
        assert(r.drop_first() =~= s);
        if k != key@ {
            assert(lookup(r, k) == lookup(r.drop_first(), k));
        }
    }
}

/// A key is looked up exactly when some entry has it.
pub proof fn lemma_lookup_some_iff<V>(s: Seq<(String, V)>, k: Seq<char>)
    ensures
        lookup(s, k) is Some <==> exists|i: int| 0 <= i < s.len() && #[trigger] s[i].0@ == k,
    decreases s.len(),
{
    if s.len() > 0 {
        let t = s.drop_first();
        lemma_lookup_some_iff(t, k);
        if exists|i: int| 0 <= i < t.len() && #[trigger] t[i].0@ == k {
            let i = choose|i: int| 0 <= i < t.len() && #[trigger] t[i].0@ == k;
            assert(s[i + 1].0@ == k);
        }
        if exists|i: int| 0 <= i < s.len() && #[trigger] s[i].0@ == k {
            let i = choose|i: int| 0 <= i < s.len() && #[trigger] s[i].0@ == k;
            if i > 0 {
                assert(t[i - 1].0@ == k);
            }
        }
    }
}

} // verus!
