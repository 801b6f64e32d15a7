//! Character-level text primitives with their mathematical meaning: the
//! string operations of std (`trim`, `find`, `lines`, `split_whitespace`, ...)
//! written over `Seq<char>`, and verified executable counterparts over
//! `Vec<char>`.
use vstd::prelude::*;
use vstd::string::StringExecFns;

verus! {

/// The Unicode `White_Space` property, as `char::is_whitespace` uses it.
pub open spec fn is_ws(c: char) -> bool {
    ||| c == '\t'
    ||| c == '\n'
    ||| c == '\x0B'
    ||| c == '\x0C'
    ||| c == '\r'
    ||| c == ' '
    ||| c == '\u{85}'
    ||| c == '\u{A0}'
    ||| c == '\u{1680}'
    ||| ('\u{2000}' <= c && c <= '\u{200A}')
    ||| c == '\u{2028}'
    ||| c == '\u{2029}'
    ||| c == '\u{202F}'
    ||| c == '\u{205F}'
    ||| c == '\u{3000}'
}

pub fn char_is_ws(c: char) -> (b: bool)
    ensures
        b == is_ws(c),
{
    c == '\t' || c == '\n' || c == '\x0B' || c == '\x0C' || c == '\r' || c == ' ' || c
        == '\u{85}' || c == '\u{A0}' || c == '\u{1680}' || ('\u{2000}' <= c && c <= '\u{200A}')
        || c == '\u{2028}' || c == '\u{2029}' || c == '\u{202F}' || c == '\u{205F}' || c
        == '\u{3000}'
}

pub open spec fn is_ascii_alpha(c: char) -> bool {
    ('a' <= c && c <= 'z') || ('A' <= c && c <= 'Z')
}

pub open spec fn is_ascii_alnum(c: char) -> bool {
    is_ascii_alpha(c) || ('0' <= c && c <= '9')
}

/// Removes every leading character that satisfies `p`.
pub open spec fn ltrim(s: Seq<char>, p: spec_fn(char) -> bool) -> Seq<char>
    decreases s.len(),
{
    if s.len() > 0 && p(s[0]) {
        ltrim(s.drop_first(), p)
    } else {
        s
    }
}

/// Removes every trailing character that satisfies `p`.
pub open spec fn rtrim(s: Seq<char>, p: spec_fn(char) -> bool) -> Seq<char>
    decreases s.len(),
{
    if s.len() > 0 && p(s.last()) {
        rtrim(s.drop_last(), p)
    } else {
        s
    }
}

pub open spec fn ws() -> spec_fn(char) -> bool {
    |c: char| is_ws(c)
}

pub open spec fn is_char(x: char) -> spec_fn(char) -> bool {
    |c: char| c == x
}

/// `str::trim`.
pub open spec fn trim(s: Seq<char>) -> Seq<char> {
    rtrim(ltrim(s, ws()), ws())
}

/// `str::trim_end`.
pub open spec fn trim_end(s: Seq<char>) -> Seq<char> {
    rtrim(s, ws())
}

/// `str::trim_start`.
pub open spec fn trim_start(s: Seq<char>) -> Seq<char> {
    ltrim(s, ws())
}

pub proof fn lemma_ltrim(s: Seq<char>, p: spec_fn(char) -> bool, i: int)
    requires
        0 <= i <= s.len(),
        forall|j: int| 0 <= j < i ==> #[trigger] p(s[j]),
        i == s.len() || !p(s[i]),
    ensures
        ltrim(s, p) == s.skip(i),
    decreases i,
{
    if i == 0 {
        assert(s.skip(0) =~= s);
    } else {
        let t = s.drop_first();
        assert forall|j: int| 0 <= j < i - 1 implies #[trigger] p(t[j]) by {
            assert(t[j] == s[j + 1]);
        }
        if i < s.len() {
            assert(t[i - 1] == s[i]);
        }
        lemma_ltrim(t, p, i - 1);
        assert(t.skip(i - 1) =~= s.skip(i));
    }
}

pub proof fn lemma_rtrim(s: Seq<char>, p: spec_fn(char) -> bool, k: int)
    requires
        0 <= k <= s.len(),
        forall|j: int| k <= j < s.len() ==> #[trigger] p(s[j]),
        k == 0 || !p(s[k - 1]),
    ensures
        rtrim(s, p) == s.take(k),
    decreases s.len() - k,
{
    if k == s.len() {
        assert(s.take(k) =~= s);
    } else {
        let t = s.drop_last();
        assert forall|j: int| k <= j < t.len() implies #[trigger] p(t[j]) by {
            assert(t[j] == s[j]);
        }
        if k > 0 {
            assert(t[k - 1] == s[k - 1]);
        }
        lemma_rtrim(t, p, k);
        assert(t.take(k) =~= s.take(k));
    }
}

/// A copy of `s[lo..hi]`.
pub fn slice(s: &Vec<char>, lo: usize, hi: usize) -> (r: Vec<char>)
    requires
        lo <= hi <= s.len(),
    ensures
        r@ == s@.subrange(lo as int, hi as int),
{
    let mut r: Vec<char> = Vec::new();
    let mut i: usize = lo;
    while i < hi
        invariant
            lo <= i <= hi <= s.len(),
            r@ == s@.subrange(lo as int, i as int),
        decreases hi - i,
    {
        r.push(s[i]);
        i = i + 1;
        assert(r@ =~= s@.subrange(lo as int, i as int));
    }
    r
}

/// `str::trim`.
pub fn trim_ws(s: &Vec<char>) -> (r: Vec<char>)
    ensures
        r@ == trim(s@),
{
    let n = s.len();
    let mut i: usize = 0;
    while i < n && char_is_ws(s[i])
        invariant
            i <= n == s.len(),
            forall|j: int| 0 <= j < i ==> is_ws(#[trigger] s@[j]),
        decreases n - i,
    {
        i = i + 1;
    }
    let mut j: usize = n;
    while j > i && char_is_ws(s[j - 1])
        invariant
            i <= j <= n == s.len(),
            forall|k: int| j <= k < n ==> is_ws(#[trigger] s@[k]),
        decreases j,
    {
        j = j - 1;
    }
    proof {
        assert forall|k: int| 0 <= k < i implies #[trigger] ws()(s@[k]) by {}
        lemma_ltrim(s@, ws(), i as int);
        let t = s@.skip(i as int);
        assert forall|k: int| j - i <= k < t.len() implies #[trigger] ws()(t[k]) by {
            assert(t[k] == s@[k + i]);
        }
        if j > i {
            assert(t[j - i - 1] == s@[j - 1]);
        }
        lemma_rtrim(t, ws(), j - i);
        assert(t.take(j - i) =~= s@.subrange(i as int, j as int));
    }
    slice(s, i, j)
}

/// `str::trim_end`.
pub fn trim_end_ws(s: &Vec<char>) -> (r: Vec<char>)
    ensures
        r@ == trim_end(s@),
{
    let n = s.len();
    let mut j: usize = n;
    while j > 0 && char_is_ws(s[j - 1])
        invariant
            j <= n == s.len(),
            forall|k: int| j <= k < n ==> is_ws(#[trigger] s@[k]),
        decreases j,
    {
        j = j - 1;
    }
    proof {
        assert forall|k: int| j <= k < n implies #[trigger] ws()(s@[k]) by {}
        lemma_rtrim(s@, ws(), j as int);
        assert(s@.take(j as int) =~= s@.subrange(0, j as int));
    }
    slice(s, 0, j)
}

/// `str::trim_start_matches(c)` for a single character.
pub fn trim_start_char(s: &Vec<char>, c: char) -> (r: Vec<char>)
    ensures
        r@ == ltrim(s@, is_char(c)),
{
    let n = s.len();
    let mut i: usize = 0;
    while i < n && s[i] == c
        invariant
            i <= n == s.len(),
            forall|j: int| 0 <= j < i ==> #[trigger] s@[j] == c,
        decreases n - i,
    {
        i = i + 1;
    }
    proof {
        assert forall|k: int| 0 <= k < i implies #[trigger] is_char(c)(s@[k]) by {}
        lemma_ltrim(s@, is_char(c), i as int);
        assert(s@.skip(i as int) =~= s@.subrange(i as int, n as int));
    }
    slice(s, i, n)
}

/// `str::trim_end_matches(c)` for a single character.
pub fn trim_end_char(s: &Vec<char>, c: char) -> (r: Vec<char>)
    ensures
        r@ == rtrim(s@, is_char(c)),
{
    let n = s.len();
    let mut j: usize = n;
    while j > 0 && s[j - 1] == c
        invariant
            j <= n == s.len(),
            forall|k: int| j <= k < n ==> #[trigger] s@[k] == c,
        decreases j,
    {
        j = j - 1;
    }
    proof {
        assert forall|k: int| j <= k < n implies #[trigger] is_char(c)(s@[k]) by {}
        lemma_rtrim(s@, is_char(c), j as int);
        assert(s@.take(j as int) =~= s@.subrange(0, j as int));
    }
    slice(s, 0, j)
}

/// First position at or after `i` where `p` occurs in `s` (`str::find` from `i`).
pub open spec fn find_from(s: Seq<char>, p: Seq<char>, i: int) -> Option<int>
    decreases s.len() - i,
{
    if i < 0 || i + p.len() > s.len() {
        None
    } else if s.subrange(i, i + p.len()) == p {
        Some(i)
    } else {
        proof {
            if p.len() == 0 {
                assert(s.subrange(i, i + p.len()) =~= p);
            }
        }
        find_from(s, p, i + 1)
    }
}

/// `str::find`.
pub open spec fn find(s: Seq<char>, p: Seq<char>) -> Option<int> {
    find_from(s, p, 0)
}

pub proof fn lemma_find_from(s: Seq<char>, p: Seq<char>, i: int)
    requires
        0 <= i,
    ensures
        find_from(s, p, i) matches Some(k) ==> {
            &&& i <= k
            &&& k + p.len() <= s.len()
            &&& s.subrange(k, k + p.len()) == p
            &&& forall|j: int| i <= j < k ==> #[trigger] s.subrange(j, j + p.len()) != p
        },
        find_from(s, p, i) is None ==> forall|j: int|
            i <= j && j + p.len() <= s.len() ==> #[trigger] s.subrange(j, j + p.len()) != p,
    decreases s.len() - i,
{
    if i + p.len() > s.len() {
    } else if s.subrange(i, i + p.len()) == p {
    } else {
        if p.len() == 0 {
            assert(s.subrange(i, i + p.len()) =~= p);
        }
        lemma_find_from(s, p, i + 1);
    }
}

/// True when `p` occurs in `s` at position `i`.
pub fn matches_at(s: &Vec<char>, p: &Vec<char>, i: usize) -> (b: bool)
    requires
        i + p.len() <= s.len(),
    ensures
        b == (s@.subrange(i as int, i + p.len()) == p@),
{
    let mut k: usize = 0;
    while k < p.len()
        invariant
            k <= p.len(),
            i + p.len() <= s.len(),
            forall|j: int| 0 <= j < k ==> s@[i + j] == p@[j],
        decreases p.len() - k,
    {
        if s[i + k] != p[k] {
            assert(s@.subrange(i as int, i + p.len())[k as int] != p@[k as int]);
            return false;
        }
        k = k + 1;
    }
    assert(s@.subrange(i as int, i + p.len()) =~= p@);
    true
}

/// `str::find` starting at index `from`.
pub fn find_from_exec(s: &Vec<char>, p: &Vec<char>, from: usize) -> (r: Option<usize>)
    ensures
        r matches Some(k) ==> find_from(s@, p@, from as int) == Some(k as int),
        r is None ==> find_from(s@, p@, from as int) is None,
{
    let n = s.len();
    let m = p.len();
    let mut i: usize = from;
    if i > n || m > n - i {
        return None;
    }
    while m <= n - i
        invariant
            from <= i <= n,
            m == p.len(),
            n == s.len(),
            find_from(s@, p@, from as int) == find_from(s@, p@, i as int),
        decreases n - i,
    {
        if matches_at(s, p, i) {
            return Some(i);
        }
        proof {
            if m == 0 {
                assert(s@.subrange(i as int, i as int) =~= p@);
            }
        }
        i = i + 1;
        if i > n {
            return None;
        }
    }
    None
}

pub open spec fn strip_cr(l: Seq<char>) -> Seq<char> {
    if l.len() > 0 && l.last() == '\r' {
        l.drop_last()
    } else {
        l
    }
}

/// `str::lines`, for the text from index `start` on.
pub open spec fn lines_from(s: Seq<char>, start: int) -> Seq<Seq<char>>
    decreases s.len() - start,
{
    if start < 0 || start >= s.len() {
        seq![]
    } else {
        match find_from(s, seq!['\n'], start) {
            Some(k) => {
                proof {
                    lemma_find_from(s, seq!['\n'], start);
                }
                seq![strip_cr(s.subrange(start, k))] + lines_from(s, k + 1)
            },
            None => seq![s.subrange(start, s.len() as int)],
        }
    }
}

/// `str::lines`: split at `\n`, dropping a `\r` before it; a final line
/// ending is optional and a bare `\r` is no line ending.
pub open spec fn lines(s: Seq<char>) -> Seq<Seq<char>> {
    lines_from(s, 0)
}

pub fn lines_exec(s: &Vec<char>) -> (r: Vec<Vec<char>>)
    ensures
        r@.len() == lines(s@).len(),
        forall|i: int| 0 <= i < r@.len() ==> #[trigger] r@[i]@ == lines(s@)[i],
{
    let n = s.len();
    let nl: Vec<char> = vec!['\n'];
    assert(nl@ =~= seq!['\n']);
    let mut out: Vec<Vec<char>> = Vec::new();
    let mut start: usize = 0;
    let ghost acc: Seq<Seq<char>> = seq![];
    while start < n
        invariant
            n == s.len(),
            start <= n,
            nl@ == seq!['\n'],
            out@.len() == acc.len(),
            forall|i: int| 0 <= i < out@.len() ==> #[trigger] out@[i]@ == acc[i],
            lines(s@) == acc + lines_from(s@, start as int),
        decreases n - start,
    {
        proof {
            lemma_find_from(s@, seq!['\n'], start as int);
        }
        match find_from_exec(s, &nl, start) {
            Some(k) => {
                let mut line = slice(s, start, k);
                if line.len() > 0 && line[line.len() - 1] == '\r' {
                    line.pop();
                }
                proof {
                    assert(line@ =~= strip_cr(s@.subrange(start as int, k as int)));
                    let old_acc = acc;
                    acc = acc.push(line@);
                    assert(lines(s@) =~= acc + lines_from(s@, k + 1));
                }
                out.push(line);
                start = k + 1;
            },
            None => {
                let line = slice(s, start, n);
                proof {
                    acc = acc.push(line@);
                    assert(lines(s@) =~= acc + lines_from(s@, n as int));
                }
                out.push(line);
                start = n;
            },
        }
    }
    proof {
        assert(lines(s@) =~= acc);
    }
    out
}

/// End of the run of non-whitespace characters that starts at `i`.
pub open spec fn run_end(s: Seq<char>, i: int) -> int
    decreases s.len() - i,
{
    if 0 <= i < s.len() && !is_ws(s[i]) {
        run_end(s, i + 1)
    } else {
        i
    }
}

pub proof fn lemma_run_end(s: Seq<char>, i: int)
    requires
        0 <= i <= s.len(),
    ensures
        i <= run_end(s, i) <= s.len(),
        forall|j: int| i <= j < run_end(s, i) ==> !is_ws(#[trigger] s[j]),
        run_end(s, i) == s.len() || is_ws(s[run_end(s, i)]),
    decreases s.len() - i,
{
    if i < s.len() && !is_ws(s[i]) {
        lemma_run_end(s, i + 1);
    }
}

/// `str::split_whitespace`, for the text from index `i` on.
pub open spec fn words_from(s: Seq<char>, i: int) -> Seq<Seq<char>>
    decreases s.len() - i,
{
    if i < 0 || i >= s.len() {
        seq![]
    } else if is_ws(s[i]) {
        words_from(s, i + 1)
    } else {
        proof {
            lemma_run_end(s, i + 1);
        }
        seq![s.subrange(i, run_end(s, i))] + words_from(s, run_end(s, i))
    }
}

/// `str::split_whitespace`.
pub open spec fn words(s: Seq<char>) -> Seq<Seq<char>> {
    words_from(s, 0)
}

pub fn words_exec(s: &Vec<char>) -> (r: Vec<Vec<char>>)
    ensures
        r@.len() == words(s@).len(),
        forall|i: int| 0 <= i < r@.len() ==> #[trigger] r@[i]@ == words(s@)[i],
{
    let n = s.len();
    let mut out: Vec<Vec<char>> = Vec::new();
    let mut i: usize = 0;
    let ghost acc: Seq<Seq<char>> = seq![];
    while i < n
        invariant
            n == s.len(),
            i <= n,
            out@.len() == acc.len(),
            forall|k: int| 0 <= k < out@.len() ==> #[trigger] out@[k]@ == acc[k],
            words(s@) == acc + words_from(s@, i as int),
        decreases n - i,
    {
        if char_is_ws(s[i]) {
            i = i + 1;
        } else {
            let mut e: usize = i + 1;
            while e < n && !char_is_ws(s[e])
                invariant
                    i < e <= n == s.len(),
                    run_end(s@, i as int) == run_end(s@, e as int),
                decreases n - e,
            {
                e = e + 1;
            }
            let w = slice(s, i, e);
            proof {
                acc = acc.push(w@);
                assert(words(s@) =~= acc + words_from(s@, e as int));
            }
            out.push(w);
            i = e;
        }
    }
    proof {
        assert(words(s@) =~= acc);
    }
    out
}

/// `s` starts with `p`.
pub fn starts_with(s: &Vec<char>, p: &Vec<char>) -> (b: bool)
    ensures
        b == (p@.len() <= s@.len() && s@.take(p@.len() as int) == p@),
{
    if p.len() > s.len() {
        return false;
    }
    let b = matches_at(s, p, 0);
    assert(s@.subrange(0, p@.len() as int) =~= s@.take(p@.len() as int));
    b
}

/// Equality of two character vectors.
pub fn chars_eq(a: &Vec<char>, b: &Vec<char>) -> (r: bool)
    ensures
        r == (a@ == b@),
{
    if a.len() != b.len() {
        return false;
    }
    let r = matches_at(a, b, 0);
    assert(a@.subrange(0, b@.len() as int) =~= a@);
    r
}

/// Lexicographic order on character sequences by code point (`str` ordering).
pub open spec fn lex_lt(a: Seq<char>, b: Seq<char>) -> bool
    decreases a.len(),
{
    if a.len() == 0 {
        b.len() > 0
    } else if b.len() == 0 {
        false
    } else if a[0] != b[0] {
        a[0] < b[0]
    } else {
        lex_lt(a.drop_first(), b.drop_first())
    }
}

pub proof fn lemma_lex_trans(a: Seq<char>, b: Seq<char>, c: Seq<char>)
    requires
        lex_lt(a, b),
        lex_lt(b, c),
    ensures
        lex_lt(a, c),
    decreases a.len(),
{
    if a.len() > 0 && b.len() > 0 && c.len() > 0 && a[0] == b[0] && b[0] == c[0] {
        lemma_lex_trans(a.drop_first(), b.drop_first(), c.drop_first());
    }
}

pub proof fn lemma_lex_total(a: Seq<char>, b: Seq<char>)
    ensures
        a == b || lex_lt(a, b) || lex_lt(b, a),
        lex_lt(a, b) ==> a != b && !lex_lt(b, a),
    decreases a.len(),
{
    if a.len() > 0 && b.len() > 0 && a[0] == b[0] {
        lemma_lex_total(a.drop_first(), b.drop_first());
        if a.drop_first() == b.drop_first() {
            assert(a =~= seq![a[0]] + a.drop_first());
            assert(b =~= seq![b[0]] + b.drop_first());
        }
    } else if a.len() == 0 && b.len() == 0 {
        assert(a =~= b);
    }
}

/// `a < b` in `str` order.
pub fn lex_less(a: &Vec<char>, b: &Vec<char>) -> (r: bool)
    ensures
        r == lex_lt(a@, b@),
{
    let mut i: usize = 0;
    assert(a@.skip(0) =~= a@);
    assert(b@.skip(0) =~= b@);
    while i < a.len() && i < b.len() && a[i] == b[i]
        invariant
            i <= a.len(),
            i <= b.len(),
            lex_lt(a@, b@) == lex_lt(a@.skip(i as int), b@.skip(i as int)),
        decreases a.len() - i,
    {
        proof {
            let x = a@.skip(i as int);
            let y = b@.skip(i as int);
            assert(x.drop_first() =~= a@.skip(i + 1));
            assert(y.drop_first() =~= b@.skip(i + 1));
        }
        i = i + 1;
    }
    if i == a.len() {
        i < b.len()
    } else if i == b.len() {
        false
    } else {
        a[i] < b[i]
    }
}

/// `a < b` in `str` order, for strings.
pub fn str_less(a: &String, b: &String) -> (r: bool)
    ensures
        r == lex_lt(a@, b@),
{
    let x = chars_of(a.as_str());
    let y = chars_of(b.as_str());
    lex_less(&x, &y)
}

/// The characters of `s`, in order.
pub fn chars_of(s: &str) -> (r: Vec<char>)
    ensures
        r@ == s@,
{
    broadcast use vstd::string::group_string_axioms;
    let mut r: Vec<char> = Vec::new();
    for c in it: s.chars()
        invariant
            r@ == it.seq().take(it.index() as int),
    {
        r.push(c);
        assert(r@ =~= it.seq().take(it.index() + 1));
    }
    r
}

/// A `String` holding the characters of `v` (`String: FromIterator<char>`).
#[verifier::external_body]
pub fn string_of(v: &Vec<char>) -> (s: String)
    ensures
        s@ == v@,
{
    v.iter().collect()
}

/// `a` followed by `b`.
pub fn concat(a: &str, b: &str) -> (r: String)
    ensures
        r@ == a@ + b@,
{
    let mut s = <String as StringExecFns>::from_str(a);
    s.append(b);
    s
}

/// True when `s` begins with the character `c`.
pub fn starts_with_char(s: &str, c: char) -> (b: bool)
    ensures
        b == (s@.len() > 0 && s@[0] == c),
{
    let v = chars_of(s);
    v.len() > 0 && v[0] == c
}

/// ASCII upper-case letters mapped to lower case, every other character kept.
pub open spec fn ascii_lower(c: char) -> char {
    if 'A' <= c && c <= 'Z' {
        ((c as u32) + 32) as char
    } else {
        c
    }
}

/// `str::eq_ignore_ascii_case`.
pub open spec fn eq_ignore_ascii_case(a: Seq<char>, b: Seq<char>) -> bool {
    a.len() == b.len() && forall|i: int| 0 <= i < a.len() ==> ascii_lower(#[trigger] a[i])
        == ascii_lower(b[i])
}

fn ascii_lower_exec(c: char) -> (r: char)
    ensures
        r == ascii_lower(c),
{
    if 'A' <= c && c <= 'Z' {
        ((c as u8) + 32) as char
    } else {
        c
    }
}

/// `str::eq_ignore_ascii_case`.
pub fn eq_ignore_case(a: &str, b: &str) -> (r: bool)
    ensures
        r == eq_ignore_ascii_case(a@, b@),
{
    let x = chars_of(a);
    let y = chars_of(b);
    if x.len() != y.len() {
        return false;
    }
    let mut i: usize = 0;
    while i < x.len()
        invariant
            i <= x@.len(),
            x@.len() == y@.len(),
            x@ == a@,
            y@ == b@,
            forall|j: int| 0 <= j < i ==> ascii_lower(#[trigger] x@[j]) == ascii_lower(y@[j]),
        decreases x@.len() - i,
    {
        if ascii_lower_exec(x[i]) != ascii_lower_exec(y[i]) {
            return false;
        }
        i = i + 1;
    }
    true
}

/// Lines joined front to back with `\n` between them.
pub open spec fn join_fwd(ks: Seq<Seq<char>>) -> Seq<char>
    decreases ks.len(),
{
    if ks.len() == 0 {
        seq![]
    } else if ks.len() == 1 {
        ks[0]
    } else {
        ks[0] + seq!['\n'] + join_fwd(ks.drop_first())
    }
}

/// Lines that read back as themselves once joined: none empty, none with a
/// `\n`, and none but the last ending in `\r` (a `\r` before a line break is
/// part of the break).
pub open spec fn plain_lines(ks: Seq<Seq<char>>) -> bool {
    forall|i: int|
        0 <= i < ks.len() ==> (#[trigger] ks[i]).len() > 0 && !ks[i].contains('\n') && (i + 1
            < ks.len() ==> ks[i].last() != '\r')
}

proof fn lemma_find_nl_at(s: Seq<char>, i: int, j: int)
    requires
        0 <= i <= j < s.len(),
        forall|m: int| i <= m < j ==> s[m] != '\n',
        s[j] == '\n',
    ensures
        find_from(s, seq!['\n'], i) == Some(j),
    decreases j - i,
{
    if i == j {
        assert(s.subrange(i, i + 1) =~= seq!['\n']);
    } else {
        assert(s.subrange(i, i + 1)[0] == s[i]);
        assert(s.subrange(i, i + 1) != seq!['\n']);
        lemma_find_nl_at(s, i + 1, j);
    }
}

proof fn lemma_find_nl_none(s: Seq<char>, i: int)
    requires
        0 <= i,
        forall|m: int| i <= m < s.len() ==> s[m] != '\n',
    ensures
        find_from(s, seq!['\n'], i) is None,
    decreases s.len() - i,
{
    if i + 1 <= s.len() {
        assert(s.subrange(i, i + 1)[0] == s[i]);
        assert(s.subrange(i, i + 1) != seq!['\n']);
        lemma_find_nl_none(s, i + 1);
    }
}

/// Reading lines after a prefix gives back the joined plain lines.
proof fn lemma_lines_of_join(pre: Seq<char>, ks: Seq<Seq<char>>)
    requires
        plain_lines(ks),
    ensures
        lines_from(pre + join_fwd(ks), pre.len() as int) == ks,
    decreases ks.len(),
{
    let s = pre + join_fwd(ks);
    if ks.len() == 0 {
        assert(s =~= pre);
    } else if ks.len() == 1 {
        let k = ks[0];
        assert(k.len() > 0 && !k.contains('\n'));
        assert forall|m: int| pre.len() <= m < s.len() implies s[m] != '\n' by {
            assert(s[m] == k[m - pre.len()]);
            if k[m - pre.len()] == '\n' {
                assert(k.contains('\n'));
            }
        }
        lemma_find_nl_none(s, pre.len() as int);
        assert(s.subrange(pre.len() as int, s.len() as int) =~= k);
        assert(lines_from(s, pre.len() as int) =~= ks);
    } else {
        let k = ks[0];
        let rest = ks.drop_first();
        assert(k.len() > 0 && !k.contains('\n') && k.last() != '\r');
        let j: int = (pre.len() + k.len()) as int;
        let pre2 = pre + k + seq!['\n'];
        assert(s =~= pre2 + join_fwd(rest));
        assert forall|m: int| pre.len() <= m < j implies s[m] != '\n' by {
            assert(s[m] == k[m - pre.len()]);
            if k[m - pre.len()] == '\n' {
                assert(k.contains('\n'));
            }
        }
        assert(s[j] == '\n');
        lemma_find_nl_at(s, pre.len() as int, j);
        assert(s.subrange(pre.len() as int, j) =~= k);
        assert(strip_cr(k) == k);
        assert forall|i: int| 0 <= i < rest.len() implies (#[trigger] rest[i]).len() > 0
            && !rest[i].contains('\n') && (i + 1 < rest.len() ==> rest[i].last() != '\r') by {
            assert(rest[i] == ks[i + 1]);
        }
        lemma_lines_of_join(pre2, rest);
        assert(pre2.len() == j + 1);
        assert(lines_from(s, pre.len() as int) == seq![k] + lines_from(s, j + 1));
        assert(seq![k] + rest =~= ks);
    }
}

/// `str::lines` of plain lines joined with `\n` gives them back.
pub proof fn lemma_lines_join_fwd(ks: Seq<Seq<char>>)
    requires
        plain_lines(ks),
    ensures
        lines(join_fwd(ks)) == ks,
{
    lemma_lines_of_join(seq![], ks);
    assert(Seq::<char>::empty() + join_fwd(ks) =~= join_fwd(ks));
}

/// No line of a text holds a `\n`.
pub proof fn lemma_lines_no_newline(s: Seq<char>, start: int)
    requires
        0 <= start,
    ensures
        forall|i: int| 0 <= i < lines_from(s, start).len() ==> !(#[trigger] lines_from(s, start)[i]).contains('\n'),
    decreases s.len() - start,
{
    if start < s.len() {
        lemma_find_from(s, seq!['\n'], start);
        match find_from(s, seq!['\n'], start) {
            Some(k) => {
                lemma_lines_no_newline(s, k + 1);
                let l = s.subrange(start, k);
                assert forall|m: int| 0 <= m < l.len() implies l[m] != '\n' by {
                    assert(s.subrange(start + m, start + m + 1)[0] == s[start + m]);
                    if s[start + m] == '\n' {
                        assert(s.subrange(start + m, start + m + 1) =~= seq!['\n']);
                    }
                }
                let c = strip_cr(l);
                assert forall|m: int| 0 <= m < c.len() implies c[m] != '\n' by {
                    assert(c[m] == l[m]);
                }
                let r = lines_from(s, start);
                assert(r == seq![c] + lines_from(s, k + 1));
                assert forall|i: int| 0 <= i < r.len() implies !(#[trigger] r[i]).contains('\n') by {
                    if i == 0 {
                        assert(r[0] == c);
                    } else {
                        assert(r[i] == lines_from(s, k + 1)[i - 1]);
                    }
                }
            },
            None => {
                let l = s.subrange(start, s.len() as int);
                assert forall|m: int| 0 <= m < l.len() implies l[m] != '\n' by {
                    assert(s.subrange(start + m, start + m + 1)[0] == s[start + m]);
                    if s[start + m] == '\n' {
                        assert(s.subrange(start + m, start + m + 1) =~= seq!['\n']);
                    }
                }
            },
        }
    }
}

} // verus!
