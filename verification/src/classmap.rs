//! The PHP class scanner: a line tokenizer that finds the top-level
//! class / interface / trait / enum declarations of a PHP source text and
//! qualifies them with the file's namespace.
use vstd::prelude::*;
use crate::json::{json_document, json_from_str, Json};
use crate::lockfile::{opt_string_view, string_map_matches, string_map_of};
use crate::store::{slashes, slashes_exec, PackageCoords};
use crate::strmap::{keys_sorted, lemma_insert_then_lookup, lemma_lookup_at, lemma_lookup_some_iff, lookup, StrMap};
use crate::text::{lex_lt, 
    chars_eq, chars_of, find, find_from_exec, is_ascii_alnum, is_ascii_alpha, is_char, is_ws, lemma_find_from, words_from,
    lines, lines_exec, ltrim, rtrim, slice, starts_with, string_of, trim, trim_end, trim_end_char,
    trim_end_ws, trim_start_char, trim_ws, words, words_exec,
};

verus! {

/// `line[..cut]` where `cut` is the first `//`, else the first `#`, else the end.
pub open spec fn spec_strip_line_comment(line: Seq<char>) -> Seq<char> {
    match find(line, seq!['/', '/']) {
        Some(k) => line.take(k),
        None => match find(line, seq!['#']) {
            Some(k) => line.take(k),
            None => line,
        },
    }
}

pub open spec fn namespace_kw() -> Seq<char> {
    seq!['n', 'a', 'm', 'e', 's', 'p', 'a', 'c', 'e', ' ']
}

/// `namespace X;` or `namespace X {` gives `X`.
pub open spec fn spec_parse_namespace(line: Seq<char>) -> Option<Seq<char>> {
    if namespace_kw().len() <= line.len() && line.take(namespace_kw().len() as int)
        == namespace_kw() {
        let rest = line.skip(namespace_kw().len() as int);
        let a = trim(rtrim(rest, is_char(';')));
        Some(trim(rtrim(ltrim(a, is_char('{')), is_char('{'))))
    } else {
        None
    }
}

pub open spec fn is_modifier(w: Seq<char>) -> bool {
    ||| w == seq!['f', 'i', 'n', 'a', 'l']
    ||| w == seq!['a', 'b', 's', 't', 'r', 'a', 'c', 't']
    ||| w == seq!['r', 'e', 'a', 'd', 'o', 'n', 'l', 'y']
}

pub open spec fn is_decl_keyword(w: Seq<char>) -> bool {
    ||| w == seq!['c', 'l', 'a', 's', 's']
    ||| w == seq!['i', 'n', 't', 'e', 'r', 'f', 'a', 'c', 'e']
    ||| w == seq!['t', 'r', 'a', 'i', 't']
    ||| w == seq!['e', 'n', 'u', 'm']
}

/// Index of the first word at or after `i` that is not a modifier.
pub open spec fn skip_modifiers(ws: Seq<Seq<char>>, i: int) -> int
    decreases ws.len() - i,
{
    if 0 <= i < ws.len() && is_modifier(ws[i]) {
        skip_modifiers(ws, i + 1)
    } else {
        i
    }
}

/// The part of `w` before its first `:` (`enum Level: string`).
pub open spec fn before_colon(w: Seq<char>) -> Seq<char> {
    match find(w, seq![':']) {
        Some(k) => w.take(k),
        None => w,
    }
}

/// `[final|abstract|readonly]* (class|interface|trait|enum) Name ...` gives `Name`,
/// provided `Name` starts with an ASCII letter or `_`.
pub open spec fn spec_parse_type_decl(line: Seq<char>) -> Option<Seq<char>> {
    let ws = words(line);
    let k = skip_modifiers(ws, 0);
    if k >= ws.len() || !is_decl_keyword(ws[k]) || k + 1 >= ws.len() {
        None
    } else {
        let name = before_colon(ws[k + 1]);
        if name.len() == 0 || !(is_ascii_alpha(name[0]) || name[0] == '_') {
            None
        } else {
            Some(name)
        }
    }
}

pub open spec fn is_ident_char(c: char) -> bool {
    is_ascii_alnum(c) || c == '_'
}

/// A heredoc / nowdoc opened on this line (`<<<EOT`, `<<<'EOT'`, `<<<"EOT"`): its terminator.
pub open spec fn heredoc_open(raw: Seq<char>) -> Option<Seq<char>> {
    match find(raw, seq!['<', '<', '<']) {
        Some(pos) => {
            let after = trim_end(raw.skip(pos + 3));
            let ident = rtrim(
                ltrim(rtrim(ltrim(after, is_char('"')), is_char('"')), is_char('\'')),
                is_char('\''),
            );
            if ident.len() > 0 && forall|i: int| 0 <= i < ident.len() ==> is_ident_char(ident[i]) {
                Some(ident)
            } else {
                None
            }
        },
        None => None,
    }
}

/// The line closes the heredoc whose terminator is `term` (an optional `;` and indentation allowed).
pub open spec fn heredoc_closes(raw: Seq<char>, term: Seq<char>) -> bool {
    trim_end(rtrim(trim(raw), is_char(';'))) == term
}

pub open spec fn qualify(ns: Seq<char>, name: Seq<char>) -> Seq<char> {
    if ns.len() == 0 {
        name
    } else {
        ns + seq!['\\'] + name
    }
}

/// Scanner state: current namespace, open heredoc terminator, names found so far.
pub type ScanState = (Seq<char>, Option<Seq<char>>, Seq<Seq<char>>);

pub open spec fn scan_step(st: ScanState, raw: Seq<char>) -> ScanState {
    match st.1 {
        Some(term) => if heredoc_closes(raw, term) {
            (st.0, None, st.2)
        } else {
            st
        },
        None => match heredoc_open(raw) {
            Some(id) => (st.0, Some(id), st.2),
            None => {
                let line = trim(spec_strip_line_comment(raw));
                match spec_parse_namespace(line) {
                    Some(ns) => (ns, None, st.2),
                    None => match spec_parse_type_decl(line) {
                        Some(name) => (st.0, None, st.2.push(qualify(st.0, name))),
                        None => st,
                    },
                }
            },
        },
    }
}

pub open spec fn scan_lines(ls: Seq<Seq<char>>) -> ScanState
    decreases ls.len(),
{
    if ls.len() == 0 {
        (seq![], None, seq![])
    } else {
        scan_step(scan_lines(ls.drop_last()), ls.last())
    }
}

/// Fully qualified names of the types declared in a PHP source text, in order.
pub open spec fn spec_classes_in_source(src: Seq<char>) -> Seq<Seq<char>> {
    scan_lines(lines(src)).2
}

/// `line.find("//").or_else(|| line.find('#'))` cut.
pub fn strip_line_comment(line: &Vec<char>) -> (r: Vec<char>)
    ensures
        r@ == spec_strip_line_comment(line@),
{
    let slashes: Vec<char> = vec!['/', '/'];
    let hash: Vec<char> = vec!['#'];
    assert(slashes@ =~= seq!['/', '/']);
    assert(hash@ =~= seq!['#']);
    proof {
        lemma_find_from(line@, seq!['/', '/'], 0);
        lemma_find_from(line@, seq!['#'], 0);
    }
    match find_from_exec(line, &slashes, 0) {
        Some(k) => {
            let r = slice(line, 0, k);
            assert(r@ =~= line@.take(k as int));
            r
        },
        None => match find_from_exec(line, &hash, 0) {
            Some(k) => {
                let r = slice(line, 0, k);
                assert(r@ =~= line@.take(k as int));
                r
            },
            None => slice(line, 0, line.len()),
        },
    }
}

pub fn parse_namespace(line: &Vec<char>) -> (r: Option<Vec<char>>)
    ensures
        r matches Some(v) ==> spec_parse_namespace(line@) == Some(v@),
        r is None ==> spec_parse_namespace(line@) is None,
{
    let kw: Vec<char> = vec!['n', 'a', 'm', 'e', 's', 'p', 'a', 'c', 'e', ' '];
    assert(kw@ =~= namespace_kw());
    if !starts_with(line, &kw) {
        return None;
    }
    let rest = slice(line, kw.len(), line.len());
    assert(rest@ =~= line@.skip(namespace_kw().len() as int));
    let a = trim_end_char(&rest, ';');
    let a = trim_ws(&a);
    let b = trim_start_char(&a, '{');
    let b = trim_end_char(&b, '{');
    Some(trim_ws(&b))
}

pub fn is_modifier_exec(w: &Vec<char>) -> (b: bool)
    ensures
        b == is_modifier(w@),
{
    let f: Vec<char> = vec!['f', 'i', 'n', 'a', 'l'];
    let a: Vec<char> = vec!['a', 'b', 's', 't', 'r', 'a', 'c', 't'];
    let r: Vec<char> = vec!['r', 'e', 'a', 'd', 'o', 'n', 'l', 'y'];
    assert(f@ =~= seq!['f', 'i', 'n', 'a', 'l']);
    assert(a@ =~= seq!['a', 'b', 's', 't', 'r', 'a', 'c', 't']);
    assert(r@ =~= seq!['r', 'e', 'a', 'd', 'o', 'n', 'l', 'y']);
    chars_eq(w, &f) || chars_eq(w, &a) || chars_eq(w, &r)
}

pub fn is_decl_keyword_exec(w: &Vec<char>) -> (b: bool)
    ensures
        b == is_decl_keyword(w@),
{
    let c: Vec<char> = vec!['c', 'l', 'a', 's', 's'];
    let i: Vec<char> = vec!['i', 'n', 't', 'e', 'r', 'f', 'a', 'c', 'e'];
    let t: Vec<char> = vec!['t', 'r', 'a', 'i', 't'];
    let e: Vec<char> = vec!['e', 'n', 'u', 'm'];
    assert(c@ =~= seq!['c', 'l', 'a', 's', 's']);
    assert(i@ =~= seq!['i', 'n', 't', 'e', 'r', 'f', 'a', 'c', 'e']);
    assert(t@ =~= seq!['t', 'r', 'a', 'i', 't']);
    assert(e@ =~= seq!['e', 'n', 'u', 'm']);
    chars_eq(w, &c) || chars_eq(w, &i) || chars_eq(w, &t) || chars_eq(w, &e)
}

pub fn parse_type_decl(line: &Vec<char>) -> (r: Option<Vec<char>>)
    ensures
        r matches Some(v) ==> spec_parse_type_decl(line@) == Some(v@),
        r is None ==> spec_parse_type_decl(line@) is None,
{
    let ws = words_exec(line);
    let ghost sw = words(line@);
    let mut k: usize = 0;
    while k < ws.len() && is_modifier_exec(&ws[k])
        invariant
            ws@.len() == sw.len(),
            forall|i: int| 0 <= i < ws@.len() ==> #[trigger] ws@[i]@ == sw[i],
            sw == words(line@),
            k <= ws.len(),
            skip_modifiers(sw, 0) == skip_modifiers(sw, k as int),
        decreases ws.len() - k,
    {
        k = k + 1;
    }
    if k >= ws.len() {
        return None;
    }
    if !is_decl_keyword_exec(&ws[k]) {
        return None;
    }
    if k + 1 >= ws.len() {
        return None;
    }
    let w = &ws[k + 1];
    let colon: Vec<char> = vec![':'];
    assert(colon@ =~= seq![':']);
    proof {
        lemma_find_from(w@, seq![':'], 0);
    }
    let name = match find_from_exec(w, &colon, 0) {
        Some(c) => {
            let n = slice(w, 0, c);
            assert(n@ =~= w@.take(c as int));
            n
        },
        None => slice(w, 0, w.len()),
    };
    assert(name@ =~= before_colon(sw[k + 1]));
    if name.len() == 0 {
        return None;
    }
    let first = name[0];
    if !(('a' <= first && first <= 'z') || ('A' <= first && first <= 'Z') || first == '_') {
        return None;
    }
    Some(name)
}

pub fn heredoc_open_exec(raw: &Vec<char>) -> (r: Option<Vec<char>>)
    ensures
        r matches Some(v) ==> heredoc_open(raw@) == Some(v@),
        r is None ==> heredoc_open(raw@) is None,
{
    let marker: Vec<char> = vec!['<', '<', '<'];
    assert(marker@ =~= seq!['<', '<', '<']);
    proof {
        lemma_find_from(raw@, seq!['<', '<', '<'], 0);
    }
    match find_from_exec(raw, &marker, 0) {
        Some(pos) => {
            let n = raw.len();
            assert(pos + 3 <= n);
            let rest = slice(raw, pos + 3, n);
            assert(rest@ =~= raw@.skip(pos + 3));
            let after = trim_end_ws(&rest);
            let a = trim_start_char(&after, '"');
            let a = trim_end_char(&a, '"');
            let a = trim_start_char(&a, '\'');
            let ident = trim_end_char(&a, '\'');
            let ghost sident = rtrim(
                ltrim(rtrim(ltrim(after@, is_char('"')), is_char('"')), is_char('\'')),
                is_char('\''),
            );
            assert(ident@ == sident);
            assert(find(raw@, seq!['<', '<', '<']) == Some(pos as int));
            if ident.len() == 0 {
                return None;
            }
            assert(heredoc_open(raw@) == if forall|j: int|
                0 <= j < sident.len() ==> is_ident_char(sident[j]) {
                Some(sident)
            } else {
                None
            });
            let mut i: usize = 0;
            while i < ident.len()
                invariant
                    i <= ident@.len(),
                    ident@ == sident,
                    heredoc_open(raw@) == if forall|j: int|
                        0 <= j < sident.len() ==> is_ident_char(sident[j]) {
                        Some(sident)
                    } else {
                        None
                    },
                    forall|j: int| 0 <= j < i ==> is_ident_char(#[trigger] ident@[j]),
                decreases ident@.len() - i,
            {
                let c = ident[i];
                if !(('a' <= c && c <= 'z') || ('A' <= c && c <= 'Z') || ('0' <= c && c <= '9')
                    || c == '_') {
                    assert(!is_ident_char(sident[i as int]));
                    assert(!(forall|j: int| 0 <= j < sident.len() ==> is_ident_char(sident[j])));
                    return None;
                }
                i = i + 1;
            }
            Some(ident)
        },
        None => None,
    }
}

pub fn heredoc_closes_exec(raw: &Vec<char>, term: &Vec<char>) -> (b: bool)
    ensures
        b == heredoc_closes(raw@, term@),
{
    let t = trim_ws(raw);
    let t = trim_end_char(&t, ';');
    let t = trim_end_ws(&t);
    chars_eq(&t, term)
}

/// Qualified names (`Namespace\Name`) of the types declared in `src`, in source order.
pub fn classes_in_source(src: &str) -> (r: Vec<String>)
    ensures
        r@.len() == spec_classes_in_source(src@).len(),
        forall|i: int| 0 <= i < r@.len() ==> #[trigger] r@[i]@ == spec_classes_in_source(src@)[i],
{
    let chars = chars_of(src);
    let ls = lines_exec(&chars);
    let ghost sl = lines(src@);
    let mut namespace: Vec<char> = Vec::new();
    let mut heredoc: Option<Vec<char>> = None;
    let mut names: Vec<Vec<char>> = Vec::new();
    let mut i: usize = 0;
    while i < ls.len()
        invariant
            ls@.len() == sl.len(),
            forall|j: int| 0 <= j < ls@.len() ==> #[trigger] ls@[j]@ == sl[j],
            i <= ls@.len(),
            ({
                let st = scan_lines(sl.take(i as int));
                &&& st.0 == namespace@
                &&& match heredoc {
                    Some(h) => st.1 == Some(h@),
                    None => st.1 is None,
                }
                &&& st.2.len() == names@.len()
                &&& forall|j: int| 0 <= j < names@.len() ==> #[trigger] names@[j]@ == st.2[j]
            }),
        decreases ls@.len() - i,
    {
        let raw = &ls[i];
        proof {
            assert(sl.take(i + 1).drop_last() =~= sl.take(i as int));
            assert(sl.take(i + 1).last() == sl[i as int]);
        }
        let ghost prev = scan_lines(sl.take(i as int));
        let ghost next = scan_step(prev, raw@);
        assert(scan_lines(sl.take(i + 1)) == next);
        match heredoc {
            Some(term) => {
                if heredoc_closes_exec(raw, &term) {
                    heredoc = None;
                } else {
                    heredoc = Some(term);
                }
            },
            None => {
                match heredoc_open_exec(raw) {
                    Some(id) => {
                        heredoc = Some(id);
                    },
                    None => {
                        let stripped = strip_line_comment(raw);
                        let line = trim_ws(&stripped);
                        match parse_namespace(&line) {
                            Some(ns) => {
                                namespace = ns;
                            },
                            None => {
                                match parse_type_decl(&line) {
                                    Some(name) => {
                                        let q = if namespace.len() == 0 {
                                            name
                                        } else {
                                            let mut q = namespace.clone();
                                            q.push('\\');
                                            let mut j: usize = 0;
                                            while j < name.len()
                                                invariant
                                                    j <= name@.len(),
                                                    q@ == namespace@ + seq!['\\']
                                                        + name@.take(j as int),
                                                decreases name@.len() - j,
                                            {
                                                q.push(name[j]);
                                                j = j + 1;
                                                assert(q@ =~= namespace@ + seq!['\\']
                                                    + name@.take(j as int));
                                            }
                                            assert(name@.take(name@.len() as int) =~= name@);
                                            q
                                        };
                                        proof {
                                            assert(q@ == qualify(namespace@, name@));
                                        }
                                        names.push(q);
                                    },
                                    None => {},
                                }
                            },
                        }
                    },
                }
            },
        }
        i = i + 1;
    }
    proof {
        assert(sl.take(sl.len() as int) =~= sl);
    }
    let mut out: Vec<String> = Vec::new();
    let mut j: usize = 0;
    while j < names.len()
        invariant
            j <= names@.len(),
            out@.len() == j,
            forall|k: int| 0 <= k < j ==> #[trigger] out@[k]@ == names@[k]@,
        decreases names@.len() - j,
    {
        out.push(string_of(&names[j]));
        j = j + 1;
    }
    out
}

// ----------------------------------------------------------------------------
// Classmaps of package trees

/// A file path whose extension is `php`: it ends in `.php` and the file name
/// has something before that dot (`.php` alone is a hidden file without an
/// extension).
pub open spec fn spec_is_php_file(p: Seq<char>) -> bool {
    p.len() > 4 && p.skip(p.len() - 4) == ".php"@ && p[p.len() - 5] != '/'
}

pub fn is_php_file(p: &str) -> (r: bool)
    ensures
        r == spec_is_php_file(p@),
{
    let c = chars_of(p);
    let n = c.len();
    if n <= 4 {
        return false;
    }
    proof {
        reveal_strlit(".php");
    }
    let r = c[n - 4] == '.' && c[n - 3] == 'p' && c[n - 2] == 'h' && c[n - 1] == 'p' && c[n - 5]
        != '/';
    let ghost tail = c@.skip(n - 4);
    assert(".php"@ =~= seq!['.', 'p', 'h', 'p']);
    assert(tail[0] == c@[n - 4] && tail[1] == c@[n - 3] && tail[2] == c@[n - 2] && tail[3] == c@[n
        - 1]);
    if r {
        assert(tail =~= ".php"@);
    }
    r
}

/// The (class, path) pairs a file contributes: each class declared in a PHP
/// file whose content reads as UTF-8 (`None` otherwise), with the file's path
/// (`/` separators).
pub open spec fn file_pairs(f: (String, Option<String>)) -> Seq<(Seq<char>, Seq<char>)> {
    if spec_is_php_file(f.0@) && f.1 is Some {
        let classes = spec_classes_in_source(f.1->0@);
        Seq::new(classes.len(), |i: int| (classes[i], slashes(f.0@)))
    } else {
        seq![]
    }
}

/// The pairs of all files, in file order.
pub open spec fn scan_pairs(files: Seq<(String, Option<String>)>) -> Seq<(Seq<char>, Seq<char>)>
    decreases files.len(),
{
    if files.len() == 0 {
        seq![]
    } else {
        scan_pairs(files.drop_last()) + file_pairs(files.last())
    }
}

/// The value of the last pair with key `k`: a later declaration of a class
/// replaces an earlier one.
pub open spec fn last_value(pairs: Seq<(Seq<char>, Seq<char>)>, k: Seq<char>) -> Option<Seq<char>>
    decreases pairs.len(),
{
    if pairs.len() == 0 {
        None
    } else if pairs.last().0 == k {
        Some(pairs.last().1)
    } else {
        last_value(pairs.drop_last(), k)
    }
}

/// Maps every class declared in the PHP files of a package tree to the file
/// that declares it (its path relative to the tree's root). `files` lists
/// the tree's files: relative path, and content when it is UTF-8.
pub fn scan_php_classes(files: &Vec<(String, Option<String>)>) -> (m: StrMap<String>)
    ensures
        m.wf(),
        forall|k: Seq<char>| #[trigger] opt_string_view(m.spec_get(k)) == last_value(scan_pairs(files@), k),
{
    let mut m: StrMap<String> = StrMap::new();
    let mut i: usize = 0;
    assert(files@.take(0) =~= Seq::<(String, Option<String>)>::empty());
    while i < files.len()
        invariant
            i <= files@.len(),
            m.wf(),
            forall|k: Seq<char>| #[trigger] opt_string_view(m.spec_get(k)) == last_value(
                scan_pairs(files@.take(i as int)),
                k,
            ),
        decreases files@.len() - i,
    {
        let ghost base = scan_pairs(files@.take(i as int));
        let ghost fp = file_pairs(files@[i as int]);
        assert(files@.take(i + 1).drop_last() =~= files@.take(i as int));
        assert(files@.take(i + 1).last() == files@[i as int]);
        assert(scan_pairs(files@.take(i + 1)) == base + fp);
        let (path, content) = &files[i];
        if is_php_file(path.as_str()) {
            match content {
                Some(text) => {
                    let classes = classes_in_source(text.as_str());
                    let rel = string_of(&slashes_exec(path.as_str()));
                    let mut j: usize = 0;
                    assert(base + fp.take(0) =~= base);
                    while j < classes.len()
                        invariant
                            j <= classes@.len(),
                            classes@.len() == fp.len(),
                            forall|q: int| 0 <= q < fp.len() ==> #[trigger] fp[q] == (classes@[q]@, rel@),
                            m.wf(),
                            forall|k: Seq<char>| #[trigger] opt_string_view(m.spec_get(k)) == last_value(
                                base + fp.take(j as int),
                                k,
                            ),
                        decreases classes@.len() - j,
                    {
                        let ghost old_m = m;
                        let ghost old_entries = m.entries();
                        let key = copy_string(&classes[j]);
                        let val = copy_string(&rel);
                        m.insert(key, val);
                        assert((base + fp.take(j + 1)).drop_last() =~= base + fp.take(j as int));
                        assert((base + fp.take(j + 1)).last() == fp[j as int]);
                        assert forall|k: Seq<char>| #[trigger] opt_string_view(m.spec_get(k))
                            == last_value(base + fp.take(j + 1), k) by {
                            lemma_insert_then_lookup(old_entries, key, val, k);
                            assert(opt_string_view(old_m.spec_get(k)) == last_value(
                                base + fp.take(j as int),
                                k,
                            ));
                        }
                        j = j + 1;
                    }
                    assert(fp.take(fp.len() as int) =~= fp);
                },
                None => {
                    assert(base + fp =~= base);
                },
            }
        } else {
            assert(base + fp =~= base);
        }
        i = i + 1;
    }
    assert(files@.take(files@.len() as int) =~= files@);
    m
}

fn copy_string(s: &String) -> (r: String)
    ensures
        r@ == s@,
{
    s.clone()
}

/// `$vendorDir/<vendor>/<package>/`: where a package's files are, seen from
/// the generated autoload files.
pub open spec fn package_prefix(c: PackageCoords) -> Seq<char> {
    "$vendorDir/"@ + c.vendor@ + seq!['/'] + c.package@ + seq!['/']
}

/// The classmap of a package with each path prefixed by the package's
/// directory under `$vendorDir`.
pub fn rebase(map: &StrMap<String>, coords: &PackageCoords) -> (r: StrMap<String>)
    requires
        map.wf(),
    ensures
        r.wf(),
        forall|k: Seq<char>| #[trigger] opt_string_view(r.spec_get(k)) == match map.spec_get(k) {
            Some(v) => Some(package_prefix(*coords) + v@),
            None => None,
        },
{
    let mut prefix = crate::text::concat("$vendorDir/", coords.vendor.as_str());
    prefix.append("/");
    prefix.append(coords.package.as_str());
    prefix.append("/");
    proof {
        reveal_strlit("/");
    }
    assert(prefix@ =~= package_prefix(*coords));
    let ghost es = map.entries();
    let mut out: StrMap<String> = StrMap::new();
    let mut i: usize = 0;
    while i < map.len()
        invariant
            i <= es.len(),
            es == map.entries(),
            keys_sorted(es),
            prefix@ == package_prefix(*coords),
            out.wf(),
            forall|k: Seq<char>| #[trigger] opt_string_view(out.spec_get(k)) == match lookup(
                es.take(i as int),
                k,
            ) {
                Some(v) => Some(prefix@ + v@),
                None => None,
            },
        decreases es.len() - i,
    {
        let ghost old_out = out;
        let ghost old_entries = out.entries();
        let key = copy_string(map.key_at(i));
        let val = crate::text::concat(prefix.as_str(), map.value_at(i).as_str());
        out.insert(key, val);
        assert forall|k: Seq<char>| #[trigger] opt_string_view(out.spec_get(k)) == match lookup(
            es.take(i + 1),
            k,
        ) {
            Some(v) => Some(prefix@ + v@),
            None => None,
        } by {
            lemma_insert_then_lookup(old_entries, key, val, k);
            lemma_lookup_take_next(es, i as int, k);
            assert(opt_string_view(old_out.spec_get(k)) == match lookup(es.take(i as int), k) {
                Some(v) => Some(prefix@ + v@),
                None => None,
            });
        }
        i = i + 1;
    }
    assert(es.take(es.len() as int) =~= es);
    out
}

/// Looking up in one more entry of a key-sorted sequence.
proof fn lemma_lookup_take_next(es: Seq<(String, String)>, i: int, k: Seq<char>)
    requires
        keys_sorted(es),
        0 <= i < es.len(),
    ensures
        lookup(es.take(i + 1), k) == if es[i].0@ == k {
            Some(es[i].1)
        } else {
            lookup(es.take(i), k)
        },
{
    let a = es.take(i);
    let b = es.take(i + 1);
    lemma_lookup_some_iff(a, k);
    lemma_lookup_some_iff(b, k);
    if es[i].0@ == k {
        assert forall|j: int| 0 <= j < i implies #[trigger] b[j].0@ != k by {
            assert(lex_lt(es[j].0@, es[i].0@));
            crate::text::lemma_lex_total(es[j].0@, es[i].0@);
        }
        lemma_lookup_at(b, k, i);
    } else {
        lemma_lookup_prefix(a, b, k);
    }
}

/// A lookup that finds its key in a prefix finds it there in the whole; one
/// that fails on the prefix reaches the extra entries.
proof fn lemma_lookup_prefix(a: Seq<(String, String)>, b: Seq<(String, String)>, k: Seq<char>)
    requires
        a.len() + 1 == b.len(),
        forall|j: int| 0 <= j < a.len() ==> #[trigger] b[j] == a[j],
        b[a.len() as int].0@ != k,
    ensures
        lookup(b, k) == lookup(a, k),
    decreases a.len(),
{
    if a.len() > 0 {
        assert(a[0] == b[0]);
        if b[0].0@ != k {
            let a1 = a.drop_first();
            let b1 = b.drop_first();
            assert forall|j: int| 0 <= j < a1.len() implies #[trigger] b1[j] == a1[j] by {
                assert(b1[j] == b[j + 1] && a1[j] == a[j + 1]);
            }
            assert(b1[a1.len() as int] == b[a.len() as int]);
            lemma_lookup_prefix(a1, b1, k);
            assert(lookup(b, k) == lookup(b1, k));
            assert(lookup(a, k) == lookup(a1, k));
        }
    } else {
        assert(b.drop_first().len() == 0);
        assert(lookup(b, k) == lookup(b.drop_first(), k));
    }
}

/// A cached classmap: the JSON object of class to path that the cache file
/// holds; None when the text is no such object.
pub open spec fn spec_cached_classmap(raw: Seq<char>) -> Option<Seq<(String, Json)>> {
    match json_document(raw) {
        Some(Json::Object(es)) => if forall|i: int| 0 <= i < es@.len() ==> (#[trigger] es@[i].1 is Str) {
            Some(es@)
        } else {
            None
        },
        _ => None,
    }
}

/// Reads a classmap cache file's text; a cache that does not read is a miss
/// (the package is scanned again).
pub fn cached_classmap(raw: &str) -> (r: Option<StrMap<String>>)
    ensures
        match spec_cached_classmap(raw@) {
            Some(es) => r matches Some(m) && string_map_matches(m, es),
            None => r is None,
        },
{
    match json_from_str(raw) {
        Ok(Json::Object(es)) => match string_map_of(&es) {
            Ok(m) => Some(m),
            Err(_) => None,
        },
        _ => None,
    }
}


// ----------------------------------------------------------------------------
// What the scanner finds in a small file

/// A PHP class name as these laws use it: ASCII letters, digits and `_`,
/// starting with a letter or `_`.
pub open spec fn php_name(c: Seq<char>) -> bool {
    &&& c.len() > 0
    &&& is_ascii_alpha(c[0]) || c[0] == '_'
    &&& forall|i: int| 0 <= i < c.len() ==> is_ident_char(#[trigger] c[i])
}

/// A namespace name: name characters and `\`, not empty.
pub open spec fn php_namespace_name(n: Seq<char>) -> bool {
    &&& n.len() > 0
    &&& forall|i: int| 0 <= i < n.len() ==> is_ident_char(#[trigger] n[i]) || n[i] == '\\'
}

/// A word of lower-case ASCII letters.
pub open spec fn lower_word(w: Seq<char>) -> bool {
    &&& w.len() > 0
    &&& forall|i: int| 0 <= i < w.len() ==> 'a' <= #[trigger] w[i] && w[i] <= 'z'
}

/// The file `<?php`, `namespace N;`, then the line `d`.
pub open spec fn namespaced_file(n: Seq<char>, d: Seq<char>) -> Seq<char> {
    "<?php\nnamespace "@ + n + ";\n"@ + d
}

/// One of the declaration keywords `class`, `interface`, `trait`, `enum`.
pub open spec fn type_keyword(k: Seq<char>) -> bool {
    k == "class"@ || k == "interface"@ || k == "trait"@ || k == "enum"@
}

/// A type declared on its own line (`class C {}`, `interface C {}`, `trait
/// C {}`, `enum C {}`) in a namespaced file is found, qualified with the
/// namespace.
pub proof fn lemma_declaration_found(n: Seq<char>, k: Seq<char>, c: Seq<char>)
    requires
        php_namespace_name(n),
        php_name(c),
        type_keyword(k),
    ensures
        spec_classes_in_source(namespaced_file(n, k + " "@ + c + " {}"@)) == seq![n + "\\"@ + c],
{
    reveal_strlit(" ");
    reveal_strlit(" {}");
    reveal_strlit("\\");
    lemma_keyword_facts(k);
    let d = k + " "@ + c + " {}"@;
    lemma_scan_bare_decl((n, None, seq![]), k, c);
    lemma_namespaced_file(n, d);
    assert(qualify(n, c) =~= n + "\\"@ + c);
    assert(seq![].push(qualify(n, c)) =~= seq![n + "\\"@ + c]);
}

/// A type declared after a word: it is found, qualified with the namespace,
/// exactly when the word is one of the modifiers `final`, `abstract` and
/// `readonly`; after any other lower-case word (that is not itself
/// `namespace` or a declaration keyword) nothing is found.
pub proof fn lemma_declaration_after_word(n: Seq<char>, w: Seq<char>, k: Seq<char>, c: Seq<char>)
    requires
        php_namespace_name(n),
        php_name(c),
        type_keyword(k),
        lower_word(w),
        w != "namespace"@,
        !type_keyword(w),
    ensures
        (w == "final"@ || w == "abstract"@ || w == "readonly"@) ==> spec_classes_in_source(
            namespaced_file(n, w + " "@ + k + " "@ + c + " {}"@),
        ) == seq![n + "\\"@ + c],
        !(w == "final"@ || w == "abstract"@ || w == "readonly"@) ==> spec_classes_in_source(
            namespaced_file(n, w + " "@ + k + " "@ + c + " {}"@),
        ) == Seq::<Seq<char>>::empty(),
{
    reveal_strlit(" ");
    reveal_strlit(" {}");
    reveal_strlit("\\");
    reveal_strlit("final");
    reveal_strlit("abstract");
    reveal_strlit("readonly");
    reveal_strlit("class");
    reveal_strlit("interface");
    reveal_strlit("trait");
    reveal_strlit("enum");
    lemma_keyword_facts(k);
    assert("class"@ =~= seq!['c', 'l', 'a', 's', 's']);
    assert("interface"@ =~= seq!['i', 'n', 't', 'e', 'r', 'f', 'a', 'c', 'e']);
    assert("trait"@ =~= seq!['t', 'r', 'a', 'i', 't']);
    assert("enum"@ =~= seq!['e', 'n', 'u', 'm']);
    assert(!is_decl_keyword(w));
    let d = w + " "@ + k + " "@ + c + " {}"@;
    lemma_scan_decl((n, None, seq![]), w, k, c);
    lemma_namespaced_file(n, d);
    assert("final"@ =~= seq!['f', 'i', 'n', 'a', 'l']);
    assert("abstract"@ =~= seq!['a', 'b', 's', 't', 'r', 'a', 'c', 't']);
    assert("readonly"@ =~= seq!['r', 'e', 'a', 'd', 'o', 'n', 'l', 'y']);
    let found = (w == "final"@ || w == "abstract"@ || w == "readonly"@);
    assert(is_modifier(w) == found);
    if found {
        assert(qualify(n, c) =~= n + "\\"@ + c);
        assert(seq![].push(qualify(n, c)) =~= seq![n + "\\"@ + c]);
    }
}

/// A declaration behind a `//` comment is not found.
pub proof fn lemma_commented_declaration_ignored(n: Seq<char>, k: Seq<char>, c: Seq<char>)
    requires
        php_namespace_name(n),
        php_name(c),
        type_keyword(k),
    ensures
        spec_classes_in_source(namespaced_file(n, "// "@ + k + " "@ + c + " {}"@))
            == Seq::<Seq<char>>::empty(),
{
    reveal_strlit("// ");
    reveal_strlit(" ");
    reveal_strlit(" {}");
    lemma_keyword_facts(k);
    let d = "// "@ + k + " "@ + c + " {}"@;
    let lk = k.len() as int;
    let lc = c.len() as int;
    assert(d.len() == lk + lc + 7);
    assert forall|j: int| 0 <= j < d.len() implies #[trigger] d[j] != '<' && d[j] != '\n' by {
        if 3 <= j < 3 + lk {
            assert(d[j] == k[j - 3]);
        } else if 4 + lk <= j < 4 + lk + lc {
            assert(d[j] == c[j - 4 - lk]);
        }
    }
    if d.contains('\n') {
        let j = choose|j: int| 0 <= j < d.len() && d[j] == '\n';
    }
    lemma_namespaced_file(n, d);
    lemma_find_absent(d, seq!['<', '<', '<']);
    assert(d.subrange(0, 2) =~= seq!['/', '/']);
    assert(find(d, seq!['/', '/']) == Some(0int));
    assert(spec_strip_line_comment(d) =~= Seq::<char>::empty());
    assert(trim(Seq::<char>::empty()) =~= Seq::<char>::empty());
    assert(words(Seq::<char>::empty()) =~= Seq::<Seq<char>>::empty());
    assert(skip_modifiers(Seq::<Seq<char>>::empty(), 0) == 0);
}

/// Outside any namespace a declaration is found under its bare name.
pub proof fn lemma_declaration_without_namespace(k: Seq<char>, c: Seq<char>)
    requires
        php_name(c),
        type_keyword(k),
    ensures
        spec_classes_in_source("<?php\n"@ + k + " "@ + c + " {}"@) == seq![c],
{
    reveal_strlit("<?php");
    reveal_strlit("<?php\n");
    reveal_strlit(" ");
    reveal_strlit(" {}");
    lemma_keyword_facts(k);
    let d = k + " "@ + c + " {}"@;
    let init: ScanState = (seq![], None, seq![]);
    lemma_scan_bare_decl(init, k, c);
    let l0 = "<?php"@;
    let ks = seq![l0, d];
    assert(ks.drop_first() =~= seq![d]);
    assert(crate::text::join_fwd(seq![d]) == d);
    assert(crate::text::join_fwd(ks) == l0 + seq!['\n'] + d);
    assert("<?php\n"@ + k + " "@ + c + " {}"@ =~= crate::text::join_fwd(ks));
    assert forall|i: int| 0 <= i < ks.len() implies (#[trigger] ks[i]).len() > 0 && !ks[i].contains(
        '\n',
    ) && (i + 1 < ks.len() ==> ks[i].last() != '\r') by {}
    crate::text::lemma_lines_join_fwd(ks);
    lemma_scan_header(init);
    assert(ks.drop_last() =~= seq![l0]);
    assert(seq![l0].drop_last() =~= Seq::<Seq<char>>::empty());
    assert(scan_lines(Seq::<Seq<char>>::empty()) == init);
    assert(seq![l0].last() == l0);
    assert(scan_lines(seq![l0]) == init);
    assert(ks.last() == d);
    assert(scan_lines(ks) == scan_step(init, d));
    assert(qualify(seq![], c) == c);
    assert(seq![].push(c) =~= seq![c]);
}

/// A declaration keyword is a lower-case word, a declaration keyword of the
/// scanner and no modifier.
proof fn lemma_keyword_facts(k: Seq<char>)
    requires
        type_keyword(k),
    ensures
        lower_word(k),
        is_decl_keyword(k),
        !is_modifier(k),
        k[0] != 'n',
{
    reveal_strlit("class");
    reveal_strlit("interface");
    reveal_strlit("trait");
    reveal_strlit("enum");
    assert("class"@ =~= seq!['c', 'l', 'a', 's', 's']);
    assert("interface"@ =~= seq!['i', 'n', 't', 'e', 'r', 'f', 'a', 'c', 'e']);
    assert("trait"@ =~= seq!['t', 'r', 'a', 'i', 't']);
    assert("enum"@ =~= seq!['e', 'n', 'u', 'm']);
    assert(k[0] == 'c' || k[0] == 'i' || k[0] == 't' || k[0] == 'e');
}

/// The classes of a namespaced file are those its last line adds after the
/// namespace is set.
proof fn lemma_namespaced_file(n: Seq<char>, d: Seq<char>)
    requires
        php_namespace_name(n),
        d.len() > 0,
        !d.contains('\n'),
    ensures
        spec_classes_in_source(namespaced_file(n, d)) == scan_step(
            (n, None::<Seq<char>>, Seq::<Seq<char>>::empty()),
            d,
        ).2,
{
    reveal_strlit("<?php");
    reveal_strlit("namespace ");
    reveal_strlit(";");
    reveal_strlit("<?php\nnamespace ");
    reveal_strlit(";\n");
    let l0 = "<?php"@;
    let l1 = "namespace "@ + n + ";"@;
    let ks = seq![l0, l1, d];
    assert(ks.drop_first().drop_first() =~= seq![d]);
    assert(ks.drop_first() =~= seq![l1, d]);
    assert(crate::text::join_fwd(seq![d]) == d);
    assert(crate::text::join_fwd(seq![l1, d]) == l1 + seq!['\n'] + d);
    assert(crate::text::join_fwd(ks) == l0 + seq!['\n'] + (l1 + seq!['\n'] + d));
    assert(namespaced_file(n, d) =~= crate::text::join_fwd(ks));
    assert forall|i: int| 0 <= i < ks.len() implies (#[trigger] ks[i]).len() > 0 && !ks[i].contains(
        '\n',
    ) && (i + 1 < ks.len() ==> ks[i].last() != '\r') by {
        if i == 1 {
            if l1.contains('\n') {
                let j = choose|j: int| 0 <= j < l1.len() && l1[j] == '\n';
                if 10 <= j < 10 + n.len() {
                    assert(l1[j] == n[j - 10]);
                }
            }
        }
    }
    crate::text::lemma_lines_join_fwd(ks);
    let init: ScanState = (seq![], None, seq![]);
    lemma_scan_header(init);
    let st1: ScanState = (n, None, seq![]);
    lemma_scan_namespace(init, n);
    assert(ks.drop_last() =~= seq![l0, l1]);
    assert(seq![l0, l1].drop_last() =~= seq![l0]);
    assert(seq![l0].drop_last() =~= Seq::<Seq<char>>::empty());
    assert(scan_lines(Seq::<Seq<char>>::empty()) == init);
    assert(seq![l0].last() == l0);
    assert(scan_lines(seq![l0]) == scan_step(init, l0));
    assert(seq![l0, l1].last() == l1);
    assert(scan_step(init, l1) == st1);
    assert(scan_lines(seq![l0, l1]) == st1);
    assert(ks.last() == d);
    assert(scan_lines(ks) == scan_step(st1, d));
    assert(lines(namespaced_file(n, d)) == ks);
}

/// `find` finds nothing in a text without the pattern's first character.
proof fn lemma_find_absent(s: Seq<char>, p: Seq<char>)
    requires
        p.len() > 0,
        forall|j: int| 0 <= j < s.len() ==> #[trigger] s[j] != p[0],
    ensures
        find(s, p) is None,
{
    lemma_find_from(s, p, 0);
    if let Some(k) = find(s, p) {
        assert(s.subrange(k, k + p.len())[0] == s[k]);
    }
}

/// A run of non-space characters from `i` to `e`, then a space or the end,
/// is the next word.
proof fn lemma_words_token(s: Seq<char>, i: int, e: int)
    requires
        0 <= i < e <= s.len(),
        forall|j: int| i <= j < e ==> !is_ws(#[trigger] s[j]),
        e == s.len() || is_ws(s[e]),
    ensures
        words_from(s, i) == seq![s.subrange(i, e)] + words_from(s, e),
{
    crate::text::lemma_run_end(s, i);
    let r = crate::text::run_end(s, i);
    if r < e {
        assert(!is_ws(s[r]));
    }
    if r > e {
        assert(!is_ws(s[e]));
    }
}

/// A code line (no `<`, `/` or `#`, no space at either end) opens no heredoc
/// and is its own comment-stripped, trimmed text.
proof fn lemma_code_line(l: Seq<char>)
    requires
        l.len() > 0,
        forall|j: int| 0 <= j < l.len() ==> #[trigger] l[j] != '<' && l[j] != '/' && l[j] != '#',
        !is_ws(l[0]),
        !is_ws(l.last()),
    ensures
        heredoc_open(l) is None,
        trim(spec_strip_line_comment(l)) == l,
{
    lemma_find_absent(l, seq!['<', '<', '<']);
    lemma_find_absent(l, seq!['/', '/']);
    lemma_find_absent(l, seq!['#']);
    crate::text::lemma_ltrim(l, crate::text::ws(), 0);
    assert(l.skip(0) =~= l);
    crate::text::lemma_rtrim(l, crate::text::ws(), l.len() as int);
    assert(l.take(l.len() as int) =~= l);
}

/// The `<?php` line changes nothing.
proof fn lemma_scan_header(st: ScanState)
    requires
        st.1 is None,
    ensures
        scan_step(st, "<?php"@) == st,
{
    reveal_strlit("<?php");
    let l = "<?php"@;
    lemma_find_from(l, seq!['<', '<', '<'], 0);
    if let Some(k) = find(l, seq!['<', '<', '<']) {
        assert(l.subrange(k, k + 3)[0] == l[k]);
        assert(l.subrange(k, k + 3)[1] == l[k + 1]);
    }
    lemma_find_absent(l, seq!['/', '/']);
    lemma_find_absent(l, seq!['#']);
    crate::text::lemma_ltrim(l, crate::text::ws(), 0);
    assert(l.skip(0) =~= l);
    crate::text::lemma_rtrim(l, crate::text::ws(), 5);
    assert(l.take(5) =~= l);
    lemma_words_token(l, 0, 5);
    assert(l.subrange(0, 5) =~= l);
    assert(words(l) == seq![l]);
    assert(!is_modifier(l)) by {
        assert(l[0] != 'f' && l[0] != 'a' && l[0] != 'r');
    }
    assert(!is_decl_keyword(l)) by {
        assert(l[0] != 'c' && l[0] != 'i' && l[0] != 't' && l[0] != 'e');
    }
    assert(skip_modifiers(words(l), 0) == 0);
}

/// `namespace N;` sets the namespace to `N`.
proof fn lemma_scan_namespace(st: ScanState, n: Seq<char>)
    requires
        st.1 is None,
        php_namespace_name(n),
    ensures
        scan_step(st, "namespace "@ + n + ";"@) == (n, None::<Seq<char>>, st.2),
{
    reveal_strlit("namespace ");
    reveal_strlit(";");
    let l = "namespace "@ + n + ";"@;
    assert forall|j: int| 0 <= j < l.len() implies #[trigger] l[j] != '<' && l[j] != '/' && l[j]
        != '#' by {
        if 10 <= j < 10 + n.len() {
            assert(l[j] == n[j - 10]);
        }
    }
    lemma_code_line(l);
    assert(l.take(10) =~= namespace_kw());
    let rest = l.skip(10);
    assert(rest =~= n + seq![';']);
    crate::text::lemma_rtrim(rest, is_char(';'), n.len() as int);
    assert(rest.take(n.len() as int) =~= n);
    crate::text::lemma_ltrim(n, crate::text::ws(), 0);
    crate::text::lemma_ltrim(n, is_char('{'), 0);
    assert(n.skip(0) =~= n);
    crate::text::lemma_rtrim(n, crate::text::ws(), n.len() as int);
    crate::text::lemma_rtrim(n, is_char('{'), n.len() as int);
    assert(n.take(n.len() as int) =~= n);
    assert(spec_parse_namespace(l) == Some(n));
}

/// No `namespace ` at the start of a line that starts with a lower-case word
/// other than `namespace` followed by a space.
proof fn lemma_not_namespace_line(l: Seq<char>, w: Seq<char>)
    requires
        lower_word(w),
        w != "namespace"@,
        w.len() < l.len(),
        l.take(w.len() as int) == w,
        l[w.len() as int] == ' ',
    ensures
        spec_parse_namespace(l) is None,
{
    reveal_strlit("namespace");
    let lw = w.len() as int;
    if 10 <= l.len() && l.take(10) == namespace_kw() {
        if lw <= 9 {
            assert(l.take(10)[lw] == l[lw]);
            assert(lw == 9);
            assert forall|i: int| 0 <= i < 9 implies w[i] == "namespace"@[i] by {
                assert(l.take(lw)[i] == l[i]);
                assert(l.take(10)[i] == l[i]);
            }
            assert(w =~= "namespace"@);
        } else {
            assert(l.take(lw)[9] == l[9]);
            assert(l.take(10)[9] == l[9]);
        }
    }
}

/// `K C {}`: `C` is recorded.
proof fn lemma_scan_bare_decl(st: ScanState, k: Seq<char>, c: Seq<char>)
    requires
        st.1 is None,
        php_name(c),
        lower_word(k),
        is_decl_keyword(k),
        !is_modifier(k),
        k[0] != 'n',
    ensures
        scan_step(st, k + " "@ + c + " {}"@) == (st.0, None::<Seq<char>>, st.2.push(qualify(st.0, c))),
        !(k + " "@ + c + " {}"@).contains('\n'),
        (k + " "@ + c + " {}"@).len() > 0,
{
    reveal_strlit(" ");
    reveal_strlit(" {}");
    reveal_strlit("namespace");
    let l = k + " "@ + c + " {}"@;
    let lk = k.len() as int;
    let lc = c.len() as int;
    assert(l.len() == lk + 4 + lc);
    assert forall|j: int| 0 <= j < l.len() implies #[trigger] l[j] != '<' && l[j] != '/' && l[j]
        != '#' && l[j] != '\n' by {
        if j < lk {
            assert(l[j] == k[j]);
        } else if lk + 1 <= j < lk + 1 + lc {
            assert(l[j] == c[j - lk - 1]);
        }
    }
    assert(l[0] == k[0]);
    lemma_code_line(l);
    assert(l.take(lk) =~= k);
    lemma_not_namespace_line(l, k);
    assert forall|j: int| 0 <= j < lk implies !is_ws(#[trigger] l[j]) by {
        assert(l[j] == k[j]);
    }
    lemma_words_token(l, 0, lk);
    assert(words_from(l, lk) == words_from(l, lk + 1));
    assert forall|j: int| lk + 1 <= j < lk + 1 + lc implies !is_ws(#[trigger] l[j]) by {
        assert(l[j] == c[j - lk - 1]);
    }
    lemma_words_token(l, lk + 1, lk + 1 + lc);
    assert(words_from(l, lk + 1 + lc) == words_from(l, lk + 2 + lc));
    lemma_words_token(l, lk + 2 + lc, lk + 4 + lc);
    assert(words_from(l, lk + 4 + lc) == Seq::<Seq<char>>::empty());
    assert(l.subrange(0, lk) =~= k);
    assert(l.subrange(lk + 1, lk + 1 + lc) =~= c);
    let ws = words(l);
    assert(ws =~= seq![k, c, l.subrange(lk + 2 + lc, lk + 4 + lc)]);
    lemma_find_absent(c, seq![':']);
    assert(before_colon(c) == c);
    assert(skip_modifiers(ws, 0) == 0);
    assert(spec_parse_type_decl(l) == Some(c));
    if l.contains('\n') {
        let j = choose|j: int| 0 <= j < l.len() && l[j] == '\n';
    }
}

/// `W K C {}`: `C` is recorded exactly when `W` is a modifier.
proof fn lemma_scan_decl(st: ScanState, w: Seq<char>, k: Seq<char>, c: Seq<char>)
    requires
        st.1 is None,
        php_name(c),
        lower_word(w),
        w != "namespace"@,
        !is_decl_keyword(w),
        lower_word(k),
        is_decl_keyword(k),
        !is_modifier(k),
    ensures
        is_modifier(w) ==> scan_step(st, w + " "@ + k + " "@ + c + " {}"@) == (
            st.0,
            None::<Seq<char>>,
            st.2.push(qualify(st.0, c)),
        ),
        !is_modifier(w) ==> scan_step(st, w + " "@ + k + " "@ + c + " {}"@) == st,
        !(w + " "@ + k + " "@ + c + " {}"@).contains('\n'),
        (w + " "@ + k + " "@ + c + " {}"@).len() > 0,
{
    reveal_strlit(" ");
    reveal_strlit(" {}");
    let l = w + " "@ + k + " "@ + c + " {}"@;
    let lw = w.len() as int;
    let lk = k.len() as int;
    let lc = c.len() as int;
    let kc = lw + 2 + lk;
    assert(l.len() == kc + lc + 3);
    assert forall|j: int| 0 <= j < l.len() implies #[trigger] l[j] != '<' && l[j] != '/' && l[j]
        != '#' && l[j] != '\n' by {
        if j < lw {
            assert(l[j] == w[j]);
        } else if lw + 1 <= j < lw + 1 + lk {
            assert(l[j] == k[j - lw - 1]);
        } else if kc <= j < kc + lc {
            assert(l[j] == c[j - kc]);
        }
    }
    assert(l[0] == w[0]);
    lemma_code_line(l);
    assert(l.take(lw) =~= w);
    lemma_not_namespace_line(l, w);
    assert forall|j: int| 0 <= j < lw implies !is_ws(#[trigger] l[j]) by {
        assert(l[j] == w[j]);
    }
    lemma_words_token(l, 0, lw);
    assert(words_from(l, lw) == words_from(l, lw + 1));
    assert forall|j: int| lw + 1 <= j < lw + 1 + lk implies !is_ws(#[trigger] l[j]) by {
        assert(l[j] == k[j - lw - 1]);
    }
    lemma_words_token(l, lw + 1, lw + 1 + lk);
    assert(words_from(l, lw + 1 + lk) == words_from(l, kc));
    assert forall|j: int| kc <= j < kc + lc implies !is_ws(#[trigger] l[j]) by {
        assert(l[j] == c[j - kc]);
    }
    lemma_words_token(l, kc, kc + lc);
    assert(words_from(l, kc + lc) == words_from(l, kc + lc + 1));
    lemma_words_token(l, kc + lc + 1, kc + lc + 3);
    assert(words_from(l, kc + lc + 3) == Seq::<Seq<char>>::empty());
    assert(l.subrange(0, lw) =~= w);
    assert(l.subrange(lw + 1, lw + 1 + lk) =~= k);
    assert(l.subrange(kc, kc + lc) =~= c);
    let ws = words(l);
    assert(ws =~= seq![w, k, c, l.subrange(kc + lc + 1, kc + lc + 3)]);
    lemma_find_absent(c, seq![':']);
    assert(before_colon(c) == c);
    if is_modifier(w) {
        assert(skip_modifiers(ws, 1) == 1);
        assert(skip_modifiers(ws, 0) == 1);
        assert(spec_parse_type_decl(l) == Some(c));
    } else {
        assert(skip_modifiers(ws, 0) == 0);
        assert(spec_parse_type_decl(l) is None);
    }
    if l.contains('\n') {
        let j = choose|j: int| 0 <= j < l.len() && l[j] == '\n';
    }
}

} // verus!
