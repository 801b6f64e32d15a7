//! The PHP array files of a Composer-compatible autoloader
//! (`autoload_psr4.php`, `autoload_namespaces.php`, `autoload_files.php`,
//! `autoload_classmap.php`). Base-anchored paths (`$vendorDir/x`) become PHP
//! concatenations (`$vendorDir . '/x'`); keys are single-quoted PHP strings.
use vstd::prelude::*;
use crate::lockfile::strs;
use crate::strmap::StrMap;
use crate::text::{chars_of, starts_with, string_of};

verus! {

/// Escapes a PHP single-quoted string body: `\` and `'` get a backslash.
pub open spec fn php_escape(s: Seq<char>) -> Seq<char>
    decreases s.len(),
{
    if s.len() == 0 {
        seq![]
    } else {
        php_escape(s.drop_last()) + if s.last() == '\\' {
            seq!['\\', '\\']
        } else if s.last() == '\'' {
            seq!['\\', '\'']
        } else {
            seq![s.last()]
        }
    }
}

pub open spec fn php_quote(s: Seq<char>) -> Seq<char> {
    seq!['\''] + php_escape(s) + seq!['\'']
}

/// `var` followed by nothing or by `/rest`: the PHP expression for it.
pub open spec fn var_expr(p: Seq<char>, var: Seq<char>) -> Option<Seq<char>> {
    if var.len() <= p.len() && p.take(var.len() as int) == var {
        let rest = p.skip(var.len() as int);
        if rest.len() == 0 {
            Some(var)
        } else if rest[0] == '/' {
            Some(var + " . "@ + php_quote(rest))
        } else {
            None
        }
    } else {
        None
    }
}

/// The PHP expression for a (possibly base-anchored) path.
pub open spec fn php_path_expr(p: Seq<char>) -> Seq<char> {
    match var_expr(p, "$vendorDir"@) {
        Some(e) => e,
        None => match var_expr(p, "$baseDir"@) {
            Some(e) => e,
            None => php_quote(p),
        },
    }
}

/// The expressions of `ps`, separated by `, `.
pub open spec fn php_path_list(ps: Seq<Seq<char>>) -> Seq<char>
    decreases ps.len(),
{
    if ps.len() == 0 {
        seq![]
    } else if ps.len() == 1 {
        php_path_expr(ps[0])
    } else {
        php_path_list(ps.drop_last()) + ", "@ + php_path_expr(ps.last())
    }
}

pub open spec fn php_header(file: Seq<char>) -> Seq<char> {
    "<?php\n\n// "@ + file
        + "\n\n$vendorDir = dirname(__DIR__);\n$baseDir = dirname($vendorDir);\n\nreturn array(\n"@
}

pub open spec fn php_footer() -> Seq<char> {
    ");\n"@
}

/// `    'Ns\\' => array($vendorDir . '/dir', ...),`
pub open spec fn namespace_line(k: Seq<char>, dirs: Seq<Seq<char>>) -> Seq<char> {
    "    "@ + php_quote(k) + " => array("@ + php_path_list(dirs) + "),\n"@
}

pub open spec fn namespace_lines(es: Seq<(String, Vec<String>)>) -> Seq<char>
    decreases es.len(),
{
    if es.len() == 0 {
        seq![]
    } else {
        namespace_lines(es.drop_last()) + namespace_line(es.last().0@, strs(es.last().1@))
    }
}

/// `    'key' => $vendorDir . '/path',`
pub open spec fn path_line(k: Seq<char>, p: Seq<char>) -> Seq<char> {
    "    "@ + php_quote(k) + " => "@ + php_path_expr(p) + ",\n"@
}

pub open spec fn files_lines(fs: Seq<String>) -> Seq<char>
    decreases fs.len(),
{
    if fs.len() == 0 {
        seq![]
    } else {
        files_lines(fs.drop_last()) + path_line(fs.last()@, fs.last()@)
    }
}

pub open spec fn classmap_lines(es: Seq<(String, String)>) -> Seq<char>
    decreases es.len(),
{
    if es.len() == 0 {
        seq![]
    } else {
        classmap_lines(es.drop_last()) + path_line(es.last().0@, es.last().1@)
    }
}

fn push_all(out: &mut Vec<char>, s: &Vec<char>)
    ensures
        final(out)@ == old(out)@ + s@,
{
    let mut i: usize = 0;
    while i < s.len()
        invariant
            i <= s@.len(),
            out@ == old(out)@ + s@.take(i as int),
        decreases s@.len() - i,
    {
        out.push(s[i]);
        i = i + 1;
        assert(out@ =~= old(out)@ + s@.take(i as int));
    }
    assert(s@.take(s@.len() as int) =~= s@);
}

fn push_str(out: &mut Vec<char>, s: &str)
    ensures
        final(out)@ == old(out)@ + s@,
{
    let c = chars_of(s);
    push_all(out, &c);
}

fn push_quoted(out: &mut Vec<char>, s: &Vec<char>)
    ensures
        final(out)@ == old(out)@ + php_quote(s@),
{
    let ghost start = out@;
    out.push('\'');
    let mut i: usize = 0;
    while i < s.len()
        invariant
            i <= s@.len(),
            out@ == start + seq!['\''] + php_escape(s@.take(i as int)),
        decreases s@.len() - i,
    {
        let c = s[i];
        if c == '\\' {
            out.push('\\');
            out.push('\\');
        } else if c == '\'' {
            out.push('\\');
            out.push('\'');
        } else {
            out.push(c);
        }
        proof {
            let t = s@.take(i + 1);
            assert(t.drop_last() =~= s@.take(i as int));
            assert(t.last() == c);
        }
        i = i + 1;
        assert(out@ =~= start + seq!['\''] + php_escape(s@.take(i as int)));
    }
    assert(s@.take(s@.len() as int) =~= s@);
    out.push('\'');
    assert(out@ =~= start + php_quote(s@));
}

/// Appends the expression for `p` when it starts with the variable `var`.
fn push_var_expr(out: &mut Vec<char>, p: &Vec<char>, var: &Vec<char>) -> (ok: bool)
    ensures
        ok == var_expr(p@, var@) is Some,
        ok ==> final(out)@ == old(out)@ + var_expr(p@, var@)->0,
        !ok ==> final(out)@ == old(out)@,
{
    if !starts_with(p, var) {
        return false;
    }
    let n = var.len();
    if p.len() == n {
        assert(p@.skip(n as int).len() == 0);
        push_all(out, var);
        return true;
    }
    if p[n] != '/' {
        assert(p@.skip(n as int)[0] == p@[n as int]);
        return false;
    }
    let mut rest: Vec<char> = Vec::new();
    let mut i: usize = n;
    while i < p.len()
        invariant
            n <= i <= p@.len(),
            rest@ == p@.subrange(n as int, i as int),
        decreases p@.len() - i,
    {
        rest.push(p[i]);
        i = i + 1;
        assert(rest@ =~= p@.subrange(n as int, i as int));
    }
    assert(rest@ =~= p@.skip(n as int));
    push_all(out, var);
    push_str(out, " . ");
    push_quoted(out, &rest);
    assert(out@ =~= old(out)@ + (var@ + " . "@ + php_quote(rest@)));
    true
}

fn push_path_expr(out: &mut Vec<char>, p: &Vec<char>)
    ensures
        final(out)@ == old(out)@ + php_path_expr(p@),
{
    let vd = chars_of("$vendorDir");
    if push_var_expr(out, p, &vd) {
        return;
    }
    let bd = chars_of("$baseDir");
    if push_var_expr(out, p, &bd) {
        return;
    }
    push_quoted(out, p);
}

fn push_namespace_line(out: &mut Vec<char>, k: &String, dirs: &Vec<String>)
    ensures
        final(out)@ == old(out)@ + namespace_line(k@, strs(dirs@)),
{
    let ghost start = out@;
    push_str(out, "    ");
    push_quoted(out, &chars_of(k.as_str()));
    push_str(out, " => array(");
    let ghost mid = out@;
    let mut i: usize = 0;
    while i < dirs.len()
        invariant
            i <= dirs@.len(),
            out@ == mid + php_path_list(strs(dirs@.take(i as int))),
        decreases dirs@.len() - i,
    {
        if i > 0 {
            push_str(out, ", ");
        }
        push_path_expr(out, &chars_of(dirs[i].as_str()));
        proof {
            let t = strs(dirs@.take(i + 1));
            assert(t.drop_last() =~= strs(dirs@.take(i as int)));
            assert(t.last() == dirs@[i as int]@);
            if i == 0 {
                assert(strs(dirs@.take(0)) =~= Seq::<Seq<char>>::empty());
            }
        }
        i = i + 1;
        assert(out@ =~= mid + php_path_list(strs(dirs@.take(i as int))));
    }
    assert(dirs@.take(dirs@.len() as int) =~= dirs@);
    push_str(out, "),\n");
    assert(out@ =~= start + namespace_line(k@, strs(dirs@)));
}

fn render_namespaces(file: &str, m: &StrMap<Vec<String>>) -> (r: String)
    ensures
        r@ == php_header(file@) + namespace_lines(m.entries()) + php_footer(),
{
    let mut out: Vec<char> = Vec::new();
    push_str(&mut out, "<?php\n\n// ");
    push_str(&mut out, file);
    push_str(
        &mut out,
        "\n\n$vendorDir = dirname(__DIR__);\n$baseDir = dirname($vendorDir);\n\nreturn array(\n",
    );
    let ghost head = out@;
    assert(head =~= php_header(file@));
    let n = m.len();
    let mut i: usize = 0;
    while i < n
        invariant
            n == m.entries().len(),
            i <= n,
            out@ == head + namespace_lines(m.entries().take(i as int)),
        decreases n - i,
    {
        push_namespace_line(&mut out, m.key_at(i), m.value_at(i));
        proof {
            let t = m.entries().take(i + 1);
            assert(t.drop_last() =~= m.entries().take(i as int));
        }
        i = i + 1;
        assert(out@ =~= head + namespace_lines(m.entries().take(i as int)));
    }
    assert(m.entries().take(n as int) =~= m.entries());
    push_str(&mut out, ");\n");
    assert(out@ =~= php_header(file@) + namespace_lines(m.entries()) + php_footer());
    string_of(&out)
}

/// `vendor/composer/autoload_psr4.php`.
pub fn render_psr4_php(psr4: &StrMap<Vec<String>>) -> (r: String)
    ensures
        r@ == php_header("autoload_psr4.php"@) + namespace_lines(psr4.entries()) + php_footer(),
{
    render_namespaces("autoload_psr4.php", psr4)
}

/// `vendor/composer/autoload_namespaces.php` (PSR-0).
pub fn render_psr0_php(psr0: &StrMap<Vec<String>>) -> (r: String)
    ensures
        r@ == php_header("autoload_namespaces.php"@) + namespace_lines(psr0.entries())
            + php_footer(),
{
    render_namespaces("autoload_namespaces.php", psr0)
}

/// `vendor/composer/autoload_files.php`: each file keyed by its anchored path.
pub fn render_files_php(files: &Vec<String>) -> (r: String)
    ensures
        r@ == php_header("autoload_files.php"@) + files_lines(files@) + php_footer(),
{
    let mut out: Vec<char> = Vec::new();
    push_str(&mut out, "<?php\n\n// ");
    push_str(&mut out, "autoload_files.php");
    push_str(
        &mut out,
        "\n\n$vendorDir = dirname(__DIR__);\n$baseDir = dirname($vendorDir);\n\nreturn array(\n",
    );
    let ghost head = out@;
    assert(head =~= php_header("autoload_files.php"@));
    let mut i: usize = 0;
    while i < files.len()
        invariant
            i <= files@.len(),
            out@ == head + files_lines(files@.take(i as int)),
        decreases files@.len() - i,
    {
        let ghost before = out@;
        let c = chars_of(files[i].as_str());
        push_str(&mut out, "    ");
        push_quoted(&mut out, &c);
        push_str(&mut out, " => ");
        push_path_expr(&mut out, &c);
        push_str(&mut out, ",\n");
        proof {
            assert(out@ =~= before + path_line(files@[i as int]@, files@[i as int]@));
            let t = files@.take(i + 1);
            assert(t.drop_last() =~= files@.take(i as int));
        }
        i = i + 1;
        assert(out@ =~= head + files_lines(files@.take(i as int)));
    }
    assert(files@.take(files@.len() as int) =~= files@);
    push_str(&mut out, ");\n");
    assert(out@ =~= php_header("autoload_files.php"@) + files_lines(files@) + php_footer());
    string_of(&out)
}

/// `vendor/composer/autoload_classmap.php`: class name to anchored file.
pub fn render_classmap_php(cm: &StrMap<String>) -> (r: String)
    ensures
        r@ == php_header("autoload_classmap.php"@) + classmap_lines(cm.entries()) + php_footer(),
{
    let mut out: Vec<char> = Vec::new();
    push_str(&mut out, "<?php\n\n// ");
    push_str(&mut out, "autoload_classmap.php");
    push_str(
        &mut out,
        "\n\n$vendorDir = dirname(__DIR__);\n$baseDir = dirname($vendorDir);\n\nreturn array(\n",
    );
    let ghost head = out@;
    assert(head =~= php_header("autoload_classmap.php"@));
    let n = cm.len();
    let mut i: usize = 0;
    while i < n
        invariant
            n == cm.entries().len(),
            i <= n,
            out@ == head + classmap_lines(cm.entries().take(i as int)),
        decreases n - i,
    {
        let ghost before = out@;
        let k = chars_of(cm.key_at(i).as_str());
        let p = chars_of(cm.value_at(i).as_str());
        push_str(&mut out, "    ");
        push_quoted(&mut out, &k);
        push_str(&mut out, " => ");
        push_path_expr(&mut out, &p);
        push_str(&mut out, ",\n");
        proof {
            assert(out@ =~= before + path_line(cm.entries()[i as int].0@, cm.entries()[i as int].1@));
            let t = cm.entries().take(i + 1);
            assert(t.drop_last() =~= cm.entries().take(i as int));
        }
        i = i + 1;
        assert(out@ =~= head + classmap_lines(cm.entries().take(i as int)));
    }
    assert(cm.entries().take(n as int) =~= cm.entries());
    push_str(&mut out, ");\n");
    assert(out@ =~= php_header("autoload_classmap.php"@) + classmap_lines(cm.entries()) + php_footer());
    string_of(&out)
}


/// `es` is `ps`'s expressions laid out in `out` from `start` at the offsets
/// `offs`: each one in place, in order, one `, ` between two neighbours, and
/// the last one ending at `end`.
pub open spec fn joined_at(out: Seq<char>, ps: Seq<Seq<char>>, offs: Seq<int>, start: int, end: int) -> bool {
    &&& offs.len() == ps.len()
    &&& ps.len() == 0 ==> end == start
    &&& ps.len() > 0 ==> offs[0] == start && offs.last() + php_path_expr(ps.last()).len() == end
    &&& forall|i: int|
        #![trigger offs[i]]
        0 <= i < ps.len() ==> start <= offs[i] && offs[i] + php_path_expr(ps[i]).len() <= end
            && end <= out.len() && out.subrange(offs[i], offs[i] + php_path_expr(ps[i]).len())
            == php_path_expr(ps[i])
    &&& forall|i: int|
        #![trigger offs[i + 1]]
        0 <= i < ps.len() - 1 ==> offs[i + 1] == offs[i] + php_path_expr(ps[i]).len() + 2
            && out.subrange(offs[i] + php_path_expr(ps[i]).len(), offs[i + 1]) == ", "@
}

proof fn lemma_path_list_joined(ps: Seq<Seq<char>>) -> (offs: Seq<int>)
    ensures
        joined_at(php_path_list(ps), ps, offs, 0, php_path_list(ps).len() as int),
    decreases ps.len(),
{
    reveal_strlit(", ");
    let l = php_path_list(ps);
    if ps.len() == 0 {
        seq![]
    } else if ps.len() == 1 {
        assert(l.subrange(0, php_path_expr(ps[0]).len() as int) =~= php_path_expr(ps[0]));
        seq![0]
    } else {
        let pre = ps.drop_last();
        let o = lemma_path_list_joined(pre);
        let lp = php_path_list(pre);
        let e = php_path_expr(ps.last());
        assert(l == lp + ", "@ + e);
        let offs = o.push(lp.len() as int + 2);
        assert forall|i: int| #![trigger offs[i]] 0 <= i < ps.len() implies offs[i] >= 0 && offs[i]
            + php_path_expr(ps[i]).len() <= l.len() && l.subrange(
            offs[i],
            offs[i] + php_path_expr(ps[i]).len(),
        ) == php_path_expr(ps[i]) by {
            if i < pre.len() {
                assert(ps[i] == pre[i]);
                assert(o[i] == offs[i]);
                assert(l.subrange(offs[i], offs[i] + php_path_expr(ps[i]).len()) =~= lp.subrange(
                    o[i],
                    o[i] + php_path_expr(pre[i]).len(),
                ));
            } else {
                assert(l.subrange(offs[i], offs[i] + e.len()) =~= e);
            }
        }
        assert forall|i: int| #![trigger offs[i + 1]] 0 <= i < ps.len() - 1 implies offs[i + 1]
            == offs[i] + php_path_expr(ps[i]).len() + 2 && l.subrange(
            offs[i] + php_path_expr(ps[i]).len(),
            offs[i + 1],
        ) == ", "@ by {
            assert(ps[i] == pre[i]);
            assert(offs[i] == o[i]);
            if i + 1 < pre.len() {
                assert(offs[i + 1] == o[i + 1]);
                assert(l.subrange(offs[i] + php_path_expr(ps[i]).len(), offs[i + 1]) =~= lp.subrange(
                    o[i] + php_path_expr(pre[i]).len(),
                    o[i + 1],
                ));
            } else {
                assert(o.last() == o[i]);
                assert(pre.last() == pre[i]);
                assert(l.subrange(offs[i] + php_path_expr(ps[i]).len(), offs[i + 1]) =~= ", "@);
            }
        }
        offs
    }
}

/// Every directory of a namespace appears in its line, in order: the line is
/// `    'ns' => array(`, then the PHP expression of each directory, one `, `
/// between two of them, then `),\n`; so the array has exactly as many
/// elements as the namespace has directories.
pub proof fn lemma_namespace_line_lists_every_dir(k: Seq<char>, dirs: Seq<Seq<char>>) -> (offs: Seq<int>)
    ensures
        ({
            let line = namespace_line(k, dirs);
            let head = "    "@ + php_quote(k) + " => array("@;
            let end = line.len() - 3;
            &&& head.len() <= end
            &&& line.take(head.len() as int) == head
            &&& joined_at(line, dirs, offs, head.len() as int, end)
            &&& line.skip(end) == "),\n"@
        }),
{
    reveal_strlit("),\n");
    let l = php_path_list(dirs);
    let o = lemma_path_list_joined(dirs);
    let line = namespace_line(k, dirs);
    let head = "    "@ + php_quote(k) + " => array("@;
    let h = head.len() as int;
    assert(line == head + l + "),\n"@);
    let offs = o.map_values(|x: int| x + h);
    assert(line.take(h) =~= head);
    assert(line.skip(line.len() - 3) =~= "),\n"@);
    assert forall|i: int| #![trigger offs[i]] 0 <= i < dirs.len() implies h <= offs[i] && offs[i]
        + php_path_expr(dirs[i]).len() <= line.len() - 3 && line.len() - 3 <= line.len()
        && line.subrange(offs[i], offs[i] + php_path_expr(dirs[i]).len()) == php_path_expr(dirs[i]) by {
        assert(o[i] == o[i]);
        assert(line.subrange(offs[i], offs[i] + php_path_expr(dirs[i]).len()) =~= l.subrange(
            o[i],
            o[i] + php_path_expr(dirs[i]).len(),
        ));
    }
    assert forall|i: int| #![trigger offs[i + 1]] 0 <= i < dirs.len() - 1 implies offs[i + 1]
        == offs[i] + php_path_expr(dirs[i]).len() + 2 && line.subrange(
        offs[i] + php_path_expr(dirs[i]).len(),
        offs[i + 1],
    ) == ", "@ by {
        assert(o[i + 1] == o[i + 1]);
        assert(line.subrange(offs[i] + php_path_expr(dirs[i]).len(), offs[i + 1]) =~= l.subrange(
            o[i] + php_path_expr(dirs[i]).len(),
            o[i + 1],
        ));
    }
    if dirs.len() > 0 {
        assert(offs.last() == o.last() + h);
    }
    offs
}

/// A namespace file's body is one line per namespace, in map order, none
/// left out and none added.
pub proof fn lemma_namespace_lines_one_per_entry(es: Seq<(String, Vec<String>)>)
    ensures
        namespace_lines(es) == es.map_values(
            |e: (String, Vec<String>)| namespace_line(e.0@, strs(e.1@)),
        ).flatten(),
    decreases es.len(),
{
    let ls = es.map_values(|e: (String, Vec<String>)| namespace_line(e.0@, strs(e.1@)));
    if es.len() > 0 {
        lemma_namespace_lines_one_per_entry(es.drop_last());
        assert(ls.drop_last() =~= es.drop_last().map_values(
            |e: (String, Vec<String>)| namespace_line(e.0@, strs(e.1@)),
        ));
        ls.drop_last().lemma_flatten_and_flatten_alt_are_equivalent();
    }
    ls.lemma_flatten_and_flatten_alt_are_equivalent();
}

/// A classmap file's body is one line per class, in map order, none left
/// out and none added.
pub proof fn lemma_classmap_lines_one_per_entry(es: Seq<(String, String)>)
    ensures
        classmap_lines(es) == es.map_values(|e: (String, String)| path_line(e.0@, e.1@)).flatten(),
    decreases es.len(),
{
    let ls = es.map_values(|e: (String, String)| path_line(e.0@, e.1@));
    if es.len() > 0 {
        lemma_classmap_lines_one_per_entry(es.drop_last());
        assert(ls.drop_last() =~= es.drop_last().map_values(|e: (String, String)| path_line(e.0@, e.1@)));
        ls.drop_last().lemma_flatten_and_flatten_alt_are_equivalent();
    }
    ls.lemma_flatten_and_flatten_alt_are_equivalent();
}

/// A files file's body is one line per file, in order, each keyed by its own
/// path, none left out and none added.
pub proof fn lemma_files_lines_one_per_entry(fs: Seq<String>)
    ensures
        files_lines(fs) == fs.map_values(|f: String| path_line(f@, f@)).flatten(),
    decreases fs.len(),
{
    let ls = fs.map_values(|f: String| path_line(f@, f@));
    if fs.len() > 0 {
        lemma_files_lines_one_per_entry(fs.drop_last());
        assert(ls.drop_last() =~= fs.drop_last().map_values(|f: String| path_line(f@, f@)));
        ls.drop_last().lemma_flatten_and_flatten_alt_are_equivalent();
    }
    ls.lemma_flatten_and_flatten_alt_are_equivalent();
}
} // verus!
