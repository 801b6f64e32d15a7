//! JSON documents as plain values, read with `serde_json`.
use vstd::prelude::*;
use crate::strmap::lookup;

verus! {

/// `serde_json::Error`, carried through opaque.
#[verifier::external_type_specification]
#[verifier::external_body]
pub struct ExJsonError(serde_json::Error);

/// `serde_json::Value`, opaque; only the reader's conversion looks inside.
#[verifier::external_type_specification]
#[verifier::external_body]
pub struct ExJsonValue(serde_json::Value);

/// A JSON value. Objects keep the keys in the order `serde_json` yields them.
#[derive(Debug)]
pub enum Json {
    Null,
    Bool(bool),
    /// A number, in its `serde_json` decimal rendering.
    Number(String),
    Str(String),
    Array(Vec<Json>),
    Object(Vec<(String, Json)>),
}

/// The JSON value that `serde_json::from_str::<serde_json::Value>` reads from
/// a text, or `None` when the text is no JSON document.
pub uninterp spec fn json_document(text: Seq<char>) -> Option<Json>;

/// The JSON text of a non-empty object whose members are strings, each key
/// and value a JSON string literal: compact (`{"k":"v","k2":"v2"}`, as
/// `serde_json::to_vec` writes it) or pretty (`{`, then one member a line
/// indented by two spaces with `": "` after the key, then `}`, as
/// `serde_json::to_vec_pretty` writes it).
pub open spec fn string_object_text(ms: Seq<(Seq<char>, Seq<char>)>, pretty: bool) -> Seq<char> {
    if pretty {
        "{\n  "@ + string_members(ms, ",\n  "@, ": "@) + "\n}"@
    } else {
        "{"@ + string_members(ms, ","@, ":"@) + "}"@
    }
}

pub open spec fn string_members(
    ms: Seq<(Seq<char>, Seq<char>)>,
    sep: Seq<char>,
    colon: Seq<char>,
) -> Seq<char>
    decreases ms.len(),
{
    if ms.len() == 0 {
        seq![]
    } else if ms.len() == 1 {
        json_quote(ms[0].0) + colon + json_quote(ms[0].1)
    } else {
        string_members(ms.drop_last(), sep, colon) + sep + json_quote(ms.last().0) + colon
            + json_quote(ms.last().1)
    }
}

/// No key twice.
pub open spec fn distinct_keys(ms: Seq<(Seq<char>, Seq<char>)>) -> bool {
    forall|i: int, j: int| 0 <= i < j < ms.len() ==> #[trigger] ms[i].0 != #[trigger] ms[j].0
}

/// `serde_json::from_str::<serde_json::Value>`, each value carried over
/// variant for variant (numbers by their decimal rendering, objects as their
/// key/value pairs). The contract claims that the result is a function of the
/// text alone, and that it fails exactly when that function has no value.
/// It also claims that JSON's own string escapes read back: an object of
/// string members written as `string_object_text` (no key twice) reads as an
/// object holding each key with its string.
#[verifier::external_body]
pub fn json_from_str(text: &str) -> (r: Result<Json, serde_json::Error>)
    ensures
        r matches Ok(j) ==> json_document(text@) == Some(j),
        r is Err ==> json_document(text@) is None,
        forall|ms: Seq<(Seq<char>, Seq<char>)>, pretty: bool|
            #![trigger string_object_text(ms, pretty)]
            ms.len() > 0 && distinct_keys(ms) && text@ == string_object_text(ms, pretty) ==> (
            r matches Ok(Json::Object(es)) && forall|i: int|
                0 <= i < ms.len() ==> (lookup(es@, #[trigger] ms[i].0) matches Some(Json::Str(v))
                    && v@ == ms[i].1)),
{
    serde_json::from_str::<serde_json::Value>(text).map(json_of_value)
}

/// Carries a `serde_json::Value` over into `Json`, variant for variant.
#[verifier::external_body]
fn json_of_value(v: serde_json::Value) -> Json {
    match v {
        serde_json::Value::Null => Json::Null,
        serde_json::Value::Bool(b) => Json::Bool(b),
        serde_json::Value::Number(n) => Json::Number(n.to_string()),
        serde_json::Value::String(s) => Json::Str(s),
        serde_json::Value::Array(a) => Json::Array(a.into_iter().map(json_of_value).collect()),
        serde_json::Value::Object(o) => Json::Object(
            o.into_iter().map(|(k, x)| (k, json_of_value(x))).collect(),
        ),
    }
}

/// `<serde_json::Error as serde::de::Error>::custom`: a data error carrying
/// `msg`. Nothing is claimed of the value.
#[verifier::external_body]
pub fn json_error(msg: String) -> serde_json::Error {
    <serde_json::Error as serde::de::Error>::custom(msg)
}

// ----------------------------------------------------------------------------
// Writing JSON strings

pub open spec fn hex_nibble(n: u32) -> char {
    if n < 10 {
        ((n + 48) as u8) as char
    } else {
        ((n + 87) as u8) as char
    }
}

/// How one character is written inside a JSON string: `"` and `\` and the
/// control characters are escaped (the short forms where JSON has them,
/// `\u00XX` in lower-case hex otherwise); every other character stands as is.
pub open spec fn json_escape_char(c: char) -> Seq<char> {
    if c == '"' {
        seq!['\\', '"']
    } else if c == '\\' {
        seq!['\\', '\\']
    } else if c == '\n' {
        seq!['\\', 'n']
    } else if c == '\r' {
        seq!['\\', 'r']
    } else if c == '\t' {
        seq!['\\', 't']
    } else if c == '\x08' {
        seq!['\\', 'b']
    } else if c == '\x0c' {
        seq!['\\', 'f']
    } else if (c as u32) < 0x20 {
        seq!['\\', 'u', '0', '0', hex_nibble((c as u32) / 16), hex_nibble((c as u32) % 16)]
    } else {
        seq![c]
    }
}

pub open spec fn json_escape(s: Seq<char>) -> Seq<char>
    decreases s.len(),
{
    if s.len() == 0 {
        seq![]
    } else {
        json_escape(s.drop_last()) + json_escape_char(s.last())
    }
}

/// A JSON string literal holding `s`.
pub open spec fn json_quote(s: Seq<char>) -> Seq<char> {
    seq!['"'] + json_escape(s) + seq!['"']
}

fn nibble_exec(n: u32) -> (c: char)
    requires
        n < 16,
    ensures
        c == hex_nibble(n),
{
    if n < 10 {
        ((n + 48) as u8) as char
    } else {
        ((n + 87) as u8) as char
    }
}

fn escape_char_exec(out: &mut Vec<char>, c: char)
    ensures
        final(out)@ == old(out)@ + json_escape_char(c),
{
    let ghost before = out@;
    if c == '"' {
        out.push('\\');
        out.push('"');
    } else if c == '\\' {
        out.push('\\');
        out.push('\\');
    } else if c == '\n' {
        out.push('\\');
        out.push('n');
    } else if c == '\r' {
        out.push('\\');
        out.push('r');
    } else if c == '\t' {
        out.push('\\');
        out.push('t');
    } else if c == '\x08' {
        out.push('\\');
        out.push('b');
    } else if c == '\x0c' {
        out.push('\\');
        out.push('f');
    } else if (c as u32) < 0x20 {
        let n = c as u32;
        out.push('\\');
        out.push('u');
        out.push('0');
        out.push('0');
        out.push(nibble_exec(n / 16));
        out.push(nibble_exec(n % 16));
    } else {
        out.push(c);
    }
    assert(out@ =~= before + json_escape_char(c));
}

/// A JSON string literal holding `s`, escaped as `serde_json` writes it.
pub fn json_quote_exec(s: &str) -> (r: String)
    ensures
        r@ == json_quote(s@),
{
    let c = crate::text::chars_of(s);
    let mut out: Vec<char> = Vec::new();
    out.push('"');
    let mut i: usize = 0;
    while i < c.len()
        invariant
            i <= c@.len(),
            out@ == seq!['"'] + json_escape(c@.take(i as int)),
        decreases c@.len() - i,
    {
        let ghost before = out@;
        escape_char_exec(&mut out, c[i]);
        assert(c@.take(i + 1).drop_last() =~= c@.take(i as int));
        assert(c@.take(i + 1).last() == c@[i as int]);
        i = i + 1;
        assert(out@ =~= seq!['"'] + json_escape(c@.take(i as int)));
    }
    out.push('"');
    assert(c@.take(c@.len() as int) =~= c@);
    assert(out@ =~= json_quote(s@));
    crate::text::string_of(&out)
}

} // verus!
