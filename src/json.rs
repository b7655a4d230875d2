//! The calls into serde_json that the record and segment codecs make.
use vstd::prelude::*;

verus! {

/// The lower-case hexadecimal digit for `d < 16`.
pub open spec fn hex_digit(d: u32) -> char {
    if d < 10 {
        (48 + d) as char
    } else {
        (87 + d) as char
    }
}

/// How serde_json writes one character inside a JSON string: `"` and `\`
/// behind a backslash, the control characters below 0x20 as `\b`, `\t`,
/// `\n`, `\f`, `\r` or `\u00XX`, and every other character as it is.
pub open spec fn escaped_char(c: char) -> Seq<char> {
    if c == '"' {
        seq!['\\', '"']
    } else if c == '\\' {
        seq!['\\', '\\']
    } else if c == '\u{8}' {
        seq!['\\', 'b']
    } else if c == '\t' {
        seq!['\\', 't']
    } else if c == '\n' {
        seq!['\\', 'n']
    } else if c == '\u{c}' {
        seq!['\\', 'f']
    } else if c == '\r' {
        seq!['\\', 'r']
    } else if (c as u32) < 0x20 {
        seq!['\\', 'u', '0', '0', hex_digit((c as u32) / 16), hex_digit((c as u32) % 16)]
    } else {
        seq![c]
    }
}

/// The characters of `s`, each written as in [`escaped_char`].
pub open spec fn escaped(s: Seq<char>) -> Seq<char>
    decreases s.len(),
{
    if s.len() == 0 {
        Seq::empty()
    } else {
        escaped(s.drop_last()) + escaped_char(s.last())
    }
}

/// The JSON string literal that serde_json writes for the text `s`.
pub open spec fn json_quoted(s: Seq<char>) -> Seq<char> {
    seq!['"'] + escaped(s) + seq!['"']
}

/// What serde_json reads of the text field `name` of the JSON document
/// `doc`: `None` when `doc` is not one JSON value, `Some(None)` when the value
/// has no field `name` holding a string, else that string.
pub uninterp spec fn json_text_field(doc: Seq<u8>, name: Seq<char>) -> Option<Option<Seq<char>>>;

/// Whether serde_json finds in the JSON document `doc` a field `name` that
/// holds an integer it reads as a `u64`: `None` when `doc` is not one JSON
/// value.
pub uninterp spec fn json_u64_field(doc: Seq<u8>, name: Seq<char>) -> Option<bool>;

/// The string that serde_json reads from the JSON document `doc`, or `None`
/// when `doc` is not one JSON string.
pub uninterp spec fn json_text(doc: Seq<u8>) -> Option<Seq<char>>;

/// What serde_json's streaming reader finds at the start of `rest`: the
/// number of bytes up to the end of the first JSON value, `None` when only
/// whitespace is left, or an error flagged by whether the input ended early.
pub uninterp spec fn json_next_end(rest: Seq<u8>) -> std::result::Result<Option<nat>, bool>;

/// Relies on `serde_json::to_string` on a `str`: the JSON string literal for
/// `s`, escaped by serde_json's escape table. Writing a string into a
/// `Vec<u8>` does not fail.
#[verifier::external_body]
pub(crate) fn quote(s: &str) -> (r: std::result::Result<String, String>)
    ensures
        r is Ok,
        r is Ok ==> r->Ok_0@ == json_quoted(s@),
{
    match serde_json::to_string(s) {
        Ok(t) => Ok(t),
        Err(e) => Err(e.to_string()),
    }
}

/// Relies on `serde_json::from_slice` into a `serde_json::Value`, then
/// `Value::get` and `Value::as_str`: the string held by field `name` of the
/// document `doc`; a parse error is given as text.
#[verifier::external_body]
pub(crate) fn text_field(doc: &[u8], name: &str) -> (r: std::result::Result<Option<String>, String>)
    ensures
        match r {
            Ok(Some(s)) => json_text_field(doc@, name@) == Some(Some(s@)),
            Ok(None) => json_text_field(doc@, name@) == Some(None::<Seq<char>>),
            Err(_) => json_text_field(doc@, name@) is None,
        },
{
    match serde_json::from_slice::<serde_json::Value>(doc) {
        Ok(v) => Ok(v.get(name).and_then(serde_json::Value::as_str).map(String::from)),
        Err(e) => Err(e.to_string()),
    }
}

/// Relies on `serde_json::StreamDeserializer::next` and `byte_offset` over
/// `bytes[start..]`: how many bytes the first JSON value there takes, leading
/// whitespace included; `Error::is_eof` tells a value cut short by the end of
/// the input from any other error.
#[verifier::external_body]
pub(crate) fn next_value_end(bytes: &[u8], start: usize) -> (r: std::result::Result<Option<usize>, (bool, String)>)
    requires
        start <= bytes@.len(),
    ensures
        match r {
            Ok(Some(n)) => {
                &&& 0 < n <= bytes@.len() - start
                &&& json_next_end(bytes@.subrange(start as int, bytes@.len() as int)) == Ok::<Option<nat>, bool>(Some(n as nat))
            },
            Ok(None) => json_next_end(bytes@.subrange(start as int, bytes@.len() as int)) == Ok::<Option<nat>, bool>(None),
            Err((eof, _)) => json_next_end(bytes@.subrange(start as int, bytes@.len() as int)) == Err::<Option<nat>, bool>(eof),
        },
{
    let mut stream = serde_json::Deserializer::from_slice(&bytes[start..]).into_iter::<serde::de::IgnoredAny>();
    match stream.next() {
        None => Ok(None),
        Some(Ok(_)) => Ok(Some(stream.byte_offset())),
        Some(Err(e)) => Err((e.is_eof(), e.to_string())),
    }
}

/// Relies on `serde_json::from_slice` into a `String`: the string that the
/// JSON document `doc` holds; a parse error is given as text.
#[verifier::external_body]
pub(crate) fn text_value(doc: &[u8]) -> (r: std::result::Result<String, String>)
    ensures
        match r {
            Ok(s) => json_text(doc@) == Some(s@),
            Err(_) => json_text(doc@) is None,
        },
{
    match serde_json::from_slice::<String>(doc) {
        Ok(s) => Ok(s),
        Err(e) => Err(e.to_string()),
    }
}

/// Relies on `serde_json::from_slice` into a `serde_json::Value`, then
/// `Value::get` and `Value::is_u64`: whether the field `name` of the
/// document `doc` holds a non-negative integer that fits in a `u64`; a parse
/// error is given as text.
#[verifier::external_body]
pub(crate) fn u64_field(doc: &[u8], name: &str) -> (r: std::result::Result<bool, String>)
    ensures
        match r {
            Ok(b) => json_u64_field(doc@, name@) == Some(b),
            Err(_) => json_u64_field(doc@, name@) is None,
        },
{
    match serde_json::from_slice::<serde_json::Value>(doc) {
        Ok(v) => Ok(v.get(name).map_or(false, serde_json::Value::is_u64)),
        Err(e) => Err(e.to_string()),
    }
}

} // verus!
