//! A subset of the Redis serialization protocol (RESP), as used by the ping
//! demo: simple strings, errors, bulk strings and arrays.
use crate::error::KvsError;
use crate::json::{json_quoted, json_text, quote, text_value};
use crate::layout::{decimal_of, digits_value, is_digit, parse_decimal};
use crate::text::same_text;
use vstd::prelude::*;
use vstd::utf8::encode_utf8;

verus! {

/// A RESP value.
#[derive(Debug, PartialEq)]
pub enum RESP {
    SimpleString(String),
    Error(String),
    BulkString(String),
    Array(Vec<RESP>),
}

/// The mathematical value of a [`RESP`].
pub enum RespValue {
    Simple(Seq<char>),
    Error(Seq<char>),
    Bulk(Seq<char>),
    Array(Seq<RespValue>),
}

pub open spec fn resp_view(r: RESP) -> RespValue
    decreases r,
{
    match r {
        RESP::SimpleString(s) => RespValue::Simple(s@),
        RESP::Error(s) => RespValue::Error(s@),
        RESP::BulkString(s) => RespValue::Bulk(s@),
        RESP::Array(v) => RespValue::Array(resp_views(v@)),
    }
}

pub open spec fn resp_views(v: Seq<RESP>) -> Seq<RespValue>
    decreases v,
{
    if v.len() == 0 {
        Seq::empty()
    } else {
        seq![resp_view(v[0])] + resp_views(v.drop_first())
    }
}

proof fn lemma_views_index(v: Seq<RESP>)
    ensures
        resp_views(v).len() == v.len(),
        forall|i: int| 0 <= i < v.len() ==> resp_views(v)[i] == resp_view(#[trigger] v[i]),
    decreases v.len(),
{
    if v.len() > 0 {
        lemma_views_index(v.drop_first());
        assert forall|i: int| 0 <= i < v.len() implies resp_views(v)[i] == resp_view(#[trigger] v[i]) by {
            if i > 0 {
                assert(v.drop_first()[i - 1] == v[i]);
            }
        }
    }
}

/// The text of a decimal digit.
pub open spec fn digit_text(d: nat) -> Seq<char> {
    if d == 0 {
        "0"@
    } else if d == 1 {
        "1"@
    } else if d == 2 {
        "2"@
    } else if d == 3 {
        "3"@
    } else if d == 4 {
        "4"@
    } else if d == 5 {
        "5"@
    } else if d == 6 {
        "6"@
    } else if d == 7 {
        "7"@
    } else if d == 8 {
        "8"@
    } else {
        "9"@
    }
}

/// The decimal writing of `n`.
pub open spec fn decimal_text(n: nat) -> Seq<char>
    decreases n,
{
    if n < 10 {
        digit_text(n)
    } else {
        decimal_text(n / 10) + digit_text(n % 10)
    }
}

/// The wire text of a RESP value.
pub open spec fn resp_text(v: RespValue) -> Seq<char>
    decreases v,
{
    match v {
        RespValue::Simple(s) => "+"@ + s + "\r\n"@,
        RespValue::Error(s) => "-"@ + s + "\r\n"@,
        RespValue::Bulk(s) => "$"@ + decimal_text(encode_utf8(s).len()) + "\r\n"@ + s + "\r\n"@,
        RespValue::Array(items) => "*"@ + decimal_text(items.len()) + "\r\n"@ + items_text(items),
    }
}

/// The wire texts of `items`, one after the other.
pub open spec fn items_text(items: Seq<RespValue>) -> Seq<char>
    decreases items,
{
    if items.len() == 0 {
        Seq::empty()
    } else {
        items_text(items.drop_last()) + resp_text(items.last())
    }
}

fn digit_str(d: u64) -> (r: &'static str)
    requires
        d < 10,
    ensures
        r@ == digit_text(d as nat),
{
    if d == 0 {
        "0"
    } else if d == 1 {
        "1"
    } else if d == 2 {
        "2"
    } else if d == 3 {
        "3"
    } else if d == 4 {
        "4"
    } else if d == 5 {
        "5"
    } else if d == 6 {
        "6"
    } else if d == 7 {
        "7"
    } else if d == 8 {
        "8"
    } else {
        "9"
    }
}

fn append_decimal(out: &mut String, n: u64)
    ensures
        final(out)@ == old(out)@ + decimal_text(n as nat),
    decreases n,
{
    if n >= 10 {
        append_decimal(out, n / 10);
    }
    out.append(digit_str(n % 10));
    assert(final(out)@ =~= old(out)@ + decimal_text(n as nat));
}

impl RESP {
    /// The wire text of this value.
    pub fn serialize(&self) -> (r: String)
        ensures
            r@ == resp_text(resp_view(*self)),
        decreases self,
    {
        match self {
            RESP::SimpleString(s) => {
                let mut out = "+".to_owned();
                out.append(s.as_str());
                out.append("\r\n");
                assert(out@ =~= "+"@ + s@ + "\r\n"@);
                out
            },
            RESP::Error(s) => {
                let mut out = "-".to_owned();
                out.append(s.as_str());
                out.append("\r\n");
                assert(out@ =~= "-"@ + s@ + "\r\n"@);
                out
            },
            RESP::BulkString(s) => {
                let mut out = "$".to_owned();
                append_decimal(&mut out, s.as_str().as_bytes().len() as u64);
                out.append("\r\n");
                out.append(s.as_str());
                out.append("\r\n");
                assert(out@ =~= "$"@ + decimal_text(encode_utf8(s@).len()) + "\r\n"@ + s@ + "\r\n"@);
                out
            },
            RESP::Array(v) => {
                let mut out = "*".to_owned();
                append_decimal(&mut out, v.len() as u64);
                out.append("\r\n");
                let ghost head = out@;
                let ghost views = resp_views(v@);
                proof {
                    lemma_views_index(v@);
                }
                let mut i: usize = 0;
                while i < v.len()
                    invariant
                        i <= v@.len(),
                        *self == RESP::Array(*v),
                        views == resp_views(v@),
                        views.len() == v@.len(),
                        forall|j: int| 0 <= j < v@.len() ==> views[j] == resp_view(#[trigger] v@[j]),
                        out@ == head + items_text(views.take(i as int)),
                    decreases v@.len() - i,
                {
                    proof {
                        broadcast use vstd::std_specs::vec::axiom_vec_index_decreases;
                        assert(decreases_to!(*v => v[i as int]));
                        assert(decreases_to!(*self => (*self)->Array_0));
                    }
                    let item = v[i].serialize();
                    out.append(item.as_str());
                    assert(views.take(i + 1).drop_last() =~= views.take(i as int));
                    i += 1;
                }
                assert(views.take(i as int) =~= views);
                out
            },
        }
    }
}

/// Whether `c` has the Unicode `White_Space` property.
pub open spec fn is_white_space(c: char) -> bool {
    c == ' ' || ('\t' <= c <= '\r') || c == '\u{85}' || c == '\u{a0}' || c == '\u{1680}' || ('\u{2000}' <= c
        <= '\u{200a}') || c == '\u{2028}' || c == '\u{2029}' || c == '\u{202f}' || c == '\u{205f}' || c
        == '\u{3000}'
}

fn white_space(c: char) -> (r: bool)
    ensures
        r == is_white_space(c),
{
    c == ' ' || ('\t' <= c && c <= '\r') || c == '\u{85}' || c == '\u{a0}' || c == '\u{1680}' || ('\u{2000}'
        <= c && c <= '\u{200a}') || c == '\u{2028}' || c == '\u{2029}' || c == '\u{202f}' || c == '\u{205f}'
        || c == '\u{3000}'
}

/// The words of `s` from position `i` on, the current word having started
/// at `start`: the maximal runs of characters without white space.
pub open spec fn words_from(s: Seq<char>, i: int, start: Option<int>) -> Seq<Seq<char>>
    decreases s.len() - i,
{
    if i < 0 || i >= s.len() {
        match start {
            Some(a) => seq![s.subrange(a, s.len() as int)],
            None => Seq::empty(),
        }
    } else if is_white_space(s[i]) {
        match start {
            Some(a) => seq![s.subrange(a, i)] + words_from(s, i + 1, None),
            None => words_from(s, i + 1, None),
        }
    } else {
        words_from(
            s,
            i + 1,
            match start {
                Some(a) => Some(a),
                None => Some(i),
            },
        )
    }
}

/// The words of `s`, split at white space.
pub open spec fn words(s: Seq<char>) -> Seq<Seq<char>> {
    words_from(s, 0, None)
}

pub open spec fn texts(v: Seq<String>) -> Seq<Seq<char>> {
    v.map_values(|w: String| w@)
}

pub open spec fn opt_int(o: Option<usize>) -> Option<int> {
    match o {
        Some(a) => Some(a as int),
        None => None,
    }
}

/// Splits `s` into its words.
pub fn split_words(s: &str) -> (r: Vec<String>)
    ensures
        texts(r@) == words(s@),
{
    let n = s.unicode_len();
    let mut out: Vec<String> = Vec::new();
    let mut start: Option<usize> = None;
    let mut i: usize = 0;
    while i < n
        invariant
            i <= n,
            n == s@.len(),
            start matches Some(a) ==> a < i,
            words(s@) == texts(out@) + words_from(s@, i as int, opt_int(start)),
        decreases n - i,
    {
        let c = s.get_char(i);
        let ghost before = out@;
        if white_space(c) {
            if let Some(a) = start {
                let w = s.substring_char(a, i).to_owned();
                out.push(w);
                assert(texts(out@) =~= texts(before).push(s@.subrange(a as int, i as int)));
                assert(texts(out@) + words_from(s@, i + 1, None) =~= texts(before) + (seq![
                    s@.subrange(a as int, i as int),
                ] + words_from(s@, i + 1, None)));
            }
            start = None;
        } else if start.is_none() {
            start = Some(i);
        }
        i += 1;
    }
    let ghost before = out@;
    if let Some(a) = start {
        out.push(s.substring_char(a, n).to_owned());
        assert(texts(out@) =~= texts(before) + seq![s@.subrange(a as int, n as int)]);
    } else {
        assert(texts(out@) =~= texts(before) + Seq::<Seq<char>>::empty());
    }
    out
}

/// The value that starts at word `pos` of `t`, and the position after it:
/// `+text`, `-text`, `$n` followed by a word of `n` bytes, or `*n` followed
/// by `n` values.
pub open spec fn parse_value(t: Seq<Seq<char>>, pos: int) -> Option<(RespValue, int)>
    decreases t.len() - pos, 1int, 0int,
{
    if pos < 0 || pos >= t.len() || t[pos].len() == 0 {
        None
    } else {
        let cmd = t[pos];
        if cmd[0] == '+' {
            Some((RespValue::Simple(cmd.drop_first()), pos + 1))
        } else if cmd[0] == '-' {
            Some((RespValue::Error(cmd.drop_first()), pos + 1))
        } else if cmd[0] == '$' {
            match decimal_of(cmd.drop_first()) {
                Some(n) => if pos + 1 < t.len() && encode_utf8(t[pos + 1]).len() == n {
                    Some((RespValue::Bulk(t[pos + 1]), pos + 2))
                } else {
                    None
                },
                None => None,
            }
        } else if cmd[0] == '*' {
            match decimal_of(cmd.drop_first()) {
                Some(n) => match parse_items(t, pos + 1, n as nat) {
                    Some((items, q)) => Some((RespValue::Array(items), q)),
                    None => None,
                },
                None => None,
            }
        } else {
            None
        }
    }
}

/// The `n` values that start at word `pos` of `t`, and the position after
/// them.
pub open spec fn parse_items(t: Seq<Seq<char>>, pos: int, n: nat) -> Option<(Seq<RespValue>, int)>
    decreases t.len() - pos, 2int, n,
{
    if pos < 0 || pos > t.len() {
        None
    } else if n == 0 {
        Some((Seq::empty(), pos))
    } else {
        match parse_value(t, pos) {
            Some((v, q)) => if pos < q <= t.len() {
                match parse_items(t, q, (n - 1) as nat) {
                    Some((rest, e)) => Some((seq![v] + rest, e)),
                    None => None,
                }
            } else {
                None
            },
            None => None,
        }
    }
}

proof fn lemma_parse_value_advances(t: Seq<Seq<char>>, pos: int)
    ensures
        parse_value(t, pos) matches Some((_, q)) ==> pos < q <= t.len(),
    decreases t.len() - pos, 1int, 0int,
{
    if 0 <= pos < t.len() && t[pos].len() > 0 && t[pos][0] == '*' {
        if let Some(n) = decimal_of(t[pos].drop_first()) {
            lemma_parse_items_advances(t, pos + 1, n as nat);
        }
    }
}

proof fn lemma_parse_items_advances(t: Seq<Seq<char>>, pos: int, n: nat)
    ensures
        parse_items(t, pos, n) matches Some((_, q)) ==> pos <= q <= t.len(),
    decreases t.len() - pos, 2int, n,
{
    if 0 <= pos <= t.len() && n > 0 {
        lemma_parse_value_advances(t, pos);
        if let Some((v, q)) = parse_value(t, pos) {
            if pos < q <= t.len() {
                lemma_parse_items_advances(t, q, (n - 1) as nat);
            }
        }
    }
}

fn first_char_is(w: &str, c: char) -> (r: bool)
    ensures
        r == (w@.len() > 0 && w@[0] == c),
{
    w.unicode_len() > 0 && w.get_char(0) == c
}

fn parse_at(t: &Vec<String>, pos: usize) -> (r: Result<(RESP, usize), KvsError>)
    requires
        pos <= t@.len(),
    ensures
        match parse_value(texts(t@), pos as int) {
            Some((v, q)) => r matches Ok((x, p)) && resp_view(x) == v && p == q,
            None => r is Err,
        },
    decreases t@.len() - pos, 1usize, 0usize,
{
    let ghost ts = texts(t@);
    if pos >= t.len() {
        return Err(KvsError::Other { message: "invalid command".to_owned() });
    }
    let cmd = t[pos].as_str();
    assert(cmd@ == ts[pos as int]);
    let len = cmd.unicode_len();
    if len == 0 {
        return Err(KvsError::Other { message: "invalid command".to_owned() });
    }
    let rest = cmd.substring_char(1, len);
    assert(rest@ =~= cmd@.drop_first());
    if first_char_is(cmd, '+') {
        Ok((RESP::SimpleString(rest.to_owned()), pos + 1))
    } else if first_char_is(cmd, '-') {
        Ok((RESP::Error(rest.to_owned()), pos + 1))
    } else if first_char_is(cmd, '$') {
        match parse_decimal(cmd, 1, len) {
            Some(n) => {
                if pos + 1 < t.len() && t[pos + 1].as_str().as_bytes().len() as u64 == n {
                    assert(t@[pos + 1]@ == ts[pos + 1]);
                    Ok((RESP::BulkString(t[pos + 1].clone()), pos + 2))
                } else {
                    Err(KvsError::Other { message: "invalid command".to_owned() })
                }
            },
            None => Err(KvsError::Other { message: "invalid command".to_owned() }),
        }
    } else if first_char_is(cmd, '*') {
        match parse_decimal(cmd, 1, len) {
            Some(n) => match parse_items_at(t, pos + 1, n) {
                Ok((items, q)) => Ok((RESP::Array(items), q)),
                Err(e) => Err(e),
            },
            None => Err(KvsError::Other { message: "invalid command".to_owned() }),
        }
    } else {
        Err(KvsError::Other { message: "invalid command".to_owned() })
    }
}

fn parse_items_at(t: &Vec<String>, pos: usize, n: u64) -> (r: Result<(Vec<RESP>, usize), KvsError>)
    requires
        pos <= t@.len(),
    ensures
        match parse_items(texts(t@), pos as int, n as nat) {
            Some((vs, q)) => r matches Ok((x, p)) && resp_views(x@) == vs && p == q,
            None => r is Err,
        },
    decreases t@.len() - pos, 2usize, n,
{
    if n == 0 {
        let v: Vec<RESP> = Vec::new();
        assert(resp_views(v@) =~= Seq::<RespValue>::empty());
        return Ok((v, pos));
    }
    proof {
        lemma_parse_value_advances(texts(t@), pos as int);
    }
    match parse_at(t, pos) {
        Ok((first, q)) => {
            if q <= pos || q > t.len() {
                return Err(KvsError::Other { message: "invalid command".to_owned() });
            }
            match parse_items_at(t, q, n - 1) {
                Ok((mut rest, e)) => {
                    let ghost tail = rest@;
                    rest.insert(0, first);
                    assert(rest@.drop_first() =~= tail);
                    Ok((rest, e))
                },
                Err(e) => Err(e),
            }
        },
        Err(e) => Err(e),
    }
}

impl RESP {
    /// Reads the value written at the start of `s`: its words, split at white
    /// space, are read as in [`parse_value`]; words after the value are
    /// ignored.
    pub fn deserialize(s: &str) -> (r: Result<RESP, KvsError>)
        ensures
            match parse_value(words(s@), 0) {
                Some((v, _)) => r matches Ok(x) && resp_view(x) == v,
                None => r is Err,
            },
    {
        let t = split_words(s);
        match parse_at(&t, 0) {
            Ok((x, _)) => Ok(x),
            Err(e) => Err(e),
        }
    }
}

/// The reply of the ping server to a request: `PONG` to `PING`, the
/// argument to `PING arg`, and an error to anything else.
pub open spec fn ping_reply(v: RespValue) -> RespValue {
    match v {
        RespValue::Array(a) => if a.len() == 1 && a[0] == RespValue::Bulk("PING"@) {
            RespValue::Simple("PONG"@)
        } else if a.len() == 2 && a[0] == RespValue::Bulk("PING"@) {
            a[1]
        } else {
            RespValue::Error("ERR unknown command"@)
        },
        _ => RespValue::Error("ERR wrong number of arguments for 'ping' command"@),
    }
}

fn is_bulk_text(r: &RESP, text: &str) -> (b: bool)
    ensures
        b == (resp_view(*r) == RespValue::Bulk(text@)),
{
    match r {
        RESP::BulkString(s) => same_text(s.as_str(), text),
        _ => false,
    }
}

impl RESP {
    /// A copy of this value.
    pub fn copy(&self) -> (r: RESP)
        ensures
            resp_view(r) == resp_view(*self),
        decreases self,
    {
        match self {
            RESP::SimpleString(s) => RESP::SimpleString(s.clone()),
            RESP::Error(s) => RESP::Error(s.clone()),
            RESP::BulkString(s) => RESP::BulkString(s.clone()),
            RESP::Array(v) => {
                let mut out: Vec<RESP> = Vec::new();
                let mut i: usize = 0;
                proof {
                    lemma_views_index(v@);
                }
                while i < v.len()
                    invariant
                        *self == RESP::Array(*v),
                        i <= v@.len(),
                        out@.len() == i,
                        forall|j: int| 0 <= j < i ==> resp_view(#[trigger] out@[j]) == resp_view(v@[j]),
                    decreases v@.len() - i,
                {
                    proof {
                        broadcast use vstd::std_specs::vec::axiom_vec_index_decreases;
                        assert(decreases_to!(*self => (*self)->Array_0));
                    }
                    out.push(v[i].copy());
                    i += 1;
                }
                proof {
                    lemma_views_index(out@);
                    lemma_views_index(v@);
                    assert forall|j: int| 0 <= j < out@.len() implies resp_views(out@)[j] == resp_views(v@)[j] by {
                        assert(resp_view(out@[j]) == resp_view(v@[j]));
                    }
                    assert(resp_views(out@) =~= resp_views(v@));
                }
                RESP::Array(out)
            },
        }
    }
}

/// The ping server's reply to `request` (see [`ping_reply`]).
pub fn ping(request: &RESP) -> (r: RESP)
    ensures
        resp_view(r) == ping_reply(resp_view(*request)),
{
    match request {
        RESP::Array(a) => {
            proof {
                lemma_views_index(a@);
            }
            if a.len() == 1 && is_bulk_text(&a[0], "PING") {
                RESP::SimpleString("PONG".to_owned())
            } else if a.len() == 2 && is_bulk_text(&a[0], "PING") {
                a[1].copy()
            } else {
                RESP::Error("ERR unknown command".to_owned())
            }
        },
        _ => RESP::Error("ERR wrong number of arguments for 'ping' command".to_owned()),
    }
}

/// Answers a request of the ping server: `input` is a JSON string that holds
/// the RESP text of the request. Fails when it is not one.
pub fn handler(input: &[u8]) -> (r: Result<RESP, KvsError>)
    ensures
        match json_text(input@) {
            Some(t) => match parse_value(words(t), 0) {
                Some((v, _)) => r matches Ok(x) && resp_view(x) == ping_reply(v),
                None => r is Err,
            },
            None => r is Err,
        },
{
    let text = match text_value(input) {
        Ok(t) => t,
        Err(message) => return Err(KvsError::Serde { message }),
    };
    match RESP::deserialize(text.as_str()) {
        Ok(request) => Ok(ping(&request)),
        Err(e) => Err(e),
    }
}

/// `s` without the quotes at its start.
pub open spec fn trim_start_quotes(s: Seq<char>) -> Seq<char>
    decreases s.len(),
{
    if s.len() > 0 && s[0] == '"' {
        trim_start_quotes(s.drop_first())
    } else {
        s
    }
}

/// `s` without the quotes at its end.
pub open spec fn trim_end_quotes(s: Seq<char>) -> Seq<char>
    decreases s.len(),
{
    if s.len() > 0 && s.last() == '"' {
        trim_end_quotes(s.drop_last())
    } else {
        s
    }
}

fn trim_quotes(s: &str) -> (r: String)
    ensures
        r@ == trim_end_quotes(trim_start_quotes(s@)),
{
    let n = s.unicode_len();
    let mut a: usize = 0;
    assert(s@.subrange(0, n as int) =~= s@);
    while a < n && s.get_char(a) == '"'
        invariant
            a <= n,
            n == s@.len(),
            trim_start_quotes(s@) == trim_start_quotes(s@.subrange(a as int, n as int)),
        decreases n - a,
    {
        assert(s@.subrange(a as int, n as int).drop_first() =~= s@.subrange(a + 1, n as int));
        a += 1;
    }
    let mut b: usize = n;
    while b > a && s.get_char(b - 1) == '"'
        invariant
            a <= b <= n,
            n == s@.len(),
            trim_start_quotes(s@) == s@.subrange(a as int, n as int),
            trim_end_quotes(s@.subrange(a as int, n as int)) == trim_end_quotes(s@.subrange(a as int, b as int)),
        decreases b - a,
    {
        assert(s@.subrange(a as int, b as int).drop_last() =~= s@.subrange(a as int, b - 1));
        b -= 1;
    }
    s.substring_char(a, b).to_owned()
}

/// The request that the ping client sends for a line typed by its user: the
/// words of the line as an array of bulk strings, in RESP text, as the JSON
/// string writer escapes it, without its quotes.
pub fn encode_input(input: &str) -> (r: Result<String, KvsError>)
    ensures
        r is Ok,
        r is Ok ==> r->Ok_0@ == trim_end_quotes(
            trim_start_quotes(
                json_quoted(resp_text(RespValue::Array(words(input@).map_values(|w: Seq<char>| RespValue::Bulk(w))))),
            ),
        ),
{
    let words = split_words(input);
    let mut items: Vec<RESP> = Vec::new();
    let mut i: usize = 0;
    while i < words.len()
        invariant
            i <= words@.len(),
            items@.len() == i,
            forall|j: int| 0 <= j < i ==> resp_view(#[trigger] items@[j]) == RespValue::Bulk(words@[j]@),
        decreases words@.len() - i,
    {
        items.push(RESP::BulkString(words[i].clone()));
        i += 1;
    }
    proof {
        lemma_views_index(items@);
        let target = texts(words@).map_values(|w: Seq<char>| RespValue::Bulk(w));
        assert forall|j: int| 0 <= j < items@.len() implies resp_views(items@)[j] == target[j] by {
            assert(resp_view(items@[j]) == RespValue::Bulk(words@[j]@));
        }
        assert(resp_views(items@) =~= target);
    }
    let request = RESP::Array(items);
    let text = request.serialize();
    match quote(text.as_str()) {
        Ok(q) => Ok(trim_quotes(q.as_str())),
        Err(message) => Err(KvsError::Serde { message }),
    }
}

/// The words of a value's wire text: one word per header (`+text`, `-text`,
/// `$n`, `*n`) and one per bulk string.
pub open spec fn resp_words(v: RespValue) -> Seq<Seq<char>>
    decreases v,
{
    match v {
        RespValue::Simple(s) => seq![seq!['+'] + s],
        RespValue::Error(s) => seq![seq!['-'] + s],
        RespValue::Bulk(s) => seq![seq!['$'] + decimal_text(encode_utf8(s).len()), s],
        RespValue::Array(items) => seq![seq!['*'] + decimal_text(items.len())] + items_words(items),
    }
}

/// The words of `items`, one value after the other.
pub open spec fn items_words(items: Seq<RespValue>) -> Seq<Seq<char>>
    decreases items,
{
    if items.len() == 0 {
        Seq::empty()
    } else {
        resp_words(items[0]) + items_words(items.drop_first())
    }
}

/// Whether every length that `v` writes fits in a `u64`, the widest length
/// the reader takes.
pub open spec fn resp_fits(v: RespValue) -> bool
    decreases v,
{
    match v {
        RespValue::Bulk(s) => encode_utf8(s).len() <= u64::MAX,
        RespValue::Array(items) => items.len() <= u64::MAX && items_fit(items),
        _ => true,
    }
}

pub open spec fn items_fit(items: Seq<RespValue>) -> bool
    decreases items,
{
    if items.len() == 0 {
        true
    } else {
        resp_fits(items[0]) && items_fit(items.drop_first())
    }
}

proof fn lemma_digit_text(d: nat)
    requires
        d < 10,
    ensures
        digit_text(d).len() == 1,
        digit_text(d)[0] as nat == '0' as nat + d,
        is_digit(digit_text(d)[0]),
{
    reveal_strlit("0");
    reveal_strlit("1");
    reveal_strlit("2");
    reveal_strlit("3");
    reveal_strlit("4");
    reveal_strlit("5");
    reveal_strlit("6");
    reveal_strlit("7");
    reveal_strlit("8");
    reveal_strlit("9");
}

proof fn lemma_decimal_text(n: nat)
    ensures
        decimal_text(n).len() > 0,
        forall|i: int| 0 <= i < decimal_text(n).len() ==> is_digit(#[trigger] decimal_text(n)[i]),
        digits_value(decimal_text(n)) == n,
    decreases n,
{
    let t = decimal_text(n);
    if n < 10 {
        lemma_digit_text(n);
        assert(t.drop_last() =~= Seq::<char>::empty());
        assert(digits_value(Seq::<char>::empty()) == 0);
        assert(is_digit(t[0]));
    } else {
        lemma_decimal_text(n / 10);
        lemma_digit_text(n % 10);
        assert(t.drop_last() =~= decimal_text(n / 10));
        assert(t.last() == digit_text(n % 10)[0]);
        assert(digits_value(t) == digits_value(decimal_text(n / 10)) * 10 + (n % 10));
        assert(n == (n / 10) * 10 + (n % 10)) by (nonlinear_arith)
            requires
                n >= 10,
        ;
        assert forall|i: int| 0 <= i < t.len() implies is_digit(#[trigger] t[i]) by {
            if i < t.len() - 1 {
                assert(t[i] == decimal_text(n / 10)[i]);
            } else {
                assert(t[i] == digit_text(n % 10)[0]);
            }
        }
    }
}

/// Reading the words of a value back gives the value, wherever the words
/// stand among others: the reader and [`resp_words`] agree.
pub proof fn lemma_parse_resp_words(v: RespValue, t: Seq<Seq<char>>, pos: int)
    requires
        resp_fits(v),
        0 <= pos,
        pos + resp_words(v).len() <= t.len(),
        t.subrange(pos, pos + resp_words(v).len()) == resp_words(v),
    ensures
        parse_value(t, pos) == Some((v, pos + resp_words(v).len())),
    decreases v, 0int,
{
    let w = resp_words(v);
    assert(t[pos] == w[0]);
    match v {
        RespValue::Simple(s) => {
            assert((seq!['+'] + s).drop_first() =~= s);
        },
        RespValue::Error(s) => {
            assert((seq!['-'] + s).drop_first() =~= s);
        },
        RespValue::Bulk(s) => {
            lemma_decimal_text(encode_utf8(s).len());
            assert((seq!['$'] + decimal_text(encode_utf8(s).len())).drop_first() =~= decimal_text(
                encode_utf8(s).len(),
            ));
            assert(t[pos + 1] == w[1]);
        },
        RespValue::Array(items) => {
            lemma_decimal_text(items.len());
            assert((seq!['*'] + decimal_text(items.len())).drop_first() =~= decimal_text(items.len()));
            let iw = items_words(items);
            assert(t.subrange(pos + 1, pos + 1 + iw.len()) =~= t.subrange(pos, pos + w.len()).subrange(
                1,
                w.len() as int,
            ));
            assert(w.subrange(1, w.len() as int) =~= iw);
            lemma_parse_items_words(items, t, pos + 1);
        },
    }
}

/// Reading `items.len()` values over the words of `items` gives them back.
pub proof fn lemma_parse_items_words(items: Seq<RespValue>, t: Seq<Seq<char>>, pos: int)
    requires
        items_fit(items),
        0 <= pos,
        pos + items_words(items).len() <= t.len(),
        t.subrange(pos, pos + items_words(items).len()) == items_words(items),
    ensures
        parse_items(t, pos, items.len()) == Some((items, pos + items_words(items).len())),
    decreases items, 1int,
{
    if items.len() > 0 {
        let first = resp_words(items[0]);
        let rest = items_words(items.drop_first());
        assert(items_words(items) == first + rest);
        assert(t.subrange(pos, pos + first.len()) =~= t.subrange(pos, pos + items_words(items).len()).subrange(
            0,
            first.len() as int,
        ));
        assert(first.len() > 0);
        assert((first + rest).subrange(0, first.len() as int) =~= first);
        lemma_parse_resp_words(items[0], t, pos);
        let q = pos + first.len();
        assert(t.subrange(q, q + rest.len()) =~= t.subrange(pos, pos + items_words(items).len()).subrange(
            first.len() as int,
            (first.len() + rest.len()) as int,
        ));
        assert((first + rest).subrange(first.len() as int, (first.len() + rest.len()) as int) =~= rest);
        lemma_parse_items_words(items.drop_first(), t, q);
        assert(seq![items[0]] + items.drop_first() =~= items);
    } else {
        assert(items =~= Seq::<RespValue>::empty());
    }
}

/// Whether no character of `s` is white space.
pub open spec fn no_white_space(s: Seq<char>) -> bool {
    forall|i: int| 0 <= i < s.len() ==> !is_white_space(#[trigger] s[i])
}

/// Whether every string of `v` is free of white space, and no bulk string
/// is empty: the values whose wire text splits into [`resp_words`].
pub open spec fn resp_plain(v: RespValue) -> bool
    decreases v,
{
    match v {
        RespValue::Simple(s) => no_white_space(s),
        RespValue::Error(s) => no_white_space(s),
        RespValue::Bulk(s) => no_white_space(s) && s.len() > 0,
        RespValue::Array(items) => items_plain(items),
    }
}

pub open spec fn items_plain(items: Seq<RespValue>) -> bool
    decreases items,
{
    if items.len() == 0 {
        true
    } else {
        resp_plain(items[0]) && items_plain(items.drop_first())
    }
}

proof fn lemma_words_shift(p: Seq<char>, q: Seq<char>, j: int, st: Option<int>)
    requires
        0 <= j <= q.len(),
        st matches Some(x) ==> 0 <= x <= j,
    ensures
        words_from(
            p + q,
            p.len() + j,
            match st {
                Some(x) => Some(p.len() + x),
                None => None,
            },
        ) == words_from(q, j, st),
    decreases q.len() - j,
{
    let s = p + q;
    if j == q.len() {
        if let Some(x) = st {
            assert(s.subrange(p.len() + x, s.len() as int) =~= q.subrange(x, q.len() as int));
        }
    } else {
        assert(s[p.len() + j] == q[j]);
        if is_white_space(q[j]) {
            lemma_words_shift(p, q, j + 1, None);
            if let Some(x) = st {
                assert(s.subrange(p.len() + x, p.len() + j) =~= q.subrange(x, j));
            }
        } else {
            let nst = match st {
                Some(x) => Some(x),
                None => Some(j),
            };
            lemma_words_shift(p, q, j + 1, nst);
        }
    }
}

proof fn lemma_words_concat_from(a: Seq<char>, b: Seq<char>, i: int, st: Option<int>)
    requires
        a.len() > 0,
        is_white_space(a.last()),
        0 <= i <= a.len(),
        st matches Some(x) ==> 0 <= x <= i,
        i == a.len() ==> st is None,
    ensures
        words_from(a + b, i, st) == words_from(a, i, st) + words(b),
    decreases a.len() - i,
{
    let s = a + b;
    if i == a.len() {
        lemma_words_shift(a, b, 0, None);
        assert(words_from(a, i, st) =~= Seq::<Seq<char>>::empty());
        assert(Seq::<Seq<char>>::empty() + words(b) =~= words(b));
    } else {
        assert(s[i] == a[i]);
        if is_white_space(a[i]) {
            lemma_words_concat_from(a, b, i + 1, None);
            if let Some(x) = st {
                assert(s.subrange(x, i) =~= a.subrange(x, i));
                assert(seq![a.subrange(x, i)] + (words_from(a, i + 1, None) + words(b)) =~= (seq![
                    a.subrange(x, i),
                ] + words_from(a, i + 1, None)) + words(b));
            }
        } else {
            let nst = match st {
                Some(x) => Some(x),
                None => Some(i),
            };
            lemma_words_concat_from(a, b, i + 1, nst);
        }
    }
}

/// Text that ends in white space splits apart from what follows it.
proof fn lemma_words_concat(a: Seq<char>, b: Seq<char>)
    requires
        a.len() == 0 || is_white_space(a.last()),
    ensures
        words(a + b) == words(a) + words(b),
{
    if a.len() == 0 {
        assert(a + b =~= b);
        assert(words(a) =~= Seq::<Seq<char>>::empty());
        assert(Seq::<Seq<char>>::empty() + words(b) =~= words(b));
    } else {
        lemma_words_concat_from(a, b, 0, None);
    }
}

proof fn lemma_words_all_space(t: Seq<char>, j: int)
    requires
        0 <= j <= t.len(),
        forall|i: int| j <= i < t.len() ==> is_white_space(#[trigger] t[i]),
    ensures
        words_from(t, j, None) == Seq::<Seq<char>>::empty(),
    decreases t.len() - j,
{
    if j < t.len() {
        lemma_words_all_space(t, j + 1);
    }
}

proof fn lemma_words_in_word(s: Seq<char>, n: int, i: int)
    requires
        1 <= i <= n < s.len(),
        forall|k: int| 0 <= k < n ==> !is_white_space(#[trigger] s[k]),
        is_white_space(s[n]),
    ensures
        words_from(s, i, Some(0)) == seq![s.subrange(0, n)] + words_from(s, n + 1, None),
    decreases n - i,
{
    if i < n {
        lemma_words_in_word(s, n, i + 1);
    }
}

/// A non-empty run without white space, then only white space, is one word.
proof fn lemma_words_single(w: Seq<char>, sp: Seq<char>)
    requires
        w.len() > 0,
        no_white_space(w),
        sp.len() > 0,
        forall|i: int| 0 <= i < sp.len() ==> is_white_space(#[trigger] sp[i]),
    ensures
        words(w + sp) == seq![w],
{
    let s = w + sp;
    assert(s[0] == w[0]);
    assert(s[w.len() as int] == sp[0]);
    lemma_words_in_word(s, w.len() as int, 1);
    assert(s.subrange(0, w.len() as int) =~= w);
    lemma_words_all_space(s, w.len() as int + 1);
    assert(seq![w] + Seq::<Seq<char>>::empty() =~= seq![w]);
}

proof fn lemma_crlf()
    ensures
        "\r\n"@ == seq!['\r', '\n'],
        "+"@ == seq!['+'],
        "-"@ == seq!['-'],
        "$"@ == seq!['$'],
        "*"@ == seq!['*'],
{
    reveal_strlit("\r\n");
    reveal_strlit("+");
    reveal_strlit("-");
    reveal_strlit("$");
    reveal_strlit("*");
    assert("\r\n"@ =~= seq!['\r', '\n']);
    assert("+"@ =~= seq!['+']);
    assert("-"@ =~= seq!['-']);
    assert("$"@ =~= seq!['$']);
    assert("*"@ =~= seq!['*']);
}

proof fn lemma_header_plain(c: char, n: nat)
    requires
        !is_white_space(c),
    ensures
        no_white_space(seq![c] + decimal_text(n)),
{
    lemma_decimal_text(n);
    let w = seq![c] + decimal_text(n);
    assert forall|i: int| 0 <= i < w.len() implies !is_white_space(#[trigger] w[i]) by {
        if i > 0 {
            assert(w[i] == decimal_text(n)[i - 1]);
            assert(is_digit(decimal_text(n)[i - 1]));
        }
    }
}

proof fn lemma_resp_text_ends_in_newline(v: RespValue)
    ensures
        resp_text(v).len() > 0,
        resp_text(v).last() == '\n',
    decreases v, 0int,
{
    lemma_crlf();
    match v {
        RespValue::Array(items) => {
            lemma_items_text_ends_in_newline(items);
        },
        _ => {},
    }
}

proof fn lemma_items_text_ends_in_newline(items: Seq<RespValue>)
    ensures
        items.len() > 0 ==> items_text(items).len() > 0 && items_text(items).last() == '\n',
    decreases items, 1int,
{
    if items.len() > 0 {
        lemma_resp_text_ends_in_newline(items.last());
    }
}

proof fn lemma_items_split(items: Seq<RespValue>)
    requires
        items.len() > 0,
    ensures
        items_words(items) == items_words(items.drop_last()) + resp_words(items.last()),
        items_plain(items) == (items_plain(items.drop_last()) && resp_plain(items.last())),
        items_fit(items) == (items_fit(items.drop_last()) && resp_fits(items.last())),
    decreases items.len(),
{
    if items.len() == 1 {
        assert(items.drop_first() =~= Seq::<RespValue>::empty());
        assert(items.drop_last() =~= Seq::<RespValue>::empty());
        assert(resp_words(items[0]) + Seq::<Seq<char>>::empty() =~= resp_words(items[0]));
        assert(Seq::<Seq<char>>::empty() + resp_words(items[0]) =~= resp_words(items[0]));
    } else {
        let tail = items.drop_first();
        lemma_items_split(tail);
        assert(tail.drop_last() =~= items.drop_last().drop_first());
        assert(tail.last() == items.last());
        assert(items.drop_last()[0] == items[0]);
        assert(resp_words(items[0]) + (items_words(tail.drop_last()) + resp_words(tail.last())) =~= (resp_words(
            items[0],
        ) + items_words(tail.drop_last())) + resp_words(tail.last()));
    }
}

/// The wire text of a plain value splits at white space into its words.
proof fn lemma_words_of_resp_text(v: RespValue)
    requires
        resp_plain(v),
    ensures
        words(resp_text(v)) == resp_words(v),
    decreases v, 0int,
{
    lemma_crlf();
    let crlf = seq!['\r', '\n'];
    assert forall|i: int| 0 <= i < crlf.len() implies is_white_space(#[trigger] crlf[i]) by {}
    match v {
        RespValue::Simple(s) => {
            let w = seq!['+'] + s;
            assert(no_white_space(w)) by {
                assert forall|i: int| 0 <= i < w.len() implies !is_white_space(#[trigger] w[i]) by {
                    if i > 0 {
                        assert(w[i] == s[i - 1]);
                    }
                }
            }
            assert(resp_text(v) =~= w + crlf);
            lemma_words_single(w, crlf);
        },
        RespValue::Error(s) => {
            let w = seq!['-'] + s;
            assert(no_white_space(w)) by {
                assert forall|i: int| 0 <= i < w.len() implies !is_white_space(#[trigger] w[i]) by {
                    if i > 0 {
                        assert(w[i] == s[i - 1]);
                    }
                }
            }
            assert(resp_text(v) =~= w + crlf);
            lemma_words_single(w, crlf);
        },
        RespValue::Bulk(s) => {
            let n = encode_utf8(s).len();
            let w = seq!['$'] + decimal_text(n);
            lemma_header_plain('$', n);
            lemma_decimal_text(n);
            assert(resp_text(v) =~= (w + crlf) + (s + crlf));
            lemma_words_concat(w + crlf, s + crlf);
            lemma_words_single(w, crlf);
            lemma_words_single(s, crlf);
            assert(seq![w] + seq![s] =~= seq![w, s]);
        },
        RespValue::Array(items) => {
            let w = seq!['*'] + decimal_text(items.len());
            lemma_header_plain('*', items.len());
            lemma_decimal_text(items.len());
            assert(resp_text(v) =~= (w + crlf) + items_text(items));
            lemma_words_concat(w + crlf, items_text(items));
            lemma_words_single(w, crlf);
            lemma_words_of_items_text(items);
        },
    }
}

proof fn lemma_words_of_items_text(items: Seq<RespValue>)
    requires
        items_plain(items),
    ensures
        words(items_text(items)) == items_words(items),
    decreases items, 1int,
{
    if items.len() == 0 {
        assert(words(Seq::<char>::empty()) =~= Seq::<Seq<char>>::empty());
    } else {
        lemma_items_split(items);
        let init = items.drop_last();
        lemma_items_text_ends_in_newline(init);
        assert(decreases_to!(items => init));
        lemma_words_of_items_text(init);
        lemma_words_of_resp_text(items.last());
        lemma_words_concat(items_text(init), resp_text(items.last()));
    }
}

/// Reading the wire text of a value back gives the value, when its strings
/// hold no white space and no bulk string is empty (the reader splits the
/// text at white space), and its lengths fit in a `u64`.
pub proof fn lemma_resp_round_trip(v: RespValue)
    requires
        resp_plain(v),
        resp_fits(v),
    ensures
        parse_value(words(resp_text(v)), 0) == Some((v, resp_words(v).len() as int)),
{
    lemma_words_of_resp_text(v);
    let t = resp_words(v);
    assert(t.subrange(0, t.len() as int) =~= t);
    lemma_parse_resp_words(v, t, 0);
}

} // verus!
