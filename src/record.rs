//! The on-disk record: one JSON object per command, with the fields
//! `command`, `tstamp`, `key` and `value`, written back to back.
use crate::error::KvsError;
use crate::json::{json_u64_field, u64_field, json_quoted, json_text_field, quote, text_field};
use crate::text::{decimal_bytes, push_decimal, push_text, same_text};
use vstd::prelude::*;
use vstd::utf8::encode_utf8;

verus! {

/// What a record does: `Put` binds a key (written as `"Set"`), `Remove`
/// unbinds it. `Get` is reserved: it is never written.
#[derive(Clone, Copy, Debug, PartialEq, Eq, Structural)]
pub enum RecordKind {
    Put,
    Get,
    Remove,
}

/// A record as read back from a segment (its timestamp is not kept).
#[derive(Debug)]
pub struct Record {
    pub kind: RecordKind,
    pub key: String,
    pub value: String,
}

/// The name under which a kind is written in the `command` field.
pub open spec fn kind_name(k: RecordKind) -> Seq<char> {
    match k {
        RecordKind::Put => "Set"@,
        RecordKind::Get => "Get"@,
        RecordKind::Remove => "Remove"@,
    }
}

/// The kind written under `c`, if any.
pub open spec fn kind_of_name(c: Seq<char>) -> Option<RecordKind> {
    if c == "Set"@ {
        Some(RecordKind::Put)
    } else if c == "Get"@ {
        Some(RecordKind::Get)
    } else if c == "Remove"@ {
        Some(RecordKind::Remove)
    } else {
        None
    }
}

/// The bytes of the record `{"command":..,"tstamp":..,"key":..,"value":..}`.
pub open spec fn record_bytes(kind: RecordKind, tstamp: u128, key: Seq<char>, value: Seq<char>) -> Seq<u8> {
    encode_utf8("{\"command\":"@) + encode_utf8(json_quoted(kind_name(kind))) + encode_utf8(
        ",\"tstamp\":"@,
    ) + decimal_bytes(tstamp as nat) + encode_utf8(",\"key\":"@) + encode_utf8(json_quoted(key))
        + encode_utf8(",\"value\":"@) + encode_utf8(json_quoted(value)) + encode_utf8("}"@)
}

/// The record that a `command`, `key` and `value` field make, given
/// whether the `tstamp` field holds an integer: all three texts must be
/// there, and the command must be a known one.
pub open spec fn record_from_fields(
    command: Option<Seq<char>>,
    key: Option<Seq<char>>,
    value: Option<Seq<char>>,
    tstamp_ok: bool,
) -> Option<(RecordKind, Seq<char>, Seq<char>)> {
    match (command, key, value) {
        (Some(c), Some(k), Some(v)) => if !tstamp_ok {
            None
        } else {
            match kind_of_name(c) {
                Some(kind) => Some((kind, k, v)),
                None => None,
            }
        },
        _ => None,
    }
}

/// The kind, key and value that the record `doc` holds, if it is a record:
/// a JSON object with a known `command`, a string `key`, a string `value`
/// and an integer `tstamp` (informational: its value is not kept).
pub open spec fn decoded_record(doc: Seq<u8>) -> Option<(RecordKind, Seq<char>, Seq<char>)> {
    match (
        json_text_field(doc, "command"@),
        json_text_field(doc, "key"@),
        json_text_field(doc, "value"@),
        json_u64_field(doc, "tstamp"@),
    ) {
        (Some(c), Some(k), Some(v), Some(t)) => record_from_fields(c, k, v, t),
        _ => None,
    }
}

fn kind_text(kind: RecordKind) -> (r: &'static str)
    ensures
        r@ == kind_name(kind),
{
    match kind {
        RecordKind::Put => "Set",
        RecordKind::Get => "Get",
        RecordKind::Remove => "Remove",
    }
}

fn push_quoted(out: &mut Vec<u8>, s: &str)
    ensures
        final(out)@ == old(out)@ + encode_utf8(json_quoted(s@)),
{
    if let Ok(q) = quote(s) {
        push_text(out, q.as_str());
    }
}

/// Serializes one record. It always succeeds. The timestamp (microseconds
/// since the epoch) must fit in a `u64`, the widest integer that the
/// record reader takes.
pub fn encode_record(kind: RecordKind, tstamp: u128, key: &str, value: &str) -> (r: Result<Vec<u8>, KvsError>)
    requires
        tstamp <= u64::MAX,
    ensures
        r matches Ok(b) && b@ == record_bytes(kind, tstamp, key@, value@),
{
    let mut out: Vec<u8> = Vec::new();
    push_text(&mut out, "{\"command\":");
    push_quoted(&mut out, kind_text(kind));
    push_text(&mut out, ",\"tstamp\":");
    push_decimal(&mut out, tstamp);
    push_text(&mut out, ",\"key\":");
    push_quoted(&mut out, key);
    push_text(&mut out, ",\"value\":");
    push_quoted(&mut out, value);
    push_text(&mut out, "}");
    assert(out@ =~= record_bytes(kind, tstamp, key@, value@));
    Ok(out)
}

fn field_text(doc: &[u8], name: &str) -> (r: Result<Option<String>, KvsError>)
    ensures
        match r {
            Ok(Some(s)) => json_text_field(doc@, name@) == Some(Some(s@)),
            Ok(None) => json_text_field(doc@, name@) == Some(None::<Seq<char>>),
            Err(e) => e is Serde && json_text_field(doc@, name@) is None,
        },
{
    match text_field(doc, name) {
        Ok(f) => Ok(f),
        Err(message) => Err(KvsError::Serde { message }),
    }
}

/// Makes the record out of its fields (see [`record_from_fields`]); fails
/// with `Serde` when they do not make one.
pub fn record_of_fields(
    command: Option<String>,
    key: Option<String>,
    value: Option<String>,
    tstamp_ok: bool,
) -> (r: Result<Record, KvsError>)
    ensures
        match record_from_fields(
            match command { Some(c) => Some(c@), None => None },
            match key { Some(k) => Some(k@), None => None },
            match value { Some(v) => Some(v@), None => None },
            tstamp_ok,
        ) {
            Some((kind, k, v)) => r matches Ok(rec) && rec.kind == kind && rec.key@ == k && rec.value@ == v,
            None => r matches Err(e) && e is Serde,
        },
{
    match (command, key, value) {
        (Some(command), Some(key), Some(value)) => {
            if !tstamp_ok {
                return Err(KvsError::Serde { message: "missing or ill-typed field `tstamp`".to_owned() });
            }
            let kind = if same_text(command.as_str(), "Set") {
                RecordKind::Put
            } else if same_text(command.as_str(), "Get") {
                RecordKind::Get
            } else if same_text(command.as_str(), "Remove") {
                RecordKind::Remove
            } else {
                return Err(KvsError::Serde { message: "unknown command".to_owned() });
            };
            Ok(Record { kind, key, value })
        },
        _ => Err(KvsError::Serde { message: "missing or ill-typed field".to_owned() }),
    }
}

/// Parses one record; fails with `Serde` when `doc` is not a record.
pub fn decode_record(doc: &[u8]) -> (r: Result<Record, KvsError>)
    ensures
        match r {
            Ok(rec) => decoded_record(doc@) == Some((rec.kind, rec.key@, rec.value@)),
            Err(e) => e is Serde && decoded_record(doc@) is None,
        },
{
    let command = match field_text(doc, "command") {
        Ok(f) => f,
        Err(e) => return Err(e),
    };
    let key = match field_text(doc, "key") {
        Ok(f) => f,
        Err(e) => return Err(e),
    };
    let value = match field_text(doc, "value") {
        Ok(f) => f,
        Err(e) => return Err(e),
    };
    let tstamp_ok = match u64_field(doc, "tstamp") {
        Ok(b) => b,
        Err(message) => return Err(KvsError::Serde { message }),
    };
    record_of_fields(command, key, value, tstamp_ok)
}

/// A record whose bytes have been read back and found to be a record: its
/// kind, key and value are what those bytes hold.
pub struct CheckedRecord {
    kind: RecordKind,
    key: String,
    value: String,
    len: u64,
    bytes: Ghost<Seq<u8>>,
}

impl CheckedRecord {
    #[verifier::type_invariant]
    spec fn inv(self) -> bool {
        &&& decoded_record(self.bytes@) == Some((self.kind, self.key@, self.value@))
        &&& self.len == self.bytes@.len()
    }

    pub closed spec fn spec_kind(self) -> RecordKind {
        self.kind
    }

    pub closed spec fn spec_key(self) -> Seq<char> {
        self.key@
    }

    pub closed spec fn spec_value(self) -> Seq<char> {
        self.value@
    }

    /// The bytes that were checked.
    pub closed spec fn spec_bytes(self) -> Seq<u8> {
        self.bytes@
    }

    /// What the record does.
    pub fn kind(&self) -> (r: RecordKind)
        ensures
            r == self.spec_kind(),
    {
        self.kind
    }

    /// The record's length in bytes.
    pub fn len(&self) -> (r: u64)
        ensures
            r == self.spec_bytes().len(),
    {
        proof {
            use_type_invariant(self);
        }
        self.len
    }

    /// Splits the record into its kind, key and value.
    pub fn into_parts(self) -> (r: (RecordKind, String, String))
        ensures
            decoded_record(self.spec_bytes()) == Some((r.0, r.1@, r.2@)),
            r.0 == self.spec_kind(),
            r.1@ == self.spec_key(),
            r.2@ == self.spec_value(),
    {
        proof {
            use_type_invariant(&self);
        }
        (self.kind, self.key, self.value)
    }
}

/// Reads `doc` back as a record; fails with `Serde` when it is not one (see
/// [`decoded_record`]).
pub fn check_record(doc: &[u8]) -> (r: Result<CheckedRecord, KvsError>)
    ensures
        match decoded_record(doc@) {
            Some((kind, k, v)) => r matches Ok(c) && c.spec_bytes() == doc@ && c.spec_kind() == kind && c.spec_key() == k
                && c.spec_value() == v,
            None => r matches Err(e) && e is Serde,
        },
{
    let len = doc.len();
    match decode_record(doc) {
        Ok(rec) => Ok(CheckedRecord { kind: rec.kind, key: rec.key, value: rec.value, len: len as u64, bytes: Ghost(doc@) }),
        Err(e) => Err(e),
    }
}

/// The value held by `doc` when it is the put record of `key`; fails with
/// `Serde` when `doc` is anything else.
pub fn value_of_record(key: &str, doc: &[u8]) -> (r: Result<String, KvsError>)
    ensures
        match r {
            Ok(v) => decoded_record(doc@) == Some((RecordKind::Put, key@, v@)),
            Err(e) => e is Serde && !(decoded_record(doc@) matches Some((RecordKind::Put, k, _)) && k == key@),
        },
{
    let rec = match decode_record(doc) {
        Ok(rec) => rec,
        Err(e) => return Err(e),
    };
    if rec.kind == RecordKind::Put && same_text(rec.key.as_str(), key) {
        Ok(rec.value)
    } else {
        Err(KvsError::Serde { message: "record does not bind the key".to_owned() })
    }
}

/// Every character takes at least one byte.
pub proof fn lemma_encode_utf8_len(s: Seq<char>)
    ensures
        encode_utf8(s).len() >= s.len(),
    decreases s.len(),
{
    if s.len() > 0 {
        lemma_encode_utf8_len(s.drop_first());
    }
}

/// The fewest bytes a record takes: its fixed text and one digit.
pub const MIN_RECORD_LEN: u64 = 39;

/// No record is shorter than [`MIN_RECORD_LEN`].
pub proof fn lemma_record_len(kind: RecordKind, tstamp: u128, key: Seq<char>, value: Seq<char>)
    ensures
        record_bytes(kind, tstamp, key, value).len() >= MIN_RECORD_LEN,
{
    reveal_strlit("{\"command\":");
    reveal_strlit(",\"tstamp\":");
    reveal_strlit(",\"key\":");
    reveal_strlit(",\"value\":");
    reveal_strlit("}");
    lemma_encode_utf8_len("{\"command\":"@);
    lemma_encode_utf8_len(",\"tstamp\":"@);
    lemma_encode_utf8_len(",\"key\":"@);
    lemma_encode_utf8_len(",\"value\":"@);
    lemma_encode_utf8_len("}"@);
    crate::text::lemma_decimal_bytes_len(tstamp as nat);
}

} // verus!
