//! The wire format as mathematics: what bytes encode a value, and what a parser
//! makes of any byte sequence.
use crate::binary64::{b64_from_b32, b64_from_int, b64_to_int_saturating};
use crate::marshal::{tag_code, ClrModel, ClrTypeTag};
use crate::text::{decimal_text, utf8_error_text};
use vstd::prelude::*;
use vstd::utf8::*;

verus! {

/// 2^32.
pub open spec fn two_32() -> nat {
    0x1_0000_0000
}

/// The four little-endian bytes of `x` (taken modulo 2^32).
pub open spec fn le32(x: nat) -> Seq<u8> {
    seq![
        (x % 256) as u8,
        ((x / 256) % 256) as u8,
        ((x / 65536) % 256) as u8,
        ((x / 16777216) % 256) as u8,
    ]
}

/// The eight little-endian bytes of `x` (taken modulo 2^64).
pub open spec fn le64(x: nat) -> Seq<u8> {
    le32(x % two_32()) + le32((x / two_32()) % two_32())
}

/// The two's-complement pattern of a 32-bit signed integer.
pub open spec fn i32_pattern(n: int) -> nat {
    if n < 0 {
        (n + two_32()) as nat
    } else {
        n as nat
    }
}

/// A length or count as written on the wire: `n as i32`, little endian.
pub open spec fn count_bytes(n: nat) -> Seq<u8> {
    le32(n % two_32())
}

pub open spec fn tag_bytes(t: ClrTypeTag) -> Seq<u8> {
    le32(tag_code(t) as nat)
}

/// A text as written on the wire: its UTF-8 byte count, then its UTF-8 bytes.
pub open spec fn text_bytes(s: Seq<char>) -> Seq<u8> {
    count_bytes(encode_utf8(s).len()) + encode_utf8(s)
}

/// The bytes that encode a value.
pub open spec fn encode(v: ClrModel) -> Seq<u8>
    decreases v,
{
    match v {
        ClrModel::Null => tag_bytes(ClrTypeTag::Null),
        ClrModel::Str(s) => tag_bytes(ClrTypeTag::String) + text_bytes(s),
        ClrModel::Boolean(b) => tag_bytes(ClrTypeTag::Boolean) + seq![
            if b {
                1u8
            } else {
                0u8
            },
        ],
        ClrModel::Int32(n) => tag_bytes(ClrTypeTag::Int32) + le32(i32_pattern(n as int)),
        ClrModel::UInt32(n) => tag_bytes(ClrTypeTag::UInt32) + le32(n as nat),
        ClrModel::Int64(n) => tag_bytes(ClrTypeTag::Number) + le64(b64_from_int(n as int) as nat),
        ClrModel::Double(b) => tag_bytes(ClrTypeTag::Number) + le64(b as nat),
        ClrModel::Float(b) => tag_bytes(ClrTypeTag::Number) + le64(b64_from_b32(b) as nat),
        ClrModel::DateTime(n) => tag_bytes(ClrTypeTag::Date) + le64(b64_from_int(n as int) as nat),
        ClrModel::Guid(s) => tag_bytes(ClrTypeTag::String) + text_bytes(s),
        ClrModel::Buffer(d) => tag_bytes(ClrTypeTag::Buffer) + count_bytes(d.len()) + d,
        ClrModel::Array(items) => tag_bytes(ClrTypeTag::Array) + count_bytes(items.len())
            + encode_seq(items),
        ClrModel::Object(entries) => tag_bytes(ClrTypeTag::Object) + count_bytes(entries.len())
            + encode_entries(entries),
        ClrModel::Callback(id) => tag_bytes(ClrTypeTag::Function) + le64(id as nat),
        ClrModel::Decimal(s) => tag_bytes(ClrTypeTag::String) + text_bytes(s),
    }
}

/// The concatenated encodings of a sequence of values.
pub open spec fn encode_seq(s: Seq<ClrModel>) -> Seq<u8>
    decreases s,
{
    if s.len() == 0 {
        seq![]
    } else {
        encode(s[0]) + encode_seq(s.subrange(1, s.len() as int))
    }
}

/// The concatenated encodings of object entries (key text, then value).
pub open spec fn encode_entries(es: Seq<(Seq<char>, ClrModel)>) -> Seq<u8>
    decreases es,
{
    if es.len() == 0 {
        seq![]
    } else {
        text_bytes(es[0].0) + encode(es[0].1) + encode_entries(es.subrange(1, es.len() as int))
    }
}

// ---------------------------------------------------------------------------
// Decoding
// ---------------------------------------------------------------------------
/// Why a parse was refused: a marshaling error, or an exception that .NET sent.
pub enum Failure {
    Marshal(Seq<char>),
    Exception(Seq<char>),
}

/// What parsing one value from a byte sequence gives: the value and the number of
/// bytes it took, a refusal, or `Fault` where slicing or allocating would fail
/// (a length or count that is negative, or that runs past the end of the data).
pub enum Decoded {
    Value(ClrModel, nat),
    Failed(Failure),
    Fault,
}

pub enum DecodedSeq {
    Values(Seq<ClrModel>, nat),
    Failed(Failure),
    Fault,
}

pub enum DecodedEntries {
    Entries(Seq<(Seq<char>, ClrModel)>, nat),
    Failed(Failure),
    Fault,
}

/// The unsigned integer of the four little-endian bytes at `i`.
pub open spec fn le32_value(d: Seq<u8>, i: int) -> nat {
    (d[i] + 256 * d[i + 1] + 65536 * d[i + 2] + 16777216 * d[i + 3]) as nat
}

/// The unsigned integer of the eight little-endian bytes at `i`.
pub open spec fn le64_value(d: Seq<u8>, i: int) -> nat {
    le32_value(d, i) + two_32() * le32_value(d, i + 4)
}

/// The signed 32-bit integer whose two's-complement pattern is `x`.
pub open spec fn i32_of_pattern(x: nat) -> int {
    if x >= 0x8000_0000 {
        x - two_32()
    } else {
        x as int
    }
}

/// The little-endian signed 32-bit integer at `i`.
pub open spec fn i32_at(d: Seq<u8>, i: int) -> int {
    i32_of_pattern(le32_value(d, i))
}

pub open spec fn msg_short_tag() -> Seq<char> {
    "buffer too short for type tag"@
}

pub open spec fn msg_short_i32() -> Seq<char> {
    "buffer too short for i32"@
}

pub open spec fn msg_bad_utf8(bytes: Seq<u8>) -> Seq<char> {
    "invalid UTF-8: "@ + utf8_error_text(bytes)
}

pub open spec fn msg_bad_key(bytes: Seq<u8>) -> Seq<char> {
    "invalid UTF-8 key: "@ + utf8_error_text(bytes)
}

pub open spec fn msg_unknown_tag(t: int) -> Seq<char> {
    "unknown type tag: "@ + decimal_text(t)
}

/// The length-prefixed text that follows the tag at the start of `d`, taking `8 + n`
/// bytes in all: a string value, or the message of an exception.
pub open spec fn decode_text_payload(d: Seq<u8>, as_exception: bool) -> Decoded
    recommends
        d.len() >= 4,
{
    if d.len() < 8 {
        Decoded::Failed(Failure::Marshal(msg_short_i32()))
    } else {
        let n = i32_at(d, 4);
        if n < 0 || 8 + n > d.len() {
            Decoded::Fault
        } else {
            let bytes = d.subrange(8, 8 + n);
            if !valid_utf8(bytes) {
                Decoded::Failed(Failure::Marshal(msg_bad_utf8(bytes)))
            } else if as_exception {
                Decoded::Failed(Failure::Exception(decode_utf8(bytes)))
            } else {
                Decoded::Value(ClrModel::Str(decode_utf8(bytes)), (8 + n) as nat)
            }
        }
    }
}

/// The entry list after inserting `k => v`: an entry with an equal key has its value
/// replaced, otherwise the entry is appended.
pub open spec fn insert_entry(es: Seq<(Seq<char>, ClrModel)>, k: Seq<char>, v: ClrModel) -> Seq<
    (Seq<char>, ClrModel),
> {
    if exists|i: int| 0 <= i < es.len() && es[i].0 == k {
        es.update(choose|i: int| 0 <= i < es.len() && es[i].0 == k, (k, v))
    } else {
        es.push((k, v))
    }
}

/// No two entries share a key.
pub open spec fn keys_unique(es: Seq<(Seq<char>, ClrModel)>) -> bool {
    forall|i: int, j: int| 0 <= i < j < es.len() ==> es[i].0 != es[j].0
}

/// What parsing one value from the start of `d` gives.
pub open spec fn decode(d: Seq<u8>) -> Decoded
    decreases d.len(), 0int,
{
    if d.len() < 4 {
        Decoded::Failed(Failure::Marshal(msg_short_tag()))
    } else {
        let t = i32_at(d, 0);
        if t == 11 {
            Decoded::Value(ClrModel::Null, 4)
        } else if t == 6 {
            decode_text_payload(d, false)
        } else if t == 7 {
            if d.len() < 5 {
                Decoded::Fault
            } else {
                Decoded::Value(ClrModel::Boolean(d[4] != 0), 5)
            }
        } else if t == 8 {
            if d.len() < 8 {
                Decoded::Failed(Failure::Marshal(msg_short_i32()))
            } else {
                Decoded::Value(ClrModel::Int32(i32_at(d, 4) as i32), 8)
            }
        } else if t == 9 {
            if d.len() < 8 {
                Decoded::Fault
            } else {
                Decoded::Value(ClrModel::UInt32(le32_value(d, 4) as u32), 8)
            }
        } else if t == 10 {
            if d.len() < 12 {
                Decoded::Fault
            } else {
                Decoded::Value(ClrModel::Double(le64_value(d, 4) as u64), 12)
            }
        } else if t == 4 {
            if d.len() < 12 {
                Decoded::Fault
            } else {
                Decoded::Value(
                    ClrModel::DateTime(
                        b64_to_int_saturating(
                            le64_value(d, 4) as u64,
                            i64::MIN as int,
                            i64::MAX as int,
                        ) as i64,
                    ),
                    12,
                )
            }
        } else if t == 2 {
            if d.len() < 8 {
                Decoded::Failed(Failure::Marshal(msg_short_i32()))
            } else {
                let n = i32_at(d, 4);
                if n < 0 || 8 + n > d.len() {
                    Decoded::Fault
                } else {
                    Decoded::Value(ClrModel::Buffer(d.subrange(8, 8 + n)), (8 + n) as nat)
                }
            }
        } else if t == 3 {
            if d.len() < 8 {
                Decoded::Failed(Failure::Marshal(msg_short_i32()))
            } else {
                let n = i32_at(d, 4);
                if n < 0 {
                    Decoded::Fault
                } else {
                    match decode_seq(d.subrange(8, d.len() as int), n as nat, seq![]) {
                        DecodedSeq::Values(vs, k) => Decoded::Value(ClrModel::Array(vs), 8 + k),
                        DecodedSeq::Failed(f) => Decoded::Failed(f),
                        DecodedSeq::Fault => Decoded::Fault,
                    }
                }
            }
        } else if t == 5 {
            if d.len() < 8 {
                Decoded::Failed(Failure::Marshal(msg_short_i32()))
            } else {
                let n = i32_at(d, 4);
                if n < 0 {
                    Decoded::Fault
                } else {
                    match decode_entries(d.subrange(8, d.len() as int), n as nat, seq![]) {
                        DecodedEntries::Entries(es, k) => Decoded::Value(ClrModel::Object(es), 8 + k),
                        DecodedEntries::Failed(f) => Decoded::Failed(f),
                        DecodedEntries::Fault => Decoded::Fault,
                    }
                }
            }
        } else if t == 1 {
            if d.len() < 12 {
                Decoded::Fault
            } else {
                Decoded::Value(ClrModel::Callback(le64_value(d, 4) as u64), 12)
            }
        } else if t == 13 {
            decode_text_payload(d, true)
        } else {
            Decoded::Failed(Failure::Marshal(msg_unknown_tag(t)))
        }
    }
}

/// What parsing `n` consecutive values from the start of `d` gives, the values being
/// appended to `acc`.
pub open spec fn decode_seq(d: Seq<u8>, n: nat, acc: Seq<ClrModel>) -> DecodedSeq
    decreases d.len(), n + 1,
{
    if n == 0 {
        DecodedSeq::Values(acc, 0)
    } else {
        match decode(d) {
            Decoded::Value(v, k) => {
                if k <= d.len() {
                    match decode_seq(d.subrange(k as int, d.len() as int), (n - 1) as nat, acc.push(v)) {
                        DecodedSeq::Values(vs, k2) => DecodedSeq::Values(vs, k + k2),
                        DecodedSeq::Failed(f) => DecodedSeq::Failed(f),
                        DecodedSeq::Fault => DecodedSeq::Fault,
                    }
                } else {
                    DecodedSeq::Fault
                }
            },
            Decoded::Failed(f) => DecodedSeq::Failed(f),
            Decoded::Fault => DecodedSeq::Fault,
        }
    }
}

/// What parsing `n` consecutive object entries (key text, value) from the start of `d`
/// gives, each entry being inserted into `acc`.
pub open spec fn decode_entries(d: Seq<u8>, n: nat, acc: Seq<(Seq<char>, ClrModel)>) -> DecodedEntries
    decreases d.len(), n + 1,
{
    if n == 0 {
        DecodedEntries::Entries(acc, 0)
    } else if d.len() < 4 {
        DecodedEntries::Failed(Failure::Marshal(msg_short_i32()))
    } else {
        let kl = i32_at(d, 0);
        if kl < 0 || 4 + kl > d.len() {
            DecodedEntries::Fault
        } else {
            let kb = d.subrange(4, 4 + kl);
            if !valid_utf8(kb) {
                DecodedEntries::Failed(Failure::Marshal(msg_bad_key(kb)))
            } else {
                match decode(d.subrange(4 + kl, d.len() as int)) {
                    Decoded::Value(v, k) => {
                        if 4 + kl + k <= d.len() {
                            match decode_entries(
                                d.subrange(4 + kl + k, d.len() as int),
                                (n - 1) as nat,
                                insert_entry(acc, decode_utf8(kb), v),
                            ) {
                                DecodedEntries::Entries(es, k2) => DecodedEntries::Entries(
                                    es,
                                    (4 + kl + k + k2) as nat,
                                ),
                                DecodedEntries::Failed(f) => DecodedEntries::Failed(f),
                                DecodedEntries::Fault => DecodedEntries::Fault,
                            }
                        } else {
                            DecodedEntries::Fault
                        }
                    },
                    Decoded::Failed(f) => DecodedEntries::Failed(f),
                    Decoded::Fault => DecodedEntries::Fault,
                }
            }
        }
    }
}

// ---------------------------------------------------------------------------
// What a round trip through the wire gives back
// ---------------------------------------------------------------------------
/// A text whose UTF-8 byte count is a non-negative `i32`.
pub open spec fn text_ok(s: Seq<char>) -> bool {
    encode_utf8(s).len() < 0x8000_0000
}

/// Every length and count in `v` is a non-negative `i32`, and no object holds two
/// entries with the same key (as in a map).
pub open spec fn wire_ok(v: ClrModel) -> bool
    decreases v,
{
    match v {
        ClrModel::Str(s) => text_ok(s),
        ClrModel::Guid(s) => text_ok(s),
        ClrModel::Decimal(s) => text_ok(s),
        ClrModel::Buffer(d) => d.len() < 0x8000_0000,
        ClrModel::Array(items) => items.len() < 0x8000_0000 && all_wire_ok(items),
        ClrModel::Object(es) => es.len() < 0x8000_0000 && keys_unique(es) && entries_wire_ok(es),
        _ => true,
    }
}

pub open spec fn all_wire_ok(s: Seq<ClrModel>) -> bool
    decreases s,
{
    s.len() == 0 || (wire_ok(s[0]) && all_wire_ok(s.subrange(1, s.len() as int)))
}

pub open spec fn entries_wire_ok(es: Seq<(Seq<char>, ClrModel)>) -> bool
    decreases es,
{
    es.len() == 0 || (text_ok(es[0].0) && wire_ok(es[0].1) && entries_wire_ok(
        es.subrange(1, es.len() as int),
    ))
}

/// The value that reading back the encoding of `v` gives: a GUID or decimal comes back
/// as a string; a 64-bit integer or a single-precision number comes back as the
/// double-precision number it was written as; a date comes back as its binary64
/// rendering truncated to an integer again.
pub open spec fn normalize(v: ClrModel) -> ClrModel
    decreases v,
{
    match v {
        ClrModel::Guid(s) => ClrModel::Str(s),
        ClrModel::Decimal(s) => ClrModel::Str(s),
        ClrModel::Int64(n) => ClrModel::Double(b64_from_int(n as int)),
        ClrModel::Float(b) => ClrModel::Double(b64_from_b32(b)),
        ClrModel::DateTime(n) => ClrModel::DateTime(
            b64_to_int_saturating(b64_from_int(n as int), i64::MIN as int, i64::MAX as int) as i64,
        ),
        ClrModel::Array(items) => ClrModel::Array(normalize_seq(items)),
        ClrModel::Object(es) => ClrModel::Object(normalize_entries(es)),
        other => other,
    }
}

pub open spec fn normalize_seq(s: Seq<ClrModel>) -> Seq<ClrModel>
    decreases s,
{
    if s.len() == 0 {
        seq![]
    } else {
        seq![normalize(s[0])] + normalize_seq(s.subrange(1, s.len() as int))
    }
}

pub open spec fn normalize_entries(es: Seq<(Seq<char>, ClrModel)>) -> Seq<(Seq<char>, ClrModel)>
    decreases es,
{
    if es.len() == 0 {
        seq![]
    } else {
        seq![(es[0].0, normalize(es[0].1))] + normalize_entries(es.subrange(1, es.len() as int))
    }
}

} // verus!
