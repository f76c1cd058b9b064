//! Properties of the wire format that hold for all values.
use crate::marshal::{tag_code, ClrModel, ClrTypeTag};
use crate::wire::{
    all_wire_ok, count_bytes, decode, decode_entries, decode_seq, encode, encode_entries,
    encode_seq, entries_wire_ok, i32_at, i32_of_pattern, i32_pattern, insert_entry, keys_unique,
    le32, le32_value, le64, le64_value, normalize, normalize_entries, normalize_seq, tag_bytes,
    text_bytes, text_ok, two_32, wire_ok, Decoded, DecodedEntries, DecodedSeq,
};
use vstd::prelude::*;
use vstd::utf8::*;

verus! {

// ---------------------------------------------------------------------------
// Fixed-width integers
// ---------------------------------------------------------------------------
proof fn lemma_le32_value(s: Seq<u8>, i: int, x: nat)
    requires
        0 <= i,
        i + 4 <= s.len(),
        x < two_32(),
        s[i] == le32(x)[0],
        s[i + 1] == le32(x)[1],
        s[i + 2] == le32(x)[2],
        s[i + 3] == le32(x)[3],
    ensures
        le32_value(s, i) == x,
{
    let b0 = x % 256;
    let b1 = (x / 256) % 256;
    let b2 = (x / 65536) % 256;
    let b3 = (x / 16777216) % 256;
    assert(s[i] == b0);
    assert(s[i + 1] == b1);
    assert(s[i + 2] == b2);
    assert(s[i + 3] == b3);
    assert(x == b0 + 256 * b1 + 65536 * b2 + 16777216 * b3);
}

proof fn lemma_le64_value(s: Seq<u8>, i: int, x: nat)
    requires
        0 <= i,
        i + 8 <= s.len(),
        x < two_32() * two_32(),
        forall|j: int| 0 <= j < 8 ==> s[i + j] == #[trigger] le64(x)[j],
    ensures
        le64_value(s, i) == x,
{
    let lo = x % two_32();
    let hi = (x / two_32()) % two_32();
    assert(x / two_32() < two_32());
    assert(hi == x / two_32());
    assert(le64(x)[0] == le32(lo)[0]);
    assert(le64(x)[1] == le32(lo)[1]);
    assert(le64(x)[2] == le32(lo)[2]);
    assert(le64(x)[3] == le32(lo)[3]);
    assert(le64(x)[4] == le32(hi)[0]);
    assert(le64(x)[5] == le32(hi)[1]);
    assert(le64(x)[6] == le32(hi)[2]);
    assert(le64(x)[7] == le32(hi)[3]);
    lemma_le32_value(s, i, lo);
    assert(s[i + 4] == le64(x)[4]);
    assert(s[i + 5] == le64(x)[5]);
    assert(s[i + 6] == le64(x)[6]);
    assert(s[i + 7] == le64(x)[7]);
    lemma_le32_value(s, i + 4, hi);
}

/// Reading back a count written at offset 4 of `t + c + rest`.
proof fn lemma_read_count(t: Seq<u8>, n: nat, rest: Seq<u8>)
    requires
        t.len() == 4,
        n < 0x8000_0000,
    ensures
        i32_at(t + count_bytes(n) + rest, 4) == n,
{
    let d = t + count_bytes(n) + rest;
    assert(n % two_32() == n);
    assert(count_bytes(n) == le32(n));
    assert(d[4] == le32(n)[0]);
    assert(d[5] == le32(n)[1]);
    assert(d[6] == le32(n)[2]);
    assert(d[7] == le32(n)[3]);
    lemma_le32_value(d, 4, n);
}

/// Reading back the tag at the start of `tag_bytes(t) + rest`.
proof fn lemma_read_tag(t: ClrTypeTag, rest: Seq<u8>)
    ensures
        i32_at(tag_bytes(t) + rest, 0) == tag_code(t),
        (tag_bytes(t) + rest).len() == 4 + rest.len(),
{
    lemma_le32_value(tag_bytes(t) + rest, 0, tag_code(t) as nat);
}

proof fn lemma_read64(t: Seq<u8>, x: nat, rest: Seq<u8>)
    requires
        t.len() == 4,
        x < two_32() * two_32(),
    ensures
        le64_value(t + le64(x) + rest, 4) == x,
        (t + le64(x) + rest).len() == 12 + rest.len(),
{
    let d = t + le64(x) + rest;
    assert forall|j: int| 0 <= j < 8 implies d[4 + j] == #[trigger] le64(x)[j] by {}
    lemma_le64_value(d, 4, x);
}

/// Reading back a length-prefixed text written after a 4-byte tag.
proof fn lemma_read_text(t: Seq<u8>, s: Seq<char>, rest: Seq<u8>)
    requires
        t.len() == 4,
        text_ok(s),
    ensures
        ({
            let d = t + text_bytes(s) + rest;
            let n = encode_utf8(s).len();
            &&& d.len() >= 8
            &&& i32_at(d, 4) == n
            &&& 8 + n <= d.len()
            &&& d.subrange(8, 8 + n as int) == encode_utf8(s)
            &&& valid_utf8(encode_utf8(s))
            &&& decode_utf8(encode_utf8(s)) == s
        }),
{
    let b = encode_utf8(s);
    let n = b.len();
    let d = t + text_bytes(s) + rest;
    assert(d =~= t + count_bytes(n) + (b + rest));
    lemma_read_count(t, n, b + rest);
    assert(d.subrange(8, 8 + n as int) =~= b);
    encode_utf8_valid_utf8(s);
    encode_utf8_decode_utf8(s);
}

/// Reading back the encoding of a value gives its normalized form and takes exactly the
/// encoded bytes, whatever bytes follow them.
pub proof fn lemma_decode_encode(v: ClrModel, rest: Seq<u8>)
    requires
        wire_ok(v),
    ensures
        decode(encode(v) + rest) == Decoded::Value(normalize(v), encode(v).len()),
    decreases v, 1nat,
{
    match v {
        ClrModel::Null => lemma_round_trip_null(v, rest),
        ClrModel::Str(..) => lemma_round_trip_str(v, rest),
        ClrModel::Guid(..) => lemma_round_trip_guid(v, rest),
        ClrModel::Decimal(..) => lemma_round_trip_decimal(v, rest),
        ClrModel::Boolean(..) => lemma_round_trip_boolean(v, rest),
        ClrModel::Int32(..) => lemma_round_trip_int32(v, rest),
        ClrModel::UInt32(..) => lemma_round_trip_u_int32(v, rest),
        ClrModel::Int64(..) => lemma_round_trip_int64(v, rest),
        ClrModel::Double(..) => lemma_round_trip_double(v, rest),
        ClrModel::Float(..) => lemma_round_trip_float(v, rest),
        ClrModel::DateTime(..) => lemma_round_trip_date_time(v, rest),
        ClrModel::Callback(..) => lemma_round_trip_callback(v, rest),
        ClrModel::Buffer(..) => lemma_round_trip_buffer(v, rest),
        ClrModel::Array(..) => lemma_round_trip_array(v, rest),
        ClrModel::Object(..) => lemma_round_trip_object(v, rest),
    }
}

proof fn lemma_round_trip_null(v: ClrModel, rest: Seq<u8>)
    requires
        v is Null,
        wire_ok(v),
    ensures
        decode(encode(v) + rest) == Decoded::Value(normalize(v), encode(v).len()),
{
    let d = encode(v) + rest;
    match v {
        ClrModel::Null => {
        lemma_read_tag(ClrTypeTag::Null, rest);
        },
        _ => {},
    }
}

proof fn lemma_round_trip_str(v: ClrModel, rest: Seq<u8>)
    requires
        v is Str,
        wire_ok(v),
    ensures
        decode(encode(v) + rest) == Decoded::Value(normalize(v), encode(v).len()),
{
    let d = encode(v) + rest;
    match v {
        ClrModel::Str(s) => {
        lemma_read_tag(ClrTypeTag::String, text_bytes(s) + rest);
        assert(d =~= tag_bytes(ClrTypeTag::String) + (text_bytes(s) + rest));
        lemma_read_text(tag_bytes(ClrTypeTag::String), s, rest);
        assert(d =~= tag_bytes(ClrTypeTag::String) + text_bytes(s) + rest);
        },
        _ => {},
    }
}

proof fn lemma_round_trip_guid(v: ClrModel, rest: Seq<u8>)
    requires
        v is Guid,
        wire_ok(v),
    ensures
        decode(encode(v) + rest) == Decoded::Value(normalize(v), encode(v).len()),
{
    let d = encode(v) + rest;
    match v {
        ClrModel::Guid(s) => {
        lemma_read_tag(ClrTypeTag::String, text_bytes(s) + rest);
        assert(d =~= tag_bytes(ClrTypeTag::String) + (text_bytes(s) + rest));
        lemma_read_text(tag_bytes(ClrTypeTag::String), s, rest);
        assert(d =~= tag_bytes(ClrTypeTag::String) + text_bytes(s) + rest);
        },
        _ => {},
    }
}

proof fn lemma_round_trip_decimal(v: ClrModel, rest: Seq<u8>)
    requires
        v is Decimal,
        wire_ok(v),
    ensures
        decode(encode(v) + rest) == Decoded::Value(normalize(v), encode(v).len()),
{
    let d = encode(v) + rest;
    match v {
        ClrModel::Decimal(s) => {
        lemma_read_tag(ClrTypeTag::String, text_bytes(s) + rest);
        assert(d =~= tag_bytes(ClrTypeTag::String) + (text_bytes(s) + rest));
        lemma_read_text(tag_bytes(ClrTypeTag::String), s, rest);
        assert(d =~= tag_bytes(ClrTypeTag::String) + text_bytes(s) + rest);
        },
        _ => {},
    }
}

proof fn lemma_round_trip_boolean(v: ClrModel, rest: Seq<u8>)
    requires
        v is Boolean,
        wire_ok(v),
    ensures
        decode(encode(v) + rest) == Decoded::Value(normalize(v), encode(v).len()),
{
    let d = encode(v) + rest;
    match v {
        ClrModel::Boolean(b) => {
        let p = seq![
            if b {
                1u8
            } else {
                0u8
            },
        ];
        lemma_read_tag(ClrTypeTag::Boolean, p + rest);
        assert(d =~= tag_bytes(ClrTypeTag::Boolean) + (p + rest));
        assert(d[4] == p[0]);
        },
        _ => {},
    }
}

proof fn lemma_round_trip_int32(v: ClrModel, rest: Seq<u8>)
    requires
        v is Int32,
        wire_ok(v),
    ensures
        decode(encode(v) + rest) == Decoded::Value(normalize(v), encode(v).len()),
{
    let d = encode(v) + rest;
    match v {
        ClrModel::Int32(n) => {
        let p = le32(i32_pattern(n as int));
        lemma_read_tag(ClrTypeTag::Int32, p + rest);
        assert(d =~= tag_bytes(ClrTypeTag::Int32) + (p + rest));
        assert(d[4] == p[0] && d[5] == p[1] && d[6] == p[2] && d[7] == p[3]);
        lemma_le32_value(d, 4, i32_pattern(n as int));
        },
        _ => {},
    }
}

proof fn lemma_round_trip_u_int32(v: ClrModel, rest: Seq<u8>)
    requires
        v is UInt32,
        wire_ok(v),
    ensures
        decode(encode(v) + rest) == Decoded::Value(normalize(v), encode(v).len()),
{
    let d = encode(v) + rest;
    match v {
        ClrModel::UInt32(n) => {
        let p = le32(n as nat);
        lemma_read_tag(ClrTypeTag::UInt32, p + rest);
        assert(d =~= tag_bytes(ClrTypeTag::UInt32) + (p + rest));
        assert(d[4] == p[0] && d[5] == p[1] && d[6] == p[2] && d[7] == p[3]);
        lemma_le32_value(d, 4, n as nat);
        },
        _ => {},
    }
}

proof fn lemma_round_trip_int64(v: ClrModel, rest: Seq<u8>)
    requires
        v is Int64,
        wire_ok(v),
    ensures
        decode(encode(v) + rest) == Decoded::Value(normalize(v), encode(v).len()),
{
    let d = encode(v) + rest;
    match v {
        ClrModel::Int64(n) => {
        let x = crate::binary64::b64_from_int(n as int) as nat;
        lemma_read_tag(ClrTypeTag::Number, le64(x) + rest);
        assert(d =~= tag_bytes(ClrTypeTag::Number) + (le64(x) + rest));
        lemma_read64(tag_bytes(ClrTypeTag::Number), x, rest);
        assert(d =~= tag_bytes(ClrTypeTag::Number) + le64(x) + rest);
        },
        _ => {},
    }
}

proof fn lemma_round_trip_double(v: ClrModel, rest: Seq<u8>)
    requires
        v is Double,
        wire_ok(v),
    ensures
        decode(encode(v) + rest) == Decoded::Value(normalize(v), encode(v).len()),
{
    let d = encode(v) + rest;
    match v {
        ClrModel::Double(b) => {
        let x = b as nat;
        lemma_read_tag(ClrTypeTag::Number, le64(x) + rest);
        assert(d =~= tag_bytes(ClrTypeTag::Number) + (le64(x) + rest));
        lemma_read64(tag_bytes(ClrTypeTag::Number), x, rest);
        assert(d =~= tag_bytes(ClrTypeTag::Number) + le64(x) + rest);
        },
        _ => {},
    }
}

proof fn lemma_round_trip_float(v: ClrModel, rest: Seq<u8>)
    requires
        v is Float,
        wire_ok(v),
    ensures
        decode(encode(v) + rest) == Decoded::Value(normalize(v), encode(v).len()),
{
    let d = encode(v) + rest;
    match v {
        ClrModel::Float(b) => {
        let x = crate::binary64::b64_from_b32(b) as nat;
        lemma_read_tag(ClrTypeTag::Number, le64(x) + rest);
        assert(d =~= tag_bytes(ClrTypeTag::Number) + (le64(x) + rest));
        lemma_read64(tag_bytes(ClrTypeTag::Number), x, rest);
        assert(d =~= tag_bytes(ClrTypeTag::Number) + le64(x) + rest);
        },
        _ => {},
    }
}

proof fn lemma_round_trip_date_time(v: ClrModel, rest: Seq<u8>)
    requires
        v is DateTime,
        wire_ok(v),
    ensures
        decode(encode(v) + rest) == Decoded::Value(normalize(v), encode(v).len()),
{
    let d = encode(v) + rest;
    match v {
        ClrModel::DateTime(n) => {
        let x = crate::binary64::b64_from_int(n as int) as nat;
        lemma_read_tag(ClrTypeTag::Date, le64(x) + rest);
        assert(d =~= tag_bytes(ClrTypeTag::Date) + (le64(x) + rest));
        lemma_read64(tag_bytes(ClrTypeTag::Date), x, rest);
        assert(d =~= tag_bytes(ClrTypeTag::Date) + le64(x) + rest);
        },
        _ => {},
    }
}

proof fn lemma_round_trip_callback(v: ClrModel, rest: Seq<u8>)
    requires
        v is Callback,
        wire_ok(v),
    ensures
        decode(encode(v) + rest) == Decoded::Value(normalize(v), encode(v).len()),
{
    let d = encode(v) + rest;
    match v {
        ClrModel::Callback(id) => {
        let x = id as nat;
        lemma_read_tag(ClrTypeTag::Function, le64(x) + rest);
        assert(d =~= tag_bytes(ClrTypeTag::Function) + (le64(x) + rest));
        lemma_read64(tag_bytes(ClrTypeTag::Function), x, rest);
        assert(d =~= tag_bytes(ClrTypeTag::Function) + le64(x) + rest);
        },
        _ => {},
    }
}

proof fn lemma_round_trip_buffer(v: ClrModel, rest: Seq<u8>)
    requires
        v is Buffer,
        wire_ok(v),
    ensures
        decode(encode(v) + rest) == Decoded::Value(normalize(v), encode(v).len()),
{
    let d = encode(v) + rest;
    match v {
        ClrModel::Buffer(b) => {
        let t = tag_bytes(ClrTypeTag::Buffer);
        lemma_read_tag(ClrTypeTag::Buffer, count_bytes(b.len()) + b + rest);
        assert(d =~= t + (count_bytes(b.len()) + b + rest));
        lemma_read_count(t, b.len(), b + rest);
        assert(d =~= t + count_bytes(b.len()) + (b + rest));
        assert(d.subrange(8, 8 + b.len() as int) =~= b);
        },
        _ => {},
    }
}

proof fn lemma_round_trip_array(v: ClrModel, rest: Seq<u8>)
    requires
        v is Array,
        wire_ok(v),
    ensures
        decode(encode(v) + rest) == Decoded::Value(normalize(v), encode(v).len()),
    decreases v, 0nat,
{
    let d = encode(v) + rest;
    match v {
        ClrModel::Array(items) => {
        let t = tag_bytes(ClrTypeTag::Array);
        let body = encode_seq(items);
        lemma_read_tag(ClrTypeTag::Array, count_bytes(items.len()) + body + rest);
        assert(d =~= t + (count_bytes(items.len()) + body + rest));
        lemma_read_count(t, items.len(), body + rest);
        assert(d =~= t + count_bytes(items.len()) + (body + rest));
        assert(d.subrange(8, d.len() as int) =~= body + rest);
        assert(decreases_to!(v => v->Array_0));
        lemma_decode_encode_seq(items, rest, seq![]);
        assert(Seq::<ClrModel>::empty() + normalize_seq(items) =~= normalize_seq(items));
        },
        _ => {},
    }
}

proof fn lemma_round_trip_object(v: ClrModel, rest: Seq<u8>)
    requires
        v is Object,
        wire_ok(v),
    ensures
        decode(encode(v) + rest) == Decoded::Value(normalize(v), encode(v).len()),
    decreases v, 0nat,
{
    let d = encode(v) + rest;
    match v {
        ClrModel::Object(es) => {
        let t = tag_bytes(ClrTypeTag::Object);
        let body = encode_entries(es);
        lemma_read_tag(ClrTypeTag::Object, count_bytes(es.len()) + body + rest);
        assert(d =~= t + (count_bytes(es.len()) + body + rest));
        lemma_read_count(t, es.len(), body + rest);
        assert(d =~= t + count_bytes(es.len()) + (body + rest));
        assert(d.subrange(8, d.len() as int) =~= body + rest);
        assert(decreases_to!(v => v->Object_0));
        lemma_decode_encode_entries(es, rest, seq![]);
        assert(Seq::<(Seq<char>, ClrModel)>::empty() + normalize_entries(es) =~= normalize_entries(es));
        },
        _ => {},
    }
}

/// Reading back consecutive encodings of a sequence of values.
pub proof fn lemma_decode_encode_seq(s: Seq<ClrModel>, rest: Seq<u8>, acc: Seq<ClrModel>)
    requires
        all_wire_ok(s),
    ensures
        decode_seq(encode_seq(s) + rest, s.len(), acc) == DecodedSeq::Values(
            acc + normalize_seq(s),
            encode_seq(s).len(),
        ),
    decreases s, 2nat,
{
    if s.len() == 0 {
        assert(acc + normalize_seq(s) =~= acc);
    } else {
        let tail = s.subrange(1, s.len() as int);
        let d = encode_seq(s) + rest;
        let e0 = encode(s[0]);
        assert(d =~= e0 + (encode_seq(tail) + rest));
        lemma_decode_encode(s[0], encode_seq(tail) + rest);
        assert(d.subrange(e0.len() as int, d.len() as int) =~= encode_seq(tail) + rest);
        lemma_decode_encode_seq(tail, rest, acc.push(normalize(s[0])));
        assert(acc.push(normalize(s[0])) + normalize_seq(tail) =~= acc + normalize_seq(s));
    }
}

/// The keys of an entry list.
pub open spec fn has_key(es: Seq<(Seq<char>, ClrModel)>, k: Seq<char>) -> bool {
    exists|i: int| 0 <= i < es.len() && es[i].0 == k
}

/// `r` with `s` more bytes counted as taken.
pub open spec fn shift_entries(r: DecodedEntries, s: nat) -> DecodedEntries {
    match r {
        DecodedEntries::Entries(es, k) => DecodedEntries::Entries(es, k + s),
        other => other,
    }
}

/// One step of reading object entries back: the first key and value are read, and the
/// rest of the entries follow.
#[verifier::rlimit(60)]
#[verifier::spinoff_prover]
proof fn lemma_decode_entry_step(
    es: Seq<(Seq<char>, ClrModel)>,
    rest: Seq<u8>,
    acc: Seq<(Seq<char>, ClrModel)>,
)
    requires
        es.len() > 0,
        entries_wire_ok(es),
    ensures
        decode_entries(encode_entries(es) + rest, es.len(), acc) == shift_entries(
            decode_entries(
                encode_entries(es.subrange(1, es.len() as int)) + rest,
                (es.len() - 1) as nat,
                insert_entry(acc, es[0].0, normalize(es[0].1)),
            ),
            text_bytes(es[0].0).len() + encode(es[0].1).len(),
        ),
    decreases es, 1nat,
{
    let tail = es.subrange(1, es.len() as int);
    let k0 = es[0].0;
    let v0 = es[0].1;
    let kb = encode_utf8(k0);
    let d = encode_entries(es) + rest;
    let e0 = encode(v0);
    let after_key = e0 + (encode_entries(tail) + rest);
    assert(d =~= count_bytes(kb.len()) + (kb + after_key));
    assert(d[0] == count_bytes(kb.len())[0] && d[1] == count_bytes(kb.len())[1] && d[2]
        == count_bytes(kb.len())[2] && d[3] == count_bytes(kb.len())[3]);
    assert(kb.len() % two_32() == kb.len());
    lemma_le32_value(d, 0, kb.len());
    assert(d.subrange(4, 4 + kb.len() as int) =~= kb);
    encode_utf8_valid_utf8(k0);
    encode_utf8_decode_utf8(k0);
    assert(d.subrange(4 + kb.len() as int, d.len() as int) =~= after_key);
    assert(decreases_to!(es => es[0]));
    assert(decreases_to!(es[0] => es[0].1));
    lemma_decode_encode(v0, encode_entries(tail) + rest);
    assert(d.subrange(4 + kb.len() + e0.len() as int, d.len() as int) =~= encode_entries(tail)
        + rest);
}

/// Inserting a key that is not present appends the entry.
proof fn lemma_insert_fresh(acc: Seq<(Seq<char>, ClrModel)>, k: Seq<char>, v: ClrModel)
    requires
        !has_key(acc, k),
    ensures
        insert_entry(acc, k, v) == acc.push((k, v)),
{
}

/// The keys of the tail of an entry list with distinct keys are distinct, and are not
/// among the keys of `acc` extended by the first entry.
proof fn lemma_fresh_tail(
    es: Seq<(Seq<char>, ClrModel)>,
    acc: Seq<(Seq<char>, ClrModel)>,
    v: ClrModel,
)
    requires
        es.len() > 0,
        keys_unique(es),
        forall|i: int| 0 <= i < es.len() ==> !has_key(acc, #[trigger] es[i].0),
    ensures
        ({
            let tail = es.subrange(1, es.len() as int);
            let acc2 = acc.push((es[0].0, v));
            &&& keys_unique(tail)
            &&& forall|i: int| 0 <= i < tail.len() ==> !has_key(acc2, #[trigger] tail[i].0)
        }),
{
    let tail = es.subrange(1, es.len() as int);
    let acc2 = acc.push((es[0].0, v));
    assert forall|i: int| 0 <= i < tail.len() implies !has_key(acc2, #[trigger] tail[i].0) by {
        assert(tail[i] == es[i + 1]);
        if has_key(acc2, tail[i].0) {
            let j = choose|j: int| 0 <= j < acc2.len() && acc2[j].0 == tail[i].0;
            if j < acc.len() {
                assert(acc[j].0 == es[i + 1].0);
                assert(has_key(acc, es[i + 1].0));
            } else {
                assert(es[0].0 == es[i + 1].0);
            }
        }
    }
    assert forall|a: int, b: int| 0 <= a < b < tail.len() implies tail[a].0 != tail[b].0 by {
        assert(tail[a] == es[a + 1] && tail[b] == es[b + 1]);
    }
}

/// Reading back consecutive encodings of object entries whose keys are distinct from
/// each other and from those already read.
pub proof fn lemma_decode_encode_entries(
    es: Seq<(Seq<char>, ClrModel)>,
    rest: Seq<u8>,
    acc: Seq<(Seq<char>, ClrModel)>,
)
    requires
        entries_wire_ok(es),
        keys_unique(es),
        forall|i: int| 0 <= i < es.len() ==> !has_key(acc, #[trigger] es[i].0),
    ensures
        decode_entries(encode_entries(es) + rest, es.len(), acc) == DecodedEntries::Entries(
            acc + normalize_entries(es),
            encode_entries(es).len(),
        ),
    decreases es, 2nat,
{
    if es.len() == 0 {
        assert(acc + normalize_entries(es) =~= acc);
    } else {
        let tail = es.subrange(1, es.len() as int);
        let k0 = es[0].0;
        let nv0 = normalize(es[0].1);
        lemma_decode_entry_step(es, rest, acc);
        assert(!has_key(acc, k0));
        lemma_insert_fresh(acc, k0, nv0);
        lemma_fresh_tail(es, acc, nv0);
        lemma_decode_encode_entries(tail, rest, acc.push((k0, nv0)));
        assert(acc.push((k0, nv0)) + normalize_entries(tail) =~= acc + normalize_entries(es));
    }
}

} // verus!
