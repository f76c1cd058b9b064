//! What comes off the wire is in normal form: writing it again and reading it back
//! changes nothing.
use crate::binary64::{clamp, lemma_int_b64_int, round_to_b64};
use crate::laws::lemma_decode_encode;
use crate::marshal::ClrModel;
use crate::rounding::lemma_clamp_round_fixed;
use crate::wire::{
    all_wire_ok, decode, encode, entries_wire_ok, keys_unique, normalize, normalize_entries,
    normalize_seq, wire_ok, Decoded,
};
use vstd::prelude::*;

verus! {

/// Normalizing a sequence normalizes each element and keeps the length.
proof fn lemma_normalize_seq_index(s: Seq<ClrModel>)
    ensures
        normalize_seq(s).len() == s.len(),
        forall|i: int| 0 <= i < s.len() ==> #[trigger] normalize_seq(s)[i] == normalize(s[i]),
    decreases s.len(),
{
    if s.len() > 0 {
        let tail = s.subrange(1, s.len() as int);
        lemma_normalize_seq_index(tail);
        assert forall|i: int| 0 <= i < s.len() implies #[trigger] normalize_seq(s)[i] == normalize(s[i]) by {
            if i > 0 {
                assert(normalize_seq(s)[i] == normalize_seq(tail)[i - 1]);
                assert(tail[i - 1] == s[i]);
            }
        }
    }
}

/// Normalizing entries normalizes each value, keeps each key and keeps the length.
proof fn lemma_normalize_entries_index(es: Seq<(Seq<char>, ClrModel)>)
    ensures
        normalize_entries(es).len() == es.len(),
        forall|i: int|
            0 <= i < es.len() ==> (#[trigger] normalize_entries(es)[i]).0 == es[i].0
                && normalize_entries(es)[i].1 == normalize(es[i].1),
    decreases es.len(),
{
    if es.len() > 0 {
        let tail = es.subrange(1, es.len() as int);
        lemma_normalize_entries_index(tail);
        assert forall|i: int| 0 <= i < es.len() implies (#[trigger] normalize_entries(es)[i]).0
            == es[i].0 && normalize_entries(es)[i].1 == normalize(es[i].1) by {
            if i > 0 {
                assert(normalize_entries(es)[i] == normalize_entries(tail)[i - 1]);
                assert(tail[i - 1] == es[i]);
            }
        }
    }
}

/// Values read back from the wire are already in normal form.
pub proof fn lemma_normalize_idempotent(v: ClrModel)
    ensures
        normalize(normalize(v)) == normalize(v),
    decreases v, 1nat,
{
    match v {
        ClrModel::DateTime(n) => {
            lemma_int_b64_int(n as int, i64::MIN as int, i64::MAX as int);
            lemma_clamp_round_fixed(n as int);
            let c = clamp(round_to_b64(n as int), i64::MIN as int, i64::MAX as int);
            lemma_int_b64_int(c, i64::MIN as int, i64::MAX as int);
        },
        ClrModel::Array(items) => {
            assert(decreases_to!(v => v->Array_0));
            lemma_normalize_seq_idempotent(items);
        },
        ClrModel::Object(es) => {
            assert(decreases_to!(v => v->Object_0));
            lemma_normalize_entries_idempotent(es);
        },
        _ => {},
    }
}

proof fn lemma_normalize_seq_idempotent(s: Seq<ClrModel>)
    ensures
        normalize_seq(normalize_seq(s)) == normalize_seq(s),
    decreases s, 2nat,
{
    lemma_normalize_seq_index(s);
    lemma_normalize_seq_index(normalize_seq(s));
    assert forall|i: int| 0 <= i < s.len() implies normalize_seq(normalize_seq(s))[i]
        == normalize_seq(s)[i] by {
        assert(decreases_to!(s => s[i]));
        lemma_normalize_idempotent(s[i]);
    }
    assert(normalize_seq(normalize_seq(s)) =~= normalize_seq(s));
}

proof fn lemma_normalize_entries_idempotent(es: Seq<(Seq<char>, ClrModel)>)
    ensures
        normalize_entries(normalize_entries(es)) == normalize_entries(es),
    decreases es, 2nat,
{
    lemma_normalize_entries_index(es);
    lemma_normalize_entries_index(normalize_entries(es));
    assert forall|i: int| 0 <= i < es.len() implies normalize_entries(normalize_entries(es))[i]
        == normalize_entries(es)[i] by {
        assert(decreases_to!(es => es[i]));
        assert(decreases_to!(es[i] => es[i].1));
        lemma_normalize_idempotent(es[i].1);
    }
    assert(normalize_entries(normalize_entries(es)) =~= normalize_entries(es));
}

/// Normalizing keeps a value fit for the wire.
pub proof fn lemma_normalize_wire_ok(v: ClrModel)
    requires
        wire_ok(v),
    ensures
        wire_ok(normalize(v)),
    decreases v, 1nat,
{
    match v {
        ClrModel::Array(items) => {
            assert(decreases_to!(v => v->Array_0));
            lemma_normalize_seq_index(items);
            lemma_all_wire_ok_normalize(items);
        },
        ClrModel::Object(es) => {
            assert(decreases_to!(v => v->Object_0));
            lemma_normalize_entries_index(es);
            lemma_entries_wire_ok_normalize(es);
            let ne = normalize_entries(es);
            assert forall|i: int, j: int| 0 <= i < j < ne.len() implies ne[i].0 != ne[j].0 by {
                assert(ne[i].0 == es[i].0);
                assert(ne[j].0 == es[j].0);
            }
            assert(keys_unique(ne));
        },
        _ => {},
    }
}

proof fn lemma_all_wire_ok_normalize(s: Seq<ClrModel>)
    requires
        all_wire_ok(s),
    ensures
        all_wire_ok(normalize_seq(s)),
    decreases s, 2nat,
{
    if s.len() > 0 {
        let tail = s.subrange(1, s.len() as int);
        assert(decreases_to!(s => s[0]));
        lemma_normalize_wire_ok(s[0]);
        lemma_all_wire_ok_normalize(tail);
        let ns = normalize_seq(s);
        assert(ns.subrange(1, ns.len() as int) =~= normalize_seq(tail));
    }
}

proof fn lemma_entries_wire_ok_normalize(es: Seq<(Seq<char>, ClrModel)>)
    requires
        entries_wire_ok(es),
    ensures
        entries_wire_ok(normalize_entries(es)),
    decreases es, 2nat,
{
    if es.len() > 0 {
        let tail = es.subrange(1, es.len() as int);
        assert(decreases_to!(es => es[0]));
        assert(decreases_to!(es[0] => es[0].1));
        lemma_normalize_wire_ok(es[0].1);
        lemma_entries_wire_ok_normalize(tail);
        let ne = normalize_entries(es);
        assert(ne.subrange(1, ne.len() as int) =~= normalize_entries(tail));
    }
}

/// A value that came off the wire crosses it again unchanged: writing it and reading
/// it back gives it again, taking exactly the bytes written.
pub proof fn lemma_second_round_trip(v: ClrModel, rest: Seq<u8>)
    requires
        wire_ok(v),
    ensures
        decode(encode(normalize(v)) + rest) == Decoded::Value(
            normalize(v),
            encode(normalize(v)).len(),
        ),
{
    lemma_normalize_wire_ok(v);
    lemma_decode_encode(normalize(v), rest);
    lemma_normalize_idempotent(v);
}

} // verus!
