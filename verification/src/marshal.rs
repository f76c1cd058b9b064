//! Values passed between Rust and .NET, and their binary wire format.
//!
//! Every value is written as a little-endian 32-bit type tag followed by its
//! payload. Strings carry a 32-bit byte count and their UTF-8 bytes; numbers are
//! written as the 8 bytes of a binary64 pattern; arrays and objects carry an
//! element count followed by their elements (objects: key text, then value).
use crate::binary64::{b64_from_b32, b64_from_int, b64_of_b32, b64_of_i64, b64_to_i64};
use crate::text::{push_decimal, utf8_decode};
use crate::wire::{
    decode, decode_entries, decode_seq, decode_text_payload, encode, encode_entries, encode_seq,
    i32_at, i32_of_pattern, insert_entry, keys_unique, le32, le32_value, le64, le64_value,
    msg_bad_key, msg_bad_utf8, msg_short_i32, msg_short_tag, msg_unknown_tag, tag_bytes,
    text_bytes, two_32, Decoded, DecodedEntries, DecodedSeq, Failure,
};
use vstd::slice::{slice_subrange, slice_to_vec};
use vstd::string::*;
use crate::error::DotBridgeError;
use vstd::prelude::*;
use vstd::utf8::*;

verus! {

/// Handle to a Rust callback that .NET code can invoke.
#[derive(Debug, Clone, Copy, PartialEq, Eq)]
pub struct CallbackHandle {
    id: u64,
}

impl View for CallbackHandle {
    type V = u64;

    closed spec fn view(&self) -> u64 {
        self.id
    }
}

impl CallbackHandle {
    pub fn new(id: u64) -> (h: Self)
        ensures
            h@ == id,
    {
        CallbackHandle { id }
    }

    pub fn id(&self) -> (r: u64)
        ensures
            r == self@,
    {
        self.id
    }
}

/// Two handles are equal exactly when they hold the same id.
pub proof fn lemma_handle_eq(a: CallbackHandle, b: CallbackHandle)
    ensures
        a@ == b@ <==> a == b,
{
}

/// Type tags of the wire protocol.
#[derive(Debug, Clone, Copy, PartialEq, Eq)]
pub enum ClrTypeTag {
    Function,
    Buffer,
    Array,
    Date,
    Object,
    String,
    Boolean,
    Int32,
    UInt32,
    Number,
    Null,
    Task,
    Exception,
}

/// The integer written on the wire for each tag.
pub open spec fn tag_code(t: ClrTypeTag) -> int {
    match t {
        ClrTypeTag::Function => 1,
        ClrTypeTag::Buffer => 2,
        ClrTypeTag::Array => 3,
        ClrTypeTag::Date => 4,
        ClrTypeTag::Object => 5,
        ClrTypeTag::String => 6,
        ClrTypeTag::Boolean => 7,
        ClrTypeTag::Int32 => 8,
        ClrTypeTag::UInt32 => 9,
        ClrTypeTag::Number => 10,
        ClrTypeTag::Null => 11,
        ClrTypeTag::Task => 12,
        ClrTypeTag::Exception => 13,
    }
}

impl ClrTypeTag {
    /// The integer written on the wire for this tag.
    pub fn code(&self) -> (c: i32)
        ensures
            c == tag_code(*self),
    {
        match self {
            ClrTypeTag::Function => 1,
            ClrTypeTag::Buffer => 2,
            ClrTypeTag::Array => 3,
            ClrTypeTag::Date => 4,
            ClrTypeTag::Object => 5,
            ClrTypeTag::String => 6,
            ClrTypeTag::Boolean => 7,
            ClrTypeTag::Int32 => 8,
            ClrTypeTag::UInt32 => 9,
            ClrTypeTag::Number => 10,
            ClrTypeTag::Null => 11,
            ClrTypeTag::Task => 12,
            ClrTypeTag::Exception => 13,
        }
    }

    /// The tag written as `code` on the wire, if any.
    pub fn from_code(code: i32) -> (t: Option<ClrTypeTag>)
        ensures
            t matches Some(tag) ==> tag_code(tag) == code,
            t is None ==> !(1 <= code <= 13),
    {
        if code == 1 {
            Some(ClrTypeTag::Function)
        } else if code == 2 {
            Some(ClrTypeTag::Buffer)
        } else if code == 3 {
            Some(ClrTypeTag::Array)
        } else if code == 4 {
            Some(ClrTypeTag::Date)
        } else if code == 5 {
            Some(ClrTypeTag::Object)
        } else if code == 6 {
            Some(ClrTypeTag::String)
        } else if code == 7 {
            Some(ClrTypeTag::Boolean)
        } else if code == 8 {
            Some(ClrTypeTag::Int32)
        } else if code == 9 {
            Some(ClrTypeTag::UInt32)
        } else if code == 10 {
            Some(ClrTypeTag::Number)
        } else if code == 11 {
            Some(ClrTypeTag::Null)
        } else if code == 12 {
            Some(ClrTypeTag::Task)
        } else if code == 13 {
            Some(ClrTypeTag::Exception)
        } else {
            None
        }
    }
}

/// A value that can be passed between Rust and .NET.
///
/// Numbers of the floating-point CLR types are held as their IEEE 754 bit
/// patterns (`Double`: binary64, `Float`: binary32). An object is the list of its
/// entries; its keys are meant to be distinct.
#[derive(Debug, PartialEq)]
pub enum ClrValue {
    Null,
    String(String),
    Boolean(bool),
    Int32(i32),
    UInt32(u32),
    Int64(i64),
    Double(u64),
    Float(u32),
    DateTime(i64),
    Guid(String),
    Buffer(Vec<u8>),
    Array(Vec<ClrValue>),
    Object(Vec<(String, ClrValue)>),
    Callback(CallbackHandle),
    Decimal(String),
}

/// The mathematical model of a `ClrValue`.
pub enum ClrModel {
    Null,
    Str(Seq<char>),
    Boolean(bool),
    Int32(i32),
    UInt32(u32),
    Int64(i64),
    Double(u64),
    Float(u32),
    DateTime(i64),
    Guid(Seq<char>),
    Buffer(Seq<u8>),
    Array(Seq<ClrModel>),
    Object(Seq<(Seq<char>, ClrModel)>),
    Callback(u64),
    Decimal(Seq<char>),
}

impl ClrValue {
    /// The model of this value.
    pub open spec fn model(self) -> ClrModel
        decreases self,
    {
        match self {
            ClrValue::Null => ClrModel::Null,
            ClrValue::String(s) => ClrModel::Str(s@),
            ClrValue::Boolean(b) => ClrModel::Boolean(b),
            ClrValue::Int32(n) => ClrModel::Int32(n),
            ClrValue::UInt32(n) => ClrModel::UInt32(n),
            ClrValue::Int64(n) => ClrModel::Int64(n),
            ClrValue::Double(b) => ClrModel::Double(b),
            ClrValue::Float(b) => ClrModel::Float(b),
            ClrValue::DateTime(n) => ClrModel::DateTime(n),
            ClrValue::Guid(s) => ClrModel::Guid(s@),
            ClrValue::Buffer(d) => ClrModel::Buffer(d@),
            ClrValue::Array(items) => ClrModel::Array(models(items@)),
            ClrValue::Object(entries) => ClrModel::Object(entry_models(entries@)),
            ClrValue::Callback(h) => ClrModel::Callback(h@),
            ClrValue::Decimal(s) => ClrModel::Decimal(s@),
        }
    }
}

/// The models of a sequence of values.
pub open spec fn models(s: Seq<ClrValue>) -> Seq<ClrModel>
    decreases s,
{
    if s.len() == 0 {
        seq![]
    } else {
        models(s.drop_last()).push(s.last().model())
    }
}

/// The models of a sequence of object entries.
pub open spec fn entry_models(s: Seq<(String, ClrValue)>) -> Seq<(Seq<char>, ClrModel)>
    decreases s,
{
    if s.len() == 0 {
        seq![]
    } else {
        entry_models(s.drop_last()).push((s.last().0@, s.last().1.model()))
    }
}

// ---------------------------------------------------------------------------
// Facts about the models and encodings of sequences
// ---------------------------------------------------------------------------
pub proof fn lemma_models_index(s: Seq<ClrValue>)
    ensures
        models(s).len() == s.len(),
        forall|i: int| 0 <= i < s.len() ==> #[trigger] models(s)[i] == s[i].model(),
    decreases s.len(),
{
    if s.len() > 0 {
        lemma_models_index(s.drop_last());
    }
}

pub proof fn lemma_entry_models_index(s: Seq<(String, ClrValue)>)
    ensures
        entry_models(s).len() == s.len(),
        forall|i: int|
            0 <= i < s.len() ==> #[trigger] entry_models(s)[i] == (s[i].0@, s[i].1.model()),
    decreases s.len(),
{
    if s.len() > 0 {
        lemma_entry_models_index(s.drop_last());
    }
}

pub proof fn lemma_encode_seq_push(s: Seq<ClrModel>, v: ClrModel)
    ensures
        encode_seq(s.push(v)) == encode_seq(s) + encode(v),
    decreases s.len(),
{
    if s.len() == 0 {
        assert(s.push(v).subrange(1, 1) =~= Seq::<ClrModel>::empty());
        assert(encode_seq(Seq::<ClrModel>::empty()) =~= Seq::<u8>::empty());
        assert(s.push(v)[0] == v);
        assert(encode_seq(s.push(v)) =~= encode(v));
    } else {
        let t = s.subrange(1, s.len() as int);
        lemma_encode_seq_push(t, v);
        assert(s.push(v).subrange(1, s.len() + 1int) =~= t.push(v));
        assert(encode_seq(s.push(v)) =~= encode_seq(s) + encode(v));
    }
}

pub proof fn lemma_encode_entries_push(s: Seq<(Seq<char>, ClrModel)>, e: (Seq<char>, ClrModel))
    ensures
        encode_entries(s.push(e)) == encode_entries(s) + text_bytes(e.0) + encode(e.1),
    decreases s.len(),
{
    if s.len() == 0 {
        assert(s.push(e).subrange(1, 1) =~= Seq::<(Seq<char>, ClrModel)>::empty());
        assert(encode_entries(Seq::<(Seq<char>, ClrModel)>::empty()) =~= Seq::<u8>::empty());
        assert(s.push(e)[0] == e);
        assert(encode_entries(s.push(e)) =~= text_bytes(e.0) + encode(e.1));
    } else {
        let t = s.subrange(1, s.len() as int);
        lemma_encode_entries_push(t, e);
        assert(s.push(e).subrange(1, s.len() + 1int) =~= t.push(e));
        assert(encode_entries(s.push(e)) =~= encode_entries(s) + text_bytes(e.0) + encode(e.1));
    }
}

// ---------------------------------------------------------------------------
// Serialization
// ---------------------------------------------------------------------------
fn push_le32(buf: &mut Vec<u8>, x: u32)
    ensures
        final(buf)@ == old(buf)@ + le32(x as nat),
{
    buf.push((x % 256) as u8);
    buf.push((x / 256 % 256) as u8);
    buf.push((x / 65536 % 256) as u8);
    buf.push((x / 16777216 % 256) as u8);
    assert(final(buf)@ =~= old(buf)@ + le32(x as nat));
}

fn push_le64(buf: &mut Vec<u8>, x: u64)
    ensures
        final(buf)@ == old(buf)@ + le64(x as nat),
{
    push_le32(buf, (x % 0x1_0000_0000) as u32);
    push_le32(buf, (x / 0x1_0000_0000) as u32);
    assert(final(buf)@ =~= old(buf)@ + le64(x as nat));
}

fn push_bytes(buf: &mut Vec<u8>, bytes: &[u8])
    ensures
        final(buf)@ == old(buf)@ + bytes@,
{
    let ghost start = buf@;
    let mut i: usize = 0;
    while i < bytes.len()
        invariant
            i <= bytes@.len(),
            buf@ == start + bytes@.subrange(0, i as int),
        decreases bytes@.len() - i,
    {
        buf.push(bytes[i]);
        i = i + 1;
        assert(buf@ =~= start + bytes@.subrange(0, i as int));
    }
    assert(bytes@.subrange(0, i as int) =~= bytes@);
}

/// A length as written on the wire (`n as i32`), as an unsigned pattern.
fn count_pattern(n: usize) -> (c: u32)
    ensures
        c == n as nat % two_32(),
{
    (n as u64 % 0x1_0000_0000) as u32
}

fn push_tag(buf: &mut Vec<u8>, t: ClrTypeTag)
    ensures
        final(buf)@ == old(buf)@ + tag_bytes(t),
{
    let c = t.code();
    push_le32(buf, c as u32);
}

fn push_text(buf: &mut Vec<u8>, s: &String)
    ensures
        final(buf)@ == old(buf)@ + text_bytes(s@),
{
    let bytes = s.as_str().as_bytes();
    push_le32(buf, count_pattern(bytes.len()));
    push_bytes(buf, bytes);
    assert(final(buf)@ =~= old(buf)@ + text_bytes(s@));
}

impl ClrValue {
    /// Serialize this value into the binary wire format.
    pub fn serialize(&self) -> (buf: Vec<u8>)
        ensures
            buf@ == encode(self.model()),
    {
        let mut buf = Vec::new();
        self.write_to(&mut buf);
        assert(buf@ =~= encode(self.model()));
        buf
    }

    /// Append the wire encoding of this value to `buf`.
    pub fn write_to(&self, buf: &mut Vec<u8>)
        ensures
            final(buf)@ == old(buf)@ + encode(self.model()),
        decreases self,
    {
        let ghost start = buf@;
        match self {
            ClrValue::Null => {
                push_tag(buf, ClrTypeTag::Null);
            },
            ClrValue::String(s) => {
                push_tag(buf, ClrTypeTag::String);
                push_text(buf, s);
            },
            ClrValue::Boolean(b) => {
                push_tag(buf, ClrTypeTag::Boolean);
                buf.push(
                    if *b {
                        1
                    } else {
                        0
                    },
                );
            },
            ClrValue::Int32(n) => {
                push_tag(buf, ClrTypeTag::Int32);
                let p: u32 = if *n < 0 {
                    (*n as i64 + 0x1_0000_0000) as u32
                } else {
                    *n as u32
                };
                push_le32(buf, p);
            },
            ClrValue::UInt32(n) => {
                push_tag(buf, ClrTypeTag::UInt32);
                push_le32(buf, *n);
            },
            ClrValue::Int64(n) => {
                push_tag(buf, ClrTypeTag::Number);
                push_le64(buf, b64_of_i64(*n));
            },
            ClrValue::DateTime(n) => {
                push_tag(buf, ClrTypeTag::Date);
                push_le64(buf, b64_of_i64(*n));
            },
            ClrValue::Double(b) => {
                push_tag(buf, ClrTypeTag::Number);
                push_le64(buf, *b);
            },
            ClrValue::Float(b) => {
                push_tag(buf, ClrTypeTag::Number);
                push_le64(buf, b64_of_b32(*b));
            },
            ClrValue::Buffer(data) => {
                push_tag(buf, ClrTypeTag::Buffer);
                push_le32(buf, count_pattern(data.len()));
                push_bytes(buf, data.as_slice());
            },
            ClrValue::Array(items) => {
                push_tag(buf, ClrTypeTag::Array);
                push_le32(buf, count_pattern(items.len()));
                let ghost head = buf@;
                proof {
                    lemma_models_index(items@);
                    assert(models(items@).subrange(0, 0) =~= Seq::<ClrModel>::empty());
                }
                let mut i: usize = 0;
                while i < items.len()
                    invariant
                        *self == ClrValue::Array(*items),
                        i <= items@.len(),
                        models(items@).len() == items@.len(),
                        forall|j: int| 0 <= j < items@.len() ==> #[trigger] models(items@)[j] == items@[j].model(),
                        buf@ == head + encode_seq(models(items@).subrange(0, i as int)),
                    decreases items@.len() - i,
                {
                    proof {
                        vstd::std_specs::vec::axiom_vec_index_decreases(*items, i as int);
                        assert(decreases_to!(*self => (*self)->Array_0));
                        assert(decreases_to!(*self => items@[i as int]));
                    }
                    items[i].write_to(buf);
                    proof {
                        let ms = models(items@);
                        lemma_encode_seq_push(ms.subrange(0, i as int), ms[i as int]);
                        assert(ms.subrange(0, i + 1) =~= ms.subrange(0, i as int).push(ms[i as int]));
                    }
                    i = i + 1;
                }
                proof {
                    assert(models(items@).subrange(0, i as int) =~= models(items@));
                }
            },
            ClrValue::Object(entries) => {
                push_tag(buf, ClrTypeTag::Object);
                push_le32(buf, count_pattern(entries.len()));
                let ghost head = buf@;
                proof {
                    lemma_entry_models_index(entries@);
                    assert(entry_models(entries@).subrange(0, 0) =~= Seq::<(Seq<char>, ClrModel)>::empty());
                }
                let mut i: usize = 0;
                while i < entries.len()
                    invariant
                        *self == ClrValue::Object(*entries),
                        i <= entries@.len(),
                        entry_models(entries@).len() == entries@.len(),
                        forall|j: int|
                            0 <= j < entries@.len() ==> #[trigger] entry_models(entries@)[j] == (
                            entries@[j].0@,
                            entries@[j].1.model(),
                        ),
                        buf@ == head + encode_entries(entry_models(entries@).subrange(0, i as int)),
                    decreases entries@.len() - i,
                {
                    let entry = &entries[i];
                    proof {
                        vstd::std_specs::vec::axiom_vec_index_decreases(*entries, i as int);
                        assert(decreases_to!(*self => (*self)->Object_0));
                        assert(decreases_to!(entries@[i as int] => entries@[i as int].1));
                        assert(decreases_to!(*self => entries@[i as int].1));
                    }
                    push_text(buf, &entry.0);
                    entry.1.write_to(buf);
                    proof {
                        let ms = entry_models(entries@);
                        lemma_encode_entries_push(ms.subrange(0, i as int), ms[i as int]);
                        assert(ms.subrange(0, i + 1) =~= ms.subrange(0, i as int).push(ms[i as int]));
                    }
                    i = i + 1;
                }
                proof {
                    assert(entry_models(entries@).subrange(0, i as int) =~= entry_models(entries@));
                }
            },
            ClrValue::Callback(h) => {
                push_tag(buf, ClrTypeTag::Function);
                push_le64(buf, h.id());
            },
            ClrValue::Guid(s) => {
                push_tag(buf, ClrTypeTag::String);
                push_text(buf, s);
            },
            ClrValue::Decimal(s) => {
                push_tag(buf, ClrTypeTag::String);
                push_text(buf, s);
            },
        }
        assert(buf@ =~= start + encode(self.model()));
    }
}

// ---------------------------------------------------------------------------
// Deserialization
// ---------------------------------------------------------------------------
/// `e` is the error that the refusal `f` describes.
pub open spec fn failure_is(e: DotBridgeError, f: Failure) -> bool {
    match f {
        Failure::Marshal(m) => e.is_marshal_error(m),
        Failure::Exception(m) => e.is_exception_without_trace(m),
    }
}

/// The outcome of parsing one value, where a fault is an input on which slicing or
/// allocating would fail.
pub enum Parsed {
    Value(ClrValue, usize),
    Failed(DotBridgeError),
    Fault,
}

/// `r` is the executable form of the parse outcome `d`.
pub open spec fn parsed_matches(r: Parsed, d: Decoded) -> bool {
    match d {
        Decoded::Value(m, k) => r matches Parsed::Value(v, n) && v.model() == m && n == k,
        Decoded::Failed(f) => r matches Parsed::Failed(e) && failure_is(e, f),
        Decoded::Fault => r is Fault,
    }
}

/// `r` is the executable form of the parse outcome `d`.
pub open spec fn result_matches(r: Result<(ClrValue, usize), DotBridgeError>, d: Decoded) -> bool {
    match d {
        Decoded::Value(m, k) => r matches Ok((v, n)) && v.model() == m && n == k,
        Decoded::Failed(f) => r matches Err(e) && failure_is(e, f),
        Decoded::Fault => false,
    }
}

fn le32_at(data: &[u8], i: usize) -> (x: u32)
    requires
        i + 4 <= data@.len(),
    ensures
        x == le32_value(data@, i as int),
{
    data[i] as u32 + data[i + 1] as u32 * 256 + data[i + 2] as u32 * 65536 + data[i + 3] as u32
        * 16777216
}

pub(crate) fn le64_at(data: &[u8], i: usize) -> (x: u64)
    requires
        i + 8 <= data@.len(),
    ensures
        x == le64_value(data@, i as int),
{
    let total = data.len();
    assert(i + 8 <= total);
    let lo = le32_at(data, i) as u64;
    let hi = le32_at(data, i + 4) as u64;
    lo + hi * 0x1_0000_0000
}

fn i32_of(x: u32) -> (n: i32)
    ensures
        n == i32_of_pattern(x as nat),
{
    if x >= 0x8000_0000 {
        (x as i64 - 0x1_0000_0000) as i32
    } else {
        x as i32
    }
}

fn marshal_error(msg: &str) -> (e: DotBridgeError)
    ensures
        e.is_marshal_error(msg@),
{
    DotBridgeError::MarshalError(msg.to_owned())
}

/// Read a little-endian `i32` from the start of `data`.
pub fn read_i32(data: &[u8]) -> (r: Result<i32, DotBridgeError>)
    ensures
        data@.len() < 4 ==> (r matches Err(e) && e.is_marshal_error(msg_short_i32())),
        data@.len() >= 4 ==> r == Ok::<i32, DotBridgeError>(i32_at(data@, 0) as i32),
{
    if data.len() < 4 {
        return Err(marshal_error("buffer too short for i32"));
    }
    Ok(i32_of(le32_at(data, 0)))
}

/// The length-prefixed text that follows the tag at `pos`.
fn parse_text(data: &[u8], pos: usize, as_exception: bool) -> (r: Parsed)
    requires
        pos + 4 <= data@.len(),
    ensures
        parsed_matches(r, decode_text_payload(data@.subrange(pos as int, data@.len() as int), as_exception)),
        r matches Parsed::Value(_, k) ==> pos + k <= data@.len(),
{
    let ghost d = data@.subrange(pos as int, data@.len() as int);
    let rem = data.len() - pos;
    if rem < 8 {
        return Parsed::Failed(marshal_error("buffer too short for i32"));
    }
    let n = i32_of(le32_at(data, pos + 4));
    assert(n == i32_at(d, 4));
    if n < 0 || n as usize > rem - 8 {
        return Parsed::Fault;
    }
    let n = n as usize;
    let bytes = slice_subrange(data, pos + 8, pos + 8 + n);
    assert(bytes@ =~= d.subrange(8, 8 + n as int));
    match utf8_decode(bytes) {
        Ok(s) => {
            if as_exception {
                Parsed::Failed(DotBridgeError::DotNetException { message: s, stack_trace: None })
            } else {
                Parsed::Value(ClrValue::String(s), 8 + n)
            }
        },
        Err(m) => {
            let mut msg = "invalid UTF-8: ".to_owned();
            msg.append(m.as_str());
            Parsed::Failed(DotBridgeError::MarshalError(msg))
        },
    }
}

pub proof fn lemma_entry_models_update(s: Seq<(String, ClrValue)>, i: int, e: (String, ClrValue))
    requires
        0 <= i < s.len(),
    ensures
        entry_models(s.update(i, e)) == entry_models(s).update(i, (e.0@, e.1.model())),
{
    lemma_entry_models_index(s);
    lemma_entry_models_index(s.update(i, e));
    assert(entry_models(s.update(i, e)) =~= entry_models(s).update(i, (e.0@, e.1.model())));
}

/// Insert `key => value` into an object's entries, replacing the value of an entry with
/// an equal key.
fn insert_entry_into(entries: &mut Vec<(String, ClrValue)>, key: String, value: ClrValue)
    requires
        keys_unique(entry_models(old(entries)@)),
    ensures
        entry_models(final(entries)@) == insert_entry(
            entry_models(old(entries)@),
            key@,
            value.model(),
        ),
        keys_unique(entry_models(final(entries)@)),
{
    let ghost es = entry_models(entries@);
    proof {
        lemma_entry_models_index(entries@);
    }
    let mut i: usize = 0;
    while i < entries.len()
        invariant
            i <= entries@.len(),
            entries@ == old(entries)@,
            es == entry_models(entries@),
            es.len() == entries@.len(),
            forall|j: int| 0 <= j < entries@.len() ==> #[trigger] es[j] == (entries@[j].0@, entries@[j].1.model()),
            forall|j: int| 0 <= j < i ==> es[j].0 != key@,
            keys_unique(es),
        decreases entries@.len() - i,
    {
        if entries[i].0 == key {
            proof {
                assert(es[i as int].0 == key@);
                let c = choose|j: int| 0 <= j < es.len() && es[j].0 == key@;
                assert(c == i);
                lemma_entry_models_update(entries@, i as int, (key, value));
                assert(insert_entry(es, key@, value.model()) == es.update(i as int, (key@, value.model())));
            }
            entries.set(i, (key, value));
            proof {
                assert forall|a: int, b: int|
                    0 <= a < b < entry_models(entries@).len() implies entry_models(entries@)[a].0
                    != entry_models(entries@)[b].0 by {
                    assert(entry_models(entries@) == es.update(i as int, (key@, value.model())));
                }
            }
            return;
        }
        i = i + 1;
    }
    proof {
        assert(!(exists|j: int| 0 <= j < es.len() && es[j].0 == key@));
        assert(entries@.push((key, value)).drop_last() =~= entries@);
    }
    entries.push((key, value));
}


/// `r` is the executable form of the outcome `d` of parsing array elements.
pub open spec fn items_match(r: Parsed, d: DecodedSeq) -> bool {
    match d {
        DecodedSeq::Values(vs, k) => r matches Parsed::Value(v, n) && v.model() == ClrModel::Array(vs)
            && n == k,
        DecodedSeq::Failed(f) => r matches Parsed::Failed(e) && failure_is(e, f),
        DecodedSeq::Fault => r is Fault,
    }
}

/// `r` is the executable form of the outcome `d` of parsing object entries.
pub open spec fn entries_match(r: Parsed, d: DecodedEntries) -> bool {
    match d {
        DecodedEntries::Entries(es, k) => r matches Parsed::Value(v, n) && v.model()
            == ClrModel::Object(es) && n == k,
        DecodedEntries::Failed(f) => r matches Parsed::Failed(e) && failure_is(e, f),
        DecodedEntries::Fault => r is Fault,
    }
}

/// Parse `count` array elements starting at `start`.
#[verifier::rlimit(40)]
#[verifier::spinoff_prover]
fn parse_items(data: &[u8], start: usize, count: u32) -> (r: Parsed)
    requires
        8 <= start <= data@.len(),
    ensures
        items_match(r, decode_seq(data@.subrange(start as int, data@.len() as int), count as nat, seq![])),
        r matches Parsed::Value(_, k) ==> start + k <= data@.len(),
    decreases data@.len() - start + 8, 0nat,
{
    let ghost d8 = data@.subrange(start as int, data@.len() as int);
    let mut items: Vec<ClrValue> = Vec::new();
    let mut offset = start;
    let mut i: u32 = 0;
    proof {
        assert(d8 =~= data@.subrange(offset as int, data@.len() as int));
        assert(models(items@) =~= Seq::<ClrModel>::empty());
    }
    while i < count
        invariant
            8 <= start <= offset <= data@.len(),
            i <= count,
            d8 == data@.subrange(start as int, data@.len() as int),
            decode_seq(d8, count as nat, seq![]) == shift_seq(
                decode_seq(
                    data@.subrange(offset as int, data@.len() as int),
                    (count - i) as nat,
                    models(items@),
                ),
                (offset - start) as nat,
            ),
        decreases count - i,
    {
        let ghost dd = data@.subrange(offset as int, data@.len() as int);
        let ghost acc = models(items@);
        let total = data.len();
        let r = parse_at(data, offset);
        match r {
            Parsed::Value(v, k) => {
                proof {
                    assert(dd.subrange(k as int, dd.len() as int) =~= data@.subrange(
                        (offset + k) as int,
                        data@.len() as int,
                    ));
                    assert(items@.push(v).drop_last() =~= items@);
                    assert(models(items@.push(v)) == acc.push(v.model()));
                }
                items.push(v);
                offset = offset + k;
                i = i + 1;
            },
            Parsed::Failed(e) => {
                return Parsed::Failed(e);
            },
            Parsed::Fault => {
                return Parsed::Fault;
            },
        }
    }
    Parsed::Value(ClrValue::Array(items), offset - start)
}

/// Parse `count` object entries starting at `start`.
#[verifier::rlimit(40)]
#[verifier::spinoff_prover]
fn parse_entries(data: &[u8], start: usize, count: u32) -> (r: Parsed)
    requires
        8 <= start <= data@.len(),
    ensures
        entries_match(r, decode_entries(data@.subrange(start as int, data@.len() as int), count as nat, seq![])),
        r matches Parsed::Value(_, k) ==> start + k <= data@.len(),
    decreases data@.len() - start + 8, 0nat,
{
    let ghost d8 = data@.subrange(start as int, data@.len() as int);
    let mut entries: Vec<(String, ClrValue)> = Vec::new();
    let mut offset = start;
    let mut i: u32 = 0;
    proof {
        assert(d8 =~= data@.subrange(offset as int, data@.len() as int));
        assert(entry_models(entries@) =~= Seq::<(Seq<char>, ClrModel)>::empty());
    }
    while i < count
        invariant
            8 <= start <= offset <= data@.len(),
            i <= count,
            d8 == data@.subrange(start as int, data@.len() as int),
            keys_unique(entry_models(entries@)),
            decode_entries(d8, count as nat, seq![]) == shift_entries(
                decode_entries(
                    data@.subrange(offset as int, data@.len() as int),
                    (count - i) as nat,
                    entry_models(entries@),
                ),
                (offset - start) as nat,
            ),
        decreases count - i,
    {
        let ghost dd = data@.subrange(offset as int, data@.len() as int);
        let left = data.len() - offset;
        if left < 4 {
            return Parsed::Failed(marshal_error("buffer too short for i32"));
        }
        let kl = i32_of(le32_at(data, offset));
        assert(kl == i32_at(dd, 0));
        if kl < 0 || kl as usize > left - 4 {
            return Parsed::Fault;
        }
        let kl = kl as usize;
        let kb = slice_subrange(data, offset + 4, offset + 4 + kl);
        assert(kb@ =~= dd.subrange(4, 4 + kl as int));
        let key = match utf8_decode(kb) {
            Ok(key) => key,
            Err(m) => {
                let mut msg = "invalid UTF-8 key: ".to_owned();
                msg.append(m.as_str());
                return Parsed::Failed(DotBridgeError::MarshalError(msg));
            },
        };
        proof {
            assert(dd.subrange(4 + kl as int, dd.len() as int) =~= data@.subrange(
                (offset + 4 + kl) as int,
                data@.len() as int,
            ));
        }
        let r = parse_at(data, offset + 4 + kl);
        match r {
            Parsed::Value(v, k) => {
                proof {
                    assert(dd.subrange((4 + kl + k) as int, dd.len() as int) =~= data@.subrange(
                        (offset + 4 + kl + k) as int,
                        data@.len() as int,
                    ));
                }
                insert_entry_into(&mut entries, key, v);
                offset = offset + 4 + kl + k;
                i = i + 1;
            },
            Parsed::Failed(e) => {
                return Parsed::Failed(e);
            },
            Parsed::Fault => {
                return Parsed::Fault;
            },
        }
    }
    Parsed::Value(ClrValue::Object(entries), offset - start)
}

/// Parse one value starting at `pos`.
#[verifier::rlimit(40)]
#[verifier::spinoff_prover]
fn parse_at(data: &[u8], pos: usize) -> (r: Parsed)
    requires
        pos <= data@.len(),
    ensures
        parsed_matches(r, decode(data@.subrange(pos as int, data@.len() as int))),
        r matches Parsed::Value(_, k) ==> pos + k <= data@.len(),
    decreases data@.len() - pos, 1nat,
{
    let ghost d = data@.subrange(pos as int, data@.len() as int);
    let rem = data.len() - pos;
    if rem < 4 {
        return Parsed::Failed(marshal_error("buffer too short for type tag"));
    }
    let t = i32_of(le32_at(data, pos));
    assert(t == i32_at(d, 0));
    if t == 11 {
        Parsed::Value(ClrValue::Null, 4)
    } else if t == 6 {
        parse_text(data, pos, false)
    } else if t == 7 {
        if rem < 5 {
            return Parsed::Fault;
        }
        Parsed::Value(ClrValue::Boolean(data[pos + 4] != 0), 5)
    } else if t == 8 {
        if rem < 8 {
            return Parsed::Failed(marshal_error("buffer too short for i32"));
        }
        let n = i32_of(le32_at(data, pos + 4));
        assert(n == i32_at(d, 4));
        Parsed::Value(ClrValue::Int32(n), 8)
    } else if t == 9 {
        if rem < 8 {
            return Parsed::Fault;
        }
        let n = le32_at(data, pos + 4);
        assert(n == le32_value(d, 4));
        Parsed::Value(ClrValue::UInt32(n), 8)
    } else if t == 10 {
        if rem < 12 {
            return Parsed::Fault;
        }
        let b = le64_at(data, pos + 4);
        assert(b == le64_value(d, 4));
        Parsed::Value(ClrValue::Double(b), 12)
    } else if t == 4 {
        if rem < 12 {
            return Parsed::Fault;
        }
        let b = le64_at(data, pos + 4);
        assert(b == le64_value(d, 4));
        Parsed::Value(ClrValue::DateTime(b64_to_i64(b)), 12)
    } else if t == 2 {
        if rem < 8 {
            return Parsed::Failed(marshal_error("buffer too short for i32"));
        }
        let n = i32_of(le32_at(data, pos + 4));
        assert(n == i32_at(d, 4));
        if n < 0 || n as usize > rem - 8 {
            return Parsed::Fault;
        }
        let n = n as usize;
        let bytes = slice_to_vec(slice_subrange(data, pos + 8, pos + 8 + n));
        assert(bytes@ =~= d.subrange(8, 8 + n as int));
        Parsed::Value(ClrValue::Buffer(bytes), 8 + n)
    } else if t == 3 || t == 5 {
        if rem < 8 {
            return Parsed::Failed(marshal_error("buffer too short for i32"));
        }
        let n = i32_of(le32_at(data, pos + 4));
        assert(n == i32_at(d, 4));
        if n < 0 {
            return Parsed::Fault;
        }
        proof {
            assert(d.subrange(8, d.len() as int) =~= data@.subrange(pos + 8, data@.len() as int));
        }
        let r = if t == 3 {
            parse_items(data, pos + 8, n as u32)
        } else {
            parse_entries(data, pos + 8, n as u32)
        };
        match r {
            Parsed::Value(v, k) => Parsed::Value(v, k + 8),
            other => other,
        }
    } else if t == 1 {
        if rem < 12 {
            return Parsed::Fault;
        }
        let id = le64_at(data, pos + 4);
        assert(id == le64_value(d, 4));
        Parsed::Value(ClrValue::Callback(CallbackHandle::new(id)), 12)
    } else if t == 13 {
        parse_text(data, pos, true)
    } else {
        let mut msg = "unknown type tag: ".to_owned();
        push_decimal(&mut msg, t as i64);
        Parsed::Failed(DotBridgeError::MarshalError(msg))
    }
}

/// `r` with `s` more bytes counted as taken.
pub open spec fn shift_seq(r: DecodedSeq, s: nat) -> DecodedSeq {
    match r {
        DecodedSeq::Values(vs, k) => DecodedSeq::Values(vs, k + s),
        other => other,
    }
}

/// `r` with `s` more bytes counted as taken.
pub open spec fn shift_entries(r: DecodedEntries, s: nat) -> DecodedEntries {
    match r {
        DecodedEntries::Entries(es, k) => DecodedEntries::Entries(es, k + s),
        other => other,
    }
}

impl ClrValue {
    /// Deserialize a value from the binary wire format, returning it with the number of
    /// bytes it took.
    ///
    /// Inputs on which a length or count is negative or runs past the end of the data
    /// (where slicing fails) are excluded; `try_deserialize` reports them.
    pub fn deserialize(data: &[u8]) -> (r: Result<(ClrValue, usize), DotBridgeError>)
        requires
            !(decode(data@) is Fault),
        ensures
            result_matches(r, decode(data@)),
    {
        proof {
            assert(data@.subrange(0, data@.len() as int) =~= data@);
        }
        match parse_at(data, 0) {
            Parsed::Value(v, k) => Ok((v, k)),
            Parsed::Failed(e) => Err(e),
            Parsed::Fault => Err(marshal_error("buffer too short for type tag")),
        }
    }

    /// Like `deserialize`, but total: `None` exactly on the inputs where a length or
    /// count is negative or runs past the end of the data.
    pub fn try_deserialize(data: &[u8]) -> (r: Option<Result<(ClrValue, usize), DotBridgeError>>)
        ensures
            r is None <==> decode(data@) is Fault,
            r matches Some(x) ==> result_matches(x, decode(data@)),
    {
        proof {
            assert(data@.subrange(0, data@.len() as int) =~= data@);
        }
        match parse_at(data, 0) {
            Parsed::Value(v, k) => Some(Ok((v, k))),
            Parsed::Failed(e) => Some(Err(e)),
            Parsed::Fault => None,
        }
    }
}

// ---------------------------------------------------------------------------
// Copying
// ---------------------------------------------------------------------------
impl ClrValue {
    /// A copy of this value.
    pub fn deep_clone(&self) -> (r: ClrValue)
        ensures
            r.model() == self.model(),
        decreases self,
    {
        match self {
            ClrValue::Null => ClrValue::Null,
            ClrValue::String(s) => ClrValue::String(s.clone()),
            ClrValue::Boolean(b) => ClrValue::Boolean(*b),
            ClrValue::Int32(n) => ClrValue::Int32(*n),
            ClrValue::UInt32(n) => ClrValue::UInt32(*n),
            ClrValue::Int64(n) => ClrValue::Int64(*n),
            ClrValue::Double(b) => ClrValue::Double(*b),
            ClrValue::Float(b) => ClrValue::Float(*b),
            ClrValue::DateTime(n) => ClrValue::DateTime(*n),
            ClrValue::Guid(s) => ClrValue::Guid(s.clone()),
            ClrValue::Buffer(d) => ClrValue::Buffer(slice_to_vec(d.as_slice())),
            ClrValue::Array(items) => {
                let mut out: Vec<ClrValue> = Vec::new();
                let mut i: usize = 0;
                proof {
                    lemma_models_index(items@);
                }
                while i < items.len()
                    invariant
                        *self == ClrValue::Array(*items),
                        i <= items@.len(),
                        out@.len() == i,
                        models(items@).len() == items@.len(),
                        forall|j: int| 0 <= j < items@.len() ==> #[trigger] models(items@)[j] == items@[j].model(),
                        models(out@) == models(items@).subrange(0, i as int),
                    decreases items@.len() - i,
                {
                    proof {
                        vstd::std_specs::vec::axiom_vec_index_decreases(*items, i as int);
                        assert(decreases_to!(*self => (*self)->Array_0));
                    }
                    let c = items[i].deep_clone();
                    proof {
                        assert(out@.push(c).drop_last() =~= out@);
                        assert(models(items@).subrange(0, i + 1) =~= models(items@).subrange(0, i as int).push(c.model()));
                    }
                    out.push(c);
                    i = i + 1;
                }
                proof {
                    assert(models(items@).subrange(0, i as int) =~= models(items@));
                }
                ClrValue::Array(out)
            },
            ClrValue::Object(entries) => {
                let mut out: Vec<(String, ClrValue)> = Vec::new();
                let mut i: usize = 0;
                proof {
                    lemma_entry_models_index(entries@);
                }
                while i < entries.len()
                    invariant
                        *self == ClrValue::Object(*entries),
                        i <= entries@.len(),
                        out@.len() == i,
                        entry_models(entries@).len() == entries@.len(),
                        forall|j: int|
                            0 <= j < entries@.len() ==> #[trigger] entry_models(entries@)[j] == (
                            entries@[j].0@,
                            entries@[j].1.model(),
                        ),
                        entry_models(out@) == entry_models(entries@).subrange(0, i as int),
                    decreases entries@.len() - i,
                {
                    let entry = &entries[i];
                    proof {
                        vstd::std_specs::vec::axiom_vec_index_decreases(*entries, i as int);
                        assert(decreases_to!(*self => (*self)->Object_0));
                        assert(decreases_to!(entries@[i as int] => entries@[i as int].1));
                    }
                    let k = entry.0.clone();
                    let c = entry.1.deep_clone();
                    proof {
                        assert(out@.push((k, c)).drop_last() =~= out@);
                        assert(entry_models(entries@).subrange(0, i + 1) =~= entry_models(entries@).subrange(0, i as int).push((k@, c.model())));
                    }
                    out.push((k, c));
                    i = i + 1;
                }
                proof {
                    assert(entry_models(entries@).subrange(0, i as int) =~= entry_models(entries@));
                }
                ClrValue::Object(out)
            },
            ClrValue::Callback(h) => ClrValue::Callback(CallbackHandle::new(h.id())),
            ClrValue::Decimal(s) => ClrValue::Decimal(s.clone()),
        }
    }
}

impl Clone for ClrValue {
    fn clone(&self) -> (r: Self)
        ensures
            r.model() == self.model(),
    {
        self.deep_clone()
    }
}

} // verus!
