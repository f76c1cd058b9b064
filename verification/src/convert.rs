//! Conversions between Rust values and `ClrValue`.
use crate::binary64::{
    b32_from_b64, b32_of_b64, b64_from_b32, b64_from_int, b64_of_b32, b64_of_i64, b64_to_i32,
    b64_to_i64, b64_to_int_saturating, b64_to_u32,
};
use crate::error::DotBridgeError;
use crate::marshal::{ClrModel, ClrValue};
use crate::wire::{i32_of_pattern, two_32};
use vstd::prelude::*;
use vstd::string::*;

verus! {

/// The name of the variant of a value, as used in mismatch messages.
pub open spec fn kind_name(v: ClrModel) -> Seq<char> {
    match v {
        ClrModel::Null => "Null"@,
        ClrModel::Str(_) => "String"@,
        ClrModel::Boolean(_) => "Boolean"@,
        ClrModel::Int32(_) => "Int32"@,
        ClrModel::UInt32(_) => "UInt32"@,
        ClrModel::Int64(_) => "Int64"@,
        ClrModel::Double(_) => "Double"@,
        ClrModel::Float(_) => "Float"@,
        ClrModel::DateTime(_) => "DateTime"@,
        ClrModel::Guid(_) => "Guid"@,
        ClrModel::Buffer(_) => "Buffer"@,
        ClrModel::Array(_) => "Array"@,
        ClrModel::Object(_) => "Object"@,
        ClrModel::Callback(_) => "Callback"@,
        ClrModel::Decimal(_) => "Decimal"@,
    }
}

/// The message of a conversion that expected `expected` and found `v`.
pub open spec fn mismatch_message(expected: Seq<char>, v: ClrModel) -> Seq<char> {
    "expected "@ + expected + ", got "@ + kind_name(v)
}

impl ClrValue {
    /// The name of this value's variant.
    pub fn kind_name(&self) -> (r: &'static str)
        ensures
            r@ == kind_name(self.model()),
    {
        match self {
            ClrValue::Null => "Null",
            ClrValue::String(_) => "String",
            ClrValue::Boolean(_) => "Boolean",
            ClrValue::Int32(_) => "Int32",
            ClrValue::UInt32(_) => "UInt32",
            ClrValue::Int64(_) => "Int64",
            ClrValue::Double(_) => "Double",
            ClrValue::Float(_) => "Float",
            ClrValue::DateTime(_) => "DateTime",
            ClrValue::Guid(_) => "Guid",
            ClrValue::Buffer(_) => "Buffer",
            ClrValue::Array(_) => "Array",
            ClrValue::Object(_) => "Object",
            ClrValue::Callback(_) => "Callback",
            ClrValue::Decimal(_) => "Decimal",
        }
    }
}

/// The error of a conversion that expected `expected` and found `v`.
fn mismatch(expected: &str, v: &ClrValue) -> (e: DotBridgeError)
    ensures
        e.is_marshal_error(mismatch_message(expected@, v.model())),
{
    let mut msg = "expected ".to_owned();
    msg.append(expected);
    msg.append(", got ");
    msg.append(v.kind_name());
    DotBridgeError::MarshalError(msg)
}

/// Types that can be converted to a CLR value.
pub trait ToClrValue {
    /// The model of the value this converts to.
    spec fn to_clr_spec(&self) -> ClrModel;

    fn to_clr_value(&self) -> (r: ClrValue)
        ensures
            r.model() == self.to_clr_spec(),
    ;
}

/// Types that can be constructed from a CLR value.
pub trait FromClrValue: Sized {
    /// The values this conversion accepts.
    spec fn from_clr_accepts(v: ClrModel) -> bool;

    /// `r` is what this conversion makes of the accepted value `v`.
    spec fn from_clr_gives(v: ClrModel, r: Self) -> bool;

    fn from_clr_value(value: &ClrValue) -> (r: Result<Self, DotBridgeError>)
        ensures
            r is Ok <==> Self::from_clr_accepts(value.model()),
            r matches Ok(x) ==> Self::from_clr_gives(value.model(), x),
            r matches Err(e) ==> e is MarshalError,
    ;
}

// -- ToClrValue --
impl ToClrValue for () {
    open spec fn to_clr_spec(&self) -> ClrModel {
        ClrModel::Null
    }

    fn to_clr_value(&self) -> (r: ClrValue) {
        ClrValue::Null
    }
}

impl ToClrValue for String {
    open spec fn to_clr_spec(&self) -> ClrModel {
        ClrModel::Str(self@)
    }

    fn to_clr_value(&self) -> (r: ClrValue) {
        ClrValue::String(self.clone())
    }
}

impl ToClrValue for &str {
    open spec fn to_clr_spec(&self) -> ClrModel {
        ClrModel::Str((*self)@)
    }

    fn to_clr_value(&self) -> (r: ClrValue) {
        ClrValue::String((*self).to_owned())
    }
}

impl ToClrValue for bool {
    open spec fn to_clr_spec(&self) -> ClrModel {
        ClrModel::Boolean(*self)
    }

    fn to_clr_value(&self) -> (r: ClrValue) {
        ClrValue::Boolean(*self)
    }
}

impl ToClrValue for i32 {
    open spec fn to_clr_spec(&self) -> ClrModel {
        ClrModel::Int32(*self)
    }

    fn to_clr_value(&self) -> (r: ClrValue) {
        ClrValue::Int32(*self)
    }
}

impl ToClrValue for u32 {
    open spec fn to_clr_spec(&self) -> ClrModel {
        ClrModel::UInt32(*self)
    }

    fn to_clr_value(&self) -> (r: ClrValue) {
        ClrValue::UInt32(*self)
    }
}

impl ToClrValue for i64 {
    open spec fn to_clr_spec(&self) -> ClrModel {
        ClrModel::Int64(*self)
    }

    fn to_clr_value(&self) -> (r: ClrValue) {
        ClrValue::Int64(*self)
    }
}

impl ToClrValue for Vec<u8> {
    open spec fn to_clr_spec(&self) -> ClrModel {
        ClrModel::Buffer(self@)
    }

    fn to_clr_value(&self) -> (r: ClrValue) {
        ClrValue::Buffer(vstd::slice::slice_to_vec(self.as_slice()))
    }
}

impl<T: ToClrValue> ToClrValue for Vec<T> {
    open spec fn to_clr_spec(&self) -> ClrModel {
        ClrModel::Array(Seq::new(self@.len(), |i: int| self@[i].to_clr_spec()))
    }

    fn to_clr_value(&self) -> (r: ClrValue) {
        let mut out: Vec<ClrValue> = Vec::new();
        let mut i: usize = 0;
        while i < self.len()
            invariant
                i <= self@.len(),
                crate::marshal::models(out@) =~= Seq::new(i as nat, |j: int| self@[j].to_clr_spec()),
            decreases self@.len() - i,
        {
            let c = self[i].to_clr_value();
            proof {
                assert(out@.push(c).drop_last() =~= out@);
            }
            out.push(c);
            i = i + 1;
        }
        ClrValue::Array(out)
    }
}

impl<T: ToClrValue> ToClrValue for Option<T> {
    open spec fn to_clr_spec(&self) -> ClrModel {
        match self {
            Some(v) => v.to_clr_spec(),
            None => ClrModel::Null,
        }
    }

    fn to_clr_value(&self) -> (r: ClrValue) {
        match self {
            Some(v) => v.to_clr_value(),
            None => ClrValue::Null,
        }
    }
}

impl ToClrValue for ClrValue {
    open spec fn to_clr_spec(&self) -> ClrModel {
        self.model()
    }

    fn to_clr_value(&self) -> (r: ClrValue) {
        self.deep_clone()
    }
}

// -- FromClrValue --
/// The `i32` that `n as i32` gives for a 64-bit integer (the low 32 bits).
pub open spec fn wrap_i32(n: int) -> int {
    i32_of_pattern((n % (two_32() as int)) as nat)
}

/// The `u32` that `n as u32` gives for a 32-bit signed integer.
pub open spec fn pattern_u32(n: int) -> int {
    if n < 0 {
        n + two_32()
    } else {
        n
    }
}

impl FromClrValue for () {
    open spec fn from_clr_accepts(v: ClrModel) -> bool {
        true
    }

    open spec fn from_clr_gives(v: ClrModel, r: ()) -> bool {
        true
    }

    fn from_clr_value(value: &ClrValue) -> (r: Result<(), DotBridgeError>) {
        Ok(())
    }
}

impl FromClrValue for String {
    open spec fn from_clr_accepts(v: ClrModel) -> bool {
        v is Str || v is Null
    }

    open spec fn from_clr_gives(v: ClrModel, r: String) -> bool {
        match v {
            ClrModel::Str(s) => r@ == s,
            _ => r@ == Seq::<char>::empty(),
        }
    }

    fn from_clr_value(value: &ClrValue) -> (r: Result<String, DotBridgeError>)
        ensures
            r matches Err(e) ==> e.is_marshal_error(mismatch_message("String"@, value.model())),
    {
        match value {
            ClrValue::String(s) => Ok(s.clone()),
            ClrValue::Null => Ok(String::new()),
            other => Err(mismatch("String", other)),
        }
    }
}

impl FromClrValue for bool {
    open spec fn from_clr_accepts(v: ClrModel) -> bool {
        v is Boolean
    }

    open spec fn from_clr_gives(v: ClrModel, r: bool) -> bool {
        v == ClrModel::Boolean(r)
    }

    fn from_clr_value(value: &ClrValue) -> (r: Result<bool, DotBridgeError>)
        ensures
            r matches Err(e) ==> e.is_marshal_error(mismatch_message("Boolean"@, value.model())),
    {
        match value {
            ClrValue::Boolean(b) => Ok(*b),
            other => Err(mismatch("Boolean", other)),
        }
    }
}

impl FromClrValue for i32 {
    open spec fn from_clr_accepts(v: ClrModel) -> bool {
        v is Int32 || v is Double || v is Int64
    }

    open spec fn from_clr_gives(v: ClrModel, r: i32) -> bool {
        match v {
            ClrModel::Int32(n) => r == n,
            ClrModel::Double(b) => r == b64_to_int_saturating(b, i32::MIN as int, i32::MAX as int),
            ClrModel::Int64(n) => r == wrap_i32(n as int),
            _ => false,
        }
    }

    fn from_clr_value(value: &ClrValue) -> (r: Result<i32, DotBridgeError>)
        ensures
            r matches Err(e) ==> e.is_marshal_error(mismatch_message("Int32"@, value.model())),
    {
        match value {
            ClrValue::Int32(n) => Ok(*n),
            ClrValue::Double(b) => Ok(b64_to_i32(*b)),
            ClrValue::Int64(n) => {
                let m: i64 = *n % 0x1_0000_0000;
                let p: i64 = if m < 0 {
                    m + 0x1_0000_0000
                } else {
                    m
                };
                let r: i32 = if p >= 0x8000_0000 {
                    (p - 0x1_0000_0000) as i32
                } else {
                    p as i32
                };
                Ok(r)
            },
            other => Err(mismatch("Int32", other)),
        }
    }
}

impl FromClrValue for u32 {
    open spec fn from_clr_accepts(v: ClrModel) -> bool {
        v is UInt32 || v is Int32 || v is Double
    }

    open spec fn from_clr_gives(v: ClrModel, r: u32) -> bool {
        match v {
            ClrModel::UInt32(n) => r == n,
            ClrModel::Int32(n) => r == pattern_u32(n as int),
            ClrModel::Double(b) => r == b64_to_int_saturating(b, 0, u32::MAX as int),
            _ => false,
        }
    }

    fn from_clr_value(value: &ClrValue) -> (r: Result<u32, DotBridgeError>)
        ensures
            r matches Err(e) ==> e.is_marshal_error(mismatch_message("UInt32"@, value.model())),
    {
        match value {
            ClrValue::UInt32(n) => Ok(*n),
            ClrValue::Int32(n) => {
                let r: u32 = if *n < 0 {
                    (*n as i64 + 0x1_0000_0000) as u32
                } else {
                    *n as u32
                };
                Ok(r)
            },
            ClrValue::Double(b) => Ok(b64_to_u32(*b)),
            other => Err(mismatch("UInt32", other)),
        }
    }
}

impl FromClrValue for i64 {
    open spec fn from_clr_accepts(v: ClrModel) -> bool {
        v is Int64 || v is Int32 || v is Double
    }

    open spec fn from_clr_gives(v: ClrModel, r: i64) -> bool {
        match v {
            ClrModel::Int64(n) => r == n,
            ClrModel::Int32(n) => r == n,
            ClrModel::Double(b) => r == b64_to_int_saturating(b, i64::MIN as int, i64::MAX as int),
            _ => false,
        }
    }

    fn from_clr_value(value: &ClrValue) -> (r: Result<i64, DotBridgeError>)
        ensures
            r matches Err(e) ==> e.is_marshal_error(mismatch_message("Int64"@, value.model())),
    {
        match value {
            ClrValue::Int64(n) => Ok(*n),
            ClrValue::Int32(n) => Ok(*n as i64),
            ClrValue::Double(b) => Ok(b64_to_i64(*b)),
            other => Err(mismatch("Int64", other)),
        }
    }
}

impl FromClrValue for Vec<u8> {
    open spec fn from_clr_accepts(v: ClrModel) -> bool {
        v is Buffer
    }

    open spec fn from_clr_gives(v: ClrModel, r: Vec<u8>) -> bool {
        v == ClrModel::Buffer(r@)
    }

    fn from_clr_value(value: &ClrValue) -> (r: Result<Vec<u8>, DotBridgeError>)
        ensures
            r matches Err(e) ==> e.is_marshal_error(mismatch_message("Buffer"@, value.model())),
    {
        match value {
            ClrValue::Buffer(b) => Ok(vstd::slice::slice_to_vec(b.as_slice())),
            other => Err(mismatch("Buffer", other)),
        }
    }
}

impl<T: FromClrValue> FromClrValue for Vec<T> {
    open spec fn from_clr_accepts(v: ClrModel) -> bool {
        match v {
            ClrModel::Array(items) => forall|i: int|
                0 <= i < items.len() ==> T::from_clr_accepts(#[trigger] items[i]),
            _ => false,
        }
    }

    open spec fn from_clr_gives(v: ClrModel, r: Vec<T>) -> bool {
        match v {
            ClrModel::Array(items) => r@.len() == items.len() && forall|i: int|
                0 <= i < items.len() ==> T::from_clr_gives(#[trigger] items[i], r@[i]),
            _ => false,
        }
    }

    fn from_clr_value(value: &ClrValue) -> (r: Result<Vec<T>, DotBridgeError>)
        ensures
            value.model() !is Array ==> (r matches Err(e) && e.is_marshal_error(
                mismatch_message("Array"@, value.model()),
            )),
    {
        match value {
            ClrValue::Array(items) => {
                let ghost ms = crate::marshal::models(items@);
                proof {
                    crate::marshal::lemma_models_index(items@);
                }
                let mut out: Vec<T> = Vec::new();
                let mut i: usize = 0;
                while i < items.len()
                    invariant
                        *value == ClrValue::Array(*items),
                        i <= items@.len(),
                        ms == crate::marshal::models(items@),
                        ms.len() == items@.len(),
                        forall|j: int| 0 <= j < items@.len() ==> #[trigger] ms[j] == items@[j].model(),
                        out@.len() == i,
                        forall|j: int| 0 <= j < i ==> T::from_clr_accepts(#[trigger] ms[j]),
                        forall|j: int| 0 <= j < i ==> T::from_clr_gives(#[trigger] ms[j], out@[j]),
                    decreases items@.len() - i,
                {
                    match T::from_clr_value(&items[i]) {
                        Ok(x) => {
                            out.push(x);
                            i = i + 1;
                        },
                        Err(e) => {
                            proof {
                                assert(!T::from_clr_accepts(ms[i as int]));
                                assert(value.model() == ClrModel::Array(ms));
                                assert(!(forall|j: int| 0 <= j < ms.len() ==> T::from_clr_accepts(#[trigger] ms[j])));
                                lemma_array_rejected::<T>(ms, i as int);
                            }
                            return Err(e);
                        },
                    }
                }
                Ok(out)
            },
            other => Err(mismatch("Array", other)),
        }
    }
}

impl<T: FromClrValue> FromClrValue for Option<T> {
    open spec fn from_clr_accepts(v: ClrModel) -> bool {
        v is Null || T::from_clr_accepts(v)
    }

    open spec fn from_clr_gives(v: ClrModel, r: Option<T>) -> bool {
        match v {
            ClrModel::Null => r is None,
            _ => r matches Some(x) && T::from_clr_gives(v, x),
        }
    }

    fn from_clr_value(value: &ClrValue) -> (r: Result<Option<T>, DotBridgeError>) {
        match value {
            ClrValue::Null => Ok(None),
            other => match T::from_clr_value(other) {
                Ok(x) => Ok(Some(x)),
                Err(e) => Err(e),
            },
        }
    }
}

impl FromClrValue for ClrValue {
    open spec fn from_clr_accepts(v: ClrModel) -> bool {
        true
    }

    open spec fn from_clr_gives(v: ClrModel, r: ClrValue) -> bool {
        r.model() == v
    }

    fn from_clr_value(value: &ClrValue) -> (r: Result<ClrValue, DotBridgeError>) {
        Ok(value.deep_clone())
    }
}

/// The binary64 number that a value converts to as a double-precision float: a
/// `Double` as it is, a `Float` widened exactly, and an `Int32` or `Int64` rounded to
/// the nearest binary64 value (ties to even). `None` for the other variants.
pub open spec fn double_of(v: ClrModel) -> Option<u64> {
    match v {
        ClrModel::Double(b) => Some(b),
        ClrModel::Float(f) => Some(b64_from_b32(f)),
        ClrModel::Int32(n) => Some(b64_from_int(n as int)),
        ClrModel::Int64(n) => Some(b64_from_int(n as int)),
        _ => None,
    }
}

/// Convert a value to a double-precision float, given as its binary64 bit pattern.
pub fn double_from_clr_value(value: &ClrValue) -> (r: Result<u64, DotBridgeError>)
    ensures
        double_of(value.model()) matches Some(b) ==> r == Ok::<u64, DotBridgeError>(b),
        double_of(value.model()) is None ==> (r matches Err(e) && e.is_marshal_error(
            mismatch_message("Double"@, value.model()),
        )),
{
    match value {
        ClrValue::Double(b) => Ok(*b),
        ClrValue::Float(f) => Ok(b64_of_b32(*f)),
        ClrValue::Int32(n) => Ok(b64_of_i64(*n as i64)),
        ClrValue::Int64(n) => Ok(b64_of_i64(*n)),
        other => Err(mismatch("Double", other)),
    }
}

/// The binary32 number that a value converts to as a single-precision float: a
/// `Float` as it is and a `Double` rounded to the nearest binary32 value (ties to
/// even). `None` for the other variants.
pub open spec fn single_of(v: ClrModel) -> Option<u32> {
    match v {
        ClrModel::Float(f) => Some(f),
        ClrModel::Double(b) => Some(b32_from_b64(b)),
        _ => None,
    }
}

/// Convert a value to a single-precision float, given as its binary32 bit pattern.
pub fn single_from_clr_value(value: &ClrValue) -> (r: Result<u32, DotBridgeError>)
    ensures
        single_of(value.model()) matches Some(b) ==> r == Ok::<u32, DotBridgeError>(b),
        single_of(value.model()) is None ==> (r matches Err(e) && e.is_marshal_error(
            mismatch_message("Float"@, value.model()),
        )),
{
    match value {
        ClrValue::Float(f) => Ok(*f),
        ClrValue::Double(b) => Ok(b32_of_b64(*b)),
        other => Err(mismatch("Float", other)),
    }
}

/// A double-precision float, given as its binary64 bit pattern, as a CLR value.
pub fn double_to_clr_value(bits: u64) -> (r: ClrValue)
    ensures
        r.model() == ClrModel::Double(bits),
{
    ClrValue::Double(bits)
}

/// A single-precision float, given as its binary32 bit pattern, as a CLR value.
pub fn single_to_clr_value(bits: u32) -> (r: ClrValue)
    ensures
        r.model() == ClrModel::Float(bits),
{
    ClrValue::Float(bits)
}

/// The model of the object that keyed entries convert to, each value converted.
pub open spec fn entries_spec<T: ToClrValue>(entries: Seq<(String, T)>) -> Seq<(Seq<char>, ClrModel)> {
    Seq::new(entries.len(), |i: int| (entries[i].0@, entries[i].1.to_clr_spec()))
}

/// Keyed entries (the contents of a map) as a CLR object, each value converted.
pub fn entries_to_clr_value<T: ToClrValue>(entries: &Vec<(String, T)>) -> (r: ClrValue)
    ensures
        r.model() == ClrModel::Object(entries_spec(entries@)),
{
    let mut out: Vec<(String, ClrValue)> = Vec::new();
    let mut i: usize = 0;
    while i < entries.len()
        invariant
            i <= entries@.len(),
            crate::marshal::entry_models(out@) =~= entries_spec(entries@).subrange(0, i as int),
        decreases entries@.len() - i,
    {
        let k = entries[i].0.clone();
        let c = entries[i].1.to_clr_value();
        proof {
            assert(out@.push((k, c)).drop_last() =~= out@);
        }
        out.push((k, c));
        i = i + 1;
    }
    assert(entries_spec(entries@).subrange(0, i as int) =~= entries_spec(entries@));
    ClrValue::Object(out)
}

/// The entries of a CLR object, each value converted: refused when the value is not
/// an object or when one of its values is refused.
pub fn object_entries_from_clr_value<T: FromClrValue>(value: &ClrValue) -> (r: Result<Vec<(String, T)>, DotBridgeError>)
    ensures
        value.model() !is Object ==> (r matches Err(e) && e.is_marshal_error(
            mismatch_message("Object"@, value.model()),
        )),
        value.model() matches ClrModel::Object(es) ==> (r is Ok <==> forall|i: int|
            0 <= i < es.len() ==> T::from_clr_accepts(#[trigger] es[i].1)),
        r matches Ok(out) ==> (value.model() matches ClrModel::Object(es) && out@.len() == es.len()
            && forall|i: int|
            0 <= i < es.len() ==> (#[trigger] out@[i]).0@ == es[i].0 && T::from_clr_gives(
                es[i].1,
                out@[i].1,
            )),
        r matches Err(e) ==> e is MarshalError,
{
    match value {
        ClrValue::Object(entries) => {
            let ghost es = crate::marshal::entry_models(entries@);
            proof {
                crate::marshal::lemma_entry_models_index(entries@);
            }
            let mut out: Vec<(String, T)> = Vec::new();
            let mut i: usize = 0;
            while i < entries.len()
                invariant
                    *value == ClrValue::Object(*entries),
                    i <= entries@.len(),
                    es == crate::marshal::entry_models(entries@),
                    es.len() == entries@.len(),
                    forall|j: int|
                        0 <= j < entries@.len() ==> #[trigger] es[j] == (
                            entries@[j].0@,
                            entries@[j].1.model(),
                        ),
                    out@.len() == i,
                    forall|j: int| 0 <= j < i ==> T::from_clr_accepts(#[trigger] es[j].1),
                    forall|j: int|
                        0 <= j < i ==> (#[trigger] out@[j]).0@ == es[j].0 && T::from_clr_gives(
                            es[j].1,
                            out@[j].1,
                        ),
                decreases entries@.len() - i,
            {
                match T::from_clr_value(&entries[i].1) {
                    Ok(x) => {
                        out.push((entries[i].0.clone(), x));
                        i = i + 1;
                    },
                    Err(e) => {
                        proof {
                            assert(es[i as int] == (entries@[i as int].0@, entries@[i as int].1.model()));
                            assert(!T::from_clr_accepts(es[i as int].1));
                            assert(value.model() == ClrModel::Object(es));
                            assert(value.model()->Object_0 == es);
                            assert(!(forall|j: int|
                                0 <= j < es.len() ==> T::from_clr_accepts(#[trigger] es[j].1)));
                        }
                        return Err(e);
                    },
                }
            }
            proof {
                assert(value.model() == ClrModel::Object(es));
            }
            Ok(out)
        },
        other => Err(mismatch("Object", other)),
    }
}

/// An array is refused when one of its elements is.
proof fn lemma_array_rejected<T: FromClrValue>(ms: Seq<ClrModel>, i: int)
    requires
        0 <= i < ms.len(),
        !T::from_clr_accepts(ms[i]),
    ensures
        !<Vec<T> as FromClrValue>::from_clr_accepts(ClrModel::Array(ms)),
{
    let v = ClrModel::Array(ms);
    assert(v->Array_0 == ms);
    assert(!T::from_clr_accepts(v->Array_0[i]));
    assert(!(forall|j: int| 0 <= j < ms.len() ==> T::from_clr_accepts(#[trigger] ms[j])));
    assert(<Vec<T> as FromClrValue>::from_clr_accepts(v) == (forall|j: int|
        0 <= j < ms.len() ==> T::from_clr_accepts(#[trigger] ms[j])));
}

} // verus!
