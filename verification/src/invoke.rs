//! Decisions around invoking a .NET function: what a status code and the returned
//! bytes of a call mean, and how a .NET exception is reported.
use crate::error::DotBridgeError;
use crate::marshal::{entry_models, lemma_entry_models_index, ClrModel, ClrValue};
use crate::text::{hex_digits, lossy_utf8_text, push_status_hex, u32_pattern, utf8_decode_lossy};
use crate::wire::{decode, Decoded};
use vstd::prelude::*;
use vstd::string::*;

verus! {

/// The value of the first entry whose key is `k`.
pub open spec fn lookup(es: Seq<(Seq<char>, ClrModel)>, k: Seq<char>) -> Option<ClrModel>
    decreases es.len(),
{
    if es.len() == 0 {
        None
    } else if es[0].0 == k {
        Some(es[0].1)
    } else {
        lookup(es.subrange(1, es.len() as int), k)
    }
}

/// The text of the first entry whose key is `k`, when that entry holds a string.
pub open spec fn lookup_text(es: Seq<(Seq<char>, ClrModel)>, k: Seq<char>) -> Option<Seq<char>> {
    match lookup(es, k) {
        Some(ClrModel::Str(s)) => Some(s),
        _ => None,
    }
}

/// The message of an exception described by an object: `"{Name}: {Message}"` when a
/// `Name` text is present, the `Message` text alone otherwise, and
/// `"unknown .NET exception"` in place of a missing `Message` text.
pub open spec fn exception_message(es: Seq<(Seq<char>, ClrModel)>) -> Seq<char> {
    let message = match lookup_text(es, "Message"@) {
        Some(m) => m,
        None => "unknown .NET exception"@,
    };
    match lookup_text(es, "Name"@) {
        Some(n) => n + ": "@ + message,
        None => message,
    }
}

/// The stack trace of an exception described by an object: its non-empty
/// `StackTrace` text.
pub open spec fn exception_trace(es: Seq<(Seq<char>, ClrModel)>) -> Option<Seq<char>> {
    match lookup_text(es, "StackTrace"@) {
        Some(t) => if t.len() > 0 {
            Some(t)
        } else {
            None
        },
        None => None,
    }
}

/// `e` is a `DotNetException` with message `msg` and stack trace `trace`.
pub open spec fn is_exception(e: DotBridgeError, msg: Seq<char>, trace: Option<Seq<char>>) -> bool {
    e matches DotBridgeError::DotNetException { message, stack_trace } && message@ == msg && match trace {
        Some(t) => stack_trace matches Some(st) && st@ == t,
        None => stack_trace is None,
    }
}

/// The text of the entry keyed `key`, when the first such entry holds a string.
fn find_text(entries: &Vec<(String, ClrValue)>, key: &str) -> (r: Option<String>)
    ensures
        match lookup_text(entry_models(entries@), key@) {
            Some(t) => r matches Some(s) && s@ == t,
            None => r is None,
        },
{
    let ghost es = entry_models(entries@);
    proof {
        lemma_entry_models_index(entries@);
        assert(es.subrange(0, es.len() as int) =~= es);
    }
    let k = key.to_owned();
    let mut i: usize = 0;
    while i < entries.len()
        invariant
            i <= entries@.len(),
            es == entry_models(entries@),
            es.len() == entries@.len(),
            forall|j: int|
                0 <= j < entries@.len() ==> #[trigger] es[j] == (entries@[j].0@, entries@[j].1.model()),
            k@ == key@,
            lookup(es, key@) == lookup(es.subrange(i as int, es.len() as int), key@),
        decreases entries@.len() - i,
    {
        let ghost rest = es.subrange(i as int, es.len() as int);
        assert(rest[0] == es[i as int]);
        if entries[i].0 == k {
            return match &entries[i].1 {
                ClrValue::String(s) => Some(s.clone()),
                _ => None,
            };
        }
        assert(rest.subrange(1, rest.len() as int) =~= es.subrange(i + 1, es.len() as int));
        i = i + 1;
    }
    None
}

/// The error that an exception object from .NET describes (fields `Message`,
/// `StackTrace`, `Name`).
pub fn extract_error_from_object(entries: &Vec<(String, ClrValue)>) -> (e: DotBridgeError)
    ensures
        is_exception(
            e,
            exception_message(entry_models(entries@)),
            exception_trace(entry_models(entries@)),
        ),
{
    let message = match find_text(entries, "Message") {
        Some(m) => m,
        None => "unknown .NET exception".to_owned(),
    };
    let stack_trace = match find_text(entries, "StackTrace") {
        Some(t) => if t.as_str().is_empty() {
            None
        } else {
            Some(t)
        },
        None => None,
    };
    let full_message = match find_text(entries, "Name") {
        Some(name) => {
            let mut m = name;
            m.append(": ");
            m.append(message.as_str());
            m
        },
        None => message,
    };
    DotBridgeError::DotNetException { message: full_message, stack_trace }
}

/// The exception that error bytes from .NET describe: an exception object when they
/// decode to one, otherwise their text (invalid UTF-8 replaced).
pub open spec fn structured_error_holds(data: Seq<u8>, e: DotBridgeError) -> bool {
    match decode(data) {
        Decoded::Value(ClrModel::Object(es), _) => is_exception(
            e,
            exception_message(es),
            exception_trace(es),
        ),
        _ => is_exception(e, lossy_utf8_text(data), None),
    }
}

/// Parse the structured exception data that .NET sends with a failed call: an
/// exception object, or else (whenever the bytes do not decode to an object) their
/// text.
pub fn parse_structured_error(data: &[u8]) -> (e: DotBridgeError)
    ensures
        structured_error_holds(data@, e),
{
    match ClrValue::try_deserialize(data) {
        Some(Ok((ClrValue::Object(entries), _))) => extract_error_from_object(&entries),
        _ => {
            let message = utf8_decode_lossy(data);
            DotBridgeError::DotNetException { message, stack_trace: None }
        },
    }
}

/// `prefix` followed by `status` as `0x` and eight uppercase hexadecimal digits.
pub open spec fn status_text(prefix: Seq<char>, status: int) -> Seq<char> {
    prefix + seq!['0', 'x'] + hex_digits(u32_pattern(status), 8)
}

/// What a call of a .NET function returned, given its status and the bytes it sent
/// back (empty when it sent none). `None` when a successful call sent back a result
/// so malformed that slicing it fails.
pub open spec fn invoke_outcome_holds(
    status: int,
    data: Seq<u8>,
    r: Option<Result<ClrValue, DotBridgeError>>,
) -> bool {
    if status < 0 {
        if data.len() > 0 {
            r matches Some(Err(e)) && structured_error_holds(data, e)
        } else {
            r matches Some(Err(e)) && is_exception(e, status_text("invocation failed with status "@, status), None)
        }
    } else if data.len() == 0 {
        r matches Some(Ok(v)) && v.model() == ClrModel::Null
    } else {
        match decode(data) {
            Decoded::Value(m, _) => r matches Some(Ok(v)) && v.model() == m,
            Decoded::Failed(f) => r matches Some(Err(e)) && crate::marshal::failure_is(e, f),
            Decoded::Fault => r is None,
        }
    }
}

/// Interpret the outcome of invoking a .NET function: a negative status is an
/// exception (structured when error bytes came back), no bytes is `Null`, otherwise
/// the bytes are the serialized result.
pub fn invoke_outcome(status: i32, data: &[u8]) -> (r: Option<Result<ClrValue, DotBridgeError>>)
    ensures
        invoke_outcome_holds(status as int, data@, r),
{
    if status < 0 {
        if data.len() > 0 {
            Some(Err(parse_structured_error(data)))
        } else {
            let mut message = "invocation failed with status ".to_owned();
            push_status_hex(&mut message, status);
            Some(Err(DotBridgeError::DotNetException { message, stack_trace: None }))
        }
    } else if data.len() == 0 {
        Some(Ok(ClrValue::Null))
    } else {
        match ClrValue::try_deserialize(data) {
            None => None,
            Some(Ok((v, _))) => Some(Ok(v)),
            Some(Err(e)) => Some(Err(e)),
        }
    }
}

} // verus!
