//! Rust callbacks that .NET code can invoke: the registry that hands out their ids,
//! the payload format of a call coming from .NET, and the bytes sent back.
use crate::error::DotBridgeError;
use crate::marshal::{le64_at, ClrModel, ClrValue};
use crate::text::{decimal_digits, push_decimal_digits};
use crate::wire::{decode, encode, le64_value, Decoded};
use std::collections::HashMap;
use vstd::prelude::*;
use vstd::string::*;

verus! {

broadcast use vstd::std_specs::hash::group_hash_axioms;

/// `e` is a `CallbackError` with message `msg`.
pub open spec fn is_callback_error(e: DotBridgeError, msg: Seq<char>) -> bool {
    e matches DotBridgeError::CallbackError(m) && m@ == msg
}

/// The message of a call to an id that no callback holds.
pub open spec fn msg_not_found(id: u64) -> Seq<char> {
    "callback "@ + decimal_digits(id as nat) + " not found"@
}

/// The id that follows `id` (ids wrap around after `u64::MAX`).
pub open spec fn following_id(id: u64) -> u64 {
    if id == u64::MAX {
        0
    } else {
        (id + 1) as u64
    }
}

/// Successive registrations hand out different ids: the one after `id` is not `id`.
pub proof fn lemma_successive_ids_differ(id: u64)
    ensures
        following_id(id) != id,
{
}

/// Registered callbacks, each under the id it was given. Ids are handed out in
/// increasing order from 1.
pub struct CallbackRegistry<F> {
    callbacks: HashMap<u64, F>,
    next_id: u64,
}

impl<F> CallbackRegistry<F> {
    /// The registered callbacks, by id.
    pub closed spec fn entries(&self) -> Map<u64, F> {
        self.callbacks@
    }

    /// The id that the next registration gets.
    pub closed spec fn next_id(&self) -> u64 {
        self.next_id
    }

    /// Every registered id lies in `1..next_id()`, so the next id handed out is fresh.
    /// A registry keeps this until `u64::MAX` ids have been handed out.
    pub open spec fn wf(&self) -> bool {
        &&& self.next_id() >= 1
        &&& forall|k: u64| #[trigger] self.entries().contains_key(k) ==> 1 <= k < self.next_id()
    }

    /// An empty registry whose first id is 1.
    pub fn new() -> (r: Self)
        ensures
            r.entries() == Map::<u64, F>::empty(),
            r.next_id() == 1,
            r.wf(),
    {
        CallbackRegistry { callbacks: HashMap::new(), next_id: 1 }
    }

    /// Register `callback` under a fresh id and return that id.
    pub fn register_callback(&mut self, callback: F) -> (id: u64)
        ensures
            id == old(self).next_id(),
            final(self).entries() == old(self).entries().insert(id, callback),
            final(self).next_id() == following_id(id),
            old(self).wf() ==> id > 0 && !old(self).entries().contains_key(id),
            old(self).wf() && id < u64::MAX ==> final(self).wf(),
    {
        let id = self.next_id;
        self.next_id = if id == u64::MAX {
            0
        } else {
            id + 1
        };
        self.callbacks.insert(id, callback);
        id
    }

    /// Remove the callback registered under `id`, if any.
    pub fn unregister_callback(&mut self, id: u64)
        ensures
            final(self).entries() == old(self).entries().remove(id),
            final(self).next_id() == old(self).next_id(),
            old(self).wf() ==> final(self).wf(),
    {
        self.callbacks.remove(&id);
        assert forall|k: u64| #[trigger] self.entries().contains_key(k) implies old(self).entries().contains_key(k) by {
            assert(self.entries() == old(self).entries().remove(id));
        }
    }

    /// Whether a callback is registered under `id`.
    pub fn contains(&self, id: u64) -> (r: bool)
        ensures
            r == self.entries().contains_key(id),
    {
        self.callbacks.contains_key(&id)
    }
}

/// The error for a call to an id that no callback holds.
pub fn not_found(id: u64) -> (e: DotBridgeError)
    ensures
        is_callback_error(e, msg_not_found(id)),
{
    let mut m = "callback ".to_owned();
    push_decimal_digits(&mut m, id);
    m.append(" not found");
    DotBridgeError::CallbackError(m)
}

/// The error for a call that arrives before any callback was registered.
pub fn registry_missing() -> (e: DotBridgeError)
    ensures
        is_callback_error(e, "callback registry not initialized"@),
{
    DotBridgeError::CallbackError("callback registry not initialized".to_owned())
}

impl<F: Fn(ClrValue) -> Result<ClrValue, DotBridgeError>> CallbackRegistry<F> {
    /// Call the callback registered under `id` with `input`; an error when there is
    /// none.
    pub fn invoke_callback(&self, id: u64, input: ClrValue) -> (r: Result<ClrValue, DotBridgeError>)
        requires
            self.entries().contains_key(id) ==> self.entries()[id].requires((input,)),
        ensures
            !self.entries().contains_key(id) ==> (r matches Err(e) && is_callback_error(
                e,
                msg_not_found(id),
            )),
            self.entries().contains_key(id) ==> self.entries()[id].ensures((input,), r),
    {
        match self.callbacks.get(&id) {
            Some(callback) => callback(input),
            None => Err(not_found(id)),
        }
    }
}

// ---------------------------------------------------------------------------
// The call payload and the response
// ---------------------------------------------------------------------------
/// What decoding a callback payload gives: the id in its first eight bytes
/// (little-endian) and the value serialized after them.
pub open spec fn payload_matches(data: Seq<u8>, r: Result<(u64, ClrValue), DotBridgeError>) -> bool {
    if data.len() < 8 {
        r matches Err(e) && e.is_marshal_error("callback payload too short"@)
    } else {
        let body = data.subrange(8, data.len() as int);
        match decode(body) {
            Decoded::Value(m, _) => r matches Ok((id, v)) && id == le64_value(data, 0) && v.model()
                == m,
            Decoded::Failed(f) => r matches Err(e) && crate::marshal::failure_is(e, f),
            Decoded::Fault => false,
        }
    }
}

/// `data` is a payload whose serialized value would make slicing fail.
pub open spec fn payload_faults(data: Seq<u8>) -> bool {
    data.len() >= 8 && decode(data.subrange(8, data.len() as int)) is Fault
}

/// Split a callback payload into the callback id and its input value.
pub fn deserialize_callback_payload(data: &[u8]) -> (r: Result<(u64, ClrValue), DotBridgeError>)
    requires
        !payload_faults(data@),
    ensures
        payload_matches(data@, r),
{
    if data.len() < 8 {
        return Err(DotBridgeError::MarshalError("callback payload too short".to_owned()));
    }
    let id = le64_at(data, 0);
    let body = slice_from(data, 8);
    match ClrValue::deserialize(body) {
        Ok((value, _)) => Ok((id, value)),
        Err(e) => Err(e),
    }
}

/// Like `deserialize_callback_payload`, but total: `None` exactly on the payloads
/// that it excludes.
pub fn try_deserialize_callback_payload(data: &[u8]) -> (r: Option<Result<(u64, ClrValue), DotBridgeError>>)
    ensures
        r is None <==> payload_faults(data@),
        r matches Some(x) ==> payload_matches(data@, x),
{
    if data.len() >= 8 {
        let body = slice_from(data, 8);
        if ClrValue::try_deserialize(body).is_none() {
            return None;
        }
    }
    Some(deserialize_callback_payload(data))
}

fn slice_from(data: &[u8], from: usize) -> (r: &[u8])
    requires
        from <= data@.len(),
    ensures
        r@ == data@.subrange(from as int, data@.len() as int),
{
    let (_, tail) = data.split_at(from);
    tail
}

/// The model of what goes back to .NET after a callback ran: its value, or the
/// display text of its error as a string.
pub open spec fn response_model(outcome: Result<ClrValue, DotBridgeError>) -> ClrModel {
    match outcome {
        Ok(v) => v.model(),
        Err(e) => ClrModel::Str(e.text()),
    }
}

/// The bytes sent back to .NET for the outcome of a callback (or of decoding its
/// payload): the serialized value, or the error's display text serialized as a
/// string.
pub fn callback_response(outcome: &Result<ClrValue, DotBridgeError>) -> (r: Vec<u8>)
    ensures
        r@ == encode(response_model(*outcome)),
{
    match outcome {
        Ok(v) => v.serialize(),
        Err(e) => ClrValue::String(e.to_string()).serialize(),
    }
}

} // verus!
