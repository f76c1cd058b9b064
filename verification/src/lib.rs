//! Verified core of a Rust/.NET bridge: the binary wire protocol and its laws, value
//! coercions (numbers handled as IEEE 754 bit patterns), error texts, the callback
//! registry, and the decisions taken around hosting .NET.
pub mod binary64;
pub mod rounding;
pub mod narrowing;
pub mod text;
pub mod error;
pub mod marshal;
pub mod wire;
pub mod laws;
pub mod normal_form;
pub mod convert;
pub mod conversion_laws;
pub mod invoke;
pub mod compiler;
pub mod callback;
pub mod runtime;
pub mod listing;
pub mod hostfxr;
