//! Decisions around compiling inline C# source: what the compiler's status and error
//! bytes mean.
use crate::error::DotBridgeError;
use crate::invoke::status_text;
use crate::text::{lossy_utf8_text, push_status_hex, utf8_decode_lossy};
use vstd::prelude::*;
use vstd::string::*;

verus! {

/// `e` is a `CompilationError` with message `msg`.
pub open spec fn is_compilation_error(e: DotBridgeError, msg: Seq<char>) -> bool {
    e matches DotBridgeError::CompilationError(m) && m@ == msg
}

pub open spec fn msg_compiler_unavailable() -> Seq<char> {
    "C# compiler not available. The DotBridgeBootstrap assembly must be compiled first. Run `dotnet build` in the bootstrap directory, or use `func_from_assembly()` with pre-compiled assemblies instead."@
}

pub open spec fn msg_null_handle() -> Seq<char> {
    "compilation succeeded but returned null function pointer"@
}

/// The error reported when the bootstrap assembly holds no compiler entry point.
pub fn compiler_unavailable() -> (e: DotBridgeError)
    ensures
        is_compilation_error(e, msg_compiler_unavailable()),
{
    DotBridgeError::CompilationError(
        "C# compiler not available. The DotBridgeBootstrap assembly must be compiled first. Run `dotnet build` in the bootstrap directory, or use `func_from_assembly()` with pre-compiled assemblies instead.".to_owned(),
    )
}

/// What a compilation returned, given its status, the error bytes it sent (empty when
/// none) and whether the handle it produced is null.
pub open spec fn compile_outcome_holds(
    status: int,
    error: Seq<u8>,
    handle_is_null: bool,
    r: Result<(), DotBridgeError>,
) -> bool {
    if status < 0 {
        r matches Err(e) && is_compilation_error(
            e,
            if error.len() > 0 {
                lossy_utf8_text(error)
            } else {
                status_text("compilation failed with status "@, status)
            },
        )
    } else if handle_is_null {
        r matches Err(e) && is_compilation_error(e, msg_null_handle())
    } else {
        r is Ok
    }
}

/// Interpret the outcome of a compilation: a negative status is a compilation error
/// carrying the compiler's message (or the status), a null handle is an error, and
/// anything else is success.
pub fn compile_outcome(status: i32, error: &[u8], handle_is_null: bool) -> (r: Result<(), DotBridgeError>)
    ensures
        compile_outcome_holds(status as int, error@, handle_is_null, r),
        r matches Err(e) ==> (e matches DotBridgeError::CompilationError(m) && m@.len() > 0),
{
    proof {
        reveal_strlit("compilation succeeded but returned null function pointer");
    }
    if status < 0 {
        let message = if error.len() > 0 {
            utf8_decode_lossy(error)
        } else {
            let mut m = "compilation failed with status ".to_owned();
            push_status_hex(&mut m, status);
            m
        };
        return Err(DotBridgeError::CompilationError(message));
    }
    if handle_is_null {
        return Err(
            DotBridgeError::CompilationError(
                "compilation succeeded but returned null function pointer".to_owned(),
            ),
        );
    }
    Ok(())
}

} // verus!
