//! Error types of the bridge and their display texts.
use crate::text::{hex_digits, push_status_hex, u32_pattern};
use vstd::prelude::*;
use vstd::string::*;

verus! {

/// Errors raised while loading and driving the .NET host (`hostfxr`).
///
/// Outside values (a loader error) are carried as their display text.
#[derive(Debug, Clone)]
pub enum SysError {
    /// The native library could not be loaded; holds the loader's message.
    LibraryLoad(String),
    /// No `hostfxr` library was found in any of the searched directories.
    HostFxrNotFound { searched_paths: Vec<String> },
    /// A required `hostfxr` export is missing.
    SymbolNotFound { name: String },
    /// A `hostfxr` call returned a failure status.
    HostFxrError(i32),
    RuntimeInitFailed,
    DelegateNotAvailable(String),
    InvalidPath(String),
    Other(String),
}

/// Errors of the bridge.
///
/// Outside error values (an I/O error) are carried as their display text.
#[derive(Debug, Clone)]
pub enum DotBridgeError {
    Runtime(SysError),
    MarshalError(String),
    DotNetException { message: String, stack_trace: Option<String> },
    CompilationError(String),
    NotInitialized,
    TaskCancelled,
    TaskFaulted(String),
    InvalidArgument(String),
    CallbackError(String),
    Io(String),
}

impl DotBridgeError {
    /// `self` is a `MarshalError` whose message is `msg`.
    pub open spec fn is_marshal_error(&self, msg: Seq<char>) -> bool {
        self matches DotBridgeError::MarshalError(m) && m@ == msg
    }

    /// `self` is a `DotNetException` with message `msg` and no stack trace.
    pub open spec fn is_exception_without_trace(&self, msg: Seq<char>) -> bool {
        self matches DotBridgeError::DotNetException { message, stack_trace } && message@ == msg
            && stack_trace is None
    }
}

/// The `{:?}` rendering of a list of strings (`["a", "b"]`, each string escaped).
pub uninterp spec fn debug_list_text(items: Seq<Seq<char>>) -> Seq<char>;

/// Renders a list of strings with `format!("{:?}", ..)`.
///
/// Trusted: the result is named `debug_list_text` of the strings' texts; nothing more
/// of std's `Debug` rendering is stated.
#[verifier::external_body]
pub(crate) fn debug_list(items: &Vec<String>) -> (r: String)
    ensures
        r@ == debug_list_text(items@.map_values(|s: String| s@)),
{
    format!("{:?}", items)
}

impl SysError {
    /// The display text of this error.
    pub open spec fn text(&self) -> Seq<char> {
        match self {
            SysError::LibraryLoad(m) => "failed to load native library: "@ + m@,
            SysError::HostFxrNotFound { searched_paths } => "hostfxr not found. Is .NET installed? Searched: "@
                + debug_list_text(searched_paths@.map_values(|s: String| s@)),
            SysError::SymbolNotFound { name } => "hostfxr function '"@ + name@ + "' not found"@,
            SysError::HostFxrError(n) => "hostfxr call failed with status code: "@ + seq!['0', 'x']
                + hex_digits(u32_pattern(*n as int), 8),
            SysError::RuntimeInitFailed => "failed to initialize CoreCLR runtime"@,
            SysError::DelegateNotAvailable(d) => "delegate type "@ + d@ + " not available"@,
            SysError::InvalidPath(p) => "invalid UTF-8 in path: "@ + p@,
            SysError::Other(m) => m@,
        }
    }

    /// The display text of this error.
    pub fn to_string(&self) -> (r: String)
        ensures
            r@ == self.text(),
    {
        match self {
            SysError::LibraryLoad(m) => {
                let mut r = "failed to load native library: ".to_owned();
                r.append(m.as_str());
                r
            },
            SysError::HostFxrNotFound { searched_paths } => {
                let mut r = "hostfxr not found. Is .NET installed? Searched: ".to_owned();
                let list = debug_list(searched_paths);
                r.append(list.as_str());
                r
            },
            SysError::SymbolNotFound { name } => {
                let mut r = "hostfxr function '".to_owned();
                r.append(name.as_str());
                r.append("' not found");
                r
            },
            SysError::HostFxrError(n) => {
                let mut r = "hostfxr call failed with status code: ".to_owned();
                push_status_hex(&mut r, *n);
                r
            },
            SysError::RuntimeInitFailed => "failed to initialize CoreCLR runtime".to_owned(),
            SysError::DelegateNotAvailable(d) => {
                let mut r = "delegate type ".to_owned();
                r.append(d.as_str());
                r.append(" not available");
                r
            },
            SysError::InvalidPath(p) => {
                let mut r = "invalid UTF-8 in path: ".to_owned();
                r.append(p.as_str());
                r
            },
            SysError::Other(m) => m.clone(),
        }
    }
}

impl DotBridgeError {
    /// The display text of this error.
    pub open spec fn text(&self) -> Seq<char> {
        match self {
            DotBridgeError::Runtime(e) => "runtime error: "@ + e.text(),
            DotBridgeError::MarshalError(m) => "marshal error: "@ + m@,
            DotBridgeError::DotNetException { message, .. } => ".NET exception: "@ + message@,
            DotBridgeError::CompilationError(m) => "compilation failed: "@ + m@,
            DotBridgeError::NotInitialized => "runtime not initialized"@,
            DotBridgeError::TaskCancelled => "async task was cancelled"@,
            DotBridgeError::TaskFaulted(m) => "async task faulted: "@ + m@,
            DotBridgeError::InvalidArgument(m) => "invalid argument: "@ + m@,
            DotBridgeError::CallbackError(m) => "callback error: "@ + m@,
            DotBridgeError::Io(m) => "io error: "@ + m@,
        }
    }

    /// The display text of this error.
    pub fn to_string(&self) -> (r: String)
        ensures
            r@ == self.text(),
    {
        let (prefix, detail): (&str, String) = match self {
            DotBridgeError::Runtime(e) => ("runtime error: ", e.to_string()),
            DotBridgeError::MarshalError(m) => ("marshal error: ", m.clone()),
            DotBridgeError::DotNetException { message, .. } => (".NET exception: ", message.clone()),
            DotBridgeError::CompilationError(m) => ("compilation failed: ", m.clone()),
            DotBridgeError::NotInitialized => ("runtime not initialized", String::new()),
            DotBridgeError::TaskCancelled => ("async task was cancelled", String::new()),
            DotBridgeError::TaskFaulted(m) => ("async task faulted: ", m.clone()),
            DotBridgeError::InvalidArgument(m) => ("invalid argument: ", m.clone()),
            DotBridgeError::CallbackError(m) => ("callback error: ", m.clone()),
            DotBridgeError::Io(m) => ("io error: ", m.clone()),
        };
        let mut r = prefix.to_owned();
        r.append(detail.as_str());
        assert(r@ =~= self.text());
        r
    }
}

} // verus!
