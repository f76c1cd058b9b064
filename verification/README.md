# dotbridge

A Rust/.NET bridge whose core is verified with Verus.

- `src/` is the verified library: the binary wire protocol (`marshal`, `wire`) with
  its round-trip laws (`laws`, `normal_form`), integer-level IEEE 754 conversions
  (`binary64`, `rounding`), the coercions between Rust values and CLR values
  (`convert`, `conversion_laws`), error texts (`error`), the interpretation of what
  .NET returns (`invoke`, `compiler`, `runtime`), the callback registry and its
  payload format (`callback`), parsing of the `dotnet` host's listings (`listing`)
  and the decisions around `hostfxr` (`hostfxr`).
- `app/` hosts .NET: it loads `hostfxr` with `libloading`, starts CoreCLR, calls
  managed entry points through raw function pointers (synchronously or on tokio's
  blocking pool), keeps the process-wide callback registry with its FFI entry
  points, and provides `Display`-able error types. Every decision it takes on what
  comes back from .NET is a call into the library.
- `tests/` exercises the library.
