//! What the bridge decides around the .NET hosting library (`hostfxr`): delegate
//! type codes, status codes, where the library is looked for, and the strings that
//! cross into it.
use crate::error::SysError;
use crate::text::{lossy_utf8_text, utf8_decode_lossy};
use vstd::prelude::*;
use vstd::string::*;
use vstd::utf8::*;

verus! {

/// Delegate types that `hostfxr_get_runtime_delegate` hands out (the hosting API's
/// `hostfxr_delegate_type`).
#[derive(Debug, Clone, Copy, PartialEq, Eq, Structural)]
pub enum HostFxrDelegateType {
    ComActivation,
    LoadInMemoryAssembly,
    WinrtActivation,
    ComRegister,
    ComUnregister,
    LoadAssemblyAndGetFunctionPointer,
    GetFunctionPointer,
    LoadAssembly,
    LoadAssemblyBytes,
}

/// The hosting API's number for a delegate type.
pub open spec fn delegate_code(t: HostFxrDelegateType) -> int {
    match t {
        HostFxrDelegateType::ComActivation => 0,
        HostFxrDelegateType::LoadInMemoryAssembly => 1,
        HostFxrDelegateType::WinrtActivation => 2,
        HostFxrDelegateType::ComRegister => 3,
        HostFxrDelegateType::ComUnregister => 4,
        HostFxrDelegateType::LoadAssemblyAndGetFunctionPointer => 5,
        HostFxrDelegateType::GetFunctionPointer => 6,
        HostFxrDelegateType::LoadAssembly => 7,
        HostFxrDelegateType::LoadAssemblyBytes => 8,
    }
}

impl HostFxrDelegateType {
    /// The number passed to `hostfxr_get_runtime_delegate`.
    pub fn code(&self) -> (c: i32)
        ensures
            c == delegate_code(*self),
    {
        match self {
            HostFxrDelegateType::ComActivation => 0,
            HostFxrDelegateType::LoadInMemoryAssembly => 1,
            HostFxrDelegateType::WinrtActivation => 2,
            HostFxrDelegateType::ComRegister => 3,
            HostFxrDelegateType::ComUnregister => 4,
            HostFxrDelegateType::LoadAssemblyAndGetFunctionPointer => 5,
            HostFxrDelegateType::GetFunctionPointer => 6,
            HostFxrDelegateType::LoadAssembly => 7,
            HostFxrDelegateType::LoadAssemblyBytes => 8,
        }
    }
}

/// Distinct delegate types have distinct codes, all in `0..=8`.
pub proof fn lemma_delegate_codes_distinct(a: HostFxrDelegateType, b: HostFxrDelegateType)
    ensures
        0 <= delegate_code(a) <= 8,
        delegate_code(a) == delegate_code(b) <==> a == b,
{
}

// ---------------------------------------------------------------------------
// Status codes
// ---------------------------------------------------------------------------
/// Check a status returned by `hostfxr` or a runtime delegate: negative values are
/// failures, zero and the positive success codes (host already initialized,
/// different runtime properties) are success.
pub fn check_status(status: i32) -> (r: Result<(), SysError>)
    ensures
        status < 0 <==> r is Err,
        r matches Err(e) ==> e == SysError::HostFxrError(status),
{
    if status < 0 {
        Err(SysError::HostFxrError(status))
    } else {
        Ok(())
    }
}

/// The error for an optional `hostfxr` export that the library lacks.
pub fn missing_symbol(name: &str) -> (e: SysError)
    ensures
        e matches SysError::SymbolNotFound { name: n } && n@ == name@,
{
    SysError::SymbolNotFound { name: name.to_owned() }
}

/// The error for a runtime delegate that the host did not hand out.
pub fn delegate_not_available(name: &str) -> (e: SysError)
    ensures
        e matches SysError::DelegateNotAvailable(n) && n@ == name@,
{
    SysError::DelegateNotAvailable(name.to_owned())
}

// ---------------------------------------------------------------------------
// Where the library is looked for
// ---------------------------------------------------------------------------
/// The operating systems the bridge knows how to host .NET on.
#[derive(Debug, Clone, Copy, PartialEq, Eq, Structural)]
pub enum TargetOs {
    Windows,
    MacOs,
    Linux,
}

pub open spec fn lib_name_text(os: TargetOs) -> Seq<char> {
    match os {
        TargetOs::Windows => "hostfxr.dll"@,
        TargetOs::MacOs => "libhostfxr.dylib"@,
        TargetOs::Linux => "libhostfxr.so"@,
    }
}

/// The file name of the `hostfxr` library on `os`.
pub fn hostfxr_lib_name(os: TargetOs) -> (r: &'static str)
    ensures
        r@ == lib_name_text(os),
{
    match os {
        TargetOs::Windows => "hostfxr.dll",
        TargetOs::MacOs => "libhostfxr.dylib",
        TargetOs::Linux => "libhostfxr.so",
    }
}

/// `base` followed by `suffix`, when `base` is present.
pub open spec fn suffixed(base: Option<Seq<char>>, suffix: Seq<char>) -> Seq<Seq<char>> {
    match base {
        Some(b) => seq![b + suffix],
        None => seq![],
    }
}

/// The usual .NET installation directories on `os`, in the order they are tried.
/// `program_files`, `program_files_x86` and `home` are the values of the
/// `ProgramFiles`, `ProgramFiles(x86)` and `HOME` environment variables.
pub open spec fn platform_paths(
    os: TargetOs,
    program_files: Option<Seq<char>>,
    program_files_x86: Option<Seq<char>>,
    home: Option<Seq<char>>,
) -> Seq<Seq<char>> {
    match os {
        TargetOs::Windows => suffixed(program_files, "\\dotnet"@) + suffixed(
            program_files_x86,
            "\\dotnet"@,
        ),
        TargetOs::MacOs => seq!["/usr/local/share/dotnet"@, "/opt/homebrew/share/dotnet"@],
        TargetOs::Linux => seq!["/usr/share/dotnet"@, "/usr/lib/dotnet"@, "/snap/dotnet-sdk/current"@]
            + suffixed(home, "/.dotnet"@),
    }
}

/// The install directories: on Windows one per set `ProgramFiles` variable, in the
/// order `ProgramFiles`, `ProgramFiles(x86)`, each followed by `\dotnet`; on Linux the
/// three system directories and then, when `HOME` is set, its `.dotnet`; on macOS the
/// two system directories. The variables of other systems are ignored.
pub proof fn lemma_platform_paths(
    pf: Option<Seq<char>>,
    pf86: Option<Seq<char>>,
    home: Option<Seq<char>>,
)
    ensures
        ({
            let w = platform_paths(TargetOs::Windows, pf, pf86, home);
            &&& w.len() == (if pf is Some { 1int } else { 0 }) + (if pf86 is Some { 1int } else { 0 })
            &&& pf matches Some(p) ==> w[0] == p + "\\dotnet"@
            &&& pf86 matches Some(p) ==> w[w.len() - 1] == p + "\\dotnet"@
        }),
        ({
            let l = platform_paths(TargetOs::Linux, pf, pf86, home);
            &&& l.len() == 3 + (if home is Some { 1int } else { 0 })
            &&& l[0] == "/usr/share/dotnet"@
            &&& l[1] == "/usr/lib/dotnet"@
            &&& l[2] == "/snap/dotnet-sdk/current"@
            &&& home matches Some(h) ==> l[3] == h + "/.dotnet"@
        }),
        platform_paths(TargetOs::MacOs, pf, pf86, home) == seq![
            "/usr/local/share/dotnet"@,
            "/opt/homebrew/share/dotnet"@,
        ],
{
}

pub open spec fn opt_view(s: Option<&str>) -> Option<Seq<char>> {
    match s {
        Some(t) => Some(t@),
        None => None,
    }
}

fn push_suffixed(out: &mut Vec<String>, base: Option<&str>, suffix: &str)
    ensures
        final(out)@.map_values(|s: String| s@) == old(out)@.map_values(|s: String| s@) + suffixed(
            opt_view(base),
            suffix@,
        ),
{
    match base {
        Some(b) => {
            let mut p = b.to_owned();
            p.append(suffix);
            let ghost before = out@;
            out.push(p);
            assert(out@.map_values(|s: String| s@) =~= before.map_values(|s: String| s@)
                + suffixed(opt_view(base), suffix@));
        },
        None => {
            assert(old(out)@.map_values(|s: String| s@) + suffixed(opt_view(base), suffix@)
                =~= old(out)@.map_values(|s: String| s@));
        },
    }
}

fn push_text(out: &mut Vec<String>, t: &str)
    ensures
        final(out)@.map_values(|s: String| s@) == old(out)@.map_values(|s: String| s@).push(t@),
{
    let ghost before = out@;
    out.push(t.to_owned());
    assert(out@.map_values(|s: String| s@) =~= before.map_values(|s: String| s@).push(t@));
}

/// The usual .NET installation directories on `os`, in the order they are tried.
pub fn platform_dotnet_paths(
    os: TargetOs,
    program_files: Option<&str>,
    program_files_x86: Option<&str>,
    home: Option<&str>,
) -> (r: Vec<String>)
    ensures
        r@.map_values(|s: String| s@) == platform_paths(
            os,
            opt_view(program_files),
            opt_view(program_files_x86),
            opt_view(home),
        ),
{
    let mut out: Vec<String> = Vec::new();
    assert(out@.map_values(|s: String| s@) =~= Seq::<Seq<char>>::empty());
    match os {
        TargetOs::Windows => {
            push_suffixed(&mut out, program_files, "\\dotnet");
            push_suffixed(&mut out, program_files_x86, "\\dotnet");
            assert(out@.map_values(|s: String| s@) =~= platform_paths(
                os,
                opt_view(program_files),
                opt_view(program_files_x86),
                opt_view(home),
            ));
        },
        TargetOs::MacOs => {
            push_text(&mut out, "/usr/local/share/dotnet");
            push_text(&mut out, "/opt/homebrew/share/dotnet");
            assert(out@.map_values(|s: String| s@) =~= platform_paths(
                os,
                opt_view(program_files),
                opt_view(program_files_x86),
                opt_view(home),
            ));
        },
        TargetOs::Linux => {
            push_text(&mut out, "/usr/share/dotnet");
            push_text(&mut out, "/usr/lib/dotnet");
            push_text(&mut out, "/snap/dotnet-sdk/current");
            push_suffixed(&mut out, home, "/.dotnet");
            assert(out@.map_values(|s: String| s@) =~= platform_paths(
                os,
                opt_view(program_files),
                opt_view(program_files_x86),
                opt_view(home),
            ));
        },
    }
    out
}

/// The directories searched for `hostfxr`, in order: the `DOTNET_ROOT` directory when
/// that variable is set, then the usual installation directories of `os`.
pub open spec fn search_roots(
    dotnet_root: Option<Seq<char>>,
    os: TargetOs,
    program_files: Option<Seq<char>>,
    program_files_x86: Option<Seq<char>>,
    home: Option<Seq<char>>,
) -> Seq<Seq<char>> {
    suffixed(dotnet_root, seq![]) + platform_paths(os, program_files, program_files_x86, home)
}

/// The directories searched for `hostfxr` before asking the `dotnet` command, in
/// order.
pub fn hostfxr_search_roots(
    dotnet_root: Option<&str>,
    os: TargetOs,
    program_files: Option<&str>,
    program_files_x86: Option<&str>,
    home: Option<&str>,
) -> (r: Vec<String>)
    ensures
        r@.map_values(|s: String| s@) == search_roots(
            opt_view(dotnet_root),
            os,
            opt_view(program_files),
            opt_view(program_files_x86),
            opt_view(home),
        ),
{
    let mut out: Vec<String> = Vec::new();
    assert(out@.map_values(|s: String| s@) =~= Seq::<Seq<char>>::empty());
    push_suffixed(&mut out, dotnet_root, "");
    proof {
        reveal_strlit("");
        if let Some(d) = dotnet_root {
            assert(d@ + ""@ =~= d@ + seq![]);
        }
    }
    let rest = platform_dotnet_paths(os, program_files, program_files_x86, home);
    let ghost before = out@;
    let mut i: usize = 0;
    while i < rest.len()
        invariant
            i <= rest@.len(),
            out@.map_values(|s: String| s@) == before.map_values(|s: String| s@)
                + rest@.map_values(|s: String| s@).subrange(0, i as int),
        decreases rest@.len() - i,
    {
        let ghost prev = out@;
        out.push(rest[i].clone());
        proof {
            assert(out@.map_values(|s: String| s@) =~= prev.map_values(|s: String| s@).push(
                rest@[i as int]@,
            ));
            assert(rest@.map_values(|s: String| s@).subrange(0, i as int + 1) =~= rest@.map_values(
                |s: String| s@,
            ).subrange(0, i as int).push(rest@[i as int]@));
        }
        i = i + 1;
    }
    assert(rest@.map_values(|s: String| s@).subrange(0, i as int) =~= rest@.map_values(
        |s: String| s@,
    ));
    out
}

/// `a` sorts strictly before `b` in lexicographic byte order (as paths that differ
/// only in their last component sort).
pub open spec fn bytes_lt(a: Seq<u8>, b: Seq<u8>) -> bool
    decreases a.len(),
{
    if a.len() == 0 {
        b.len() > 0
    } else if b.len() == 0 {
        false
    } else if a[0] != b[0] {
        a[0] < b[0]
    } else {
        bytes_lt(a.drop_first(), b.drop_first())
    }
}

/// Lexicographic byte order is a strict total order.
pub proof fn lemma_bytes_lt_total(a: Seq<u8>, b: Seq<u8>)
    ensures
        !(bytes_lt(a, b) && bytes_lt(b, a)),
        a != b ==> bytes_lt(a, b) || bytes_lt(b, a),
        !bytes_lt(a, a),
    decreases a.len(),
{
    if a.len() > 0 && b.len() > 0 {
        lemma_bytes_lt_total(a.drop_first(), b.drop_first());
        if a[0] == b[0] && a != b {
            assert(a =~= seq![a[0]] + a.drop_first());
            assert(b =~= seq![b[0]] + b.drop_first());
        }
    } else if a.len() == 0 && b.len() == 0 {
        assert(a =~= b);
    }
    if a.len() > 0 {
        lemma_bytes_lt_total(a.drop_first(), a.drop_first());
    }
}

/// Lexicographic byte order is transitive.
pub proof fn lemma_bytes_lt_transitive(a: Seq<u8>, b: Seq<u8>, c: Seq<u8>)
    requires
        bytes_lt(a, b),
        bytes_lt(b, c),
    ensures
        bytes_lt(a, c),
    decreases a.len(),
{
    if a.len() > 0 && b.len() > 0 && c.len() > 0 && a[0] == b[0] && b[0] == c[0] {
        lemma_bytes_lt_transitive(a.drop_first(), b.drop_first(), c.drop_first());
    }
}

fn bytes_less(a: &Vec<u8>, b: &Vec<u8>) -> (r: bool)
    ensures
        r == bytes_lt(a@, b@),
{
    let mut i: usize = 0;
    proof {
        assert(a@.subrange(0, a@.len() as int) =~= a@);
        assert(b@.subrange(0, b@.len() as int) =~= b@);
    }
    while i < a.len() && i < b.len() && a[i] == b[i]
        invariant
            i <= a@.len(),
            i <= b@.len(),
            forall|j: int| 0 <= j < i ==> a@[j] == b@[j],
            bytes_lt(a@, b@) == bytes_lt(a@.subrange(i as int, a@.len() as int), b@.subrange(
                i as int,
                b@.len() as int,
            )),
        decreases a@.len() - i,
    {
        proof {
            let sa = a@.subrange(i as int, a@.len() as int);
            let sb = b@.subrange(i as int, b@.len() as int);
            assert(sa.drop_first() =~= a@.subrange(i + 1, a@.len() as int));
            assert(sb.drop_first() =~= b@.subrange(i + 1, b@.len() as int));
        }
        i = i + 1;
    }
    proof {
        let sa = a@.subrange(i as int, a@.len() as int);
        let sb = b@.subrange(i as int, b@.len() as int);
        if i < a@.len() && i < b@.len() {
            assert(sa[0] == a@[i as int]);
            assert(sb[0] == b@[i as int]);
        }
    }
    if i == a.len() {
        i < b.len()
    } else if i == b.len() {
        false
    } else {
        a[i] < b[i]
    }
}

/// The index of the version directory that is taken among `names` (the entries of
/// `host/fxr`): the name that sorts last in plain byte order, the first such when
/// names repeat, and `None` when there are none. Byte order is not version order:
/// `9.0.1` sorts after `10.0.0`.
pub fn latest_version(names: &Vec<Vec<u8>>) -> (r: Option<usize>)
    ensures
        r is None <==> names@.len() == 0,
        r matches Some(i) ==> i < names@.len() && forall|j: int|
            0 <= j < names@.len() ==> !bytes_lt(#[trigger] names@[i as int]@, names@[j]@),
{
    if names.len() == 0 {
        return None;
    }
    let mut best: usize = 0;
    let mut j: usize = 1;
    proof {
        lemma_bytes_lt_total(names@[0]@, names@[0]@);
    }
    while j < names.len()
        invariant
            1 <= j <= names@.len(),
            best < j,
            forall|k: int| 0 <= k < j ==> !bytes_lt(#[trigger] names@[best as int]@, names@[k]@),
        decreases names@.len() - j,
    {
        if bytes_less(&names[best], &names[j]) {
            proof {
                assert forall|k: int| 0 <= k < j + 1 implies !bytes_lt(
                    #[trigger] names@[j as int]@,
                    names@[k]@,
                ) by {
                    lemma_bytes_lt_total(names@[j as int]@, names@[k]@);
                    if k < j && bytes_lt(names@[j as int]@, names@[k]@) {
                        lemma_bytes_lt_transitive(names@[best as int]@, names@[j as int]@, names@[k]@);
                    }
                }
            }
            best = j;
        }
        j = j + 1;
    }
    Some(best)
}

// ---------------------------------------------------------------------------
// Strings that cross into the hosting library
// ---------------------------------------------------------------------------
/// The NUL-terminated narrow string for `s` (its UTF-8 bytes and a zero), as the
/// hosting library takes strings on Unix.
pub fn to_wide_string(s: &str) -> (r: Vec<u8>)
    ensures
        r@ == encode_utf8(s@).push(0u8),
{
    let bytes = s.as_bytes();
    let mut v: Vec<u8> = Vec::new();
    let mut i: usize = 0;
    while i < bytes.len()
        invariant
            i <= bytes@.len(),
            bytes@ == s.spec_bytes(),
            v@ == bytes@.subrange(0, i as int),
        decreases bytes@.len() - i,
    {
        v.push(bytes[i]);
        proof {
            assert(v@ =~= bytes@.subrange(0, i as int + 1));
        }
        i = i + 1;
    }
    v.push(0u8);
    proof {
        assert(bytes@.subrange(0, bytes@.len() as int) =~= bytes@);
        assert(s.spec_bytes() == encode_utf8(s@));
    }
    v
}

/// The UTF-16 code units of one character.
pub open spec fn utf16_units(c: char) -> Seq<u16> {
    let v = c as u32;
    if v < 0x10000 {
        seq![v as u16]
    } else {
        let w = v - 0x10000;
        seq![(0xD800 + w / 0x400) as u16, (0xDC00 + w % 0x400) as u16]
    }
}

/// The UTF-16 units of a character decode back to it: a character below U+10000 is
/// one unit of its own value; any other is a high surrogate followed by a low
/// surrogate that combine to it.
pub proof fn lemma_utf16_units_decode(c: char)
    ensures
        ({
            let u = utf16_units(c);
            let v = c as u32;
            &&& v < 0x10000 ==> u.len() == 1 && u[0] == v
            &&& v >= 0x10000 ==> u.len() == 2 && 0xD800 <= u[0] < 0xDC00 && 0xDC00 <= u[1] < 0xE000
                && (u[0] - 0xD800) * 0x400 + (u[1] - 0xDC00) + 0x10000 == v
        }),
{
    let v = c as u32;
    char_is_scalar(c);
    if v >= 0x10000 {
        let w = v - 0x10000;
        assert(w < 0x10_0000);
        assert(0 <= w / 0x400 < 0x400);
        assert(0 <= w % 0x400 < 0x400);
        assert((w / 0x400) * 0x400 + w % 0x400 == w);
    }
}

/// The UTF-16 encoding of a character sequence.
pub open spec fn encode_utf16(s: Seq<char>) -> Seq<u16>
    decreases s.len(),
{
    if s.len() == 0 {
        seq![]
    } else {
        encode_utf16(s.drop_last()) + utf16_units(s.last())
    }
}

/// The NUL-terminated UTF-16 string for `s`, as the hosting library takes strings on
/// Windows.
pub fn to_wide_string_utf16(s: &str) -> (r: Vec<u16>)
    ensures
        r@ == encode_utf16(s@).push(0u16),
{
    let cs = crate::text::chars_of(s);
    let mut v: Vec<u16> = Vec::new();
    let mut i: usize = 0;
    while i < cs.len()
        invariant
            i <= cs@.len(),
            cs@ == s@,
            v@ == encode_utf16(cs@.subrange(0, i as int)),
        decreases cs@.len() - i,
    {
        let c = cs[i];
        let x = c as u32;
        proof {
            assert(cs@.subrange(0, i as int + 1).drop_last() =~= cs@.subrange(0, i as int));
            assert(cs@.subrange(0, i as int + 1).last() == c);
        }
        if x < 0x10000 {
            v.push(x as u16);
        } else {
            let w = x - 0x10000;
            v.push((0xD800 + w / 0x400) as u16);
            v.push((0xDC00 + w % 0x400) as u16);
        }
        proof {
            assert(v@ =~= encode_utf16(cs@.subrange(0, i as int + 1)));
        }
        i = i + 1;
    }
    v.push(0u16);
    proof {
        assert(cs@.subrange(0, cs@.len() as int) =~= s@);
    }
    v
}

/// The units of `d` before its first zero (all of `d` when it has none).
pub open spec fn before_nul16(d: Seq<u16>) -> Seq<u16>
    decreases d.len(),
{
    if d.len() == 0 || d[0] == 0 {
        seq![]
    } else {
        seq![d[0]] + before_nul16(d.drop_first())
    }
}

/// The text that `String::from_utf16_lossy` makes of `units`.
pub uninterp spec fn lossy_utf16_text(units: Seq<u16>) -> Seq<char>;

/// Decodes UTF-16 with `String::from_utf16_lossy` (unpaired surrogates become U+FFFD).
///
/// Trusted: the result is named `lossy_utf16_text`; units that are the UTF-16
/// encoding of a string decode to that string, and since every unit either belongs to
/// a decoded character or is replaced, non-empty units give non-empty text, as the
/// documentation of `from_utf16_lossy` states.
#[verifier::external_body]
fn utf16_decode_lossy(units: &[u16]) -> (r: String)
    ensures
        r@ == lossy_utf16_text(units@),
        forall|s: Seq<char>| units@ == #[trigger] encode_utf16(s) ==> r@ == s,
        units@.len() > 0 ==> r@.len() > 0,
{
    String::from_utf16_lossy(units)
}

/// The text of a NUL-terminated UTF-16 string handed back by the hosting library on
/// Windows: empty for a null pointer (`None`), otherwise the units before the first
/// zero, decoded with unpaired surrogates replaced.
pub fn from_wide_string_utf16(data: Option<&[u16]>) -> (r: String)
    ensures
        data is None ==> r@ == Seq::<char>::empty(),
        data matches Some(d) ==> r@ == lossy_utf16_text(before_nul16(d@)),
        data matches Some(d) ==> forall|s: Seq<char>|
            before_nul16(d@) == #[trigger] encode_utf16(s) ==> r@ == s,
{
    match data {
        None => String::new(),
        Some(d) => {
            let mut k: usize = 0;
            proof {
                assert(d@.subrange(0, d@.len() as int) =~= d@);
                assert(d@.subrange(0, 0) + before_nul16(d@) =~= before_nul16(d@));
            }
            while k < d.len() && d[k] != 0
                invariant
                    k <= d@.len(),
                    before_nul16(d@) == d@.subrange(0, k as int) + before_nul16(
                        d@.subrange(k as int, d@.len() as int),
                    ),
                decreases d@.len() - k,
            {
                proof {
                    let t = d@.subrange(k as int, d@.len() as int);
                    assert(t.drop_first() =~= d@.subrange(k + 1, d@.len() as int));
                    assert(d@.subrange(0, k as int) + seq![d@[k as int]] =~= d@.subrange(0, k + 1));
                }
                k = k + 1;
            }
            proof {
                let t = d@.subrange(k as int, d@.len() as int);
                assert(before_nul16(t) =~= Seq::<u16>::empty());
                assert(d@.subrange(0, k as int) + Seq::<u16>::empty() =~= d@.subrange(0, k as int));
            }
            let (head, _) = d.split_at(k);
            utf16_decode_lossy(head)
        },
    }
}

/// No unit of the UTF-16 encoding of a string without U+0000 is zero, so its
/// NUL-terminated form comes back whole.
pub proof fn lemma_wide_string_utf16_round_trip(s: Seq<char>)
    requires
        forall|i: int| 0 <= i < s.len() ==> s[i] != '\0',
    ensures
        before_nul16(encode_utf16(s).push(0u16)) == encode_utf16(s),
    decreases s.len(),
{
    lemma_before_nul16_encoding(s, seq![0u16]);
    assert(encode_utf16(s).push(0u16) =~= encode_utf16(s) + seq![0u16]);
    assert(before_nul16(seq![0u16]) =~= Seq::<u16>::empty());
    assert(encode_utf16(s) + Seq::<u16>::empty() =~= encode_utf16(s));
}

proof fn lemma_before_nul16_prefix(p: Seq<u16>, t: Seq<u16>)
    requires
        forall|i: int| 0 <= i < p.len() ==> p[i] != 0,
    ensures
        before_nul16(p + t) == p + before_nul16(t),
    decreases p.len(),
{
    if p.len() > 0 {
        lemma_before_nul16_prefix(p.drop_first(), t);
        assert((p + t).drop_first() =~= p.drop_first() + t);
        assert(seq![p[0]] + (p.drop_first() + before_nul16(t)) =~= p + before_nul16(t));
    }
}

proof fn lemma_before_nul16_encoding(s: Seq<char>, tail: Seq<u16>)
    requires
        forall|i: int| 0 <= i < s.len() ==> s[i] != '\0',
    ensures
        before_nul16(encode_utf16(s) + tail) == encode_utf16(s) + before_nul16(tail),
    decreases s.len(),
{
    if s.len() > 0 {
        let init = s.drop_last();
        let u = utf16_units(s.last());
        let v = s.last() as u32;
        assert(v != 0) by {
            char_u32_cast(s.last(), v);
        }
        char_is_scalar(s.last());
        assert(v <= 0x10FFFF);
        if v < 0x10000 {
            assert(u[0] == v as u16);
        } else {
            let w = v - 0x10000;
            assert(0 <= w / 0x400 < 0x400);
            assert(0 <= w % 0x400 < 0x400);
        }
        assert forall|i: int| 0 <= i < u.len() implies u[i] != 0 by {}
        lemma_before_nul16_prefix(u, tail);
        assert(forall|i: int| 0 <= i < init.len() ==> init[i] == s[i]);
        lemma_before_nul16_encoding(init, u + tail);
        assert(encode_utf16(s) + tail =~= encode_utf16(init) + (u + tail));
        assert(encode_utf16(init) + (u + before_nul16(tail)) =~= encode_utf16(s) + before_nul16(tail));
    }
}

/// The bytes of `d` before its first zero (all of `d` when it has none).
pub open spec fn before_nul(d: Seq<u8>) -> Seq<u8>
    decreases d.len(),
{
    if d.len() == 0 || d[0] == 0 {
        seq![]
    } else {
        seq![d[0]] + before_nul(d.drop_first())
    }
}

/// No byte of the UTF-8 encoding of a character other than U+0000 is zero.
proof fn lemma_scalar_bytes_nonzero(c: char)
    requires
        c != '\0',
    ensures
        forall|i: int| 0 <= i < encode_scalar(c as u32).len() ==> #[trigger] encode_scalar(c as u32)[i] != 0,
{
    let v = c as u32;
    assert(v != 0) by {
        char_u32_cast(c, v);
    }
    if has_width_1_encoding(v) {
        assert(leading_byte_width_1(v) != 0) by (bit_vector)
            requires
                v != 0,
                v <= 0x7f,
        ;
    } else if has_width_2_encoding(v) {
        assert(leading_byte_width_2(v) != 0 && last_continuation_byte(v) != 0) by (bit_vector);
    } else if has_width_3_encoding(v) {
        assert(leading_byte_width_3(v) != 0 && second_last_continuation_byte(v) != 0
            && last_continuation_byte(v) != 0) by (bit_vector);
    } else {
        assert(leading_byte_width_4(v) != 0 && third_last_continuation_byte(v) != 0
            && second_last_continuation_byte(v) != 0 && last_continuation_byte(v) != 0)
            by (bit_vector);
    }
}

/// The bytes before the first zero of `encode_utf8(s)` followed by `tail` are all of
/// `encode_utf8(s)` and then those of `tail`, when `s` holds no U+0000.
proof fn lemma_before_nul_encoding(s: Seq<char>, tail: Seq<u8>)
    requires
        forall|i: int| 0 <= i < s.len() ==> s[i] != '\0',
    ensures
        before_nul(encode_utf8(s) + tail) == encode_utf8(s) + before_nul(tail),
    decreases s.len(),
{
    if s.len() > 0 {
        let e = encode_scalar(s[0] as u32);
        let rest = s.drop_first();
        lemma_scalar_bytes_nonzero(s[0]);
        lemma_before_nul_encoding(rest, tail);
        assert(encode_utf8(s) + tail =~= e + (encode_utf8(rest) + tail));
        lemma_before_nul_prefix(e, encode_utf8(rest) + tail);
        assert(e + (encode_utf8(rest) + before_nul(tail)) =~= encode_utf8(s) + before_nul(tail));
    }
}

/// A prefix without zeros is kept whole by `before_nul`.
proof fn lemma_before_nul_prefix(p: Seq<u8>, t: Seq<u8>)
    requires
        forall|i: int| 0 <= i < p.len() ==> p[i] != 0,
    ensures
        before_nul(p + t) == p + before_nul(t),
    decreases p.len(),
{
    if p.len() > 0 {
        lemma_before_nul_prefix(p.drop_first(), t);
        assert((p + t).drop_first() =~= p.drop_first() + t);
        assert(seq![p[0]] + (p.drop_first() + before_nul(t)) =~= p + before_nul(t));
    }
}

/// A string without U+0000 comes back whole from its NUL-terminated narrow form:
/// the bytes before the terminator are its UTF-8 encoding, which is valid and decodes
/// to it.
pub proof fn lemma_wide_string_round_trip(s: Seq<char>)
    requires
        forall|i: int| 0 <= i < s.len() ==> s[i] != '\0',
    ensures
        before_nul(encode_utf8(s).push(0u8)) == encode_utf8(s),
        valid_utf8(before_nul(encode_utf8(s).push(0u8))),
        decode_utf8(before_nul(encode_utf8(s).push(0u8))) == s,
{
    lemma_before_nul_encoding(s, seq![0u8]);
    assert(encode_utf8(s).push(0u8) =~= encode_utf8(s) + seq![0u8]);
    assert(before_nul(seq![0u8]) =~= Seq::<u8>::empty());
    assert(encode_utf8(s) + Seq::<u8>::empty() =~= encode_utf8(s));
    encode_utf8_valid_utf8(s);
    encode_utf8_decode_utf8(s);
}

/// The text of a NUL-terminated narrow string handed back by the hosting library:
/// empty for a null pointer (`None`), otherwise the bytes before the first zero,
/// decoded with invalid sequences replaced.
pub fn from_wide_string(data: Option<&[u8]>) -> (r: String)
    ensures
        data is None ==> r@ == Seq::<char>::empty(),
        data matches Some(d) ==> r@ == lossy_utf8_text(before_nul(d@)),
        data matches Some(d) ==> (valid_utf8(before_nul(d@)) ==> r@ == decode_utf8(
            before_nul(d@),
        )),
{
    match data {
        None => String::new(),
        Some(d) => {
            let mut k: usize = 0;
            proof {
                assert(d@.subrange(0, d@.len() as int) =~= d@);
                assert(d@.subrange(0, 0) + before_nul(d@) =~= before_nul(d@));
            }
            while k < d.len() && d[k] != 0
                invariant
                    k <= d@.len(),
                    forall|j: int| 0 <= j < k ==> d@[j] != 0,
                    before_nul(d@) == d@.subrange(0, k as int) + before_nul(
                        d@.subrange(k as int, d@.len() as int),
                    ),
                decreases d@.len() - k,
            {
                proof {
                    let t = d@.subrange(k as int, d@.len() as int);
                    assert(t.drop_first() =~= d@.subrange(k + 1, d@.len() as int));
                    assert(d@.subrange(0, k as int) + seq![d@[k as int]] =~= d@.subrange(0, k + 1));
                }
                k = k + 1;
            }
            proof {
                let t = d@.subrange(k as int, d@.len() as int);
                assert(before_nul(t) =~= Seq::<u8>::empty());
                assert(d@.subrange(0, k as int) + Seq::<u8>::empty() =~= d@.subrange(0, k as int));
            }
            let (head, _) = d.split_at(k);
            utf8_decode_lossy(head)
        },
    }
}

} // verus!
