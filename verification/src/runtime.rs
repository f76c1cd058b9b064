//! Decisions taken while starting the .NET runtime and loading functions: the
//! configuration, the runtime config file the host is given, and what the status of
//! the bootstrap's entry points means.
use crate::compiler::is_compilation_error;
use crate::error::DotBridgeError;
use crate::hostfxr::opt_view;
use crate::invoke::{is_exception, status_text};
use crate::text::{lossy_utf8_text, push_status_hex, utf8_decode_lossy};
use vstd::prelude::*;
use vstd::string::*;

verus! {

/// Configuration for starting the bridge.
#[derive(Debug, Clone)]
pub struct DotBridgeConfig {
    /// Path to a `.runtimeconfig.json` file; when absent one is generated.
    pub runtime_config_path: Option<String>,
    /// Target framework moniker (e.g. `"net8.0"`); `"net8.0"` when absent.
    pub target_framework: Option<String>,
    /// Directory that holds the bootstrap assembly.
    pub bootstrap_dir: Option<String>,
    /// Additional assembly search paths.
    pub assembly_search_paths: Vec<String>,
    /// Whether to print diagnostics.
    pub debug: bool,
}

impl DotBridgeConfig {
    /// The default configuration, with diagnostics on or off as given (the default
    /// takes it from whether `DOTBRIDGE_DEBUG` is set).
    pub fn with_debug(debug: bool) -> (c: Self)
        ensures
            c.runtime_config_path is None,
            c.target_framework is None,
            c.bootstrap_dir is None,
            c.assembly_search_paths@.len() == 0,
            c.debug == debug,
    {
        DotBridgeConfig {
            runtime_config_path: None,
            target_framework: None,
            bootstrap_dir: None,
            assembly_search_paths: Vec::new(),
            debug,
        }
    }
}

// ---------------------------------------------------------------------------
// Assembly references
// ---------------------------------------------------------------------------
/// `parts` joined with `sep` between consecutive parts.
pub open spec fn join_with(parts: Seq<Seq<char>>, sep: Seq<char>) -> Seq<char>
    decreases parts.len(),
{
    if parts.len() == 0 {
        seq![]
    } else if parts.len() == 1 {
        parts[0]
    } else {
        join_with(parts.drop_last(), sep) + sep + parts.last()
    }
}

/// The total length of a sequence of texts.
pub open spec fn total_len(parts: Seq<Seq<char>>) -> int
    decreases parts.len(),
{
    if parts.len() == 0 {
        0
    } else {
        total_len(parts.drop_last()) + parts.last().len()
    }
}

/// Joining keeps every part whole and puts exactly one separator between consecutive
/// parts: the result starts with the first part, ends with the last, and is as long as
/// the parts together plus one separator fewer than there are parts.
pub proof fn lemma_join_with(parts: Seq<Seq<char>>, sep: Seq<char>)
    ensures
        parts.len() > 0 ==> join_with(parts, sep).len() == total_len(parts) + (parts.len() - 1)
            * sep.len(),
        parts.len() > 0 ==> join_with(parts, sep).subrange(0, parts[0].len() as int) == parts[0],
        parts.len() > 0 ==> join_with(parts, sep).subrange(
            join_with(parts, sep).len() - parts.last().len(),
            join_with(parts, sep).len() as int,
        ) == parts.last(),
        parts.len() == 0 ==> join_with(parts, sep).len() == 0,
        parts.len() > 0 ==> join_with(parts, sep).len() >= parts[0].len(),
    decreases parts.len(),
{
    if parts.len() > 1 {
        let init = parts.drop_last();
        lemma_join_with(init, sep);
        let j = join_with(init, sep);
        assert(init[0] == parts[0]);
        assert((parts.len() - 1) * sep.len() == (init.len() - 1) * sep.len() + sep.len())
            by (nonlinear_arith)
            requires
                init.len() == parts.len() - 1,
        ;
        assert(join_with(parts, sep) == j + sep + parts.last());
        assert(total_len(parts) == total_len(init) + parts.last().len());
        assert(j.len() >= parts[0].len());
        assert((j + sep + parts.last()).subrange(0, parts[0].len() as int) =~= j.subrange(
            0,
            parts[0].len() as int,
        ));
        let all = j + sep + parts.last();
        assert(all.subrange(all.len() - parts.last().len(), all.len() as int) =~= parts.last());
    } else if parts.len() == 1 {
        assert(parts.drop_last().len() == 0);
        assert(total_len(parts.drop_last()) == 0);
        assert(total_len(parts) == parts[0].len());
        assert((parts.len() - 1) * sep.len() == 0);
        assert(parts[0].subrange(0, parts[0].len() as int) =~= parts[0]);
        assert(parts.last() == parts[0]);
    }
}

/// A component joined to a directory is the directory, possibly one `/`, and then the
/// component.
pub proof fn lemma_join_dir(dir: Seq<char>, name: Seq<char>)
    ensures
        join_dir(dir, name) == dir + name || join_dir(dir, name) == dir + seq!['/'] + name,
        dir.len() > 0 && dir.last() != '/' ==> join_dir(dir, name) == dir + seq!['/'] + name,
        dir.len() == 0 || dir.last() == '/' ==> join_dir(dir, name) == dir + name,
{
    reveal_strlit("/");
    if dir.len() == 0 {
        assert(dir + name =~= name);
    }
}

/// The reference list handed to the compiler: the paths separated by `;`.
pub fn join_references(references: &[&str]) -> (r: String)
    ensures
        r@ == join_with(references@.map_values(|s: &str| s@), ";"@),
{
    let ghost parts = references@.map_values(|s: &str| s@);
    let mut r = String::new();
    let mut i: usize = 0;
    proof {
        assert(r@ =~= join_with(parts.subrange(0, 0), ";"@));
    }
    while i < references.len()
        invariant
            i <= references@.len(),
            parts == references@.map_values(|s: &str| s@),
            r@ == join_with(parts.subrange(0, i as int), ";"@),
        decreases references@.len() - i,
    {
        proof {
            let next = parts.subrange(0, i as int + 1);
            assert(next.drop_last() =~= parts.subrange(0, i as int));
            assert(next.last() == references@[i as int]@);
        }
        if i > 0 {
            r.append(";");
        }
        r.append(references[i]);
        proof {
            if i == 0 {
                assert(r@ =~= join_with(parts.subrange(0, 1), ";"@));
            }
        }
        i = i + 1;
    }
    assert(parts.subrange(0, i as int) =~= parts);
    r
}

// ---------------------------------------------------------------------------
// The runtime config file
// ---------------------------------------------------------------------------
/// Where the runtime config file comes from.
pub enum RuntimeConfigSource {
    /// The `DotBridgeBootstrap.runtimeconfig.json` next to the bootstrap assembly.
    Existing,
    /// The path given in the configuration.
    Configured(String),
    /// A file generated for the installed runtime, with this target framework.
    Generated { tfm: String },
}

/// The target framework that a generated runtime config names.
pub open spec fn target_framework_of(config: DotBridgeConfig) -> Seq<char> {
    match config.target_framework {
        Some(t) => t@,
        None => "net8.0"@,
    }
}

/// Choose the runtime config: the path given in the configuration comes first; without
/// one, an existing file next to the bootstrap assembly is used, and otherwise one is
/// generated.
pub fn runtime_config_source(existing_is_file: bool, config: &DotBridgeConfig) -> (r: RuntimeConfigSource)
    ensures
        config.runtime_config_path is Some ==> (r matches RuntimeConfigSource::Configured(p)
            && p@ == config.runtime_config_path->0@),
        config.runtime_config_path is None && existing_is_file ==> r is Existing,
        config.runtime_config_path is None && !existing_is_file ==> (r matches RuntimeConfigSource::Generated { tfm }
            && tfm@ == target_framework_of(*config)),
{
    match &config.runtime_config_path {
        Some(p) => RuntimeConfigSource::Configured(p.clone()),
        None => {
            if existing_is_file {
                return RuntimeConfigSource::Existing;
            }
            let tfm = match &config.target_framework {
                Some(t) => t.clone(),
                None => "net8.0".to_owned(),
            };
            RuntimeConfigSource::Generated { tfm }
        },
    }
}

pub open spec fn config_head() -> Seq<char> {
    "{\n  \"runtimeOptions\": {\n    \"tfm\": \""@
}

pub open spec fn config_middle() -> Seq<char> {
    "\",\n    \"rollForward\": \"LatestMinor\",\n    \"framework\": {\n      \"name\": \"Microsoft.NETCore.App\",\n      \"version\": \""@
}

pub open spec fn config_tail() -> Seq<char> {
    "\"\n    },\n    \"configProperties\": {\n      \"System.Runtime.Serialization.EnableUnsafeBinaryFormatterSerialization\": false\n    }\n  }\n}"@
}

/// The text of a generated runtime config for target framework `tfm` and framework
/// version `version` (rolling forward to the latest minor version).
pub open spec fn runtime_config_text(tfm: Seq<char>, version: Seq<char>) -> Seq<char> {
    config_head() + tfm + config_middle() + version + config_tail()
}

/// The runtime config that is generated for `tfm` and `version`.
pub fn runtime_config_json(tfm: &str, version: &str) -> (r: String)
    ensures
        r@ == runtime_config_text(tfm@, version@),
{
    let mut r = "{\n  \"runtimeOptions\": {\n    \"tfm\": \"".to_owned();
    r.append(tfm);
    r.append(
        "\",\n    \"rollForward\": \"LatestMinor\",\n    \"framework\": {\n      \"name\": \"Microsoft.NETCore.App\",\n      \"version\": \"",
    );
    r.append(version);
    r.append(
        "\"\n    },\n    \"configProperties\": {\n      \"System.Runtime.Serialization.EnableUnsafeBinaryFormatterSerialization\": false\n    }\n  }\n}",
    );
    r
}

// ---------------------------------------------------------------------------
// Where the bootstrap assembly is looked for
// ---------------------------------------------------------------------------
/// `name` appended to the directory `dir` as a path component, with `/` between them
/// unless `dir` is empty or already ends with one.
pub open spec fn join_dir(dir: Seq<char>, name: Seq<char>) -> Seq<char> {
    if dir.len() == 0 {
        name
    } else if dir.last() == '/' {
        dir + name
    } else {
        dir + "/"@ + name
    }
}

/// The subdirectory, next to the executable or the working directory, that may hold
/// the bootstrap assembly.
pub open spec fn bootstrap_subdir() -> Seq<char> {
    "dotbridge-bootstrap"@
}

/// `dir`, when present.
pub open spec fn present(dir: Option<Seq<char>>) -> Seq<Seq<char>> {
    match dir {
        Some(d) => seq![d],
        None => seq![],
    }
}

/// The bootstrap subdirectory of `dir`, when present.
pub open spec fn present_subdir(dir: Option<Seq<char>>) -> Seq<Seq<char>> {
    match dir {
        Some(d) => seq![join_dir(d, bootstrap_subdir())],
        None => seq![],
    }
}

/// The directories that may hold the bootstrap assembly, in the order they are tried:
/// the configured directory, the `DOTBRIDGE_BOOTSTRAP_DIR` directory, the bootstrap
/// subdirectory next to the executable and in the executable's parent directory, the
/// executable's directory itself, and the bootstrap subdirectory of the working
/// directory. Each is present only when its source is.
pub open spec fn bootstrap_candidate_list(
    configured: Option<Seq<char>>,
    env_dir: Option<Seq<char>>,
    exe_dir: Option<Seq<char>>,
    exe_parent: Option<Seq<char>>,
    cwd: Option<Seq<char>>,
) -> Seq<Seq<char>> {
    present(configured) + present(env_dir) + present_subdir(exe_dir) + present_subdir(exe_parent)
        + present(exe_dir) + present_subdir(cwd)
}

/// `name` appended to `dir` as a path component.
pub fn join_dir_exec(dir: &str, name: &str) -> (r: String)
    ensures
        r@ == join_dir(dir@, name@),
{
    let n = dir.unicode_len();
    if n == 0 {
        return name.to_owned();
    }
    let mut r = dir.to_owned();
    if dir.get_char(n - 1) != '/' {
        r.append("/");
    }
    r.append(name);
    r
}

fn push_present(out: &mut Vec<String>, dir: Option<&str>)
    ensures
        final(out)@.map_values(|s: String| s@) == old(out)@.map_values(|s: String| s@) + present(
            opt_view(dir),
        ),
{
    let ghost before = out@;
    if let Some(d) = dir {
        out.push(d.to_owned());
    }
    assert(out@.map_values(|s: String| s@) =~= before.map_values(|s: String| s@) + present(
        opt_view(dir),
    ));
}

fn push_subdir(out: &mut Vec<String>, dir: Option<&str>)
    ensures
        final(out)@.map_values(|s: String| s@) == old(out)@.map_values(|s: String| s@)
            + present_subdir(opt_view(dir)),
{
    let ghost before = out@;
    if let Some(d) = dir {
        out.push(join_dir_exec(d, "dotbridge-bootstrap"));
    }
    assert(out@.map_values(|s: String| s@) =~= before.map_values(|s: String| s@)
        + present_subdir(opt_view(dir)));
}

/// The directories that may hold the bootstrap assembly, in the order they are tried.
/// `env_dir` is the value of `DOTBRIDGE_BOOTSTRAP_DIR`; `exe_dir` and `exe_parent`
/// are the executable's directory and its parent; `cwd` is the working directory.
pub fn bootstrap_candidates(
    configured: Option<&str>,
    env_dir: Option<&str>,
    exe_dir: Option<&str>,
    exe_parent: Option<&str>,
    cwd: Option<&str>,
) -> (r: Vec<String>)
    ensures
        r@.map_values(|s: String| s@) == bootstrap_candidate_list(
            opt_view(configured),
            opt_view(env_dir),
            opt_view(exe_dir),
            opt_view(exe_parent),
            opt_view(cwd),
        ),
{
    let mut out: Vec<String> = Vec::new();
    assert(out@.map_values(|s: String| s@) =~= Seq::<Seq<char>>::empty());
    push_present(&mut out, configured);
    push_present(&mut out, env_dir);
    push_subdir(&mut out, exe_dir);
    push_subdir(&mut out, exe_parent);
    push_present(&mut out, exe_dir);
    push_subdir(&mut out, cwd);
    assert(out@.map_values(|s: String| s@) =~= bootstrap_candidate_list(
        opt_view(configured),
        opt_view(env_dir),
        opt_view(exe_dir),
        opt_view(exe_parent),
        opt_view(cwd),
    ));
    out
}

/// The first candidate that holds the bootstrap assembly, given for each candidate
/// whether it does; `None` when none does.
pub fn first_present(has_dll: &Vec<bool>) -> (r: Option<usize>)
    ensures
        r is None <==> forall|j: int| 0 <= j < has_dll@.len() ==> !has_dll@[j],
        r matches Some(i) ==> i < has_dll@.len() && has_dll@[i as int] && forall|j: int|
            0 <= j < i ==> !has_dll@[j],
{
    let mut i: usize = 0;
    while i < has_dll.len()
        invariant
            i <= has_dll@.len(),
            forall|j: int| 0 <= j < i ==> !has_dll@[j],
        decreases has_dll@.len() - i,
    {
        if has_dll[i] {
            return Some(i);
        }
        i = i + 1;
    }
    None
}

// ---------------------------------------------------------------------------
// The bootstrap assembly and its entry points
// ---------------------------------------------------------------------------
/// The message when the bootstrap assembly is missing at `path`.
pub open spec fn msg_missing_bootstrap(path: Seq<char>) -> Seq<char> {
    "DotBridgeBootstrap.dll not found at '"@ + path
        + "'. Build it with: dotnet build crates/dotbridge/dotnet/DotBridgeBootstrap -c Release"@
}

/// The error when the bootstrap assembly is missing at `path`.
pub fn missing_bootstrap(path: &str) -> (e: DotBridgeError)
    ensures
        is_compilation_error(e, msg_missing_bootstrap(path@)),
{
    let mut m = "DotBridgeBootstrap.dll not found at '".to_owned();
    m.append(path);
    m.append("'. Build it with: dotnet build crates/dotbridge/dotnet/DotBridgeBootstrap -c Release");
    DotBridgeError::CompilationError(m)
}

/// What loading a function from an assembly returned, given the status and the error
/// bytes it sent (empty when none).
pub open spec fn get_func_outcome_holds(status: int, error: Seq<u8>, r: Result<(), DotBridgeError>) -> bool {
    if status < 0 {
        r matches Err(e) && is_exception(
            e,
            if error.len() > 0 {
                lossy_utf8_text(error)
            } else {
                status_text("GetFunc failed with status "@, status)
            },
            None,
        )
    } else {
        r is Ok
    }
}

/// Interpret the status of loading a function from an assembly: a negative status is
/// an exception carrying the message .NET sent (or the status).
pub fn get_func_outcome(status: i32, error: &[u8]) -> (r: Result<(), DotBridgeError>)
    ensures
        get_func_outcome_holds(status as int, error@, r),
        r matches Err(e) ==> (e matches DotBridgeError::DotNetException { message, .. }
            && message@.len() > 0),
{
    if status < 0 {
        let message = if error.len() > 0 {
            utf8_decode_lossy(error)
        } else {
            let mut m = "GetFunc failed with status ".to_owned();
            push_status_hex(&mut m, status);
            m
        };
        return Err(DotBridgeError::DotNetException { message, stack_trace: None });
    }
    Ok(())
}

} // verus!
