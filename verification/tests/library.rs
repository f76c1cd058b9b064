use dotbridge::binary64::{b32_of_b64, b64_of_b32, b64_of_i64, b64_to_i32, b64_to_i64, b64_to_u32};
use dotbridge::compiler::{compile_outcome, compiler_unavailable};
use dotbridge::convert::{single_from_clr_value, FromClrValue};
use dotbridge::error::{DotBridgeError, SysError};
use dotbridge::hostfxr::{
    check_status, from_wide_string, from_wide_string_utf16, hostfxr_lib_name, hostfxr_search_roots, latest_version, missing_symbol,
    platform_dotnet_paths, to_wide_string, to_wide_string_utf16, HostFxrDelegateType, TargetOs,
};
use dotbridge::invoke::{extract_error_from_object, invoke_outcome, parse_structured_error};
use dotbridge::listing::{base_paths_from_info, runtime_version_from_listing};
use dotbridge::marshal::{read_i32, CallbackHandle, ClrTypeTag, ClrValue};
use dotbridge::runtime::{
    bootstrap_candidates, first_present, get_func_outcome, join_dir_exec, join_references,
    missing_bootstrap, runtime_config_json, runtime_config_source, DotBridgeConfig,
    RuntimeConfigSource,
};
use dotbridge::text::chars_of;

// ---------------------------------------------------------------------------
// Numbers: the integer-level conversions agree with Rust's `as`
// ---------------------------------------------------------------------------

fn sample_doubles() -> Vec<f64> {
    vec![
        0.0, -0.0, 0.5, -0.5, 0.999, 1.0, -1.0, 1.5, -1.5, 42.0, 42.9, -42.9, 3.14,
        2147483647.0, 2147483647.9, 2147483648.0, -2147483648.0, -2147483649.0, 4294967295.0,
        4294967296.0, 1e18, 9.2233720368547758e18, -9.2233720368547758e18, 1e300, -1e300,
        f64::MIN_POSITIVE, 5e-324, f64::MAX, f64::MIN, f64::INFINITY, f64::NEG_INFINITY, f64::NAN,
        -f64::NAN,
    ]
}

#[test]
fn b64_to_integers_match_as_casts() {
    for x in sample_doubles() {
        assert_eq!(b64_to_i64(x.to_bits()), x as i64, "i64 of {x}");
        assert_eq!(b64_to_i32(x.to_bits()), x as i32, "i32 of {x}");
        assert_eq!(b64_to_u32(x.to_bits()), x as u32, "u32 of {x}");
    }
}

#[test]
fn b64_of_i64_matches_as_cast() {
    let samples: Vec<i64> = vec![
        0, 1, -1, 42, -42, 1 << 52, (1 << 53) - 1, 1 << 53, (1 << 53) + 1, (1 << 53) + 3,
        (1 << 54) + 2, (1 << 54) + 6, i64::MAX, i64::MIN, i64::MIN + 1, 1609459200000,
        -1609459200000, 0x7fff_ffff_ffff_fdff, 0x7fff_ffff_ffff_fe00, 123_456_789_012_345_678,
    ];
    for n in samples {
        assert_eq!(b64_of_i64(n), (n as f64).to_bits(), "bits of {n}");
    }
}

#[test]
fn b64_of_b32_matches_widening() {
    let samples: Vec<f32> = vec![
        0.0, -0.0, 1.0, -1.5, 2.71, 3.4028235e38, -3.4028235e38, 1.1754944e-38, 1e-45, 1.4e-44,
        f32::INFINITY, f32::NEG_INFINITY,
    ];
    for x in samples {
        assert_eq!(b64_of_b32(x.to_bits()), (x as f64).to_bits(), "widening of {x}");
    }
    let nan = b64_of_b32(f32::NAN.to_bits());
    assert!(f64::from_bits(nan).is_nan());
}

#[test]
fn b32_of_b64_matches_narrowing() {
    let mut samples = sample_doubles();
    samples.extend_from_slice(&[
        2.71, 1.0 + f64::EPSILON, 3.4028235e38, 3.4028236e38, 3.40282357e38, 3.4028235677973366e38,
        1e39, -1e39, 1.1754943508222875e-38, 1.1754942e-38, 1.401298464324817e-45,
        7.006492321624085e-46, 7.006492321624087e-46, 2.1019476964872256e-45, 1e-50, -1e-50,
        16777217.0, 16777219.0, 0.1, -0.3, 123456.789, 6.103515625e-5,
    ]);
    for x in samples {
        if x.is_nan() {
            assert!(f32::from_bits(b32_of_b64(x.to_bits())).is_nan());
        } else {
            assert_eq!(b32_of_b64(x.to_bits()), (x as f32).to_bits(), "narrowing of {x:e}");
        }
    }
}

#[test]
fn datetime_beyond_two_to_the_53_rounds_through_binary64() {
    // 2^53 + 1 is not a binary64 value: it comes back as 2^53.
    let v = ClrValue::DateTime((1 << 53) + 1);
    let (back, _) = ClrValue::deserialize(&v.serialize()).unwrap();
    assert_eq!(back, ClrValue::DateTime(1 << 53));
    // the largest i64 saturates back to itself
    let v = ClrValue::DateTime(i64::MAX);
    let (back, _) = ClrValue::deserialize(&v.serialize()).unwrap();
    assert_eq!(back, ClrValue::DateTime(i64::MAX));
}

#[test]
fn values_read_back_cross_the_wire_again_unchanged() {
    let values = vec![
        ClrValue::Int64(123_456_789_012_345_678),
        ClrValue::DateTime((1 << 53) + 1),
        ClrValue::DateTime(i64::MAX),
        ClrValue::Float(2.71f32.to_bits()),
        ClrValue::Guid("g".into()),
        ClrValue::Array(vec![ClrValue::Decimal("1.5".into()), ClrValue::Int64(-3)]),
        ClrValue::Object(vec![("k".to_string(), ClrValue::DateTime(-(1 << 60) - 1))]),
    ];
    for v in values {
        let (once, _) = ClrValue::deserialize(&v.serialize()).unwrap();
        let bytes = once.serialize();
        let (twice, n) = ClrValue::deserialize(&bytes).unwrap();
        assert_eq!(twice, once);
        assert_eq!(n, bytes.len());
    }
}

#[test]
fn int64_comes_back_as_double_and_converts_to_i64() {
    let v = ClrValue::Int64(-1609459200000);
    let (back, n) = ClrValue::deserialize(&v.serialize()).unwrap();
    assert_eq!(n, 12);
    assert_eq!(back, ClrValue::Double((-1609459200000f64).to_bits()));
    assert_eq!(i64::from_clr_value(&back).unwrap(), -1609459200000);
}

#[test]
fn float_survives_the_wire_as_single_precision() {
    for x in [2.71f32, -0.0, 1e-45, 3.4028235e38, f32::INFINITY, 0.1] {
        let v = ClrValue::Float(x.to_bits());
        let (back, _) = ClrValue::deserialize(&v.serialize()).unwrap();
        assert!(matches!(back, ClrValue::Double(_)));
        assert_eq!(single_from_clr_value(&back).unwrap(), x.to_bits());
    }
    let nan = f32::from_bits(0x7f80_0001);
    let (back, _) = ClrValue::deserialize(&ClrValue::Float(nan.to_bits()).serialize()).unwrap();
    assert_eq!(single_from_clr_value(&back).unwrap(), 0x7fc0_0001);
}

#[test]
fn i32_from_int64_wraps_and_u32_from_negative_i32_wraps() {
    assert_eq!(i32::from_clr_value(&ClrValue::Int64(0x1_0000_0005)).unwrap(), 5);
    assert_eq!(i32::from_clr_value(&ClrValue::Int64(-1)).unwrap(), -1);
    assert_eq!(u32::from_clr_value(&ClrValue::Int32(-1)).unwrap(), u32::MAX);
    assert_eq!(i32::from_clr_value(&ClrValue::Double(1e12f64.to_bits())).unwrap(), i32::MAX);
}

#[test]
fn mismatch_message_names_both_kinds() {
    match i32::from_clr_value(&ClrValue::String("nope".into())) {
        Err(DotBridgeError::MarshalError(m)) => assert_eq!(m, "expected Int32, got String"),
        other => panic!("unexpected {other:?}"),
    }
}

#[test]
fn read_i32_little_endian_and_short() {
    assert_eq!(read_i32(&[0xff, 0xff, 0xff, 0xff]).unwrap(), -1);
    assert_eq!(read_i32(&[1, 0, 0, 0, 9]).unwrap(), 1);
    match read_i32(&[1, 2, 3]) {
        Err(DotBridgeError::MarshalError(m)) => assert_eq!(m, "buffer too short for i32"),
        other => panic!("unexpected {other:?}"),
    }
}

#[test]
fn type_tag_codes() {
    assert_eq!(ClrTypeTag::Function.code(), 1);
    assert_eq!(ClrTypeTag::Exception.code(), 13);
    assert!(ClrTypeTag::from_code(14).is_none());
    assert!(matches!(ClrTypeTag::from_code(6), Some(ClrTypeTag::String)));
}

#[test]
fn deserialize_rejects_buffer_length_past_end() {
    let mut data = ClrTypeTag::Buffer.code().to_le_bytes().to_vec();
    data.extend_from_slice(&10i32.to_le_bytes());
    data.extend_from_slice(&[1, 2]);
    assert!(ClrValue::try_deserialize(&data).is_none());
}

#[test]
fn duplicate_keys_keep_the_last_value() {
    let v = ClrValue::Object(vec![
        ("a".to_string(), ClrValue::Int32(1)),
        ("a".to_string(), ClrValue::Int32(2)),
    ]);
    let (back, _) = ClrValue::deserialize(&v.serialize()).unwrap();
    assert_eq!(back, ClrValue::Object(vec![("a".to_string(), ClrValue::Int32(2))]));
}

// ---------------------------------------------------------------------------
// Errors and outcomes of calls into .NET
// ---------------------------------------------------------------------------

#[test]
fn error_display_texts() {
    assert_eq!(
        DotBridgeError::Runtime(SysError::HostFxrError(-2147450740)).to_string(),
        "runtime error: hostfxr call failed with status code: 0x8000808C"
    );
    assert_eq!(
        SysError::SymbolNotFound { name: "x".into() }.to_string(),
        "hostfxr function 'x' not found"
    );
    assert_eq!(
        SysError::HostFxrNotFound { searched_paths: vec!["/a".into(), "b\"c".into()] }.to_string(),
        "hostfxr not found. Is .NET installed? Searched: [\"/a\", \"b\\\"c\"]"
    );
    assert_eq!(DotBridgeError::NotInitialized.to_string(), "runtime not initialized");
    assert_eq!(DotBridgeError::TaskCancelled.to_string(), "async task was cancelled");
    assert_eq!(DotBridgeError::Io("disk".into()).to_string(), "io error: disk");
    assert_eq!(DotBridgeError::InvalidArgument("x".into()).to_string(), "invalid argument: x");
    assert_eq!(DotBridgeError::TaskFaulted("x".into()).to_string(), "async task faulted: x");
}

#[test]
fn invoke_outcome_cases() {
    match invoke_outcome(-1, &[]) {
        Some(Err(DotBridgeError::DotNetException { message, stack_trace })) => {
            assert_eq!(message, "invocation failed with status 0xFFFFFFFF");
            assert!(stack_trace.is_none());
        }
        other => panic!("unexpected {other:?}"),
    }
    assert_eq!(invoke_outcome(0, &[]).unwrap().unwrap(), ClrValue::Null);
    let bytes = ClrValue::Int32(9).serialize();
    assert_eq!(invoke_outcome(0, &bytes).unwrap().unwrap(), ClrValue::Int32(9));
    match invoke_outcome(-5, b"plain text") {
        Some(Err(DotBridgeError::DotNetException { message, .. })) => {
            assert_eq!(message, "plain text")
        }
        other => panic!("unexpected {other:?}"),
    }
}

#[test]
fn malformed_exception_bytes_fall_back_to_their_text() {
    // a Buffer tag with a length of 100 and no bytes: slicing would run past the end
    let mut data = ClrTypeTag::Buffer.code().to_le_bytes().to_vec();
    data.extend_from_slice(&100i32.to_le_bytes());
    assert!(ClrValue::try_deserialize(&data).is_none());
    match parse_structured_error(&data) {
        DotBridgeError::DotNetException { message, stack_trace } => {
            assert_eq!(message, String::from_utf8_lossy(&data));
            assert!(stack_trace.is_none());
        }
        other => panic!("unexpected {other:?}"),
    }
    assert!(matches!(
        invoke_outcome(-1, &data),
        Some(Err(DotBridgeError::DotNetException { .. }))
    ));
}

#[test]
fn structured_exception_fields() {
    let obj = vec![
        ("Message".to_string(), ClrValue::String("bad".into())),
        ("StackTrace".to_string(), ClrValue::String("at X".into())),
        ("Name".to_string(), ClrValue::String("System.Exception".into())),
    ];
    match extract_error_from_object(&obj) {
        DotBridgeError::DotNetException { message, stack_trace } => {
            assert_eq!(message, "System.Exception: bad");
            assert_eq!(stack_trace.as_deref(), Some("at X"));
        }
        other => panic!("unexpected {other:?}"),
    }
    let empty: Vec<(String, ClrValue)> = vec![("StackTrace".to_string(), ClrValue::String(String::new()))];
    match extract_error_from_object(&empty) {
        DotBridgeError::DotNetException { message, stack_trace } => {
            assert_eq!(message, "unknown .NET exception");
            assert!(stack_trace.is_none());
        }
        other => panic!("unexpected {other:?}"),
    }
    let data = ClrValue::Object(obj).serialize();
    match parse_structured_error(&data) {
        DotBridgeError::DotNetException { message, .. } => assert_eq!(message, "System.Exception: bad"),
        other => panic!("unexpected {other:?}"),
    }
}

#[test]
fn compile_outcome_cases() {
    assert!(compile_outcome(0, &[], false).is_ok());
    match compile_outcome(0, &[], true) {
        Err(DotBridgeError::CompilationError(m)) => {
            assert_eq!(m, "compilation succeeded but returned null function pointer")
        }
        other => panic!("unexpected {other:?}"),
    }
    match compile_outcome(-2, &[], false) {
        Err(DotBridgeError::CompilationError(m)) => {
            assert_eq!(m, "compilation failed with status 0xFFFFFFFE")
        }
        other => panic!("unexpected {other:?}"),
    }
    match compile_outcome(-2, b"CS1002: ; expected", false) {
        Err(DotBridgeError::CompilationError(m)) => assert_eq!(m, "CS1002: ; expected"),
        other => panic!("unexpected {other:?}"),
    }
    match compiler_unavailable() {
        DotBridgeError::CompilationError(m) => assert!(m.starts_with("C# compiler not available.")),
        other => panic!("unexpected {other:?}"),
    }
}

#[test]
fn get_func_outcome_cases() {
    assert!(get_func_outcome(0, &[]).is_ok());
    match get_func_outcome(-2146233054, &[]) {
        Err(DotBridgeError::DotNetException { message, stack_trace }) => {
            assert_eq!(message, "GetFunc failed with status 0x80131522");
            assert!(stack_trace.is_none());
        }
        other => panic!("unexpected {other:?}"),
    }
    match get_func_outcome(-1, b"type not found") {
        Err(DotBridgeError::DotNetException { message, .. }) => assert_eq!(message, "type not found"),
        other => panic!("unexpected {other:?}"),
    }
}

// ---------------------------------------------------------------------------
// Runtime configuration
// ---------------------------------------------------------------------------

#[test]
fn config_defaults_and_sources() {
    let mut config = DotBridgeConfig::with_debug(true);
    assert!(config.debug);
    assert!(config.runtime_config_path.is_none());
    assert!(config.assembly_search_paths.is_empty());
    assert!(matches!(runtime_config_source(true, &config), RuntimeConfigSource::Existing));
    match runtime_config_source(false, &config) {
        RuntimeConfigSource::Generated { tfm } => assert_eq!(tfm, "net8.0"),
        _ => panic!("expected a generated config"),
    }
    config.target_framework = Some("net9.0".into());
    match runtime_config_source(false, &config) {
        RuntimeConfigSource::Generated { tfm } => assert_eq!(tfm, "net9.0"),
        _ => panic!("expected a generated config"),
    }
    config.runtime_config_path = Some("/x.json".into());
    for existing in [false, true] {
        match runtime_config_source(existing, &config) {
            RuntimeConfigSource::Configured(p) => assert_eq!(p, "/x.json"),
            _ => panic!("expected the configured path"),
        }
    }
}

#[test]
fn runtime_config_text() {
    let expected = format!(
        r#"{{
  "runtimeOptions": {{
    "tfm": "{tfm}",
    "rollForward": "LatestMinor",
    "framework": {{
      "name": "Microsoft.NETCore.App",
      "version": "{version}"
    }},
    "configProperties": {{
      "System.Runtime.Serialization.EnableUnsafeBinaryFormatterSerialization": false
    }}
  }}
}}"#,
        tfm = "net8.0",
        version = "8.0.11"
    );
    assert_eq!(runtime_config_json("net8.0", "8.0.11"), expected);
}

#[test]
fn references_are_joined_with_semicolons() {
    assert_eq!(join_references(&[]), "");
    assert_eq!(join_references(&["a.dll"]), "a.dll");
    assert_eq!(join_references(&["a.dll", "b.dll", "c.dll"]), "a.dll;b.dll;c.dll");
}

#[test]
fn missing_bootstrap_message() {
    match missing_bootstrap("/tmp/x/DotBridgeBootstrap.dll") {
        DotBridgeError::CompilationError(m) => assert_eq!(
            m,
            "DotBridgeBootstrap.dll not found at '/tmp/x/DotBridgeBootstrap.dll'. Build it with: dotnet build crates/dotbridge/dotnet/DotBridgeBootstrap -c Release"
        ),
        other => panic!("unexpected {other:?}"),
    }
}

#[test]
fn listed_runtime_version_is_the_last_netcore_line() {
    let listing = "Microsoft.AspNetCore.App 8.0.1 [/usr/share/dotnet/shared/Microsoft.AspNetCore.App]\r\n\
                   Microsoft.NETCore.App 6.0.25 [/usr/share/dotnet/shared/Microsoft.NETCore.App]\n\
                   Microsoft.NETCore.App 8.0.11 [/usr/share/dotnet/shared/Microsoft.NETCore.App]\n";
    assert_eq!(runtime_version_from_listing(listing), "8.0.11");
    assert_eq!(runtime_version_from_listing(""), "8.0.0");
    assert_eq!(runtime_version_from_listing("Microsoft.NETCore.App \n"), "8.0.0");
    assert_eq!(runtime_version_from_listing("Microsoft.NETCore.App   7.0.1\tx"), "7.0.1");
}

#[test]
fn base_paths_of_dotnet_info() {
    let info = ".NET SDK:\n Version:   8.0.100\n Base Path:   /usr/share/dotnet/sdk/8.0.100/  \n\nHost:\n  Base Path: C:\\dotnet\\sdk\\9.0.1\\\r\n";
    assert_eq!(
        base_paths_from_info(info),
        vec!["/usr/share/dotnet/sdk/8.0.100/".to_string(), "C:\\dotnet\\sdk\\9.0.1\\".to_string()]
    );
    assert!(base_paths_from_info("nothing here").is_empty());
}

// ---------------------------------------------------------------------------
// The hosting library
// ---------------------------------------------------------------------------

#[test]
fn delegate_type_codes() {
    assert_eq!(HostFxrDelegateType::ComActivation.code(), 0);
    assert_eq!(HostFxrDelegateType::LoadAssemblyAndGetFunctionPointer.code(), 5);
    assert_eq!(HostFxrDelegateType::GetFunctionPointer.code(), 6);
    assert_eq!(HostFxrDelegateType::LoadAssemblyBytes.code(), 8);
}

#[test]
fn status_codes() {
    assert!(check_status(0).is_ok());
    assert!(check_status(1).is_ok());
    assert!(check_status(2).is_ok());
    assert!(matches!(check_status(-1), Err(SysError::HostFxrError(-1))));
    assert!(matches!(missing_symbol("f"), SysError::SymbolNotFound { name } if name == "f"));
}

#[test]
fn library_names_and_install_dirs() {
    assert_eq!(hostfxr_lib_name(TargetOs::Windows), "hostfxr.dll");
    assert_eq!(hostfxr_lib_name(TargetOs::MacOs), "libhostfxr.dylib");
    assert_eq!(hostfxr_lib_name(TargetOs::Linux), "libhostfxr.so");
    assert_eq!(
        platform_dotnet_paths(TargetOs::Linux, None, None, Some("/home/u")),
        vec!["/usr/share/dotnet", "/usr/lib/dotnet", "/snap/dotnet-sdk/current", "/home/u/.dotnet"]
    );
    assert_eq!(platform_dotnet_paths(TargetOs::Linux, None, None, None).len(), 3);
    assert_eq!(
        platform_dotnet_paths(TargetOs::Windows, Some("C:\\Program Files"), None, Some("x")),
        vec!["C:\\Program Files\\dotnet"]
    );
    assert_eq!(
        platform_dotnet_paths(TargetOs::MacOs, None, None, None),
        vec!["/usr/local/share/dotnet", "/opt/homebrew/share/dotnet"]
    );
}

#[test]
fn newest_version_directory() {
    let names: Vec<Vec<u8>> = vec![b"6.0.25".to_vec(), b"8.0.11".to_vec(), b"8.0.2".to_vec()];
    assert_eq!(latest_version(&names), Some(2));
    assert_eq!(latest_version(&Vec::new()), None);
    let names: Vec<Vec<u8>> = vec![b"9.0.0".to_vec(), b"10.0.0".to_vec()];
    assert_eq!(latest_version(&names), Some(0));
}

#[test]
fn wide_strings() {
    assert_eq!(to_wide_string("ab"), vec![b'a', b'b', 0]);
    assert_eq!(to_wide_string("é"), vec![0xc3, 0xa9, 0]);
    let s = "a€😀";
    let mut expected: Vec<u16> = s.encode_utf16().collect();
    expected.push(0);
    assert_eq!(to_wide_string_utf16(s), expected);
    assert_eq!(from_wide_string(None), "");
    assert_eq!(from_wide_string(Some(b"abc\0def")), "abc");
    assert_eq!(from_wide_string(Some(b"abc")), "abc");
    assert_eq!(from_wide_string(Some(&[0x61, 0xff, 0])), "a\u{fffd}");
    for text in ["", "dotnet", "/usr/share/dötnet/ü", "日本語"] {
        assert_eq!(from_wide_string(Some(&to_wide_string(text))), text);
        assert_eq!(from_wide_string_utf16(Some(&to_wide_string_utf16(text))), text);
    }
    assert_eq!(from_wide_string_utf16(None), "");
    assert_eq!(from_wide_string_utf16(Some(&[0x61, 0xd800, 0x62, 0, 0x63])), "a\u{fffd}b");
}

#[test]
fn handles_are_equal_by_id() {
    assert_eq!(CallbackHandle::new(7), CallbackHandle::new(7));
    assert_ne!(CallbackHandle::new(7), CallbackHandle::new(8));
    assert_eq!(CallbackHandle::new(CallbackHandle::new(9).id()), CallbackHandle::new(9));
}

#[test]
fn chars_of_a_string() {
    assert_eq!(chars_of("héllo"), vec!['h', 'é', 'l', 'l', 'o']);
}

#[test]
fn bootstrap_directories_in_search_order() {
    assert_eq!(
        bootstrap_candidates(Some("/cfg"), Some("/env"), Some("/opt/app/bin"), Some("/opt/app"), Some("/work/")),
        vec![
            "/cfg",
            "/env",
            "/opt/app/bin/dotbridge-bootstrap",
            "/opt/app/dotbridge-bootstrap",
            "/opt/app/bin",
            "/work/dotbridge-bootstrap",
        ]
    );
    assert_eq!(
        bootstrap_candidates(None, None, Some("/bin"), Some("/"), None),
        vec!["/bin/dotbridge-bootstrap", "/dotbridge-bootstrap", "/bin"]
    );
    assert!(bootstrap_candidates(None, None, None, None, None).is_empty());
    assert_eq!(join_dir_exec("", "x"), "x");
    assert_eq!(first_present(&vec![false, true, true]), Some(1));
    assert_eq!(first_present(&vec![false, false]), None);
    assert_eq!(first_present(&Vec::new()), None);
}

#[test]
fn hostfxr_roots_in_search_order() {
    assert_eq!(
        hostfxr_search_roots(Some("/dn"), TargetOs::Linux, None, None, None),
        vec!["/dn", "/usr/share/dotnet", "/usr/lib/dotnet", "/snap/dotnet-sdk/current"]
    );
    assert_eq!(
        hostfxr_search_roots(None, TargetOs::MacOs, None, None, Some("/h")),
        vec!["/usr/local/share/dotnet", "/opt/homebrew/share/dotnet"]
    );
}
