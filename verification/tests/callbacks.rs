use dotbridge::callback::{callback_response, deserialize_callback_payload, CallbackRegistry};
use dotbridge::error::DotBridgeError;
use dotbridge::marshal::ClrValue;
use std::sync::{Arc, Mutex};

type Callback = Box<dyn Fn(ClrValue) -> Result<ClrValue, DotBridgeError> + Send + Sync>;

fn registry() -> CallbackRegistry<Callback> {
    CallbackRegistry::new()
}

fn field<'a>(entries: &'a [(String, ClrValue)], key: &str) -> Option<&'a ClrValue> {
    entries.iter().find(|(k, _)| k == key).map(|(_, v)| v)
}

// =============================================================================
// Callback registry unit tests
// =============================================================================

#[test]
fn register_and_invoke_callback() {
    let mut reg = registry();
    let id = reg.register_callback(Box::new(|input| {
        Ok(ClrValue::String(format!("got: {:?}", input)))
    }));
    assert!(id > 0);

    let result = reg.invoke_callback(id, ClrValue::Int32(42)).unwrap();
    if let ClrValue::String(s) = result {
        assert!(s.contains("42"));
    } else {
        panic!("expected String, got {result:?}");
    }

    reg.unregister_callback(id);
}

#[test]
fn invoke_unregistered_callback_fails() {
    let reg = registry();
    let result = reg.invoke_callback(999_999, ClrValue::Null);
    assert!(result.is_err());
    match result.unwrap_err() {
        DotBridgeError::CallbackError(msg) => {
            assert!(msg.contains("not found"), "got: {msg}");
        }
        other => panic!("expected CallbackError, got {other:?}"),
    }
}

#[test]
fn register_multiple_callbacks() {
    let mut reg = registry();
    let id1 = reg.register_callback(Box::new(|_| Ok(ClrValue::String("cb1".into()))));
    let id2 = reg.register_callback(Box::new(|_| Ok(ClrValue::String("cb2".into()))));
    let id3 = reg.register_callback(Box::new(|_| Ok(ClrValue::String("cb3".into()))));

    assert_ne!(id1, id2);
    assert_ne!(id2, id3);

    assert_eq!(reg.invoke_callback(id1, ClrValue::Null).unwrap(), ClrValue::String("cb1".into()));
    assert_eq!(reg.invoke_callback(id2, ClrValue::Null).unwrap(), ClrValue::String("cb2".into()));
    assert_eq!(reg.invoke_callback(id3, ClrValue::Null).unwrap(), ClrValue::String("cb3".into()));

    reg.unregister_callback(id1);
    reg.unregister_callback(id2);
    reg.unregister_callback(id3);
}

#[test]
fn unregister_callback_makes_it_unavailable() {
    let mut reg = registry();
    let id = reg.register_callback(Box::new(|_| Ok(ClrValue::Null)));
    assert!(reg.invoke_callback(id, ClrValue::Null).is_ok());

    reg.unregister_callback(id);
    assert!(reg.invoke_callback(id, ClrValue::Null).is_err());
}

#[test]
fn callback_can_return_error() {
    let mut reg = registry();
    let id = reg.register_callback(Box::new(|_| {
        Err(DotBridgeError::CallbackError("intentional error".into()))
    }));

    let result = reg.invoke_callback(id, ClrValue::Null);
    assert!(result.is_err());
    let msg = result.unwrap_err().to_string();
    assert!(msg.contains("intentional error"));

    reg.unregister_callback(id);
}

#[test]
fn callback_receives_correct_input() {
    let received = Arc::new(Mutex::new(None));
    let received_clone = received.clone();

    let mut reg = registry();
    let id = reg.register_callback(Box::new(move |input: ClrValue| {
        *received_clone.lock().unwrap() = Some(input.clone());
        Ok(ClrValue::Null)
    }));

    reg.invoke_callback(id, ClrValue::String("test input".into())).unwrap();

    let captured = received.lock().unwrap().take().unwrap();
    assert_eq!(captured, ClrValue::String("test input".into()));

    reg.unregister_callback(id);
}

// =============================================================================
// Callback with complex data
// =============================================================================

#[test]
fn callback_with_complex_input() {
    let mut reg = registry();
    let id = reg.register_callback(Box::new(|input| {
        if let ClrValue::Object(map) = input {
            let name = match field(&map, "name") {
                Some(ClrValue::String(s)) => s.clone(),
                _ => "unknown".to_string(),
            };
            Ok(ClrValue::String(format!("Hello, {}!", name)))
        } else {
            Ok(ClrValue::String("not an object".into()))
        }
    }));

    let map = vec![("name".to_string(), ClrValue::String("World".into()))];

    let result = reg.invoke_callback(id, ClrValue::Object(map)).unwrap();
    assert_eq!(result, ClrValue::String("Hello, World!".into()));

    reg.unregister_callback(id);
}

#[test]
fn callback_returns_complex_data() {
    let mut reg = registry();
    let id = reg.register_callback(Box::new(|_| {
        let map = vec![
            ("status".to_string(), ClrValue::String("ok".into())),
            ("code".to_string(), ClrValue::Int32(200)),
        ];
        Ok(ClrValue::Object(map))
    }));

    let result = reg.invoke_callback(id, ClrValue::Null).unwrap();
    if let ClrValue::Object(map) = result {
        assert_eq!(field(&map, "status"), Some(&ClrValue::String("ok".into())));
        assert_eq!(field(&map, "code"), Some(&ClrValue::Int32(200)));
    } else {
        panic!("expected Object");
    }

    reg.unregister_callback(id);
}

#[test]
fn stress_register_many_callbacks() {
    let mut reg = registry();
    let mut ids = Vec::new();
    for i in 0..100 {
        let id = reg.register_callback(Box::new(move |_| Ok(ClrValue::Int32(i))));
        ids.push((i, id));
    }

    for (expected, id) in &ids {
        let result = reg.invoke_callback(*id, ClrValue::Null).unwrap();
        assert_eq!(result, ClrValue::Int32(*expected));
    }

    for (_, id) in &ids {
        reg.unregister_callback(*id);
    }

    // All should be gone
    for (_, id) in &ids {
        assert!(reg.invoke_callback(*id, ClrValue::Null).is_err());
    }
}

// =============================================================================
// Registry behaviour and the payload format
// =============================================================================

#[test]
fn registry_ids_start_at_one_and_increase() {
    let mut reg = registry();
    assert_eq!(reg.register_callback(Box::new(|_| Ok(ClrValue::Null))), 1);
    assert_eq!(reg.register_callback(Box::new(|_| Ok(ClrValue::Null))), 2);
    reg.unregister_callback(1);
    assert!(!reg.contains(1));
    assert!(reg.contains(2));
    assert_eq!(reg.register_callback(Box::new(|_| Ok(ClrValue::Null))), 3);
}

#[test]
fn unregistered_message_names_the_id() {
    let reg = registry();
    match reg.invoke_callback(7, ClrValue::Null) {
        Err(e) => assert_eq!(e.to_string(), "callback error: callback 7 not found"),
        Ok(v) => panic!("expected an error, got {v:?}"),
    }
}

#[test]
fn payload_with_id_and_value() {
    let mut data = 0x0102_0304_0506_0708u64.to_le_bytes().to_vec();
    data.extend_from_slice(&ClrValue::Int32(5).serialize());
    let (id, value) = deserialize_callback_payload(&data).unwrap();
    assert_eq!(id, 0x0102_0304_0506_0708);
    assert_eq!(value, ClrValue::Int32(5));
}

#[test]
fn payload_too_short() {
    match deserialize_callback_payload(&[1, 2, 3]) {
        Err(DotBridgeError::MarshalError(m)) => assert_eq!(m, "callback payload too short"),
        other => panic!("expected MarshalError, got {other:?}"),
    }
}

#[test]
fn payload_with_bad_value_reports_marshal_error() {
    let mut data = 1u64.to_le_bytes().to_vec();
    data.extend_from_slice(&99i32.to_le_bytes());
    match deserialize_callback_payload(&data) {
        Err(DotBridgeError::MarshalError(m)) => assert_eq!(m, "unknown type tag: 99"),
        other => panic!("expected MarshalError, got {other:?}"),
    }
}

#[test]
fn response_of_value_and_of_error() {
    let ok: Result<ClrValue, DotBridgeError> = Ok(ClrValue::Int32(3));
    assert_eq!(callback_response(&ok), ClrValue::Int32(3).serialize());
    let err: Result<ClrValue, DotBridgeError> =
        Err(DotBridgeError::CallbackError("boom".into()));
    assert_eq!(
        callback_response(&err),
        ClrValue::String("callback error: boom".into()).serialize()
    );
}
