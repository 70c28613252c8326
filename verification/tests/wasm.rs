// The WASM host: the result ABI, the resource limits and guest result reading.
use kapi::wasm::heap::{bump_alloc, heap_region_ok, GUEST_HEAP_SIZE};
use kapi::json::Json;
use kapi::wasm::abi::{pack_result, unpack_result};
use kapi::wasm::guest::{
    check_alloc_ptr, check_exports, check_imports, check_request_len, guest_outcome, host_envelope, host_payload,
    host_result_fits, interpret_envelope, trap_message, valid_region, TrapKind,
};
use kapi::wasm::limits::{InvokeLimits, MemLimiter, MAX_MEMORY_BYTES};

fn to_json(v: &serde_json::Value) -> Json {
    match v {
        serde_json::Value::Null => Json::Null,
        serde_json::Value::Bool(b) => Json::Bool(*b),
        serde_json::Value::Number(n) => Json::Number(n.to_string()),
        serde_json::Value::String(s) => Json::Str(s.clone()),
        serde_json::Value::Array(a) => Json::Array(a.iter().map(to_json).collect()),
        serde_json::Value::Object(m) => {
            Json::Object(m.iter().map(|(k, v)| (k.clone(), to_json(v))).collect())
        }
    }
}

fn from_json(j: &Json) -> serde_json::Value {
    match j {
        Json::Null => serde_json::Value::Null,
        Json::Bool(b) => serde_json::Value::Bool(*b),
        Json::Number(n) => serde_json::from_str(n).unwrap(),
        Json::Str(s) => serde_json::Value::String(s.clone()),
        Json::Array(a) => serde_json::Value::Array(a.iter().map(from_json).collect()),
        Json::Object(m) => {
            serde_json::Value::Object(m.iter().map(|(k, v)| (k.clone(), from_json(v))).collect())
        }
    }
}

fn parse(text: &str) -> Json {
    to_json(&serde_json::from_str(text).unwrap())
}

fn value(text: &str) -> serde_json::Value {
    serde_json::from_str(text).unwrap()
}

fn check_pack_unpack() {
    assert_eq!(unpack_result(pack_result(0x1234_5678, 0x9ABC)), (0x1234_5678, 0x9ABC));
    assert_eq!(unpack_result(pack_result(0, 0)), (0, 0));
    assert_eq!(unpack_result(pack_result(u32::MAX, u32::MAX)), (u32::MAX, u32::MAX));
    assert_eq!(pack_result(0x1234, 0x5678), (0x1234i64) << 32 | 0x5678);
}

#[test]
fn wasm_runtime_pack_unpack_roundtrip_and_bounds() {
    check_pack_unpack();
}

#[test]
fn wasm_abi_pack_unpack_roundtrip_and_bounds() {
    check_pack_unpack();
}

#[test]
fn unpack_splits_any_result() {
    assert_eq!(unpack_result(-1), (u32::MAX, u32::MAX));
    assert_eq!(unpack_result(0x0000_0001_0000_0002), (1, 2));
    assert_eq!(pack_result(1, 2), 0x0000_0001_0000_0002);
}

#[test]
fn default_invoke_limits() {
    let l = InvokeLimits::default();
    assert_eq!(l.fuel, 1_000_000_000);
    assert_eq!(l.deadline_ticks, 50);
}

#[test]
fn memory_growth_is_charged_against_the_budget() {
    let mut m = MemLimiter::new(MAX_MEMORY_BYTES);
    assert_eq!(m.memory_growing(0, 65536).unwrap(), true);
    assert_eq!(m.remaining, (MAX_MEMORY_BYTES - 65536) as i64);
    assert_eq!(
        m.memory_growing(65536, MAX_MEMORY_BYTES + 1).unwrap_err(),
        "WasmError: memory limit exceeded (64 MiB)"
    );
    assert_eq!(m.remaining, (MAX_MEMORY_BYTES - 65536) as i64);
    assert_eq!(m.memory_growing(65536, MAX_MEMORY_BYTES).unwrap(), true);
    assert_eq!(m.remaining, 0);
    assert!(m.table_growing(0, 1_000_000));
}

#[test]
fn import_whitelist() {
    let ok = vec![
        ("wasi_snapshot_preview1".to_string(), "fd_write".to_string()),
        ("kapi".to_string(), "host_call".to_string()),
    ];
    assert!(check_imports(&ok).is_ok());
    let bad = vec![
        ("kapi".to_string(), "host_call".to_string()),
        ("env".to_string(), "abort".to_string()),
        ("other".to_string(), "x".to_string()),
    ];
    assert_eq!(check_imports(&bad).unwrap_err(), "WasmError: unsupported import env.abort");
}

#[test]
fn required_exports_in_order() {
    let all = vec!["kapi_invoke".to_string(), "memory".to_string(), "kapi_alloc".to_string()];
    assert!(check_exports(&all).is_ok());
    assert_eq!(check_exports(&vec![]).unwrap_err(), "WasmError: missing export memory");
    assert_eq!(
        check_exports(&vec!["memory".to_string(), "kapi_invoke".to_string()]).unwrap_err(),
        "WasmError: missing export kapi_alloc"
    );
    assert_eq!(
        check_exports(&vec!["memory".to_string(), "kapi_alloc".to_string()]).unwrap_err(),
        "WasmError: missing export kapi_invoke"
    );
}

#[test]
fn request_and_pointer_checks() {
    assert!(check_request_len(1048576).is_ok());
    assert_eq!(check_request_len(1048577).unwrap_err(), "InvalidPayload: request exceeds 1048576 bytes");
    assert!(check_alloc_ptr(8).is_ok());
    assert_eq!(check_alloc_ptr(0).unwrap_err(), "WasmError: guest allocation failed");
    assert!(valid_region(1, 0));
    assert!(!valid_region(0, 1));
    assert!(!valid_region(1, -1));
    assert!(host_result_fits(1048576));
    assert!(!host_result_fits(1048577));
}

#[test]
fn trap_messages() {
    assert_eq!(trap_message(TrapKind::OutOfFuel, "x"), "WasmError: fuel exhausted");
    assert_eq!(trap_message(TrapKind::Interrupt, "x"), "WasmError: timeout");
    assert_eq!(trap_message(TrapKind::Other, "unreachable"), "WasmError: unreachable");
}

#[test]
fn guest_failure_shapes() {
    assert_eq!(
        guest_outcome(0, Ok(br#"{"ok":true}"#.to_vec())).unwrap_err(),
        "WasmError: guest returned null result"
    );
    assert_eq!(guest_outcome(5, Err("WasmError: bad utf8".to_string())).unwrap_err(), "WasmError: bad utf8");
    assert_eq!(
        guest_outcome(5, Ok(br#"{"ok":false,"error":"boom"}"#.to_vec())).unwrap_err(),
        "boom"
    );
    assert_eq!(
        interpret_envelope(&parse(r#"{"ok":false,"error":7}"#)).unwrap_err(),
        "WasmError: invalid guest result"
    );
    assert_eq!(
        interpret_envelope(&parse(r#"{"data":1}"#)).unwrap_err(),
        "WasmError: invalid guest result"
    );
    assert_eq!(
        interpret_envelope(&parse(r#"[1,2]"#)).unwrap_err(),
        "WasmError: invalid guest result"
    );
}

#[test]
fn guest_success_shapes() {
    let r = guest_outcome(5, Ok(br#"{"ok":true,"data":{"reversed":"cba"}}"#.to_vec())).unwrap();
    assert_eq!(from_json(&r), value(r#"{"reversed":"cba"}"#));
    let r = interpret_envelope(&parse(r#"{"ok":true}"#)).unwrap();
    assert_eq!(from_json(&r), serde_json::Value::Null);
}

#[test]
fn guest_result_bytes_are_parsed() {
    assert_eq!(guest_outcome(5, Ok(b"not json".to_vec())).unwrap_err(), "WasmError: invalid guest result");
    assert_eq!(guest_outcome(5, Ok(vec![0xff, 0xfe])).unwrap_err(), "WasmError: invalid guest result");
    let r = guest_outcome(5, Ok(br#"{"ok":true,"data":[1,"two",null]}"#.to_vec())).unwrap();
    assert_eq!(from_json(&r), value(r#"[1,"two",null]"#));
}

#[test]
fn host_payloads_are_parsed() {
    let p = host_payload(&br#"{"key":"k"}"#.to_vec()).unwrap();
    assert_eq!(from_json(&p), value(r#"{"key":"k"}"#));
    let parse_error = serde_json::from_slice::<serde_json::Value>(b"{oops").unwrap_err().to_string();
    assert_eq!(host_payload(&b"{oops".to_vec()).unwrap_err(), format!("InvalidPayload: {parse_error}"));
}

#[test]
fn host_envelopes() {
    let ok = host_envelope(Ok(parse(r#"{"x":1}"#)));
    assert_eq!(from_json(&ok), value(r#"{"ok":true,"data":{"x":1}}"#));
    let err = host_envelope(Err("PermissionDenied: storage:read".to_string()));
    assert_eq!(from_json(&err), value(r#"{"ok":false,"error":"PermissionDenied: storage:read"}"#));
    let back = interpret_envelope(&err).unwrap_err();
    assert_eq!(back, "PermissionDenied: storage:read");
}

#[test]
fn guest_bump_heap() {
    assert_eq!(bump_alloc(0, 10), Some((0, 10)));
    assert_eq!(bump_alloc(10, 4), Some((16, 20)));
    assert_eq!(bump_alloc(16, 1), Some((16, 17)));
    assert_eq!(bump_alloc(3, 0), None);
    assert_eq!(bump_alloc(3, -5), None);
    assert_eq!(bump_alloc(GUEST_HEAP_SIZE - 8, 8), Some((GUEST_HEAP_SIZE - 8, GUEST_HEAP_SIZE)));
    assert_eq!(bump_alloc(GUEST_HEAP_SIZE - 9, 8), Some((GUEST_HEAP_SIZE - 8, GUEST_HEAP_SIZE)));
    assert_eq!(bump_alloc(GUEST_HEAP_SIZE - 9, 9), None);
    assert!(heap_region_ok(1010, 20, 1000, 40));
    assert!(!heap_region_ok(1030, 20, 1000, 40));
    assert!(!heap_region_ok(990, 5, 1000, 40));
    assert!(!heap_region_ok(0, 0, 0, 40));
    assert!(!heap_region_ok(1010, -1, 1000, 40));
}
