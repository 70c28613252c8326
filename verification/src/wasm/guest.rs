//! The checks around one guest run and the reading of its result: the import
//! whitelist, the required exports, the request size, trap messages, host-call
//! arguments and result envelopes.
use vstd::prelude::*;
use crate::json::{get_member, json_parse_bytes, json_result_view, json_view, member, parse_json_bytes, Json, JsonView};
use crate::text::{concat2, str_eq};
use crate::wasm::limits::MAX_ENVELOPE_BYTES;

verus! {

/// An import module a guest may use.
pub open spec fn allowed_import(module: Seq<char>) -> bool {
    module == "wasi_snapshot_preview1"@ || module == "kapi"@
}

/// The first import (module, name) outside the whitelist, if any.
pub open spec fn first_bad_import(imports: Seq<(Seq<char>, Seq<char>)>) -> Option<(Seq<char>, Seq<char>)>
    decreases imports.len(),
{
    if imports.len() == 0 {
        None
    } else if !allowed_import(imports[0].0) {
        Some(imports[0])
    } else {
        first_bad_import(imports.drop_first())
    }
}

/// Only WASI preview 1 and the `kapi` module may be imported; the first
/// other import is reported.
pub fn check_imports(imports: &Vec<(String, String)>) -> (r: Result<(), String>)
    ensures
        match first_bad_import(imports@.map_values(|p: (String, String)| (p.0@, p.1@))) {
            None => r is Ok,
            Some((m, n)) => r matches Err(e) && e@ == "WasmError: unsupported import "@ + m + "."@ + n,
        },
{
    let ghost iv = imports@.map_values(|p: (String, String)| (p.0@, p.1@));
    let n = imports.len();
    assert(iv.skip(0) =~= iv);
    for i in 0..n
        invariant
            n == imports@.len(),
            iv == imports@.map_values(|p: (String, String)| (p.0@, p.1@)),
            first_bad_import(iv) == first_bad_import(iv.skip(i as int)),
    {
        assert(iv.skip(i as int)[0] == iv[i as int]);
        assert(iv.skip(i as int).drop_first() =~= iv.skip(i + 1));
        let m = imports[i].0.as_str();
        if !(str_eq(m, "wasi_snapshot_preview1") || str_eq(m, "kapi")) {
            let mut e = concat2("WasmError: unsupported import ", m);
            e.append(".");
            e.append(imports[i].1.as_str());
            return Err(e);
        }
    }
    assert(iv.skip(n as int) =~= Seq::<(Seq<char>, Seq<char>)>::empty());
    Ok(())
}

fn has_name(names: &Vec<String>, name: &str) -> (b: bool)
    ensures
        b == crate::order::views(names@).contains(name@),
{
    let n = names.len();
    for i in 0..n
        invariant
            n == names@.len(),
            forall|k: int| 0 <= k < i ==> names@[k]@ != name@,
    {
        if str_eq(names[i].as_str(), name) {
            assert(crate::order::views(names@)[i as int] == name@);
            return true;
        }
    }
    proof {
        if crate::order::views(names@).contains(name@) {
            let k = choose|k: int| 0 <= k < crate::order::views(names@).len() && crate::order::views(names@)[k] == name@;
            assert(names@[k]@ == name@);
        }
    }
    false
}

/// A guest must export `memory`, `kapi_alloc` and `kapi_invoke`; the first
/// missing one, in that order, is reported.
pub fn check_exports(exports: &Vec<String>) -> (r: Result<(), String>)
    ensures
        ({
            let ev = crate::order::views(exports@);
            if !ev.contains("memory"@) {
                r matches Err(e) && e@ == "WasmError: missing export memory"@
            } else if !ev.contains("kapi_alloc"@) {
                r matches Err(e) && e@ == "WasmError: missing export kapi_alloc"@
            } else if !ev.contains("kapi_invoke"@) {
                r matches Err(e) && e@ == "WasmError: missing export kapi_invoke"@
            } else {
                r is Ok
            }
        }),
{
    if !has_name(exports, "memory") {
        return Err("WasmError: missing export memory".to_owned());
    }
    if !has_name(exports, "kapi_alloc") {
        return Err("WasmError: missing export kapi_alloc".to_owned());
    }
    if !has_name(exports, "kapi_invoke") {
        return Err("WasmError: missing export kapi_invoke".to_owned());
    }
    Ok(())
}

/// A request envelope may hold at most 1 MiB.
pub fn check_request_len(len: usize) -> (r: Result<(), String>)
    ensures
        r is Ok <==> len <= MAX_ENVELOPE_BYTES,
        r matches Err(e) ==> e@ == "InvalidPayload: request exceeds 1048576 bytes"@,
{
    if len > MAX_ENVELOPE_BYTES {
        Err("InvalidPayload: request exceeds 1048576 bytes".to_owned())
    } else {
        Ok(())
    }
}

/// A guest allocation must return a positive pointer.
pub fn check_alloc_ptr(ptr: i32) -> (r: Result<(), String>)
    ensures
        r is Ok <==> ptr > 0,
        r matches Err(e) ==> e@ == "WasmError: guest allocation failed"@,
{
    if ptr <= 0 {
        Err("WasmError: guest allocation failed".to_owned())
    } else {
        Ok(())
    }
}

/// Why a guest call trapped.
#[derive(Debug, Clone, Copy, PartialEq, Eq, Structural)]
pub enum TrapKind {
    /// The fuel ran out.
    OutOfFuel,
    /// The epoch deadline passed.
    Interrupt,
    /// Any other trap or error.
    Other,
}

/// The stable error for a trap: fuel and deadline get fixed messages, other
/// failures carry their own text.
pub fn trap_message(kind: TrapKind, text: &str) -> (r: String)
    ensures
        r@ == match kind {
            TrapKind::OutOfFuel => "WasmError: fuel exhausted"@,
            TrapKind::Interrupt => "WasmError: timeout"@,
            TrapKind::Other => "WasmError: "@ + text@,
        },
{
    match kind {
        TrapKind::OutOfFuel => "WasmError: fuel exhausted".to_owned(),
        TrapKind::Interrupt => "WasmError: timeout".to_owned(),
        TrapKind::Other => concat2("WasmError: ", text),
    }
}

/// A host-call argument region: a positive pointer and a non-negative length.
pub fn valid_region(ptr: i32, len: i32) -> (b: bool)
    ensures
        b == (ptr > 0 && len >= 0),
{
    !(ptr <= 0 || len < 0)
}

/// What a parsed guest result envelope means: `ok: true` gives its `data`
/// (null when absent); `ok: false` gives its `error` text (or a generic error
/// when that is not a string); anything else is an invalid result.
pub open spec fn envelope_outcome(v: JsonView) -> Result<JsonView, Seq<char>> {
    match member(v, "ok"@) {
        Some(JsonView::Bool(true)) => Ok(match member(v, "data"@) { Some(d) => d, None => JsonView::Null }),
        Some(JsonView::Bool(false)) => Err(match member(v, "error"@) {
            Some(JsonView::Str(s)) => s,
            _ => "WasmError: invalid guest result"@,
        }),
        _ => Err("WasmError: invalid guest result"@),
    }
}

/// Reads a guest's result envelope.
pub fn interpret_envelope(v: &Json) -> (r: Result<Json, String>)
    ensures
        json_result_view(r) == envelope_outcome(v@),
{
    proof {
        reveal_strlit("ok");
        reveal_strlit("data");
        reveal_strlit("error");
    }
    match get_member(v, "ok") {
        Some(Json::Bool(true)) => match get_member(v, "data") {
            Some(d) => Ok(d),
            None => Ok(Json::Null),
        },
        Some(Json::Bool(false)) => match get_member(v, "error") {
            Some(Json::Str(s)) => Err(s),
            _ => Err("WasmError: invalid guest result".to_owned()),
        },
        _ => Err("WasmError: invalid guest result".to_owned()),
    }
}

/// The result envelope a guest wrote, read from its bytes: null when they
/// do not parse as JSON (which reads as an invalid result).
pub open spec fn envelope_doc(bytes: Seq<u8>) -> JsonView {
    match json_parse_bytes(bytes) {
        Ok(v) => v,
        Err(_) => JsonView::Null,
    }
}

/// What a guest run gives, from its packed result and the bytes read at it:
/// a null result is an error, an unreadable envelope is reported as given,
/// and the bytes read are parsed and interpreted as the envelope.
pub fn guest_outcome(ret: i64, envelope: Result<Vec<u8>, String>) -> (r: Result<Json, String>)
    ensures
        ret == 0 ==> (r matches Err(e) && e@ == "WasmError: guest returned null result"@),
        ret != 0 ==> json_result_view(r) == match envelope {
            Ok(b) => envelope_outcome(envelope_doc(b@)),
            Err(e) => Err(e@),
        },
{
    if ret == 0 {
        return Err("WasmError: guest returned null result".to_owned());
    }
    match envelope {
        Ok(bytes) => {
            let doc = match parse_json_bytes(bytes.as_slice()) {
                Ok(v) => v,
                Err(_) => Json::Null,
            };
            interpret_envelope(&doc)
        },
        Err(e) => Err(e),
    }
}

/// The payload of a host call, read from its bytes; bytes that do not
/// parse are refused as `InvalidPayload: <error>`.
pub fn host_payload(bytes: &Vec<u8>) -> (r: Result<Json, String>)
    ensures
        json_result_view(r) == match json_parse_bytes(bytes@) {
            Ok(v) => Ok::<JsonView, Seq<char>>(v),
            Err(e) => Err::<JsonView, Seq<char>>("InvalidPayload: "@ + e),
        },
{
    match parse_json_bytes(bytes.as_slice()) {
        Ok(v) => Ok(v),
        Err(e) => Err(concat2("InvalidPayload: ", e.as_str())),
    }
}

/// The envelope a host call hands back to the guest.
pub fn host_envelope(result: Result<Json, String>) -> (j: Json)
    ensures
        j@ == match result {
            Ok(d) => JsonView::Object(seq![("ok"@, JsonView::Bool(true)), ("data"@, d@)]),
            Err(e) => JsonView::Object(seq![("ok"@, JsonView::Bool(false)), ("error"@, JsonView::Str(e@))]),
        },
{
    let mut members: Vec<(String, Json)> = Vec::new();
    match result {
        Ok(d) => {
            members.push(("ok".to_owned(), Json::Bool(true)));
            let ghost dv = d@;
            members.push(("data".to_owned(), d));
            assert(members@.len() == 2);
            assert(json_view(members@[0].1) == JsonView::Bool(true));
            assert(json_view(members@[1].1) == dv);
            let j = Json::Object(members);
            assert(j@->Object_0 =~= seq![("ok"@, JsonView::Bool(true)), ("data"@, dv)]);
            j
        },
        Err(e) => {
            members.push(("ok".to_owned(), Json::Bool(false)));
            let ghost ev = e@;
            members.push(("error".to_owned(), Json::Str(e)));
            assert(members@.len() == 2);
            assert(json_view(members@[0].1) == JsonView::Bool(false));
            assert(json_view(members@[1].1) == JsonView::Str(ev));
            let j = Json::Object(members);
            assert(j@->Object_0 =~= seq![("ok"@, JsonView::Bool(false)), ("error"@, JsonView::Str(ev))]);
            j
        },
    }
}

/// Whether a serialized host result fits the envelope limit; when it does
/// not, the guest gets `WasmError: host result exceeds 1048576 bytes`.
pub fn host_result_fits(len: usize) -> (b: bool)
    ensures
        b == (len <= MAX_ENVELOPE_BYTES),
{
    len <= MAX_ENVELOPE_BYTES
}

} // verus!
