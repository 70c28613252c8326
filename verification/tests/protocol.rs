// The plugin asset protocol: request-path safety, request planning, content types.
use kapi::protocol::{
    content_type, hex_val, is_valid_plugin_id, parse_request_path, percent_decode, plan_request,
    ProtocolError, ServePlan,
};

#[test]
fn parses_normal_path() {
    let (id, rel) = parse_request_path("/com.example.foo/index.html").unwrap();
    assert_eq!(id, "com.example.foo");
    assert_eq!(rel, vec!["index.html"]);
}

#[test]
fn plugin_root_falls_back_to_index() {
    for path in ["/com.example.foo", "/com.example.foo/"] {
        let (id, rel) = parse_request_path(path).unwrap();
        assert_eq!(id, "com.example.foo");
        assert_eq!(rel, vec!["index.html"]);
    }
}

#[test]
fn keeps_nested_segments_in_order() {
    let (_, rel) = parse_request_path("/com.foo/assets/app.main.js").unwrap();
    assert_eq!(rel, vec!["assets", "app.main.js"]);
}

#[test]
fn drops_dot_segments() {
    let (_, rel) = parse_request_path("/com.foo/./assets/./app.js").unwrap();
    assert_eq!(rel, vec!["assets", "app.js"]);
}

#[test]
fn rejects_plain_traversal() {
    assert!(matches!(parse_request_path("/com.foo/../other/web/x"), Err(ProtocolError::Forbidden)));
}

#[test]
fn rejects_encoded_traversal_in_id() {
    assert!(matches!(parse_request_path("/%2e%2e/x"), Err(ProtocolError::Forbidden)));
}

#[test]
fn rejects_encoded_traversal_in_rel() {
    assert!(matches!(parse_request_path("/com.foo/%2E%2E/x"), Err(ProtocolError::Forbidden)));
}

#[test]
fn rejects_double_encoded_traversal() {
    assert!(matches!(parse_request_path("/%252e%252e/x"), Err(ProtocolError::Forbidden)));
}

#[test]
fn rejects_backslash_anywhere() {
    assert!(matches!(parse_request_path("/com.foo/a\\b"), Err(ProtocolError::Forbidden)));
}

#[test]
fn rejects_invalid_plugin_id_charset() {
    for path in ["/com foo/x", "/com%25foo/x", "/com~foo/x"] {
        assert!(matches!(parse_request_path(path), Err(ProtocolError::Forbidden)));
    }
}

#[test]
fn accepts_common_plugin_id_charset() {
    for path in ["/com.example.code-beautifier/x", "/a_b.C-d/x", "/x/y"] {
        assert!(parse_request_path(path).is_ok());
    }
}

#[test]
fn empty_path_is_not_found() {
    assert!(matches!(parse_request_path("/"), Err(ProtocolError::NotFound)));
}

#[test]
fn rejects_malformed_percent_escape() {
    assert!(matches!(parse_request_path("/com.foo/%zz"), Err(ProtocolError::Forbidden)));
}

#[test]
fn rejects_non_utf8_decoded_bytes() {
    assert!(matches!(parse_request_path("/com.foo/%ff"), Err(ProtocolError::Forbidden)));
}

#[test]
fn decodes_percent_in_rel_path() {
    let (id, _) = parse_request_path("/com.example.my%2Dplugin/index.html").unwrap();
    assert_eq!(id, "com.example.my-plugin");
}

#[test]
fn decodes_multibyte_utf8_segments() {
    let (_, rel) = parse_request_path("/com.foo/%E4%BD%A0.txt").unwrap();
    assert_eq!(rel, vec!["你.txt"]);
}

#[test]
fn percent_decoding_of_bytes() {
    assert_eq!(percent_decode("a%20b").unwrap(), b"a b".to_vec());
    assert_eq!(percent_decode("%").unwrap_err(), ProtocolError::Forbidden);
    assert_eq!(percent_decode("%4").unwrap_err(), ProtocolError::Forbidden);
    assert_eq!(hex_val(b'f'), Some(15));
    assert_eq!(hex_val(b'A'), Some(10));
    assert_eq!(hex_val(b'g'), None);
}

#[test]
fn plugin_id_charset() {
    assert!(is_valid_plugin_id("com.example-1_x"));
    assert!(!is_valid_plugin_id(""));
    assert!(!is_valid_plugin_id("."));
    assert!(!is_valid_plugin_id(".."));
    assert!(!is_valid_plugin_id("a/b"));
}

#[test]
fn request_planning() {
    assert!(matches!(
        plan_request("POST", "/com.foo/index.html"),
        ServePlan::Error { status: 405, text: "Method Not Allowed" }
    ));
    assert!(matches!(plan_request("GET", "/../x"), ServePlan::Error { status: 403, .. }));
    assert!(matches!(plan_request("GET", "/"), ServePlan::Error { status: 404, .. }));
    assert!(matches!(plan_request("GET", "/__kapi__/sdk.js"), ServePlan::Sdk));
    assert!(matches!(plan_request("GET", "/__kapi__/other.js"), ServePlan::Error { status: 404, .. }));
    match plan_request("GET", "/com.foo/web/app.js") {
        ServePlan::File { plugin_id, rel } => {
            assert_eq!(plugin_id, "com.foo");
            assert_eq!(rel, vec!["web", "app.js"]);
        }
        other => panic!("unexpected plan {other:?}"),
    }
}

#[test]
fn content_types_by_extension() {
    assert_eq!(content_type("index.html"), "text/html; charset=utf-8");
    assert_eq!(content_type("APP.JS"), "text/javascript; charset=utf-8");
    assert_eq!(content_type("x.woff2"), "font/woff2");
    assert_eq!(content_type("main.wasm"), "application/wasm");
    assert_eq!(content_type("README"), "application/octet-stream");
    assert_eq!(content_type(".hidden"), "application/octet-stream");
    assert_eq!(content_type("a.tar.gz"), "application/octet-stream");
}
