// Bridge tests: permission guard, channel map, payload bounds, display mode,
// the subscription table and the HTTP helpers.
use kapi::bridge::dispatch::{
    bridge_route, channel_permission, check_body_len, check_bridge_row, check_response_growth, check_value_len,
    dispatch_route, display_mode, ensure_own_window, extract_host, forwards_header,
    host_from_parts, merge_header, normalize_method, subscription_type, BridgeRoute, LogLevel,
    PermissionGuard, Route,
};
use kapi::bridge::event_bus::{
    event_purge_window, event_subscribe, event_targets, event_unsubscribe, subscribed_types,
    SubscriptionTable,
};
use kapi::bridge::validate::{
    validate_action, validate_event_type, validate_key, validate_message, validate_title,
};
fn guard_from(text: &str) -> PermissionGuard {
    PermissionGuard::from_manifest_json(text).unwrap()
}

fn sorted_types(t: &SubscriptionTable, label: &str, plugin: &str) -> Option<Vec<String>> {
    let mut v = subscribed_types(t, label, plugin);
    v.sort();
    if v.is_empty() {
        None
    } else {
        Some(v)
    }
}

// ---- PermissionGuard ----

fn check_guard_parses_permissions() {
    let g = guard_from(
        r#"{"id":"com.example.demo","permissions":["storage:read","storage:write","network:host:api.github.com"]}"#,
    );
    assert!(g.require("storage:read").is_ok());
    assert!(g.require("storage:write").is_ok());
    assert!(g.require("clipboard:read").is_err());
}

#[test]
fn bridge_guard_parses_permissions_from_manifest() {
    check_guard_parses_permissions();
}

#[test]
fn plugin_bridge_guard_parses_permissions_from_manifest() {
    check_guard_parses_permissions();
}

fn check_guard_rejects_invalid_manifest_json() {
    assert!(PermissionGuard::from_manifest_json("{ not json }").is_err());
}

#[test]
fn bridge_guard_rejects_invalid_manifest_json() {
    check_guard_rejects_invalid_manifest_json();
}

#[test]
fn plugin_bridge_guard_rejects_invalid_manifest_json() {
    check_guard_rejects_invalid_manifest_json();
}

#[test]
fn invalid_manifest_error_carries_the_parse_error() {
    let e = PermissionGuard::from_manifest_json("{ not json }").unwrap_err();
    let parse = serde_json::from_str::<serde_json::Value>("{ not json }").unwrap_err().to_string();
    assert_eq!(e, format!("PluginNotFound: invalid manifest ({parse})"));
    let g = PermissionGuard::from_manifest_json(r#"{"permissions":["a",1,"b"]}"#).unwrap();
    assert!(g.has("a") && g.has("b") && !g.has("1"));
}

#[test]
fn bridge_guard_defaults_to_deny_without_permissions_field() {
    let g = guard_from(r#"{"id":"com.example.demo"}"#);
    assert!(g.require("storage:read").is_err());
}

#[test]
fn plugin_bridge_guard_defaults_to_deny_without_permissions_field() {
    let g = guard_from(r#"{"id":"com.example.demo"}"#);
    assert!(g.require("storage:read").is_err());
}

fn check_require_prefix() {
    let g = PermissionGuard::default();
    assert_eq!(g.require("storage:read").unwrap_err(), "PermissionDenied: storage:read");
}

#[test]
fn bridge_guard_require_error_carries_stable_prefix() {
    check_require_prefix();
}

#[test]
fn plugin_bridge_guard_require_error_carries_stable_prefix() {
    check_require_prefix();
}

fn check_allows_hosts() {
    let g = guard_from(r#"{"permissions":["network:host:api.github.com","network:host:*"]}"#);
    assert!(g.allows_host("api.github.com"));
    assert!(g.allows_host("example.org"));
}

#[test]
fn bridge_guard_allows_exact_and_wildcard_hosts() {
    check_allows_hosts();
}

#[test]
fn plugin_bridge_guard_allows_exact_and_wildcard_hosts() {
    check_allows_hosts();
}

fn check_denies_hosts() {
    let g = guard_from(r#"{"permissions":["network:host:api.github.com"]}"#);
    assert!(!g.allows_host("evil.com"));
    assert!(!g.allows_host("sub.api.github.com"));
}

#[test]
fn bridge_guard_denies_unlisted_and_subdomain_hosts() {
    check_denies_hosts();
}

#[test]
fn plugin_bridge_guard_denies_unlisted_and_subdomain_hosts() {
    check_denies_hosts();
}

#[test]
fn guard_ignores_non_string_permissions() {
    let g = guard_from(r#"{"permissions":["storage:read", 7, null, {"x":"storage:write"}]}"#);
    assert!(g.has("storage:read"));
    assert!(!g.has("storage:write"));
    let g = guard_from(r#"{"permissions":"storage:read"}"#);
    assert!(!g.has("storage:read"));
}

// ---- channel_permission ----

fn check_channel_map() {
    assert_eq!(channel_permission("kapi:storage.get"), Some("storage:read"));
    assert_eq!(channel_permission("kapi:storage.set"), Some("storage:write"));
    assert_eq!(channel_permission("kapi:storage.remove"), Some("storage:write"));
    assert_eq!(channel_permission("kapi:clipboard.read"), Some("clipboard:read"));
    assert_eq!(channel_permission("kapi:clipboard.write"), Some("clipboard:write"));
    assert_eq!(channel_permission("kapi:events.emit"), Some("events:emit"));
}

#[test]
fn bridge_channel_permission_maps_every_declared_channel() {
    check_channel_map();
}

#[test]
fn plugin_bridge_channel_permission_maps_every_declared_channel() {
    check_channel_map();
}

fn check_channel_none() {
    for ch in ["kapi:window.close", "kapi:log.info", "kapi:http.fetch", "kapi:whatever"] {
        assert_eq!(channel_permission(ch), None);
    }
}

#[test]
fn bridge_channel_permission_returns_none_for_privileged_free_channels() {
    check_channel_none();
}

#[test]
fn plugin_bridge_channel_permission_returns_none_for_privileged_free_channels() {
    check_channel_none();
}

// ---- the subscription table ----

#[test]
fn event_bus_tracks_subscriptions_and_purges() {
    let mut t = SubscriptionTable::new();
    event_subscribe(&mut t, "main", "com.a", "tick");
    event_subscribe(&mut t, "main", "com.a", "tock");
    event_subscribe(&mut t, "plugin-com_b", "com.b", "tick");

    let a = sorted_types(&t, "main", "com.a").unwrap();
    assert_eq!(a, vec!["tick".to_string(), "tock".to_string()]);

    event_unsubscribe(&mut t, "main", "com.a", Some("tick"));
    assert_eq!(sorted_types(&t, "main", "com.a"), Some(vec!["tock".to_string()]));
    event_unsubscribe(&mut t, "main", "com.a", Some("tock"));
    assert_eq!(sorted_types(&t, "main", "com.a"), None);

    event_purge_window(&mut t, "plugin-com_b");
    assert_eq!(sorted_types(&t, "plugin-com_b", "com.b"), None);
    event_purge_window(&mut t, "no-such-window");

    event_subscribe(&mut t, "main", "com.a", "tick");
    event_unsubscribe(&mut t, "main", "com.a", None);
    assert_eq!(sorted_types(&t, "main", "com.a"), None);
}

#[test]
fn event_targets_reach_each_subscriber_once() {
    let mut t = SubscriptionTable::new();
    event_subscribe(&mut t, "main", "com.a", "tick");
    event_subscribe(&mut t, "main", "com.a", "tick");
    event_subscribe(&mut t, "plugin-com_b", "com.b", "tick");
    event_subscribe(&mut t, "plugin-com_b", "com.b", "tock");
    let mut r = event_targets(&t, "tick");
    r.sort();
    assert_eq!(
        r,
        vec![
            ("main".to_string(), "com.a".to_string()),
            ("plugin-com_b".to_string(), "com.b".to_string())
        ]
    );
    assert_eq!(event_targets(&t, "tock"), vec![("plugin-com_b".to_string(), "com.b".to_string())]);
    assert!(event_targets(&t, "other").is_empty());
}

#[test]
fn unsubscribed_window_receives_nothing() {
    let mut t = SubscriptionTable::new();
    event_subscribe(&mut t, "main", "com.a", "tick");
    event_subscribe(&mut t, "main", "com.a", "tock");
    event_unsubscribe(&mut t, "main", "com.a", Some("tick"));
    assert!(event_targets(&t, "tick").is_empty());
    assert_eq!(event_targets(&t, "tock"), vec![("main".to_string(), "com.a".to_string())]);
    event_purge_window(&mut t, "main");
    assert!(event_targets(&t, "tock").is_empty());
}

// ---- payload bounds ----

fn check_key_bounds() {
    assert!(validate_key("counter").is_ok());
    assert!(validate_key("").is_err());
    assert!(validate_key(&"k".repeat(257)).is_err());
    assert!(validate_key(&"k".repeat(256)).is_ok());
}

#[test]
fn validate_validate_key_bounds() {
    check_key_bounds();
}

#[test]
fn plugin_bridge_validate_key_bounds() {
    check_key_bounds();
}

#[test]
fn bridge_validate_key_bounds() {
    check_key_bounds();
}

fn check_event_type() {
    assert!(validate_event_type("clipboard_changed.1").is_ok());
    assert!(validate_event_type("clipboard-changed.v2").is_ok());
    assert!(validate_event_type("").is_err());
    assert!(validate_event_type("bad type!").is_err());
    assert!(validate_event_type(&"e".repeat(129)).is_err());
    assert!(validate_event_type(&"e".repeat(128)).is_ok());
}

#[test]
fn validate_validate_event_type_charset_and_length() {
    check_event_type();
}

#[test]
fn plugin_bridge_validate_event_type_charset_and_length() {
    check_event_type();
}

#[test]
fn bridge_validate_event_type_charset_and_length() {
    check_event_type();
}

fn check_message_title() {
    assert!(validate_message("hello").is_ok());
    assert!(validate_message("").is_err());
    assert!(validate_message(&"m".repeat(2001)).is_err());
    assert!(validate_title("Demo").is_ok());
    assert!(validate_title("").is_err());
    assert!(validate_title(&"t".repeat(257)).is_err());
}

#[test]
fn validate_validate_message_and_title_bounds() {
    check_message_title();
}

#[test]
fn plugin_bridge_validate_message_and_title_bounds() {
    check_message_title();
}

#[test]
fn bridge_validate_message_and_title_bounds() {
    check_message_title();
}

// ---- display mode ----

fn check_display_mode() {
    assert_eq!(
        display_mode("plugin-com_kapi_sample_plugin-c", "com.kapi.sample.plugin-c"),
        "independent"
    );
    assert_eq!(display_mode("main", "com.kapi.sample.plugin-c"), "embedded");
    assert_eq!(
        display_mode("plugin-com_kapi_sample_plugin-b", "com.kapi.sample.plugin-c"),
        "embedded"
    );
}

#[test]
fn bridge_display_mode_matches_own_window_label_only() {
    check_display_mode();
}

#[test]
fn plugin_bridge_display_mode_matches_own_window_label_only() {
    check_display_mode();
}

// ---- HTTP helpers ----

#[test]
fn extract_host_normalizes_case_and_strips_port() {
    assert_eq!(extract_host("https://API.GitHub.com/v1").unwrap(), "api.github.com");
    assert_eq!(extract_host("http://example.org:8080/path").unwrap(), "example.org");
}

#[test]
fn extract_host_rejects_non_http_schemes_and_garbage() {
    assert!(extract_host("ftp://example.org").is_err());
    assert!(extract_host("file:///C:/x").is_err());
    assert!(extract_host("not a url").is_err());
    assert!(extract_host("example.org/x").is_err());
}

#[test]
fn normalize_method_defaults_uppercases_and_whitelelists() {
    assert_eq!(normalize_method(None).unwrap(), "GET");
    assert_eq!(normalize_method(Some("post")).unwrap(), "POST");
    assert!(normalize_method(Some("TRACE")).is_err());
    assert!(normalize_method(Some("connect")).is_err());
}

#[test]
fn extract_host_error_texts() {
    assert_eq!(extract_host("not a url").unwrap_err(), "HttpError: invalid url");
    assert_eq!(extract_host("ftp://example.org").unwrap_err(), "HttpError: only http/https urls are allowed");
    assert_eq!(host_from_parts(Some(("https".to_string(), None))).unwrap_err(), "HttpError: url has no host");
    assert_eq!(
        host_from_parts(Some(("http".to_string(), Some("Example.ORG".to_string())))).unwrap(),
        "example.org"
    );
}

#[test]
fn normalize_method_error_names_the_method() {
    assert_eq!(normalize_method(Some("trace")).unwrap_err(), "InvalidPayload: unsupported method TRACE");
    assert_eq!(normalize_method(Some("Patch")).unwrap(), "PATCH");
}

// ---- routing ----

#[test]
fn dispatch_route_checks_permission_first() {
    let g = guard_from(r#"{"permissions":["storage:read","events:emit"]}"#);
    assert_eq!(dispatch_route(&g, "kapi:storage.get").unwrap(), Route::StorageGet);
    assert_eq!(dispatch_route(&g, "kapi:storage.set").unwrap_err(), "PermissionDenied: storage:write");
    assert_eq!(dispatch_route(&g, "kapi:events.emit").unwrap(), Route::EventsEmit);
    assert_eq!(dispatch_route(&g, "kapi:http.fetch").unwrap(), Route::HttpFetch);
    assert_eq!(dispatch_route(&g, "kapi:log.warn").unwrap(), Route::Log(LogLevel::Warn));
    assert_eq!(LogLevel::Warn.as_str(), "warn");
}

#[test]
fn dispatch_route_refuses_ui_only_and_unknown_channels() {
    let g = PermissionGuard::empty();
    assert_eq!(dispatch_route(&g, "kapi:window.close").unwrap_err(), "WindowNotAllowed: window control is UI-only");
    assert_eq!(
        dispatch_route(&g, "kapi:plugin.invoke").unwrap_err(),
        "WasmError: kapi:plugin.invoke is not callable from WASM"
    );
    assert_eq!(
        dispatch_route(&g, "kapi:events.on").unwrap_err(),
        "EventError: event subscription is UI-only (no push target from WASM)"
    );
    assert_eq!(dispatch_route(&g, "kapi:nope").unwrap_err(), "UnknownChannel: kapi:nope");
}

#[test]
fn bridge_route_handles_window_and_event_channels() {
    assert_eq!(bridge_route("kapi:window.getInfo"), BridgeRoute::WindowGetInfo);
    assert_eq!(bridge_route("kapi:window.startDragging"), BridgeRoute::WindowStartDragging);
    assert_eq!(bridge_route("kapi:events.off"), BridgeRoute::EventsOff);
    assert_eq!(bridge_route("kapi:plugin.invoke"), BridgeRoute::PluginInvoke);
    assert_eq!(bridge_route("kapi:storage.get"), BridgeRoute::Shared);
}

#[test]
fn window_control_needs_own_window() {
    assert!(ensure_own_window("plugin-com_a", "com.a").is_ok());
    assert_eq!(
        ensure_own_window("main", "com.a").unwrap_err(),
        "WindowNotAllowed: window control requires the plugin's independent window"
    );
}

#[test]
fn subscription_type_is_required_and_checked() {
    assert_eq!(
        subscription_type(None).unwrap_err(),
        "InvalidPayload: event subscription requires a type"
    );
    assert_eq!(subscription_type(Some("tick".to_string())).unwrap(), "tick");
    assert_eq!(
        subscription_type(Some("bad type".to_string())).unwrap_err(),
        "InvalidPayload: event type must be 1..=128 chars of [A-Za-z0-9._-]"
    );
}

// ---- HTTP limits and headers ----

#[test]
fn body_and_value_limits() {
    assert!(check_body_len(1048576).is_ok());
    assert_eq!(check_body_len(1048577).unwrap_err(), "InvalidPayload: body exceeds 1048576 bytes");
    assert!(check_response_growth(1048000, 576).is_ok());
    assert_eq!(check_response_growth(1048000, 577).unwrap_err(), "HttpError: response exceeds 1048576 bytes");
    assert!(check_value_len(1048576).is_ok());
    assert_eq!(check_value_len(1048577).unwrap_err(), "InvalidPayload: value exceeds 1048576 bytes");
}

#[test]
fn host_and_length_headers_are_not_forwarded() {
    assert!(!forwards_header("Host"));
    assert!(!forwards_header("CONTENT-LENGTH"));
    assert!(forwards_header("Accept"));
}

#[test]
fn repeated_response_headers_are_joined() {
    let mut h: Vec<(String, String)> = Vec::new();
    merge_header(&mut h, "set-cookie".to_string(), "a=1".to_string());
    merge_header(&mut h, "x-one".to_string(), "1".to_string());
    merge_header(&mut h, "set-cookie".to_string(), "b=2".to_string());
    assert_eq!(
        h,
        vec![
            ("set-cookie".to_string(), "a=1, b=2".to_string()),
            ("x-one".to_string(), "1".to_string())
        ]
    );
}

#[test]
fn http_host_permission_errors() {
    let g = guard_from(r#"{"permissions":["network:host:api.github.com"]}"#);
    assert!(g.require_host("api.github.com").is_ok());
    assert_eq!(g.require_host("evil.com").unwrap_err(), "PermissionDenied: network:host:evil.com");
}

#[test]
fn bridge_refuses_missing_uninstalled_and_disabled_plugins() {
    assert_eq!(check_bridge_row("com.a", None).unwrap_err(), "PluginNotFound: com.a");
    assert_eq!(check_bridge_row("com.a", Some((false, true))).unwrap_err(), "PluginNotFound: com.a (uninstalled)");
    assert_eq!(check_bridge_row("com.a", Some((true, false))).unwrap_err(), "PluginDisabled: com.a");
    assert!(check_bridge_row("com.a", Some((true, true))).is_ok());
}

#[test]
fn action_names_are_slugs() {
    assert!(validate_action("reverse").is_ok());
    assert_eq!(
        validate_action("bad action").unwrap_err(),
        "InvalidPayload: action must be 1..=128 chars of [A-Za-z0-9._-]"
    );
    assert!(validate_action(&"a".repeat(129)).is_err());
}
