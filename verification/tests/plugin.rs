// Plugins: window labels, entry safety, shape resolution, the install plan,
// launch decisions and mode switches.
use kapi::json::Json;
use kapi::plugin::install::{install_action, kept_window_mode, plugin_window_label, InstallAction};
use kapi::plugin::launch::{
    check_mode_supported, check_window_mode, headless_action_of, pick_headless_action, plan_launch, supported_modes, LaunchPlan,
};
use kapi::plugin::resolve::{
    is_safe_entry, plan_install, resolve_supported_windows, InstallDecision, ManifestSummary,
    ShapeSource, Shapes, WindowDecl,
};

fn to_json(v: &serde_json::Value) -> Json {
    match v {
        serde_json::Value::Null => Json::Null,
        serde_json::Value::Bool(b) => Json::Bool(*b),
        serde_json::Value::Number(n) => Json::Number(n.to_string()),
        serde_json::Value::String(s) => Json::Str(s.clone()),
        serde_json::Value::Array(a) => Json::Array(a.iter().map(to_json).collect()),
        serde_json::Value::Object(m) => {
            Json::Object(m.iter().map(|(k, v)| (k.clone(), to_json(v))).collect())
        }
    }
}

fn text_at(v: &serde_json::Value, key: &str) -> Option<String> {
    v.get(key).and_then(|x| x.as_str()).map(|s| s.to_string())
}

fn decls_of(v: &serde_json::Value) -> Option<Vec<WindowDecl>> {
    v.get("windows").and_then(|w| w.as_array()).map(|items| {
        items
            .iter()
            .map(|item| WindowDecl { mode: text_at(item, "mode"), entry: text_at(item, "entry") })
            .collect()
    })
}

fn legacy_mode_of(v: &serde_json::Value) -> Option<String> {
    v.get("window").and_then(|w| text_at(w, "mode"))
}

// The fields the install plan reads, taken from the JSON text as the host does.
fn summary(text: &str) -> Result<ManifestSummary, String> {
    let v: serde_json::Value = serde_json::from_str(text).map_err(|e| e.to_string())?;
    Ok(ManifestSummary {
        id: text_at(&v, "id").ok_or("missing id")?,
        name: text_at(&v, "name").ok_or("missing name")?,
        version: text_at(&v, "version").ok_or("missing version")?,
        legacy_mode: legacy_mode_of(&v),
        windows: decls_of(&v),
    })
}

fn plan(text: &str, has_web: bool, has_wasm: bool) -> Result<InstallDecision, String> {
    plan_install(&summary(text)?, has_web, has_wasm)
}

fn shapes(text: &str, has_web: bool, has_wasm: bool) -> Result<Shapes, String> {
    let v: serde_json::Value = serde_json::from_str(text).map_err(|e| e.to_string())?;
    resolve_supported_windows(&decls_of(&v), &legacy_mode_of(&v), has_web, has_wasm)
}

fn manifest_json(overrides: &str) -> String {
    format!(
        r#"{{
            "id": "com.example.demo",
            "name": "Demo",
            "version": "1.0.0",
            "author": "Kapi",
            "description": "demo plugin",
            "icon": "icon.png",
            "category": "tool",
            "window": {{"mode": "embedded", "title": "Demo", "width": 420, "height": 640,
                        "minWidth": 320, "minHeight": 400, "resizable": true, "alwaysOnTop": false}},
            {overrides}
            "_tail": true
        }}"#
    )
}

fn manifest(text: &str) -> Json {
    to_json(&serde_json::from_str(text).unwrap())
}

// ---- window labels ----

fn check_window_label() {
    assert_eq!(plugin_window_label("com.kapi.sample.plugin-a"), "plugin-com_kapi_sample_plugin-a");
    assert_eq!(plugin_window_label("com.kapi.sample.plugin-a"), plugin_window_label("com.kapi.sample.plugin-a"));
    assert_eq!(plugin_window_label("simple_id-1"), "plugin-simple_id-1");
}

#[test]
fn plugin_manager_window_label_dots_are_sanitized() {
    check_window_label();
}

#[test]
fn plugin_install_window_label_dots_are_sanitized() {
    check_window_label();
}

// ---- entry safety ----

#[test]
fn is_safe_entry_rejects_unsafe_paths() {
    assert!(!is_safe_entry("/index.html"));
    assert!(!is_safe_entry("../evil"));
    assert!(!is_safe_entry("foo/../bar"));
    assert!(!is_safe_entry(""));
    assert!(!is_safe_entry("foo//bar"));
    assert!(!is_safe_entry("foo bar.html"));
    assert!(!is_safe_entry("foo<bar>.html"));
}

#[test]
fn is_safe_entry_accepts_valid_paths() {
    assert!(is_safe_entry("index.html"));
    assert!(is_safe_entry("sub/path.html"));
    assert!(is_safe_entry("a.b.c"));
    assert!(is_safe_entry("a_b-c"));
}

// ---- shapes ----

#[test]
fn resolves_windows_array_with_per_mode_entries() {
    let json = r#"{
        "id": "com.example.demo", "name": "Demo", "version": "1.0.0",
        "windows": [
            { "mode": "embedded", "entry": "index.html" },
            { "mode": "independent", "entry": "window.html", "width": 420, "transparent": true }
        ]
    }"#;
    let s = shapes(json, true, true).unwrap();
    assert_eq!(s.embedded.as_ref().unwrap().entry, "index.html");
    let indep = s.independent.as_ref().unwrap();
    assert_eq!(indep.entry, "window.html");
    assert_eq!(indep.source, ShapeSource::Entry(1));
    assert!(s.headless);
}

#[test]
fn resolves_legacy_window_fallback() {
    let s = shapes(r#"{"id":"x","name":"X","version":"1","window":{"mode":"independent","width":480}}"#, true, false).unwrap();
    assert!(s.embedded.is_none());
    assert_eq!(s.independent.as_ref().unwrap().entry, "index.html");
    assert_eq!(s.independent.as_ref().unwrap().source, ShapeSource::Legacy);
    assert!(!s.headless);

    let s = shapes(r#"{"id":"x","name":"X","version":"1"}"#, true, false).unwrap();
    assert!(s.embedded.is_some());
    assert!(s.independent.is_none());

    let s = shapes(r#"{"id":"x","name":"X","version":"1","window":{"mode":"headless"}}"#, false, true).unwrap();
    assert!(s.embedded.is_none());
    assert!(s.independent.is_none());
    assert!(s.headless);
}

#[test]
fn rejects_bad_windows_arrays() {
    let base = r#"{"id":"x","name":"X","version":"1""#;
    let with = |windows: &str| format!("{base}, \"windows\": [{windows}]}}");
    assert!(shapes(&with(r#"{"mode":"headless","entry":"index.html"}"#), true, false).is_err());
    assert!(shapes(&with(r#"{"mode":"embedded","entry":"a.html"},{"mode":"embedded","entry":"b.html"}"#), true, false).is_err());
    assert!(shapes(&with(r#"{"mode":"popup","entry":"a.html"}"#), true, false).is_err());
}

#[test]
fn windows_array_error_texts() {
    let base = r#"{"id":"x","name":"X","version":"1""#;
    let with = |windows: &str| format!("{base}, \"windows\": [{windows}]}}");
    assert_eq!(
        shapes(&with(r#"{"mode":"headless"}"#), true, false).unwrap_err(),
        "windows[] 不支持 headless（由 main.wasm 决定）/ headless is not a windows[] mode (decided by main.wasm)"
    );
    assert_eq!(
        shapes(&with(r#"{"mode":"popup"}"#), true, false).unwrap_err(),
        "windows[] mode 非法或重复 / invalid or duplicate windows[] mode: popup"
    );
    let s = shapes(&with(r#"{"entry":"a.html"}"#), true, false).unwrap();
    assert_eq!(s.embedded.as_ref().unwrap().entry, "a.html");
    let s = shapes(&with(r#"{"mode":"independent"}"#), false, false).unwrap();
    assert!(s.independent.is_none());
}

// ---- the install plan ----

fn check_plans_full_manifest() {
    let text = manifest_json("");
    assert_eq!(summary(&text).unwrap().id, "com.example.demo");
    let plan = plan(&text, true, false).unwrap();
    assert_eq!(plan.window_mode, "embedded");
    assert_eq!(plan.web_path.as_deref(), Some("web/index.html"));
    assert_eq!(plan.wasm_path, None);
}

#[test]
fn plugin_manager_plans_full_manifest() {
    check_plans_full_manifest();
}

#[test]
fn plugin_resolve_plans_full_manifest() {
    check_plans_full_manifest();
}

fn check_rejects_missing_required_fields() {
    assert!(plan(&manifest_json("\"name\": \"\""), true, false).is_err());
    assert!(plan(&manifest_json("\"version\": \"\""), true, false).is_err());
    assert!(plan(&manifest_json("\"id\": \"com foo\""), true, false).is_err());
    assert!(plan(&manifest_json("\"id\": \"../x\""), true, false).is_err());
    // the same overrides in well-formed manifests
    assert!(plan(&manifest_json("\"name\": \"\","), true, false).is_err());
    assert!(plan(&manifest_json("\"version\": \"\","), true, false).is_err());
    assert!(plan(&manifest_json("\"id\": \"com foo\","), true, false).is_err());
    assert!(plan(&manifest_json("\"id\": \"../x\","), true, false).is_err());
}

#[test]
fn plugin_manager_rejects_missing_required_fields() {
    check_rejects_missing_required_fields();
}

#[test]
fn plugin_resolve_rejects_missing_required_fields() {
    check_rejects_missing_required_fields();
    assert!(plan(&manifest_json("\"id\": \"__kapi__\""), true, false).is_err());
    assert!(plan(&manifest_json("\"id\": \"__anything\""), true, false).is_err());
    assert!(plan(&manifest_json("\"id\": \"__kapi__\","), true, false).is_err());
    assert!(plan(&manifest_json("\"id\": \"__anything\","), true, false).is_err());
}

fn check_rejects_invalid_json_and_mode() {
    assert!(plan("{ not json }", true, false).is_err());
    assert!(plan(&manifest_json("\"window\": {\"mode\": \"popup\"}"), true, false).is_err());
    assert!(plan(&manifest_json("\"window\": {\"mode\": \"popup\"},"), true, false).is_err());
}

#[test]
fn plugin_manager_rejects_invalid_json_and_mode() {
    check_rejects_invalid_json_and_mode();
}

#[test]
fn plugin_resolve_rejects_invalid_json_and_mode() {
    check_rejects_invalid_json_and_mode();
}

#[test]
fn plugin_manager_rejects_plugin_without_any_entry() {
    assert!(plan(&manifest_json(""), false, false).is_err());
}

#[test]
fn plugin_resolve_rejects_plugin_without_any_entry() {
    assert!(plan(&manifest_json(""), false, false).is_err());
}

fn check_derives_mode() {
    let no_window = r#"{"id":"com.example.demo","name":"Demo","version":"1.0.0"}"#;
    assert_eq!(plan(no_window, true, false).unwrap().window_mode, "embedded");
    assert_eq!(plan(no_window, false, true).unwrap().window_mode, "headless");
}

#[test]
fn plugin_manager_derives_mode_from_entries_when_unset() {
    check_derives_mode();
}

#[test]
fn plugin_resolve_derives_mode_from_entries_when_unset() {
    check_derives_mode();
}

fn check_explicit_mode() {
    let headless = r#"{"id":"com.example.demo","name":"Demo","version":"1.0.0","window":{"mode":"headless"}}"#;
    assert_eq!(plan(headless, true, false).unwrap().window_mode, "headless");
}

#[test]
fn plugin_manager_explicit_mode_wins_over_entries() {
    check_explicit_mode();
}

#[test]
fn plugin_resolve_explicit_mode_wins_over_entries() {
    check_explicit_mode();
}

#[test]
fn plugin_manager_wasm_entry_recorded() {
    assert_eq!(plan(&manifest_json(""), true, true).unwrap().wasm_path.as_deref(), Some("main.wasm"));
}

#[test]
fn plugin_resolve_wasm_entry_recorded() {
    assert_eq!(plan(&manifest_json(""), true, true).unwrap().wasm_path.as_deref(), Some("main.wasm"));
}

#[test]
fn parses_tauri_aligned_window_options() {
    let json = r#"{
        "id": "com.example.demo", "name": "Demo", "version": "1.0.0",
        "window": {"mode": "independent", "transparent": true, "decorations": false,
                    "skipTaskbar": true, "shadow": false, "center": false, "fullscreen": false}
    }"#;
    let plan = plan(json, true, false).unwrap();
    assert_eq!(plan.window_mode, "independent");
    assert_eq!(plan.shapes.independent.as_ref().unwrap().source, ShapeSource::Legacy);
}

#[test]
fn plan_install_validates_entries_and_default_mode() {
    let missing = r#"{
        "id":"com.example.demo","name":"Demo","version":"1.0.0",
        "windows":[{"mode":"embedded","entry":"../evil.html"}]
    }"#;
    assert!(plan(missing, true, false).is_err());
    let slash = r#"{
        "id":"com.example.demo","name":"Demo","version":"1.0.0",
        "windows":[{"mode":"embedded","entry":"/abs.html"}]
    }"#;
    assert!(plan(slash, true, false).is_err());
    let indep_only = r#"{
        "id":"com.example.demo","name":"Demo","version":"1.0.0",
        "windows":[{"mode":"independent","entry":"window.html","width":300,"transparent":true}]
    }"#;
    let p = plan(indep_only, true, false).unwrap();
    assert_eq!(p.window_mode, "independent");
    assert!(p.shapes.independent.is_some());
    let embed_only = r#"{
        "id":"com.example.demo","name":"Demo","version":"1.0.0",
        "windows":[{"mode":"embedded","entry":"a.html"}]
    }"#;
    assert!(plan(embed_only, true, false).unwrap().shapes.independent.is_none());
}

#[test]
fn install_plan_error_texts() {
    assert_eq!(
        plan(&manifest_json("\"id\": \"com foo\","), true, false).unwrap_err(),
        "插件 id 非法（仅限 [A-Za-z0-9._-]）/ invalid plugin id: com foo"
    );
    assert_eq!(
        plan(&manifest_json("\"id\": \"__kapi__\","), true, false).unwrap_err(),
        "插件 id 保留（__ 前缀属宿主）/ reserved plugin id: __kapi__"
    );
    assert_eq!(plan(&manifest_json("\"name\": \"  \","), true, false).unwrap_err(), "manifest 缺少 name / manifest is missing name");
    assert_eq!(
        plan(&manifest_json("\"window\": {\"mode\": \"popup\"},"), true, false).unwrap_err(),
        "非法 window.mode / invalid window.mode: popup"
    );
    assert_eq!(
        plan(&manifest_json(""), false, false).unwrap_err(),
        "插件缺少入口（web/index.html 或 main.wasm 至少其一）/ plugin has no entry (web/index.html or main.wasm)"
    );
    let bad_entry = r#"{"id":"a","name":"A","version":"1","windows":[{"mode":"embedded","entry":"../x"}]}"#;
    assert_eq!(
        plan(bad_entry, true, false).unwrap_err(),
        "windows[].entry 非法（每段仅限 [A-Za-z0-9._-]）/ invalid windows entry: ../x"
    );
}

#[test]
fn updates_keep_a_still_supported_mode() {
    let s = shapes(r#"{"id":"x","name":"X","version":"1","windows":[{"mode":"independent","entry":"w.html"}]}"#, true, true).unwrap();
    assert_eq!(kept_window_mode("independent".to_string(), &s, "embedded".to_string()), "independent");
    assert_eq!(kept_window_mode("headless".to_string(), &s, "embedded".to_string()), "headless");
    assert_eq!(kept_window_mode("embedded".to_string(), &s, "independent".to_string()), "independent");
}

// ---- headless action ----

#[test]
fn headless_action_prefers_run_then_first() {
    assert_eq!(pick_headless_action(r#"{"workflow":{"actions":[{"name":"format"},{"name":"run"}]}}"#), "run");
    assert_eq!(pick_headless_action(r#"{"workflow":{"actions":[{"name":"format"},{"name":"save"}]}}"#), "format");
    assert_eq!(pick_headless_action(r#"{"id":"x"}"#), "run");
    assert_eq!(pick_headless_action("{ bad json"), "run");
    assert_eq!(pick_headless_action(r#"{"workflow":{"actions":[{"title":"x"},{"name":7},{"name":"go"}]}}"#), "go");
    assert_eq!(pick_headless_action(r#"{"workflow":{"actions":[]}}"#), "run");
    assert_eq!(headless_action_of(&Json::Null), "run");
    assert_eq!(headless_action_of(&manifest(r#"{"workflow":{"actions":[{"name":"sync"}]}}"#)), "sync");
}

// ---- launching ----

fn two_shapes() -> Shapes {
    shapes(
        r#"{"id":"com.a","name":"A","version":"1","windows":[{"mode":"embedded","entry":"index.html"},{"mode":"independent","entry":"win.html"}]}"#,
        true,
        true,
    )
    .unwrap()
}

#[test]
fn launch_refuses_disabled_plugins_first() {
    let r = plan_launch("com.a", false, "embedded", Err("broken".to_string()), true, "null");
    assert_eq!(r.unwrap_err(), "插件已禁用 / plugin is disabled");
    let r = plan_launch("com.a", true, "embedded", Err("broken".to_string()), true, "null");
    assert_eq!(r.unwrap_err(), "broken");
}

#[test]
fn launch_plans_each_mode() {
    match plan_launch("com.a", true, "embedded", Ok(two_shapes()), true, "null").unwrap() {
        LaunchPlan::Embedded { entry } => assert_eq!(entry, "index.html"),
        other => panic!("unexpected {other:?}"),
    }
    match plan_launch("com.a", true, "independent", Ok(two_shapes()), true, "null").unwrap() {
        LaunchPlan::Window { label, url, source } => {
            assert_eq!(label, "plugin-com_a");
            assert_eq!(url, "/plugin-window/com.a?entry=win.html");
            assert_eq!(source, ShapeSource::Entry(1));
        }
        other => panic!("unexpected {other:?}"),
    }
    let m = r#"{"workflow":{"actions":[{"name":"sync"}]}}"#;
    match plan_launch("com.a", true, "headless", Ok(two_shapes()), true, m).unwrap() {
        LaunchPlan::Headless { action } => assert_eq!(action, "sync"),
        other => panic!("unexpected {other:?}"),
    }
    assert_eq!(
        plan_launch("com.a", true, "headless", Ok(two_shapes()), false, m).unwrap_err(),
        "headless 模式需要 main.wasm / headless mode requires main.wasm"
    );
}

#[test]
fn launch_refuses_undeclared_shapes() {
    let only_embedded = shapes(r#"{"id":"com.b","name":"B","version":"1"}"#, true, false).unwrap();
    assert_eq!(
        plan_launch("com.b", true, "independent", Ok(only_embedded), false, "null").unwrap_err(),
        "UnsupportedMode: independent not declared by com.b"
    );
    let none = shapes(r#"{"id":"com.b","name":"B","version":"1"}"#, false, true).unwrap();
    assert_eq!(
        plan_launch("com.b", true, "embedded", Ok(none), true, "null").unwrap_err(),
        "UnsupportedMode: embedded not declared by com.b"
    );
}

#[test]
fn mode_switches() {
    assert!(check_window_mode("headless").is_ok());
    assert_eq!(check_window_mode("popup").unwrap_err(), "未知窗口模式 / unknown window mode: popup");
    assert!(check_mode_supported("independent", Ok(two_shapes())).is_ok());
    let only_embedded = shapes(r#"{"id":"com.b","name":"B","version":"1"}"#, true, false).unwrap();
    assert_eq!(
        check_mode_supported("headless", Ok(only_embedded)).unwrap_err(),
        "插件不支持该窗口模式 / plugin does not support window mode: headless"
    );
    assert_eq!(check_mode_supported("embedded", Err("bad manifest".to_string())).unwrap_err(), "bad manifest");
}

#[test]
fn supported_mode_lists() {
    assert_eq!(supported_modes(&two_shapes()), vec!["embedded", "independent", "headless"]);
    let only_embedded = shapes(r#"{"id":"com.b","name":"B","version":"1"}"#, true, false).unwrap();
    assert_eq!(supported_modes(&only_embedded), vec!["embedded"]);
    let none = shapes(r#"{"id":"com.b","name":"B","version":"1","window":{"mode":"headless"}}"#, false, false).unwrap();
    assert!(supported_modes(&none).is_empty());
}

#[test]
fn installing_over_an_installed_plugin_needs_the_update_flag() {
    assert_eq!(install_action("kapi.notes", 0, false), Ok(InstallAction::Insert));
    assert_eq!(install_action("kapi.notes", 0, true), Ok(InstallAction::Insert));
    assert_eq!(install_action("kapi.notes", 1, true), Ok(InstallAction::Replace));
    assert_eq!(
        install_action("kapi.notes", 1, false),
        Err("插件已安装，请先卸载 / plugin already installed: kapi.notes".to_string())
    );
}
