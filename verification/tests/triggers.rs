// Trigger settings and decisions, and transform nodes.
use kapi::json::{json_or_null, json_or_text, parse_config};
use kapi::json::Json;
use kapi::workflow::cron::CronSchedule;
use kapi::workflow::model::NodeOutcome;
use kapi::workflow::transform::{render_transform, transform_outcome, transform_output, transform_template};
use kapi::workflow::trigger::{
    advance_cursor, config_str, cron_expression, event_type_of, next_wake, parse_shortcut,
    regex_match, schedule_for, shortcut_text, ClipboardWatch, Shortcut, Wake,
};

fn to_json(v: &serde_json::Value) -> Json {
    match v {
        serde_json::Value::Null => Json::Null,
        serde_json::Value::Bool(b) => Json::Bool(*b),
        serde_json::Value::Number(n) => Json::Number(n.to_string()),
        serde_json::Value::String(s) => Json::Str(s.clone()),
        serde_json::Value::Array(a) => Json::Array(a.iter().map(to_json).collect()),
        serde_json::Value::Object(m) => {
            Json::Object(m.iter().map(|(k, v)| (k.clone(), to_json(v))).collect())
        }
    }
}

fn parse(text: &str) -> Json {
    to_json(&serde_json::from_str(text).unwrap())
}

#[test]
fn config_members_and_defaults() {
    let c = parse(r#"{"cron":"*/5 * * * *","shortcut":"Alt+Q","pattern":"http","event_type":"done","n":3}"#);
    assert_eq!(config_str(&c, "pattern").as_deref(), Some("http"));
    assert_eq!(config_str(&c, "n"), None);
    assert_eq!(config_str(&c, "absent"), None);
    assert_eq!(cron_expression(&c), "*/5 * * * *");
    assert_eq!(shortcut_text(&c), "Alt+Q");
    assert_eq!(event_type_of(&c), "done");
    let empty = parse("{}");
    assert_eq!(cron_expression(&empty), "0 * * * *");
    assert_eq!(shortcut_text(&empty), "CmdOrCtrl+Shift+K");
    assert_eq!(event_type_of(&empty), "");
}

#[test]
fn schedules_fall_back_to_hourly() {
    let s = schedule_for(&parse(r#"{"cron":"not a cron"}"#));
    assert!(s.matches(2025, 1, 1, 7, 0));
    assert!(!s.matches(2025, 1, 1, 7, 1));
    let s = schedule_for(&parse(r#"{"cron":"30 * * * *"}"#));
    assert!(s.matches(2025, 1, 1, 7, 30));
    assert!(!s.matches(2025, 1, 1, 7, 0));
    let hourly: CronSchedule = "0 * * * *".parse().unwrap();
    let fallback = schedule_for(&parse("{}"));
    assert_eq!(hourly.next_utc_seconds(100), fallback.next_utc_seconds(100));
}

#[test]
fn schedule_wakes() {
    let s: CronSchedule = "0 * * * *".parse().unwrap();
    assert_eq!(next_wake(&s, 100), Wake::Run(3500));
    assert_eq!(next_wake(&s, 3600), Wake::Run(3600));
    let never: CronSchedule = "0 0 30 2 *".parse().unwrap();
    assert_eq!(next_wake(&never, 0), Wake::Retry(3600));
}

#[test]
fn shortcut_parsing() {
    assert_eq!(
        parse_shortcut("CmdOrCtrl+Shift+K").unwrap(),
        Shortcut { ctrl: true, alt: false, shift: true, meta: false, key: 'K' }
    );
    assert_eq!(
        parse_shortcut("alt+super+7").unwrap(),
        Shortcut { ctrl: false, alt: true, shift: false, meta: true, key: '7' }
    );
    assert_eq!(parse_shortcut("a+b").unwrap().key, 'B');
    assert_eq!(parse_shortcut("Ctrl+F1").unwrap_err(), "unsupported key 'F1'");
    assert_eq!(parse_shortcut("Ctrl+Shift").unwrap_err(), "missing key code");
    assert_eq!(parse_shortcut("").unwrap_err(), "unsupported key ''");
}

#[test]
fn clipboard_changes_fire_once_primed() {
    let mut w = ClipboardWatch::new();
    let pattern = Some("http".to_string());
    assert!(!w.observe("http://a".to_string(), &pattern));
    assert!(!w.observe("http://a".to_string(), &pattern));
    assert!(w.observe("http://b".to_string(), &pattern));
    assert!(!w.observe("plain".to_string(), &pattern));
    assert_eq!(w.last, "plain");
    assert!(w.observe("other".to_string(), &None));
}

#[test]
fn substring_patterns() {
    assert!(regex_match("ell", "hello"));
    assert!(regex_match("", "x"));
    assert!(!regex_match("xyz", "hello"));
    assert!(!regex_match("hello!", "hello"));
}

#[test]
fn event_cursor_only_moves_forward() {
    assert_eq!(advance_cursor(5, 9), (9, true));
    assert_eq!(advance_cursor(9, 5), (9, false));
    assert_eq!(advance_cursor(9, 9), (9, false));
}

#[test]
fn transform_templates() {
    assert_eq!(transform_template(&Some(parse(r#"{"template":"{{x}}"}"#))), "{{x}}");
    assert_eq!(transform_template(&Some(parse(r#"{"template":3}"#))), "{}");
    assert_eq!(transform_template(&None), "{}");
}

#[test]
fn transform_rendering() {
    let cfg = Some(parse(r#"{"template":"{\"greeting\":\"hi {{name}}\"}"}"#));
    let out = render_transform("t1", &cfg, &parse(r#"{"name":"kapi"}"#)).unwrap();
    assert_eq!(out, r#"{"greeting":"hi kapi"}"#);
    match render_transform("t1", &cfg, &parse(r#"{"other":1}"#)) {
        Err(NodeOutcome::Failure { node_id, error }) => {
            assert_eq!(node_id, "t1");
            assert!(error.starts_with("TransformError: "));
        }
        other => panic!("unexpected {other:?}"),
    }
}

#[test]
fn transform_rendering_sees_numbers_and_lists() {
    let cfg = Some(parse(r#"{"template":"{\"n\":{{n}},\"first\":\"{{items.[0]}}\"}"}"#));
    let out = render_transform("t2", &cfg, &parse(r#"{"n":42,"items":["a","b"]}"#)).unwrap();
    assert_eq!(out, r#"{"n":42,"first":"a"}"#);
}

#[test]
fn transform_output_reads_the_rendered_text() {
    match transform_output("t".to_string(), r#"{"a":[1,2]}"#) {
        NodeOutcome::Success { node_id, output } => {
            assert_eq!(node_id, "t");
            assert_eq!(format!("{output:?}"), format!("{:?}", parse(r#"{"a":[1,2]}"#)));
        }
        other => panic!("unexpected {other:?}"),
    }
    let parse_error = serde_json::from_str::<serde_json::Value>("not json").unwrap_err().to_string();
    match transform_output("t".to_string(), "not json") {
        NodeOutcome::Failure { node_id, error } => {
            assert_eq!(node_id, "t");
            assert_eq!(error, format!("TransformError: template output is not valid JSON: {parse_error}"));
        }
        other => panic!("unexpected {other:?}"),
    }
}

#[test]
fn transform_outcomes() {
    match transform_outcome("t".to_string(), Err("expected value at line 1 column 1".to_string())) {
        NodeOutcome::Failure { node_id, error } => {
            assert_eq!(node_id, "t");
            assert_eq!(error, "TransformError: template output is not valid JSON: expected value at line 1 column 1");
        }
        other => panic!("unexpected {other:?}"),
    }
    assert!(matches!(transform_outcome("t".to_string(), Ok(Json::Null)), NodeOutcome::Success { .. }));
}

#[test]
fn reading_json_text() {
    assert_eq!(format!("{:?}", json_or_null(r#"{"k":[true,null]}"#)), format!("{:?}", parse(r#"{"k":[true,null]}"#)));
    assert!(matches!(json_or_null("{ nope"), Json::Null));
    assert!(matches!(json_or_text("plain words".to_string()), Json::Str(s) if s == "plain words"));
    assert!(matches!(json_or_text("12".to_string()), Json::Number(n) if n == "12"));
    assert!(matches!(json_or_text(r#""quoted""#.to_string()), Json::Str(s) if s == "quoted"));
    let parse_error = serde_json::from_str::<serde_json::Value>("{ nope").unwrap_err().to_string();
    assert_eq!(parse_config("{ nope").unwrap_err(), format!("InvalidConfig: {parse_error}"));
    assert!(matches!(parse_config(r#"{"cron":"* * * * *"}"#), Ok(Json::Object(_))));
}
