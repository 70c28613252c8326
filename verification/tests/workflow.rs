// Workflows: cron fields and schedules, graph validation and waves, node
// input assembly, trigger types, the calendar and the run-state machine.
use kapi::json::Json;
use kapi::workflow::calendar::{days_in_month, epoch_to_utc, is_leap_year, utc_to_epoch, weekday_of};
use kapi::workflow::cron::{CronSchedule, Field};
use kapi::workflow::input::{assemble_bindings, assemble_input};
use kapi::workflow::model::{
    default_true, is_runnable, DataBinding, GraphError, GraphErrorKind, NodeOutcome, TriggerType, WorkflowEdge,
    WorkflowGraph, WorkflowNode,
};
use kapi::workflow::run::{check_enabled, dry_step_log, invoke_outcome, plan_node, wave_tasks, NodePlan, RunState};
use kapi::workflow::topo::{check_savable, topological_waves, validate_graph};

fn to_json(v: &serde_json::Value) -> Json {
    match v {
        serde_json::Value::Null => Json::Null,
        serde_json::Value::Bool(b) => Json::Bool(*b),
        serde_json::Value::Number(n) => Json::Number(n.to_string()),
        serde_json::Value::String(s) => Json::Str(s.clone()),
        serde_json::Value::Array(a) => Json::Array(a.iter().map(to_json).collect()),
        serde_json::Value::Object(m) => {
            Json::Object(m.iter().map(|(k, v)| (k.clone(), to_json(v))).collect())
        }
    }
}

fn from_json(j: &Json) -> serde_json::Value {
    match j {
        Json::Null => serde_json::Value::Null,
        Json::Bool(b) => serde_json::Value::Bool(*b),
        Json::Number(n) => serde_json::from_str(n).unwrap(),
        Json::Str(s) => serde_json::Value::String(s.clone()),
        Json::Array(a) => serde_json::Value::Array(a.iter().map(from_json).collect()),
        Json::Object(m) => {
            serde_json::Value::Object(m.iter().map(|(k, v)| (k.clone(), from_json(v))).collect())
        }
    }
}

fn parse(text: &str) -> Json {
    to_json(&serde_json::from_str(text).unwrap())
}

fn plugin_node(id: &str) -> WorkflowNode {
    WorkflowNode {
        id: id.to_string(),
        node_type: "plugin".to_string(),
        plugin_id: Some("p".to_string()),
        action: Some("a".to_string()),
        config: Some(parse("{}")),
    }
}

fn graph(nodes: Vec<WorkflowNode>, edges: Vec<(&str, &str)>) -> WorkflowGraph {
    WorkflowGraph {
        nodes,
        edges: edges
            .into_iter()
            .map(|(from, to)| WorkflowEdge { from: from.to_string(), to: to.to_string(), map: Vec::new() })
            .collect(),
        bindings: Vec::new(),
    }
}

fn make_graph(nodes: Vec<(&str, &str)>, edges: Vec<(&str, &str)>) -> WorkflowGraph {
    graph(
        nodes
            .into_iter()
            .map(|(id, ty)| WorkflowNode {
                id: id.to_string(),
                node_type: ty.to_string(),
                plugin_id: None,
                action: None,
                config: None,
            })
            .collect(),
        edges,
    )
}

fn has_code(r: &[GraphError], code: &str) -> bool {
    r.iter().any(|e| e.code == code)
}

// ---- cron ----

#[test]
fn test_field_parsing() {
    assert_eq!("*".parse::<Field>().unwrap(), Field::All);
    assert_eq!("*/5".parse::<Field>().unwrap(), Field::Step(5));
    assert_eq!("1,3,5".parse::<Field>().unwrap(), Field::List(vec![1, 3, 5]));
    assert_eq!("0-30".parse::<Field>().unwrap(), Field::Range { start: 0, end: 30, step: 1 });
    assert_eq!("1-10/2".parse::<Field>().unwrap(), Field::Range { start: 1, end: 10, step: 2 });
}

#[test]
fn test_cron_schedule_parsing() {
    let _: CronSchedule = "*/5 * * * *".parse().unwrap();
    let _: CronSchedule = "0 9 * * *".parse().unwrap();
    let _: CronSchedule = "0 8 * * 1".parse().unwrap();
    "0 9 * *".parse::<CronSchedule>().expect_err("should need 5 fields");
}

#[test]
fn test_cron_matches() {
    let s: CronSchedule = "0 9 * * *".parse().unwrap();
    assert!(s.matches(2025, 1, 15, 9, 0));
    assert!(!s.matches(2025, 1, 15, 10, 0));
    assert!(!s.matches(2025, 1, 15, 9, 1));
}

#[test]
fn cron_field_errors() {
    assert!("*/0".parse::<Field>().is_err());
    assert!("a".parse::<Field>().is_err());
    assert!("1,x".parse::<Field>().is_err());
    assert_eq!(
        CronSchedule::parse("0 9 * *").unwrap_err(),
        "cron expression must have exactly 5 fields (min hour dom month dow), got 4"
    );
}

#[test]
fn cron_field_matching() {
    let step: Field = "*/15".parse().unwrap();
    assert!(step.matches(45));
    assert!(!step.matches(50));
    let range: Field = "10-20/5".parse().unwrap();
    assert!(range.matches(15));
    assert!(!range.matches(12));
    assert!(!range.matches(25));
    let list: Field = "1,3,5".parse().unwrap();
    assert!(list.matches(3));
    assert!(!list.matches(4));
}

#[test]
fn next_firing_minute() {
    let s: CronSchedule = "0 9 * * *".parse().unwrap();
    assert_eq!(s.next_utc_seconds(0), Some(32400));
    assert_eq!(s.next_utc_seconds(32400), Some(86400 + 32400));
    assert_eq!(s.next_utc_seconds(-5), None);
    let every: CronSchedule = "* * * * *".parse().unwrap();
    assert_eq!(every.next_utc_seconds(61), Some(120));
    let never: CronSchedule = "0 0 31 2 *".parse().unwrap();
    assert_eq!(never.next_utc_seconds(0), None);
}

#[test]
fn day_of_week_field_is_the_weekday() {
    let monday_eight: CronSchedule = "0 8 * * 1".parse().unwrap();
    assert!(monday_eight.matches(2025, 1, 6, 8, 0));
    assert!(!monday_eight.matches(2025, 1, 1, 8, 0));
    assert!(!monday_eight.matches(2025, 1, 7, 8, 0));
    let from = utc_to_epoch(2025, 1, 1, 0, 0).unwrap();
    let monday = utc_to_epoch(2025, 1, 6, 8, 0).unwrap();
    assert_eq!(monday_eight.next_utc_seconds(from), Some(monday));
    assert_eq!(monday_eight.next_utc_seconds(monday), Some(monday + 7 * 86400));
    let sunday: CronSchedule = "30 12 * * 0".parse().unwrap();
    assert!(sunday.matches(2024, 12, 29, 12, 30));
    assert!(!sunday.matches(2024, 12, 30, 12, 30));
}

#[test]
fn weekdays_of_dates() {
    assert_eq!(weekday_of(1970, 1, 1), 4);
    assert_eq!(weekday_of(2000, 1, 1), 6);
    assert_eq!(weekday_of(2024, 2, 29), 4);
    assert_eq!(weekday_of(2025, 1, 6), 1);
    assert_eq!(weekday_of(1, 1, 1), 1);
    assert_eq!(weekday_of(0, 1, 1), 6);
    assert_eq!(weekday_of(1969, 12, 31), 3);
    for days in [0i64, 1, 365, 10_000, 20_000, 123_456] {
        let (y, m, d, _, _) = epoch_to_utc(days * 86400);
        assert_eq!(weekday_of(y, m, d) as i64, (days + 4) % 7);
    }
}

// ---- the calendar ----

#[test]
fn calendar_conversions() {
    assert!(is_leap_year(2000));
    assert!(!is_leap_year(1900));
    assert!(is_leap_year(2024));
    assert_eq!(days_in_month(2024, 2), 29);
    assert_eq!(days_in_month(2023, 2), 28);
    assert_eq!(days_in_month(2023, 4), 30);
    assert_eq!(epoch_to_utc(0), (1970, 1, 1, 0, 0));
    assert_eq!(epoch_to_utc(1_700_000_000), (2023, 11, 14, 22, 13));
    assert_eq!(utc_to_epoch(2023, 11, 14, 22, 13), Some(1_699_999_980));
    assert_eq!(utc_to_epoch(2023, 2, 29, 0, 0), None);
    assert_eq!(utc_to_epoch(2024, 2, 29, 0, 0), Some(1_709_164_800));
}

// ---- graph validation ----

#[test]
fn empty_graph_is_valid() {
    let r = validate_graph(&graph(vec![], vec![]));
    assert!(r.is_empty(), "empty graph should be valid: {r:?}");
}

#[test]
fn linear_graph_is_valid() {
    let r = validate_graph(&graph(
        vec![plugin_node("a"), plugin_node("b"), plugin_node("c")],
        vec![("a", "b"), ("b", "c")],
    ));
    assert!(r.is_empty(), "linear graph should be valid: {r:?}");
}

#[test]
fn duplicate_node_id_is_fatal() {
    let r = validate_graph(&graph(vec![plugin_node("a"), plugin_node("a")], vec![]));
    assert!(r.iter().any(|e| e.code == "duplicate_node_id" && matches!(e.kind, GraphErrorKind::Fatal)));
}

#[test]
fn dangling_edge_is_fatal() {
    let r = validate_graph(&graph(vec![plugin_node("a")], vec![("a", "ghost")]));
    assert!(has_code(&r, "dangling_edge"));
}

#[test]
fn self_loop_is_fatal() {
    let r = validate_graph(&graph(vec![plugin_node("a")], vec![("a", "a")]));
    assert!(has_code(&r, "self_loop"));
}

#[test]
fn cycle_is_fatal_and_returns_path() {
    let r = validate_graph(&graph(
        vec![plugin_node("a"), plugin_node("b"), plugin_node("c")],
        vec![("a", "b"), ("b", "c"), ("c", "a")],
    ));
    let cycle = r.iter().find(|e| e.code == "cycle").expect("cycle not reported");
    assert_eq!(cycle.node_ids.as_ref().unwrap().len(), 4);
}

#[test]
fn reported_cycle_starts_where_the_search_closes_it() {
    let r = validate_graph(&graph(
        vec![plugin_node("a"), plugin_node("b"), plugin_node("c")],
        vec![("a", "b"), ("b", "c"), ("c", "b")],
    ));
    let cycle = r.iter().find(|e| e.code == "cycle").expect("cycle not reported");
    assert_eq!(cycle.node_ids, Some(vec!["b".to_string(), "c".to_string(), "b".to_string()]));
}

#[test]
fn reported_cycle_is_the_search_path_from_the_smallest_id() {
    let r = validate_graph(&graph(
        vec![plugin_node("c"), plugin_node("b"), plugin_node("a")],
        vec![("b", "c"), ("c", "a"), ("a", "b")],
    ));
    assert_eq!(r.len(), 1);
    assert!(matches!(r[0].kind, GraphErrorKind::Fatal));
    assert_eq!(r[0].code, "cycle");
    assert_eq!(r[0].node_ids, Some(vec!["a".to_string(), "b".to_string(), "c".to_string(), "a".to_string()]));
    assert_eq!(r[0].edge_indices, None);
}

#[test]
fn duplicate_edge_is_warning() {
    let r = validate_graph(&graph(vec![plugin_node("a"), plugin_node("b")], vec![("a", "b"), ("a", "b")]));
    let w = r.iter().find(|e| e.code == "duplicate_edge").expect("dup edge not reported");
    assert!(matches!(w.kind, GraphErrorKind::Warning));
}

#[test]
fn orphan_node_is_warning() {
    let r = validate_graph(&graph(
        vec![plugin_node("a"), plugin_node("b"), plugin_node("c")],
        vec![("a", "b")],
    ));
    let w = r.iter().find(|e| e.code == "orphan_node").expect("orphan not reported");
    assert!(matches!(w.kind, GraphErrorKind::Warning));
    assert!(w.node_ids.as_ref().unwrap().contains(&"c".to_string()));
}

#[test]
fn single_node_no_orphan_warning() {
    let r = validate_graph(&graph(vec![plugin_node("solo")], vec![]));
    assert!(!has_code(&r, "orphan_node"));
}

#[test]
fn topo_waves_still_work_on_valid_graph() {
    let g = graph(vec![plugin_node("a"), plugin_node("b"), plugin_node("c")], vec![("a", "b"), ("b", "c")]);
    let waves = topological_waves(&g).unwrap();
    assert_eq!(waves.len(), 3);
}

#[test]
fn topo_waves_rejects_fatal_graph() {
    let g = graph(vec![plugin_node("a")], vec![("a", "ghost")]);
    let err = topological_waves(&g).unwrap_err();
    assert!(err.starts_with("InvalidGraph:"));
}

#[test]
fn saving_refuses_the_first_fatal_finding() {
    let cyclic = graph(
        vec![plugin_node("a"), plugin_node("b"), plugin_node("c")],
        vec![("a", "b"), ("b", "c"), ("c", "a")],
    );
    let first = validate_graph(&cyclic).into_iter().find(|e| matches!(e.kind, GraphErrorKind::Fatal)).unwrap();
    assert_eq!(check_savable(&cyclic), Err(format!("InvalidGraph: {}", first.message)));
    let dangling = graph(vec![plugin_node("a")], vec![("a", "ghost")]);
    assert!(check_savable(&dangling).unwrap_err().starts_with("InvalidGraph: "));
    let with_orphan = graph(vec![plugin_node("a"), plugin_node("b"), plugin_node("c")], vec![("a", "b")]);
    assert_eq!(check_savable(&with_orphan), Ok(()));
}

#[test]
fn graph_findings_display() {
    let e = GraphError::fatal("cycle", "x".to_string());
    assert_eq!(e.to_display_string(), "[fatal] cycle: x");
    assert_eq!(GraphError::warning("orphan_node", "y".to_string()).kind_str(), "warning");
    let r = validate_graph(&graph(vec![plugin_node("a")], vec![("a", "ghost"), ("a", "a")]));
    assert_eq!(r.iter().filter(|e| matches!(e.kind, GraphErrorKind::Fatal)).count(), 2);
    assert_eq!(r[0].code, "dangling_edge");
    assert_eq!(r[1].code, "self_loop");
}

// ---- waves ----

fn check_topo_single_node() {
    let g = make_graph(vec![("a", "plugin")], vec![]);
    let waves = topological_waves(&g).unwrap();
    assert_eq!(waves.len(), 1);
    assert_eq!(waves[0], vec!["a"]);
}

fn check_topo_chain() {
    let g = make_graph(vec![("a", "plugin"), ("b", "plugin"), ("c", "plugin")], vec![("a", "b"), ("b", "c")]);
    let waves = topological_waves(&g).unwrap();
    assert_eq!(waves.len(), 3);
    assert_eq!(waves[0], vec!["a"]);
    assert_eq!(waves[1], vec!["b"]);
    assert_eq!(waves[2], vec!["c"]);
}

fn check_topo_diamond() {
    let g = make_graph(
        vec![("a", "plugin"), ("b", "plugin"), ("c", "plugin"), ("d", "plugin")],
        vec![("a", "d"), ("b", "d"), ("c", "d")],
    );
    let waves = topological_waves(&g).unwrap();
    assert_eq!(waves.len(), 2);
    assert_eq!(waves[0].len(), 3);
    assert!(waves[0].contains(&"a".to_string()));
    assert!(waves[0].contains(&"b".to_string()));
    assert!(waves[0].contains(&"c".to_string()));
    assert_eq!(waves[1], vec!["d"]);
}

fn check_topo_cycle() {
    let g = make_graph(vec![("a", "plugin"), ("b", "plugin")], vec![("a", "b"), ("b", "a")]);
    let err = topological_waves(&g).unwrap_err();
    assert!(err.starts_with("CycleDetected"), "got {err}");
}

fn check_topo_empty() {
    let g = make_graph(vec![], vec![]);
    let waves = topological_waves(&g).unwrap();
    assert!(waves.is_empty());
}

#[test]
fn workflow_engine_topo_single_node() {
    check_topo_single_node();
}

#[test]
fn workflow_topo_topo_single_node() {
    check_topo_single_node();
}

#[test]
fn workflow_engine_topo_chain() {
    check_topo_chain();
}

#[test]
fn workflow_topo_topo_chain() {
    check_topo_chain();
}

#[test]
fn workflow_engine_topo_diamond_waves() {
    check_topo_diamond();
}

#[test]
fn workflow_topo_topo_diamond_waves() {
    check_topo_diamond();
}

#[test]
fn workflow_engine_topo_cycle_detected() {
    check_topo_cycle();
}

#[test]
fn workflow_topo_topo_cycle_detected() {
    check_topo_cycle();
}

#[test]
fn workflow_engine_topo_empty() {
    check_topo_empty();
}

#[test]
fn workflow_topo_topo_empty() {
    check_topo_empty();
}

#[test]
fn waves_follow_every_edge() {
    let g = make_graph(
        vec![("d", "plugin"), ("c", "plugin"), ("b", "plugin"), ("a", "plugin")],
        vec![("a", "b"), ("a", "c"), ("b", "d"), ("c", "d")],
    );
    let waves = topological_waves(&g).unwrap();
    assert_eq!(waves.len(), 3);
    assert_eq!(waves[0], vec!["a"]);
    let mut mid = waves[1].clone();
    mid.sort();
    assert_eq!(mid, vec!["b", "c"]);
    assert_eq!(waves[2], vec!["d"]);
}

// ---- trigger types ----

fn check_trigger_roundtrip() {
    for s in ["clipboard", "hotkey", "schedule", "manual", "plugin_event"] {
        let t = TriggerType::from_str(s).unwrap();
        assert_eq!(t.as_str(), s);
    }
    assert!(TriggerType::from_str("bogus").is_none());
}

#[test]
fn workflow_engine_trigger_type_roundtrip() {
    check_trigger_roundtrip();
}

#[test]
fn workflow_node_input_trigger_type_roundtrip() {
    check_trigger_roundtrip();
}

// ---- node input ----

#[test]
fn workflow_node_input_assemble_input_basic() {
    let prior = vec![("src".to_string(), parse(r#"{"formatted":"hello","length":5}"#))];
    let edge_maps = vec![vec![("src:formatted".to_string(), "content".to_string())]];
    let cfg = Some(parse(r#"{"extra":"config-value"}"#));
    let input = from_json(&assemble_input(&edge_maps, &prior, &parse("{}"), &cfg));
    assert_eq!(input["content"], "hello");
    assert_eq!(input["extra"], "config-value");
}

#[test]
fn workflow_node_input_assemble_input_trigger_source() {
    let prior: Vec<(String, Json)> = Vec::new();
    let edge_maps = vec![vec![("__trigger__".to_string(), "text".to_string())]];
    let input = from_json(&assemble_input(&edge_maps, &prior, &parse(r#"{"text":"clipboard data"}"#), &None));
    assert_eq!(input["text"], "clipboard data");
}

#[test]
fn assemble_input_legacy_field_and_defaults() {
    let prior = vec![
        ("x".to_string(), parse(r#"{"other":1}"#)),
        ("y".to_string(), parse(r#"{"len":5}"#)),
    ];
    let edge_maps = vec![vec![
        ("len".to_string(), "size".to_string()),
        ("missing".to_string(), "gone".to_string()),
        ("nosuch:len".to_string(), "n".to_string()),
    ]];
    let cfg = Some(parse(r#"{"size":99,"mode":"fast"}"#));
    let input = from_json(&assemble_input(&edge_maps, &prior, &parse("{}"), &cfg));
    assert_eq!(input["size"], 5);
    assert_eq!(input["gone"], serde_json::Value::Null);
    assert_eq!(input["n"], serde_json::Value::Null);
    assert_eq!(input["mode"], "fast");
}

// ---- runs ----

#[test]
fn disabled_workflows_run_only_by_hand() {
    assert!(check_enabled("wf", true, TriggerType::Schedule).is_ok());
    assert!(check_enabled("wf", false, TriggerType::Manual).is_ok());
    assert_eq!(
        check_enabled("wf-1", false, TriggerType::Clipboard).unwrap_err(),
        "WorkflowDisabled: workflow wf-1 is disabled (master switch off)"
    );
}

#[test]
fn node_plans() {
    let mut n = plugin_node("a");
    assert!(matches!(plan_node(&n), NodePlan::Invoke { .. }));
    n.action = None;
    match plan_node(&n) {
        NodePlan::Fail { error } => assert_eq!(error, "InvalidNode: missing action"),
        other => panic!("unexpected {other:?}"),
    }
    n.plugin_id = None;
    match plan_node(&n) {
        NodePlan::Fail { error } => assert_eq!(error, "InvalidNode: missing plugin_id"),
        other => panic!("unexpected {other:?}"),
    }
    n.node_type = "transform".to_string();
    assert!(matches!(plan_node(&n), NodePlan::Transform));
}

#[test]
fn wave_tasks_find_nodes_and_incoming_edges() {
    let g = graph(
        vec![plugin_node("a"), plugin_node("b"), plugin_node("c")],
        vec![("a", "c"), ("b", "c"), ("a", "b")],
    );
    let tasks = wave_tasks(&g, &vec!["c".to_string(), "ghost".to_string(), "b".to_string()]);
    assert_eq!(tasks.len(), 2);
    assert_eq!(tasks[0].node_index, 2);
    assert_eq!(tasks[0].edge_indices, vec![0, 1]);
    assert_eq!(tasks[1].node_index, 1);
    assert_eq!(tasks[1].edge_indices, vec![2]);
}

#[test]
fn run_state_folds_outcomes() {
    let g = graph(vec![plugin_node("a"), plugin_node("b"), plugin_node("c")], vec![("a", "b"), ("b", "c")]);
    let mut s = RunState::new();
    assert!(!s.stops());
    s.record(invoke_outcome("a".to_string(), Ok(parse("1"))));
    s.record(invoke_outcome("a".to_string(), Ok(parse("2"))));
    assert_eq!(s.outputs.len(), 1);
    assert_eq!(from_json(&s.outputs[0].1), serde_json::Value::from(2));
    assert!(s.has_output(&"a".to_string()));
    assert_eq!(s.pending_nodes(&g), vec![1, 2]);
    s.record(NodeOutcome::Skipped { node_id: "b".to_string() });
    assert!(!s.stops());
    s.record(invoke_outcome("b".to_string(), Err("boom".to_string())));
    assert!(s.stops());
    assert_eq!(s.outcome.status, "failed");
    assert_eq!(s.outcome.error.as_deref(), Some("boom"));
    assert_eq!(s.pending_nodes(&g), vec![1, 2]);
}

#[test]
fn cancelled_runs_stop() {
    let mut s = RunState::new();
    s.cancel();
    assert!(s.stops());
    assert_eq!(s.outcome.status, "cancelled");
    assert_eq!(s.outcome.error.as_deref(), Some("cancelled by user"));
}

#[test]
fn dry_run_step_records() {
    let n = plugin_node("a");
    let ok = dry_step_log(&n, &NodeOutcome::Success { node_id: "a".to_string(), output: parse("1") }, Some("1".to_string()), 7);
    assert_eq!(ok.status, "success");
    assert_eq!(ok.output.as_deref(), Some("1"));
    assert_eq!(ok.plugin_id.as_deref(), Some("p"));
    assert_eq!(ok.duration_ms, Some(7));
    let failed = dry_step_log(&n, &NodeOutcome::Failure { node_id: "a".to_string(), error: "e".to_string() }, None, 3);
    assert_eq!(failed.status, "failed");
    assert_eq!(failed.error.as_deref(), Some("e"));
    let skipped = dry_step_log(&n, &NodeOutcome::Skipped { node_id: "a".to_string() }, None, 0);
    assert_eq!(skipped.status, "skipped");
    assert_eq!(skipped.plugin_id, None);
}

#[test]
fn runnable_reports_have_no_fatal_finding() {
    let ok = validate_graph(&graph(vec![plugin_node("a"), plugin_node("b"), plugin_node("c")], vec![("a", "b")]));
    assert!(!ok.is_empty());
    assert!(is_runnable(&ok));
    let bad = validate_graph(&graph(vec![plugin_node("a")], vec![("a", "a")]));
    assert!(!is_runnable(&bad));
    assert!(default_true());
}

#[test]
fn workflow_engine_assemble_input_basic() {
    let prior = vec![("src".to_string(), parse(r#"{"formatted":"hello","length":5}"#))];
    let bindings = vec![DataBinding {
        from: "src".to_string(),
        output: "formatted".to_string(),
        to: "dst".to_string(),
        input: "content".to_string(),
    }];
    let cfg = Some(parse(r#"{"extra":"config-value"}"#));
    let input = from_json(&assemble_bindings(&bindings, &prior, &parse("{}"), &cfg));
    assert_eq!(input["content"], "hello");
    assert_eq!(input["extra"], "config-value");
}

#[test]
fn workflow_engine_assemble_input_trigger_source() {
    let prior: Vec<(String, Json)> = Vec::new();
    let bindings = vec![DataBinding {
        from: "__trigger__".to_string(),
        output: "text".to_string(),
        to: "node".to_string(),
        input: "content".to_string(),
    }];
    let input = from_json(&assemble_bindings(&bindings, &prior, &parse(r#"{"text":"clipboard data"}"#), &None));
    assert_eq!(input["content"], "clipboard data");
}

#[test]
fn bindings_fill_null_and_keep_config_as_default() {
    let prior = vec![("src".to_string(), parse(r#"{"a":1}"#))];
    let bindings = vec![
        DataBinding { from: "src".to_string(), output: "a".to_string(), to: "n".to_string(), input: "x".to_string() },
        DataBinding { from: "nosuch".to_string(), output: "a".to_string(), to: "n".to_string(), input: "y".to_string() },
    ];
    let cfg = Some(parse(r#"{"x":9,"z":3}"#));
    let input = from_json(&assemble_bindings(&bindings, &prior, &parse("{}"), &cfg));
    assert_eq!(input["x"], 1);
    assert_eq!(input["y"], serde_json::Value::Null);
    assert_eq!(input["z"], 3);
}
