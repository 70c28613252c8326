//! Workflow data model: triggers, the DAG, run records and graph validation
//! errors.
use vstd::prelude::*;
use crate::json::Json;
use crate::order::views;
use crate::text::str_eq;

verus! {

// ------------------------------------------------------------------
// Triggers
// ------------------------------------------------------------------

/// What starts a workflow run.
#[derive(Debug, Clone, Copy, PartialEq, Eq, Structural)]
pub enum TriggerType {
    Clipboard,
    Hotkey,
    Schedule,
    Manual,
    PluginEvent,
}

/// The wire name of a trigger type.
pub open spec fn trigger_name(t: TriggerType) -> Seq<char> {
    match t {
        TriggerType::Clipboard => "clipboard"@,
        TriggerType::Hotkey => "hotkey"@,
        TriggerType::Schedule => "schedule"@,
        TriggerType::Manual => "manual"@,
        TriggerType::PluginEvent => "plugin_event"@,
    }
}

/// The trigger type with a given wire name.
pub open spec fn trigger_from_name(s: Seq<char>) -> Option<TriggerType> {
    if s == "clipboard"@ {
        Some(TriggerType::Clipboard)
    } else if s == "hotkey"@ {
        Some(TriggerType::Hotkey)
    } else if s == "schedule"@ {
        Some(TriggerType::Schedule)
    } else if s == "manual"@ {
        Some(TriggerType::Manual)
    } else if s == "plugin_event"@ {
        Some(TriggerType::PluginEvent)
    } else {
        None
    }
}

impl TriggerType {
    pub fn as_str(self) -> (r: &'static str)
        ensures
            r@ == trigger_name(self),
    {
        match self {
            TriggerType::Clipboard => "clipboard",
            TriggerType::Hotkey => "hotkey",
            TriggerType::Schedule => "schedule",
            TriggerType::Manual => "manual",
            TriggerType::PluginEvent => "plugin_event",
        }
    }

    pub fn from_str(s: &str) -> (r: Option<TriggerType>)
        ensures
            r == trigger_from_name(s@),
    {
        if str_eq(s, "clipboard") {
            Some(TriggerType::Clipboard)
        } else if str_eq(s, "hotkey") {
            Some(TriggerType::Hotkey)
        } else if str_eq(s, "schedule") {
            Some(TriggerType::Schedule)
        } else if str_eq(s, "manual") {
            Some(TriggerType::Manual)
        } else if str_eq(s, "plugin_event") {
            Some(TriggerType::PluginEvent)
        } else {
            None
        }
    }
}

/// Reading back the wire name of a trigger type gives the same type.
pub proof fn lemma_trigger_name_roundtrip(t: TriggerType)
    ensures
        trigger_from_name(trigger_name(t)) == Some(t),
{
    reveal_strlit("clipboard");
    reveal_strlit("hotkey");
    reveal_strlit("schedule");
    reveal_strlit("manual");
    reveal_strlit("plugin_event");
    assert("clipboard"@.len() == 9);
    assert("hotkey"@.len() == 6 && "hotkey"@[0] == 'h');
    assert("schedule"@.len() == 8);
    assert("manual"@.len() == 6 && "manual"@[0] == 'm');
    assert("plugin_event"@.len() == 12);
}

/// Only wire names of trigger types are accepted, and each names its type.
pub proof fn lemma_trigger_from_name_inverse(s: Seq<char>)
    ensures
        trigger_from_name(s) matches Some(t) ==> trigger_name(t) == s,
{
}

/// An entry of the in-memory trigger registry.
#[derive(Debug)]
pub struct TriggerEntry {
    pub trigger_type: TriggerType,
    pub config: Json,
    pub workflow_id: String,
}

/// A stored trigger configuration.
#[derive(Debug)]
pub struct WorkflowTrigger {
    pub id: String,
    pub workflow_id: String,
    pub trigger_type: String,
    pub config: Json,
    pub is_enabled: bool,
}

/// The default of `is_enabled` when a stored trigger omits it.
pub fn default_true() -> (b: bool)
    ensures
        b,
{
    true
}

// ------------------------------------------------------------------
// The DAG
// ------------------------------------------------------------------

/// Current graph schema version.
pub const CURRENT_GRAPH_VERSION: i32 = 1;

#[derive(Debug)]
pub struct WorkflowGraph {
    pub nodes: Vec<WorkflowNode>,
    pub edges: Vec<WorkflowEdge>,
    pub bindings: Vec<DataBinding>,
}

#[derive(Debug)]
pub struct WorkflowNode {
    pub id: String,
    pub node_type: String,
    pub plugin_id: Option<String>,
    pub action: Option<String>,
    pub config: Option<Json>,
}

/// An edge; `map` pairs an upstream output field with a downstream input field.
#[derive(Debug)]
pub struct WorkflowEdge {
    pub from: String,
    pub to: String,
    pub map: Vec<(String, String)>,
}

#[derive(Debug)]
pub struct DataBinding {
    pub from: String,
    pub output: String,
    pub to: String,
    pub input: String,
}

#[derive(Debug)]
pub struct Workflow {
    pub id: String,
    pub name: String,
    pub description: Option<String>,
    pub graph: WorkflowGraph,
    pub schema_version: i32,
    pub is_enabled: bool,
    pub created_at: Option<String>,
    pub updated_at: Option<String>,
}

// ------------------------------------------------------------------
// Run records
// ------------------------------------------------------------------

#[derive(Debug)]
pub struct WorkflowRun {
    pub id: i64,
    pub workflow_id: String,
    pub trigger_type: Option<String>,
    pub status: String,
    pub error: Option<String>,
    pub started_at: String,
    pub finished_at: Option<String>,
}

#[derive(Debug)]
pub struct WorkflowStepLog {
    pub id: i64,
    pub run_id: i64,
    pub step_id: String,
    pub plugin_id: Option<String>,
    pub action: Option<String>,
    pub status: String,
    pub input: Option<String>,
    pub output: Option<String>,
    pub error: Option<String>,
    pub duration_ms: Option<i64>,
    pub created_at: String,
}

// ------------------------------------------------------------------
// Graph validation errors
// ------------------------------------------------------------------

/// Severity of a validation finding.
#[derive(Debug, Clone, Copy, PartialEq, Eq, Structural)]
pub enum GraphErrorKind {
    /// The graph cannot run.
    Fatal,
    /// The graph runs but is suspicious.
    Warning,
}

/// One validation finding.
#[derive(Debug)]
pub struct GraphError {
    pub kind: GraphErrorKind,
    pub code: String,
    pub message: String,
    pub node_ids: Option<Vec<String>>,
    pub edge_indices: Option<Vec<usize>>,
}

/// A validation finding as plain values.
pub struct GraphErrorView {
    pub kind: GraphErrorKind,
    pub code: Seq<char>,
    pub message: Seq<char>,
    pub node_ids: Option<Seq<Seq<char>>>,
    pub edge_indices: Option<Seq<usize>>,
}

impl View for GraphError {
    type V = GraphErrorView;

    open spec fn view(&self) -> GraphErrorView {
        GraphErrorView {
            kind: self.kind,
            code: self.code@,
            message: self.message@,
            node_ids: match self.node_ids {
                Some(v) => Some(views(v@)),
                None => None,
            },
            edge_indices: match self.edge_indices {
                Some(v) => Some(v@),
                None => None,
            },
        }
    }
}

/// The views of a list of findings.
pub open spec fn report_view(r: Seq<GraphError>) -> Seq<GraphErrorView> {
    r.map_values(|e: GraphError| e@)
}

pub open spec fn kind_name(k: GraphErrorKind) -> Seq<char> {
    match k {
        GraphErrorKind::Fatal => "fatal"@,
        GraphErrorKind::Warning => "warning"@,
    }
}

impl GraphError {
    pub fn kind_str(&self) -> (r: &'static str)
        ensures
            r@ == kind_name(self.kind),
    {
        match self.kind {
            GraphErrorKind::Fatal => "fatal",
            GraphErrorKind::Warning => "warning",
        }
    }

    /// A fatal finding with no affected nodes or edges recorded.
    pub fn fatal(code: &str, message: String) -> (e: GraphError)
        ensures
            e@ == (GraphErrorView { kind: GraphErrorKind::Fatal, code: code@, message: message@, node_ids: None, edge_indices: None }),
    {
        GraphError { kind: GraphErrorKind::Fatal, code: code.to_owned(), message, node_ids: None, edge_indices: None }
    }

    /// A warning with no affected nodes or edges recorded.
    pub fn warning(code: &str, message: String) -> (e: GraphError)
        ensures
            e@ == (GraphErrorView { kind: GraphErrorKind::Warning, code: code@, message: message@, node_ids: None, edge_indices: None }),
    {
        GraphError { kind: GraphErrorKind::Warning, code: code.to_owned(), message, node_ids: None, edge_indices: None }
    }

    /// Records the affected nodes.
    pub fn with_nodes(self, ids: Vec<String>) -> (e: GraphError)
        ensures
            e@ == (GraphErrorView { node_ids: Some(views(ids@)), ..self@ }),
    {
        GraphError { node_ids: Some(ids), ..self }
    }

    /// Records the affected edges.
    pub fn with_edge_indices(self, idx: Vec<usize>) -> (e: GraphError)
        ensures
            e@ == (GraphErrorView { edge_indices: Some(idx@), ..self@ }),
    {
        GraphError { edge_indices: Some(idx), ..self }
    }

    /// The display form `[kind] code: message`.
    pub fn to_display_string(&self) -> (s: String)
        ensures
            s@ == "["@ + kind_name(self.kind) + "] "@ + self.code@ + ": "@ + self.message@,
    {
        let mut s = "[".to_owned();
        s.append(self.kind_str());
        s.append("] ");
        s.append(self.code.as_str());
        s.append(": ");
        s.append(self.message.as_str());
        s
    }
}

/// No finding is fatal.
pub open spec fn runnable(r: Seq<GraphErrorView>) -> bool {
    forall|i: int| 0 <= i < r.len() ==> (#[trigger] r[i]).kind != GraphErrorKind::Fatal
}

/// Whether a validated graph may run: it has no fatal finding.
pub fn is_runnable(report: &Vec<GraphError>) -> (b: bool)
    ensures
        b == runnable(report_view(report@)),
{
    let n = report.len();
    for i in 0..n
        invariant
            n == report@.len(),
            forall|j: int| 0 <= j < i ==> report@[j].kind != GraphErrorKind::Fatal,
    {
        if report[i].kind == GraphErrorKind::Fatal {
            assert(report_view(report@)[i as int].kind == GraphErrorKind::Fatal);
            return false;
        }
    }
    true
}

// ------------------------------------------------------------------
// Execution outcomes
// ------------------------------------------------------------------

/// The outcome of one node.
#[derive(Debug)]
pub enum NodeOutcome {
    Success { node_id: String, output: Json },
    Failure { node_id: String, error: String },
    Skipped { node_id: String },
}

/// The terminal outcome of a run.
#[derive(Debug)]
pub struct RunOutcome {
    pub status: &'static str,
    pub error: Option<String>,
}

} // verus!
