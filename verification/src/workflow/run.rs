//! The decisions of a workflow run: whether it may start, which node runs
//! with which edges in a wave, what a node does, how node outcomes fold into
//! the run's state, when the run stops, and which nodes are then skipped.
//! Awaiting nodes, the database and timers is the caller's part.
use vstd::prelude::*;
use crate::json::{Json, JsonView};
use crate::text::{concat3, str_eq};
use crate::workflow::input::{outputs_view, key_index, set_member};
use crate::workflow::model::{
    NodeOutcome, RunOutcome, TriggerType, WorkflowGraph, WorkflowNode, WorkflowStepLog,
};
use crate::workflow::topo::{idx_upto, to_of};

verus! {

/// A disabled workflow only runs when started by hand.
pub fn check_enabled(workflow_id: &str, is_enabled: bool, trigger_type: TriggerType) -> (r: Result<(), String>)
    ensures
        r is Ok <==> (is_enabled || trigger_type == TriggerType::Manual),
        r matches Err(e) ==> e@ == "WorkflowDisabled: workflow "@ + workflow_id@ + " is disabled (master switch off)"@,
{
    if !is_enabled && trigger_type != TriggerType::Manual {
        Err(concat3("WorkflowDisabled: workflow ", workflow_id, " is disabled (master switch off)"))
    } else {
        Ok(())
    }
}

// ------------------------------------------------------------------
// Wave tasks
// ------------------------------------------------------------------

/// The first node with id `id`, if any.
pub open spec fn first_node(g: WorkflowGraph, id: Seq<char>) -> Option<int> {
    if exists|i: int| 0 <= i < g.nodes@.len() && g.nodes@[i].id@ == id {
        Some(choose|i: int| 0 <= i < g.nodes@.len() && g.nodes@[i].id@ == id && forall|j: int| 0 <= j < i ==> g.nodes@[j].id@ != id)
    } else {
        None
    }
}

/// Indices of the edges into `id`, in edge order.
pub open spec fn edges_into(g: WorkflowGraph, id: Seq<char>) -> Seq<usize> {
    idx_upto(g.edges@.len() as int, |i: int| to_of(g, i) == id)
}

/// One node of a wave: where it stands among the nodes, and the edges into it.
#[derive(Debug)]
pub struct NodeTask {
    pub node_index: usize,
    pub edge_indices: Vec<usize>,
}

/// The task for each id of a wave that names a node (ids naming no node are
/// passed over): the first node with that id and the edges into it in edge
/// order.
pub open spec fn wave_tasks_spec(g: WorkflowGraph, wave: Seq<Seq<char>>) -> Seq<(int, Seq<usize>)>
    decreases wave.len(),
{
    if wave.len() == 0 {
        Seq::empty()
    } else {
        let rest = wave_tasks_spec(g, wave.drop_last());
        match first_node(g, wave.last()) {
            Some(i) => rest.push((i, edges_into(g, wave.last()))),
            None => rest,
        }
    }
}

pub open spec fn tasks_view(t: Seq<NodeTask>) -> Seq<(int, Seq<usize>)> {
    t.map_values(|x: NodeTask| (x.node_index as int, x.edge_indices@))
}

fn find_node(g: &WorkflowGraph, id: &String) -> (r: Option<usize>)
    ensures
        match r {
            Some(i) => first_node(*g, id@) == Some(i as int),
            None => first_node(*g, id@) is None,
        },
{
    let n = g.nodes.len();
    for i in 0..n
        invariant
            n == g.nodes@.len(),
            forall|j: int| 0 <= j < i ==> g.nodes@[j].id@ != id@,
    {
        if str_eq(g.nodes[i].id.as_str(), id.as_str()) {
            proof {
                let k = choose|k: int| 0 <= k < g.nodes@.len() && g.nodes@[k].id@ == id@ && forall|j: int| 0 <= j < k ==> g.nodes@[j].id@ != id@;
                assert(k == i) by {
                    if k < i {
                    } else if k > i {
                        assert(g.nodes@[i as int].id@ != id@);
                    }
                }
            }
            return Some(i);
        }
    }
    None
}

fn edges_into_exec(g: &WorkflowGraph, id: &String) -> (r: Vec<usize>)
    ensures
        r@ == edges_into(*g, id@),
{
    let m = g.edges.len();
    let mut r: Vec<usize> = Vec::new();
    for i in 0..m
        invariant
            m == g.edges@.len(),
            r@ == idx_upto(i as int, |k: int| to_of(*g, k) == id@),
    {
        if str_eq(g.edges[i].to.as_str(), id.as_str()) {
            r.push(i);
        }
    }
    r
}

/// The tasks of one wave.
pub fn wave_tasks(graph: &WorkflowGraph, wave: &Vec<String>) -> (r: Vec<NodeTask>)
    ensures
        tasks_view(r@) == wave_tasks_spec(*graph, crate::order::views(wave@)),
{
    let ghost wv = crate::order::views(wave@);
    let n = wave.len();
    let mut r: Vec<NodeTask> = Vec::new();
    for k in 0..n
        invariant
            n == wave@.len(),
            wv == crate::order::views(wave@),
            tasks_view(r@) == wave_tasks_spec(*graph, wv.take(k as int)),
    {
        assert(wv.take(k + 1).drop_last() =~= wv.take(k as int));
        assert(wv.take(k + 1).last() == wave@[k as int]@);
        let ghost before = tasks_view(r@);
        match find_node(graph, &wave[k]) {
            Some(i) => {
                let edges = edges_into_exec(graph, &wave[k]);
                r.push(NodeTask { node_index: i, edge_indices: edges });
                assert(tasks_view(r@) =~= before.push((i as int, edges_into(*graph, wave@[k as int]@))));
            },
            None => {},
        }
    }
    assert(wv.take(n as int) =~= wv);
    r
}

// ------------------------------------------------------------------
// One node
// ------------------------------------------------------------------

/// What running a node takes.
#[derive(Debug)]
pub enum NodePlan {
    /// Render the node's template.
    Transform,
    /// The node cannot run.
    Fail { error: String },
    /// Invoke a plugin action.
    Invoke { plugin_id: String, action: String },
}

/// What a node does: a `transform` node renders its template; any other node
/// invokes its plugin's action, and fails without a plugin id or an action.
pub fn plan_node(node: &WorkflowNode) -> (r: NodePlan)
    ensures
        node.node_type@ == "transform"@ ==> r is Transform,
        node.node_type@ != "transform"@ ==> match r {
            NodePlan::Transform => false,
            NodePlan::Fail { error } => match node.plugin_id {
                None => error@ == "InvalidNode: missing plugin_id"@,
                Some(_) => node.action is None && error@ == "InvalidNode: missing action"@,
            },
            NodePlan::Invoke { plugin_id, action } =>
                (node.plugin_id matches Some(p) && p@ == plugin_id@) && (node.action matches Some(a) && a@ == action@),
        },
{
    if str_eq(node.node_type.as_str(), "transform") {
        return NodePlan::Transform;
    }
    let plugin_id = match &node.plugin_id {
        Some(p) => p.clone(),
        None => return NodePlan::Fail { error: "InvalidNode: missing plugin_id".to_owned() },
    };
    let action = match &node.action {
        Some(a) => a.clone(),
        None => return NodePlan::Fail { error: "InvalidNode: missing action".to_owned() },
    };
    NodePlan::Invoke { plugin_id, action }
}

/// The outcome of a plugin invocation.
pub fn invoke_outcome(node_id: String, result: Result<Json, String>) -> (r: NodeOutcome)
    ensures
        match result {
            Ok(v) => r == NodeOutcome::Success { node_id, output: v },
            Err(e) => r == NodeOutcome::Failure { node_id, error: e },
        },
{
    match result {
        Ok(output) => NodeOutcome::Success { node_id, output },
        Err(error) => NodeOutcome::Failure { node_id, error },
    }
}

// ------------------------------------------------------------------
// The run
// ------------------------------------------------------------------

/// The state of a run between waves: its outcome so far and the output of
/// every node that succeeded.
#[derive(Debug)]
pub struct RunState {
    pub outcome: RunOutcome,
    pub outputs: Vec<(String, Json)>,
}

/// No node id appears twice among the outputs.
pub open spec fn keys_unique(o: Seq<(Seq<char>, JsonView)>) -> bool {
    forall|i: int, j: int| 0 <= i < j < o.len() ==> (#[trigger] o[i]).0 != (#[trigger] o[j]).0
}

impl RunState {
    pub open spec fn wf(&self) -> bool {
        &&& keys_unique(outputs_view(self.outputs@))
        &&& (self.outcome.status@ == "success"@ || self.outcome.status@ == "failed"@ || self.outcome.status@ == "cancelled"@)
    }

    /// A fresh run: successful so far, no outputs.
    pub fn new() -> (s: RunState)
        ensures
            s.wf(),
            s.outcome.status@ == "success"@,
            s.outcome.error is None,
            s.outputs@.len() == 0,
    {
        RunState { outcome: RunOutcome { status: "success", error: None }, outputs: Vec::new() }
    }

    /// Folds one node outcome in: a success records (or replaces) the node's
    /// output, a failure marks the run failed with that error, a skip changes
    /// nothing.
    pub fn record(&mut self, outcome: NodeOutcome)
        requires
            old(self).wf(),
        ensures
            final(self).wf(),
            match outcome {
                NodeOutcome::Success { node_id, output } => {
                    &&& outputs_view(final(self).outputs@) == set_member(outputs_view(old(self).outputs@), node_id@, output@)
                    &&& final(self).outcome == old(self).outcome
                },
                NodeOutcome::Failure { node_id, error } => {
                    &&& final(self).outputs@ == old(self).outputs@
                    &&& final(self).outcome.status@ == "failed"@
                    &&& final(self).outcome.error matches Some(e) && e@ == error@
                },
                NodeOutcome::Skipped { .. } => *final(self) == *old(self),
            },
            old(self).outcome.status@ != "success"@ ==> final(self).outcome.status@ != "success"@,
    {
        match outcome {
            NodeOutcome::Success { node_id, output } => {
                let ghost before = outputs_view(self.outputs@);
                let ghost kv = node_id@;
                let ghost vv = output@;
                let mut k: usize = 0;
                let n = self.outputs.len();
                proof {
                    crate::workflow::input::lemma_key_index(before, kv);
                }
                while k < n
                    invariant
                        n == self.outputs@.len(),
                        before == outputs_view(self.outputs@),
                        kv == node_id@,
                        k <= key_index(before, kv),
                        0 <= key_index(before, kv) <= before.len(),
                        key_index(before, kv) < before.len() ==> before[key_index(before, kv)].0 == kv,
                        forall|j: int| 0 <= j < key_index(before, kv) ==> (#[trigger] before[j]).0 != kv,
                    ensures
                        k <= key_index(before, kv),
                        k < n ==> before[k as int].0 == kv,
                        k <= n,
                    decreases n - k,
                {
                    if str_eq(self.outputs[k].0.as_str(), node_id.as_str()) {
                        assert(before[k as int].0 == kv);
                        break;
                    }
                    k = k + 1;
                }
                assert(k == key_index(before, kv)) by {
                    if k < n {
                        if k < key_index(before, kv) {
                            assert(before[k as int].0 != kv);
                        }
                    }
                }
                if k < n {
                    self.outputs.set(k, (node_id, output));
                } else {
                    self.outputs.push((node_id, output));
                }
                proof {
                    assert(outputs_view(self.outputs@) =~= set_member(before, kv, vv));
                    let o = outputs_view(self.outputs@);
                    assert forall|i: int, j: int| 0 <= i < j < o.len() implies (#[trigger] o[i]).0 != (#[trigger] o[j]).0 by {
                        if i != k && j != k {
                            assert(o[i] == before[i] && o[j] == before[j]);
                        } else if i == k {
                            if j < before.len() {
                                assert(o[j] == before[j]);
                            }
                        } else {
                            assert(o[i] == before[i]);
                        }
                    }
                }
            },
            NodeOutcome::Failure { node_id, error } => {
                self.outcome = RunOutcome { status: "failed", error: Some(error) };
                proof {
                    reveal_strlit("failed");
                    reveal_strlit("success");
                    assert("failed"@[0] != "success"@[0]);
                }
            },
            NodeOutcome::Skipped { .. } => {},
        }
    }

    /// Marks the run cancelled by the user.
    pub fn cancel(&mut self)
        requires
            old(self).wf(),
        ensures
            final(self).wf(),
            final(self).outputs@ == old(self).outputs@,
            final(self).outcome.status@ == "cancelled"@,
            final(self).outcome.error matches Some(e) && e@ == "cancelled by user"@,
    {
        self.outcome = RunOutcome { status: "cancelled", error: Some("cancelled by user".to_owned()) };
    }

    /// Whether the run stops after the current wave (it failed or was
    /// cancelled); the remaining nodes are then recorded as skipped.
    pub fn stops(&self) -> (b: bool)
        requires
            self.wf(),
        ensures
            b == (self.outcome.status@ != "success"@),
    {
        proof {
            reveal_strlit("success");
            reveal_strlit("failed");
            reveal_strlit("cancelled");
        }
        !str_eq(self.outcome.status, "success")
    }

    /// Whether node `id` has an output.
    pub fn has_output(&self, id: &String) -> (b: bool)
        ensures
            b == (key_index(outputs_view(self.outputs@), id@) < self.outputs@.len()),
    {
        let ghost o = outputs_view(self.outputs@);
        proof {
            crate::workflow::input::lemma_key_index(o, id@);
        }
        let n = self.outputs.len();
        for k in 0..n
            invariant
                n == self.outputs@.len(),
                o == outputs_view(self.outputs@),
                k <= key_index(o, id@),
                0 <= key_index(o, id@) <= o.len(),
                key_index(o, id@) < o.len() ==> o[key_index(o, id@)].0 == id@,
                forall|j: int| 0 <= j < key_index(o, id@) ==> (#[trigger] o[j]).0 != id@,
        {
            if str_eq(self.outputs[k].0.as_str(), id.as_str()) {
                assert(o[k as int].0 == id@);
                return true;
            }
        }
        false
    }

    /// Indices of the nodes without an output, in node order: the ones to
    /// record as skipped when the run stops early.
    pub fn pending_nodes(&self, graph: &WorkflowGraph) -> (r: Vec<usize>)
        ensures
            r@ == idx_upto(graph.nodes@.len() as int, |i: int| key_index(outputs_view(self.outputs@), graph.nodes@[i].id@) >= self.outputs@.len()),
    {
        let n = graph.nodes.len();
        let mut r: Vec<usize> = Vec::new();
        for i in 0..n
            invariant
                n == graph.nodes@.len(),
                r@ == idx_upto(i as int, |k: int| key_index(outputs_view(self.outputs@), graph.nodes@[k].id@) >= self.outputs@.len()),
        {
            if !self.has_output(&graph.nodes[i].id) {
                r.push(i);
            }
        }
        r
    }
}

// ------------------------------------------------------------------
// Dry-run step records
// ------------------------------------------------------------------

/// The step record of a dry run for one node outcome; `output_text` is the
/// serialized output of a success.
pub fn dry_step_log(node: &WorkflowNode, outcome: &NodeOutcome, output_text: Option<String>, duration_ms: i64) -> (s: WorkflowStepLog)
    ensures
        s.id == 0 && s.run_id == 0 && s.input is None && s.duration_ms == Some(duration_ms) && s.created_at@.len() == 0,
        match outcome {
            NodeOutcome::Success { node_id, .. } => {
                &&& s.step_id@ == node_id@ && s.status@ == "success"@
                &&& s.plugin_id == node.plugin_id && s.action == node.action
                &&& s.output == output_text && s.error is None
            },
            NodeOutcome::Failure { node_id, error } => {
                &&& s.step_id@ == node_id@ && s.status@ == "failed"@
                &&& s.plugin_id == node.plugin_id && s.action == node.action
                &&& s.output is None
                &&& s.error matches Some(e) && e@ == error@
            },
            NodeOutcome::Skipped { node_id } => {
                &&& s.step_id@ == node_id@ && s.status@ == "skipped"@
                &&& s.plugin_id is None && s.action is None
                &&& s.output is None && s.error is None
            },
        },
{
    match outcome {
        NodeOutcome::Success { node_id, .. } => WorkflowStepLog {
            id: 0,
            run_id: 0,
            step_id: node_id.clone(),
            plugin_id: node.plugin_id.clone(),
            action: node.action.clone(),
            status: "success".to_owned(),
            input: None,
            output: output_text,
            error: None,
            duration_ms: Some(duration_ms),
            created_at: String::new(),
        },
        NodeOutcome::Failure { node_id, error } => WorkflowStepLog {
            id: 0,
            run_id: 0,
            step_id: node_id.clone(),
            plugin_id: node.plugin_id.clone(),
            action: node.action.clone(),
            status: "failed".to_owned(),
            input: None,
            output: None,
            error: Some(error.clone()),
            duration_ms: Some(duration_ms),
            created_at: String::new(),
        },
        NodeOutcome::Skipped { node_id } => WorkflowStepLog {
            id: 0,
            run_id: 0,
            step_id: node_id.clone(),
            plugin_id: None,
            action: None,
            status: "skipped".to_owned(),
            input: None,
            output: None,
            error: None,
            duration_ms: Some(duration_ms),
            created_at: String::new(),
        },
    }
}


} // verus!
