//! Workflow graph validation (duplicate ids, dangling edges, repeated edges,
//! self-loops, cycles, orphan nodes) and execution waves.
use vstd::prelude::*;
use crate::order::{
    distinct, lex_lt, sorted_enum, sort_distinct_strings, strictly_sorted, views,
    lemma_sorted_enum_is, lemma_strictly_sorted_distinct,
};
use crate::text::{concat2, concat3, decimal, join, join_strings, str_eq, u64_to_decimal};
use crate::workflow::graph::{
    adj_edge, adj_wf, edges_wf, find_cycle, has_edge_ranking, has_ranking, in_waves, increasing,
    is_cycle, is_edge_ranking, is_ranking, layered, has_pred_before, waves,
};
use crate::workflow::model::{
    GraphError, GraphErrorKind, GraphErrorView, WorkflowEdge, WorkflowGraph, WorkflowNode,
    report_view, runnable,
};

verus! {

// ------------------------------------------------------------------
// The graph as plain values
// ------------------------------------------------------------------

/// Node ids in node order.
pub open spec fn ids_of(g: WorkflowGraph) -> Seq<Seq<char>> {
    g.nodes@.map_values(|n: WorkflowNode| n.id@)
}

pub open spec fn from_of(g: WorkflowGraph, i: int) -> Seq<char> {
    g.edges@[i].from@
}

pub open spec fn to_of(g: WorkflowGraph, i: int) -> Seq<char> {
    g.edges@[i].to@
}

pub open spec fn is_node(g: WorkflowGraph, s: Seq<char>) -> bool {
    ids_of(g).contains(s)
}

/// Edge `i` names a node that does not exist.
pub open spec fn dangling(g: WorkflowGraph, i: int) -> bool {
    !is_node(g, from_of(g, i)) || !is_node(g, to_of(g, i))
}

/// Edge `i` goes from a node to itself.
pub open spec fn self_loop(g: WorkflowGraph, i: int) -> bool {
    from_of(g, i) == to_of(g, i)
}

/// An earlier edge has the same endpoints as edge `i`.
pub open spec fn repeated_edge(g: WorkflowGraph, i: int) -> bool {
    exists|j: int| 0 <= j < i && #[trigger] from_of(g, j) == from_of(g, i) && to_of(g, j) == to_of(g, i)
}

/// Edge `i` joins two distinct existing nodes.
pub open spec fn live(g: WorkflowGraph, i: int) -> bool {
    !dangling(g, i) && !self_loop(g, i)
}

/// The indices below `m` satisfying `f`, in increasing order.
pub open spec fn idx_upto(m: int, f: spec_fn(int) -> bool) -> Seq<usize>
    decreases m,
{
    if m <= 0 {
        Seq::empty()
    } else if f(m - 1) {
        idx_upto(m - 1, f).push((m - 1) as usize)
    } else {
        idx_upto(m - 1, f)
    }
}

pub open spec fn dangling_upto(g: WorkflowGraph, m: int) -> Seq<usize> {
    idx_upto(m, |i: int| dangling(g, i))
}

pub open spec fn repeated_upto(g: WorkflowGraph, m: int) -> Seq<usize> {
    idx_upto(m, |i: int| repeated_edge(g, i))
}

pub open spec fn self_loop_upto(g: WorkflowGraph, m: int) -> Seq<usize> {
    idx_upto(m, |i: int| self_loop(g, i))
}

pub open spec fn live_upto(g: WorkflowGraph, m: int) -> Seq<usize> {
    idx_upto(m, |i: int| live(g, i))
}

/// Indices of the dangling edges.
pub open spec fn dangling_idx(g: WorkflowGraph) -> Seq<usize> {
    dangling_upto(g, g.edges@.len() as int)
}

/// Indices of the edges repeating an earlier edge.
pub open spec fn repeated_idx(g: WorkflowGraph) -> Seq<usize> {
    repeated_upto(g, g.edges@.len() as int)
}

/// Indices of the self-loops.
pub open spec fn self_loop_idx(g: WorkflowGraph) -> Seq<usize> {
    self_loop_upto(g, g.edges@.len() as int)
}

/// Indices of the live edges.
pub open spec fn live_idx(g: WorkflowGraph) -> Seq<usize> {
    live_upto(g, g.edges@.len() as int)
}

/// Some node id occurs twice.
pub open spec fn has_dup_ids(g: WorkflowGraph) -> bool {
    !distinct(ids_of(g))
}

/// The ids that occur more than once.
pub open spec fn dup_id_set(g: WorkflowGraph) -> Set<Seq<char>> {
    Set::new(|s: Seq<char>| exists|i: int, j: int| 0 <= i < j < ids_of(g).len() && #[trigger] ids_of(g)[i] == s && #[trigger] ids_of(g)[j] == s)
}

/// A live edge starts or ends at `s`.
pub open spec fn touched(g: WorkflowGraph, s: Seq<char>) -> bool {
    exists|i: int| 0 <= i < g.edges@.len() && live(g, i) && (#[trigger] from_of(g, i) == s || to_of(g, i) == s)
}

/// Nodes without any live edge.
pub open spec fn orphan_set(g: WorkflowGraph) -> Set<Seq<char>> {
    Set::new(|s: Seq<char>| is_node(g, s) && !touched(g, s))
}

/// A simple cycle along live edges: each step is a live edge, the path ends
/// where it starts, and the nodes before the closing one are pairwise
/// distinct (so it passes at least two nodes, as live edges join distinct
/// nodes).
pub open spec fn is_id_cycle(g: WorkflowGraph, c: Seq<Seq<char>>) -> bool {
    &&& c.len() >= 3
    &&& c[0] == c[c.len() - 1]
    &&& forall|k: int| 0 <= k < c.len() - 1 ==> #[trigger] step_exists(g, c[k], c[k + 1])
    &&& forall|i: int, j: int| 0 <= i < j < c.len() - 1 ==> #[trigger] c[i] != #[trigger] c[j]
}

/// Some live edge goes from `a` to `b`.
pub open spec fn step_exists(g: WorkflowGraph, a: Seq<char>, b: Seq<char>) -> bool {
    exists|i: int| 0 <= i < g.edges@.len() && live(g, i) && #[trigger] from_of(g, i) == a && to_of(g, i) == b
}

/// `r` strictly decreases along every live edge.
pub open spec fn id_ranking(g: WorkflowGraph, r: spec_fn(Seq<char>) -> int) -> bool {
    forall|i: int| 0 <= i < g.edges@.len() && live(g, i) ==> r(#[trigger] to_of(g, i)) < r(from_of(g, i))
}

/// The live edges admit a ranking, i.e. there is no cycle.
pub open spec fn graph_acyclic(g: WorkflowGraph) -> bool {
    exists|r: spec_fn(Seq<char>) -> int| id_ranking(g, r)
}

// ------------------------------------------------------------------
// The findings, as plain values
// ------------------------------------------------------------------

pub open spec fn finding(kind: GraphErrorKind, code: Seq<char>, message: Seq<char>, node_ids: Option<Seq<Seq<char>>>, edge_indices: Option<Seq<usize>>) -> GraphErrorView {
    GraphErrorView { kind, code, message, node_ids, edge_indices }
}

pub open spec fn dup_part(g: WorkflowGraph) -> Seq<GraphErrorView> {
    if has_dup_ids(g) {
        let d = sorted_enum(dup_id_set(g));
        seq![
            finding(GraphErrorKind::Fatal, "duplicate_node_id"@, "节点 id 重复："@ + join(d, ", "@), Some(d), None),
            finding(GraphErrorKind::Fatal, "structural_invalid"@, "由于节点 id 重复，跳过环/孤儿分析。请先修复重复 id。"@, None, None),
        ]
    } else {
        Seq::empty()
    }
}

/// `from-to` for edge `i`.
pub open spec fn edge_label(g: WorkflowGraph, i: int) -> Seq<char> {
    from_of(g, i) + "-"@ + to_of(g, i)
}

/// Labels of the given edges.
pub open spec fn edge_labels(g: WorkflowGraph, idx: Seq<usize>) -> Seq<Seq<char>> {
    idx.map_values(|i: usize| edge_label(g, i as int))
}

/// Labels of the first three dangling edges.
pub open spec fn dangling_sample(g: WorkflowGraph) -> Seq<Seq<char>> {
    let d = dangling_idx(g);
    let k = if d.len() < 3 { d.len() as int } else { 3int };
    edge_labels(g, d.take(k))
}

pub open spec fn dangling_message(g: WorkflowGraph) -> Seq<char> {
    let n = dangling_idx(g).len();
    "边引用了不存在的节点："@ + join(dangling_sample(g), ", "@)
        + (if n > 3 { " 等 "@ + decimal(n) + " 条"@ } else { Seq::empty() })
}

pub open spec fn dangling_part(g: WorkflowGraph) -> Seq<GraphErrorView> {
    if dangling_idx(g).len() > 0 {
        seq![finding(GraphErrorKind::Fatal, "dangling_edge"@, dangling_message(g), None, Some(dangling_idx(g)))]
    } else {
        Seq::empty()
    }
}

pub open spec fn repeated_part(g: WorkflowGraph) -> Seq<GraphErrorView> {
    let r = repeated_idx(g);
    if r.len() > 0 {
        seq![finding(GraphErrorKind::Warning, "duplicate_edge"@, "存在 "@ + decimal(r.len()) + " 条重复边（同名 from→to）"@, None, Some(r))]
    } else {
        Seq::empty()
    }
}

pub open spec fn self_loop_part(g: WorkflowGraph) -> Seq<GraphErrorView> {
    let r = self_loop_idx(g);
    if r.len() > 0 {
        seq![finding(GraphErrorKind::Fatal, "self_loop"@, "存在 "@ + decimal(r.len()) + " 条自环（from == to）"@, None, Some(r))]
    } else {
        Seq::empty()
    }
}

/// The findings that do not depend on the cycle search.
pub open spec fn head_report(g: WorkflowGraph) -> Seq<GraphErrorView> {
    dup_part(g) + dangling_part(g) + repeated_part(g) + self_loop_part(g)
}

pub open spec fn cycle_part(g: WorkflowGraph, c: Seq<Seq<char>>) -> Seq<GraphErrorView> {
    if graph_acyclic(g) {
        Seq::empty()
    } else {
        seq![finding(GraphErrorKind::Fatal, "cycle"@, "工作流含有环："@ + join(c, " → "@), Some(c), None)]
    }
}

pub open spec fn orphan_part(g: WorkflowGraph) -> Seq<GraphErrorView> {
    let s = sorted_enum(orphan_set(g));
    if s.len() > 0 && g.nodes@.len() > 1 {
        seq![finding(GraphErrorKind::Warning, "orphan_node"@, "存在 "@ + decimal(s.len()) + " 个孤立节点（无入边也无出边）"@, Some(s), None)]
    } else {
        Seq::empty()
    }
}

/// The structural findings, reported when ids are unique; `c` is the cycle
/// reported when the graph has one.
pub open spec fn tail_report(g: WorkflowGraph, c: Seq<Seq<char>>) -> Seq<GraphErrorView> {
    cycle_part(g, c) + orphan_part(g)
}

/// The report of `validate_graph` with `c` as the reported cycle.
pub open spec fn full_report(g: WorkflowGraph, c: Seq<Seq<char>>) -> Seq<GraphErrorView> {
    if has_dup_ids(g) {
        head_report(g)
    } else {
        head_report(g) + tail_report(g, c)
    }
}

/// `c` may stand as the reported cycle: it is one, or there is none.
pub open spec fn cycle_witness(g: WorkflowGraph, c: Seq<Seq<char>>) -> bool {
    graph_acyclic(g) || is_id_cycle(g, c)
}

/// The node ids in increasing order.
pub open spec fn id_order(g: WorkflowGraph) -> Seq<Seq<char>> {
    sorted_enum(ids_of(g).to_set())
}

/// Where `x` stands in `s`.
pub open spec fn pos_in(s: Seq<Seq<char>>, x: Seq<char>) -> int {
    choose|k: int| 0 <= k < s.len() && s[k] == x
}

/// Edge `i` as a pair of positions in the id order.
pub open spec fn edge_pair(g: WorkflowGraph, i: usize) -> (usize, usize) {
    (pos_in(id_order(g), from_of(g, i as int)) as usize, pos_in(id_order(g), to_of(g, i as int)) as usize)
}

/// The live edges below `m` as position pairs, in edge order.
pub open spec fn live_pairs_upto(g: WorkflowGraph, m: int) -> Seq<(usize, usize)> {
    live_upto(g, m).map_values(|i: usize| edge_pair(g, i))
}

/// The entries of `s` at the positions `p`.
pub open spec fn at_positions(s: Seq<Seq<char>>, p: Seq<usize>) -> Seq<Seq<char>> {
    p.map_values(|x: usize| s[x as int])
}

/// The row lists `v`.
pub open spec fn row_lists(row: Seq<usize>, v: usize) -> bool {
    exists|k: int| 0 <= k < row.len() && #[trigger] row[k] == v
}

/// The pair `(u, v)` is listed.
pub open spec fn pair_listed(es: Seq<(usize, usize)>, u: usize, v: usize) -> bool {
    exists|e: int| 0 <= e < es.len() && #[trigger] es[e] == (u, v)
}

/// `rv` is a report that `validate_graph` may give: the fixed findings, and
/// when ids are unique, a true cycle if the graph has one.
pub open spec fn valid_report(g: WorkflowGraph, rv: Seq<GraphErrorView>) -> bool {
    exists|c: Seq<Seq<char>>| (has_dup_ids(g) || cycle_witness(g, c)) && rv == full_report(g, c)
}

/// Finding `k` is the first fatal one.
pub open spec fn is_first_fatal(rv: Seq<GraphErrorView>, k: int) -> bool {
    &&& 0 <= k < rv.len()
    &&& rv[k].kind == GraphErrorKind::Fatal
    &&& forall|j: int| 0 <= j < k ==> (#[trigger] rv[j]).kind != GraphErrorKind::Fatal
}

/// The id lists of the waves.
pub open spec fn waves_view(w: Seq<Vec<String>>) -> Seq<Seq<Seq<char>>> {
    w.map_values(|x: Vec<String>| views(x@))
}

/// `s` stands in some wave.
pub open spec fn placed(w: Seq<Seq<Seq<char>>>, s: Seq<char>) -> bool {
    exists|k: int, j: int| 0 <= k < w.len() && 0 <= j < w[k].len() && #[trigger] w[k][j] == s
}

/// Node `w[k][j]` is the target of a live edge from the wave just before.
pub open spec fn fed_from_previous(g: WorkflowGraph, w: Seq<Seq<Seq<char>>>, k: int, j: int) -> bool {
    exists|i: int, j2: int| #![trigger from_of(g, i), w[k - 1][j2]]
        0 <= i < g.edges@.len() && live(g, i) && 0 <= j2 < w[k - 1].len()
        && to_of(g, i) == w[k][j] && from_of(g, i) == w[k - 1][j2]
}

/// The waves layer the graph: each wave is non-empty and sorted by id, every
/// node stands in exactly one wave, every live edge goes to a later wave, and
/// every node past the first wave is the target of a live edge from the wave
/// just before (so a node runs in the wave after its last predecessor).
pub open spec fn wave_layering(g: WorkflowGraph, w: Seq<Seq<Seq<char>>>) -> bool {
    &&& forall|k: int| 0 <= k < w.len() ==> (#[trigger] w[k]).len() > 0 && strictly_sorted(w[k])
    &&& forall|k: int, j: int| 0 <= k < w.len() && 0 <= j < w[k].len() ==> is_node(g, #[trigger] w[k][j])
    &&& forall|s: Seq<char>| is_node(g, s) ==> #[trigger] placed(w, s)
    &&& forall|k1: int, j1: int, k2: int, j2: int|
        0 <= k1 < w.len() && 0 <= j1 < w[k1].len() && 0 <= k2 < w.len() && 0 <= j2 < w[k2].len()
        && #[trigger] w[k1][j1] == #[trigger] w[k2][j2] ==> k1 == k2 && j1 == j2
    &&& forall|i: int, k1: int, j1: int, k2: int, j2: int|
        0 <= i < g.edges@.len() && live(g, i) && 0 <= k1 < w.len() && 0 <= j1 < w[k1].len()
        && 0 <= k2 < w.len() && 0 <= j2 < w[k2].len()
        && #[trigger] from_of(g, i) == #[trigger] w[k1][j1] && to_of(g, i) == #[trigger] w[k2][j2] ==> k1 < k2
    &&& forall|k: int, j: int| 0 < k < w.len() && 0 <= j < w[k].len() ==> #[trigger] fed_from_previous(g, w, k, j)
}

/// A path along live edges (one node or more).
pub open spec fn live_path(g: WorkflowGraph, p: Seq<Seq<char>>) -> bool {
    &&& p.len() >= 1
    &&& forall|k: int| 0 <= k < p.len() - 1 ==> #[trigger] step_exists(g, p[k], p[k + 1])
}

/// The longest live path ending at `v` has exactly `n` edges.
pub open spec fn longest_path_to(g: WorkflowGraph, v: Seq<char>, n: int) -> bool {
    &&& exists|p: Seq<Seq<char>>| #[trigger] live_path(g, p) && p.len() == n + 1 && p.last() == v
    &&& forall|p: Seq<Seq<char>>| #[trigger] live_path(g, p) && p.last() == v ==> p.len() <= n + 1
}

// ------------------------------------------------------------------
// Lemmas
// ------------------------------------------------------------------

proof fn lemma_idx_upto(m: int, f: spec_fn(int) -> bool)
    requires
        0 <= m <= usize::MAX + 1,
    ensures
        forall|k: int| 0 <= k < idx_upto(m, f).len() ==> 0 <= #[trigger] idx_upto(m, f)[k] < m && f(idx_upto(m, f)[k] as int),
        forall|i: int| 0 <= i < m && f(i) ==> #[trigger] idx_upto(m, f).contains(i as usize),
        increasing(idx_upto(m, f)),
        idx_upto(m, f).len() <= m,
    decreases m,
{
    if m > 0 {
        lemma_idx_upto(m - 1, f);
        let prev = idx_upto(m - 1, f);
        let cur = idx_upto(m, f);
        assert forall|i: int| 0 <= i < m && f(i) implies #[trigger] cur.contains(i as usize) by {
            if i < m - 1 {
                assert(prev.contains(i as usize));
                let k = choose|k: int| 0 <= k < prev.len() && prev[k] == i as usize;
                assert(cur[k] == i as usize);
            } else {
                assert(cur[prev.len() as int] == i as usize);
            }
        }
    }
}

/// A ranking of the live edges rules out every cycle.
pub proof fn lemma_id_ranking_excludes_cycle(g: WorkflowGraph, r: spec_fn(Seq<char>) -> int, c: Seq<Seq<char>>)
    requires
        is_id_cycle(g, c),
    ensures
        !id_ranking(g, r),
{
    if id_ranking(g, r) {
        assert forall|k: int| 0 <= k < c.len() implies r(#[trigger] c[k]) <= r(c[0]) - k by {
            lemma_id_walk(g, r, c, k);
        }
        assert(r(c[c.len() - 1]) <= r(c[0]) - (c.len() - 1));
    }
}

proof fn lemma_id_walk(g: WorkflowGraph, r: spec_fn(Seq<char>) -> int, c: Seq<Seq<char>>, k: int)
    requires
        id_ranking(g, r),
        is_id_cycle(g, c),
        0 <= k < c.len(),
    ensures
        r(c[k]) <= r(c[0]) - k,
    decreases k,
{
    if k > 0 {
        lemma_id_walk(g, r, c, k - 1);
        let j = k - 1;
        assert(step_exists(g, c[j], c[j + 1]));
        assert(c[j + 1] == c[k]);
        let i = choose|i: int| 0 <= i < g.edges@.len() && live(g, i) && #[trigger] from_of(g, i) == c[k - 1] && to_of(g, i) == c[k];
        assert(r(to_of(g, i)) < r(from_of(g, i)));
    }
}

// ------------------------------------------------------------------
// Executable pieces
// ------------------------------------------------------------------

/// Whether `s` is a node id.
fn has_node(g: &WorkflowGraph, s: &String) -> (b: bool)
    ensures
        b == is_node(*g, s@),
{
    let n = g.nodes.len();
    for k in 0..n
        invariant
            n == g.nodes@.len(),
            forall|j: int| 0 <= j < k ==> g.nodes@[j].id@ != s@,
    {
        if g.nodes[k].id == *s {
            assert(ids_of(*g)[k as int] == s@);
            return true;
        }
    }
    proof {
        if is_node(*g, s@) {
            let j = choose|j: int| 0 <= j < ids_of(*g).len() && #[trigger] ids_of(*g)[j] == s@;
            assert(g.nodes@[j].id@ == s@);
        }
    }
    false
}

/// The ids that occur more than once, each listed once.
fn duplicate_ids(g: &WorkflowGraph) -> (d: Vec<String>)
    ensures
        distinct(views(d@)),
        views(d@).to_set() == dup_id_set(*g),
{
    let ghost ids = ids_of(*g);
    let n = g.nodes.len();
    let mut d: Vec<String> = Vec::new();
    for i in 0..n
        invariant
            n == g.nodes@.len(),
            ids == ids_of(*g),
            distinct(views(d@)),
            forall|x: Seq<char>| views(d@).contains(x) <==> (exists|a: int, b: int| 0 <= a < b < n && a < i && #[trigger] ids[a] == x && #[trigger] ids[b] == x),
    {
        // first occurrence of this id?
        let mut first = true;
        for j in 0..i
            invariant
                i < n,
                n == g.nodes@.len(),
                ids == ids_of(*g),
                first == (forall|a: int| 0 <= a < j ==> ids[a] != ids[i as int]),
        {
            proof {
                assert(ids[j as int] == g.nodes@[j as int].id@);
                assert(ids[i as int] == g.nodes@[i as int].id@);
            }
            if g.nodes[j].id == g.nodes[i].id {
                first = false;
            }
        }
        let mut later = false;
        for j in (i + 1)..n
            invariant
                i < n,
                n == g.nodes@.len(),
                ids == ids_of(*g),
                later == (exists|b: int| i < b < j && #[trigger] ids[b] == ids[i as int]),
        {
            proof {
                assert(ids[j as int] == g.nodes@[j as int].id@);
                assert(ids[i as int] == g.nodes@[i as int].id@);
            }
            if g.nodes[j].id == g.nodes[i].id {
                later = true;
                assert(ids[j as int] == ids[i as int]);
            }
        }
        let ghost d0 = views(d@);
        if first && later {
            d.push(g.nodes[i].id.clone());
            proof {
                assert(views(d@) =~= d0.push(ids[i as int]));
                assert(!d0.contains(ids[i as int])) by {
                    if d0.contains(ids[i as int]) {
                        let (a, b) = choose|a: int, b: int| 0 <= a < b < n && a < i && #[trigger] ids[a] == ids[i as int] && #[trigger] ids[b] == ids[i as int];
                    }
                }
            }
        }
        proof {
            assert forall|x: Seq<char>| views(d@).contains(x) <==> (exists|a: int, b: int| 0 <= a < b < n && a < i + 1 && #[trigger] ids[a] == x && #[trigger] ids[b] == x) by {
                if views(d@).contains(x) {
                    if d0.contains(x) {
                        let (a, b) = choose|a: int, b: int| 0 <= a < b < n && a < i && #[trigger] ids[a] == x && #[trigger] ids[b] == x;
                    } else {
                        assert(x == ids[i as int]);
                        let b = choose|b: int| i < b < n && #[trigger] ids[b] == ids[i as int];
                        assert(ids[i as int] == x && ids[b] == x);
                    }
                }
                if exists|a: int, b: int| 0 <= a < b < n && a < i + 1 && #[trigger] ids[a] == x && #[trigger] ids[b] == x {
                    let (a, b) = choose|a: int, b: int| 0 <= a < b < n && a < i + 1 && #[trigger] ids[a] == x && #[trigger] ids[b] == x;
                    if a < i {
                        assert(d0.contains(x));
                        let k = choose|k: int| 0 <= k < d0.len() && d0[k] == x;
                        assert(views(d@)[k] == x);
                    } else {
                        if first {
                            assert(later);
                            assert(views(d@)[d0.len() as int] == x);
                        } else {
                            let a2 = choose|a2: int| 0 <= a2 < i && ids[a2] == ids[i as int];
                            assert(ids[a2] == x && ids[b] == x);
                            assert(d0.contains(x));
                            let k = choose|k: int| 0 <= k < d0.len() && d0[k] == x;
                            assert(views(d@)[k] == x);
                        }
                    }
                }
            }
        }
    }
    proof {
        assert forall|x: Seq<char>| views(d@).to_set().contains(x) <==> dup_id_set(*g).contains(x) by {
            if views(d@).to_set().contains(x) {
                assert(views(d@).contains(x));
            }
            if dup_id_set(*g).contains(x) {
                let (a, b) = choose|a: int, b: int| 0 <= a < b < ids.len() && #[trigger] ids[a] == x && #[trigger] ids[b] == x;
                assert(views(d@).contains(x));
            }
        }
        assert(views(d@).to_set() =~= dup_id_set(*g));
    }
    d
}

/// Whether edge `i` joins two distinct existing nodes.
fn is_live(g: &WorkflowGraph, i: usize) -> (b: bool)
    requires
        i < g.edges@.len(),
    ensures
        b == live(*g, i as int),
{
    let e = &g.edges[i];
    has_node(g, &e.from) && has_node(g, &e.to) && e.from != e.to
}

/// Whether an earlier edge has the same endpoints as edge `i`.
fn repeats_earlier(g: &WorkflowGraph, i: usize) -> (b: bool)
    requires
        i < g.edges@.len(),
    ensures
        b == repeated_edge(*g, i as int),
{
    let e = &g.edges[i];
    for j in 0..i
        invariant
            i < g.edges@.len(),
            e == g.edges@[i as int],
            forall|k: int| 0 <= k < j ==> !(#[trigger] from_of(*g, k) == from_of(*g, i as int) && to_of(*g, k) == to_of(*g, i as int)),
    {
        let f = &g.edges[j];
        if f.from == e.from && f.to == e.to {
            assert(from_of(*g, j as int) == from_of(*g, i as int) && to_of(*g, j as int) == to_of(*g, i as int));
            return true;
        }
    }
    false
}

/// Indices of the dangling edges, in order.
fn dangling_edges(g: &WorkflowGraph) -> (r: Vec<usize>)
    ensures
        r@ == dangling_idx(*g),
{
    let m = g.edges.len();
    let mut r: Vec<usize> = Vec::new();
    for i in 0..m
        invariant
            m == g.edges@.len(),
            r@ == dangling_upto(*g, i as int),
    {
        let e = &g.edges[i];
        if !has_node(g, &e.from) || !has_node(g, &e.to) {
            r.push(i);
        }
    }
    r
}

/// Indices of the edges repeating an earlier one, in order.
fn repeated_edges(g: &WorkflowGraph) -> (r: Vec<usize>)
    ensures
        r@ == repeated_idx(*g),
{
    let m = g.edges.len();
    let mut r: Vec<usize> = Vec::new();
    for i in 0..m
        invariant
            m == g.edges@.len(),
            r@ == repeated_upto(*g, i as int),
    {
        if repeats_earlier(g, i) {
            r.push(i);
        }
    }
    r
}

/// Indices of the self-loops, in order.
fn self_loop_edges(g: &WorkflowGraph) -> (r: Vec<usize>)
    ensures
        r@ == self_loop_idx(*g),
{
    let m = g.edges.len();
    let mut r: Vec<usize> = Vec::new();
    for i in 0..m
        invariant
            m == g.edges@.len(),
            r@ == self_loop_upto(*g, i as int),
    {
        let e = &g.edges[i];
        if e.from == e.to {
            r.push(i);
        }
    }
    r
}


/// Appends the findings of `part` to `r`.
fn append_findings(r: &mut Vec<GraphError>, part: Vec<GraphError>)
    ensures
        report_view(final(r)@) == report_view(old(r)@) + report_view(part@),
{
    let mut part = part;
    let ghost p0 = part@;
    r.append(&mut part);
    proof {
        assert(report_view(r@) =~= report_view(old(r)@) + report_view(p0));
    }
}

/// The duplicate-id findings.
fn dup_findings(g: &WorkflowGraph) -> (r: Vec<GraphError>)
    ensures
        report_view(r@) == dup_part(*g),
        (r@.len() > 0) == has_dup_ids(*g),
{
    let d = duplicate_ids(g);
    let ghost ids = ids_of(*g);
    let mut r: Vec<GraphError> = Vec::new();
    proof {
        if has_dup_ids(*g) {
            let (i, j) = choose|i: int, j: int| 0 <= i < j < ids.len() && #[trigger] ids[i] == #[trigger] ids[j];
            assert(dup_id_set(*g).contains(ids[i]));
            assert(views(d@).to_set().contains(ids[i]));
        }
        if d@.len() > 0 {
            assert(views(d@).to_set().contains(views(d@)[0]));
            assert(dup_id_set(*g).contains(views(d@)[0]));
        }
    }
    if d.len() > 0 {
        let s = sort_distinct_strings(d);
        proof {
            lemma_sorted_enum_is(views(s@), dup_id_set(*g));
        }
        let listed = join_strings(&s, ", ");
        let msg = concat2("节点 id 重复：", listed.as_str());
        let e1 = GraphError::fatal("duplicate_node_id", msg).with_nodes(s);
        r.push(e1);
        r.push(GraphError::fatal("structural_invalid", "由于节点 id 重复，跳过环/孤儿分析。请先修复重复 id。".to_owned()));
        proof {
            assert(report_view(r@) =~= dup_part(*g));
        }
    } else {
        proof {
            assert(report_view(r@) =~= dup_part(*g));
        }
    }
    r
}

/// The dangling-edge finding.
fn dangling_findings(g: &WorkflowGraph) -> (r: Vec<GraphError>)
    ensures
        report_view(r@) == dangling_part(*g),
{
    let d = dangling_edges(g);
    let mut r: Vec<GraphError> = Vec::new();
    let m = g.edges.len();
    if d.len() > 0 {
        proof {
            lemma_idx_upto(m as int, |i: int| dangling(*g, i));
        }
        let k: usize = if d.len() < 3 { d.len() } else { 3 };
        let mut labels: Vec<String> = Vec::new();
        for t in 0..k
            invariant
                k <= d@.len(),
                d@ == dangling_idx(*g),
                forall|q: int| 0 <= q < d@.len() ==> #[trigger] d@[q] < g.edges@.len(),
                views(labels@) == edge_labels(*g, d@.take(t as int)),
        {
            let e = &g.edges[d[t]];
            let label = concat3(e.from.as_str(), "-", e.to.as_str());
            assert(label@ == edge_label(*g, d@[t as int] as int));
            let ghost lv = views(labels@);
            labels.push(label);
            proof {
                assert(views(labels@) =~= lv.push(label@));
                assert(d@.take(t + 1) == d@.take(t as int).push(d@[t as int]));
                assert(edge_labels(*g, d@.take(t + 1)) =~= edge_labels(*g, d@.take(t as int)).push(edge_label(*g, d@[t as int] as int)));
            }
        }
        let listed = join_strings(&labels, ", ");
        let tail = if d.len() > 3 {
            let count = u64_to_decimal(d.len() as u64);
            concat3(" 等 ", count.as_str(), " 条")
        } else {
            String::new()
        };
        let msg = concat3("边引用了不存在的节点：", listed.as_str(), tail.as_str());
        proof {
            assert(views(labels@) == dangling_sample(*g));
        }
        let e = GraphError::fatal("dangling_edge", msg).with_edge_indices(d);
        r.push(e);
        proof {
            assert(report_view(r@) =~= dangling_part(*g));
        }
    } else {
        proof {
            assert(report_view(r@) =~= dangling_part(*g));
        }
    }
    r
}

/// The repeated-edge finding.
fn repeated_findings(g: &WorkflowGraph) -> (r: Vec<GraphError>)
    ensures
        report_view(r@) == repeated_part(*g),
{
    let d = repeated_edges(g);
    let mut r: Vec<GraphError> = Vec::new();
    if d.len() > 0 {
        let count = u64_to_decimal(d.len() as u64);
        let msg = concat3("存在 ", count.as_str(), " 条重复边（同名 from→to）");
        r.push(GraphError::warning("duplicate_edge", msg).with_edge_indices(d));
    }
    proof {
        assert(report_view(r@) =~= repeated_part(*g));
    }
    r
}

/// The self-loop finding.
fn self_loop_findings(g: &WorkflowGraph) -> (r: Vec<GraphError>)
    ensures
        report_view(r@) == self_loop_part(*g),
{
    let d = self_loop_edges(g);
    let mut r: Vec<GraphError> = Vec::new();
    if d.len() > 0 {
        let count = u64_to_decimal(d.len() as u64);
        let msg = concat3("存在 ", count.as_str(), " 条自环（from == to）");
        r.push(GraphError::fatal("self_loop", msg).with_edge_indices(d));
    }
    proof {
        assert(report_view(r@) =~= self_loop_part(*g));
    }
    r
}

proof fn lemma_pos_in(s: Seq<Seq<char>>, k: int)
    requires
        distinct(s),
        0 <= k < s.len(),
    ensures
        pos_in(s, s[k]) == k,
{
    let j = pos_in(s, s[k]);
    assert(0 <= j < s.len() && s[j] == s[k]);
}

/// The position of a string known to be present.
fn index_of_present(v: &Vec<String>, s: &String) -> (k: usize)
    requires
        views(v@).contains(s@),
    ensures
        k < v@.len(),
        v@[k as int]@ == s@,
{
    let n = v.len();
    let mut k: usize = 0;
    while k < n
        invariant
            n == v@.len(),
            k <= n,
            views(v@).contains(s@),
            forall|j: int| 0 <= j < k ==> v@[j]@ != s@,
        decreases n - k,
    {
        if v[k] == *s {
            return k;
        }
        k = k + 1;
    }
    proof {
        let j = choose|j: int| 0 <= j < views(v@).len() && #[trigger] views(v@)[j] == s@;
        assert(v@[j]@ == s@);
    }
    0
}

/// The node ids in increasing order.
fn ordered_ids(g: &WorkflowGraph) -> (s: Vec<String>)
    requires
        !has_dup_ids(*g),
    ensures
        views(s@) == id_order(*g),
        strictly_sorted(views(s@)),
        views(s@).to_set() == ids_of(*g).to_set(),
        distinct(views(s@)),
{
    let n = g.nodes.len();
    let mut v: Vec<String> = Vec::new();
    for i in 0..n
        invariant
            n == g.nodes@.len(),
            views(v@) == ids_of(*g).take(i as int),
    {
        let ghost v0 = views(v@);
        v.push(g.nodes[i].id.clone());
        proof {
            assert(views(v@) =~= v0.push(g.nodes@[i as int].id@));
            assert(ids_of(*g).take(i + 1) =~= ids_of(*g).take(i as int).push(ids_of(*g)[i as int]));
        }
    }
    proof {
        assert(ids_of(*g).take(n as int) =~= ids_of(*g));
    }
    let s = sort_distinct_strings(v);
    proof {
        lemma_sorted_enum_is(views(s@), ids_of(*g).to_set());
        lemma_strictly_sorted_distinct(views(s@));
    }
    s
}

/// The live edges as position pairs in the id order.
fn live_pairs(g: &WorkflowGraph, order: &Vec<String>) -> (es: Vec<(usize, usize)>)
    requires
        views(order@) == id_order(*g),
        distinct(views(order@)),
        views(order@).to_set() == ids_of(*g).to_set(),
    ensures
        es@ == live_pairs_upto(*g, g.edges@.len() as int),
        edges_wf(order@.len() as nat, es@),
{
    let m = g.edges.len();
    let mut es: Vec<(usize, usize)> = Vec::new();
    for i in 0..m
        invariant
            m == g.edges@.len(),
            views(order@) == id_order(*g),
            distinct(views(order@)),
            views(order@).to_set() == ids_of(*g).to_set(),
            es@ == live_pairs_upto(*g, i as int),
            edges_wf(order@.len() as nat, es@),
    {
        if is_live(g, i) {
            let e = &g.edges[i];
            proof {
                assert(ids_of(*g).to_set().contains(e.from@));
                assert(ids_of(*g).to_set().contains(e.to@));
                assert(views(order@).to_set().contains(e.from@));
                assert(views(order@).to_set().contains(e.to@));
            }
            let u = index_of_present(order, &e.from);
            let v = index_of_present(order, &e.to);
            proof {
                lemma_pos_in(views(order@), u as int);
                lemma_pos_in(views(order@), v as int);
                assert(views(order@)[u as int] == e.from@);
                assert(views(order@)[v as int] == e.to@);
            }
            let ghost es0 = es@;
            es.push((u, v));
            proof {
                assert(edge_pair(*g, i) == (u, v));
                assert(live_upto(*g, i + 1) == live_upto(*g, i as int).push(i));
                assert(es@ =~= live_pairs_upto(*g, i + 1));
            }
        } else {
            proof {
                assert(live_upto(*g, i + 1) == live_upto(*g, i as int));
            }
        }
    }
    es
}

/// Successor rows: row `u` lists, in order, the targets of the pairs from `u`.
fn adjacency(n: usize, es: &Vec<(usize, usize)>) -> (adj: Vec<Vec<usize>>)
    requires
        edges_wf(n as nat, es@),
    ensures
        adj_wf(n as nat, adj@.map_values(|row: Vec<usize>| row@)),
        forall|u: int, k: int| 0 <= u < n && 0 <= k < adj@[u]@.len() ==> pair_listed(es@, u as usize, #[trigger] adj@[u]@[k]),
        forall|e: int| 0 <= e < es@.len() ==> row_lists(adj@[(#[trigger] es@[e]).0 as int]@, es@[e].1),
{
    let m = es.len();
    let mut adj: Vec<Vec<usize>> = Vec::new();
    for u in 0..n
        invariant
            m == es@.len(),
            edges_wf(n as nat, es@),
            adj@.len() == u,
            forall|w: int, k: int| 0 <= w < u && 0 <= k < adj@[w]@.len() ==> #[trigger] adj@[w]@[k] < n && pair_listed(es@, w as usize, adj@[w]@[k]),
            forall|e: int| 0 <= e < m && (#[trigger] es@[e]).0 < u ==> row_lists(adj@[es@[e].0 as int]@, es@[e].1),
    {
        let mut row: Vec<usize> = Vec::new();
        for e in 0..m
            invariant
                m == es@.len(),
                edges_wf(n as nat, es@),
                u < n,
                forall|k: int| 0 <= k < row@.len() ==> #[trigger] row@[k] < n && pair_listed(es@, u, row@[k]),
                forall|f: int| 0 <= f < e && (#[trigger] es@[f]).0 == u ==> exists|k: int| 0 <= k < row@.len() && row@[k] == es@[f].1,
        {
            let (a, b) = es[e];
            if a == u {
                let ghost r0 = row@;
                row.push(b);
                proof {
                    assert(es@[e as int] == (u, b));
                    assert(row@[r0.len() as int] == b);
                    assert forall|f: int| 0 <= f < e + 1 && (#[trigger] es@[f]).0 == u implies exists|k: int| 0 <= k < row@.len() && row@[k] == es@[f].1 by {
                        if f < e {
                            let k = choose|k: int| 0 <= k < r0.len() && r0[k] == es@[f].1;
                            assert(row@[k] == es@[f].1);
                        } else {
                            assert(row@[r0.len() as int] == es@[f].1);
                        }
                    }
                }
            }
        }
        let ghost a0 = adj@;
        let ghost rv = row@;
        adj.push(row);
        proof {
            assert(adj@[u as int]@ == rv);
            assert forall|e: int| 0 <= e < m && (#[trigger] es@[e]).0 < u + 1 implies row_lists(adj@[es@[e].0 as int]@, es@[e].1) by {
                if es@[e].0 < u {
                    assert(adj@[es@[e].0 as int] == a0[es@[e].0 as int]);
                } else {
                    let k = choose|k: int| 0 <= k < rv.len() && rv[k] == es@[e].1;
                    assert(adj@[es@[e].0 as int]@[k] == es@[e].1);
                }
            }
        }
    }
    proof {
        let av = adj@.map_values(|row: Vec<usize>| row@);
        assert forall|u: int, k: int| 0 <= u < n && 0 <= k < av[u].len() implies #[trigger] av[u][k] < n by {
            assert(av[u] == adj@[u]@);
        }
        assert forall|e: int| 0 <= e < es@.len() implies row_lists(adj@[(#[trigger] es@[e]).0 as int]@, es@[e].1) by {
            assert(es@[e].0 < n);
        }
    }
    adj
}

/// What a listed pair stands for: a live edge between the ids at its positions.
proof fn lemma_pair_edge(g: WorkflowGraph, order: Seq<Seq<char>>, es: Seq<(usize, usize)>, e: int)
    requires
        order == id_order(g),
        order.to_set() == ids_of(g).to_set(),
        es == live_pairs_upto(g, g.edges@.len() as int),
        0 <= e < es.len(),
        g.edges@.len() <= usize::MAX,
        order.len() <= usize::MAX,
    ensures
        live_idx(g)[e] < g.edges@.len(),
        live(g, live_idx(g)[e] as int),
        order[es[e].0 as int] == from_of(g, live_idx(g)[e] as int),
        order[es[e].1 as int] == to_of(g, live_idx(g)[e] as int),
        es[e] == edge_pair(g, live_idx(g)[e]),
{
    let m = g.edges@.len() as int;
    lemma_idx_upto(m, |i: int| live(g, i));
    let i = live_idx(g)[e];
    assert(live(g, i as int));
    assert(es[e] == edge_pair(g, i));
    let f = from_of(g, i as int);
    let t = to_of(g, i as int);
    assert(ids_of(g).contains(f));
    assert(ids_of(g).to_set().contains(f));
    assert(order.contains(f));
    assert(ids_of(g).to_set().contains(t));
    assert(order.contains(t));
    let pf = pos_in(order, f);
    let pt = pos_in(order, t);
    assert(0 <= pf < order.len() && order[pf] == f);
    assert(0 <= pt < order.len() && order[pt] == t);
    assert(es[e].0 as int == pf);
    assert(es[e].1 as int == pt);
}

/// Whether a live edge starts or ends at `s`.
fn touches(g: &WorkflowGraph, s: &String) -> (b: bool)
    ensures
        b == touched(*g, s@),
{
    let m = g.edges.len();
    for i in 0..m
        invariant
            m == g.edges@.len(),
            forall|k: int| 0 <= k < i ==> !(live(*g, k) && (#[trigger] from_of(*g, k) == s@ || to_of(*g, k) == s@)),
    {
        if is_live(g, i) && (g.edges[i].from == *s || g.edges[i].to == *s) {
            assert(live(*g, i as int) && (from_of(*g, i as int) == s@ || to_of(*g, i as int) == s@));
            return true;
        }
    }
    proof {
        if touched(*g, s@) {
            let i = choose|i: int| 0 <= i < g.edges@.len() && live(*g, i) && (#[trigger] from_of(*g, i) == s@ || to_of(*g, i) == s@);
            assert(from_of(*g, i) == s@ || to_of(*g, i) == s@);
        }
    }
    false
}

/// The nodes without any live edge, in node order.
fn orphan_ids(g: &WorkflowGraph) -> (o: Vec<String>)
    requires
        !has_dup_ids(*g),
    ensures
        distinct(views(o@)),
        views(o@).to_set() == orphan_set(*g),
{
    let ghost ids = ids_of(*g);
    let n = g.nodes.len();
    let mut o: Vec<String> = Vec::new();
    for k in 0..n
        invariant
            n == g.nodes@.len(),
            ids == ids_of(*g),
            distinct(ids),
            distinct(views(o@)),
            forall|x: Seq<char>| #[trigger] views(o@).contains(x) <==> (exists|j: int| 0 <= j < k && #[trigger] ids[j] == x && !touched(*g, x)),
    {
        let id = &g.nodes[k].id;
        assert(ids[k as int] == id@);
        if !touches(g, id) {
            let ghost o0 = views(o@);
            o.push(id.clone());
            proof {
                assert(views(o@) =~= o0.push(id@));
                assert(!o0.contains(id@)) by {
                    if o0.contains(id@) {
                        let j = choose|j: int| 0 <= j < k && #[trigger] ids[j] == id@ && !touched(*g, id@);
                        assert(ids[j] == ids[k as int]);
                    }
                }
                assert forall|x: Seq<char>| #[trigger] views(o@).contains(x) <==> (exists|j: int| 0 <= j < k + 1 && #[trigger] ids[j] == x && !touched(*g, x)) by {
                    if views(o@).contains(x) && x != id@ {
                        let q = choose|q: int| 0 <= q < views(o@).len() && views(o@)[q] == x;
                        assert(o0[q] == x);
                        assert(o0.contains(x));
                    }
                    if x == id@ {
                        assert(views(o@)[o0.len() as int] == x);
                    }
                    if exists|j: int| 0 <= j < k + 1 && #[trigger] ids[j] == x && !touched(*g, x) {
                        if x != id@ {
                            let j = choose|j: int| 0 <= j < k + 1 && #[trigger] ids[j] == x && !touched(*g, x);
                            assert(j < k);
                            assert(o0.contains(x));
                            let q = choose|q: int| 0 <= q < o0.len() && o0[q] == x;
                            assert(views(o@)[q] == x);
                        }
                    }
                }
            }
        } else {
            proof {
                assert forall|x: Seq<char>| #[trigger] views(o@).contains(x) <==> (exists|j: int| 0 <= j < k + 1 && #[trigger] ids[j] == x && !touched(*g, x)) by {
                    if exists|j: int| 0 <= j < k + 1 && #[trigger] ids[j] == x && !touched(*g, x) {
                        let j = choose|j: int| 0 <= j < k + 1 && #[trigger] ids[j] == x && !touched(*g, x);
                        assert(j != k);
                    }
                }
            }
        }
    }
    proof {
        assert forall|x: Seq<char>| views(o@).to_set().contains(x) <==> orphan_set(*g).contains(x) by {
            if views(o@).to_set().contains(x) {
                assert(views(o@).contains(x));
                let j = choose|j: int| 0 <= j < n && #[trigger] ids[j] == x && !touched(*g, x);
                assert(is_node(*g, x));
            }
            if orphan_set(*g).contains(x) {
                let j = choose|j: int| 0 <= j < ids.len() && ids[j] == x;
                assert(views(o@).contains(x));
            }
        }
        assert(views(o@).to_set() =~= orphan_set(*g));
    }
    o
}

/// The ids at the given positions.
fn ids_at(order: &Vec<String>, p: &Vec<usize>) -> (c: Vec<String>)
    requires
        forall|t: int| 0 <= t < p@.len() ==> #[trigger] p@[t] < order@.len(),
    ensures
        views(c@) == at_positions(views(order@), p@),
{
    let n = p.len();
    let mut c: Vec<String> = Vec::new();
    for t in 0..n
        invariant
            n == p@.len(),
            forall|t: int| 0 <= t < p@.len() ==> #[trigger] p@[t] < order@.len(),
            views(c@) == at_positions(views(order@), p@.take(t as int)),
    {
        let ghost c0 = views(c@);
        c.push(order[p[t]].clone());
        proof {
            assert(views(c@) =~= c0.push(views(order@)[p@[t as int] as int]));
            assert(p@.take(t + 1) == p@.take(t as int).push(p@[t as int]));
            assert(at_positions(views(order@), p@.take(t + 1)) =~= at_positions(views(order@), p@.take(t as int)).push(views(order@)[p@[t as int] as int]));
        }
    }
    proof {
        assert(p@.take(n as int) =~= p@);
    }
    c
}

/// The cycle finding, built from a depth-first search over the live edges in
/// id order.
fn cycle_findings(g: &WorkflowGraph, order: &Vec<String>) -> (r: Vec<GraphError>)
    requires
        !has_dup_ids(*g),
        views(order@) == id_order(*g),
        distinct(views(order@)),
        views(order@).to_set() == ids_of(*g).to_set(),
    ensures
        exists|c: Seq<Seq<char>>| cycle_witness(*g, c) && report_view(r@) == cycle_part(*g, c),
{
    let n = order.len();
    let m = g.edges.len();
    let es = live_pairs(g, order);
    let adj = adjacency(n, &es);
    let ghost a = adj@.map_values(|row: Vec<usize>| row@);
    let ghost sv = views(order@);
    proof {
        assert(a.len() == n);
    }
    let mut r: Vec<GraphError> = Vec::new();
    match find_cycle(&adj) {
        Some(p) => {
            proof {
                assert forall|t: int| 0 <= t < p@.len() implies #[trigger] p@[t] < order@.len() by {
                    if t < p@.len() - 1 {
                        assert(adj_edge(a, p@[t] as int, p@[t + 1] as int));
                    } else {
                        assert(adj_edge(a, p@[0] as int, p@[1] as int));
                    }
                }
            }
            let c = ids_at(order, &p);
            let ghost cv = views(c@);
            proof {
                assert forall|k: int| 0 <= k < cv.len() - 1 implies #[trigger] step_exists(*g, cv[k], cv[k + 1]) by {
                    assert(adj_edge(a, p@[k] as int, p@[k + 1] as int));
                    let u = p@[k];
                    let kk = choose|kk: int| 0 <= kk < a[u as int].len() && #[trigger] a[u as int][kk] == p@[k + 1];
                    assert(a[u as int] == adj@[u as int]@);
                    assert(pair_listed(es@, u, adj@[u as int]@[kk]));
                    let e = choose|e: int| 0 <= e < es@.len() && #[trigger] es@[e] == (u, adj@[u as int]@[kk]);
                    lemma_pair_edge(*g, sv, es@, e);
                    let i = live_idx(*g)[e] as int;
                    assert(from_of(*g, i) == cv[k] && to_of(*g, i) == cv[k + 1]);
                }
                assert forall|i: int, j: int| 0 <= i < j < cv.len() - 1 implies #[trigger] cv[i] != #[trigger] cv[j] by {
                    assert(cv[i] == sv[p@[i] as int]);
                    assert(cv[j] == sv[p@[j] as int]);
                    assert(p@[i] != p@[j]);
                }
                assert(cv.len() >= 3) by {
                    if cv.len() == 2 {
                        assert(step_exists(*g, cv[0], cv[1]));
                        let i = choose|i: int| 0 <= i < g.edges@.len() && live(*g, i) && #[trigger] from_of(*g, i) == cv[0] && to_of(*g, i) == cv[1];
                        assert(self_loop(*g, i));
                    }
                }
                assert(is_id_cycle(*g, cv));
            }
            let listed = join_strings(&c, " → ");
            let msg = concat2("工作流含有环：", listed.as_str());
            r.push(GraphError::fatal("cycle", msg).with_nodes(c));
            proof {
                assert(!graph_acyclic(*g)) by {
                    if graph_acyclic(*g) {
                        let rk = choose|rk: spec_fn(Seq<char>) -> int| id_ranking(*g, rk);
                        lemma_id_ranking_excludes_cycle(*g, rk, cv);
                    }
                }
                assert(report_view(r@) =~= cycle_part(*g, cv));
                assert(cycle_witness(*g, cv));
            }
        },
        None => {
            proof {
                let rk = choose|rk: spec_fn(int) -> int| is_ranking(a, rk);
                let rid = |x: Seq<char>| rk(pos_in(sv, x));
                assert forall|i: int| 0 <= i < g.edges@.len() && live(*g, i) implies rid(#[trigger] to_of(*g, i)) < rid(from_of(*g, i)) by {
                    lemma_idx_upto(m as int, |j: int| live(*g, j));
                    assert(live_idx(*g).contains(i as usize));
                    let e = choose|e: int| 0 <= e < live_idx(*g).len() && live_idx(*g)[e] == i as usize;
                    lemma_pair_edge(*g, sv, es@, e);
                    assert(row_lists(adj@[es@[e].0 as int]@, es@[e].1));
                    let kk = choose|kk: int| 0 <= kk < adj@[es@[e].0 as int]@.len() && #[trigger] adj@[es@[e].0 as int]@[kk] == es@[e].1;
                    let u = es@[e].0 as int;
                    assert(a[u] == adj@[u]@);
                    assert(rk(a[u][kk] as int) < rk(u));
                    assert(es@[e] == edge_pair(*g, i as usize));
                }
                assert(id_ranking(*g, rid));
                assert(graph_acyclic(*g));
                assert(report_view(r@) =~= cycle_part(*g, Seq::empty()));
                assert(cycle_witness(*g, Seq::empty()));
            }
        },
    }
    r
}

/// The orphan-node finding.
fn orphan_findings(g: &WorkflowGraph) -> (r: Vec<GraphError>)
    requires
        !has_dup_ids(*g),
    ensures
        report_view(r@) == orphan_part(*g),
{
    let o = orphan_ids(g);
    let s = sort_distinct_strings(o);
    proof {
        lemma_sorted_enum_is(views(s@), orphan_set(*g));
    }
    let mut r: Vec<GraphError> = Vec::new();
    if s.len() > 0 && g.nodes.len() > 1 {
        let count = u64_to_decimal(s.len() as u64);
        let msg = concat3("存在 ", count.as_str(), " 个孤立节点（无入边也无出边）");
        r.push(GraphError::warning("orphan_node", msg).with_nodes(s));
    }
    proof {
        assert(report_view(r@) =~= orphan_part(*g));
    }
    r
}

/// Validates the graph and returns every finding, fatal and warning, in a
/// fixed order: duplicate ids, dangling edges, repeated edges, self-loops, and
/// then, only when ids are unique, a cycle and orphan nodes. Call it before a
/// run to show every problem at once.
pub fn validate_graph(graph: &WorkflowGraph) -> (report: Vec<GraphError>)
    ensures
        valid_report(*graph, report_view(report@)),
{
    let mut report = dup_findings(graph);
    let has_dup = report.len() > 0;
    append_findings(&mut report, dangling_findings(graph));
    append_findings(&mut report, repeated_findings(graph));
    append_findings(&mut report, self_loop_findings(graph));
    proof {
        assert(report_view(report@) =~= head_report(*graph));
    }
    if has_dup {
        proof {
            assert(report_view(report@) == full_report(*graph, Seq::empty()));
        }
        return report;
    }
    let order = ordered_ids(graph);
    let cyc = cycle_findings(graph, &order);
    let ghost cv = report_view(cyc@);
    append_findings(&mut report, cyc);
    let orph = orphan_findings(graph);
    append_findings(&mut report, orph);
    proof {
        let c = choose|c: Seq<Seq<char>>| cycle_witness(*graph, c) && cv == cycle_part(*graph, c);
        assert(report_view(report@) =~= full_report(*graph, c));
    }
    report
}

/// A report without fatal findings means unique ids and no cycle.
proof fn lemma_runnable_facts(g: WorkflowGraph, rv: Seq<GraphErrorView>)
    requires
        valid_report(g, rv),
        runnable(rv),
    ensures
        !has_dup_ids(g),
        graph_acyclic(g),
{
    let c = choose|c: Seq<Seq<char>>| (has_dup_ids(g) || cycle_witness(g, c)) && rv == full_report(g, c);
    if has_dup_ids(g) {
        assert(rv[0] == dup_part(g)[0]);
        assert(rv[0].kind == GraphErrorKind::Fatal);
    } else if !graph_acyclic(g) {
        let h = head_report(g);
        assert(rv[h.len() as int] == cycle_part(g, c)[0]);
        assert(rv[h.len() as int].kind == GraphErrorKind::Fatal);
    }
}

/// The graph can run: its ids are distinct, every edge joins two existing
/// distinct nodes, and the live edges have no cycle.
pub open spec fn graph_sound(g: WorkflowGraph) -> bool {
    &&& !has_dup_ids(g)
    &&& forall|i: int| 0 <= i < g.edges@.len() ==> !#[trigger] dangling(g, i)
    &&& forall|i: int| 0 <= i < g.edges@.len() ==> !#[trigger] self_loop(g, i)
    &&& graph_acyclic(g)
}

/// A validation report has no fatal finding exactly when the graph is sound:
/// distinct ids, no dangling edge, no self-loop and no cycle.
pub proof fn lemma_runnable_iff_sound(g: WorkflowGraph, rv: Seq<GraphErrorView>)
    requires
        valid_report(g, rv),
    ensures
        runnable(rv) <==> graph_sound(g),
{
    let c = choose|c: Seq<Seq<char>>| (has_dup_ids(g) || cycle_witness(g, c)) && rv == full_report(g, c);
    let m = g.edges@.len() as int;
    assert(m == g.edges.len());
    lemma_idx_upto(m, |i: int| dangling(g, i));
    lemma_idx_upto(m, |i: int| self_loop(g, i));
    let d = dangling_part(g);
    let r = repeated_part(g);
    let s = self_loop_part(g);
    if runnable(rv) {
        lemma_runnable_facts(g, rv);
        assert(dup_part(g) == Seq::<GraphErrorView>::empty());
        assert forall|i: int| 0 <= i < m implies !#[trigger] dangling(g, i) by {
            if dangling(g, i) {
                assert(dangling_idx(g).contains(i as usize));
                assert(rv[0] == d[0]);
            }
        }
        assert forall|i: int| 0 <= i < m implies !#[trigger] self_loop(g, i) by {
            if self_loop(g, i) {
                assert(self_loop_idx(g).contains(i as usize));
                assert(rv[(d.len() + r.len()) as int] == s[0]);
            }
        }
    }
    if graph_sound(g) {
        if dangling_idx(g).len() > 0 {
            assert(dangling(g, dangling_idx(g)[0] as int));
        }
        if self_loop_idx(g).len() > 0 {
            assert(self_loop(g, self_loop_idx(g)[0] as int));
        }
        assert(rv =~= r + orphan_part(g));
        assert forall|k: int| 0 <= k < rv.len() implies (#[trigger] rv[k]).kind != GraphErrorKind::Fatal by {
            if k < r.len() {
                assert(rv[k] == r[k]);
            } else {
                assert(rv[k] == orphan_part(g)[k - r.len()]);
            }
        }
    }
}

/// With distinct ids, a report holds a `cycle` finding exactly when the
/// live edges have a cycle; that finding is fatal, carries no edge indices,
/// and its node list is a simple cycle along live edges.
pub proof fn lemma_cycle_finding(g: WorkflowGraph, rv: Seq<GraphErrorView>)
    requires
        valid_report(g, rv),
        !has_dup_ids(g),
    ensures
        (exists|k: int| 0 <= k < rv.len() && (#[trigger] rv[k]).code == "cycle"@)
            <==> (exists|c: Seq<Seq<char>>| #[trigger] is_id_cycle(g, c)),
        forall|k: int| 0 <= k < rv.len() && (#[trigger] rv[k]).code == "cycle"@ ==> {
            &&& rv[k].kind == GraphErrorKind::Fatal
            &&& rv[k].edge_indices is None
            &&& rv[k].node_ids matches Some(p) && is_id_cycle(g, p)
        },
{
    let c = choose|c: Seq<Seq<char>>| (has_dup_ids(g) || cycle_witness(g, c)) && rv == full_report(g, c);
    reveal_strlit("cycle");
    reveal_strlit("dangling_edge");
    reveal_strlit("duplicate_edge");
    reveal_strlit("self_loop");
    reveal_strlit("orphan_node");
    let h = head_report(g);
    let d = dangling_part(g);
    let r = repeated_part(g);
    let s = self_loop_part(g);
    let o = orphan_part(g);
    let cp = cycle_part(g, c);
    assert(dup_part(g) == Seq::<GraphErrorView>::empty());
    assert(rv =~= d + r + s + cp + o);
    assert forall|k: int| 0 <= k < rv.len() && (#[trigger] rv[k]).code == "cycle"@ implies {
        &&& rv[k].kind == GraphErrorKind::Fatal
        &&& rv[k].edge_indices is None
        &&& rv[k].node_ids matches Some(p) && is_id_cycle(g, p)
        &&& !graph_acyclic(g)
    } by {
        let a = d.len() as int;
        let b = a + r.len();
        let e = b + s.len();
        let f = e + cp.len();
        if k < a {
            assert(rv[k] == d[k]);
            assert("dangling_edge"@[0] != "cycle"@[0]);
        } else if k < b {
            assert(rv[k] == r[k - a]);
            assert("duplicate_edge"@[0] != "cycle"@[0]);
        } else if k < e {
            assert(rv[k] == s[k - b]);
            assert("self_loop"@[0] != "cycle"@[0]);
        } else if k < f {
            assert(rv[k] == cp[k - e]);
        } else {
            assert(rv[k] == o[k - f]);
            assert("orphan_node"@[0] != "cycle"@[0]);
        }
    }
    if exists|k: int| 0 <= k < rv.len() && (#[trigger] rv[k]).code == "cycle"@ {
        let k = choose|k: int| 0 <= k < rv.len() && (#[trigger] rv[k]).code == "cycle"@;
        assert(rv[k].node_ids matches Some(p) && is_id_cycle(g, p));
        let p = rv[k].node_ids->0;
        assert(is_id_cycle(g, p));
    }
    if exists|cc: Seq<Seq<char>>| #[trigger] is_id_cycle(g, cc) {
        let cc = choose|cc: Seq<Seq<char>>| #[trigger] is_id_cycle(g, cc);
        assert(!graph_acyclic(g)) by {
            if graph_acyclic(g) {
                let rk = choose|rk: spec_fn(Seq<char>) -> int| id_ranking(g, rk);
                lemma_id_ranking_excludes_cycle(g, rk, cc);
            }
        }
        let k = (d.len() + r.len() + s.len()) as int;
        assert(rv[k] == cp[0]);
        assert(rv[k].code == "cycle"@);
    }
}

/// Without a cycle, the position pairs of the live edges admit a ranking.
proof fn lemma_pairs_ranked(g: WorkflowGraph, order: Seq<Seq<char>>, es: Seq<(usize, usize)>)
    requires
        graph_acyclic(g),
        order == id_order(g),
        order.to_set() == ids_of(g).to_set(),
        es == live_pairs_upto(g, g.edges@.len() as int),
        g.edges@.len() <= usize::MAX,
        order.len() <= usize::MAX,
    ensures
        has_edge_ranking(es),
{
    let rid = choose|rid: spec_fn(Seq<char>) -> int| id_ranking(g, rid);
    let r = |x: int| rid(order[x]);
    assert forall|e: int| 0 <= e < es.len() implies r((#[trigger] es[e]).1 as int) < r(es[e].0 as int) by {
        lemma_pair_edge(g, order, es, e);
        let i = live_idx(g)[e] as int;
        assert(rid(to_of(g, i)) < rid(from_of(g, i)));
    }
    assert(is_edge_ranking(es, r));
}

/// An index layering read through the id order is a layering of the ids.
proof fn lemma_layering_ids(g: WorkflowGraph, order: Seq<Seq<char>>, es: Seq<(usize, usize)>, wv: Seq<Seq<usize>>)
    requires
        order == id_order(g),
        strictly_sorted(order),
        distinct(order),
        order.to_set() == ids_of(g).to_set(),
        es == live_pairs_upto(g, g.edges@.len() as int),
        g.edges@.len() <= usize::MAX,
        order.len() <= usize::MAX,
        layered(order.len(), es, wv),
    ensures
        wave_layering(g, wv.map_values(|x: Seq<usize>| at_positions(order, x))),
{
    let w = wv.map_values(|x: Seq<usize>| at_positions(order, x));
    let n = order.len();
    assert forall|k: int, j: int| 0 <= k < w.len() && 0 <= j < w[k].len() implies #[trigger] w[k][j] == order[wv[k][j] as int] && wv[k][j] < n by {
        assert(w[k] == at_positions(order, wv[k]));
    }
    assert forall|k: int| 0 <= k < w.len() implies (#[trigger] w[k]).len() > 0 && strictly_sorted(w[k]) by {
        assert(w[k] == at_positions(order, wv[k]));
        assert(wv[k].len() > 0 && increasing(wv[k]));
        assert forall|j1: int, j2: int| 0 <= j1 < j2 < w[k].len() implies lex_lt(#[trigger] w[k][j1], #[trigger] w[k][j2]) by {
            assert(wv[k][j1] < wv[k][j2]);
            assert(w[k][j1] == order[wv[k][j1] as int]);
            assert(w[k][j2] == order[wv[k][j2] as int]);
        }
    }
    assert forall|k: int, j: int| 0 <= k < w.len() && 0 <= j < w[k].len() implies is_node(g, #[trigger] w[k][j]) by {
        let x = wv[k][j] as int;
        assert(w[k][j] == order[x]);
        assert(order.to_set().contains(order[x]));
        assert(ids_of(g).to_set().contains(order[x]));
    }
    assert forall|s: Seq<char>| is_node(g, s) implies #[trigger] placed(w, s) by {
        assert(ids_of(g).to_set().contains(s));
        assert(order.contains(s));
        let v = choose|v: int| 0 <= v < order.len() && order[v] == s;
        assert(in_waves(wv, v));
        let (k, j) = choose|k: int, j: int| 0 <= k < wv.len() && 0 <= j < wv[k].len() && #[trigger] wv[k][j] == v;
        assert(w[k][j] == s);
    }
    assert forall|k1: int, j1: int, k2: int, j2: int|
        0 <= k1 < w.len() && 0 <= j1 < w[k1].len() && 0 <= k2 < w.len() && 0 <= j2 < w[k2].len()
        && #[trigger] w[k1][j1] == #[trigger] w[k2][j2] implies k1 == k2 && j1 == j2 by {
        assert(w[k1][j1] == order[wv[k1][j1] as int]);
        assert(w[k2][j2] == order[wv[k2][j2] as int]);
        assert(wv[k1][j1] == wv[k2][j2]);
    }
    assert forall|i: int, k1: int, j1: int, k2: int, j2: int|
        0 <= i < g.edges@.len() && live(g, i) && 0 <= k1 < w.len() && 0 <= j1 < w[k1].len()
        && 0 <= k2 < w.len() && 0 <= j2 < w[k2].len()
        && #[trigger] from_of(g, i) == #[trigger] w[k1][j1] && to_of(g, i) == #[trigger] w[k2][j2] implies k1 < k2 by {
        lemma_idx_upto(g.edges@.len() as int, |q: int| live(g, q));
        assert(live_idx(g).contains(i as usize));
        let e = choose|e: int| 0 <= e < live_idx(g).len() && live_idx(g)[e] == i as usize;
        lemma_pair_edge(g, order, es, e);
        assert(w[k1][j1] == order[wv[k1][j1] as int]);
        assert(w[k2][j2] == order[wv[k2][j2] as int]);
        assert(es[e].0 == wv[k1][j1]);
        assert(es[e].1 == wv[k2][j2]);
    }
    assert forall|k: int, j: int| 0 < k < w.len() && 0 <= j < w[k].len() implies #[trigger] fed_from_previous(g, w, k, j) by {
        assert(has_pred_before(es, wv, k, j));
        let (e, j2) = choose|e: int, j2: int| #![trigger es[e], wv[k - 1][j2]] 0 <= e < es.len() && 0 <= j2 < wv[k - 1].len() && es[e].1 == wv[k][j] && es[e].0 == wv[k - 1][j2];
        lemma_pair_edge(g, order, es, e);
        let i = live_idx(g)[e] as int;
        assert(w[k][j] == order[wv[k][j] as int]);
        assert(w[k - 1][j2] == order[wv[k - 1][j2] as int]);
        assert(to_of(g, i) == w[k][j] && from_of(g, i) == w[k - 1][j2]);
    }
}

/// The error for a graph whose first fatal finding is `f`: a cycle is
/// reported as `CycleDetected`, anything else as `InvalidGraph: <message>`.
pub open spec fn fatal_error(f: GraphErrorView) -> Seq<char> {
    if f.code == "cycle"@ {
        "CycleDetected: workflow graph has a cycle"@
    } else {
        "InvalidGraph: "@ + f.message
    }
}

/// Execution waves: nodes within a wave may run together, waves run in
/// order. The graph is validated first, and its first fatal finding refuses
/// it (see `fatal_error`).
pub fn topological_waves(graph: &WorkflowGraph) -> (r: Result<Vec<Vec<String>>, String>)
    ensures
        exists|rv: Seq<GraphErrorView>| #[trigger] valid_report(*graph, rv) && match r {
            Ok(w) => runnable(rv) && wave_layering(*graph, waves_view(w@)),
            Err(e) => exists|k: int| #[trigger] is_first_fatal(rv, k) && e@ == fatal_error(rv[k]),
        },
        // a node runs in wave `k` exactly when its longest live in-path has `k` edges
        r matches Ok(w) ==> forall|k: int, j: int| 0 <= k < w@.len() && 0 <= j < w@[k]@.len()
            ==> longest_path_to(*graph, #[trigger] waves_view(w@)[k][j], k),
        // success exactly when validation finds nothing fatal
        forall|rv: Seq<GraphErrorView>| #[trigger] valid_report(*graph, rv) ==> (r is Ok <==> runnable(rv)),
{
    let report = validate_graph(graph);
    let ghost rv = report_view(report@);
    let n = report.len();
    for k in 0..n
        invariant
            n == report@.len(),
            rv == report_view(report@),
            valid_report(*graph, rv),
            forall|j: int| 0 <= j < k ==> (#[trigger] rv[j]).kind != GraphErrorKind::Fatal,
    {
        if report[k].kind == GraphErrorKind::Fatal {
            let e = if str_eq(report[k].code.as_str(), "cycle") {
                "CycleDetected: workflow graph has a cycle".to_owned()
            } else {
                concat2("InvalidGraph: ", report[k].message.as_str())
            };
            proof {
                assert(rv[k as int] == report@[k as int]@);
                assert(is_first_fatal(rv, k as int));
                assert(e@ == fatal_error(rv[k as int]));
                lemma_runnable_iff_sound(*graph, rv);
                assert forall|rv2: Seq<GraphErrorView>| #[trigger] valid_report(*graph, rv2) implies !runnable(rv2) by {
                    lemma_runnable_iff_sound(*graph, rv2);
                }
            }
            return Err(e);
        }
    }
    proof {
        assert(runnable(rv));
        lemma_runnable_facts(*graph, rv);
        lemma_runnable_iff_sound(*graph, rv);
        assert forall|rv2: Seq<GraphErrorView>| #[trigger] valid_report(*graph, rv2) implies runnable(rv2) by {
            lemma_runnable_iff_sound(*graph, rv2);
        }
    }
    let order = ordered_ids(graph);
    let es = live_pairs(graph, &order);
    let ghost sv = views(order@);
    let nn = order.len();
    let m = graph.edges.len();
    proof {
        lemma_pairs_ranked(*graph, sv, es@);
    }
    match waves(order.len(), &es) {
        Some(w) => {
            let ghost wv = w@.map_values(|x: Vec<usize>| x@);
            proof {
                lemma_layering_ids(*graph, sv, es@, wv);
            }
            let mut out: Vec<Vec<String>> = Vec::new();
            let nw = w.len();
            for k in 0..nw
                invariant
                    nw == w@.len(),
                    wv == w@.map_values(|x: Vec<usize>| x@),
                    layered(sv.len(), es@, wv),
                    sv == views(order@),
                    out@.len() == k,
                    forall|q: int| 0 <= q < k ==> views(#[trigger] out@[q]@) == at_positions(sv, wv[q]),
            {
                proof {
                    assert(wv[k as int] == w@[k as int]@);
                }
                let ids = ids_at(&order, &w[k]);
                out.push(ids);
            }
            proof {
                assert(waves_view(out@) =~= wv.map_values(|x: Seq<usize>| at_positions(sv, x)));
                assert(wave_layering(*graph, waves_view(out@)));
                lemma_waves_are_longest_paths(*graph, waves_view(out@));
            }
            Ok(out)
        },
        None => Err("CycleDetected: workflow graph has a cycle".to_owned()),
    }
}

/// The check a workflow passes before it is stored: its first fatal finding,
/// if any, refuses it as `InvalidGraph: <message>`.
pub fn check_savable(graph: &WorkflowGraph) -> (r: Result<(), String>)
    ensures
        exists|rv: Seq<GraphErrorView>| #[trigger] valid_report(*graph, rv) && match r {
            Ok(()) => runnable(rv),
            Err(e) => exists|k: int| #[trigger] is_first_fatal(rv, k) && e@ == "InvalidGraph: "@ + rv[k].message,
        },
{
    let report = validate_graph(graph);
    let ghost rv = report_view(report@);
    let n = report.len();
    for k in 0..n
        invariant
            n == report@.len(),
            rv == report_view(report@),
            valid_report(*graph, rv),
            forall|j: int| 0 <= j < k ==> (#[trigger] rv[j]).kind != GraphErrorKind::Fatal,
    {
        if report[k].kind == GraphErrorKind::Fatal {
            let e = concat2("InvalidGraph: ", report[k].message.as_str());
            proof {
                assert(rv[k as int] == report@[k as int]@);
                assert(is_first_fatal(rv, k as int));
            }
            return Err(e);
        }
    }
    proof {
        assert(runnable(rv));
    }
    Ok(())
}

/// A live path ending in wave `k` has at most `k` edges.
proof fn lemma_path_within_wave(g: WorkflowGraph, w: Seq<Seq<Seq<char>>>, p: Seq<Seq<char>>, k: int, j: int)
    requires
        wave_layering(g, w),
        live_path(g, p),
        0 <= k < w.len(),
        0 <= j < w[k].len(),
        p.last() == w[k][j],
    ensures
        p.len() <= k + 1,
    decreases p.len(),
{
    if p.len() > 1 {
        let n = p.len();
        let m = n - 2;
        assert(step_exists(g, p[m], p[m + 1]));
        assert(p[m + 1] == p[n - 1]);
        let i = choose|i: int| 0 <= i < g.edges@.len() && live(g, i) && #[trigger] from_of(g, i) == p[n - 2] && to_of(g, i) == p[n - 1];
        assert(is_node(g, p[n - 2]));
        assert(placed(w, p[n - 2]));
        let (k1, j1) = choose|k1: int, j1: int| 0 <= k1 < w.len() && 0 <= j1 < w[k1].len() && #[trigger] w[k1][j1] == p[n - 2];
        assert(from_of(g, i) == w[k1][j1] && to_of(g, i) == w[k][j]);
        assert(k1 < k);
        let q = p.drop_last();
        assert(live_path(g, q)) by {
            assert forall|t: int| 0 <= t < q.len() - 1 implies #[trigger] step_exists(g, q[t], q[t + 1]) by {
                assert(step_exists(g, p[t], p[t + 1]));
            }
        }
        lemma_path_within_wave(g, w, q, k1, j1);
    }
}

/// Every node of wave `k` ends a live path of `k` edges.
proof fn lemma_path_into_wave(g: WorkflowGraph, w: Seq<Seq<Seq<char>>>, k: int, j: int) -> (p: Seq<Seq<char>>)
    requires
        wave_layering(g, w),
        0 <= k < w.len(),
        0 <= j < w[k].len(),
    ensures
        live_path(g, p),
        p.len() == k + 1,
        p.last() == w[k][j],
    decreases k,
{
    if k == 0 {
        seq![w[k][j]]
    } else {
        assert(fed_from_previous(g, w, k, j));
        let (i, j2) = choose|i: int, j2: int| #![trigger from_of(g, i), w[k - 1][j2]]
            0 <= i < g.edges@.len() && live(g, i) && 0 <= j2 < w[k - 1].len()
            && to_of(g, i) == w[k][j] && from_of(g, i) == w[k - 1][j2];
        let q = lemma_path_into_wave(g, w, k - 1, j2);
        let p = q.push(w[k][j]);
        assert forall|t: int| 0 <= t < p.len() - 1 implies #[trigger] step_exists(g, p[t], p[t + 1]) by {
            if t < p.len() - 2 {
                assert(step_exists(g, q[t], q[t + 1]));
            } else {
                assert(from_of(g, i) == p[t] && to_of(g, i) == p[t + 1]);
            }
        }
        p
    }
}

/// The waves are the longest-path layers: a node stands in wave `k` exactly
/// when the longest live path ending at it has `k` edges, and every node
/// stands in a wave. (`topological_waves` returns waves with
/// `wave_layering`.)
pub proof fn lemma_waves_are_longest_paths(g: WorkflowGraph, w: Seq<Seq<Seq<char>>>)
    requires
        wave_layering(g, w),
    ensures
        forall|k: int, j: int| 0 <= k < w.len() && 0 <= j < w[k].len() ==> longest_path_to(g, #[trigger] w[k][j], k),
        forall|s: Seq<char>| is_node(g, s) ==> #[trigger] placed(w, s),
{
    assert forall|k: int, j: int| 0 <= k < w.len() && 0 <= j < w[k].len() implies longest_path_to(g, #[trigger] w[k][j], k) by {
        let p = lemma_path_into_wave(g, w, k, j);
        assert(live_path(g, p) && p.len() == k + 1 && p.last() == w[k][j]);
        assert forall|q: Seq<Seq<char>>| #[trigger] live_path(g, q) && q.last() == w[k][j] implies q.len() <= k + 1 by {
            lemma_path_within_wave(g, w, q, k, j);
        }
    }
}

} // verus!
