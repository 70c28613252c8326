//! Index-level graph algorithms behind workflow validation: depth-first cycle
//! search and layered (wave) topological ordering. Nodes are `0..n`; an
//! adjacency row lists the targets of a node's edges in edge order.
use vstd::prelude::*;

verus! {

/// Every adjacency target is a node, and there is a row per node.
pub open spec fn adj_wf(n: nat, adj: Seq<Seq<usize>>) -> bool {
    &&& adj.len() == n
    &&& forall|u: int, k: int| 0 <= u < n && 0 <= k < adj[u].len() ==> #[trigger] adj[u][k] < n
}

/// `v` is a successor of `u`.
pub open spec fn adj_edge(adj: Seq<Seq<usize>>, u: int, v: int) -> bool {
    0 <= u < adj.len() && exists|k: int| 0 <= k < adj[u].len() && #[trigger] adj[u][k] == v
}

/// A simple cycle: consecutive entries are edges, the walk ends where it
/// starts, and the nodes before the closing one are pairwise distinct.
pub open spec fn is_cycle(adj: Seq<Seq<usize>>, p: Seq<usize>) -> bool {
    &&& p.len() >= 2
    &&& p[0] == p[p.len() - 1]
    &&& forall|i: int| 0 <= i < p.len() - 1 ==> adj_edge(adj, #[trigger] p[i] as int, p[i + 1] as int)
    &&& forall|i: int, j: int| 0 <= i < j < p.len() - 1 ==> #[trigger] p[i] != #[trigger] p[j]
}

/// `r` strictly decreases along every edge.
pub open spec fn is_ranking(adj: Seq<Seq<usize>>, r: spec_fn(int) -> int) -> bool {
    forall|u: int, k: int| 0 <= u < adj.len() && 0 <= k < adj[u].len() ==> r(#[trigger] adj[u][k] as int) < r(u)
}

/// The graph has a ranking, i.e. it is acyclic.
pub open spec fn has_ranking(adj: Seq<Seq<usize>>) -> bool {
    exists|r: spec_fn(int) -> int| is_ranking(adj, r)
}

/// A ranking rules out every cycle.
pub proof fn lemma_ranking_excludes_cycle(adj: Seq<Seq<usize>>, r: spec_fn(int) -> int, p: Seq<usize>)
    requires
        is_cycle(adj, p),
    ensures
        !is_ranking(adj, r),
{
    if is_ranking(adj, r) {
    assert forall|i: int| 0 <= i < p.len() implies r(#[trigger] p[i] as int) <= r(p[0] as int) - i by {
        lemma_rank_walk(adj, r, p, i);
    }
    assert(r(p[p.len() - 1] as int) <= r(p[0] as int) - (p.len() - 1));
    }
}

proof fn lemma_rank_walk(adj: Seq<Seq<usize>>, r: spec_fn(int) -> int, p: Seq<usize>, i: int)
    requires
        is_ranking(adj, r),
        is_cycle(adj, p),
        0 <= i < p.len(),
    ensures
        r(p[i] as int) <= r(p[0] as int) - i,
    decreases i,
{
    if i > 0 {
        lemma_rank_walk(adj, r, p, i - 1);
        assert(adj_edge(adj, p[i - 1] as int, p[i] as int));
        let k = choose|k: int| 0 <= k < adj[p[i - 1] as int].len() && #[trigger] adj[p[i - 1] as int][k] == p[i];
        assert(r(adj[p[i - 1] as int][k] as int) < r(p[i - 1] as int));
    }
}

/// Number of white (unvisited) entries.
pub open spec fn count_white(c: Seq<u8>) -> nat
    decreases c.len(),
{
    if c.len() == 0 {
        0
    } else {
        count_white(c.drop_last()) + (if c.last() == 0u8 { 1nat } else { 0nat })
    }
}

proof fn lemma_count_white_update(c: Seq<u8>, i: int, x: u8)
    requires
        0 <= i < c.len(),
        c[i] == 0u8,
        x != 0u8,
    ensures
        count_white(c.update(i, x)) + 1 == count_white(c),
    decreases c.len(),
{
    let d = c.update(i, x);
    if i == c.len() - 1 {
        assert(d.drop_last() =~= c.drop_last());
    } else {
        assert(d.drop_last() =~= c.drop_last().update(i, x));
        lemma_count_white_update(c.drop_last(), i, x);
    }
}

proof fn lemma_count_white_mono(c0: Seq<u8>, c1: Seq<u8>)
    requires
        c0.len() == c1.len(),
        forall|u: int| 0 <= u < c0.len() && c0[u] != 0u8 ==> #[trigger] c1[u] != 0u8,
    ensures
        count_white(c1) <= count_white(c0),
    decreases c0.len(),
{
    if c0.len() > 0 {
        let d0 = c0.drop_last();
        let d1 = c1.drop_last();
        assert forall|u: int| 0 <= u < d0.len() && d0[u] != 0u8 implies #[trigger] d1[u] != 0u8 by {
            assert(c1[u] != 0u8);
        }
        lemma_count_white_mono(d0, d1);
        if c0.last() != 0u8 {
            assert(c1[c1.len() - 1] != 0u8);
        }
    }
}

proof fn lemma_count_white_pos(c: Seq<u8>, i: int)
    requires
        0 <= i < c.len(),
        c[i] == 0u8,
    ensures
        count_white(c) > 0,
    decreases c.len(),
{
    if i < c.len() - 1 {
        lemma_count_white_pos(c.drop_last(), i);
    }
}

const WHITE: u8 = 0;
const GRAY: u8 = 1;
const BLACK: u8 = 2;

/// The search state invariant: gray nodes are exactly the stack, which is a
/// path; black nodes have only black successors that finished earlier.
spec fn dfs_inv(adj: Seq<Seq<usize>>, color: Seq<u8>, stack: Seq<usize>, fin: Seq<int>, cnt: int) -> bool {
    &&& color.len() == adj.len()
    &&& fin.len() == adj.len()
    &&& adj_wf(adj.len(), adj)
    &&& forall|u: int| 0 <= u < color.len() ==> #[trigger] color[u] <= 2
    &&& forall|i: int| 0 <= i < stack.len() ==> #[trigger] stack[i] < adj.len() && color[stack[i] as int] == GRAY
    &&& forall|u: int| 0 <= u < color.len() && #[trigger] color[u] == GRAY ==> stack.contains(u as usize)
    &&& forall|i: int, j: int| 0 <= i < j < stack.len() ==> #[trigger] stack[i] != #[trigger] stack[j]
    &&& forall|i: int| 0 <= i < stack.len() - 1 ==> adj_edge(adj, #[trigger] stack[i] as int, stack[i + 1] as int)
    &&& forall|u: int| 0 <= u < color.len() && #[trigger] color[u] == BLACK ==> {
        &&& fin[u] < cnt
        &&& forall|k: int| 0 <= k < adj[u].len() ==> color[#[trigger] adj[u][k] as int] == BLACK && fin[adj[u][k] as int] < fin[u]
    }
}

/// Colors only advance and black nodes keep their finish times.
spec fn dfs_mono(c0: Seq<u8>, f0: Seq<int>, c1: Seq<u8>, f1: Seq<int>) -> bool {
    &&& c0.len() == c1.len()
    &&& forall|u: int| 0 <= u < c0.len() && c0[u] == BLACK ==> #[trigger] c1[u] == BLACK && f1[u] == f0[u]
    &&& forall|u: int| 0 <= u < c0.len() && c0[u] == GRAY ==> #[trigger] c1[u] == GRAY
    &&& forall|u: int| 0 <= u < c0.len() && c1[u] == GRAY ==> #[trigger] c0[u] == GRAY
}

/// Depth-first visit from a white node. Returns a cycle through the gray path
/// as soon as an edge reaches a gray node.
/// The stack suffix from `next`, closed by the edge from the stack top back
/// to `next`.
fn gray_cycle(adj: &Vec<Vec<usize>>, stack: &Vec<usize>, next: usize) -> (path: Vec<usize>)
    requires
        stack@.len() > 0,
        stack@.contains(next),
        forall|i: int, j: int| 0 <= i < j < stack@.len() ==> #[trigger] stack@[i] != #[trigger] stack@[j],
        forall|i: int| 0 <= i < stack@.len() - 1 ==> adj_edge(adj@.map_values(|row: Vec<usize>| row@), #[trigger] stack@[i] as int, stack@[i + 1] as int),
        adj_edge(adj@.map_values(|row: Vec<usize>| row@), stack@.last() as int, next as int),
    ensures
        is_cycle(adj@.map_values(|row: Vec<usize>| row@), path@),
{
    let ghost a = adj@.map_values(|row: Vec<usize>| row@);
    let mut j: usize = 0;
    let sl = stack.len();
    while j < sl && stack[j] != next
        invariant
            sl == stack@.len(),
            j <= sl,
            stack@.contains(next),
            forall|q: int| 0 <= q < j ==> stack@[q] != next,
        decreases sl - j,
    {
        j = j + 1;
    }
    proof {
        if j == sl {
            let q = choose|q: int| 0 <= q < stack@.len() && #[trigger] stack@[q] == next;
            assert(false);
        }
    }
    let mut path: Vec<usize> = Vec::new();
    let mut t = j;
    while t < sl
        invariant
            sl == stack@.len(),
            j <= t <= sl,
            j < sl,
            path@ == stack@.subrange(j as int, t as int),
        decreases sl - t,
    {
        path.push(stack[t]);
        assert(stack@.subrange(j as int, t + 1) == stack@.subrange(j as int, t as int).push(stack@[t as int]));
        t = t + 1;
    }
    path.push(next);
    proof {
        let p = path@;
        let s = stack@;
        assert(s[j as int] == next);
        assert(p[0] == next);
        assert forall|i: int| 0 <= i < p.len() - 1 implies adj_edge(a, #[trigger] p[i] as int, p[i + 1] as int) by {
            if i < p.len() - 2 {
                assert(p[i] == s[j + i]);
                assert(p[i + 1] == s[j + i + 1]);
            } else {
                assert(p[i] == s[s.len() - 1]);
            }
        }
        assert forall|i: int, k: int| 0 <= i < k < p.len() - 1 implies #[trigger] p[i] != #[trigger] p[k] by {
            assert(p[i] == s[j + i]);
            assert(p[k] == s[j + k]);
        }
    }
    path
}

#[verifier::rlimit(60)]
fn dfs(
    node: usize,
    adj: &Vec<Vec<usize>>,
    color: &mut Vec<u8>,
    stack: &mut Vec<usize>,
    fin: &mut Ghost<Seq<int>>,
    cnt: &mut Ghost<int>,
) -> (r: Option<Vec<usize>>)
    requires
        node < adj@.len(),
        old(color)@[node as int] == WHITE,
        dfs_inv(adj@.map_values(|row: Vec<usize>| row@), old(color)@, old(stack)@, old(fin)@, old(cnt)@),
        old(stack)@.len() > 0 ==> adj_edge(adj@.map_values(|row: Vec<usize>| row@), old(stack)@.last() as int, node as int),
    ensures
        r matches Some(p) ==> is_cycle(adj@.map_values(|row: Vec<usize>| row@), p@),
        r is None ==> {
            &&& dfs_inv(adj@.map_values(|row: Vec<usize>| row@), final(color)@, final(stack)@, final(fin)@, final(cnt)@)
            &&& final(stack)@ == old(stack)@
            &&& final(color)@[node as int] == BLACK
            &&& dfs_mono(old(color)@, old(fin)@, final(color)@, final(fin)@)
            &&& old(cnt)@ <= final(cnt)@
        },
    decreases count_white(old(color)@),
{
    let ghost a = adj@.map_values(|row: Vec<usize>| row@);
    let ghost c0 = color@;
    let ghost f0 = fin@;
    proof {
        lemma_count_white_update(color@, node as int, GRAY);
    }
    color.set(node, GRAY);
    stack.push(node);
    let ghost cg = color@;
    proof {
        assert(dfs_inv(a, color@, stack@, fin@, cnt@)) by {
            let s = stack@;
            assert forall|i: int| 0 <= i < s.len() implies #[trigger] s[i] < a.len() && color@[s[i] as int] == GRAY by {
                if i < s.len() - 1 {
                    assert(old(stack)@[i] != node) by {
                        if old(stack)@[i] == node {
                            assert(c0[node as int] == GRAY);
                        }
                    }
                }
            }
            assert forall|u: int| 0 <= u < color@.len() && color@[u] == GRAY implies #[trigger] s.contains(u as usize) by {
                if u != node {
                    assert(old(stack)@.contains(u as usize));
                    let k = choose|k: int| 0 <= k < old(stack)@.len() && old(stack)@[k] == u as usize;
                    assert(s[k] == u as usize);
                } else {
                    assert(s[s.len() - 1] == node);
                }
            }
            assert forall|i: int, j: int| 0 <= i < j < s.len() implies #[trigger] s[i] != #[trigger] s[j] by {
                if j == s.len() - 1 {
                    assert(c0[s[i] as int] == GRAY);
                }
            }
            assert forall|i: int| 0 <= i < s.len() - 1 implies adj_edge(a, #[trigger] s[i] as int, s[i + 1] as int) by {
                if i < s.len() - 2 {
                    assert(s[i] == old(stack)@[i]);
                    assert(s[i + 1] == old(stack)@[i + 1]);
                }
            }
            assert forall|u: int| 0 <= u < color@.len() && #[trigger] color@[u] == BLACK implies {
                &&& fin@[u] < cnt@
                &&& forall|k: int| 0 <= k < a[u].len() ==> color@[#[trigger] a[u][k] as int] == BLACK && fin@[a[u][k] as int] < fin@[u]
            } by {
                assert(c0[u] == BLACK);
                assert forall|k: int| 0 <= k < a[u].len() implies color@[#[trigger] a[u][k] as int] == BLACK && fin@[a[u][k] as int] < fin@[u] by {
                    assert(c0[a[u][k] as int] == BLACK);
                }
            }
        }
    }
    let row = &adj[node];
    let m = row.len();
    let mut k: usize = 0;
    while k < m
        invariant
            a == adj@.map_values(|row: Vec<usize>| row@),
            c0 == old(color)@,
            f0 == old(fin)@,
            c0.len() == a.len(),
            cg.len() == a.len(),
            cg == c0.update(node as int, GRAY),
            row@ == a[node as int],
            m == row@.len(),
            k <= m,
            node < a.len(),
            dfs_inv(a, color@, stack@, fin@, cnt@),
            stack@ == old(stack)@.push(node),
            color@[node as int] == GRAY,
            dfs_mono(cg, f0, color@, fin@),
            count_white(color@) < count_white(c0),
            forall|q: int| 0 <= q < k ==> color@[#[trigger] row@[q] as int] == BLACK && fin@[row@[q] as int] < cnt@,
            old(cnt)@ <= cnt@,
            forall|u: int| 0 <= u < c0.len() && c0[u] == BLACK ==> #[trigger] color@[u] == BLACK && fin@[u] == f0[u],
            forall|u: int| 0 <= u < c0.len() && c0[u] == GRAY ==> #[trigger] color@[u] == GRAY,
            forall|u: int| 0 <= u < c0.len() && color@[u] == GRAY ==> (#[trigger] c0[u] == GRAY || u == node),
        decreases m - k,
    {
        let next = row[k];
        proof {
            assert(adj_wf(a.len(), a));
            assert(next < a.len());
        }
        let cnext = color[next];
        if cnext == WHITE {
            proof {
                lemma_count_white_pos(color@, next as int);
                assert(stack@.last() == node);
                assert(adj_edge(a, node as int, next as int));
            }
            let ghost cb = color@;
            let ghost fb = fin@;
            let ghost cntb = cnt@;
            assert(forall|u: int| 0 <= u < c0.len() && c0[u] == BLACK ==> #[trigger] cb[u] == BLACK && fb[u] == f0[u]);
            assert(forall|u: int| 0 <= u < c0.len() && c0[u] == GRAY ==> #[trigger] cb[u] == GRAY);
            assert(count_white(color@) < count_white(old(color)@));
            let res = dfs(next, adj, color, stack, fin, cnt);
            if let Some(p) = res {
                return Some(p);
            }
            assert(dfs_mono(cb, fb, color@, fin@));
            proof {
                lemma_count_white_mono(cb, color@);
                assert forall|u: int| 0 <= u < c0.len() && c0[u] == BLACK implies #[trigger] color@[u] == BLACK && fin@[u] == f0[u] by {
                    assert(cb[u] == BLACK);
                    assert(fb[u] == f0[u]);
                }
                assert forall|u: int| 0 <= u < c0.len() && c0[u] == GRAY implies #[trigger] color@[u] == GRAY by {
                    assert(cb[u] == GRAY);
                }
                assert forall|u: int| 0 <= u < c0.len() && color@[u] == GRAY implies (#[trigger] c0[u] == GRAY || u == node) by {
                    assert(cb[u] == GRAY);
                }
                assert(dfs_mono(cg, f0, color@, fin@)) by {
                    assert forall|u: int| 0 <= u < cg.len() && cg[u] == BLACK implies #[trigger] color@[u] == BLACK && fin@[u] == f0[u] by {
                        assert(c0[u] == BLACK);
                    }
                    assert forall|u: int| 0 <= u < cg.len() && cg[u] == GRAY implies #[trigger] color@[u] == GRAY by {
                        assert(cb[u] == GRAY);
                    }
                    assert forall|u: int| 0 <= u < cg.len() && color@[u] == GRAY implies #[trigger] cg[u] == GRAY by {
                        assert(cb[u] == GRAY);
                    }
                }
                assert forall|q: int| 0 <= q < k + 1 implies color@[#[trigger] row@[q] as int] == BLACK && fin@[row@[q] as int] < cnt@ by {
                    if q < k {
                        assert(cb[row@[q] as int] == BLACK);
                    } else {
                        assert(color@[next as int] == BLACK);
                    }
                }
            }
        } else if cnext == GRAY {
            proof {
                assert(color@[next as int] == GRAY);
                assert(stack@.contains(next));
                assert(stack@.last() == node);
                assert(a[node as int][k as int] == next);
                assert(adj_edge(a, node as int, next as int));
            }
            let path = gray_cycle(adj, stack, next);
            return Some(path);
        } else {
            proof {
                assert(color@[next as int] == BLACK);
            }
        }
        k = k + 1;
    }
    let ghost cc: int = cnt@;
    proof {
        fin@ = fin@.update(node as int, cc);
        cnt@ = cc + 1;
    }
    color.set(node, BLACK);
    stack.pop();
    proof {
        let s = stack@;
        assert(s =~= old(stack)@);
        assert(dfs_inv(a, color@, stack@, fin@, cnt@)) by {
            assert forall|i: int| 0 <= i < s.len() implies #[trigger] s[i] < a.len() && color@[s[i] as int] == GRAY by {
                assert(old(stack)@[i] != node) by {
                    if old(stack)@[i] == node {
                        assert(c0[node as int] == GRAY);
                    }
                }
            }
            assert forall|u: int| 0 <= u < color@.len() && color@[u] == GRAY implies #[trigger] s.contains(u as usize) by {
                assert(u != node);
                assert(c0[u] == GRAY);
                assert(old(stack)@.contains(u as usize)) by {
                    // gray at entry means on the entry stack
                }
            }
            assert forall|u: int| 0 <= u < color@.len() && #[trigger] color@[u] == BLACK implies {
                &&& fin@[u] < cnt@
                &&& forall|q: int| 0 <= q < a[u].len() ==> color@[#[trigger] a[u][q] as int] == BLACK && fin@[a[u][q] as int] < fin@[u]
            } by {
                if u != node {
                    assert forall|q: int| 0 <= q < a[u].len() implies color@[#[trigger] a[u][q] as int] == BLACK && fin@[a[u][q] as int] < fin@[u] by {
                        assert(a[u][q] != node);
                    }
                } else {
                    assert forall|q: int| 0 <= q < a[u].len() implies color@[#[trigger] a[u][q] as int] == BLACK && fin@[a[u][q] as int] < fin@[u] by {
                        assert(row@[q] == a[u][q]);
                    }
                }
            }
        }
    }
    None
}

/// Depth-first cycle search over all nodes in index order. Returns a cycle
/// when the graph has one, and otherwise nothing, in which case the graph has a
/// ranking.
pub fn find_cycle(adj: &Vec<Vec<usize>>) -> (r: Option<Vec<usize>>)
    requires
        adj_wf(adj@.len() as nat, adj@.map_values(|row: Vec<usize>| row@)),
    ensures
        r matches Some(p) ==> is_cycle(adj@.map_values(|row: Vec<usize>| row@), p@),
        r is None ==> has_ranking(adj@.map_values(|row: Vec<usize>| row@)),
{
    let ghost a = adj@.map_values(|row: Vec<usize>| row@);
    let n = adj.len();
    let mut color: Vec<u8> = Vec::new();
    let mut i: usize = 0;
    while i < n
        invariant
            n == adj@.len(),
            i <= n,
            color@.len() == i,
            forall|u: int| 0 <= u < i ==> #[trigger] color@[u] == WHITE,
        decreases n - i,
    {
        color.push(WHITE);
        i = i + 1;
    }
    let mut stack: Vec<usize> = Vec::new();
    let mut fin: Ghost<Seq<int>> = Ghost(Seq::new(n as nat, |u: int| 0int));
    let mut cnt: Ghost<int> = Ghost(0int);
    let mut s: usize = 0;
    while s < n
        invariant
            a == adj@.map_values(|row: Vec<usize>| row@),
            n == a.len(),
            s <= n,
            stack@.len() == 0,
            dfs_inv(a, color@, stack@, fin@, cnt@),
            forall|u: int| 0 <= u < s ==> #[trigger] color@[u] == BLACK,
        decreases n - s,
    {
        if color[s] == WHITE {
            let ghost cb = color@;
            let res = dfs(s, adj, &mut color, &mut stack, &mut fin, &mut cnt);
            if let Some(p) = res {
                return Some(p);
            }
            proof {
                assert forall|u: int| 0 <= u < s + 1 implies #[trigger] color@[u] == BLACK by {
                    if u < s {
                        assert(cb[u] == BLACK);
                    }
                }
            }
        } else {
            proof {
                if color@[s as int] == GRAY {
                    assert(stack@.contains(s));
                }
            }
        }
        s = s + 1;
    }
    proof {
        let f = fin@;
        let r = |u: int| f[u];
        assert(is_ranking(a, r)) by {
            assert forall|u: int, k: int| 0 <= u < a.len() && 0 <= k < a[u].len() implies r(#[trigger] a[u][k] as int) < r(u) by {
                assert(color@[u] == BLACK);
            }
        }
    }
    None
}

/// Edges are pairs of node indices below `n`.
pub open spec fn edges_wf(n: nat, es: Seq<(usize, usize)>) -> bool {
    forall|e: int| 0 <= e < es.len() ==> (#[trigger] es[e]).0 < n && es[e].1 < n
}

/// `r` strictly decreases along every listed edge.
pub open spec fn is_edge_ranking(es: Seq<(usize, usize)>, r: spec_fn(int) -> int) -> bool {
    forall|e: int| 0 <= e < es.len() ==> r((#[trigger] es[e]).1 as int) < r(es[e].0 as int)
}

pub open spec fn has_edge_ranking(es: Seq<(usize, usize)>) -> bool {
    exists|r: spec_fn(int) -> int| is_edge_ranking(es, r)
}

/// Strictly increasing indices.
pub open spec fn increasing(s: Seq<usize>) -> bool {
    forall|i: int, j: int| 0 <= i < j < s.len() ==> #[trigger] s[i] < #[trigger] s[j]
}

/// The waves are a layering of the graph: every node lies in exactly one
/// wave, waves are non-empty and increasing, every edge goes to a later wave,
/// and every node past the first wave has an edge from the wave just before.
pub open spec fn layered(n: nat, es: Seq<(usize, usize)>, w: Seq<Seq<usize>>) -> bool {
    &&& forall|k: int| 0 <= k < w.len() ==> (#[trigger] w[k]).len() > 0 && increasing(w[k])
    &&& forall|k: int, j: int| 0 <= k < w.len() && 0 <= j < w[k].len() ==> #[trigger] w[k][j] < n
    &&& forall|v: int| 0 <= v < n ==> #[trigger] in_waves(w, v)
    &&& forall|k1: int, j1: int, k2: int, j2: int|
        0 <= k1 < w.len() && 0 <= j1 < w[k1].len() && 0 <= k2 < w.len() && 0 <= j2 < w[k2].len()
        && #[trigger] w[k1][j1] == #[trigger] w[k2][j2] ==> k1 == k2 && j1 == j2
    &&& forall|e: int, k1: int, j1: int, k2: int, j2: int|
        0 <= e < es.len() && 0 <= k1 < w.len() && 0 <= j1 < w[k1].len() && 0 <= k2 < w.len() && 0 <= j2 < w[k2].len()
        && (#[trigger] es[e]).0 == #[trigger] w[k1][j1] && es[e].1 == #[trigger] w[k2][j2] ==> k1 < k2
    &&& forall|k: int, j: int| 0 < k < w.len() && 0 <= j < w[k].len() ==> #[trigger] has_pred_before(es, w, k, j)
}

/// Node `w[k][j]` has an edge from the wave just before it.
pub open spec fn has_pred_before(es: Seq<(usize, usize)>, w: Seq<Seq<usize>>, k: int, j: int) -> bool {
        exists|e: int, j2: int| #![trigger es[e], w[k - 1][j2]] 0 <= e < es.len() && 0 <= j2 < w[k - 1].len() && es[e].1 == w[k][j] && es[e].0 == w[k - 1][j2]
}

/// Node `v` is placed in some wave.
pub open spec fn in_waves(w: Seq<Seq<usize>>, v: int) -> bool {
    exists|k: int, j: int| 0 <= k < w.len() && 0 <= j < w[k].len() && #[trigger] w[k][j] == v
}

/// Number of live (not yet removed) edges into `v` among the first `m` edges.
pub open spec fn live_in(es: Seq<(usize, usize)>, rm: Seq<bool>, v: int, m: int) -> nat
    decreases m,
{
    if m <= 0 {
        0
    } else {
        live_in(es, rm, v, m - 1) + (if !rm[m - 1] && es[m - 1].1 == v { 1nat } else { 0nat })
    }
}

proof fn lemma_live_in_remove(es: Seq<(usize, usize)>, rm: Seq<bool>, e: int, v: int, m: int)
    requires
        0 <= e < rm.len(),
        !rm[e],
        m <= rm.len(),
    ensures
        live_in(es, rm.update(e, true), v, m) + (if e < m && es[e].1 == v { 1nat } else { 0nat }) == live_in(es, rm, v, m),
    decreases m,
{
    if m > 0 {
        lemma_live_in_remove(es, rm, e, v, m - 1);
    }
}

proof fn lemma_live_in_zero(es: Seq<(usize, usize)>, rm: Seq<bool>, v: int, m: int)
    requires
        0 <= m <= rm.len(),
    ensures
        live_in(es, rm, v, m) == 0 <==> forall|e: int| 0 <= e < m ==> rm[e] || #[trigger] es[e].1 != v,
    decreases m,
{
    if m > 0 {
        lemma_live_in_zero(es, rm, v, m - 1);
    }
}

proof fn lemma_max_rank(n: int, p: spec_fn(int) -> bool, r: spec_fn(int) -> int, v0: int) -> (v: int)
    requires
        0 <= v0 < n,
        p(v0),
    ensures
        0 <= v < n,
        p(v),
        forall|u: int| 0 <= u < n && #[trigger] p(u) ==> r(u) <= r(v),
    decreases n,
{
    if n == 1 {
        v0
    } else if v0 == n - 1 {
        if exists|u: int| 0 <= u < n - 1 && #[trigger] p(u) {
            let u0 = choose|u: int| 0 <= u < n - 1 && #[trigger] p(u);
            let m = lemma_max_rank(n - 1, p, r, u0);
            if r(m) >= r(n - 1) { m } else { n - 1 }
        } else {
            n - 1
        }
    } else {
        let m = lemma_max_rank(n - 1, p, r, v0);
        if p(n - 1) && r(n - 1) > r(m) { n - 1 } else { m }
    }
}

/// Sorts distinct indices into increasing order.
fn sort_indices(v: Vec<usize>) -> (out: Vec<usize>)
    requires
        forall|i: int, j: int| 0 <= i < j < v@.len() ==> #[trigger] v@[i] != #[trigger] v@[j],
    ensures
        increasing(out@),
        forall|x: usize| out@.contains(x) <==> v@.contains(x),
        out@.len() == v@.len(),
{
    let mut out: Vec<usize> = Vec::new();
    let n = v.len();
    let mut i: usize = 0;
    while i < n
        invariant
            n == v@.len(),
            i <= n,
            forall|a: int, b: int| 0 <= a < b < v@.len() ==> #[trigger] v@[a] != #[trigger] v@[b],
            increasing(out@),
            forall|x: usize| out@.contains(x) <==> v@.take(i as int).contains(x),
            out@.len() == i,
        decreases n - i,
    {
        let x = v[i];
        let ghost o = out@;
        assert(!o.contains(x)) by {
            if o.contains(x) {
                assert(v@.take(i as int).contains(x));
                let j = choose|j: int| 0 <= j < i && #[trigger] v@.take(i as int)[j] == x;
                assert(v@[j] == v@[i as int]);
            }
        }
        let mut p: usize = 0;
        while p < out.len() && out[p] < x
            invariant
                p <= out@.len(),
                out@ == o,
                forall|q: int| 0 <= q < p ==> #[trigger] o[q] < x,
            decreases out.len() - p,
        {
            p = p + 1;
        }
        proof {
            if p < o.len() {
                assert(o[p as int] != x) by { assert(o.contains(o[p as int])); }
            }
        }
        out.insert(p, x);
        proof {
            assert(out@ =~= o.insert(p as int, x));
            assert forall|y: usize| out@.contains(y) <==> v@.take(i + 1).contains(y) by {
                assert(v@.take(i + 1) =~= v@.take(i as int).push(x));
                if out@.contains(y) {
                    let k = choose|k: int| 0 <= k < out@.len() && #[trigger] out@[k] == y;
                    if k < p { assert(o[k] == y); assert(o.contains(y)); }
                    else if k > p { assert(o[k - 1] == y); assert(o.contains(y)); }
                    if y != x { assert(v@.take(i as int).contains(y)); let q = choose|q: int| 0 <= q < i && #[trigger] v@.take(i as int)[q] == y; assert(v@.take(i + 1)[q] == y); }
                    else { assert(v@.take(i + 1)[i as int] == y); }
                }
                if v@.take(i + 1).contains(y) {
                    let q = choose|q: int| 0 <= q < i + 1 && #[trigger] v@.take(i + 1)[q] == y;
                    if q < i { assert(v@.take(i as int)[q] == y); assert(o.contains(y));
                        let k = choose|k: int| 0 <= k < o.len() && #[trigger] o[k] == y;
                        if k < p { assert(out@[k] == y); } else { assert(out@[k + 1] == y); }
                    } else { assert(out@[p as int] == y); }
                }
            }
        }
        i = i + 1;
    }
    assert(v@.take(n as int) =~= v@);
    out
}

proof fn lemma_live_in_le(es: Seq<(usize, usize)>, rm: Seq<bool>, v: int, m: int)
    requires
        0 <= m,
    ensures
        live_in(es, rm, v, m) <= m,
    decreases m,
{
    if m > 0 {
        lemma_live_in_le(es, rm, v, m - 1);
    }
}

proof fn lemma_live_in_pos(es: Seq<(usize, usize)>, rm: Seq<bool>, e: int, m: int)
    requires
        0 <= e < m <= rm.len(),
        !rm[e],
    ensures
        live_in(es, rm, es[e].1 as int, m) > 0,
{
    lemma_live_in_zero(es, rm, es[e].1 as int, m);
}

/// Number of indices below `n` satisfying `f`.
pub open spec fn count_where(n: int, f: spec_fn(int) -> bool) -> nat
    decreases n,
{
    if n <= 0 {
        0
    } else {
        count_where(n - 1, f) + (if f(n - 1) { 1nat } else { 0nat })
    }
}

proof fn lemma_count_where_sub(n: int, f: spec_fn(int) -> bool, g: spec_fn(int) -> bool, x: int)
    requires
        forall|v: int| 0 <= v < n && #[trigger] g(v) ==> f(v),
        0 <= x < n,
        f(x),
        !g(x),
    ensures
        count_where(n, g) < count_where(n, f),
    decreases n,
{
    if x < n - 1 {
        lemma_count_where_sub(n - 1, f, g, x);
    } else {
        lemma_count_where_le(n - 1, f, g);
    }
}

proof fn lemma_count_where_le(n: int, f: spec_fn(int) -> bool, g: spec_fn(int) -> bool)
    requires
        forall|v: int| 0 <= v < n && #[trigger] g(v) ==> f(v),
    ensures
        count_where(n, g) <= count_where(n, f),
    decreases n,
{
    if n > 0 {
        lemma_count_where_le(n - 1, f, g);
    }
}

/// Edge index `e` occurs in the row.
spec fn row_has(row: Seq<usize>, e: int) -> bool {
    exists|i: int| 0 <= i < row.len() && #[trigger] row[i] as int == e
}

/// `u` is one of the first `p` frontier entries.
spec fn done_before(fr: Seq<usize>, p: int, u: int) -> bool {
    exists|i: int| 0 <= i < p && #[trigger] fr[i] == u
}

/// The state of the layering while wave `w` (the frontier) is processed:
/// entries `0..p` of the frontier and the first `q` out-edges of `cur` are done.
spec fn kahn_state(
    n: int,
    es: Seq<(usize, usize)>,
    succ: Seq<Seq<usize>>,
    indeg: Seq<usize>,
    placed: Seq<bool>,
    lev: Seq<int>,
    rm: Seq<bool>,
    w: int,
    fr: Seq<usize>,
    p: int,
    next: Seq<usize>,
    cur: int,
    q: int,
) -> bool {
    let m = es.len() as int;
    &&& w >= 0
    &&& edges_wf(n as nat, es)
    &&& succ.len() == n
    &&& forall|u: int, e: int| 0 <= u < n && 0 <= e < m ==> (#[trigger] row_has(succ[u], e) <==> es[e].0 == u)
    &&& forall|u: int| 0 <= u < n ==> increasing(#[trigger] succ[u])
    &&& forall|u: int, i: int| 0 <= u < n && 0 <= i < succ[u].len() ==> #[trigger] succ[u][i] < m
    &&& indeg.len() == n && placed.len() == n && lev.len() == n && rm.len() == m
    &&& forall|v: int| 0 <= v < n ==> -1 <= #[trigger] lev[v] <= w + 1
    &&& forall|v: int| 0 <= v < n ==> (#[trigger] placed[v] <==> lev[v] >= 0)
    &&& increasing(fr)
    &&& 0 <= p <= fr.len()
    &&& forall|j: int| 0 <= j < fr.len() ==> #[trigger] fr[j] < n && lev[fr[j] as int] == w
    &&& forall|v: int| 0 <= v < n && #[trigger] lev[v] == w ==> fr.contains(v as usize)
    &&& forall|i: int, j: int| 0 <= i < j < next.len() ==> #[trigger] next[i] != #[trigger] next[j]
    &&& forall|j: int| 0 <= j < next.len() ==> #[trigger] next[j] < n && lev[next[j] as int] == w + 1
    &&& forall|v: int| 0 <= v < n && #[trigger] lev[v] == w + 1 ==> next.contains(v as usize)
    &&& forall|e: int| 0 <= e < m ==> (#[trigger] rm[e] <==> (
            (0 <= lev[es[e].0 as int] < w)
            || done_before(fr, p, es[e].0 as int)
            || (es[e].0 == cur && 0 <= cur < n && row_has(succ[cur].take(q), e))))
    &&& forall|v: int| 0 <= v < n ==> #[trigger] indeg[v] == live_in(es, rm, v, m)
    &&& forall|v: int| 0 <= v < n && 0 <= #[trigger] lev[v] <= w ==> live_in(es, rm, v, m) == 0
    &&& forall|v: int| 0 <= v < n && (#[trigger] lev[v] == -1 || lev[v] == w + 1) ==> (lev[v] == w + 1 <==> live_in(es, rm, v, m) == 0)
    &&& forall|e: int| 0 <= e < m && lev[(#[trigger] es[e]).1 as int] >= 0 ==> 0 <= lev[es[e].0 as int] < lev[es[e].1 as int]
    &&& forall|v: int| 0 <= v < n && #[trigger] lev[v] >= 1 ==> exists|e: int| 0 <= e < m && #[trigger] es[e].1 == v && lev[es[e].0 as int] == lev[v] - 1
}

/// Removes the out-edges of the frontier node at position `p`, placing into
/// the next wave every node whose last live in-edge goes.
fn kahn_step(
    n: usize,
    es: &Vec<(usize, usize)>,
    succ: &Vec<Vec<usize>>,
    indeg: &mut Vec<usize>,
    placed: &mut Vec<bool>,
    lev: &mut Ghost<Seq<int>>,
    rm: &mut Ghost<Seq<bool>>,
    w: Ghost<int>,
    fr: &Vec<usize>,
    p: usize,
    next: &mut Vec<usize>,
)
    requires
        p < fr@.len(),
        kahn_state(n as int, es@, succ@.map_values(|r: Vec<usize>| r@), old(indeg)@, old(placed)@, old(lev)@, old(rm)@, w@, fr@, p as int, old(next)@, fr@[p as int] as int, 0),
    ensures
        kahn_state(n as int, es@, succ@.map_values(|r: Vec<usize>| r@), final(indeg)@, final(placed)@, final(lev)@, final(rm)@, w@, fr@, p + 1, final(next)@, -1, 0),
        forall|v: int| 0 <= v < n && 0 <= old(lev)@[v] <= w@ ==> #[trigger] final(lev)@[v] == old(lev)@[v],
        forall|v: int| 0 <= v < n && #[trigger] final(lev)@[v] != old(lev)@[v] ==> old(lev)@[v] == -1 && final(lev)@[v] == w@ + 1,
{
    let ghost sv = succ@.map_values(|r: Vec<usize>| r@);
    let ghost m = es@.len() as int;
    let ghost l0 = lev@;
    let cur = fr[p];
    let row = &succ[cur];
    let rl = row.len();
    proof {
        assert(row@ == sv[cur as int]);
    }
    let mut q: usize = 0;
    while q < rl
        invariant
            sv == succ@.map_values(|r: Vec<usize>| r@),
            m == es@.len(),
            cur == fr@[p as int],
            p < fr@.len(),
            row@ == sv[cur as int],
            rl == row@.len(),
            q <= rl,
            kahn_state(n as int, es@, sv, indeg@, placed@, lev@, rm@, w@, fr@, p as int, next@, cur as int, q as int),
            forall|v: int| 0 <= v < n && 0 <= l0[v] <= w@ ==> #[trigger] lev@[v] == l0[v],
            forall|v: int| 0 <= v < n && #[trigger] lev@[v] != l0[v] ==> l0[v] == -1 && lev@[v] == w@ + 1,
            l0.len() == n,
        decreases rl - q,
    {
        let e = row[q];
        let ghost st0 = (indeg@, placed@, lev@, rm@, next@);
        proof {
            assert(e < m);
            assert(sv[cur as int][q as int] == e);
            assert(row_has(sv[cur as int], e as int));
            assert(es@[e as int].0 == cur);
            assert(lev@[cur as int] == w@);
            assert(!done_before(fr@, p as int, cur as int)) by {
                if done_before(fr@, p as int, cur as int) {
                    let i = choose|i: int| 0 <= i < p && #[trigger] fr@[i] == cur;
                }
            }
            assert(!row_has(sv[cur as int].take(q as int), e as int)) by {
                if row_has(sv[cur as int].take(q as int), e as int) {
                    let i = choose|i: int| 0 <= i < q && #[trigger] sv[cur as int].take(q as int)[i] as int == e as int;
                    assert(sv[cur as int][i] == sv[cur as int][q as int]);
                }
            }
            assert(!rm@[e as int]);
            lemma_live_in_pos(es@, rm@, e as int, m);
        }
        let c = es[e].1;
        proof {
            assert(c < n);
            assert(indeg@[c as int] == live_in(es@, rm@, c as int, m));
            assert(lev@[c as int] == -1) by {
                if lev@[c as int] != -1 {
                    assert(live_in(es@, rm@, c as int, m) == 0);
                }
            }
        }
        let d = indeg[c] - 1;
        indeg.set(c, d);
        proof {
            let rm0 = rm@;
            rm@ = rm0.update(e as int, true);
            assert forall|v: int| 0 <= v < n implies live_in(es@, rm@, v, m) == live_in(es@, rm0, v, m) - (if es@[e as int].1 == v { 1int } else { 0int }) by {
                lemma_live_in_remove(es@, rm0, e as int, v, m);
            }
        }
        if d == 0 {
            proof {
                // c had a live in-edge, so it was not placed yet
                assert(lev@[c as int] == -1 || lev@[c as int] == w@ + 1);
                assert(lev@[c as int] == -1) by {
                    if lev@[c as int] == w@ + 1 {
                        assert(live_in(es@, st0.3, c as int, m) == 0);
                    }
                }
                assert(!next@.contains(c)) by {
                    if next@.contains(c) {
                        let j = choose|j: int| 0 <= j < next@.len() && #[trigger] next@[j] == c;
                    }
                }
                lev@ = lev@.update(c as int, w@ + 1);
            }
            next.push(c);
            placed.set(c, true);
        }
        proof {
            let sq = sv[cur as int];
            assert(sq.take(q + 1) =~= sq.take(q as int).push(e));
            assert(kahn_state(n as int, es@, sv, indeg@, placed@, lev@, rm@, w@, fr@, p as int, next@, cur as int, q + 1)) by {
                let lv = lev@;
                let l1 = st0.2;
                let rm0 = st0.3;
                assert forall|e2: int| 0 <= e2 < m implies (#[trigger] rm@[e2] <==> (
                    (0 <= lv[es@[e2].0 as int] < w@)
                    || done_before(fr@, p as int, es@[e2].0 as int)
                    || (es@[e2].0 == cur && 0 <= cur < n && row_has(sq.take(q + 1), e2)))) by {
                    assert(lv[es@[e2].0 as int] == l1[es@[e2].0 as int] || l1[es@[e2].0 as int] == -1);
                    if e2 == e {
                        assert(sq.take(q + 1)[q as int] == e);
                        assert(row_has(sq.take(q + 1), e2));
                    } else {
                        if row_has(sq.take(q + 1), e2) {
                            let i = choose|i: int| 0 <= i < q + 1 && #[trigger] sq.take(q + 1)[i] as int == e2;
                            assert(i < q) by {
                                if i == q {
                                    assert(sq.take(q + 1)[i] == e);
                                }
                            }
                            assert(sq.take(q as int)[i] as int == e2);
                        }
                        if row_has(sq.take(q as int), e2) {
                            let i = choose|i: int| 0 <= i < q && #[trigger] sq.take(q as int)[i] as int == e2;
                            assert(sq.take(q + 1)[i] as int == e2);
                        }
                    }
                }
                assert forall|v: int| 0 <= v < n implies #[trigger] indeg@[v] == live_in(es@, rm@, v, m) by {
                    if v != c {
                        assert(indeg@[v] == st0.0[v]);
                    }
                }
                assert forall|v: int| 0 <= v < n && 0 <= #[trigger] lv[v] <= w@ implies live_in(es@, rm@, v, m) == 0 by {
                    assert(l1[v] == lv[v]) by {
                        if v == c && d == 0 {
                            assert(lv[v] == w@ + 1);
                        }
                    }
                }
                assert forall|v: int| 0 <= v < n && (#[trigger] lv[v] == -1 || lv[v] == w@ + 1) implies (lv[v] == w@ + 1 <==> live_in(es@, rm@, v, m) == 0) by {
                    if v != c {
                        assert(lv[v] == l1[v]);
                    }
                }
                assert forall|e2: int| 0 <= e2 < m && lv[(#[trigger] es@[e2]).1 as int] >= 0 implies 0 <= lv[es@[e2].0 as int] < lv[es@[e2].1 as int] by {
                    let t = es@[e2].1 as int;
                    let f = es@[e2].0 as int;
                    if t == c && d == 0 {
                        // every in-edge of c is now removed, so its source is done
                        lemma_live_in_zero(es@, rm@, c as int, m);
                        assert(rm@[e2]);
                        assert(lv == l1.update(c as int, w@ + 1));
                        assert(l1[c as int] == -1);
                        if done_before(fr@, p as int, f) {
                            let i = choose|i: int| 0 <= i < p && #[trigger] fr@[i] == f;
                            assert(l1[fr@[i] as int] == w@);
                            assert(f == fr@[i] as int);
                            assert(l1[f] == w@);
                            assert(f != c as int);
                            assert(lv[f] == l1[f]);
                            assert(lv[f] == w@);
                        } else if es@[e2].0 == cur {
                            assert(l1[cur as int] == w@);
                            assert(lv[f] == w@);
                        } else {
                            assert(0 <= lv[f] < w@);
                        }
                        assert(0 <= lv[f] <= w@);

                    } else {
                        assert(lv[t] == l1[t]);
                        assert(lv[f] == l1[f]) by {
                            if f == c && d == 0 {
                                assert(l1[t] >= 0);
                                assert(0 <= l1[f]);
                            }
                        }
                    }
                }
                assert forall|v: int| 0 <= v < n && #[trigger] lv[v] >= 1 implies exists|e2: int| 0 <= e2 < m && #[trigger] es@[e2].1 == v && lv[es@[e2].0 as int] == lv[v] - 1 by {
                    if v == c && d == 0 {
                        assert(es@[e as int].1 == v);
                        assert(lv[cur as int] == w@);
                    } else {
                        assert(lv[v] == l1[v]);
                        let e2 = choose|e2: int| 0 <= e2 < m && #[trigger] es@[e2].1 == v && l1[es@[e2].0 as int] == l1[v] - 1;
                        assert(lv[es@[e2].0 as int] == l1[es@[e2].0 as int]);
                    }
                }
                assert forall|v: int| 0 <= v < n && #[trigger] lv[v] == w@ + 1 implies next@.contains(v as usize) by {
                    if v == c && d == 0 {
                        assert(next@[next@.len() - 1] == c);
                    } else {
                        assert(l1[v] == w@ + 1);
                        let j = choose|j: int| 0 <= j < st0.4.len() && #[trigger] st0.4[j] == v as usize;
                        assert(next@[j] == v as usize);
                    }
                }
                assert forall|v: int| 0 <= v < n && #[trigger] lv[v] == w@ implies fr@.contains(v as usize) by {
                    assert(l1[v] == w@);
                }
            }
        }
        q = q + 1;
    }
    proof {
        let sq = sv[cur as int];
        assert(sq.take(rl as int) =~= sq);
        assert(kahn_state(n as int, es@, sv, indeg@, placed@, lev@, rm@, w@, fr@, p + 1, next@, -1, 0)) by {
            assert forall|e2: int| 0 <= e2 < m implies (#[trigger] rm@[e2] <==> (
                (0 <= lev@[es@[e2].0 as int] < w@)
                || done_before(fr@, p + 1, es@[e2].0 as int)
                || (es@[e2].0 == -1 && 0 <= -1 < n && row_has(sv[-1].take(0), e2)))) by {
                let f = es@[e2].0 as int;
                if done_before(fr@, p + 1, f) {
                    let i = choose|i: int| 0 <= i < p + 1 && #[trigger] fr@[i] == f;
                    if i < p { assert(done_before(fr@, p as int, f)); }
                    else { assert(f == cur); assert(row_has(sq, e2)); assert(row_has(sq.take(rl as int), e2)); }
                }
                if done_before(fr@, p as int, f) {
                    let i = choose|i: int| 0 <= i < p && #[trigger] fr@[i] == f;
                    assert(fr@[i] == f);
                }
                if f == cur {
                    assert(fr@[p as int] == f);
                    assert(row_has(sq, e2));
                    assert(done_before(fr@, p + 1, f));
                }
            }
        }
    }
}

/// Layered topological order (Kahn's algorithm by waves): the first wave holds
/// the nodes without in-edges, and each later wave the nodes whose last
/// in-edge came from the wave before; each wave is in increasing index order.
/// Returns nothing when some node is never reached, which happens exactly on
/// graphs with a cycle.
pub fn waves(n: usize, es: &Vec<(usize, usize)>) -> (r: Option<Vec<Vec<usize>>>)
    requires
        edges_wf(n as nat, es@),
    ensures
        r matches Some(w) ==> layered(n as nat, es@, w@.map_values(|x: Vec<usize>| x@)),
        has_edge_ranking(es@) ==> r is Some,
{
    let m = es.len();
    // out-edge rows
    let mut succ: Vec<Vec<usize>> = Vec::new();
    let mut u: usize = 0;
    while u < n
        invariant
            m == es@.len(),
            u <= n,
            succ@.len() == u,
            forall|x: int, e: int| 0 <= x < u && 0 <= e < m ==> (#[trigger] row_has(succ@[x]@, e) <==> es@[e].0 == x),
            forall|x: int| 0 <= x < u ==> increasing(#[trigger] succ@[x]@),
            forall|x: int, i: int| 0 <= x < u && 0 <= i < succ@[x]@.len() ==> #[trigger] succ@[x]@[i] < m,
        decreases n - u,
    {
        let mut row: Vec<usize> = Vec::new();
        let mut e: usize = 0;
        while e < m
            invariant
                m == es@.len(),
                e <= m,
                forall|e2: int| 0 <= e2 < m ==> (#[trigger] row_has(row@, e2) <==> (e2 < e && es@[e2].0 == u)),
                increasing(row@),
                forall|i: int| 0 <= i < row@.len() ==> #[trigger] row@[i] < e,
            decreases m - e,
        {
            if es[e].0 == u {
                let ghost r0 = row@;
                row.push(e);
                proof {
                    assert forall|e2: int| 0 <= e2 < m implies (#[trigger] row_has(row@, e2) <==> (e2 < e + 1 && es@[e2].0 == u)) by {
                        if row_has(row@, e2) {
                            let i = choose|i: int| 0 <= i < row@.len() && #[trigger] row@[i] as int == e2;
                            if i < r0.len() {
                                assert(r0[i] as int == e2);
                                assert(row_has(r0, e2));
                            }
                        }
                        if e2 < e + 1 && es@[e2].0 == u {
                            if e2 < e {
                                assert(row_has(r0, e2));
                                let i = choose|i: int| 0 <= i < r0.len() && #[trigger] r0[i] as int == e2;
                                assert(row@[i] as int == e2);
                            } else {
                                assert(row@[r0.len() as int] as int == e2);
                            }
                        }
                    }
                }
            } else {
                proof {
                    assert forall|e2: int| 0 <= e2 < m implies (#[trigger] row_has(row@, e2) <==> (e2 < e + 1 && es@[e2].0 == u)) by {
                    }
                }
            }
            e = e + 1;
        }
        succ.push(row);
        proof {
            assert forall|x: int, e2: int| 0 <= x < u + 1 && 0 <= e2 < m implies (#[trigger] row_has(succ@[x]@, e2) <==> es@[e2].0 == x) by {
                if x == u { assert(succ@[x]@ == row@); }
            }
        }
        u = u + 1;
    }
    let ghost sv = succ@.map_values(|r: Vec<usize>| r@);
    // in-degrees
    let ghost rm0: Seq<bool> = Seq::new(m as nat, |i: int| false);
    let mut indeg: Vec<usize> = Vec::new();
    let mut placed: Vec<bool> = Vec::new();
    let mut v: usize = 0;
    while v < n
        invariant
            v <= n,
            indeg@.len() == v,
            placed@.len() == v,
            forall|x: int| 0 <= x < v ==> #[trigger] indeg@[x] == 0,
            forall|x: int| 0 <= x < v ==> !(#[trigger] placed@[x]),
        decreases n - v,
    {
        indeg.push(0);
        placed.push(false);
        v = v + 1;
    }
    let mut e: usize = 0;
    while e < m
        invariant
            m == es@.len(),
            edges_wf(n as nat, es@),
            rm0 == Seq::new(m as nat, |i: int| false),
            e <= m,
            indeg@.len() == n,
            placed@.len() == n,
            forall|x: int| 0 <= x < n ==> !(#[trigger] placed@[x]),
            forall|x: int| 0 <= x < n ==> #[trigger] indeg@[x] == live_in(es@, rm0, x, e as int),
        decreases m - e,
    {
        let t = es[e].1;
        proof {
            lemma_live_in_le(es@, rm0, t as int, e as int);
        }
        let d = indeg[t] + 1;
        indeg.set(t, d);
        e = e + 1;
    }
    // first wave: nodes without in-edges
    let mut lev: Ghost<Seq<int>> = Ghost(Seq::new(n as nat, |x: int| -1int));
    let mut rm: Ghost<Seq<bool>> = Ghost(rm0);
    let mut frontier: Vec<usize> = Vec::new();
    let mut v: usize = 0;
    while v < n
        invariant
            v <= n,
            m == es@.len(),
            rm@ == rm0,
            rm0 == Seq::new(m as nat, |i: int| false),
            indeg@.len() == n,
            placed@.len() == n,
            lev@.len() == n,
            forall|x: int| 0 <= x < n ==> #[trigger] indeg@[x] == live_in(es@, rm0, x, m as int),
            forall|x: int| 0 <= x < n ==> (#[trigger] lev@[x] == 0 <==> (x < v && indeg@[x] == 0)),
            forall|x: int| 0 <= x < n ==> (#[trigger] lev@[x] == -1 || lev@[x] == 0),
            forall|x: int| 0 <= x < n ==> (#[trigger] placed@[x] <==> lev@[x] >= 0),
            increasing(frontier@),
            forall|j: int| 0 <= j < frontier@.len() ==> #[trigger] frontier@[j] < v && lev@[frontier@[j] as int] == 0,
            forall|x: int| 0 <= x < n && #[trigger] lev@[x] == 0 ==> frontier@.contains(x as usize),
        decreases n - v,
    {
        if indeg[v] == 0 {
            let ghost f0 = frontier@;
            frontier.push(v);
            placed.set(v, true);
            proof {
                lev@ = lev@.update(v as int, 0);
                assert forall|x: int| 0 <= x < n && #[trigger] lev@[x] == 0 implies frontier@.contains(x as usize) by {
                    if x == v {
                        assert(frontier@[f0.len() as int] == v);
                    } else {
                        let j = choose|j: int| 0 <= j < f0.len() && #[trigger] f0[j] == x as usize;
                        assert(frontier@[j] == x as usize);
                    }
                }
            }
        }
        v = v + 1;
    }
    let ghost empty: Seq<usize> = Seq::empty();
    proof {
        let es_ = es@;
        assert(kahn_state(n as int, es_, sv, indeg@, placed@, lev@, rm@, 0, frontier@, 0, empty, -1, 0)) by {
            assert forall|x: int| 0 <= x < n && (#[trigger] lev@[x] == -1 || lev@[x] == 1) implies (lev@[x] == 1 <==> live_in(es_, rm@, x, m as int) == 0) by {
            }
            assert forall|e2: int| 0 <= e2 < m && lev@[(#[trigger] es_[e2]).1 as int] >= 0 implies 0 <= lev@[es_[e2].0 as int] < lev@[es_[e2].1 as int] by {
                lemma_live_in_pos(es_, rm@, e2, m as int);
            }
            assert forall|e2: int| 0 <= e2 < m implies (#[trigger] rm@[e2] <==> (
                (0 <= lev@[es_[e2].0 as int] < 0)
                || done_before(frontier@, 0, es_[e2].0 as int)
                || (es_[e2].0 == -1 && 0 <= -1 < n && row_has(sv[-1].take(0), e2)))) by {
            }
            assert forall|u2: int, e2: int| 0 <= u2 < n && 0 <= e2 < m implies (#[trigger] row_has(sv[u2], e2) <==> es_[e2].0 == u2) by {
                assert(sv[u2] == succ@[u2]@);
            }
            assert forall|u2: int| 0 <= u2 < n implies increasing(#[trigger] sv[u2]) by {
                assert(sv[u2] == succ@[u2]@);
            }
            assert forall|u2: int, i: int| 0 <= u2 < n && 0 <= i < sv[u2].len() implies #[trigger] sv[u2][i] < m by {
                assert(sv[u2] == succ@[u2]@);
            }
        }
    }
    let mut wv: Vec<Vec<usize>> = Vec::new();
    while frontier.len() > 0
        invariant
            m == es@.len(),
            sv == succ@.map_values(|r: Vec<usize>| r@),
            kahn_state(n as int, es@, sv, indeg@, placed@, lev@, rm@, wv@.len() as int, frontier@, 0, empty, -1, 0),
            empty == Seq::<usize>::empty(),
            forall|k: int| 0 <= k < wv@.len() ==> (#[trigger] wv@[k])@.len() > 0 && increasing(wv@[k]@),
            forall|k: int, j: int| 0 <= k < wv@.len() && 0 <= j < wv@[k]@.len() ==> #[trigger] wv@[k]@[j] < n && lev@[wv@[k]@[j] as int] == k,
            forall|x: int| 0 <= x < n && 0 <= #[trigger] lev@[x] < wv@.len() ==> wv@[lev@[x]]@.contains(x as usize),
        decreases count_where(n as int, |x: int| lev@[x] == -1 || lev@[x] >= wv@.len()),
    {
        let ghost w: int = wv@.len() as int;
        let ghost l_start = lev@;
        let mut next: Vec<usize> = Vec::new();
        let fl = frontier.len();
        let mut p: usize = 0;
        while p < fl
            invariant
                m == es@.len(),
                sv == succ@.map_values(|r: Vec<usize>| r@),
                fl == frontier@.len(),
                p <= fl,
                w == wv@.len(),
                kahn_state(n as int, es@, sv, indeg@, placed@, lev@, rm@, w, frontier@, p as int, next@, -1, 0),
                l_start.len() == n,
                forall|x: int| 0 <= x < n && 0 <= l_start[x] <= w ==> #[trigger] lev@[x] == l_start[x],
                forall|x: int| 0 <= x < n && #[trigger] lev@[x] != l_start[x] ==> l_start[x] == -1 && lev@[x] == w + 1,
            decreases fl - p,
        {
            let ghost l1 = lev@;
            proof {
                assert(kahn_state(n as int, es@, sv, indeg@, placed@, lev@, rm@, w, frontier@, p as int, next@, frontier@[p as int] as int, 0)) by {
                    let cur = frontier@[p as int] as int;
                    assert forall|e2: int| 0 <= e2 < m implies (#[trigger] rm@[e2] <==> (
                        (0 <= lev@[es@[e2].0 as int] < w)
                        || done_before(frontier@, p as int, es@[e2].0 as int)
                        || (es@[e2].0 == cur && 0 <= cur < n && row_has(sv[cur].take(0), e2)))) by {
                    }
                }
            }
            kahn_step(n, es, &succ, &mut indeg, &mut placed, &mut lev, &mut rm, Ghost(w), &frontier, p, &mut next);
            proof {
                assert forall|x: int| 0 <= x < n && 0 <= l_start[x] <= w implies #[trigger] lev@[x] == l_start[x] by {
                    assert(l1[x] == l_start[x]);
                }
                assert forall|x: int| 0 <= x < n && #[trigger] lev@[x] != l_start[x] implies l_start[x] == -1 && lev@[x] == w + 1 by {
                    if lev@[x] != l1[x] {
                        assert(l1[x] == -1);
                    }
                }
            }
            p = p + 1;
        }
        let sorted = sort_indices(next);
        proof {
            let es_ = es@;
            assert(kahn_state(n as int, es_, sv, indeg@, placed@, lev@, rm@, w + 1, sorted@, 0, empty, -1, 0)) by {
                assert forall|e2: int| 0 <= e2 < m implies (#[trigger] rm@[e2] <==> (
                    (0 <= lev@[es_[e2].0 as int] < w + 1)
                    || done_before(sorted@, 0, es_[e2].0 as int)
                    || (es_[e2].0 == -1 && 0 <= -1 < n && row_has(sv[-1].take(0), e2)))) by {
                    let f = es_[e2].0 as int;
                    if done_before(frontier@, fl as int, f) {
                        let i = choose|i: int| 0 <= i < fl && #[trigger] frontier@[i] == f;
                        assert(lev@[frontier@[i] as int] == w);
                    }
                    if lev@[f] == w {
                        assert(frontier@.contains(f as usize));
                        let i = choose|i: int| 0 <= i < frontier@.len() && #[trigger] frontier@[i] == f as usize;
                        assert(done_before(frontier@, fl as int, f));
                    }
                }
                assert forall|x: int| 0 <= x < n && #[trigger] lev@[x] == w + 1 implies sorted@.contains(x as usize) by {
                }
                assert forall|j: int| 0 <= j < sorted@.len() implies #[trigger] sorted@[j] < n && lev@[sorted@[j] as int] == w + 1 by {
                    assert(sorted@.contains(sorted@[j]));
                    assert(next@.contains(sorted@[j]));
                    let i = choose|i: int| 0 <= i < next@.len() && #[trigger] next@[i] == sorted@[j];
                }
            }
            // progress: the frontier leaves the unprocessed set
            let f_old = |x: int| l_start[x] == -1 || l_start[x] >= w;
            let f_new = |x: int| lev@[x] == -1 || lev@[x] >= w + 1;
            assert forall|x: int| 0 <= x < n && #[trigger] f_new(x) implies f_old(x) by {
                if lev@[x] != l_start[x] {
                } else {
                    if l_start[x] == w + 1 {
                        assert(next@.len() == 0 || true);
                    }
                }
            }
            let x0 = frontier@[0] as int;
            assert(l_start[x0] == w);
            assert(lev@[x0] == w);
            lemma_count_where_sub(n as int, f_old, f_new, x0);
            assert(count_where(n as int, |x: int| lev@[x] == -1 || lev@[x] >= w + 1) == count_where(n as int, f_new));
        }
        let ghost old_wv = wv@;
        wv.push(frontier);
        frontier = sorted;
        proof {
            assert forall|k: int| 0 <= k < wv@.len() implies (#[trigger] wv@[k])@.len() > 0 && increasing(wv@[k]@) by {
                if k < w { assert(wv@[k] == old_wv[k]); }
            }
            assert forall|k: int, j: int| 0 <= k < wv@.len() && 0 <= j < wv@[k]@.len() implies #[trigger] wv@[k]@[j] < n && lev@[wv@[k]@[j] as int] == k by {
                if k < w {
                    assert(wv@[k] == old_wv[k]);
                    assert(l_start[old_wv[k]@[j] as int] == k);
                }
            }
            assert forall|x: int| 0 <= x < n && 0 <= #[trigger] lev@[x] < wv@.len() implies wv@[lev@[x]]@.contains(x as usize) by {
                if lev@[x] < w {
                    assert(l_start[x] == lev@[x]);
                    assert(wv@[lev@[x]] == old_wv[lev@[x]]);
                } else {
                    assert(lev@[x] == w);
                }
            }
        }
    }
    let ghost w: int = wv@.len() as int;
    // every node must have been placed
    let mut x: usize = 0;
    while x < n
        invariant
            x <= n,
            m == es@.len(),
            w == wv@.len(),
            frontier@.len() == 0,
            kahn_state(n as int, es@, sv, indeg@, placed@, lev@, rm@, w, frontier@, 0, empty, -1, 0),
            forall|k: int| 0 <= k < wv@.len() ==> (#[trigger] wv@[k])@.len() > 0 && increasing(wv@[k]@),
            forall|k: int, j: int| 0 <= k < wv@.len() && 0 <= j < wv@[k]@.len() ==> #[trigger] wv@[k]@[j] < n && lev@[wv@[k]@[j] as int] == k,
            forall|y: int| 0 <= y < n && 0 <= #[trigger] lev@[y] < wv@.len() ==> wv@[lev@[y]]@.contains(y as usize),
            placed@.len() == n,
            forall|y: int| 0 <= y < x ==> #[trigger] placed@[y],
        decreases n - x,
    {
        if !placed[x] {
            proof {
                if has_edge_ranking(es@) {
                    let r = choose|r: spec_fn(int) -> int| is_edge_ranking(es@, r);
                    let pr = |y: int| lev@[y] == -1;
                    assert(lev@[x as int] == -1);
                    let vm = lemma_max_rank(n as int, pr, r, x as int);
                    assert(live_in(es@, rm@, vm, m as int) != 0);
                    lemma_live_in_zero(es@, rm@, vm, m as int);
                    let e2 = choose|e2: int| 0 <= e2 < m && !(rm@[e2] || #[trigger] es@[e2].1 != vm);
                    let src = es@[e2].0 as int;
                    assert(lev@[src] != w) by {
                        if lev@[src] == w {
                            assert(frontier@.contains(src as usize));
                        }
                    }
                    assert(pr(src));
                    assert(r(es@[e2].1 as int) < r(src));
                }
            }
            return None;
        }
        x = x + 1;
    }
    proof {
        let ww = wv@.map_values(|y: Vec<usize>| y@);
        let es_ = es@;
        assert forall|y: int| 0 <= y < n implies lev@[y] >= 0 && lev@[y] < w by {
            assert(placed@[y]);
            if lev@[y] == w {
                assert(frontier@.contains(y as usize));
            }
        }
        assert forall|k: int| 0 <= k < ww.len() implies (#[trigger] ww[k]).len() > 0 && increasing(ww[k]) by {
            assert(ww[k] == wv@[k]@);
        }
        assert forall|k: int, j: int| 0 <= k < ww.len() && 0 <= j < ww[k].len() implies #[trigger] ww[k][j] < n by {
            assert(ww[k] == wv@[k]@);
        }
        assert forall|y: int| 0 <= y < n implies #[trigger] in_waves(ww, y) by {
            let k = lev@[y];
            assert(wv@[k]@.contains(y as usize));
            let j = choose|j: int| 0 <= j < wv@[k]@.len() && #[trigger] wv@[k]@[j] == y as usize;
            assert(ww[k][j] == y);
        }
        assert forall|k1: int, j1: int, k2: int, j2: int|
            0 <= k1 < ww.len() && 0 <= j1 < ww[k1].len() && 0 <= k2 < ww.len() && 0 <= j2 < ww[k2].len()
            && #[trigger] ww[k1][j1] == #[trigger] ww[k2][j2] implies k1 == k2 && j1 == j2 by {
            assert(ww[k1] == wv@[k1]@);
            assert(ww[k2] == wv@[k2]@);
            assert(lev@[wv@[k1]@[j1] as int] == k1);
            assert(lev@[wv@[k2]@[j2] as int] == k2);
            if j1 < j2 { assert(wv@[k1]@[j1] < wv@[k1]@[j2]); }
            if j2 < j1 { assert(wv@[k1]@[j2] < wv@[k1]@[j1]); }
        }
        assert forall|e2: int, k1: int, j1: int, k2: int, j2: int|
            0 <= e2 < es_.len() && 0 <= k1 < ww.len() && 0 <= j1 < ww[k1].len() && 0 <= k2 < ww.len() && 0 <= j2 < ww[k2].len()
            && (#[trigger] es_[e2]).0 == #[trigger] ww[k1][j1] && es_[e2].1 == #[trigger] ww[k2][j2] implies k1 < k2 by {
            assert(ww[k1] == wv@[k1]@);
            assert(ww[k2] == wv@[k2]@);
            assert(lev@[wv@[k1]@[j1] as int] == k1);
            assert(lev@[wv@[k2]@[j2] as int] == k2);
        }
        assert forall|k: int, j: int| 0 < k < ww.len() && 0 <= j < ww[k].len() implies #[trigger] has_pred_before(es_, ww, k, j) by {
            assert(ww[k] == wv@[k]@);
            let y = ww[k][j] as int;
            assert(lev@[y] == k);
            let e2 = choose|e2: int| 0 <= e2 < m && #[trigger] es_[e2].1 == y && lev@[es_[e2].0 as int] == lev@[y] - 1;
            let src = es_[e2].0 as int;
            assert(wv@[k - 1]@.contains(src as usize));
            let j2 = choose|j2: int| 0 <= j2 < wv@[k - 1]@.len() && #[trigger] wv@[k - 1]@[j2] == src as usize;
            assert(ww[k - 1] == wv@[k - 1]@);
            assert(es_[e2].0 == ww[k - 1][j2]);
        }
    }
    Some(wv)
}

} // verus!
