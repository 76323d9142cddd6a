//! Connected components: the number of maximal sets of segments mutually
//! reachable through links, ignoring link direction; segments touching no
//! link are singleton components.  The count is proved equal to the
//! number of reachability classes, and the traversal uses an explicit
//! work list, never call-stack recursion.

use crate::gfa::{GfaGraph, GraphV};
use crate::text::bytes_eq;
use vstd::pervasive::VecAdditionalExecFns;
use vstd::prelude::*;

verus! {

/// Whether link `l` runs from the segment at position `a` to the one at
/// position `b`.
pub open spec fn link_joins(g: GraphV, l: int, a: int, b: int) -> bool {
    &&& 0 <= l < g.links.len()
    &&& 0 <= a < g.segments.len()
    &&& 0 <= b < g.segments.len()
    &&& g.links[l].from_segment == g.segments[a].name
    &&& g.links[l].to_segment == g.segments[b].name
}

/// Undirected adjacency between segment positions: some link joins them,
/// one way or the other.
pub open spec fn edge(g: GraphV, a: int, b: int) -> bool {
    exists|l: int| link_joins(g, l, a, b) || link_joins(g, l, b, a)
}

/// Reachability in at most `k` edges.
pub open spec fn reach_k(g: GraphV, a: int, b: int, k: nat) -> bool
    decreases k,
{
    if a == b {
        true
    } else if k == 0 {
        false
    } else {
        exists|c: int| #[trigger] edge(g, a, c) && reach_k(g, c, b, (k - 1) as nat)
    }
}

/// Two segment positions are connected when a chain of links joins them.
pub open spec fn connected(g: GraphV, a: int, b: int) -> bool {
    exists|k: nat| reach_k(g, a, b, k)
}

/// The number of components among the first `i` segments: a segment
/// counts exactly when it is connected to no earlier one.
pub open spec fn rep_count(g: GraphV, i: int) -> int
    decreases i,
{
    if i <= 0 {
        0
    } else {
        rep_count(g, i - 1) + (if exists|j: int| 0 <= j < i - 1 && #[trigger] connected(g, i - 1, j) {
            0int
        } else {
            1int
        })
    }
}

/// The number of connected components of the graph.
pub open spec fn spec_components(g: GraphV) -> int {
    rep_count(g, g.segments.len() as int)
}

pub proof fn lemma_edge_sym(g: GraphV, a: int, b: int)
    requires
        edge(g, a, b),
    ensures
        edge(g, b, a),
{
    let l = choose|l: int| link_joins(g, l, a, b) || link_joins(g, l, b, a);
    assert(link_joins(g, l, b, a) || link_joins(g, l, a, b));
}

pub proof fn lemma_edge_bounds(g: GraphV, a: int, b: int)
    requires
        edge(g, a, b),
    ensures
        0 <= a < g.segments.len(),
        0 <= b < g.segments.len(),
{
    let l = choose|l: int| link_joins(g, l, a, b) || link_joins(g, l, b, a);
}

pub proof fn lemma_reach_mono(g: GraphV, a: int, b: int, k: nat, k2: nat)
    requires
        reach_k(g, a, b, k),
        k <= k2,
    ensures
        reach_k(g, a, b, k2),
    decreases k,
{
    if a == b {
    } else {
        let c = choose|c: int| #[trigger] edge(g, a, c) && reach_k(g, c, b, (k - 1) as nat);
        lemma_reach_mono(g, c, b, (k - 1) as nat, (k2 - 1) as nat);
        assert(edge(g, a, c) && reach_k(g, c, b, (k2 - 1) as nat));
    }
}

pub proof fn lemma_reach_trans(g: GraphV, a: int, b: int, c: int, k1: nat, k2: nat)
    requires
        reach_k(g, a, b, k1),
        reach_k(g, b, c, k2),
    ensures
        reach_k(g, a, c, (k1 + k2) as nat),
    decreases k1,
{
    if a == b {
        lemma_reach_mono(g, b, c, k2, (k1 + k2) as nat);
    } else {
        let d = choose|d: int| #[trigger] edge(g, a, d) && reach_k(g, d, b, (k1 - 1) as nat);
        lemma_reach_trans(g, d, b, c, (k1 - 1) as nat, k2);
        assert(edge(g, a, d) && reach_k(g, d, c, (k1 - 1 + k2) as nat));
    }
}

pub proof fn lemma_reach_snoc(g: GraphV, a: int, b: int, c: int, k: nat)
    requires
        reach_k(g, a, b, k),
        edge(g, b, c),
    ensures
        reach_k(g, a, c, (k + 1) as nat),
    decreases k,
{
    if a == b {
        assert(reach_k(g, c, c, 0nat));
        assert(edge(g, a, c) && reach_k(g, c, c, ((k + 1) - 1) as nat)) by {
            lemma_reach_mono(g, c, c, 0nat, k);
        }
    } else {
        let d = choose|d: int| #[trigger] edge(g, a, d) && reach_k(g, d, b, (k - 1) as nat);
        lemma_reach_snoc(g, d, b, c, (k - 1) as nat);
        assert(edge(g, a, d) && reach_k(g, d, c, ((k + 1) - 1) as nat));
    }
}

pub proof fn lemma_reach_rev(g: GraphV, a: int, b: int, k: nat)
    requires
        reach_k(g, a, b, k),
    ensures
        reach_k(g, b, a, k),
    decreases k,
{
    if a == b {
    } else {
        let c = choose|c: int| #[trigger] edge(g, a, c) && reach_k(g, c, b, (k - 1) as nat);
        lemma_reach_rev(g, c, b, (k - 1) as nat);
        lemma_edge_sym(g, a, c);
        lemma_reach_snoc(g, b, c, a, (k - 1) as nat);
    }
}

/// Connection is symmetric.
pub proof fn lemma_connected_sym(g: GraphV, a: int, b: int)
    requires
        connected(g, a, b),
    ensures
        connected(g, b, a),
{
    let k = choose|k: nat| reach_k(g, a, b, k);
    lemma_reach_rev(g, a, b, k);
}

/// Connection is transitive.
pub proof fn lemma_connected_trans(g: GraphV, a: int, b: int, c: int)
    requires
        connected(g, a, b),
        connected(g, b, c),
    ensures
        connected(g, a, c),
{
    let k1 = choose|k: nat| reach_k(g, a, b, k);
    let k2 = choose|k: nat| reach_k(g, b, c, k);
    lemma_reach_trans(g, a, b, c, k1, k2);
}

/// Whether a visited set is closed under adjacency.
pub open spec fn vis_closed(g: GraphV, vis: Seq<bool>) -> bool {
    forall|a: int, b: int|
        0 <= a < vis.len() && 0 <= b < vis.len() && vis[a] && #[trigger] edge(g, a, b) ==> vis[b]
}

/// Everything reachable from a member of a closed set is in the set.
pub proof fn lemma_closed_reach(g: GraphV, vis: Seq<bool>, a: int, b: int, k: nat)
    requires
        vis.len() == g.segments.len(),
        vis_closed(g, vis),
        0 <= a < vis.len(),
        vis[a],
        reach_k(g, a, b, k),
    ensures
        0 <= b < vis.len() && vis[b],
    decreases k,
{
    if a == b {
    } else {
        let c = choose|c: int| #[trigger] edge(g, a, c) && reach_k(g, c, b, (k - 1) as nat);
        lemma_edge_bounds(g, a, c);
        lemma_closed_reach(g, vis, c, b, (k - 1) as nat);
    }
}

/// The number of true entries.
pub open spec fn count_true(s: Seq<bool>) -> int
    decreases s.len(),
{
    if s.len() == 0 {
        0
    } else {
        count_true(s.drop_last()) + (if s.last() {
            1int
        } else {
            0int
        })
    }
}

pub proof fn lemma_count_true_bounds(s: Seq<bool>)
    ensures
        0 <= count_true(s) <= s.len(),
    decreases s.len(),
{
    if s.len() > 0 {
        lemma_count_true_bounds(s.drop_last());
    }
}

pub proof fn lemma_count_true_set(s: Seq<bool>, i: int)
    requires
        0 <= i < s.len(),
        !s[i],
    ensures
        count_true(s.update(i, true)) == count_true(s) + 1,
    decreases s.len(),
{
    let s2 = s.update(i, true);
    if i == s.len() - 1 {
        assert(s2.drop_last() =~= s.drop_last());
    } else {
        lemma_count_true_set(s.drop_last(), i);
        assert(s2.drop_last() =~= s.drop_last().update(i, true));
        assert(s2.last() == s.last());
    }
}

/// The position of the segment with this name, when the graph holds one.
fn seg_position(graph: &GfaGraph, name: &[u8]) -> (r: Option<usize>)
    ensures
        r matches Some(i) ==> i < graph@.segments.len() && graph@.segments[i as int].name
            == name@,
        r is None ==> forall|i: int|
            0 <= i < graph@.segments.len() ==> (#[trigger] graph@.segments[i]).name != name@,
{
    let n = graph.segments.len();
    let mut i: usize = 0;
    while i < n
        invariant
            0 <= i <= n,
            n == graph.segments@.len(),
            forall|j: int| 0 <= j < i ==> (#[trigger] graph@.segments[j]).name != name@,
        decreases n - i,
    {
        let hit = bytes_eq(graph.segments[i].name.as_slice(), name);
        proof {
            assert(graph@.segments[i as int] == graph.segments@[i as int]@);
        }
        if hit {
            return Some(i);
        }
        i = i + 1;
    }
    None
}

/// Marks everything reachable from `start` as visited, using an explicit
/// work list.  `edges` must describe the graph's adjacency exactly, and
/// the previously visited set must be closed under adjacency and not
/// contain `start`.
fn dfs(
    graph: &GfaGraph,
    edges: &Vec<(usize, usize)>,
    start: usize,
    visited: &mut Vec<bool>,
)
    requires
        old(visited)@.len() == graph@.segments.len(),
        start < graph@.segments.len(),
        !old(visited)@[start as int],
        vis_closed(graph@, old(visited)@),
        forall|kk: int|
            0 <= kk < edges@.len() ==> (#[trigger] edges@[kk]).0 < graph@.segments.len()
                && edges@[kk].1 < graph@.segments.len() && edge(
                graph@,
                edges@[kk].0 as int,
                edges@[kk].1 as int,
            ),
        forall|a: int, b: int|
            #[trigger] edge(graph@, a, b) ==> exists|kk: int|
                0 <= kk < edges@.len() && (#[trigger] edges@[kk]).0 == a && edges@[kk].1 == b,
    ensures
        final(visited)@.len() == old(visited)@.len(),
        forall|x: int|
            0 <= x < final(visited)@.len() ==> (#[trigger] final(visited)@[x] <==> (old(
                visited,
            )@[x] || connected(graph@, start as int, x))),
        vis_closed(graph@, final(visited)@),
{
    let ghost g = graph@;
    let ghost n = g.segments.len() as int;
    let ghost oldvis = visited@;
    let vlen = visited.len();
    proof {
        assert(n <= usize::MAX);
    }
    let mut stack: Vec<usize> = Vec::new();
    visited.set(start, true);
    stack.push(start);
    proof {
        assert(reach_k(g, start as int, start as int, 0nat));
        lemma_count_true_bounds(visited@);
        assert(stack@[0] == start);
        assert(stack@.contains(start));
        assert forall|x: int|
            0 <= x < n && #[trigger] visited@[x] && !stack@.contains(x as usize) implies (
        forall|y: int| #[trigger] edge(g, x, y) ==> visited@[y]) by {
            assert(x != start as int);
            assert(oldvis[x]);
            assert forall|y: int| #[trigger] edge(g, x, y) implies visited@[y] by {
                lemma_edge_bounds(g, x, y);
                assert(oldvis[y]);
            }
        }
    }
    while stack.len() > 0
        invariant
            visited@.len() == n,
            oldvis.len() == n,
            n == g.segments.len(),
            g == graph@,
            start < n,
            n <= usize::MAX,
            !oldvis[start as int],
            forall|kk: int|
                0 <= kk < edges@.len() ==> (#[trigger] edges@[kk]).0 < n && edges@[kk].1 < n
                    && edge(g, edges@[kk].0 as int, edges@[kk].1 as int),
            forall|a: int, b: int|
                #[trigger] edge(g, a, b) ==> exists|kk: int|
                    0 <= kk < edges@.len() && (#[trigger] edges@[kk]).0 == a && edges@[kk].1 == b,
            forall|q: int|
                0 <= q < stack@.len() ==> (#[trigger] stack@[q]) < n && visited@[stack@[q] as int]
                    && !oldvis[stack@[q] as int],
            forall|x: int| 0 <= x < n && oldvis[x] ==> visited@[x],
            forall|x: int|
                0 <= x < n && #[trigger] visited@[x] ==> (oldvis[x] || connected(
                    g,
                    start as int,
                    x,
                )),
            visited@[start as int],
            forall|x: int|
                0 <= x < n && #[trigger] visited@[x] && !stack@.contains(x as usize) ==> (
                forall|y: int| #[trigger] edge(g, x, y) ==> visited@[y]),
            0 <= count_true(visited@) <= n,
        decreases 2 * n - 2 * count_true(visited@) + stack@.len(),
    {
        let ghost pot0 = 2 * n - 2 * count_true(visited@) + stack@.len();
        let ghost stack0 = stack@;
        let u = match stack.pop() {
            Some(u) => u,
            None => {
                return ;  // unreachable: the loop condition holds
            },
        };
        proof {
            assert(u == stack0.last());
            assert(stack0.contains(u));
            assert(u < n && visited@[u as int] && !oldvis[u as int]);
            assert(connected(g, start as int, u as int));
            assert forall|x: int|
                0 <= x < n && #[trigger] visited@[x] && !stack@.contains(x as usize) && x
                    != u implies (forall|y: int| #[trigger] edge(g, x, y) ==> visited@[y]) by {
                assert(!stack0.contains(x as usize)) by {
                    if stack0.contains(x as usize) {
                        let q = choose|q: int| 0 <= q < stack0.len() && stack0[q] == x as usize;
                        if q < stack0.len() - 1 {
                            assert(stack@[q] == stack0[q]);
                            assert(stack@.contains(x as usize));
                            assert(false);
                        } else {
                            assert(stack0[q] == u);
                            assert(x == u as int);
                            assert(false);
                        }
                    }
                }
            }
        }
        let m = edges.len();
        let mut k: usize = 0;
        while k < m
            invariant
                m == edges@.len(),
                0 <= k <= m,
                visited@.len() == n,
                oldvis.len() == n,
                n == g.segments.len(),
                g == graph@,
                start < n,
                n <= usize::MAX,
                u < n,
                !oldvis[start as int],
                visited@[u as int],
                connected(g, start as int, u as int),
                forall|kk: int|
                    0 <= kk < edges@.len() ==> (#[trigger] edges@[kk]).0 < n && edges@[kk].1 < n
                        && edge(g, edges@[kk].0 as int, edges@[kk].1 as int),
                forall|a: int, b: int|
                    #[trigger] edge(g, a, b) ==> exists|kk: int|
                        0 <= kk < edges@.len() && (#[trigger] edges@[kk]).0 == a && edges@[kk].1
                            == b,
                forall|q: int|
                    0 <= q < stack@.len() ==> (#[trigger] stack@[q]) < n && visited@[stack@[q] as int]
                        && !oldvis[stack@[q] as int],
                forall|x: int| 0 <= x < n && oldvis[x] ==> visited@[x],
                forall|x: int|
                    0 <= x < n && #[trigger] visited@[x] ==> (oldvis[x] || connected(
                        g,
                        start as int,
                        x,
                    )),
                visited@[start as int],
                forall|x: int|
                    0 <= x < n && #[trigger] visited@[x] && !stack@.contains(x as usize) && x != u
                        ==> (forall|y: int| #[trigger] edge(g, x, y) ==> visited@[y]),
                forall|kk: int|
                    0 <= kk < k && (#[trigger] edges@[kk]).0 == u ==> visited@[edges@[kk].1 as int],
                2 * n - 2 * count_true(visited@) + stack@.len() <= pot0 - 1,
            decreases m - k,
        {
            let (a, b) = (edges[k].0, edges[k].1);
            let ghost stack1 = stack@;
            let ghost vis1 = visited@;
            if a == u && !visited[b] {
                proof {
                    lemma_count_true_bounds(visited@);
                    lemma_count_true_set(visited@, b as int);
                    assert(edge(g, u as int, b as int));
                    let kc = choose|kq: nat| reach_k(g, start as int, u as int, kq);
                    lemma_reach_snoc(g, start as int, u as int, b as int, kc);
                }
                visited.set(b, true);
                stack.push(b);
                proof {
                    assert(stack@[stack@.len() - 1] == b);
                    assert(stack@.contains(b));
                    assert forall|x: int|
                        0 <= x < n && #[trigger] visited@[x] && !stack@.contains(x as usize) && x
                            != u implies (forall|y: int|
                        #[trigger] edge(g, x, y) ==> visited@[y]) by {
                        assert(x != b as int);
                        assert(vis1[x]);
                        assert(!stack1.contains(x as usize)) by {
                            if stack1.contains(x as usize) {
                                let q = choose|q: int|
                                    0 <= q < stack1.len() && stack1[q] == x as usize;
                                assert(stack@[q] == stack1[q]);
                            }
                        }
                        assert forall|y: int| #[trigger] edge(g, x, y) implies visited@[y] by {
                            lemma_edge_bounds(g, x, y);
                            assert(vis1[y]);
                        }
                    }
                    assert forall|q: int|
                        0 <= q < stack@.len() implies (#[trigger] stack@[q]) < n
                            && visited@[stack@[q] as int] && !oldvis[stack@[q] as int] by {
                        if q < stack1.len() {
                            assert(stack@[q] == stack1[q]);
                        }
                    }
                }
            }
            k = k + 1;
        }
        proof {
            lemma_count_true_bounds(visited@);
            assert forall|x: int|
                0 <= x < n && #[trigger] visited@[x] && !stack@.contains(x as usize) implies (
            forall|y: int| #[trigger] edge(g, x, y) ==> visited@[y]) by {
                if x == u {
                    assert forall|y: int| #[trigger] edge(g, x, y) implies visited@[y] by {
                        let kk = choose|kk: int|
                            0 <= kk < edges@.len() && (#[trigger] edges@[kk]).0 == x
                                && edges@[kk].1 == y;
                        assert(visited@[edges@[kk].1 as int]);
                    }
                }
            }
        }
    }
    proof {
        assert forall|x: int|
            0 <= x < n implies (#[trigger] visited@[x] <==> (oldvis[x] || connected(
            g,
            start as int,
            x,
        ))) by {
            if !visited@[x] {
                if connected(g, start as int, x) {
                    let kq = choose|kq: nat| reach_k(g, start as int, x, kq);
                    assert(vis_closed(g, visited@)) by {
                        assert forall|aa: int, bb: int|
                            0 <= aa < visited@.len() && 0 <= bb < visited@.len() && visited@[aa]
                                && #[trigger] edge(g, aa, bb) implies visited@[bb] by {
                            assert(!stack@.contains(aa as usize));
                        }
                    }
                    lemma_closed_reach(g, visited@, start as int, x, kq);
                }
            }
        }
        assert(vis_closed(g, visited@)) by {
            assert forall|aa: int, bb: int|
                0 <= aa < visited@.len() && 0 <= bb < visited@.len() && visited@[aa]
                    && #[trigger] edge(g, aa, bb) implies visited@[bb] by {
                assert(!stack@.contains(aa as usize));
            }
        }
    }
}

/// The number of connected components: an undirected adjacency relation
/// is drawn from the links — endpoints naming no segment join nothing —
/// and every segment is traversed once, isolated segments counting as
/// singleton components.
pub fn compute_connected_components(graph: &GfaGraph) -> (r: usize)
    requires
        graph.wf(),
    ensures
        r == spec_components(graph@),
{
    let ghost g = graph@;
    let n = graph.segments.len();
    let ln = graph.links.len();
    let mut edges: Vec<(usize, usize)> = Vec::new();
    let mut l: usize = 0;
    while l < ln
        invariant
            0 <= l <= ln,
            ln == graph.links@.len(),
            g == graph@,
            graph.wf(),
            forall|kk: int|
                0 <= kk < edges@.len() ==> (#[trigger] edges@[kk]).0 < g.segments.len()
                    && edges@[kk].1 < g.segments.len() && edge(
                    g,
                    edges@[kk].0 as int,
                    edges@[kk].1 as int,
                ),
            forall|ll: int, a: int, b: int|
                0 <= ll < l && #[trigger] link_joins(g, ll, a, b) ==> (exists|kk: int|
                    0 <= kk < edges@.len() && (#[trigger] edges@[kk]).0 == a && edges@[kk].1 == b)
                    && (exists|kk: int|
                    0 <= kk < edges@.len() && (#[trigger] edges@[kk]).0 == b && edges@[kk].1 == a),
        decreases ln - l,
    {
        let link = &graph.links[l];
        proof {
            assert(g.links[l as int] == graph.links@[l as int]@);
        }
        let fi = seg_position(graph, link.from_segment.as_slice());
        let ti = seg_position(graph, link.to_segment.as_slice());
        match (fi, ti) {
            (Some(a), Some(b)) => {
                let ghost prev = edges@;
                edges.push((a, b));
                edges.push((b, a));
                proof {
                    assert(link_joins(g, l as int, a as int, b as int));
                    assert(edges@[prev.len() as int] == (a, b));
                    assert(edges@[prev.len() as int + 1] == (b, a));
                    assert forall|ll: int, aa: int, bb: int|
                        0 <= ll < l + 1 && #[trigger] link_joins(g, ll, aa, bb) implies (exists|
                        kk: int,
                    |
                        0 <= kk < edges@.len() && (#[trigger] edges@[kk]).0 == aa && edges@[kk].1
                            == bb) && (exists|kk: int|
                        0 <= kk < edges@.len() && (#[trigger] edges@[kk]).0 == bb && edges@[kk].1
                            == aa) by {
                        if ll < l {
                            assert(link_joins(g, ll, aa, bb));
                            let kk1 = choose|kk: int|
                                0 <= kk < prev.len() && (#[trigger] prev[kk]).0 == aa
                                    && prev[kk].1 == bb;
                            assert(edges@[kk1] == prev[kk1]);
                            let kk2 = choose|kk: int|
                                0 <= kk < prev.len() && (#[trigger] prev[kk]).0 == bb
                                    && prev[kk].1 == aa;
                            assert(edges@[kk2] == prev[kk2]);
                        } else {
                            assert(g.segments[aa].name == g.links[l as int].from_segment);
                            assert(g.segments[a as int].name == g.links[l as int].from_segment);
                            assert(aa == a as int) by {
                                if aa < a as int {
                                    assert(g.segments[aa].name != g.segments[a as int].name);
                                } else if aa > a as int {
                                    assert(g.segments[a as int].name != g.segments[aa].name);
                                }
                            }
                            assert(bb == b as int) by {
                                if bb < b as int {
                                    assert(g.segments[bb].name != g.segments[b as int].name);
                                } else if bb > b as int {
                                    assert(g.segments[b as int].name != g.segments[bb].name);
                                }
                            }
                        }
                    }
                }
            },
            _ => {
                proof {
                    assert forall|ll: int, aa: int, bb: int|
                        0 <= ll < l + 1 && #[trigger] link_joins(g, ll, aa, bb) implies (exists|
                        kk: int,
                    |
                        0 <= kk < edges@.len() && (#[trigger] edges@[kk]).0 == aa && edges@[kk].1
                            == bb) && (exists|kk: int|
                        0 <= kk < edges@.len() && (#[trigger] edges@[kk]).0 == bb && edges@[kk].1
                            == aa) by {
                        if ll < l {
                            assert(link_joins(g, ll, aa, bb));
                        } else {
                            assert(false) by {
                                if fi is None {
                                    assert(g.segments[aa].name != g.links[l as int].from_segment);
                                } else {
                                    assert(g.segments[bb].name != g.links[l as int].to_segment);
                                }
                            }
                        }
                    }
                }
            },
        }
        l = l + 1;
    }
    proof {
        assert forall|a: int, b: int| #[trigger] edge(g, a, b) implies exists|kk: int|
            0 <= kk < edges@.len() && (#[trigger] edges@[kk]).0 == a && edges@[kk].1 == b by {
            let ll = choose|ll: int| link_joins(g, ll, a, b) || link_joins(g, ll, b, a);
            if link_joins(g, ll, a, b) {
                assert(link_joins(g, ll, a, b));
            } else {
                assert(link_joins(g, ll, b, a));
            }
        }
    }
    let mut visited: Vec<bool> = Vec::new();
    let mut v: usize = 0;
    while v < n
        invariant
            0 <= v <= n,
            n == graph.segments@.len(),
            visited@.len() == v,
            forall|x: int| 0 <= x < v ==> !(#[trigger] visited@[x]),
        decreases n - v,
    {
        visited.push(false);
        v = v + 1;
    }
    let mut count: usize = 0;
    let mut s: usize = 0;
    proof {
        assert(vis_closed(g, visited@));
    }
    while s < n
        invariant
            0 <= s <= n,
            n == graph.segments@.len(),
            g == graph@,
            visited@.len() == n,
            count <= s,
            count == rep_count(g, s as int),
            vis_closed(g, visited@),
            forall|kk: int|
                0 <= kk < edges@.len() ==> (#[trigger] edges@[kk]).0 < g.segments.len()
                    && edges@[kk].1 < g.segments.len() && edge(
                    g,
                    edges@[kk].0 as int,
                    edges@[kk].1 as int,
                ),
            forall|a: int, b: int|
                #[trigger] edge(g, a, b) ==> exists|kk: int|
                    0 <= kk < edges@.len() && (#[trigger] edges@[kk]).0 == a && edges@[kk].1 == b,
            forall|x: int|
                0 <= x < n ==> (#[trigger] visited@[x] <==> exists|j: int|
                    0 <= j < s && connected(g, x, j)),
        decreases n - s,
    {
        let ghost prevvis = visited@;
        if !visited[s] {
            count = count + 1;
            dfs(graph, &edges, s, &mut visited);
            proof {
                assert(!(exists|j: int| 0 <= j < s && connected(g, s as int, j))) by {
                    if exists|j: int| 0 <= j < s && connected(g, s as int, j) {
                        let j = choose|j: int| 0 <= j < s && connected(g, s as int, j);
                        assert(prevvis[s as int]);
                    }
                }
                assert(count == rep_count(g, s + 1));
                assert forall|x: int|
                    0 <= x < n implies (#[trigger] visited@[x] <==> exists|j: int|
                    0 <= j < s + 1 && connected(g, x, j)) by {
                    if visited@[x] {
                        if prevvis[x] {
                            let j = choose|j: int| 0 <= j < s && connected(g, x, j);
                            assert(0 <= j < s + 1 && connected(g, x, j));
                        } else {
                            assert(connected(g, s as int, x));
                            lemma_connected_sym(g, s as int, x);
                            assert(0 <= s < s + 1 && connected(g, x, s as int));
                        }
                    } else {
                        if exists|j: int| 0 <= j < s + 1 && connected(g, x, j) {
                            let j = choose|j: int| 0 <= j < s + 1 && connected(g, x, j);
                            if j < s {
                                assert(prevvis[x]);
                            } else {
                                lemma_connected_sym(g, x, s as int);
                            }
                        }
                    }
                }
            }
        } else {
            proof {
                let j0 = choose|j: int| 0 <= j < s && connected(g, s as int, j);
                assert(count == rep_count(g, s + 1));
                assert forall|x: int|
                    0 <= x < n implies (#[trigger] visited@[x] <==> exists|j: int|
                    0 <= j < s + 1 && connected(g, x, j)) by {
                    if visited@[x] {
                        let j = choose|j: int| 0 <= j < s && connected(g, x, j);
                        assert(0 <= j < s + 1 && connected(g, x, j));
                    } else {
                        if exists|j: int| 0 <= j < s + 1 && connected(g, x, j) {
                            let j = choose|j: int| 0 <= j < s + 1 && connected(g, x, j);
                            if j == s {
                                lemma_connected_trans(g, x, s as int, j0);
                            }
                        }
                    }
                }
            }
        }
        s = s + 1;
    }
    count
}

} // verus!
