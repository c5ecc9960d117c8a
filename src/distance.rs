use vstd::prelude::*;
use crate::graph::{
    Edge, graph_wf, walk, walk_nodes, ends_at, cost_of, is_simple, reachable, saturated,
    is_shortest_distance, lemma_walk_push, lemma_walk_nodes_shape, lemma_cost_nonneg,
    lemma_walk_in_graph,
};
use crate::pqueue::{IndexedMinPQ, is_min_entry};

verus! {

/// Why a distance query gives no distance.
#[derive(Clone, Copy, Debug, PartialEq, Eq, Structural)]
pub enum PathError {
    /// The source and the target are the same node.
    SameEndpoint,
    /// The source or the target is not a node of the graph.
    InvalidNode,
    /// No walk leads from the source to the target.
    Unreachable,
}

/// Every node that `nodes` lists is a node of the graph that the search has settled.
spec fn all_settled(nodes: Seq<int>, vis: Seq<bool>) -> bool {
    forall|i: int| 0 <= i < nodes.len() ==> 0 <= #[trigger] nodes[i] < vis.len() && vis[nodes[i]]
}

/// The edge `j` of the settled node `x` has been taken into account: its head is
/// settled no further than through it, or queued no further than through it.
spec fn relaxed(
    g: Seq<Vec<Edge>>,
    vis: Seq<bool>,
    dist: Seq<usize>,
    q: Map<usize, usize>,
    x: int,
    j: int,
) -> bool {
    let e = g[x]@[j];
    &&& vis[e.to as int] ==> dist[e.to as int] <= dist[x] + e.cost
    &&& !vis[e.to as int] ==> q.contains_key(e.to) && q[e.to] <= dist[x] + e.cost
}

/// A settled node `v`: the walk kept for it leads there through settled nodes only,
/// passes no node twice, and costs its distance.
spec fn settled_ok(
    g: Seq<Vec<Edge>>,
    src: int,
    vis: Seq<bool>,
    dist: Seq<usize>,
    wit: Seq<Seq<int>>,
    top: int,
    v: int,
) -> bool {
    &&& ends_at(g, src, v, wit[v])
    &&& is_simple(g, src, wit[v])
    &&& saturated(cost_of(g, src, wit[v])) == dist[v]
    &&& all_settled(walk_nodes(g, src, wit[v]), vis)
    &&& dist[v] <= top
}

/// A queued node `k`: the walk kept for it leads there through settled nodes only,
/// passes no node twice, and costs its queued value.
spec fn queued_ok(
    g: Seq<Vec<Edge>>,
    src: int,
    vis: Seq<bool>,
    q: Map<usize, usize>,
    wit: Seq<Seq<int>>,
    top: int,
    k: usize,
) -> bool {
    &&& ends_at(g, src, k as int, wit[k as int])
    &&& is_simple(g, src, wit[k as int])
    &&& saturated(cost_of(g, src, wit[k as int])) == q[k]
    &&& all_settled(walk_nodes(g, src, wit[k as int]).drop_last(), vis)
    &&& top <= q[k]
}

/// What holds of the search between its steps. `vis` marks the settled nodes, `dist`
/// their distances, `q` the queued nodes with their best known costs, `wit` a walk
/// for each of them; the edges of `cur` below `done` and those of every other
/// settled node have been relaxed; `top` is the distance settled last.
spec fn search_inv(
    g: Seq<Vec<Edge>>,
    src: int,
    dst: int,
    vis: Seq<bool>,
    dist: Seq<usize>,
    q: Map<usize, usize>,
    wit: Seq<Seq<int>>,
    cur: int,
    done: int,
    top: int,
) -> bool {
    let n = g.len();
    &&& vis.len() == n
    &&& dist.len() == n
    &&& wit.len() == n
    &&& 0 <= src < n
    &&& vis[src]
    &&& dist[src] == 0
    &&& 0 <= dst < n ==> !vis[dst]
    &&& forall|k: usize| #[trigger] q.contains_key(k) ==> k < n && !vis[k as int]
    &&& forall|v: int| 0 <= v < n && #[trigger] vis[v] ==> settled_ok(g, src, vis, dist, wit, top, v)
    &&& forall|k: usize| #[trigger] q.contains_key(k) ==> queued_ok(g, src, vis, q, wit, top, k)
    &&& forall|x: int, j: int|
        0 <= x < n && vis[x] && 0 <= j < g[x]@.len() && (x != cur || j < done) ==> #[trigger] relaxed(
            g,
            vis,
            dist,
            q,
            x,
            j,
        )
}

proof fn lemma_settled_grow(nodes: Seq<int>, vis: Seq<bool>, v: int)
    requires
        all_settled(nodes, vis),
        0 <= v < vis.len(),
    ensures
        all_settled(nodes, vis.update(v, true)),
{
    assert forall|i: int| 0 <= i < nodes.len() implies 0 <= #[trigger] nodes[i] < vis.len()
        && vis.update(v, true)[nodes[i]] by {
        assert(vis[nodes[i]]);
    }
}

/// Every walk from the source either ends at a settled node no cheaper than its
/// distance, or has a queued node no dearer than the walk.
proof fn lemma_walk_bound(
    g: Seq<Vec<Edge>>,
    src: int,
    dst: int,
    vis: Seq<bool>,
    dist: Seq<usize>,
    q: Map<usize, usize>,
    wit: Seq<Seq<int>>,
    cur: int,
    done: int,
    top: int,
    steps: Seq<int>,
)
    requires
        graph_wf(g),
        search_inv(g, src, dst, vis, dist, q, wit, cur, done, top),
        0 <= cur < g.len() ==> done >= g[cur]@.len(),
        walk(g, src, steps) is Some,
    ensures
        ({
            let (v, c) = walk(g, src, steps)->0;
            &&& 0 <= v < g.len()
            &&& vis[v] ==> dist[v] <= c
            &&& !vis[v] ==> exists|y: usize| #[trigger] q.contains_key(y) && q[y] <= c
        }),
    decreases steps.len(),
{
    lemma_walk_in_graph(g, src, steps);
    if steps.len() > 0 {
        let prev = steps.drop_last();
        lemma_walk_bound(g, src, dst, vis, dist, q, wit, cur, done, top, prev);
        lemma_walk_in_graph(g, src, prev);
        let (x, c0) = walk(g, src, prev)->0;
        let j = steps.last();
        let (v, c) = walk(g, src, steps)->0;
        assert(0 <= j < g[x]@.len());
        if vis[x] {
            assert(relaxed(g, vis, dist, q, x, j));
            if !vis[v] {
                assert(q.contains_key(v as usize));
            }
        } else {
            let y = choose|y: usize| #[trigger] q.contains_key(y) && q[y] <= c0;
            assert(q.contains_key(y));
        }
    }
}

/// The least cost of a walk from `src` to `dst` in `adj_list`, or `None` where no walk
/// leads there. Settles nodes in order of distance, with an indexed priority queue
/// holding the best known cost of each node not yet settled, and stops as soon as
/// `dst` is settled. Sums of costs stop at `usize::MAX`.
pub fn eager_dijkstra(src: usize, dst: usize, adj_list: &Vec<Vec<Edge>>) -> (r: Option<usize>)
    requires
        graph_wf(adj_list@),
        src < adj_list@.len(),
    ensures
        match r {
            Some(c) => is_shortest_distance(adj_list@, src as int, dst as int, c as int),
            None => !reachable(adj_list@, src as int, dst as int),
        },
{
    let ghost g = adj_list@;
    let n = adj_list.len();
    if src == dst {
        proof {
            let e = Seq::<int>::empty();
            assert(ends_at(g, src as int, dst as int, e));
            assert(walk_nodes(g, src as int, e) =~= seq![src as int]);
            assert forall|steps: Seq<int>| #[trigger] ends_at(g, src as int, dst as int, steps) implies 0
                <= cost_of(g, src as int, steps) by {
                lemma_cost_nonneg(g, src as int, steps);
            }
        }
        return Some(0);
    }
    let mut visited: Vec<bool> = Vec::new();
    let mut dist: Vec<usize> = Vec::new();
    let mut i: usize = 0;
    while i < n
        invariant
            i <= n,
            visited@.len() == i,
            dist@.len() == i,
            forall|v: int| 0 <= v < i ==> visited@[v] == (v == src) && dist@[v] == 0,
        decreases n - i,
    {
        visited.push(i == src);
        dist.push(0);
        i = i + 1;
    }
    let mut queue = IndexedMinPQ::new(n, 2);
    let ghost mut wit: Seq<Seq<int>> = Seq::new(n as nat, |v: int| Seq::<int>::empty());
    let ghost mut settled: Set<int> = set![src as int];
    let mut u = src;
    let mut top: usize = 0;
    proof {
        assert(walk_nodes(g, src as int, Seq::<int>::empty()) =~= seq![src as int]);
        assert(settled =~= Set::new(|v: int| 0 <= v < n && visited@[v]));
    }
    loop
        invariant
            graph_wf(g),
            g == adj_list@,
            n == g.len(),
            queue.wf(),
            queue.capacity() == n,
            u < n,
            visited@[u as int],
            dist@[u as int] == top,
            src != dst,
            search_inv(g, src as int, dst as int, visited@, dist@, queue@, wit, u as int, 0, top as int),
            settled == Set::new(|v: int| 0 <= v < n && visited@[v]),
            settled.finite(),
        decreases n - settled.len(),
    {
        let edges = &adj_list[u];
        let mut j: usize = 0;
        while j < edges.len()
            invariant
                graph_wf(g),
                g == adj_list@,
                n == g.len(),
                edges@ == g[u as int]@,
                j <= edges@.len(),
                queue.wf(),
                queue.capacity() == n,
                u < n,
                visited@[u as int],
                dist@[u as int] == top,
                src != dst,
                search_inv(g, src as int, dst as int, visited@, dist@, queue@, wit, u as int, j as int, top as int),
            decreases edges@.len() - j,
        {
            let e = edges[j];
            let w = e.to;
            assert(g[u as int]@[j as int] == e);
            if visited[w] {
                proof {
                    assert(relaxed(g, visited@, dist@, queue@, u as int, j as int));
                }
            } else {
                let cand = dist[u].saturating_add(e.cost);
                let ghost q0 = queue@;
                let ghost walk_w = wit[u as int].push(j as int);
                let known = queue.priority(w);
                let improves = match known {
                    Some(p) => cand < p,
                    None => true,
                };
                if improves {
                    match known {
                        Some(_) => {
                            let _ = queue.decrease_key(w, cand);
                        },
                        None => {
                            let _ = queue.insert(w, cand);
                        },
                    }
                    proof {
                        let wu = wit[u as int];
                        lemma_walk_push(g, src as int, wu, j as int);
                        lemma_walk_nodes_shape(g, src as int, wu);
                        lemma_walk_nodes_shape(g, src as int, walk_w);
                        let nodes_u = walk_nodes(g, src as int, wu);
                        assert(walk_nodes(g, src as int, walk_w).drop_last() =~= nodes_u);
                        assert(!nodes_u.contains(w as int)) by {
                            if nodes_u.contains(w as int) {
                                let i = choose|i: int| 0 <= i < nodes_u.len() && nodes_u[i] == w;
                                assert(visited@[nodes_u[i]]);
                            }
                        }
                        assert(queue@ == q0.insert(w, cand));
                        assert(walk_nodes(g, src as int, walk_w) =~= nodes_u.push(w as int));
                        assert(is_simple(g, src as int, walk_w));
                        assert(ends_at(g, src as int, w as int, walk_w));
                        assert(saturated(cost_of(g, src as int, walk_w)) == cand);
                        let wit0 = wit;
                        wit = wit.update(w as int, walk_w);
                        let vis = visited@;
                        let q1 = queue@;
                        assert forall|v: int| 0 <= v < n && #[trigger] vis[v] implies settled_ok(
                            g, src as int, vis, dist@, wit, top as int, v) by {
                            assert(wit[v] == wit0[v]);
                        }
                        assert forall|k: usize| #[trigger] q1.contains_key(k) implies queued_ok(
                            g, src as int, vis, q1, wit, top as int, k) by {
                            if k != w {
                                assert(q0.contains_key(k));
                                assert(wit[k as int] == wit0[k as int]);
                            }
                        }
                        assert forall|x: int, jj: int|
                            0 <= x < n && vis[x] && 0 <= jj < g[x]@.len() && (x != u || jj < j + 1)
                            implies #[trigger] relaxed(g, vis, dist@, q1, x, jj) by {
                            if x != u || jj != j {
                                assert(relaxed(g, vis, dist@, q0, x, jj));
                            }
                        }
                    }
                } else {
                    proof {
                        assert(relaxed(g, visited@, dist@, queue@, u as int, j as int));
                    }
                }
            }
            j = j + 1;
        }
        let ghost vis0 = visited@;
        let ghost dist0 = dist@;
        let ghost q0 = queue@;
        let ghost top0 = top;
        let ghost u0 = u;
        proof {
            queue.lemma_view_finite();
        }
        match queue.extract_min() {
            Err(_) => {
                proof {
                    assert forall|steps: Seq<int>| !#[trigger] ends_at(g, src as int, dst as int, steps) by {
                        if ends_at(g, src as int, dst as int, steps) {
                            q0.dom().lemma_len0_is_empty();
                            lemma_walk_bound(g, src as int, dst as int, vis0, dist0, q0, wit, u0 as int, edges@.len() as int, top0 as int, steps);
                        }
                    }
                }
                return None;
            },
            Ok((v, c)) => {
                proof {
                    assert(q0.contains_key(v));
                    assert(is_min_entry(q0, v));
                    assert(queue@ == q0.remove(v));
                }
                visited[v] = true;
                dist[v] = c;
                top = c;
                u = v;
                proof {
                    assert forall|steps: Seq<int>| #[trigger] ends_at(g, src as int, v as int, steps) implies c <= cost_of(g, src as int, steps) by {
                        lemma_walk_bound(g, src as int, dst as int, vis0, dist0, q0, wit, u0 as int, edges@.len() as int, top0 as int, steps);
                        let y = choose|y: usize| #[trigger] q0.contains_key(y) && q0[y] <= cost_of(g, src as int, steps);
                        assert(q0.contains_key(y));
                    }
                    lemma_walk_nodes_shape(g, src as int, wit[v as int]);
                    let vis = visited@;
                    let d1 = dist@;
                    let q1 = queue@;
                    assert(vis == vis0.update(v as int, true));
                    assert(d1 == dist0.update(v as int, c));
                    assert(queued_ok(g, src as int, vis0, q0, wit, top0 as int, v));
                    assert forall|k: usize| #[trigger] q1.contains_key(k) implies k < n && !vis[k as int]
                        && queued_ok(g, src as int, vis, q1, wit, c as int, k) by {
                        assert(q0.contains_key(k));
                        assert(queued_ok(g, src as int, vis0, q0, wit, top0 as int, k));
                        lemma_settled_grow(walk_nodes(g, src as int, wit[k as int]).drop_last(), vis0, v as int);
                    }
                    assert forall|x: int| 0 <= x < n && #[trigger] vis[x] implies settled_ok(
                        g, src as int, vis, d1, wit, c as int, x) by {
                        if x == v {
                            let nodes = walk_nodes(g, src as int, wit[x]);
                            lemma_settled_grow(nodes.drop_last(), vis0, v as int);
                            assert forall|i: int| 0 <= i < nodes.len() implies 0 <= #[trigger] nodes[i] < vis.len() && vis[nodes[i]] by {
                                if i < nodes.len() - 1 {
                                    assert(nodes.drop_last()[i] == nodes[i]);
                                }
                            }
                        } else {
                            assert(vis0[x]);
                            assert(settled_ok(g, src as int, vis0, dist0, wit, top0 as int, x));
                            lemma_settled_grow(walk_nodes(g, src as int, wit[x]), vis0, v as int);
                        }
                    }
                    assert forall|x: int, jj: int|
                        0 <= x < n && vis[x] && 0 <= jj < g[x]@.len() && (x != v || jj < 0)
                        implies #[trigger] relaxed(g, vis, d1, q1, x, jj) by {
                        assert(vis0[x]);
                        assert(relaxed(g, vis0, dist0, q0, x, jj));
                    }
                    let old_settled = settled;
                    settled = settled.insert(v as int);
                    assert(settled =~= Set::new(|x: int| 0 <= x < n && visited@[x]));
                    vstd::set_lib::lemma_int_range(0, n as int);
                    assert(settled.subset_of(vstd::set_lib::set_int_range(0, n as int)));
                    vstd::set_lib::lemma_len_subset(settled, vstd::set_lib::set_int_range(0, n as int));
                    assert(old_settled.finite());
                }
                if v == dst {
                    return Some(c);
                }
            },
        }
    }
}

/// Refuses a query whose endpoints are the same node, then one with an endpoint that
/// is not a node of `adj_list`.
fn guard_against_invalid_endpoints(src: usize, dst: usize, adj_list: &Vec<Vec<Edge>>) -> (r: Result<
    (),
    PathError,
>)
    ensures
        src == dst ==> r == Err::<(), PathError>(PathError::SameEndpoint),
        src != dst && (src >= adj_list@.len() || dst >= adj_list@.len()) ==> r == Err::<
            (),
            PathError,
        >(PathError::InvalidNode),
        src != dst && src < adj_list@.len() && dst < adj_list@.len() ==> r == Ok::<(), PathError>(()),
{
    if src == dst {
        Err(PathError::SameEndpoint)
    } else if src >= adj_list.len() || dst >= adj_list.len() {
        Err(PathError::InvalidNode)
    } else {
        Ok(())
    }
}

/// The least cost of a walk from `src` to `dst`. A query with `src == dst` is refused
/// with `SameEndpoint`, then one with an endpoint outside the graph with `InvalidNode`;
/// where no walk leads to `dst` the answer is `Unreachable`.
pub fn shortest_path(src: usize, dst: usize, adj_list: Vec<Vec<Edge>>) -> (r: Result<usize, PathError>)
    requires
        graph_wf(adj_list@),
    ensures
        src == dst ==> r == Err::<usize, PathError>(PathError::SameEndpoint),
        src != dst && (src >= adj_list@.len() || dst >= adj_list@.len()) ==> r == Err::<
            usize,
            PathError,
        >(PathError::InvalidNode),
        src != dst && src < adj_list@.len() && dst < adj_list@.len() ==> match r {
            Ok(c) => is_shortest_distance(adj_list@, src as int, dst as int, c as int),
            Err(e) => e == PathError::Unreachable && !reachable(adj_list@, src as int, dst as int),
        },
{
    let guard = guard_against_invalid_endpoints(src, dst, &adj_list);
    if let Err(e) = guard {
        return Err(e);
    }
    match eager_dijkstra(src, dst, &adj_list) {
        Some(c) => Ok(c),
        None => Err(PathError::Unreachable),
    }
}

} // verus!
