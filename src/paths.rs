use vstd::prelude::*;
use crate::graph::{
    Edge, graph_wf, walk, walk_nodes, ends_at, cost_of, saturated, is_shortest_distance,
    lemma_walk_push, lemma_walk_nodes_shape, lemma_walk_in_graph,
};

verus! {

/// `g` has an edge from `u` to `v`.
pub open spec fn has_edge(g: Seq<Vec<Edge>>, u: int, v: int) -> bool {
    exists|j: int| 0 <= j < g[u]@.len() && (#[trigger] g[u]@[j]).to == v
}

/// `p` is a path of `g`: a non-empty sequence of its nodes, none of them twice, each
/// linked to the next by an edge.
pub open spec fn is_path(g: Seq<Vec<Edge>>, p: Seq<usize>) -> bool {
    &&& p.len() >= 1
    &&& p.no_duplicates()
    &&& forall|i: int| 0 <= i < p.len() ==> (#[trigger] p[i] as int) < g.len()
    &&& forall|i: int| 0 < i < p.len() ==> has_edge(g, p[i - 1] as int, #[trigger] p[i] as int)
}

/// `p` is a simple path of `g` from `s` to `d`.
pub open spec fn is_simple_path(g: Seq<Vec<Edge>>, s: int, d: int, p: Seq<usize>) -> bool {
    &&& is_path(g, p)
    &&& p[0] == s
    &&& p.last() == d
}

/// The node sequences of a list of paths.
pub open spec fn paths_view(ps: Seq<Vec<usize>>) -> Seq<Seq<usize>> {
    ps.map_values(|p: Vec<usize>| p@)
}

/// `p` is a simple path to `d` that goes on from `route`.
spec fn extends(g: Seq<Vec<Edge>>, d: int, route: Seq<usize>, p: Seq<usize>) -> bool {
    &&& is_path(g, p)
    &&& p.last() == d
    &&& p.len() > route.len()
    &&& p.subrange(0, route.len() as int) == route
}

/// `on_route` marks exactly the nodes of `route`.
spec fn marks(on_route: Seq<bool>, route: Seq<usize>) -> bool {
    forall|v: int| 0 <= v < on_route.len() ==> (#[trigger] on_route[v] <==> route.contains(v as usize))
}

proof fn lemma_distinct_nodes_bound(route: Seq<usize>, n: usize)
    requires
        route.no_duplicates(),
        forall|i: int| 0 <= i < route.len() ==> #[trigger] route[i] < n,
    ensures
        route.len() <= n,
{
    let full = Set::<usize>::range(0, n);
    vstd::set_lib::range_set_properties(0usize, n);
    route.unique_seq_to_set();
    assert forall|v: usize| #[trigger] route.to_set().contains(v) implies full.contains(v) by {
        let i = choose|i: int| 0 <= i < route.len() && route[i] == v;
    }
    vstd::set_lib::lemma_len_subset(route.to_set(), full);
}

proof fn lemma_push_contains(r: Seq<usize>, w: usize, x: usize)
    ensures
        r.push(w).contains(x) <==> (r.contains(x) || x == w),
{
    if r.push(w).contains(x) && x != w {
        let i = choose|i: int| 0 <= i < r.push(w).len() && r.push(w)[i] == x;
        assert(r[i] == x);
    }
    if r.contains(x) {
        let i = choose|i: int| 0 <= i < r.len() && r[i] == x;
        assert(r.push(w)[i] == x);
    }
    if x == w {
        assert(r.push(w)[r.len() as int] == x);
    }
}

/// `p` goes on from `route` to `d` through one of the first `j` edges of the last
/// node of `route`.
spec fn seen(g: Seq<Vec<Edge>>, d: int, route: Seq<usize>, j: int, p: Seq<usize>) -> bool {
    &&& extends(g, d, route, p)
    &&& exists|jj: int|
        0 <= jj < j && (#[trigger] g[route.last() as int]@[jj]).to == p[route.len() as int]
}

/// A node already on `route` leads to no path that goes on from it.
proof fn lemma_blocked(g: Seq<Vec<Edge>>, d: int, r0: Seq<usize>, w: usize)
    requires
        r0.contains(w),
    ensures
        forall|p: Seq<usize>| extends(g, d, r0, p) ==> p[r0.len() as int] != w,
{
    assert forall|p: Seq<usize>| extends(g, d, r0, p) implies p[r0.len() as int] != w by {
        let i = choose|i: int| 0 <= i < r0.len() && r0[i] == w;
        assert(p.subrange(0, r0.len() as int)[i] == p[i]);
    }
}

/// An edge from the end of `route` to `d` gives exactly one path: `route` and then `d`.
proof fn lemma_arrive(g: Seq<Vec<Edge>>, d: usize, r0: Seq<usize>, j: int)
    requires
        graph_wf(g),
        is_path(g, r0),
        !r0.contains(d),
        0 <= j < g[r0.last() as int]@.len(),
        g[r0.last() as int]@[j].to == d,
    ensures
        extends(g, d as int, r0, r0.push(d)),
        forall|q: Seq<usize>|
            extends(g, d as int, r0, q) && q[r0.len() as int] == d ==> q == r0.push(d),
{
    let len = r0.len() as int;
    let pd = r0.push(d);
    assert forall|a: int, b: int| 0 <= a < b < pd.len() implies pd[a] != pd[b] by {
        if b == len {
            assert(r0[a] == pd[a]);
        }
    }
    assert forall|i: int| 0 < i < pd.len() implies has_edge(g, pd[i - 1] as int, #[trigger] pd[i] as int) by {
        if i == len {
            assert(g[r0.last() as int]@[j].to == d);
        } else {
            assert(pd[i - 1] == r0[i - 1] && pd[i] == r0[i]);
            assert(has_edge(g, r0[i - 1] as int, r0[i] as int));
        }
    }
    assert forall|i: int| 0 <= i < pd.len() implies (#[trigger] pd[i] as int) < g.len() by {
        if i < len {
            assert(pd[i] == r0[i]);
        }
    }
    assert(pd.subrange(0, len) =~= r0);
    assert forall|q: Seq<usize>| extends(g, d as int, r0, q) && q[len] == d implies q == pd by {
        assert(q.len() == len + 1) by {
            if q.len() > len + 1 {
                assert(q[q.len() - 1] == q[len]);
            }
        }
        assert forall|i: int| 0 <= i < len implies q[i] == pd[i] by {
            assert(q.subrange(0, len)[i] == q[i]);
        }
        assert(q =~= pd);
    }
}

/// An edge from the end of `route` to a node `w` off the route, other than `d`: the
/// paths that go on from `route` through `w` are those that go on from `route` and `w`.
proof fn lemma_step(g: Seq<Vec<Edge>>, d: usize, r0: Seq<usize>, j: int, w: usize)
    requires
        graph_wf(g),
        is_path(g, r0),
        !r0.contains(d),
        !r0.contains(w),
        w != d,
        0 <= j < g[r0.last() as int]@.len(),
        g[r0.last() as int]@[j].to == w,
    ensures
        is_path(g, r0.push(w)),
        !r0.push(w).contains(d),
        forall|q: Seq<usize>|
            extends(g, d as int, r0.push(w), q) <==> (extends(g, d as int, r0, q) && q[r0.len() as int]
                == w),
{
    let len = r0.len() as int;
    let rw = r0.push(w);
    assert forall|a: int, b: int| 0 <= a < b < rw.len() implies rw[a] != rw[b] by {
        if b == len {
            assert(r0[a] == rw[a]);
        }
    }
    assert forall|i: int| 0 < i < rw.len() implies has_edge(g, rw[i - 1] as int, #[trigger] rw[i] as int) by {
        if i == len {
            assert(g[r0.last() as int]@[j].to == w);
        } else {
            assert(rw[i - 1] == r0[i - 1] && rw[i] == r0[i]);
            assert(has_edge(g, r0[i - 1] as int, r0[i] as int));
        }
    }
    assert forall|i: int| 0 <= i < rw.len() implies (#[trigger] rw[i] as int) < g.len() by {
        if i < len {
            assert(rw[i] == r0[i]);
        }
    }
    lemma_push_contains(r0, w, d);
    assert forall|q: Seq<usize>|
        extends(g, d as int, rw, q) <==> (extends(g, d as int, r0, q) && q[len] == w) by {
        if extends(g, d as int, rw, q) {
            assert(q.subrange(0, len) =~= q.subrange(0, len + 1).subrange(0, len));
            assert(rw.subrange(0, len) =~= r0);
            assert(q.subrange(0, len + 1)[len] == q[len]);
        }
        if extends(g, d as int, r0, q) && q[len] == w {
            if q.len() == len + 1 {
                assert(q.last() == w);
            }
            assert(q.subrange(0, len + 1) =~= rw) by {
                assert forall|i: int| 0 <= i < len implies q.subrange(0, len + 1)[i] == rw[i] by {
                    assert(q.subrange(0, len)[i] == q[i]);
                }
            }
        }
    }
}

/// The paths found after edge `j` are those found before it and those through it.
proof fn lemma_seen_step(
    g: Seq<Vec<Edge>>,
    d: int,
    r0: Seq<usize>,
    j: int,
    f0: Seq<Seq<usize>>,
    f1: Seq<Seq<usize>>,
    f2: Seq<Seq<usize>>,
)
    requires
        r0.len() >= 1,
        0 <= j < g[r0.last() as int]@.len(),
        forall|p: Seq<usize>| #[trigger] f1.contains(p) <==> f0.contains(p) || seen(g, d, r0, j, p),
        forall|p: Seq<usize>|
            #[trigger] f2.contains(p) <==> f1.contains(p) || (extends(g, d, r0, p) && p[r0.len() as int]
                == g[r0.last() as int]@[j].to),
    ensures
        forall|p: Seq<usize>| #[trigger] f2.contains(p) <==> f0.contains(p) || seen(g, d, r0, j + 1, p),
{
    let u = r0.last() as int;
    let len = r0.len() as int;
    assert forall|p: Seq<usize>| #[trigger] f2.contains(p) <==> f0.contains(p) || seen(g, d, r0, j + 1, p) by {
        if extends(g, d, r0, p) && p[len] == g[u]@[j].to {
            assert(seen(g, d, r0, j + 1, p));
        }
        if seen(g, d, r0, j + 1, p) {
            let jj = choose|jj: int| 0 <= jj < j + 1 && (#[trigger] g[u]@[jj]).to == p[len];
            if jj < j {
                assert(seen(g, d, r0, j, p));
            }
        }
        if seen(g, d, r0, j, p) {
            let jj = choose|jj: int| 0 <= jj < j && (#[trigger] g[u]@[jj]).to == p[len];
            assert(g[u]@[jj].to == p[len]);
        }
    }
}

proof fn lemma_marks_push(on_route: Seq<bool>, r0: Seq<usize>, w: usize)
    requires
        marks(on_route, r0),
        w < on_route.len(),
        on_route.len() <= usize::MAX,
    ensures
        marks(on_route.update(w as int, true), r0.push(w)),
{
    assert forall|v: int| 0 <= v < on_route.len() implies (#[trigger] on_route.update(
        w as int,
        true,
    )[v] <==> r0.push(w).contains(v as usize)) by {
        lemma_push_contains(r0, w, v as usize);
    }
}

/// Every path that goes on from `route` does so through some edge of its last node.
proof fn lemma_seen_all(g: Seq<Vec<Edge>>, d: int, r0: Seq<usize>)
    requires
        r0.len() >= 1,
    ensures
        forall|p: Seq<usize>|
            #[trigger] extends(g, d, r0, p) ==> seen(g, d, r0, g[r0.last() as int]@.len() as int, p),
{
    let len = r0.len() as int;
    assert forall|p: Seq<usize>| #[trigger] extends(g, d, r0, p) implies seen(
        g,
        d,
        r0,
        g[r0.last() as int]@.len() as int,
        p,
    ) by {
        assert(p[len - 1] == r0[len - 1]) by {
            assert(p.subrange(0, len)[len - 1] == p[len - 1]);
        }
        assert(has_edge(g, p[len - 1] as int, p[len] as int));
    }
}

fn same_path(a: &Vec<usize>, b: &Vec<usize>) -> (r: bool)
    ensures
        r == (a@ == b@),
{
    if a.len() != b.len() {
        return false;
    }
    let mut i: usize = 0;
    while i < a.len()
        invariant
            i <= a@.len(),
            a@.len() == b@.len(),
            a@.subrange(0, i as int) == b@.subrange(0, i as int),
        decreases a@.len() - i,
    {
        if a[i] != b[i] {
            assert(a@.subrange(0, a@.len() as int)[i as int] != b@.subrange(0, a@.len() as int)[i as int]);
            return false;
        }
        assert(a@.subrange(0, i + 1) =~= a@.subrange(0, i as int).push(a@[i as int]));
        assert(b@.subrange(0, i + 1) =~= b@.subrange(0, i as int).push(b@[i as int]));
        i = i + 1;
    }
    assert(a@ =~= a@.subrange(0, i as int));
    assert(b@ =~= b@.subrange(0, i as int));
    true
}

fn holds_path(found: &Vec<Vec<usize>>, p: &Vec<usize>) -> (r: bool)
    ensures
        r == paths_view(found@).contains(p@),
{
    let mut i: usize = 0;
    while i < found.len()
        invariant
            i <= found@.len(),
            forall|k: int| 0 <= k < i ==> found@[k]@ != p@,
        decreases found@.len() - i,
    {
        if same_path(&found[i], p) {
            assert(paths_view(found@)[i as int] == p@);
            return true;
        }
        i = i + 1;
    }
    assert forall|k: int| 0 <= k < paths_view(found@).len() implies paths_view(found@)[k] != p@ by {
        assert(found@[k]@ != p@);
    }
    false
}

/// Adds `p` to `found` where it is not there yet.
fn add_path(found: &mut Vec<Vec<usize>>, p: Vec<usize>)
    requires
        paths_view(old(found)@).no_duplicates(),
    ensures
        paths_view(final(found)@).no_duplicates(),
        forall|q: Seq<usize>|
            #[trigger] paths_view(final(found)@).contains(q) <==> paths_view(old(found)@).contains(q)
                || q == p@,
{
    let ghost f1 = paths_view(found@);
    if !holds_path(found, &p) {
        let ghost pv = p@;
        found.push(p);
        proof {
            let f2 = paths_view(found@);
            assert(f2 =~= f1.push(pv));
            assert forall|a: int, b: int| 0 <= a < b < f2.len() implies f2[a] != f2[b] by {
                if b == f1.len() {
                    assert(f1.contains(f1[a]));
                }
            }
            assert forall|q: Seq<usize>| #[trigger] f2.contains(q) <==> f1.contains(q) || q == pv by {
                if f2.contains(q) && q != pv {
                    let i = choose|i: int| 0 <= i < f2.len() && f2[i] == q;
                    assert(f1[i] == q);
                }
                if f1.contains(q) {
                    let i = choose|i: int| 0 <= i < f1.len() && f1[i] == q;
                    assert(f2[i] == q);
                }
                if q == pv {
                    assert(f2[f1.len() as int] == q);
                }
            }
        }
    }
}

/// Adds to `found` every simple path to `d` that goes on from `route`, each once;
/// `route` and `on_route` are as they were on return.
#[verifier::rlimit(50)]
fn extend(
    g: &Vec<Vec<Edge>>,
    d: usize,
    route: &mut Vec<usize>,
    on_route: &mut Vec<bool>,
    found: &mut Vec<Vec<usize>>,
    room: usize,
)
    requires
        room == g@.len() - old(route)@.len(),
        graph_wf(g@),
        is_path(g@, old(route)@),
        !old(route)@.contains(d),
        old(on_route)@.len() == g@.len(),
        marks(old(on_route)@, old(route)@),
        paths_view(old(found)@).no_duplicates(),
    ensures
        final(route)@ == old(route)@,
        final(on_route)@ == old(on_route)@,
        paths_view(final(found)@).no_duplicates(),
        forall|p: Seq<usize>|
            #[trigger] paths_view(final(found)@).contains(p) <==> paths_view(old(found)@).contains(p)
                || extends(g@, d as int, old(route)@, p),
    decreases room,
{
    let ghost r0 = route@;
    let ghost f0 = paths_view(found@);
    let ghost len = r0.len() as int;
    let u = route[route.len() - 1];
    let edges = &g[u];
    let mut j: usize = 0;
    while j < edges.len()
        invariant
            graph_wf(g@),
            edges@ == g@[u as int]@,
            room == g@.len() - r0.len(),
            u == r0.last(),
            len == r0.len(),
            is_path(g@, r0),
            !r0.contains(d),
            j <= edges@.len(),
            route@ == r0,
            on_route@ == old(on_route)@,
            on_route@.len() == g@.len(),
            marks(on_route@, r0),
            paths_view(found@).no_duplicates(),
            forall|p: Seq<usize>|
                #[trigger] paths_view(found@).contains(p) <==> f0.contains(p) || seen(
                    g@,
                    d as int,
                    r0,
                    j as int,
                    p,
                ),
        decreases edges@.len() - j,
    {
        let w = edges[j].to;
        assert(g@[u as int]@[j as int] == edges@[j as int]);
        let ghost f1 = paths_view(found@);
        if on_route[w] {
            proof {
                lemma_blocked(g@, d as int, r0, w);
                lemma_seen_step(g@, d as int, r0, j as int, f0, f1, f1);
            }
        } else if w == d {
            let mut p = route.clone();
            p.push(d);
            proof {
                lemma_arrive(g@, d, r0, j as int);
            }
            add_path(found, p);
            proof {
                lemma_seen_step(g@, d as int, r0, j as int, f0, f1, paths_view(found@));
            }
        } else {
            proof {
                lemma_step(g@, d, r0, j as int, w);
                lemma_distinct_nodes_bound(r0.push(w), g.len());
                lemma_marks_push(on_route@, r0, w);
            }
            route.push(w);
            on_route[w] = true;
            extend(g, d, route, on_route, found, room - 1);
            route.pop();
            on_route[w] = false;
            proof {
                assert(route@ =~= r0);
                assert(on_route@ =~= old(on_route)@);
                lemma_seen_step(g@, d as int, r0, j as int, f0, f1, paths_view(found@));
            }
        }
        j = j + 1;
    }
    proof {
        lemma_seen_all(g@, d as int, r0);
    }
}

/// Every simple path of `adj_list` from `src` to `dst`, each once. Where `src == dst`
/// that is the one-node path `[src]`.
pub fn all_simple_paths(src: usize, dst: usize, adj_list: &Vec<Vec<Edge>>) -> (r: Vec<Vec<usize>>)
    requires
        graph_wf(adj_list@),
    ensures
        paths_view(r@).no_duplicates(),
        forall|p: Seq<usize>|
            #[trigger] paths_view(r@).contains(p) <==> is_simple_path(
                adj_list@,
                src as int,
                dst as int,
                p,
            ),
{
    let ghost g = adj_list@;
    let n = adj_list.len();
    let mut found: Vec<Vec<usize>> = Vec::new();
    if src >= n || dst >= n {
        proof {
            assert(paths_view(found@) =~= Seq::<Seq<usize>>::empty());
            assert forall|p: Seq<usize>| !is_simple_path(g, src as int, dst as int, p) by {
                if is_simple_path(g, src as int, dst as int, p) {
                    assert(p[0] < n);
                    assert(p[p.len() - 1] < n);
                }
            }
        }
        return found;
    }
    if src == dst {
        let mut single: Vec<usize> = Vec::new();
        single.push(src);
        found.push(single);
        proof {
            assert(paths_view(found@) =~= seq![seq![src]]);
            assert forall|p: Seq<usize>| #[trigger] paths_view(found@).contains(p) <==> is_simple_path(g, src as int, dst as int, p) by {
                if is_simple_path(g, src as int, dst as int, p) {
                    if p.len() > 1 {
                        assert(p[0] == p[p.len() - 1]);
                    }
                    assert(p =~= seq![src]);
                }
                if p == seq![src] {
                    assert(paths_view(found@)[0] == p);
                }
            }
        }
        return found;
    }
    let mut route: Vec<usize> = Vec::new();
    route.push(src);
    let mut on_route: Vec<bool> = Vec::new();
    let mut v: usize = 0;
    while v < n
        invariant
            v <= n,
            on_route@.len() == v,
            forall|x: int| 0 <= x < v ==> on_route@[x] == (x == src),
        decreases n - v,
    {
        on_route.push(v == src);
        v = v + 1;
    }
    proof {
        assert(paths_view(found@) =~= Seq::<Seq<usize>>::empty());
        assert(route@ =~= seq![src]);
        assert forall|x: int| 0 <= x < on_route@.len() implies (#[trigger] on_route@[x] <==> route@.contains(x as usize)) by {
            if route@.contains(x as usize) {
                assert(route@[0] == x);
            }
            if x == src {
                assert(route@[0] == src);
            }
        }
    }
    extend(adj_list, dst, &mut route, &mut on_route, &mut found, n - 1);
    proof {
        assert forall|p: Seq<usize>| #[trigger] paths_view(found@).contains(p) <==> is_simple_path(g, src as int, dst as int, p) by {
            if is_simple_path(g, src as int, dst as int, p) {
                assert(p.len() > 1);
                assert(p.subrange(0, 1) =~= seq![src]);
            }
            if extends(g, dst as int, seq![src], p) {
                assert(p.subrange(0, 1)[0] == p[0]);
            }
        }
    }
    found
}

/// Enumeration gives one answer: two lists that each hold every simple path from
/// `s` to `d` and nothing else hold the same paths.
pub proof fn lemma_simple_paths_determined(
    g: Seq<Vec<Edge>>,
    s: int,
    d: int,
    r1: Seq<Seq<usize>>,
    r2: Seq<Seq<usize>>,
)
    requires
        forall|p: Seq<usize>| #[trigger] r1.contains(p) <==> is_simple_path(g, s, d, p),
        forall|p: Seq<usize>| #[trigger] r2.contains(p) <==> is_simple_path(g, s, d, p),
    ensures
        r1.to_set() == r2.to_set(),
{
    assert(r1.to_set() =~= r2.to_set());
}

/// A path's nodes as integers.
pub open spec fn path_nodes(p: Seq<usize>) -> Seq<int> {
    p.map_values(|v: usize| v as int)
}

/// The nodes that a walk passes are a sequence of nodes of the graph, each linked to
/// the next by an edge.
proof fn lemma_walk_follows_edges(g: Seq<Vec<Edge>>, s: int, steps: Seq<int>)
    requires
        graph_wf(g),
        0 <= s < g.len(),
        walk(g, s, steps) is Some,
    ensures
        forall|i: int|
            0 <= i < walk_nodes(g, s, steps).len() ==> 0 <= #[trigger] walk_nodes(g, s, steps)[i]
                < g.len(),
        forall|i: int|
            0 < i < walk_nodes(g, s, steps).len() ==> has_edge(
                g,
                walk_nodes(g, s, steps)[i - 1],
                #[trigger] walk_nodes(g, s, steps)[i],
            ),
    decreases steps.len(),
{
    lemma_walk_nodes_shape(g, s, steps);
    lemma_walk_in_graph(g, s, steps);
    if steps.len() > 0 {
        let prev = steps.drop_last();
        lemma_walk_follows_edges(g, s, prev);
        lemma_walk_nodes_shape(g, s, prev);
        lemma_walk_in_graph(g, s, prev);
        let nodes = walk_nodes(g, s, steps);
        let pn = walk_nodes(g, s, prev);
        assert(nodes == pn.push((walk(g, s, steps)->0).0));
        let u = (walk(g, s, prev)->0).0;
        let j = steps.last();
        assert(g[u]@[j].to == (walk(g, s, steps)->0).0);
        assert forall|i: int| 0 < i < nodes.len() implies has_edge(
            g,
            nodes[i - 1],
            #[trigger] nodes[i],
        ) by {
            if i < nodes.len() - 1 {
                assert(nodes[i - 1] == pn[i - 1] && nodes[i] == pn[i]);
            } else {
                assert(nodes[i - 1] == pn.last());
            }
        }
    }
}

/// Every path of `g` from `s` is the node sequence of some walk from `s`.
proof fn lemma_path_walked(g: Seq<Vec<Edge>>, s: int, p: Seq<usize>)
    requires
        is_path(g, p),
        p[0] == s,
    ensures
        exists|steps: Seq<int>|
            #[trigger] walk(g, s, steps) is Some && walk_nodes(g, s, steps) == path_nodes(p),
    decreases p.len(),
{
    if p.len() == 1 {
        let e = Seq::<int>::empty();
        assert(walk_nodes(g, s, e) =~= path_nodes(p));
        assert(walk(g, s, e) is Some);
    } else {
        let q = p.drop_last();
        assert(is_path(g, q)) by {
            assert forall|a: int, b: int| 0 <= a < b < q.len() implies q[a] != q[b] by {
                assert(q[a] == p[a] && q[b] == p[b]);
            }
            assert forall|i: int| 0 < i < q.len() implies has_edge(
                g,
                q[i - 1] as int,
                #[trigger] q[i] as int,
            ) by {
                assert(q[i - 1] == p[i - 1] && q[i] == p[i]);
                assert(has_edge(g, p[i - 1] as int, p[i] as int));
            }
            assert forall|i: int| 0 <= i < q.len() implies (#[trigger] q[i] as int) < g.len() by {
                assert(q[i] == p[i]);
            }
        }
        lemma_path_walked(g, s, q);
        let prev = choose|steps: Seq<int>|
            #[trigger] walk(g, s, steps) is Some && walk_nodes(g, s, steps) == path_nodes(q);
        let last = p.len() - 1;
        assert(has_edge(g, p[last - 1] as int, p[last] as int));
        let j = choose|j: int|
            0 <= j < g[p[last - 1] as int]@.len() && (#[trigger] g[p[last - 1] as int]@[j]).to
                == p[last];
        lemma_walk_nodes_shape(g, s, prev);
        assert((walk(g, s, prev)->0).0 == path_nodes(q).last());
        let steps = prev.push(j);
        lemma_walk_push(g, s, prev, j);
        assert(walk_nodes(g, s, steps) =~= path_nodes(p));
    }
}

/// The distance is the least cost of a simple path: where `c` is the distance from `s`
/// to `d`, some simple path from `s` to `d` costs `c` along a choice of its edges (capped
/// at `usize::MAX`), every simple path from `s` to `d` can be walked, and no walk along
/// one costs less than `c`.
pub proof fn lemma_distance_is_least_simple_path_cost(g: Seq<Vec<Edge>>, s: int, d: int, c: int)
    requires
        graph_wf(g),
        g.len() <= usize::MAX,
        0 <= s < g.len(),
        is_shortest_distance(g, s, d, c),
    ensures
        exists|steps: Seq<int>, p: Seq<usize>|
            #[trigger] ends_at(g, s, d, steps) && saturated(cost_of(g, s, steps)) == c
                && #[trigger] is_simple_path(g, s, d, p) && walk_nodes(g, s, steps) == path_nodes(p),
        forall|p: Seq<usize>|
            #[trigger] is_simple_path(g, s, d, p) ==> exists|steps: Seq<int>|
                #[trigger] walk(g, s, steps) is Some && walk_nodes(g, s, steps) == path_nodes(p),
        forall|p: Seq<usize>, steps: Seq<int>|
            #[trigger] is_simple_path(g, s, d, p) && #[trigger] walk(g, s, steps) is Some
                && walk_nodes(g, s, steps) == path_nodes(p) ==> c <= cost_of(g, s, steps),
{
    let steps = choose|steps: Seq<int>|
        #[trigger] ends_at(g, s, d, steps) && crate::graph::is_simple(g, s, steps) && saturated(
            cost_of(g, s, steps),
        ) == c;
    let nodes = walk_nodes(g, s, steps);
    lemma_walk_follows_edges(g, s, steps);
    lemma_walk_nodes_shape(g, s, steps);
    let p = Seq::new(nodes.len(), |i: int| nodes[i] as usize);
    assert forall|i: int| 0 <= i < nodes.len() implies path_nodes(p)[i] == nodes[i] by {
        assert(0 <= nodes[i] < g.len());
    }
    assert(path_nodes(p) =~= nodes);
    assert(is_simple_path(g, s, d, p)) by {
        assert forall|a: int, b: int| 0 <= a < b < p.len() implies p[a] != p[b] by {
            assert(nodes[a] != nodes[b]);
        }
        assert forall|i: int| 0 < i < p.len() implies has_edge(
            g,
            p[i - 1] as int,
            #[trigger] p[i] as int,
        ) by {
            assert(has_edge(g, nodes[i - 1], nodes[i]));
        }
        assert forall|i: int| 0 <= i < p.len() implies (#[trigger] p[i] as int) < g.len() by {
            assert(0 <= nodes[i] < g.len());
        }
    }
    assert forall|q: Seq<usize>| #[trigger] is_simple_path(g, s, d, q) implies exists|
        w: Seq<int>,
    | #[trigger] walk(g, s, w) is Some && walk_nodes(g, s, w) == path_nodes(q) by {
        lemma_path_walked(g, s, q);
    }
    assert forall|q: Seq<usize>, w: Seq<int>|
        #[trigger] is_simple_path(g, s, d, q) && #[trigger] walk(g, s, w) is Some && walk_nodes(
            g,
            s,
            w,
        ) == path_nodes(q) implies c <= cost_of(g, s, w) by {
        lemma_walk_nodes_shape(g, s, w);
        assert(walk_nodes(g, s, w).last() == path_nodes(q).last());
        assert(ends_at(g, s, d, w));
    }
}

} // verus!
