use vstd::prelude::*;

verus! {

/// An outgoing edge of an adjacency list: the node it leads to and its cost.
#[derive(Clone, Copy, Debug)]
pub struct Edge {
    pub to: usize,
    pub cost: usize,
}

/// Every edge of `g` leads to a node of `g`.
pub open spec fn graph_wf(g: Seq<Vec<Edge>>) -> bool {
    forall|u: int, j: int|
        0 <= u < g.len() && 0 <= j < g[u]@.len() ==> (#[trigger] g[u]@[j]).to < g.len()
}

/// Follows the edge indices `steps` from `s`: each step picks one outgoing edge of the
/// node reached so far. Gives the node reached and the summed cost, or `None` where a
/// step names no edge.
pub open spec fn walk(g: Seq<Vec<Edge>>, s: int, steps: Seq<int>) -> Option<(int, int)>
    decreases steps.len(),
{
    if steps.len() == 0 {
        Some((s, 0))
    } else {
        match walk(g, s, steps.drop_last()) {
            Some((u, c)) => {
                if 0 <= u < g.len() && 0 <= steps.last() < g[u]@.len() {
                    let e = g[u]@[steps.last()];
                    Some((e.to as int, c + e.cost))
                } else {
                    None
                }
            },
            None => None,
        }
    }
}

/// The nodes that a walk from `s` along `steps` passes, `s` first.
pub open spec fn walk_nodes(g: Seq<Vec<Edge>>, s: int, steps: Seq<int>) -> Seq<int>
    decreases steps.len(),
{
    if steps.len() == 0 {
        seq![s]
    } else {
        walk_nodes(g, s, steps.drop_last()).push(
            match walk(g, s, steps) {
                Some((v, _)) => v,
                None => -1,
            },
        )
    }
}

/// Following `steps` from `s` is a walk of `g` that ends at `t`.
pub open spec fn ends_at(g: Seq<Vec<Edge>>, s: int, t: int, steps: Seq<int>) -> bool {
    match walk(g, s, steps) {
        Some((v, _)) => v == t,
        None => false,
    }
}

/// The summed cost of the walk from `s` along `steps`.
pub open spec fn cost_of(g: Seq<Vec<Edge>>, s: int, steps: Seq<int>) -> int {
    match walk(g, s, steps) {
        Some((_, c)) => c,
        None => 0,
    }
}

/// The walk from `s` along `steps` passes no node twice.
pub open spec fn is_simple(g: Seq<Vec<Edge>>, s: int, steps: Seq<int>) -> bool {
    walk_nodes(g, s, steps).no_duplicates()
}

/// Some walk of `g` leads from `s` to `t`.
pub open spec fn reachable(g: Seq<Vec<Edge>>, s: int, t: int) -> bool {
    exists|steps: Seq<int>| #[trigger] ends_at(g, s, t, steps)
}

/// `x`, or `usize::MAX` where `x` is larger.
pub open spec fn saturated(x: int) -> int {
    if x > usize::MAX {
        usize::MAX as int
    } else {
        x
    }
}

/// `c` is the least cost of a walk from `s` to `t` (capped at `usize::MAX`), and a
/// walk that passes no node twice has that cost.
pub open spec fn is_shortest_distance(g: Seq<Vec<Edge>>, s: int, t: int, c: int) -> bool {
    &&& exists|steps: Seq<int>|
        #[trigger] ends_at(g, s, t, steps) && is_simple(g, s, steps) && saturated(
            cost_of(g, s, steps),
        ) == c
    &&& forall|steps: Seq<int>| #[trigger] ends_at(g, s, t, steps) ==> c <= cost_of(g, s, steps)
}

pub proof fn lemma_walk_push(g: Seq<Vec<Edge>>, s: int, steps: Seq<int>, j: int)
    ensures
        steps.push(j).drop_last() == steps,
        walk(g, s, steps.push(j)) == (match walk(g, s, steps) {
            Some((u, c)) => if 0 <= u < g.len() && 0 <= j < g[u]@.len() {
                Some((g[u]@[j].to as int, c + g[u]@[j].cost))
            } else {
                None
            },
            None => None,
        }),
        walk_nodes(g, s, steps.push(j)) == walk_nodes(g, s, steps).push(
            match walk(g, s, steps.push(j)) {
                Some((v, _)) => v,
                None => -1,
            },
        ),
{
    assert(steps.push(j).drop_last() =~= steps);
}

pub proof fn lemma_walk_nodes_shape(g: Seq<Vec<Edge>>, s: int, steps: Seq<int>)
    requires
        walk(g, s, steps) is Some,
    ensures
        walk_nodes(g, s, steps).len() == steps.len() + 1,
        walk_nodes(g, s, steps)[0] == s,
        walk_nodes(g, s, steps).last() == (walk(g, s, steps)->0).0,
    decreases steps.len(),
{
    if steps.len() > 0 {
        lemma_walk_nodes_shape(g, s, steps.drop_last());
    }
}

/// Summed edge costs are never negative.
pub proof fn lemma_cost_nonneg(g: Seq<Vec<Edge>>, s: int, steps: Seq<int>)
    ensures
        cost_of(g, s, steps) >= 0,
    decreases steps.len(),
{
    if steps.len() > 0 {
        lemma_cost_nonneg(g, s, steps.drop_last());
    }
}

/// In a well-formed graph, a walk from a node of the graph stays in the graph.
pub proof fn lemma_walk_in_graph(g: Seq<Vec<Edge>>, s: int, steps: Seq<int>)
    requires
        graph_wf(g),
        0 <= s < g.len(),
        walk(g, s, steps) is Some,
    ensures
        0 <= (walk(g, s, steps)->0).0 < g.len(),
    decreases steps.len(),
{
    if steps.len() > 0 {
        lemma_walk_in_graph(g, s, steps.drop_last());
    }
}

} // verus!
