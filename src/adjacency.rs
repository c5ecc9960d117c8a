use vstd::prelude::*;
use crate::graph::{Edge, graph_wf};
use crate::labels::{
    labels_view, label_order, is_label_order, strictly_sorted, insert_label, position_of,
    label_eq, lemma_is_the_label_order, lemma_sorted_distinct,
};

verus! {

/// The text of each labelled edge: source label, destination label, cost.
pub open spec fn edges_view(ts: Seq<(&str, &str, usize)>) -> Seq<(Seq<char>, Seq<char>, usize)> {
    ts.map_values(|t: (&str, &str, usize)| (t.0@, t.1@, t.2))
}

/// The labels that occur as an endpoint of some edge of `ts`.
pub open spec fn endpoint_labels(ts: Seq<(Seq<char>, Seq<char>, usize)>) -> Set<Seq<char>> {
    Set::new(|l: Seq<char>| exists|i: int| 0 <= i < ts.len() && (ts[i].0 == l || ts[i].1 == l))
}

/// The edges of `ts` that leave the node labelled `label`, in the order of `ts`, each
/// leading to the index of its destination label in `nodes`.
pub open spec fn out_edges(
    ts: Seq<(Seq<char>, Seq<char>, usize)>,
    nodes: Seq<Seq<char>>,
    label: Seq<char>,
) -> Seq<Edge>
    decreases ts.len(),
{
    if ts.len() == 0 {
        Seq::empty()
    } else {
        let prev = out_edges(ts.drop_last(), nodes, label);
        let t = ts.last();
        if t.0 == label {
            prev.push(Edge { to: nodes.index_of(t.1) as usize, cost: t.2 })
        } else {
            prev
        }
    }
}

/// The adjacency lists of the labelled edges `ts`: node `u` is the `u`-th label in
/// label order, and its list holds its outgoing edges in the order of `ts`.
pub open spec fn adjacency(ts: Seq<(Seq<char>, Seq<char>, usize)>) -> Seq<Seq<Edge>> {
    let nodes = label_order(endpoint_labels(ts));
    Seq::new(nodes.len(), |u: int| out_edges(ts, nodes, nodes[u]))
}

/// The edge lists of an adjacency list.
pub open spec fn lists_view(g: Seq<Vec<Edge>>) -> Seq<Seq<Edge>> {
    g.map_values(|v: Vec<Edge>| v@)
}

proof fn lemma_endpoints_step(ts: Seq<(Seq<char>, Seq<char>, usize)>, k: int)
    requires
        0 <= k < ts.len(),
    ensures
        endpoint_labels(ts.take(k + 1)) == endpoint_labels(ts.take(k)).insert(ts[k].0).insert(
            ts[k].1,
        ),
{
    let a = endpoint_labels(ts.take(k + 1));
    let b = endpoint_labels(ts.take(k)).insert(ts[k].0).insert(ts[k].1);
    let t1 = ts.take(k + 1);
    let t0 = ts.take(k);
    assert forall|l: Seq<char>| a.contains(l) <==> b.contains(l) by {
        if a.contains(l) {
            let i = choose|i: int| 0 <= i < t1.len() && ((#[trigger] t1[i]).0 == l || t1[i].1 == l);
            if i < k {
                assert(t0[i] == ts[i]);
            }
        }
        if endpoint_labels(t0).contains(l) {
            let i = choose|i: int| 0 <= i < t0.len() && ((#[trigger] t0[i]).0 == l || t0[i].1 == l);
            assert(t1[i] == ts[i]);
        }
        if l == ts[k].0 || l == ts[k].1 {
            assert(t1[k] == ts[k]);
        }
    }
    assert(a =~= b);
}

/// The labels of `route_tuples` in label order, each once.
pub fn sorted_labels<'a>(route_tuples: &[(&'a str, &'a str, usize)]) -> (r: Vec<&'a str>)
    ensures
        labels_view(r@) == label_order(endpoint_labels(edges_view(route_tuples@))),
        is_label_order(labels_view(r@), endpoint_labels(edges_view(route_tuples@))),
{
    let ghost ts = edges_view(route_tuples@);
    let mut nodes: Vec<&'a str> = Vec::new();
    let mut k: usize = 0;
    proof {
        assert(labels_view(nodes@).to_set() =~= endpoint_labels(ts.take(0)));
    }
    while k < route_tuples.len()
        invariant
            k <= route_tuples@.len(),
            ts == edges_view(route_tuples@),
            strictly_sorted(labels_view(nodes@)),
            labels_view(nodes@).to_set() == endpoint_labels(ts.take(k as int)),
        decreases route_tuples@.len() - k,
    {
        let t = route_tuples[k];
        insert_label(&mut nodes, t.0);
        insert_label(&mut nodes, t.1);
        proof {
            lemma_endpoints_step(ts, k as int);
        }
        k = k + 1;
    }
    proof {
        assert(ts.take(k as int) =~= ts);
        lemma_is_the_label_order(labels_view(nodes@), endpoint_labels(ts));
    }
    nodes
}

/// The outgoing edges of the node labelled `label`, in input order.
fn edges_leaving(route_tuples: &[(&str, &str, usize)], nodes: &Vec<&str>, label: &str) -> (r: Vec<
    Edge,
>)
    requires
        strictly_sorted(labels_view(nodes@)),
        endpoint_labels(edges_view(route_tuples@)).subset_of(labels_view(nodes@).to_set()),
    ensures
        r@ == out_edges(edges_view(route_tuples@), labels_view(nodes@), label@),
        forall|i: int| 0 <= i < r@.len() ==> (#[trigger] r@[i]).to < nodes@.len(),
{
    let ghost ts = edges_view(route_tuples@);
    let ghost nv = labels_view(nodes@);
    proof {
        lemma_sorted_distinct(nv);
    }
    let mut out: Vec<Edge> = Vec::new();
    let mut k: usize = 0;
    proof {
        assert(ts.take(0) =~= Seq::<(Seq<char>, Seq<char>, usize)>::empty());
    }
    while k < route_tuples.len()
        invariant
            k <= route_tuples@.len(),
            ts == edges_view(route_tuples@),
            nv == labels_view(nodes@),
            nv.no_duplicates(),
            endpoint_labels(ts).subset_of(nv.to_set()),
            out@ == out_edges(ts.take(k as int), nv, label@),
            forall|i: int| 0 <= i < out@.len() ==> (#[trigger] out@[i]).to < nodes@.len(),
        decreases route_tuples@.len() - k,
    {
        let t = route_tuples[k];
        assert(ts.take(k + 1).drop_last() =~= ts.take(k as int));
        assert(ts.take(k + 1).last() == ts[k as int]);
        assert(ts[k as int] == (t.0@, t.1@, t.2));
        if label_eq(t.0, label) {
            assert(endpoint_labels(ts).contains(t.1@));
            let to = position_of(nodes, t.1);
            proof {
                let i = nv.index_of(t.1@);
                assert(nv.contains(t.1@));
                assert(nv[i] == t.1@);
                assert(i == to);
            }
            out.push(Edge { to, cost: t.2 });
        }
        k = k + 1;
    }
    proof {
        assert(ts.take(k as int) =~= ts);
    }
    out
}

/// The adjacency lists of a graph given as labelled edges `(source, destination,
/// cost)`. The distinct labels, in label order, name the nodes `0..n`; the list of each
/// node holds its outgoing edges in the order they were given.
pub fn adj_list(route_tuples: &[(&str, &str, usize)]) -> (r: Vec<Vec<Edge>>)
    ensures
        lists_view(r@) == adjacency(edges_view(route_tuples@)),
        graph_wf(r@),
{
    let ghost ts = edges_view(route_tuples@);
    let nodes = sorted_labels(route_tuples);
    let ghost nv = labels_view(nodes@);
    let mut lists: Vec<Vec<Edge>> = Vec::new();
    let mut u: usize = 0;
    while u < nodes.len()
        invariant
            u <= nodes@.len(),
            ts == edges_view(route_tuples@),
            nv == labels_view(nodes@),
            nv == label_order(endpoint_labels(ts)),
            is_label_order(nv, endpoint_labels(ts)),
            lists@.len() == u,
            forall|v: int| 0 <= v < u ==> (#[trigger] lists@[v])@ == out_edges(ts, nv, nv[v]),
            forall|v: int, i: int|
                0 <= v < u && 0 <= i < lists@[v]@.len() ==> (#[trigger] lists@[v]@[i]).to
                    < nodes@.len(),
        decreases nodes@.len() - u,
    {
        let out = edges_leaving(route_tuples, &nodes, nodes[u]);
        lists.push(out);
        u = u + 1;
    }
    proof {
        assert(lists_view(lists@) =~= adjacency(ts));
    }
    lists
}

} // verus!
