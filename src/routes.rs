use vstd::prelude::*;
use crate::adjacency::{edges_view, endpoint_labels, lists_view, sorted_labels};
use crate::graph::{Edge, graph_wf};
use crate::labels::{label_order, labels_view, position_of, lemma_sorted_distinct};
use crate::trajectory::strings_view;

verus! {

/// The text of each owned labelled edge: source label, destination label, cost.
pub open spec fn owned_edges_view(ts: Seq<(String, String, usize)>) -> Seq<
    (Seq<char>, Seq<char>, usize),
> {
    ts.map_values(|t: (String, String, usize)| (t.0@, t.1@, t.2))
}

/// A small sample graph: A→B, B→C, C→D, B→D and E→A, each of cost 1.
pub fn route_tuple() -> (r: Vec<(String, String, usize)>)
    ensures
        owned_edges_view(r@) == seq![
            ("A"@, "B"@, 1usize),
            ("B"@, "C"@, 1usize),
            ("C"@, "D"@, 1usize),
            ("B"@, "D"@, 1usize),
            ("E"@, "A"@, 1usize),
        ],
{
    let mut r: Vec<(String, String, usize)> = Vec::new();
    r.push(("A".to_owned(), "B".to_owned(), 1));
    r.push(("B".to_owned(), "C".to_owned(), 1));
    r.push(("C".to_owned(), "D".to_owned(), 1));
    r.push(("B".to_owned(), "D".to_owned(), 1));
    r.push(("E".to_owned(), "A".to_owned(), 1));
    assert(owned_edges_view(r@) =~= seq![
        ("A"@, "B"@, 1usize),
        ("B"@, "C"@, 1usize),
        ("C"@, "D"@, 1usize),
        ("B"@, "D"@, 1usize),
        ("E"@, "A"@, 1usize),
    ]);
    r
}

/// The edges of `es` (source index, destination index, cost) that leave node `u`, in
/// the order of `es`.
pub open spec fn indexed_out_edges(es: Seq<(usize, usize, usize)>, u: int) -> Seq<Edge>
    decreases es.len(),
{
    if es.len() == 0 {
        Seq::empty()
    } else {
        let prev = indexed_out_edges(es.drop_last(), u);
        let e = es.last();
        if e.0 == u {
            prev.push(Edge { to: e.1, cost: e.2 })
        } else {
            prev
        }
    }
}

/// A graph as its node labels, in label order, and its edges as node indices.
#[derive(Debug)]
pub struct Routes {
    nodes: Vec<String>,
    distances: Vec<usize>,
    sources: Vec<usize>,
    destinations: Vec<usize>,
}

impl Routes {
    /// The label of each node.
    pub closed spec fn node_labels(&self) -> Seq<Seq<char>> {
        strings_view(self.nodes@)
    }

    /// Each edge as (source index, destination index, cost).
    pub closed spec fn edge_triples(&self) -> Seq<(usize, usize, usize)> {
        Seq::new(
            self.sources@.len(),
            |i: int| (self.sources@[i], self.destinations@[i], self.distances@[i]),
        )
    }

    /// Every edge joins two nodes of the graph.
    pub closed spec fn wf(&self) -> bool {
        &&& self.distances@.len() == self.sources@.len()
        &&& self.destinations@.len() == self.sources@.len()
        &&& forall|i: int|
            0 <= i < self.sources@.len() ==> #[trigger] self.sources@[i] < self.nodes@.len()
                && self.destinations@[i] < self.nodes@.len()
    }

    /// The graph of the labelled edges `rt`: the distinct labels in label order name
    /// the nodes, and each edge joins the indices of its labels.
    pub fn from(rt: Vec<(String, String, usize)>) -> (r: Routes)
        ensures
            r.wf(),
            r.node_labels() == label_order(endpoint_labels(owned_edges_view(rt@))),
            r.edge_triples() == Seq::new(
                rt@.len(),
                |i: int|
                    {
                        let nodes = label_order(endpoint_labels(owned_edges_view(rt@)));
                        (
                            nodes.index_of(rt@[i].0@) as usize,
                            nodes.index_of(rt@[i].1@) as usize,
                            rt@[i].2,
                        )
                    },
            ),
    {
        let ghost ts = owned_edges_view(rt@);
        let mut tuples: Vec<(&str, &str, usize)> = Vec::new();
        let mut i: usize = 0;
        while i < rt.len()
            invariant
                i <= rt@.len(),
                ts == owned_edges_view(rt@),
                edges_view(tuples@) == ts.take(i as int),
            decreases rt@.len() - i,
        {
            let t = &rt[i];
            let ghost before = tuples@;
            tuples.push((t.0.as_str(), t.1.as_str(), t.2));
            assert(edges_view(tuples@) =~= edges_view(before).push(ts[i as int]));
            assert(ts.take(i + 1) =~= ts.take(i as int).push(ts[i as int]));
            i = i + 1;
        }
        assert(ts.take(i as int) =~= ts);
        let labels = sorted_labels(tuples.as_slice());
        let ghost nv = labels_view(labels@);
        proof {
            lemma_sorted_distinct(nv);
        }
        let mut nodes: Vec<String> = Vec::new();
        let mut k: usize = 0;
        while k < labels.len()
            invariant
                k <= labels@.len(),
                nv == labels_view(labels@),
                strings_view(nodes@) == nv.take(k as int),
            decreases labels@.len() - k,
        {
            let ghost before = nodes@;
            let owned = labels[k].to_owned();
            nodes.push(owned);
            assert(strings_view(nodes@) =~= strings_view(before).push(owned@));
            assert(nv.take(k + 1) =~= nv.take(k as int).push(nv[k as int]));
            k = k + 1;
        }
        assert(nv.take(k as int) =~= nv);
        let mut distances: Vec<usize> = Vec::new();
        let mut sources: Vec<usize> = Vec::new();
        let mut destinations: Vec<usize> = Vec::new();
        let mut i: usize = 0;
        while i < rt.len()
            invariant
                i <= rt@.len(),
                ts == owned_edges_view(rt@),
                nv == labels_view(labels@),
                nv == label_order(endpoint_labels(ts)),
                nv.to_set() == endpoint_labels(ts),
                nv.no_duplicates(),
                distances@.len() == i,
                sources@.len() == i,
                destinations@.len() == i,
                forall|k: int|
                    0 <= k < i ==> #[trigger] sources@[k] == nv.index_of(ts[k].0) && sources@[k]
                        < nv.len() && destinations@[k] == nv.index_of(ts[k].1) && destinations@[k]
                        < nv.len() && distances@[k] == ts[k].2,
            decreases rt@.len() - i,
        {
            let t = &rt[i];
            assert(ts[i as int] == (t.0@, t.1@, t.2));
            assert(endpoint_labels(ts).contains(t.0@));
            assert(endpoint_labels(ts).contains(t.1@));
            let s = position_of(&labels, t.0.as_str());
            let d = position_of(&labels, t.1.as_str());
            proof {
                assert(nv.contains(t.0@));
                assert(nv[nv.index_of(t.0@)] == t.0@);
                assert(nv.contains(t.1@));
                assert(nv[nv.index_of(t.1@)] == t.1@);
                assert(nv.index_of(t.0@) == s as int);
                assert(nv.index_of(t.1@) == d as int);
            }
            sources.push(s);
            destinations.push(d);
            distances.push(t.2);
            assert(sources@[i as int] == nv.index_of(ts[i as int].0));
            i = i + 1;
        }
        let r = Routes { nodes, distances, sources, destinations };
        assert(r.edge_triples() =~= Seq::new(
            rt@.len(),
            |i: int|
                {
                    let nodes = label_order(endpoint_labels(owned_edges_view(rt@)));
                    (nodes.index_of(rt@[i].0@) as usize, nodes.index_of(rt@[i].1@) as usize, rt@[i].2)
                },
        ));
        r
    }

    /// The number of nodes.
    pub fn nodes_count(&self) -> (r: usize)
        ensures
            r == self.node_labels().len(),
    {
        self.nodes.len()
    }

    /// The adjacency lists of the graph: the list of node `u` holds the edges that
    /// leave it, in edge order.
    pub fn adj_list(&self) -> (r: Vec<Vec<Edge>>)
        requires
            self.wf(),
        ensures
            lists_view(r@) == Seq::new(
                self.node_labels().len(),
                |u: int| indexed_out_edges(self.edge_triples(), u),
            ),
            graph_wf(r@),
    {
        let ghost es = self.edge_triples();
        let n = self.nodes.len();
        let mut lists: Vec<Vec<Edge>> = Vec::new();
        let mut u: usize = 0;
        while u < n
            invariant
                self.wf(),
                es == self.edge_triples(),
                n == self.nodes@.len(),
                u <= n,
                lists@.len() == u,
                forall|v: int| 0 <= v < u ==> (#[trigger] lists@[v])@ == indexed_out_edges(es, v),
                forall|v: int, i: int|
                    0 <= v < u && 0 <= i < lists@[v]@.len() ==> (#[trigger] lists@[v]@[i]).to < n,
            decreases n - u,
        {
            let mut out: Vec<Edge> = Vec::new();
            let mut i: usize = 0;
            assert(es.take(0) =~= Seq::<(usize, usize, usize)>::empty());
            while i < self.sources.len()
                invariant
                    self.wf(),
                    es == self.edge_triples(),
                    n == self.nodes@.len(),
                    i <= self.sources@.len(),
                    out@ == indexed_out_edges(es.take(i as int), u as int),
                    forall|k: int| 0 <= k < out@.len() ==> (#[trigger] out@[k]).to < n,
                decreases self.sources@.len() - i,
            {
                assert(es.take(i + 1).drop_last() =~= es.take(i as int));
                assert(es.take(i + 1).last() == es[i as int]);
                if self.sources[i] == u {
                    out.push(Edge { to: self.destinations[i], cost: self.distances[i] });
                }
                i = i + 1;
            }
            assert(es.take(i as int) =~= es);
            lists.push(out);
            u = u + 1;
        }
        assert(lists_view(lists@) =~= Seq::new(
            self.node_labels().len(),
            |u: int| indexed_out_edges(es, u),
        ));
        lists
    }
}

} // verus!
