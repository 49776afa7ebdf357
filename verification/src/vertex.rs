//! A mesh vertex and the two line-graph construction steps that work on it:
//! splitting a vertex's mesh edges into edge nodes, and connecting all edge
//! nodes incident to one vertex.

use vstd::prelude::*;

use crate::edge::Edge;
use crate::node::{adj_to, lemma_push_contains, lemma_push_no_dup, same_but_adj, wf, Node};

verus! {

/// A mesh vertex: the list of arena indices of its incident edge nodes,
/// filled in once during line-graph construction.
pub struct Vertex {
    pub edges: Vec<usize>,
}

/// Every edge node is freshly built: its id is its index, it is uncolored,
/// unmarked and has no line-graph adjacency yet.
pub open spec fn edge_nodes_fresh(es: Seq<Node<Edge>>) -> bool {
    forall|e: int|
        0 <= e < es.len() ==> (#[trigger] es[e]).id == e && es[e].color == -1 && !es[e].marked
            && !es[e].intern_mark && es[e].dist == 0 && es[e].adj@.len() == 0
}

/// Every edge joins two distinct vertices that are adjacent in the vertex
/// graph.
pub open spec fn edge_endpoints_ok(ns: Seq<Node<Vertex>>, es: Seq<Node<Edge>>) -> bool {
    forall|e: int|
        0 <= e < es.len() ==> adj_to(
            ns,
            (#[trigger] es[e]).content.node_1 as int,
            es[e].content.node_2 as int,
        )
}

/// No two edge nodes join the same unordered pair of vertices.
pub open spec fn edge_pairs_unique(es: Seq<Node<Edge>>) -> bool {
    forall|e1: int, e2: int|
        0 <= e1 < es.len() && 0 <= e2 < es.len() && e1 != e2 ==> !(#[trigger] es[e1].content).same_pair(
            #[trigger] es[e2].content,
        )
}

/// Each vertex's incident list holds exactly the ids of the edges that touch
/// it, without duplicates.
pub open spec fn incident_lists_exact(ns: Seq<Node<Vertex>>, es: Seq<Node<Edge>>) -> bool {
    &&& forall|x: int| 0 <= x < ns.len() ==> (#[trigger] ns[x].content.edges@).no_duplicates()
    &&& forall|x: int, e: usize|
        0 <= x < ns.len() ==> ((#[trigger] ns[x].content.edges@.contains(e)) <==> (e < es.len()
            && es[e as int].content.touches(x)))
}

/// Every mesh edge with a processed (marked) endpoint has its edge node.
pub open spec fn edges_covered(ns: Seq<Node<Vertex>>, es: Seq<Node<Edge>>) -> bool {
    forall|x: int, y: int|
        #[trigger] adj_to(ns, x, y) && (ns[x].marked || ns[y].marked) ==> exists|e: int|
            0 <= e < es.len() && (#[trigger] es[e].content).same_pair(
                Edge { node_1: x as usize, node_2: y as usize },
            )
}

/// Every edge node has at least one processed (marked) endpoint.
pub open spec fn edge_marked_endpoint(ns: Seq<Node<Vertex>>, es: Seq<Node<Edge>>) -> bool {
    forall|e: int|
        0 <= e < es.len() ==> ns[(#[trigger] es[e]).content.node_1 as int].marked || ns[es[e].content.node_2 as int].marked
}

impl Vertex {
    /// A fresh vertex with no incident edges recorded yet.
    pub fn new() -> (v: Vertex)
        ensures
            v.edges@ == Seq::<usize>::empty(),
    {
        Vertex { edges: Vec::new() }
    }

    /// Create one edge node for every mesh edge between `v` and a neighbour
    /// not yet processed, register it on both endpoints' incident lists, and
    /// mark `v` as processed. Working through the vertices in any order,
    /// this creates every undirected mesh edge exactly once.
    pub fn split(nodes: &mut Vec<Node<Vertex>>, v: usize, all_edges: &mut Vec<Node<Edge>>)
        requires
            wf(old(nodes)@),
            v < old(nodes)@.len(),
            !old(nodes)@[v as int].marked,
            edge_nodes_fresh(old(all_edges)@),
            edge_endpoints_ok(old(nodes)@, old(all_edges)@),
            edge_pairs_unique(old(all_edges)@),
            incident_lists_exact(old(nodes)@, old(all_edges)@),
            edges_covered(old(nodes)@, old(all_edges)@),
            edge_marked_endpoint(old(nodes)@, old(all_edges)@),
        ensures
            wf(final (nodes)@),
            final (nodes)@.len() == old(nodes)@.len(),
            final (all_edges)@.len() >= old(all_edges)@.len(),
            forall|e: int|
                0 <= e < old(all_edges)@.len() ==> final (all_edges)@[e] == old(all_edges)@[e],
            forall|x: int|
                0 <= x < old(nodes)@.len() ==> (#[trigger] final (nodes)@[x]).id == old(
                    nodes,
                )@[x].id && final (nodes)@[x].adj@ == old(nodes)@[x].adj@ && final (nodes)@[x].color
                    == old(nodes)@[x].color && final (nodes)@[x].dist == old(nodes)@[x].dist
                    && final (nodes)@[x].intern_mark == old(nodes)@[x].intern_mark,
            forall|x: int|
                0 <= x < old(nodes)@.len() ==> (#[trigger] final (nodes)@[x]).marked == (old(
                    nodes,
                )@[x].marked || x == v),
            edge_nodes_fresh(final (all_edges)@),
            edge_endpoints_ok(final (nodes)@, final (all_edges)@),
            edge_pairs_unique(final (all_edges)@),
            incident_lists_exact(final (nodes)@, final (all_edges)@),
            edges_covered(final (nodes)@, final (all_edges)@),
            edge_marked_endpoint(final (nodes)@, final (all_edges)@),
    {
        let ghost ns0 = nodes@;
        let ghost es0 = all_edges@;
        let deg = nodes[v].adj.len();
        let mut m: usize = 0;
        while m < deg
            invariant
                wf(nodes@),
                v < nodes@.len(),
                nodes@.len() == ns0.len(),
                ns0 == old(nodes)@,
                es0 == old(all_edges)@,
                wf(ns0),
                !ns0[v as int].marked,
                deg == ns0[v as int].adj@.len(),
                m <= deg,
                es0.len() <= all_edges@.len(),
                all_edges@.len() <= es0.len() + m,
                forall|e: int| 0 <= e < es0.len() ==> all_edges@[e] == es0[e],
                forall|x: int|
                    0 <= x < ns0.len() ==> (#[trigger] nodes@[x]).id == ns0[x].id && nodes@[x].adj@
                        == ns0[x].adj@ && nodes@[x].color == ns0[x].color && nodes@[x].dist
                        == ns0[x].dist && nodes@[x].intern_mark == ns0[x].intern_mark
                        && nodes@[x].marked == ns0[x].marked,
                edge_nodes_fresh(all_edges@),
                edge_endpoints_ok(nodes@, all_edges@),
                edge_pairs_unique(all_edges@),
                incident_lists_exact(nodes@, all_edges@),
                edges_covered(nodes@, all_edges@),
                // New edges end at `v`; their far endpoint comes from the
                // processed prefix of `v`'s adjacency list and is unmarked.
                forall|e: int|
                    es0.len() <= e < all_edges@.len() ==> (#[trigger] all_edges@[e]).content.node_2
                        == v && !nodes@[all_edges@[e].content.node_1 as int].marked && exists|mm: int|
                        0 <= mm < m && ns0[v as int].adj@[mm] == all_edges@[e].content.node_1,
                forall|e: int|
                    0 <= e < es0.len() ==> nodes@[(#[trigger] all_edges@[e]).content.node_1 as int].marked
                        || nodes@[all_edges@[e].content.node_2 as int].marked,
                // Every processed unmarked neighbour already has its edge.
                forall|mm: int|
                    0 <= mm < m && !nodes@[(#[trigger] ns0[v as int].adj@[mm]) as int].marked
                        ==> exists|e: int|
                        0 <= e < all_edges@.len() && (#[trigger] all_edges@[e].content).same_pair(
                            Edge { node_1: ns0[v as int].adj@[mm], node_2: v },
                        ),
            decreases deg - m,
        {
            let a = nodes[v].adj[m];
            proof {
                assert(ns0[v as int].adj@[m as int] < nodes@.len());
                assert(ns0[v as int].adj@[m as int] != v);
                assert(ns0[v as int].adj@.contains(a));
                assert(adj_to(nodes@, v as int, a as int));
                assert(adj_to(nodes@, a as int, v as int));
            }
            if !nodes[a].is_marked() {
                let eid = all_edges.len();
                let ghost es_pre = all_edges@;
                let ghost ns_pre = nodes@;
                let enode = Node::new(eid, Edge::new(a, v));
                all_edges.push(enode);
                let mut na = nodes.remove(a);
                na.content.edges.push(eid);
                nodes.insert(a, na);
                proof {
                    assert(nodes@ =~= ns_pre.update(a as int, nodes@[a as int]));
                }
                let mut nv = nodes.remove(v);
                nv.content.edges.push(eid);
                nodes.insert(v, nv);
                proof {
                    assert(nodes@ =~= ns_pre.update(a as int, nodes@[a as int]).update(
                        v as int,
                        nodes@[v as int],
                    ));
                    assert(nodes@[a as int].content.edges@ == ns_pre[a as int].content.edges@.push(
                        eid,
                    ));
                    assert(nodes@[v as int].content.edges@ == ns_pre[v as int].content.edges@.push(
                        eid,
                    ));
                    crate::node::lemma_wf_same_adjacency(ns_pre, nodes@);
                    // The new pair {a, v} did not exist: every prior edge
                    // either has a marked endpoint or runs to `v` from a
                    // different prefix neighbour.
                    assert forall|e1: int, e2: int|
                        0 <= e1 < all_edges@.len() && 0 <= e2 < all_edges@.len() && e1 != e2
                            implies !(#[trigger] all_edges@[e1].content).same_pair(
                        #[trigger] all_edges@[e2].content,
                    ) by {
                        assert(all_edges@.len() == es_pre.len() + 1);
                        assert(all_edges@[es_pre.len() as int].content == Edge {
                            node_1: a,
                            node_2: v,
                        });
                        assert(!ns_pre[a as int].marked);
                        assert(!ns_pre[v as int].marked);
                        if e1 < es_pre.len() && e2 < es_pre.len() {
                            assert(all_edges@[e1] == es_pre[e1]);
                            assert(all_edges@[e2] == es_pre[e2]);
                            assert(!es_pre[e1].content.same_pair(es_pre[e2].content));
                        } else if e1 < es_pre.len() && e2 == es_pre.len() {
                            assert(all_edges@[e1] == es_pre[e1]);
                            if all_edges@[e1].content.same_pair(all_edges@[e2].content) {
                                if e1 < es0.len() {
                                    assert(ns_pre[(es_pre[e1].content.node_1) as int].marked
                                        || ns_pre[(es_pre[e1].content.node_2) as int].marked);
                                    assert(false);
                                } else {
                                    assert(es_pre[e1].content.node_2 == v);
                                    assert(es_pre[e1].content.node_1 == a);
                                    let mm = choose|mm: int|
                                        0 <= mm < m && ns0[v as int].adj@[mm]
                                            == es_pre[e1].content.node_1;
                                    assert(ns0[v as int].adj@[mm] == a);
                                    assert(ns0[v as int].adj@[m as int] == a);
                                    assert((ns0[v as int].adj@).no_duplicates());
                                    assert(false);
                                }
                            }
                        } else if e2 < es_pre.len() && e1 == es_pre.len() {
                            assert(all_edges@[e2] == es_pre[e2]);
                            if all_edges@[e1].content.same_pair(all_edges@[e2].content) {
                                if e2 < es0.len() {
                                    assert(ns_pre[(es_pre[e2].content.node_1) as int].marked
                                        || ns_pre[(es_pre[e2].content.node_2) as int].marked);
                                    assert(false);
                                } else {
                                    assert(es_pre[e2].content.node_2 == v);
                                    assert(es_pre[e2].content.node_1 == a);
                                    let mm = choose|mm: int|
                                        0 <= mm < m && ns0[v as int].adj@[mm]
                                            == es_pre[e2].content.node_1;
                                    assert(ns0[v as int].adj@[mm] == a);
                                    assert(ns0[v as int].adj@[m as int] == a);
                                    assert((ns0[v as int].adj@).no_duplicates());
                                    assert(false);
                                }
                            }
                        }
                    }
                    // Incident lists stay exact.
                    assert forall|x: int, e: usize|
                        0 <= x < nodes@.len() implies ((#[trigger] nodes@[x].content.edges@.contains(
                        e,
                    )) <==> (e < all_edges@.len() && all_edges@[e as int].content.touches(x))) by {
                        if x == a as int || x == v as int {
                            lemma_push_contains(ns_pre[x].content.edges@, eid, e);
                        }
                        if e == eid {
                            assert(all_edges@[e as int].content.node_1 == a);
                            assert(all_edges@[e as int].content.node_2 == v);
                        } else {
                            assert(ns_pre[x].content.edges@.contains(e) <==> (e < es_pre.len()
                                && es_pre[e as int].content.touches(x)));
                        }
                    }
                    assert forall|x: int|
                        0 <= x < nodes@.len() implies (#[trigger] nodes@[x].content.edges@).no_duplicates() by {
                        if x == a as int || x == v as int {
                            assert(!ns_pre[x].content.edges@.contains(eid));
                            lemma_push_no_dup(ns_pre[x].content.edges@, eid);
                        }
                    }
                    // Coverage is monotone: old witnesses still work.
                    assert forall|x: int, y: int|
                        #[trigger] adj_to(nodes@, x, y) && (nodes@[x].marked || nodes@[y].marked)
                            implies exists|e: int|
                            0 <= e < all_edges@.len() && (#[trigger] all_edges@[e].content).same_pair(
                                Edge { node_1: x as usize, node_2: y as usize },
                            ) by {
                        assert(adj_to(ns_pre, x, y));
                        assert(ns_pre[x].marked == nodes@[x].marked);
                        assert(ns_pre[y].marked == nodes@[y].marked);
                        let e = choose|e: int|
                            0 <= e < es_pre.len() && (#[trigger] es_pre[e].content).same_pair(
                                Edge { node_1: x as usize, node_2: y as usize },
                            );
                        assert(all_edges@[e].content.same_pair(
                            Edge { node_1: x as usize, node_2: y as usize },
                        ));
                    }
                    assert forall|mm: int|
                        0 <= mm < m + 1 && !nodes@[(#[trigger] ns0[v as int].adj@[mm]) as int].marked
                            implies exists|e: int|
                            0 <= e < all_edges@.len() && (#[trigger] all_edges@[e].content).same_pair(
                                Edge { node_1: ns0[v as int].adj@[mm], node_2: v },
                            ) by {
                        if mm == m {
                            assert(all_edges@[eid as int].content.same_pair(
                                Edge { node_1: a, node_2: v },
                            ));
                        } else {
                            assert(!ns_pre[(ns0[v as int].adj@[mm]) as int].marked);
                            let e = choose|e: int|
                                0 <= e < es_pre.len() && (#[trigger] es_pre[e].content).same_pair(
                                    Edge { node_1: ns0[v as int].adj@[mm], node_2: v },
                                );
                            assert(all_edges@[e].content.same_pair(
                                Edge { node_1: ns0[v as int].adj@[mm], node_2: v },
                            ));
                        }
                    }
                }
            } else {
                proof {
                    assert forall|mm: int|
                        0 <= mm < m + 1 && !nodes@[(#[trigger] ns0[v as int].adj@[mm]) as int].marked
                            implies exists|e: int|
                            0 <= e < all_edges@.len() && (#[trigger] all_edges@[e].content).same_pair(
                                Edge { node_1: ns0[v as int].adj@[mm], node_2: v },
                            ) by {
                        if mm == m {
                            assert(nodes@[(ns0[v as int].adj@[mm]) as int].marked);
                        }
                    }
                }
            }
            m = m + 1;
        }
        // Mark `v` as processed.
        let ghost ns_pre = nodes@;
        let ghost es_fin = all_edges@;
        let mut nv = nodes.remove(v);
        nv.marked = true;
        nodes.insert(v, nv);
        proof {
            assert(nodes@ =~= ns_pre.update(v as int, nodes@[v as int]));
            crate::node::lemma_wf_same_adjacency(ns_pre, nodes@);
            assert forall|x: int, e: usize|
                0 <= x < nodes@.len() implies ((#[trigger] nodes@[x].content.edges@.contains(e))
                <==> (e < all_edges@.len() && all_edges@[e as int].content.touches(x))) by {
                assert(nodes@[x].content.edges@ == ns_pre[x].content.edges@);
            }
            assert forall|x: int|
                0 <= x < nodes@.len() implies (#[trigger] nodes@[x].content.edges@).no_duplicates() by {
                assert(nodes@[x].content.edges@ == ns_pre[x].content.edges@);
            }
            // Coverage now also holds for pairs at `v`: a marked neighbour's
            // edge existed before this call, an unmarked one's was created in
            // the loop above.
            assert forall|x: int, y: int|
                #[trigger] adj_to(nodes@, x, y) && (nodes@[x].marked || nodes@[y].marked)
                    implies exists|e: int|
                    0 <= e < all_edges@.len() && (#[trigger] all_edges@[e].content).same_pair(
                        Edge { node_1: x as usize, node_2: y as usize },
                    ) by {
                assert(adj_to(ns_pre, x, y));
                if (x == v || y == v) && !(ns_pre[x].marked || ns_pre[y].marked) {
                    let p: int = if y == v {
                        x
                    } else {
                        y
                    };
                    // p is the unmarked neighbour, the other endpoint is v.
                    assert(adj_to(ns_pre, v as int, p));
                    assert(ns_pre[v as int].adj@.contains(p as usize));
                    let mm = choose|mm: int|
                        0 <= mm < ns_pre[v as int].adj@.len() && ns_pre[v as int].adj@[mm] == (
                        p as usize);
                    assert(ns0[v as int].adj@[mm] == (p as usize));
                    assert(!ns_pre[(ns0[v as int].adj@[mm]) as int].marked);
                    let e = choose|e: int|
                        0 <= e < es_fin.len() && (#[trigger] es_fin[e].content).same_pair(
                            Edge { node_1: p as usize, node_2: v },
                        );
                    assert(all_edges@[e].content.same_pair(
                        Edge { node_1: x as usize, node_2: y as usize },
                    ));
                } else {
                    let e = choose|e: int|
                        0 <= e < es_fin.len() && (#[trigger] es_fin[e].content).same_pair(
                            Edge { node_1: x as usize, node_2: y as usize },
                        );
                    assert(all_edges@[e].content.same_pair(
                        Edge { node_1: x as usize, node_2: y as usize },
                    ));
                }
            }
            // Every edge now has a marked endpoint: the new ones end at `v`.
            assert forall|e: int|
                0 <= e < all_edges@.len() implies nodes@[(#[trigger] all_edges@[e]).content.node_1 as int].marked
                || nodes@[all_edges@[e].content.node_2 as int].marked by {
                if e >= es0.len() {
                    assert(all_edges@[e].content.node_2 == v);
                }
            }
        }
    }

    /// Connect every pair of distinct edge nodes on one incident list: this
    /// is the line-graph rule, two mesh edges are adjacent when they share an
    /// endpoint.
    pub fn connect_edges(edges: &mut Vec<Node<Edge>>, incident: &Vec<usize>)
        requires
            wf(old(edges)@),
            forall|k: int| 0 <= k < incident@.len() ==> (#[trigger] incident@[k]) < old(edges)@.len(),
        ensures
            wf(final (edges)@),
            final (edges)@.len() == old(edges)@.len(),
            forall|e: int|
                0 <= e < old(edges)@.len() ==> same_but_adj(
                    #[trigger] old(edges)@[e],
                    final (edges)@[e],
                ),
            forall|a: usize, b: usize|
                #![trigger adj_to(final (edges)@, a as int, b as int)]
                #![trigger adj_to(old(edges)@, a as int, b as int)]
                adj_to(final (edges)@, a as int, b as int) <==> (adj_to(
                    old(edges)@,
                    a as int,
                    b as int,
                ) || (a != b && incident@.contains(a) && incident@.contains(b))),
    {
        let ghost orig = edges@;
        let n_inc = incident.len();
        let mut k1: usize = 0;
        while k1 < n_inc
            invariant
                wf(edges@),
                edges@.len() == orig.len(),
                orig == old(edges)@,
                n_inc == incident@.len(),
                k1 <= n_inc,
                forall|k: int| 0 <= k < incident@.len() ==> (#[trigger] incident@[k]) < orig.len(),
                forall|e: int|
                    0 <= e < orig.len() ==> same_but_adj(#[trigger] orig[e], edges@[e]),
                forall|a: usize, b: usize|
                    #![trigger adj_to(edges@, a as int, b as int)]
                    adj_to(edges@, a as int, b as int) <==> (adj_to(orig, a as int, b as int) || (a
                        != b && incident@.subrange(0, k1 as int).contains(a) && incident@.contains(
                        b,
                    )) || (a != b && incident@.subrange(0, k1 as int).contains(b)
                        && incident@.contains(a))),
            decreases n_inc - k1,
        {
            let e1 = incident[k1];
            let mut k2: usize = 0;
            while k2 < n_inc
                invariant
                    wf(edges@),
                    edges@.len() == orig.len(),
                    n_inc == incident@.len(),
                    k1 < n_inc,
                    k2 <= n_inc,
                    e1 == incident@[k1 as int],
                    e1 < orig.len(),
                    forall|k: int|
                        0 <= k < incident@.len() ==> (#[trigger] incident@[k]) < orig.len(),
                    forall|e: int|
                        0 <= e < orig.len() ==> same_but_adj(#[trigger] orig[e], edges@[e]),
                    forall|a: usize, b: usize|
                        #![trigger adj_to(edges@, a as int, b as int)]
                        adj_to(edges@, a as int, b as int) <==> (adj_to(orig, a as int, b as int)
                            || (a != b && incident@.subrange(0, k1 as int).contains(a)
                            && incident@.contains(b)) || (a != b && incident@.subrange(
                            0,
                            k1 as int,
                        ).contains(b) && incident@.contains(a)) || (a != b && ((a == e1
                            && incident@.subrange(0, k2 as int).contains(b)) || (b == e1
                            && incident@.subrange(0, k2 as int).contains(a))))),
                decreases n_inc - k2,
            {
                let e2 = incident[k2];
                let ghost pre = edges@;
                Node::connect(edges, e1, e2);
                proof {
                    assert(incident@.subrange(0, k2 + 1) =~= incident@.subrange(0, k2 as int).push(
                        incident@[k2 as int],
                    ));
                    assert forall|a: usize, b: usize|
                        adj_to(edges@, a as int, b as int) <==> (adj_to(orig, a as int, b as int)
                            || (a != b && incident@.subrange(0, k1 as int).contains(a)
                            && incident@.contains(b)) || (a != b && incident@.subrange(
                            0,
                            k1 as int,
                        ).contains(b) && incident@.contains(a)) || (a != b && ((a == e1
                            && incident@.subrange(0, k2 + 1).contains(b)) || (b == e1
                            && incident@.subrange(0, k2 + 1).contains(a))))) by {
                        assert(adj_to(edges@, a as int, b as int) <==> (adj_to(
                            pre,
                            a as int,
                            b as int,
                        ) || (e1 != e2 && ((a == e1 && b == e2) || (a == e2 && b == e1)))));
                        lemma_push_contains(incident@.subrange(0, k2 as int), e2, a);
                        lemma_push_contains(incident@.subrange(0, k2 as int), e2, b);
                        assert(incident@.contains(e2)) by {
                            assert(incident@[k2 as int] == e2);
                        }
                        assert(incident@.contains(e1)) by {
                            assert(incident@[k1 as int] == e1);
                        }
                    }
                }
                k2 = k2 + 1;
            }
            proof {
                assert(incident@.subrange(0, k1 + 1) =~= incident@.subrange(0, k1 as int).push(e1));
                assert(incident@.subrange(0, k2 as int) =~= incident@);
                assert forall|a: usize, b: usize|
                    adj_to(edges@, a as int, b as int) <==> (adj_to(orig, a as int, b as int) || (a
                        != b && incident@.subrange(0, k1 + 1).contains(a) && incident@.contains(b))
                        || (a != b && incident@.subrange(0, k1 + 1).contains(b)
                        && incident@.contains(a))) by {
                    lemma_push_contains(incident@.subrange(0, k1 as int), e1, a);
                    lemma_push_contains(incident@.subrange(0, k1 as int), e1, b);
                    assert(incident@.contains(e1)) by {
                        assert(incident@[k1 as int] == e1);
                    }
                }
            }
            k1 = k1 + 1;
        }
        proof {
            assert(incident@.subrange(0, k1 as int) =~= incident@);
        }
    }
}

} // verus!
