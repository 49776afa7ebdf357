//! The mesh-to-constraint graph pipeline: a vertex adjacency graph built
//! from triangles, its shear-resisting augmentation, the line graph of mesh
//! edges, an optional coarsening into blobs, DSATUR coloring of either
//! graph, and the flattened exports that a solver consumes.

use vstd::prelude::*;

use crate::edge::Edge;
use crate::node::{
    adj_to, common_pairs, lemma_common_pairs_sym, lemma_push_contains, lemma_push_no_dup,
    reachable_within, same_but_adj, same_but_color, uses_color, wf, Node,
};
use crate::vertex::{
    edge_endpoints_ok, edge_nodes_fresh, edge_pairs_unique, edges_covered, incident_lists_exact,
    Vertex,
};

verus! {

/// A cluster of line-graph nodes, grouped for coarser, spatially local
/// coloring and batching. Members are arena indices into the edge array.
pub struct Blob {
    pub sub_nodes: Vec<usize>,
}

/// Number of positions `k2 < hi` of `m2` whose edge node is adjacent to
/// edge node `e1`.
pub open spec fn adj_in_row(es: Seq<Node<Edge>>, e1: usize, m2: Seq<usize>, hi: int) -> nat
    decreases hi,
{
    if hi <= 0 || hi > m2.len() {
        0
    } else {
        adj_in_row(es, e1, m2, hi - 1) + if adj_to(es, e1 as int, m2[hi - 1] as int) {
            1nat
        } else {
            0nat
        }
    }
}

/// Number of ordered index pairs `(k1, k2)` over `m1` and `m2`, with
/// `k1 < hi`, whose edge nodes are adjacent.
pub open spec fn adj_pairs_upto(
    es: Seq<Node<Edge>>,
    m1: Seq<usize>,
    m2: Seq<usize>,
    hi: int,
) -> nat
    decreases hi,
{
    if hi <= 0 || hi > m1.len() {
        0
    } else {
        adj_pairs_upto(es, m1, m2, hi - 1) + adj_in_row(es, m1[hi - 1], m2, m2.len() as int)
    }
}

/// Number of ordered member pairs of the two blobs whose edge nodes are
/// adjacent.
pub open spec fn adj_pairs(es: Seq<Node<Edge>>, m1: Seq<usize>, m2: Seq<usize>) -> nat {
    adj_pairs_upto(es, m1, m2, m1.len() as int)
}

proof fn lemma_adj_in_row_bound(es: Seq<Node<Edge>>, e1: usize, m2: Seq<usize>, hi: int)
    ensures
        adj_in_row(es, e1, m2, hi) <= if hi < 0 {
            0
        } else {
            hi as nat
        },
    decreases hi,
{
    if hi > 0 && hi <= m2.len() {
        lemma_adj_in_row_bound(es, e1, m2, hi - 1);
    }
}

proof fn lemma_adj_pairs_bound(es: Seq<Node<Edge>>, m1: Seq<usize>, m2: Seq<usize>, hi: int)
    requires
        0 <= hi <= m1.len(),
    ensures
        adj_pairs_upto(es, m1, m2, hi) <= hi * m2.len(),
    decreases hi,
{
    if hi > 0 {
        lemma_adj_pairs_bound(es, m1, m2, hi - 1);
        lemma_adj_in_row_bound(es, m1[hi - 1], m2, m2.len() as int);
        assert((hi - 1) * m2.len() + m2.len() == hi * m2.len()) by (nonlinear_arith);
    }
}

/// Every blob member is a valid edge index.
pub open spec fn blob_members_valid(bs: Seq<Node<Blob>>, ne: int) -> bool {
    forall|b: int, k: int|
        0 <= b < bs.len() && 0 <= k < bs[b].content.sub_nodes@.len()
            ==> (#[trigger] bs[b].content.sub_nodes@[k]) < ne
}

/// Edge index `x` is a member of some blob.
pub open spec fn in_some_blob(bs: Seq<Node<Blob>>, x: usize) -> bool {
    exists|b: int| #![auto] 0 <= b < bs.len() && bs[b].content.sub_nodes@.contains(x)
}

/// Every edge index is a member of some blob.
pub open spec fn blob_covers(bs: Seq<Node<Blob>>, ne: int) -> bool {
    forall|x: usize| x < ne ==> #[trigger] in_some_blob(bs, x)
}

/// No edge index belongs to two different blobs.
pub open spec fn blob_disjoint(bs: Seq<Node<Blob>>) -> bool {
    forall|b1: int, b2: int, x: usize|
        0 <= b1 < b2 < bs.len() ==> !((#[trigger] bs[b1].content.sub_nodes@.contains(x))
            && (#[trigger] bs[b2].content.sub_nodes@.contains(x)))
}

/// No blob lists a member twice.
pub open spec fn blob_members_dedup(bs: Seq<Node<Blob>>) -> bool {
    forall|b: int| 0 <= b < bs.len() ==> (#[trigger] bs[b].content.sub_nodes@).no_duplicates()
}

/// The blobs partition the edge set: the union of all members is the full
/// edge index range, with no index repeated within or across blobs.
pub open spec fn blobs_partition(bs: Seq<Node<Blob>>, ne: int) -> bool {
    &&& blob_members_valid(bs, ne)
    &&& blob_covers(bs, ne)
    &&& blob_disjoint(bs)
    &&& blob_members_dedup(bs)
}

proof fn lemma_adj_in_row_same_adj(
    es1: Seq<Node<Edge>>,
    es2: Seq<Node<Edge>>,
    e1: usize,
    m2: Seq<usize>,
    hi: int,
)
    requires
        es1.len() == es2.len(),
        forall|e: int| 0 <= e < es1.len() ==> (#[trigger] es1[e].adj@) == es2[e].adj@,
    ensures
        adj_in_row(es1, e1, m2, hi) == adj_in_row(es2, e1, m2, hi),
    decreases hi,
{
    if hi > 0 && hi <= m2.len() {
        lemma_adj_in_row_same_adj(es1, es2, e1, m2, hi - 1);
        if 0 <= m2[hi - 1] < es1.len() {
            assert(es1[m2[hi - 1] as int].adj@ == es2[m2[hi - 1] as int].adj@);
        }
        if (e1 as int) < es1.len() {
            assert(es1[e1 as int].adj@ == es2[e1 as int].adj@);
        }
    }
}

proof fn lemma_adj_pairs_same_adj(
    es1: Seq<Node<Edge>>,
    es2: Seq<Node<Edge>>,
    m1: Seq<usize>,
    m2: Seq<usize>,
    hi: int,
)
    requires
        es1.len() == es2.len(),
        forall|e: int| 0 <= e < es1.len() ==> (#[trigger] es1[e].adj@) == es2[e].adj@,
    ensures
        adj_pairs_upto(es1, m1, m2, hi) == adj_pairs_upto(es2, m1, m2, hi),
    decreases hi,
{
    if hi > 0 && hi <= m1.len() {
        lemma_adj_pairs_same_adj(es1, es2, m1, m2, hi - 1);
        lemma_adj_in_row_same_adj(es1, es2, m1[hi - 1], m2, m2.len() as int);
    }
}

impl Blob {
    /// A fresh, empty blob.
    pub fn new() -> (b: Blob)
        ensures
            b.sub_nodes@ == Seq::<usize>::empty(),
    {
        Blob { sub_nodes: Vec::new() }
    }

    /// Append all of `b`'s members to this blob.
    pub fn merge(&mut self, b: &Blob)
        ensures
            final (self).sub_nodes@ == old(self).sub_nodes@ + b.sub_nodes@,
    {
        let ghost orig = self.sub_nodes@;
        let n = b.sub_nodes.len();
        let mut k: usize = 0;
        while k < n
            invariant
                n == b.sub_nodes@.len(),
                k <= n,
                self.sub_nodes@ == orig + b.sub_nodes@.subrange(0, k as int),
            decreases n - k,
        {
            self.sub_nodes.push(b.sub_nodes[k]);
            proof {
                assert(orig + b.sub_nodes@.subrange(0, k + 1) =~= (orig + b.sub_nodes@.subrange(
                    0,
                    k as int,
                )).push(b.sub_nodes@[k as int]));
            }
            k = k + 1;
        }
        proof {
            assert(b.sub_nodes@.subrange(0, n as int) =~= b.sub_nodes@);
        }
    }

    /// Whether the blob holds exactly one member.
    pub fn is_singleton(&self) -> (r: bool)
        ensures
            r == (self.sub_nodes@.len() == 1),
    {
        self.sub_nodes.len() == 1
    }

    /// Count the ordered pairs of members, one from each blob, whose edge
    /// nodes are adjacent: the strength of the connection between the blobs.
    pub fn nb_adj_elements(&self, es: &Vec<Node<Edge>>, b2: &Blob) -> (r: u64)
        requires
            wf(es@),
            forall|k: int|
                0 <= k < self.sub_nodes@.len() ==> (#[trigger] self.sub_nodes@[k]) < es@.len(),
            self.sub_nodes@.len() <= 0xffff_ffff,
            b2.sub_nodes@.len() <= 0xffff_ffff,
        ensures
            r == adj_pairs(es@, self.sub_nodes@, b2.sub_nodes@),
    {
        let m1l = self.sub_nodes.len();
        let m2l = b2.sub_nodes.len();
        let mut count: u64 = 0;
        let mut k1: usize = 0;
        while k1 < m1l
            invariant
                wf(es@),
                m1l == self.sub_nodes@.len(),
                m2l == b2.sub_nodes@.len(),
                m1l <= 0xffff_ffff,
                m2l <= 0xffff_ffff,
                forall|k: int|
                    0 <= k < self.sub_nodes@.len() ==> (#[trigger] self.sub_nodes@[k]) < es@.len(),
                k1 <= m1l,
                count == adj_pairs_upto(es@, self.sub_nodes@, b2.sub_nodes@, k1 as int),
                count <= (k1 as int) * (m2l as int),
            decreases m1l - k1,
        {
            let e1 = self.sub_nodes[k1];
            let mut row: u64 = 0;
            let mut k2: usize = 0;
            while k2 < m2l
                invariant
                    wf(es@),
                    m2l == b2.sub_nodes@.len(),
                    m2l <= 0xffff_ffff,
                    k1 < m1l,
                    m1l == self.sub_nodes@.len(),
                    k2 <= m2l,
                    e1 == self.sub_nodes@[k1 as int],
                    e1 < es@.len(),
                    row == adj_in_row(es@, e1, b2.sub_nodes@, k2 as int),
                    row <= k2,
                decreases m2l - k2,
            {
                let e2 = b2.sub_nodes[k2];
                if es[e1].has_adj(e2) {
                    proof {
                        assert(es@[e1 as int].adj@.contains(e2));
                        let m = choose|m: int|
                            0 <= m < es@[e1 as int].adj@.len() && es@[e1 as int].adj@[m] == e2;
                        assert(es@[e1 as int].adj@[m] < es@.len());
                        assert(adj_to(es@, e1 as int, b2.sub_nodes@[k2 as int] as int));
                    }
                    row = row + 1;
                } else {
                    proof {
                        assert(!adj_to(es@, e1 as int, b2.sub_nodes@[k2 as int] as int));
                    }
                }
                k2 = k2 + 1;
            }
            proof {
                assert(count + row <= ((k1 + 1) as int) * (m2l as int) && ((k1 + 1) as int) * (
                m2l as int) <= 0xffff_fffe_0000_0001) by (nonlinear_arith)
                    requires
                        count <= (k1 as int) * (m2l as int),
                        row <= m2l,
                        (k1 as int) < (m1l as int),
                        m1l <= 0xffff_ffff,
                        m2l <= 0xffff_ffff,
                ;
            }
            count = count + row;
            k1 = k1 + 1;
        }
        count
    }

    /// Sever every element-level adjacency between the two blobs' members,
    /// both ways.
    pub fn disconnect_adj_elements(&self, es: &mut Vec<Node<Edge>>, b2: &Blob)
        requires
            wf(old(es)@),
            forall|k: int|
                0 <= k < self.sub_nodes@.len() ==> (#[trigger] self.sub_nodes@[k]) < old(
                    es,
                )@.len(),
            forall|k: int|
                0 <= k < b2.sub_nodes@.len() ==> (#[trigger] b2.sub_nodes@[k]) < old(es)@.len(),
        ensures
            wf(final (es)@),
            final (es)@.len() == old(es)@.len(),
            forall|e: int|
                0 <= e < old(es)@.len() ==> same_but_adj(#[trigger] old(es)@[e], final (es)@[e]),
            forall|a: usize, b: usize|
                #![trigger adj_to(final (es)@, a as int, b as int)]
                #![trigger adj_to(old(es)@, a as int, b as int)]
                adj_to(final (es)@, a as int, b as int) <==> (adj_to(old(es)@, a as int, b as int)
                    && !(self.sub_nodes@.contains(a) && b2.sub_nodes@.contains(b)) && !(
                self.sub_nodes@.contains(b) && b2.sub_nodes@.contains(a))),
    {
        let ghost orig = es@;
        let m1l = self.sub_nodes.len();
        let m2l = b2.sub_nodes.len();
        let mut k1: usize = 0;
        while k1 < m1l
            invariant
                wf(es@),
                es@.len() == orig.len(),
                orig == old(es)@,
                m1l == self.sub_nodes@.len(),
                m2l == b2.sub_nodes@.len(),
                k1 <= m1l,
                forall|k: int|
                    0 <= k < self.sub_nodes@.len() ==> (#[trigger] self.sub_nodes@[k])
                        < orig.len(),
                forall|k: int|
                    0 <= k < b2.sub_nodes@.len() ==> (#[trigger] b2.sub_nodes@[k]) < orig.len(),
                forall|e: int|
                    0 <= e < orig.len() ==> same_but_adj(#[trigger] orig[e], es@[e]),
                forall|a: usize, b: usize|
                    #![trigger adj_to(es@, a as int, b as int)]
                    adj_to(es@, a as int, b as int) <==> (adj_to(orig, a as int, b as int) && !(
                    self.sub_nodes@.subrange(0, k1 as int).contains(a) && b2.sub_nodes@.contains(
                        b,
                    )) && !(self.sub_nodes@.subrange(0, k1 as int).contains(b)
                        && b2.sub_nodes@.contains(a))),
            decreases m1l - k1,
        {
            let e1 = self.sub_nodes[k1];
            let mut k2: usize = 0;
            while k2 < m2l
                invariant
                    wf(es@),
                    es@.len() == orig.len(),
                    m1l == self.sub_nodes@.len(),
                    m2l == b2.sub_nodes@.len(),
                    k1 < m1l,
                    k2 <= m2l,
                    e1 == self.sub_nodes@[k1 as int],
                    e1 < orig.len(),
                    forall|k: int|
                        0 <= k < self.sub_nodes@.len() ==> (#[trigger] self.sub_nodes@[k])
                            < orig.len(),
                    forall|k: int|
                        0 <= k < b2.sub_nodes@.len() ==> (#[trigger] b2.sub_nodes@[k])
                            < orig.len(),
                    forall|e: int|
                        0 <= e < orig.len() ==> same_but_adj(#[trigger] orig[e], es@[e]),
                    forall|a: usize, b: usize|
                        #![trigger adj_to(es@, a as int, b as int)]
                        adj_to(es@, a as int, b as int) <==> (adj_to(orig, a as int, b as int)
                            && !(self.sub_nodes@.subrange(0, k1 as int).contains(a)
                            && b2.sub_nodes@.contains(b)) && !(self.sub_nodes@.subrange(
                            0,
                            k1 as int,
                        ).contains(b) && b2.sub_nodes@.contains(a)) && !(a == e1
                            && b2.sub_nodes@.subrange(0, k2 as int).contains(b)) && !(b == e1
                            && b2.sub_nodes@.subrange(0, k2 as int).contains(a))),
                decreases m2l - k2,
            {
                let e2 = b2.sub_nodes[k2];
                let ghost pre = es@;
                Node::disconnect(es, e1, e2);
                proof {
                    assert(b2.sub_nodes@.subrange(0, k2 + 1) =~= b2.sub_nodes@.subrange(
                        0,
                        k2 as int,
                    ).push(b2.sub_nodes@[k2 as int]));
                    assert forall|a: usize, b: usize|
                        adj_to(es@, a as int, b as int) <==> (adj_to(orig, a as int, b as int)
                            && !(self.sub_nodes@.subrange(0, k1 as int).contains(a)
                            && b2.sub_nodes@.contains(b)) && !(self.sub_nodes@.subrange(
                            0,
                            k1 as int,
                        ).contains(b) && b2.sub_nodes@.contains(a)) && !(a == e1
                            && b2.sub_nodes@.subrange(0, k2 + 1).contains(b)) && !(b == e1
                            && b2.sub_nodes@.subrange(0, k2 + 1).contains(a))) by {
                        assert(adj_to(es@, a as int, b as int) <==> (adj_to(
                            pre,
                            a as int,
                            b as int,
                        ) && !((a as int == e1 && b as int == e2) || (a as int == e2 && b as int
                            == e1))));
                        lemma_push_contains(b2.sub_nodes@.subrange(0, k2 as int), e2, a);
                        lemma_push_contains(b2.sub_nodes@.subrange(0, k2 as int), e2, b);
                        assert(b2.sub_nodes@.contains(e2)) by {
                            assert(b2.sub_nodes@[k2 as int] == e2);
                        }
                    }
                }
                k2 = k2 + 1;
            }
            proof {
                assert(self.sub_nodes@.subrange(0, k1 + 1) =~= self.sub_nodes@.subrange(
                    0,
                    k1 as int,
                ).push(e1));
                assert(b2.sub_nodes@.subrange(0, k2 as int) =~= b2.sub_nodes@);
                assert forall|a: usize, b: usize|
                    adj_to(es@, a as int, b as int) <==> (adj_to(orig, a as int, b as int) && !(
                    self.sub_nodes@.subrange(0, k1 + 1).contains(a) && b2.sub_nodes@.contains(b))
                        && !(self.sub_nodes@.subrange(0, k1 + 1).contains(b)
                        && b2.sub_nodes@.contains(a))) by {
                    lemma_push_contains(self.sub_nodes@.subrange(0, k1 as int), e1, a);
                    lemma_push_contains(self.sub_nodes@.subrange(0, k1 as int), e1, b);
                }
            }
            k1 = k1 + 1;
        }
        proof {
            assert(self.sub_nodes@.subrange(0, k1 as int) =~= self.sub_nodes@);
        }
    }
}

/// The input mesh: a vertex count and the triangle index triples over those
/// vertices. Vertex positions never enter the graph pipeline; they stay with
/// the caller, which keys them by the same indices.
pub struct Mesh {
    pub nvertices: usize,
    pub ibuff: Vec<(u32, u32, u32)>,
}

/// Triangle `t` has `v` as one of its corners.
pub open spec fn tri_has(t: (u32, u32, u32), v: int) -> bool {
    t.0 == v || t.1 == v || t.2 == v
}

/// `x` and `y` are distinct corners of one of the first `hi` triangles.
pub open spec fn mesh_adj_upto(ib: Seq<(u32, u32, u32)>, x: int, y: int, hi: int) -> bool {
    x != y && exists|t: int|
        #![auto]
        0 <= t < hi && t < ib.len() && tri_has(ib[t], x) && tri_has(ib[t], y)
}

/// `x` and `y` are distinct corners of some triangle of the mesh.
pub open spec fn mesh_adjacent(ib: Seq<(u32, u32, u32)>, x: int, y: int) -> bool {
    mesh_adj_upto(ib, x, y, ib.len() as int)
}

/// Every triangle's corner indices are in range for the vertex count.
pub open spec fn mesh_tris_in_range(m: Mesh) -> bool {
    forall|t: int|
        0 <= t < m.ibuff@.len() ==> (#[trigger] m.ibuff@[t]).0 < m.nvertices && m.ibuff@[t].1
            < m.nvertices && m.ibuff@[t].2 < m.nvertices
}

impl Mesh {
    pub fn new(nvertices: usize, ibuff: Vec<(u32, u32, u32)>) -> (m: Mesh)
        ensures
            m.nvertices == nvertices,
            m.ibuff@ == ibuff@,
    {
        Mesh { nvertices, ibuff }
    }
}

/// `x` and `y` qualify for augmentation: distinct, not yet adjacent, and
/// sharing at least two common neighbours. (For such a pair the graph
/// distance is exactly two: a shared neighbour gives a two-step path, and
/// non-adjacency rules anything shorter out.)
pub open spec fn aug_pair(ns: Seq<Node<Vertex>>, x: int, y: int) -> bool {
    &&& 0 <= x < ns.len()
    &&& 0 <= y < ns.len()
    &&& x != y
    &&& !adj_to(ns, x, y)
    &&& common_pairs(ns[x].adj@, ns[y].adj@) >= 2
}

/// The contents of the nodes among the first `hi` whose color is `c`, in id
/// order: one color class of a colored node arena.
pub open spec fn edges_with_color<T>(es: Seq<Node<T>>, c: int, hi: int) -> Seq<T>
    decreases hi,
{
    if hi <= 0 || hi > es.len() {
        Seq::empty()
    } else if es[hi - 1].color == c {
        edges_with_color(es, c, hi - 1).push(es[hi - 1].content)
    } else {
        edges_with_color(es, c, hi - 1)
    }
}

/// Number of nodes among the first `hi` whose color is `c`.
pub open spec fn num_with_color<T>(es: Seq<Node<T>>, c: int, hi: int) -> nat
    decreases hi,
{
    if hi <= 0 || hi > es.len() {
        0
    } else {
        num_with_color(es, c, hi - 1) + if es[hi - 1].color == c {
            1nat
        } else {
            0nat
        }
    }
}

/// Number of nodes among the first `hi` whose color lies in `[0, c_hi)`.
pub open spec fn num_with_color_lt<T>(es: Seq<Node<T>>, c_hi: int, hi: int) -> nat
    decreases hi,
{
    if hi <= 0 || hi > es.len() {
        0
    } else {
        num_with_color_lt(es, c_hi, hi - 1) + if 0 <= es[hi - 1].color < c_hi {
            1nat
        } else {
            0nat
        }
    }
}

/// Total size of the color classes for colors in `[0, c_hi)`.
pub open spec fn sum_group_sizes<T>(es: Seq<Node<T>>, c_hi: int) -> nat
    decreases c_hi,
{
    if c_hi <= 0 {
        0
    } else {
        sum_group_sizes(es, c_hi - 1) + edges_with_color(es, c_hi - 1, es.len() as int).len()
    }
}

proof fn lemma_group_len<T>(es: Seq<Node<T>>, c: int, hi: int)
    ensures
        edges_with_color(es, c, hi).len() == num_with_color(es, c, hi),
    decreases hi,
{
    if hi > 0 && hi <= es.len() {
        lemma_group_len(es, c, hi - 1);
    }
}

proof fn lemma_num_color_split<T>(es: Seq<Node<T>>, c_hi: int, hi: int)
    requires
        c_hi >= 0,
    ensures
        num_with_color_lt(es, c_hi + 1, hi) == num_with_color_lt(es, c_hi, hi) + num_with_color(
            es,
            c_hi,
            hi,
        ),
    decreases hi,
{
    if hi > 0 && hi <= es.len() {
        lemma_num_color_split(es, c_hi, hi - 1);
    }
}

proof fn lemma_num_lt_zero<T>(es: Seq<Node<T>>, hi: int)
    ensures
        num_with_color_lt(es, 0, hi) == 0,
    decreases hi,
{
    if hi > 0 && hi <= es.len() {
        lemma_num_lt_zero(es, hi - 1);
    }
}

proof fn lemma_sum_is_num_lt<T>(es: Seq<Node<T>>, c_hi: int)
    requires
        c_hi >= 0,
    ensures
        sum_group_sizes(es, c_hi) == num_with_color_lt(es, c_hi, es.len() as int),
    decreases c_hi,
{
    if c_hi > 0 {
        lemma_sum_is_num_lt(es, c_hi - 1);
        lemma_group_len(es, c_hi - 1, es.len() as int);
        lemma_num_color_split(es, c_hi - 1, es.len() as int);
        assert(sum_group_sizes(es, c_hi) == sum_group_sizes(es, c_hi - 1) + edges_with_color(
            es,
            c_hi - 1,
            es.len() as int,
        ).len());
        assert(num_with_color_lt(es, (c_hi - 1) + 1, es.len() as int) == num_with_color_lt(
            es,
            c_hi - 1,
            es.len() as int,
        ) + num_with_color(es, c_hi - 1, es.len() as int));
        assert((c_hi - 1) + 1 == c_hi);
    } else {
        lemma_num_lt_zero(es, es.len() as int);
    }
}

proof fn lemma_num_lt_full<T>(es: Seq<Node<T>>, c_hi: int, hi: int)
    requires
        0 <= hi <= es.len(),
        forall|e: int| 0 <= e < es.len() ==> 0 <= (#[trigger] es[e].color) < c_hi,
    ensures
        num_with_color_lt(es, c_hi, hi) == hi,
    decreases hi,
{
    if hi > 0 {
        lemma_num_lt_full(es, c_hi, hi - 1);
    }
}

proof fn lemma_group_member<T>(es: Seq<Node<T>>, e: int, hi: int)
    requires
        0 <= e < hi <= es.len(),
    ensures
        edges_with_color(es, es[e].color as int, hi).contains(es[e].content),
    decreases hi,
{
    let c = es[e].color as int;
    if e == hi - 1 {
        assert(edges_with_color(es, c, hi).last() == es[e].content);
        assert(edges_with_color(es, c, hi).contains(es[e].content));
    } else {
        lemma_group_member(es, e, hi - 1);
        let s = edges_with_color(es, c, hi - 1);
        let k = choose|k: int| 0 <= k < s.len() && s[k] == es[e].content;
        if es[hi - 1].color == c {
            assert(edges_with_color(es, c, hi)[k] == es[e].content);
        }
    }
}

/// Every entry of a color class comes from an edge node of that color: the
/// classes never invent or duplicate an edge.
pub proof fn lemma_group_source<T>(es: Seq<Node<T>>, c: int, hi: int, k: int)
    requires
        0 <= k < edges_with_color(es, c, hi).len(),
        hi <= es.len(),
    ensures
        exists|e: int|
            0 <= e < hi && (#[trigger] es[e].color) == c && es[e].content == edges_with_color(
                es,
                c,
                hi,
            )[k],
    decreases hi,
{
    if hi > 0 {
        if es[hi - 1].color == c && k == edges_with_color(es, c, hi - 1).len() {
            assert(edges_with_color(es, c, hi)[k] == es[hi - 1].content);
            assert(es[hi - 1].color == c);
        } else {
            lemma_group_source(es, c, hi - 1, k);
            let e = choose|e: int|
                0 <= e < hi - 1 && (#[trigger] es[e].color) == c && es[e].content
                    == edges_with_color(es, c, hi - 1)[k];
            if es[hi - 1].color == c {
                assert(edges_with_color(es, c, hi)[k] == edges_with_color(es, c, hi - 1)[k]);
            }
            assert(es[e].color == c && es[e].content == edges_with_color(es, c, hi)[k]);
        }
    }
}

/// Partition completeness: every edge lands in the color class of its own
/// color, and (with `lemma_group_source`) every entry of a class comes from
/// an edge of that color, while the class sizes add up to the whole edge
/// set: the union of the classes is the edge set, nothing duplicated and
/// nothing left out.
pub proof fn lemma_export_partition<T>(es: Seq<Node<T>>, chrom: int)
    requires
        forall|e: int| 0 <= e < es.len() ==> 0 <= (#[trigger] es[e].color) < chrom,
        chrom >= 0,
    ensures
        sum_group_sizes(es, chrom) == es.len(),
        forall|e: int|
            0 <= e < es.len() ==> edges_with_color(
                es,
                (#[trigger] es[e].color) as int,
                es.len() as int,
            ).contains(es[e].content),
{
    lemma_sum_is_num_lt(es, chrom);
    lemma_num_lt_full(es, chrom, es.len() as int);
    assert forall|e: int| 0 <= e < es.len() implies edges_with_color(
        es,
        (#[trigger] es[e].color) as int,
        es.len() as int,
    ).contains(es[e].content) by {
        lemma_group_member(es, e, es.len() as int);
    }
}

/// The purpose of the coloring: in a completely built line graph, two
/// distinct edges of the same color never touch the same vertex, so the
/// constraints of one color class can be resolved concurrently.
pub proof fn lemma_same_color_edges_disjoint(es: Seq<Node<Edge>>, e1: int, e2: int)
    requires
        es.len() <= usize::MAX,
        forall|a: usize, b: usize|
            #![trigger adj_to(es, a as int, b as int)]
            adj_to(es, a as int, b as int) <==> (a != b && a < es.len() && b < es.len()
                && es[a as int].content.shares_endpoint(es[b as int].content)),
        forall|a: int, b: int| #[trigger] adj_to(es, a, b) ==> es[a].color != es[b].color,
        0 <= e1 < es.len(),
        0 <= e2 < es.len(),
        e1 != e2,
        es[e1].color == es[e2].color,
    ensures
        !es[e1].content.shares_endpoint(es[e2].content),
{
    if es[e1].content.shares_endpoint(es[e2].content) {
        let u1 = e1 as usize;
        let u2 = e2 as usize;
        assert(adj_to(es, u1 as int, u2 as int));
    }
}

/// All node contents in color order (colors below `c_hi`), id order within
/// each color: the flattened dispatch order of a colored arena.
pub open spec fn color_ordered_edges<T>(es: Seq<Node<T>>, c_hi: int) -> Seq<T>
    decreases c_hi,
{
    if c_hi <= 0 {
        Seq::empty()
    } else {
        color_ordered_edges(es, c_hi - 1) + edges_with_color(es, c_hi - 1, es.len() as int)
    }
}

proof fn lemma_ordered_is_sum<T>(es: Seq<Node<T>>, c_hi: int)
    ensures
        color_ordered_edges(es, c_hi).len() == sum_group_sizes(es, c_hi),
    decreases c_hi,
{
    if c_hi > 0 {
        lemma_ordered_is_sum(es, c_hi - 1);
    }
}

proof fn lemma_sum_mono<T>(es: Seq<Node<T>>, c1: int, c2: int)
    requires
        c1 <= c2,
    ensures
        sum_group_sizes(es, c1) <= sum_group_sizes(es, c2),
    decreases c2 - c1,
{
    if c1 < c2 {
        lemma_sum_mono(es, c1, c2 - 1);
    }
}

/// A color class only grows as more of the arena is scanned.
pub proof fn lemma_ewc_mono<T>(es: Seq<Node<T>>, c: int, h1: int, h2: int)
    requires
        h1 <= h2,
        h2 <= es.len(),
    ensures
        edges_with_color(es, c, h1).len() <= edges_with_color(es, c, h2).len(),
    decreases h2 - h1,
{
    if h1 < h2 {
        lemma_ewc_mono(es, c, h1, h2 - 1);
    }
}

/// The flattened color-ordered prefix only grows with the color bound, one
/// color class at a time.
pub proof fn lemma_ordered_mono<T>(es: Seq<Node<T>>, c1: int, c2: int)
    requires
        c1 <= c2,
    ensures
        color_ordered_edges(es, c1).len() <= color_ordered_edges(es, c2).len(),
{
    lemma_ordered_is_sum(es, c1);
    lemma_ordered_is_sum(es, c2);
    lemma_sum_mono(es, c1, c2);
}

/// The flattened color-ordered list over colors below `c <= chrom` holds at
/// most as many entries as the arena; over all `chrom` colors it holds them
/// all, each exactly once.
pub proof fn lemma_ordered_len_bound<T>(es: Seq<Node<T>>, c: int, chrom: int)
    requires
        0 <= c <= chrom,
        forall|e: int| 0 <= e < es.len() ==> 0 <= (#[trigger] es[e].color) < chrom,
    ensures
        color_ordered_edges(es, c).len() <= es.len(),
        c == chrom ==> color_ordered_edges(es, c).len() == es.len(),
{
    lemma_ordered_is_sum(es, c);
    lemma_sum_mono(es, c, chrom);
    lemma_export_partition(es, chrom);
}

/// The edge contents that a list of member indices selects, in list order.
pub open spec fn batch_contents(es: Seq<Node<Edge>>, members: Seq<usize>) -> Seq<Edge> {
    Seq::new(members.len(), |k: int| es[members[k] as int].content)
}

/// One dispatch batch: the mesh edges of one blob (or a single edge when no
/// blobs are used).
pub struct Batch {
    pub edges: Vec<Edge>,
}

impl Batch {
    /// Collect the contents of the edge nodes named by `ids`.
    pub fn new(es: &Vec<Node<Edge>>, ids: &Vec<usize>) -> (b: Batch)
        requires
            forall|k: int| 0 <= k < ids@.len() ==> (#[trigger] ids@[k]) < es@.len(),
        ensures
            b.edges@ == batch_contents(es@, ids@),
    {
        let n = ids.len();
        let mut edges: Vec<Edge> = Vec::new();
        let mut k: usize = 0;
        while k < n
            invariant
                n == ids@.len(),
                k <= n,
                forall|m: int| 0 <= m < ids@.len() ==> (#[trigger] ids@[m]) < es@.len(),
                edges@.len() == k,
                forall|m: int|
                    0 <= m < k ==> (#[trigger] edges@[m]) == es@[ids@[m] as int].content,
            decreases n - k,
        {
            let id = ids[k];
            edges.push(es[id].content);
            k = k + 1;
        }
        proof {
            assert(edges@ =~= batch_contents(es@, ids@));
        }
        Batch { edges }
    }
}

/// All batches of one color class: safe to dispatch concurrently, batch by
/// batch, once the coloring guarantees no shared point mass between batches.
pub struct ColorGroup {
    pub batches: Vec<Batch>,
}

impl ColorGroup {
    /// An empty color class.
    pub fn new() -> (g: ColorGroup)
        ensures
            g.batches@.len() == 0,
    {
        ColorGroup { batches: Vec::new() }
    }
}

/// The whole soft-body graph state: the vertex graph built from the mesh,
/// the line graph of mesh edges derived from it, the optional blob
/// coarsening, and the chromatic numbers of the last coloring passes.
pub struct Graph {
    pub nodes: Vec<Node<Vertex>>,
    pub edges: Vec<Node<Edge>>,
    pub blobs: Vec<Node<Blob>>,
    pub blob_chrom_nb: i32,
    pub edge_chrom_nb: i32,
}

/// Set every node's persistent mark back to false, touching nothing else.
fn unmark_all<T>(nodes: &mut Vec<Node<T>>)
    ensures
        final (nodes)@.len() == old(nodes)@.len(),
        forall|k: int|
            0 <= k < old(nodes)@.len() ==> !(#[trigger] final (nodes)@[k]).marked && final (
            nodes)@[k].id == old(nodes)@[k].id && final (nodes)@[k].color == old(nodes)@[k].color
                && final (nodes)@[k].intern_mark == old(nodes)@[k].intern_mark && final (
            nodes)@[k].dist == old(nodes)@[k].dist && final (nodes)@[k].adj@ == old(
                nodes,
            )@[k].adj@ && final (nodes)@[k].content == old(nodes)@[k].content,
{
    let n = nodes.len();
    let mut k: usize = 0;
    while k < n
        invariant
            n == nodes@.len(),
            nodes@.len() == old(nodes)@.len(),
            k <= n,
            forall|x: int|
                0 <= x < n ==> (#[trigger] nodes@[x]).id == old(nodes)@[x].id && nodes@[x].color
                    == old(nodes)@[x].color && nodes@[x].intern_mark == old(nodes)@[x].intern_mark
                    && nodes@[x].dist == old(nodes)@[x].dist && nodes@[x].adj@ == old(
                    nodes,
                )@[x].adj@ && nodes@[x].content == old(nodes)@[x].content,
            forall|x: int| 0 <= x < k ==> !(#[trigger] nodes@[x]).marked,
            forall|x: int| k <= x < n ==> (#[trigger] nodes@[x]).marked == old(nodes)@[x].marked,
        decreases n - k,
    {
        let ghost pre = nodes@;
        let mut nk = nodes.remove(k);
        nk.marked = false;
        nodes.insert(k, nk);
        proof {
            assert(nodes@ =~= pre.update(k as int, nodes@[k as int]));
        }
        k = k + 1;
    }
}

/// Set every node's transient mark back to false, touching nothing else.
fn intern_unmark_all<T>(nodes: &mut Vec<Node<T>>)
    ensures
        final (nodes)@.len() == old(nodes)@.len(),
        forall|k: int|
            0 <= k < old(nodes)@.len() ==> !(#[trigger] final (nodes)@[k]).intern_mark && final (
            nodes)@[k].id == old(nodes)@[k].id && final (nodes)@[k].color == old(nodes)@[k].color
                && final (nodes)@[k].marked == old(nodes)@[k].marked && final (nodes)@[k].dist
                == old(nodes)@[k].dist && final (nodes)@[k].adj@ == old(nodes)@[k].adj@ && final (
            nodes)@[k].content == old(nodes)@[k].content,
{
    let n = nodes.len();
    let mut k: usize = 0;
    while k < n
        invariant
            n == nodes@.len(),
            nodes@.len() == old(nodes)@.len(),
            k <= n,
            forall|x: int|
                0 <= x < n ==> (#[trigger] nodes@[x]).id == old(nodes)@[x].id && nodes@[x].color
                    == old(nodes)@[x].color && nodes@[x].marked == old(nodes)@[x].marked
                    && nodes@[x].dist == old(nodes)@[x].dist && nodes@[x].adj@ == old(
                    nodes,
                )@[x].adj@ && nodes@[x].content == old(nodes)@[x].content,
            forall|x: int| 0 <= x < k ==> !(#[trigger] nodes@[x]).intern_mark,
            forall|x: int|
                k <= x < n ==> (#[trigger] nodes@[x]).intern_mark == old(nodes)@[x].intern_mark,
        decreases n - k,
    {
        let ghost pre = nodes@;
        let mut nk = nodes.remove(k);
        nk.intern_mark = false;
        nodes.insert(k, nk);
        proof {
            assert(nodes@ =~= pre.update(k as int, nodes@[k as int]));
        }
        k = k + 1;
    }
}

/// Set every node's scratch distance back to zero, touching nothing else.
fn reset_dists_all<T>(nodes: &mut Vec<Node<T>>)
    ensures
        final (nodes)@.len() == old(nodes)@.len(),
        forall|k: int|
            0 <= k < old(nodes)@.len() ==> (#[trigger] final (nodes)@[k]).dist == 0 && final (
            nodes)@[k].id == old(nodes)@[k].id && final (nodes)@[k].color == old(nodes)@[k].color
                && final (nodes)@[k].marked == old(nodes)@[k].marked && final (
            nodes)@[k].intern_mark == old(nodes)@[k].intern_mark && final (nodes)@[k].adj@ == old(
                nodes,
            )@[k].adj@ && final (nodes)@[k].content == old(nodes)@[k].content,
{
    let n = nodes.len();
    let mut k: usize = 0;
    while k < n
        invariant
            n == nodes@.len(),
            nodes@.len() == old(nodes)@.len(),
            k <= n,
            forall|x: int|
                0 <= x < n ==> (#[trigger] nodes@[x]).id == old(nodes)@[x].id && nodes@[x].color
                    == old(nodes)@[x].color && nodes@[x].marked == old(nodes)@[x].marked
                    && nodes@[x].intern_mark == old(nodes)@[x].intern_mark && nodes@[x].adj@ == old(
                    nodes,
                )@[x].adj@ && nodes@[x].content == old(nodes)@[x].content,
            forall|x: int| 0 <= x < k ==> (#[trigger] nodes@[x]).dist == 0,
            forall|x: int| k <= x < n ==> (#[trigger] nodes@[x]).dist == old(nodes)@[x].dist,
        decreases n - k,
    {
        let ghost pre = nodes@;
        let mut nk = nodes.remove(k);
        nk.dist = 0;
        nodes.insert(k, nk);
        proof {
            assert(nodes@ =~= pre.update(k as int, nodes@[k as int]));
        }
        k = k + 1;
    }
}

impl Graph {
    /// Build the vertex graph of a mesh: one node per vertex, and an edge
    /// between every pair of distinct vertices that share a triangle.
    pub fn new(mesh: Mesh) -> (g: Graph)
        requires
            mesh_tris_in_range(mesh),
        ensures
            g.nodes@.len() == mesh.nvertices,
            wf(g.nodes@),
            forall|i: int|
                0 <= i < g.nodes@.len() ==> (#[trigger] g.nodes@[i]).id == i && g.nodes@[i].color
                    == -1 && !g.nodes@[i].marked && !g.nodes@[i].intern_mark && g.nodes@[i].dist
                    == 0 && g.nodes@[i].content.edges@.len() == 0,
            forall|x: int, y: int|
                #![trigger adj_to(g.nodes@, x, y)]
                #![trigger mesh_adjacent(mesh.ibuff@, x, y)]
                adj_to(g.nodes@, x, y) <==> mesh_adjacent(mesh.ibuff@, x, y),
            g.edges@.len() == 0,
            g.blobs@.len() == 0,
            g.blob_chrom_nb == 0,
            g.edge_chrom_nb == 0,
    {
        let n = mesh.nvertices;
        let mut nodes: Vec<Node<Vertex>> = Vec::new();
        let mut i: usize = 0;
        while i < n
            invariant
                i <= n,
                nodes@.len() == i,
                forall|x: int|
                    0 <= x < i ==> (#[trigger] nodes@[x]).id == x && nodes@[x].color == -1
                        && !nodes@[x].marked && !nodes@[x].intern_mark && nodes@[x].dist == 0
                        && nodes@[x].adj@.len() == 0 && nodes@[x].content.edges@.len() == 0,
            decreases n - i,
        {
            nodes.push(Node::new(i, Vertex::new()));
            i = i + 1;
        }
        let ghost ib = mesh.ibuff@;
        let ntris = mesh.ibuff.len();
        let mut t: usize = 0;
        while t < ntris
            invariant
                mesh_tris_in_range(mesh),
                n == mesh.nvertices,
                ib == mesh.ibuff@,
                ntris == ib.len(),
                t <= ntris,
                nodes@.len() == n,
                wf(nodes@),
                forall|x: int|
                    0 <= x < n ==> (#[trigger] nodes@[x]).id == x && nodes@[x].color == -1
                        && !nodes@[x].marked && !nodes@[x].intern_mark && nodes@[x].dist == 0
                        && nodes@[x].content.edges@.len() == 0,
                forall|x: int, y: int|
                    #![trigger adj_to(nodes@, x, y)]
                    adj_to(nodes@, x, y) <==> mesh_adj_upto(ib, x, y, t as int),
            decreases ntris - t,
        {
            let tri = mesh.ibuff[t];
            let id1 = tri.0 as usize;
            let id2 = tri.1 as usize;
            let id3 = tri.2 as usize;
            proof {
                assert(mesh.ibuff@[t as int].0 < n && mesh.ibuff@[t as int].1 < n
                    && mesh.ibuff@[t as int].2 < n);
            }
            let ghost g0 = nodes@;
            Node::connect(&mut nodes, id1, id2);
            let ghost g1 = nodes@;
            Node::connect(&mut nodes, id1, id3);
            let ghost g2 = nodes@;
            Node::connect(&mut nodes, id2, id3);
            proof {
                assert forall|x: int, y: int|
                    adj_to(nodes@, x, y) <==> mesh_adj_upto(ib, x, y, t + 1) by {
                    assert(adj_to(g1, x, y) <==> adj_to(g0, x, y) || (id1 != id2 && ((x == id1 && y
                        == id2) || (x == id2 && y == id1))));
                    assert(adj_to(g2, x, y) <==> adj_to(g1, x, y) || (id1 != id3 && ((x == id1 && y
                        == id3) || (x == id3 && y == id1))));
                    assert(adj_to(nodes@, x, y) <==> adj_to(g2, x, y) || (id2 != id3 && ((x == id2
                        && y == id3) || (x == id3 && y == id2))));
                    if adj_to(nodes@, x, y) {
                        if adj_to(g0, x, y) {
                            assert(mesh_adj_upto(ib, x, y, t as int));
                            let tt = choose|tt: int|
                                #![auto]
                                0 <= tt < t && tt < ib.len() && tri_has(ib[tt], x) && tri_has(
                                    ib[tt],
                                    y,
                                );
                            assert(0 <= tt < t + 1 && tt < ib.len() && tri_has(ib[tt], x)
                                && tri_has(ib[tt], y));
                        } else {
                            assert(tri_has(ib[t as int], x) && tri_has(ib[t as int], y) && x != y);
                            assert(0 <= t < t + 1 && (t as int) < ib.len() && tri_has(
                                ib[t as int],
                                x,
                            ) && tri_has(ib[t as int], y));
                        }
                    }
                    if mesh_adj_upto(ib, x, y, t + 1) {
                        let tt = choose|tt: int|
                            #![auto]
                            0 <= tt < t + 1 && tt < ib.len() && tri_has(ib[tt], x) && tri_has(
                                ib[tt],
                                y,
                            );
                        if tt < t {
                            assert(mesh_adj_upto(ib, x, y, t as int));
                            assert(adj_to(g0, x, y));
                        } else {
                            assert(tri_has(ib[t as int], x) && tri_has(ib[t as int], y));
                        }
                    }
                }
            }
            t = t + 1;
        }
        proof {
            assert forall|x: int, y: int|
                adj_to(nodes@, x, y) <==> mesh_adjacent(mesh.ibuff@, x, y) by {}
        }
        Graph { nodes, edges: Vec::new(), blobs: Vec::new(), blob_chrom_nb: 0, edge_chrom_nb: 0 }
    }

    /// Stiffen the vertex graph against shearing: connect every pair of
    /// vertices that is not yet adjacent but shares at least two common
    /// neighbours (equivalently, lies at graph distance exactly two with at
    /// least two two-step paths). All qualifying pairs are found against the
    /// incoming adjacency, then connected afterwards, so one pair's new edge
    /// never influences another pair's test.
    pub fn augment(&mut self)
        requires
            wf(old(self).nodes@),
        ensures
            wf(final (self).nodes@),
            final (self).nodes@.len() == old(self).nodes@.len(),
            forall|k: int|
                0 <= k < old(self).nodes@.len() ==> same_but_adj(
                    #[trigger] old(self).nodes@[k],
                    final (self).nodes@[k],
                ),
            forall|x: int, y: int|
                #![trigger adj_to(final (self).nodes@, x, y)]
                #![trigger adj_to(old(self).nodes@, x, y)]
                adj_to(final (self).nodes@, x, y) <==> (adj_to(old(self).nodes@, x, y) || aug_pair(
                    old(self).nodes@,
                    x,
                    y,
                )),
            final (self).edges@ == old(self).edges@,
            final (self).blobs@ == old(self).blobs@,
            final (self).blob_chrom_nb == old(self).blob_chrom_nb,
            final (self).edge_chrom_nb == old(self).edge_chrom_nb,
    {
        let ghost ns0 = self.nodes@;
        let n = self.nodes.len();
        let mut from: Vec<usize> = Vec::new();
        let mut to: Vec<usize> = Vec::new();
        let mut i: usize = 0;
        while i < n
            invariant
                wf(self.nodes@),
                self.nodes@ == ns0,
                self.edges@ == old(self).edges@,
                self.blobs@ == old(self).blobs@,
                self.blob_chrom_nb == old(self).blob_chrom_nb,
                self.edge_chrom_nb == old(self).edge_chrom_nb,
                n == ns0.len(),
                i <= n,
                from@.len() == to@.len(),
                forall|k: int|
                    0 <= k < from@.len() ==> aug_pair(
                        ns0,
                        (#[trigger] from@[k]) as int,
                        to@[k] as int,
                    ),
                forall|x: int, y: int|
                    0 <= x < i && 0 <= y < n && aug_pair(ns0, x, y) ==> exists|k: int|
                        0 <= k < from@.len() && from@[k] == x && (#[trigger] to@[k]) == y,
            decreases n - i,
        {
            let mut u: usize = 0;
            while u < n
                invariant
                    wf(self.nodes@),
                    self.nodes@ == ns0,
                    self.edges@ == old(self).edges@,
                    self.blobs@ == old(self).blobs@,
                    self.blob_chrom_nb == old(self).blob_chrom_nb,
                    self.edge_chrom_nb == old(self).edge_chrom_nb,
                    n == ns0.len(),
                    i < n,
                    u <= n,
                    from@.len() == to@.len(),
                    forall|k: int|
                        0 <= k < from@.len() ==> aug_pair(
                            ns0,
                            (#[trigger] from@[k]) as int,
                            to@[k] as int,
                        ),
                    forall|x: int, y: int|
                        0 <= x < i && 0 <= y < n && aug_pair(ns0, x, y) ==> exists|k: int|
                            0 <= k < from@.len() && from@[k] == x && (#[trigger] to@[k]) == y,
                    forall|y: int|
                        0 <= y < u && aug_pair(ns0, i as int, y) ==> exists|k: int|
                            0 <= k < from@.len() && from@[k] == i && (#[trigger] to@[k]) == y,
                decreases n - u,
            {
                if u != i && !self.nodes[i].has_adj(u) && self.nodes[i].share_k_adjs(
                    &self.nodes[u],
                    2,
                ) {
                    let ghost fl = from@.len();
                    let ghost old_from = from@;
                    let ghost old_to = to@;
                    from.push(i);
                    to.push(u);
                    proof {
                        assert(from@[fl as int] == i && to@[fl as int] == u);
                        assert(aug_pair(ns0, i as int, u as int));
                        assert forall|x: int, y: int|
                            0 <= x < i && 0 <= y < n && aug_pair(ns0, x, y) implies exists|k: int|
                            0 <= k < from@.len() && from@[k] == x && (#[trigger] to@[k]) == y by {
                            let k = choose|k: int|
                                0 <= k < old_from.len() && old_from[k] == x && (#[trigger] old_to[k])
                                    == y;
                            assert(from@[k] == x && to@[k] == y);
                        }
                        assert forall|y: int|
                            0 <= y < u + 1 && aug_pair(ns0, i as int, y) implies exists|k: int|
                            0 <= k < from@.len() && from@[k] == i && (#[trigger] to@[k]) == y by {
                            if y == u {
                                assert(from@[fl as int] == i && to@[fl as int] == y);
                            } else {
                                let k = choose|k: int|
                                    0 <= k < old_from.len() && old_from[k] == i && (
                                    #[trigger] old_to[k]) == y;
                                assert(from@[k] == i && to@[k] == y);
                            }
                        }
                    }
                }
                u = u + 1;
            }
            i = i + 1;
        }
        let npairs = from.len();
        let mut k: usize = 0;
        while k < npairs
            invariant
                wf(self.nodes@),
                self.nodes@.len() == n,
                self.edges@ == old(self).edges@,
                self.blobs@ == old(self).blobs@,
                self.blob_chrom_nb == old(self).blob_chrom_nb,
                self.edge_chrom_nb == old(self).edge_chrom_nb,
                n == ns0.len(),
                k <= npairs,
                npairs == from@.len(),
                from@.len() == to@.len(),
                forall|x: int|
                    0 <= x < n ==> same_but_adj(#[trigger] ns0[x], self.nodes@[x]),
                forall|kk: int|
                    0 <= kk < from@.len() ==> aug_pair(
                        ns0,
                        (#[trigger] from@[kk]) as int,
                        to@[kk] as int,
                    ),
                forall|x: int, y: int|
                    0 <= x < n && 0 <= y < n && aug_pair(ns0, x, y) ==> exists|kk: int|
                        0 <= kk < from@.len() && from@[kk] == x && (#[trigger] to@[kk]) == y,
                forall|x: int, y: int|
                    #![trigger adj_to(self.nodes@, x, y)]
                    adj_to(self.nodes@, x, y) <==> (adj_to(ns0, x, y) || exists|kk: int|
                        0 <= kk < k && ((from@[kk] == x && (#[trigger] to@[kk]) == y) || (from@[kk]
                            == y && to@[kk] == x))),
            decreases npairs - k,
        {
            let a = from[k];
            let b = to[k];
            let ghost pre = self.nodes@;
            proof {
                assert(aug_pair(ns0, a as int, b as int));
            }
            Node::connect(&mut self.nodes, a, b);
            proof {
                assert forall|x: int, y: int|
                    adj_to(self.nodes@, x, y) <==> (adj_to(ns0, x, y) || exists|kk: int|
                        0 <= kk < k + 1 && ((from@[kk] == x && (#[trigger] to@[kk]) == y) || (
                        from@[kk] == y && to@[kk] == x))) by {
                    if adj_to(self.nodes@, x, y) {
                        if adj_to(pre, x, y) {
                            if !adj_to(ns0, x, y) {
                                let kk = choose|kk: int|
                                    0 <= kk < k && ((from@[kk] == x && (#[trigger] to@[kk]) == y)
                                        || (from@[kk] == y && to@[kk] == x));
                                assert(0 <= kk < k + 1 && ((from@[kk] == x && to@[kk] == y) || (
                                from@[kk] == y && to@[kk] == x)));
                            }
                        } else {
                            assert((x == a && y == b) || (x == b && y == a));
                            assert(0 <= k < k + 1 && ((from@[k as int] == x && to@[k as int] == y)
                                || (from@[k as int] == y && to@[k as int] == x)));
                        }
                    }
                    if !adj_to(self.nodes@, x, y) && (adj_to(ns0, x, y) || exists|kk: int|
                        0 <= kk < k + 1 && ((from@[kk] == x && (#[trigger] to@[kk]) == y) || (
                        from@[kk] == y && to@[kk] == x))) {
                        assert(!adj_to(pre, x, y));
                        if !adj_to(ns0, x, y) {
                            let kk = choose|kk: int|
                                0 <= kk < k + 1 && ((from@[kk] == x && (#[trigger] to@[kk]) == y)
                                    || (from@[kk] == y && to@[kk] == x));
                            assert(kk == k);
                            assert(false);
                        } else {
                            assert(false);
                        }
                    }
                }
            }
            k = k + 1;
        }
        proof {
            assert forall|x: int, y: int|
                #![trigger adj_to(self.nodes@, x, y)]
                #![trigger adj_to(ns0, x, y)]
                adj_to(self.nodes@, x, y) <==> (adj_to(ns0, x, y) || aug_pair(ns0, x, y)) by {
                if adj_to(self.nodes@, x, y) && !adj_to(ns0, x, y) {
                    let kk = choose|kk: int|
                        0 <= kk < npairs && ((from@[kk] == x && (#[trigger] to@[kk]) == y) || (
                        from@[kk] == y && to@[kk] == x));
                    if from@[kk] == y && to@[kk] == x {
                        assert(aug_pair(ns0, y, x));
                        lemma_common_pairs_sym(ns0[x].adj@, ns0[y].adj@);
                        assert(!adj_to(ns0, x, y));
                        assert(aug_pair(ns0, x, y));
                    }
                }
                if aug_pair(ns0, x, y) {
                    let kk = choose|kk: int|
                        0 <= kk < from@.len() && from@[kk] == x && (#[trigger] to@[kk]) == y;
                    assert(adj_to(self.nodes@, x, y));
                }
            }
        }
    }

    /// Derive the line graph. Every undirected mesh edge of the vertex
    /// graph becomes one edge node; two edge nodes are adjacent exactly when
    /// their mesh edges share an endpoint. The vertex adjacency lists are
    /// consumed (cleared) in the process; each vertex keeps the exact list
    /// of its incident edge nodes.
    pub fn build_edge_graph(&mut self)
        requires
            wf(old(self).nodes@),
            old(self).edges@.len() == 0,
            forall|x: int|
                0 <= x < old(self).nodes@.len() ==> !(#[trigger] old(self).nodes@[x]).marked && old(
                    self,
                ).nodes@[x].content.edges@.len() == 0,
        ensures
            final (self).nodes@.len() == old(self).nodes@.len(),
            wf(final (self).nodes@),
            wf(final (self).edges@),
            forall|x: int|
                0 <= x < old(self).nodes@.len() ==> (#[trigger] final (self).nodes@[x]).id == old(
                    self,
                ).nodes@[x].id && final (self).nodes@[x].color == old(self).nodes@[x].color
                    && final (self).nodes@[x].dist == old(self).nodes@[x].dist && final (
                self).nodes@[x].intern_mark == old(self).nodes@[x].intern_mark && final (
                self).nodes@[x].marked && final (self).nodes@[x].adj@.len() == 0,
            forall|e: int|
                0 <= e < final (self).edges@.len() ==> (#[trigger] final (self).edges@[e]).id == e
                    && final (self).edges@[e].color == -1 && !final (self).edges@[e].marked
                    && !final (self).edges@[e].intern_mark && final (self).edges@[e].dist == 0,
            edge_pairs_unique(final (self).edges@),
            forall|e: int|
                0 <= e < final (self).edges@.len() ==> adj_to(
                    old(self).nodes@,
                    (#[trigger] final (self).edges@[e]).content.node_1 as int,
                    final (self).edges@[e].content.node_2 as int,
                ),
            forall|x: int, y: int|
                #[trigger] adj_to(old(self).nodes@, x, y) ==> exists|e: int|
                    0 <= e < final (self).edges@.len() && (#[trigger] final (
                    self).edges@[e].content).same_pair(
                        Edge { node_1: x as usize, node_2: y as usize },
                    ),
            incident_lists_exact(final (self).nodes@, final (self).edges@),
            forall|e1: usize, e2: usize|
                #![trigger adj_to(final (self).edges@, e1 as int, e2 as int)]
                adj_to(final (self).edges@, e1 as int, e2 as int) <==> (e1 != e2 && e1 < final (
                self).edges@.len() && e2 < final (self).edges@.len() && final (
                self).edges@[e1 as int].content.shares_endpoint(
                    final (self).edges@[e2 as int].content,
                )),
            final (self).blobs@ == old(self).blobs@,
            final (self).blob_chrom_nb == old(self).blob_chrom_nb,
            final (self).edge_chrom_nb == old(self).edge_chrom_nb,
    {
        let ghost ns0 = self.nodes@;
        let n = self.nodes.len();
        let mut v: usize = 0;
        while v < n
            invariant
                wf(self.nodes@),
                self.nodes@.len() == n,
                n == ns0.len(),
                ns0 == old(self).nodes@,
                v <= n,
                self.blobs@ == old(self).blobs@,
                self.blob_chrom_nb == old(self).blob_chrom_nb,
                self.edge_chrom_nb == old(self).edge_chrom_nb,
                forall|x: int|
                    0 <= x < n ==> (#[trigger] self.nodes@[x]).id == ns0[x].id
                        && self.nodes@[x].color == ns0[x].color && self.nodes@[x].dist
                        == ns0[x].dist && self.nodes@[x].intern_mark == ns0[x].intern_mark
                        && self.nodes@[x].adj@ == ns0[x].adj@,
                forall|x: int| 0 <= x < n ==> ((#[trigger] self.nodes@[x]).marked <==> x < v),
                edge_nodes_fresh(self.edges@),
                edge_endpoints_ok(self.nodes@, self.edges@),
                edge_pairs_unique(self.edges@),
                incident_lists_exact(self.nodes@, self.edges@),
                edges_covered(self.nodes@, self.edges@),
                crate::vertex::edge_marked_endpoint(self.nodes@, self.edges@),
            decreases n - v,
        {
            Vertex::split(&mut self.nodes, v, &mut self.edges);
            v = v + 1;
        }
        let ghost ns1 = self.nodes@;
        let ghost es1 = self.edges@;
        proof {
            // With every vertex processed, every mesh edge is covered.
            assert forall|x: int, y: int| #[trigger] adj_to(ns0, x, y) implies exists|e: int|
                0 <= e < es1.len() && (#[trigger] es1[e].content).same_pair(
                    Edge { node_1: x as usize, node_2: y as usize },
                ) by {
                assert(adj_to(ns1, x, y));
                assert(ns1[x].marked);
            }
            assert forall|e: int|
                0 <= e < es1.len() implies adj_to(
                ns0,
                (#[trigger] es1[e]).content.node_1 as int,
                es1[e].content.node_2 as int,
            ) by {
                assert(adj_to(ns1, es1[e].content.node_1 as int, es1[e].content.node_2 as int));
            }
            // Fresh edge nodes have no adjacency at all, so the edge arena
            // is trivially well-formed.
            assert(self.edges.len() == self.edges@.len());
            assert forall|a: int, b: int| !adj_to(es1, a, b) by {
                if 0 <= a < es1.len() && es1[a].adj@.contains(b as usize) {
                    let k = choose|k: int| 0 <= k < es1[a].adj@.len() && es1[a].adj@[k] == (
                    b as usize);
                    assert(false);
                }
            }
            assert(wf(es1));
        }
        let mut v: usize = 0;
        while v < n
            invariant
                self.nodes@.len() == n,
                n == ns1.len(),
                ns1.len() == ns0.len(),
                v <= n,
                self.blobs@ == old(self).blobs@,
                self.blob_chrom_nb == old(self).blob_chrom_nb,
                self.edge_chrom_nb == old(self).edge_chrom_nb,
                self.edges@.len() == es1.len(),
                incident_lists_exact(ns1, es1),
                forall|x: int|
                    0 <= x < n ==> (#[trigger] self.nodes@[x]).id == ns1[x].id
                        && self.nodes@[x].color == ns1[x].color && self.nodes@[x].dist
                        == ns1[x].dist && self.nodes@[x].intern_mark == ns1[x].intern_mark
                        && self.nodes@[x].marked == ns1[x].marked && self.nodes@[x].content
                        == ns1[x].content,
                forall|x: int| 0 <= x < v ==> (#[trigger] self.nodes@[x]).adj@.len() == 0,
                forall|x: int| v <= x < n ==> (#[trigger] self.nodes@[x]).adj@ == ns1[x].adj@,
                wf(self.edges@),
                forall|e: int|
                    0 <= e < es1.len() ==> same_but_adj(#[trigger] es1[e], self.edges@[e]),
                forall|e1: usize, e2: usize|
                    #![trigger adj_to(self.edges@, e1 as int, e2 as int)]
                    adj_to(self.edges@, e1 as int, e2 as int) <==> (e1 != e2 && e1 < es1.len() && e2
                        < es1.len() && exists|x: int|
                        0 <= x < v && es1[e1 as int].content.touches(x)
                            && es1[e2 as int].content.touches(x)),
            decreases n - v,
        {
            let ghost pre_nodes = self.nodes@;
            let ghost pre_edges = self.edges@;
            let mut nv = self.nodes.remove(v);
            nv.adj = Vec::new();
            self.nodes.insert(v, nv);
            proof {
                assert(self.nodes@ =~= pre_nodes.update(v as int, self.nodes@[v as int]));
            }
            proof {
                let inc0 = self.nodes@[v as int].content.edges@;
                assert(inc0 == ns1[v as int].content.edges@);
                assert forall|k: int| 0 <= k < inc0.len() implies (#[trigger] inc0[k])
                    < self.edges@.len() by {
                    assert(inc0.contains(inc0[k]));
                    assert(ns1[v as int].content.edges@.contains(inc0[k]));
                }
            }
            Vertex::connect_edges(&mut self.edges, &self.nodes[v].content.edges);
            proof {
                let inc = self.nodes@[v as int].content.edges@;
                assert(inc == ns1[v as int].content.edges@);
                assert forall|k: int| 0 <= k < inc.len() implies (#[trigger] inc[k]) < es1.len() by {
                    assert(inc.contains(inc[k]));
                    assert(ns1[v as int].content.edges@.contains(inc[k]));
                }
                assert forall|e1: usize, e2: usize|
                    adj_to(self.edges@, e1 as int, e2 as int) <==> (e1 != e2 && e1 < es1.len() && e2
                        < es1.len() && exists|x: int|
                        0 <= x < v + 1 && es1[e1 as int].content.touches(x)
                            && es1[e2 as int].content.touches(x)) by {
                    assert(adj_to(self.edges@, e1 as int, e2 as int) <==> (adj_to(
                        pre_edges,
                        e1 as int,
                        e2 as int,
                    ) || (e1 != e2 && inc.contains(e1) && inc.contains(e2))));
                    if adj_to(self.edges@, e1 as int, e2 as int) {
                        if adj_to(pre_edges, e1 as int, e2 as int) {
                            let x = choose|x: int|
                                0 <= x < v && es1[e1 as int].content.touches(x)
                                    && es1[e2 as int].content.touches(x);
                            assert(0 <= x < v + 1 && es1[e1 as int].content.touches(x)
                                && es1[e2 as int].content.touches(x));
                        } else {
                            assert(inc.contains(e1) && inc.contains(e2));
                            assert(es1[e1 as int].content.touches(v as int));
                            assert(es1[e2 as int].content.touches(v as int));
                            assert(0 <= (v as int) && (v as int) < v + 1 && es1[e1 as int].content.touches(
                                v as int,
                            ) && es1[e2 as int].content.touches(v as int));
                        }
                    }
                    if e1 != e2 && e1 < es1.len() && e2 < es1.len() && exists|x: int|
                        0 <= x < v + 1 && es1[e1 as int].content.touches(x)
                            && es1[e2 as int].content.touches(x) {
                        let x = choose|x: int|
                            0 <= x < v + 1 && es1[e1 as int].content.touches(x)
                                && es1[e2 as int].content.touches(x);
                        if x < v {
                            assert(adj_to(pre_edges, e1 as int, e2 as int));
                            assert(adj_to(self.edges@, e1 as int, e2 as int));
                        } else {
                            assert(x == v as int);
                            assert(inc.contains(e1)) by {
                                assert(es1[e1 as int].content.touches(v as int));
                            }
                            assert(inc.contains(e2)) by {
                                assert(es1[e2 as int].content.touches(v as int));
                            }
                            assert(adj_to(self.edges@, e1 as int, e2 as int));
                        }
                    }
                }
            }
            v = v + 1;
        }
        proof {
            // The vertex graph is now edgeless, hence trivially well-formed.
            assert forall|a: int, b: int| #[trigger] adj_to(self.nodes@, a, b) implies adj_to(
                self.nodes@,
                b,
                a,
            ) by {
                assert(self.nodes@[a].adj@.len() == 0);
                if self.nodes@[a].adj@.contains(b as usize) {
                    let k = choose|k: int|
                        0 <= k < self.nodes@[a].adj@.len() && self.nodes@[a].adj@[k] == (b as usize);
                    assert(false);
                }
            }
            assert(wf(self.nodes@));
            // Edge endpoints lie below the vertex count, so a shared
            // endpoint is the same thing as a common incident vertex.
            assert forall|e1: usize, e2: usize|
                adj_to(self.edges@, e1 as int, e2 as int) <==> (e1 != e2 && e1
                    < self.edges@.len() && e2 < self.edges@.len()
                    && self.edges@[e1 as int].content.shares_endpoint(
                    self.edges@[e2 as int].content,
                )) by {
                if e1 != e2 && e1 < self.edges@.len() && e2 < self.edges@.len() {
                    assert(self.edges@[e1 as int].content == es1[e1 as int].content);
                    assert(self.edges@[e2 as int].content == es1[e2 as int].content);
                    assert(adj_to(ns0, es1[e1 as int].content.node_1 as int, es1[e1 as int].content.node_2 as int));
                    assert(adj_to(ns0, es1[e2 as int].content.node_1 as int, es1[e2 as int].content.node_2 as int));
                    if self.edges@[e1 as int].content.shares_endpoint(
                        self.edges@[e2 as int].content,
                    ) {
                        if es1[e1 as int].content.touches(es1[e2 as int].content.node_1 as int) {
                            assert((es1[e2 as int].content.node_1 as int) < n
                                && es1[e1 as int].content.touches(
                                es1[e2 as int].content.node_1 as int,
                            ) && es1[e2 as int].content.touches(
                                es1[e2 as int].content.node_1 as int,
                            ));
                        } else {
                            assert((es1[e2 as int].content.node_2 as int) < n
                                && es1[e1 as int].content.touches(
                                es1[e2 as int].content.node_2 as int,
                            ) && es1[e2 as int].content.touches(
                                es1[e2 as int].content.node_2 as int,
                            ));
                        }
                    }
                    if adj_to(self.edges@, e1 as int, e2 as int) {
                        let x = choose|x: int|
                            0 <= x < n && es1[e1 as int].content.touches(x)
                                && es1[e2 as int].content.touches(x);
                        assert(self.edges@[e1 as int].content.shares_endpoint(
                            self.edges@[e2 as int].content,
                        ));
                    }
                }
            }
            // Incident lists are exact against the final edges: contents are
            // unchanged on both sides.
            assert forall|x: int, e: usize|
                0 <= x < self.nodes@.len() implies ((
            #[trigger] self.nodes@[x].content.edges@.contains(e)) <==> (e < self.edges@.len()
                && self.edges@[e as int].content.touches(x))) by {
                assert(self.nodes@[x].content.edges@ == ns1[x].content.edges@);
                if e < self.edges@.len() {
                    assert(self.edges@[e as int].content == es1[e as int].content);
                }
            }
            assert forall|x: int|
                0 <= x < self.nodes@.len() implies (
            #[trigger] self.nodes@[x].content.edges@).no_duplicates() by {
                assert(self.nodes@[x].content.edges@ == ns1[x].content.edges@);
            }
            assert forall|e: int|
                0 <= e < self.edges@.len() implies adj_to(
                ns0,
                (#[trigger] self.edges@[e]).content.node_1 as int,
                self.edges@[e].content.node_2 as int,
            ) by {
                assert(self.edges@[e].content == es1[e].content);
            }
            assert forall|x: int, y: int| #[trigger] adj_to(ns0, x, y) implies exists|e: int|
                0 <= e < self.edges@.len() && (#[trigger] self.edges@[e].content).same_pair(
                    Edge { node_1: x as usize, node_2: y as usize },
                ) by {
                let e = choose|e: int|
                    0 <= e < es1.len() && (#[trigger] es1[e].content).same_pair(
                        Edge { node_1: x as usize, node_2: y as usize },
                    );
                assert(self.edges@[e].content == es1[e].content);
            }
            assert forall|e1: int, e2: int|
                0 <= e1 < self.edges@.len() && 0 <= e2 < self.edges@.len() && e1 != e2
                    implies !(#[trigger] self.edges@[e1].content).same_pair(
                #[trigger] self.edges@[e2].content,
            ) by {
                assert(self.edges@[e1].content == es1[e1].content);
                assert(self.edges@[e2].content == es1[e2].content);
            }
        }
    }

    /// Coarsen the line graph into blobs. Edge nodes are scanned in id
    /// order; each not yet absorbed seeds a new blob, which absorbs every
    /// unabsorbed node within breadth-first distance `dist` of the seed, so
    /// the blobs partition the edge set. Two blobs are then connected
    /// exactly when the number of element-level adjacencies between them
    /// exceeds `min_connections` (in either counting direction); between
    /// blob pairs under the threshold the element-level adjacency is
    /// severed, so they can be colored independently.
    #[verifier::rlimit(80)]
    pub fn build_blob_graph(&mut self, dist: usize, min_connections: usize)
        requires
            wf(old(self).edges@),
            old(self).blobs@.len() == 0,
            old(self).edges@.len() <= 0xffff_ffff,
        ensures
            final (self).nodes@ == old(self).nodes@,
            final (self).edge_chrom_nb == old(self).edge_chrom_nb,
            final (self).blob_chrom_nb == old(self).blob_chrom_nb,
            final (self).edges@.len() == old(self).edges@.len(),
            wf(final (self).edges@),
            forall|e: int|
                0 <= e < old(self).edges@.len() ==> same_but_adj(
                    #[trigger] old(self).edges@[e],
                    final (self).edges@[e],
                ),
            forall|a: int, b: int|
                #[trigger] adj_to(final (self).edges@, a, b) ==> adj_to(old(self).edges@, a, b),
            forall|bi: int, bj: int, a: usize, b: usize|
                #![trigger final (self).blobs@[bi].content.sub_nodes@.contains(a), final (self).blobs@[bj].content.sub_nodes@.contains(b)]
                0 <= bi < final (self).blobs@.len() && 0 <= bj < final (self).blobs@.len()
                    && final (self).blobs@[bi].content.sub_nodes@.contains(a) && final (
                self).blobs@[bj].content.sub_nodes@.contains(b) ==> (adj_to(
                    final (self).edges@,
                    a as int,
                    b as int,
                ) <==> (adj_to(old(self).edges@, a as int, b as int) && adj_pairs(
                    old(self).edges@,
                    final (self).blobs@[bi].content.sub_nodes@,
                    final (self).blobs@[bj].content.sub_nodes@,
                ) > min_connections && adj_pairs(
                    old(self).edges@,
                    final (self).blobs@[bj].content.sub_nodes@,
                    final (self).blobs@[bi].content.sub_nodes@,
                ) > min_connections)),
            wf(final (self).blobs@),
            forall|b: int|
                0 <= b < final (self).blobs@.len() ==> (#[trigger] final (self).blobs@[b]).id == b
                    && final (self).blobs@[b].color == -1 && !final (self).blobs@[b].marked
                    && !final (self).blobs@[b].intern_mark && final (self).blobs@[b].dist == 0,
            blobs_partition(final (self).blobs@, old(self).edges@.len() as int),
            final (self).blobs@.len() <= old(self).edges@.len(),
            forall|b: int|
                0 <= b < final (self).blobs@.len() ==> (#[trigger] final (
                self).blobs@[b].content).sub_nodes@.len() >= 1,
            forall|b: int, k: int|
                0 <= b < final (self).blobs@.len() && 0 <= k < final (
                self).blobs@[b].content.sub_nodes@.len() ==> reachable_within(
                    old(self).edges@,
                    final (self).blobs@[b].content.sub_nodes@[0] as int,
                    (#[trigger] final (self).blobs@[b].content.sub_nodes@[k]) as int,
                    dist as nat,
                ),
            forall|p: int, q: int|
                #![trigger adj_to(final (self).blobs@, p, q)]
                adj_to(final (self).blobs@, p, q) <==> (0 <= p < final (self).blobs@.len() && 0 <= q
                    < final (self).blobs@.len() && p != q && (adj_pairs(
                    old(self).edges@,
                    final (self).blobs@[p].content.sub_nodes@,
                    final (self).blobs@[q].content.sub_nodes@,
                ) > min_connections || adj_pairs(
                    old(self).edges@,
                    final (self).blobs@[q].content.sub_nodes@,
                    final (self).blobs@[p].content.sub_nodes@,
                ) > min_connections)),
    {
        let ghost es0 = self.edges@;
        let ne = self.edges.len();
        let mut absorbed: Vec<bool> = vec![false; ne];
        let mut e: usize = 0;
        while e < ne
            invariant
                wf(self.edges@),
                self.edges@ == es0,
                self.nodes@ == old(self).nodes@,
                self.edge_chrom_nb == old(self).edge_chrom_nb,
                self.blob_chrom_nb == old(self).blob_chrom_nb,
                ne == es0.len(),
                ne <= 0xffff_ffff,
                e <= ne,
                absorbed@.len() == ne,
                self.blobs@.len() <= ne,
                forall|b: int|
                    0 <= b < self.blobs@.len() ==> (#[trigger] self.blobs@[b]).id == b
                        && self.blobs@[b].color == -1 && !self.blobs@[b].marked
                        && !self.blobs@[b].intern_mark && self.blobs@[b].dist == 0
                        && self.blobs@[b].adj@.len() == 0 && self.blobs@[b].content.sub_nodes@.len()
                        >= 1,
                forall|b: int|
                    0 <= b < self.blobs@.len() ==> b <= (#[trigger] self.blobs@[b].content).sub_nodes@[0]
                        && self.blobs@[b].content.sub_nodes@[0] < e,
                blob_members_valid(self.blobs@, ne as int),
                blob_disjoint(self.blobs@),
                blob_members_dedup(self.blobs@),
                forall|b: int, k: int|
                    0 <= b < self.blobs@.len() && 0 <= k
                        < self.blobs@[b].content.sub_nodes@.len() ==> reachable_within(
                        es0,
                        self.blobs@[b].content.sub_nodes@[0] as int,
                        (#[trigger] self.blobs@[b].content.sub_nodes@[k]) as int,
                        dist as nat,
                    ),
                forall|x: usize|
                    x < ne ==> ((#[trigger] absorbed@[x as int]) <==> exists|b: int|
                        #![auto]
                        0 <= b < self.blobs@.len() && self.blobs@[b].content.sub_nodes@.contains(
                            x,
                        )),
                forall|x: int| 0 <= x < e ==> absorbed@[x],
            decreases ne - e,
        {
            if !absorbed[e] {
                let ghost bs0 = self.blobs@;
                let ghost ab0 = absorbed@;
                let mut blob = Blob::new();
                blob.sub_nodes.push(e);
                absorbed.set(e, true);
                proof {
                    assert forall|x: usize|
                        x < ne implies ((#[trigger] absorbed@[x as int]) <==> (ab0[x as int]
                        || blob.sub_nodes@.contains(x))) by {
                        lemma_push_contains(Seq::<usize>::empty(), e, x);
                    }
                    assert forall|x: usize|
                        #[trigger] blob.sub_nodes@.contains(x) implies !ab0[x as int] || x
                        == e by {
                        lemma_push_contains(Seq::<usize>::empty(), e, x);
                    }
                }
                let dist_nodes = Node::distant_nodes(&self.edges, e, dist);
                let nd = dist_nodes.len();
                let mut k: usize = 0;
                proof {
                    lemma_push_no_dup(Seq::<usize>::empty(), e);
                    assert forall|kk: int|
                        0 <= kk < dist_nodes@.len() implies (#[trigger] dist_nodes@[kk]) < ne
                        && dist_nodes@[kk] != e && reachable_within(
                            es0,
                            e as int,
                            dist_nodes@[kk] as int,
                            dist as nat,
                        ) by {
                        assert(dist_nodes@.contains(dist_nodes@[kk]));
                    }
                }
                while k < nd
                    invariant
                        wf(self.edges@),
                        self.edges@ == es0,
                        ne == es0.len(),
                        e < ne,
                        k <= nd,
                        nd == dist_nodes@.len(),
                        dist_nodes@.no_duplicates(),
                        forall|kk: int|
                            0 <= kk < nd ==> (#[trigger] dist_nodes@[kk]) < ne
                                && dist_nodes@[kk] != e && reachable_within(
                                es0,
                                e as int,
                                dist_nodes@[kk] as int,
                                dist as nat,
                            ),
                        self.blobs@ == bs0,
                        absorbed@.len() == ne,
                        blob.sub_nodes@.no_duplicates(),
                        blob.sub_nodes@.len() >= 1,
                        blob.sub_nodes@[0] == e,
                        forall|kk: int|
                            0 <= kk < blob.sub_nodes@.len() ==> (#[trigger] blob.sub_nodes@[kk])
                                < ne,
                        forall|kk: int|
                            0 <= kk < blob.sub_nodes@.len() ==> reachable_within(
                                es0,
                                e as int,
                                (#[trigger] blob.sub_nodes@[kk]) as int,
                                dist as nat,
                            ),
                        forall|x: usize|
                            x < ne ==> ((#[trigger] absorbed@[x as int]) <==> (ab0[x as int]
                                || blob.sub_nodes@.contains(x))),
                        forall|x: usize|
                            #[trigger] blob.sub_nodes@.contains(x) ==> !ab0[x as int] || x == e,
                        absorbed@[e as int],
                        !ab0[e as int],
                    decreases nd - k,
                {
                    let de = dist_nodes[k];
                    proof {
                        assert(dist_nodes@[k as int] < ne);
                    }
                    if !absorbed[de] {
                        let ghost blob0 = blob.sub_nodes@;
                        let ghost abk = absorbed@;
                        proof {
                            assert(!blob.sub_nodes@.contains(de));
                            lemma_push_no_dup(blob.sub_nodes@, de);
                            assert(dist_nodes@.contains(de));
                            assert(reachable_within(es0, e as int, de as int, dist as nat));
                        }
                        blob.sub_nodes.push(de);
                        absorbed.set(de, true);
                        proof {
                            assert forall|x: usize|
                                x < ne implies ((#[trigger] absorbed@[x as int]) <==> (
                            ab0[x as int] || blob.sub_nodes@.contains(x))) by {
                                lemma_push_contains(blob0, de, x);
                                if x != de {
                                    assert(absorbed@[x as int] == abk[x as int]);
                                }
                            }
                            assert forall|x: usize|
                                #[trigger] blob.sub_nodes@.contains(x) implies !ab0[x as int] || x
                                == e by {
                                lemma_push_contains(blob0, de, x);
                            }
                        }
                    }
                    k = k + 1;
                }
                let bid = self.blobs.len();
                self.blobs.push(Node::new(bid, blob));
                proof {
                    let bs1 = self.blobs@;
                    assert(bs1[bid as int].content.sub_nodes@[0] == e);
                    assert forall|b: int|
                        0 <= b < bs1.len() implies b <= (#[trigger] bs1[b].content).sub_nodes@[0]
                        && bs1[b].content.sub_nodes@[0] < e + 1 by {
                        if b < bs0.len() {
                            assert(bs1[b] == bs0[b]);
                        } else {
                            assert(bs1[b].content.sub_nodes@[0] == e);
                            if bid > 0 {
                                assert(bid - 1 <= bs0[bid - 1].content.sub_nodes@[0]);
                                assert(bs0[bid - 1].content.sub_nodes@[0] < e);
                            }
                        }
                    }
                    assert forall|x: usize|
                        x < ne implies ((#[trigger] absorbed@[x as int]) <==> exists|b: int|
                        #![auto]
                        0 <= b < bs1.len() && bs1[b].content.sub_nodes@.contains(x)) by {
                        if absorbed@[x as int] {
                            if ab0[x as int] {
                                let b = choose|b: int|
                                    #![auto]
                                    0 <= b < bs0.len() && bs0[b].content.sub_nodes@.contains(x);
                                assert(bs1[b].content.sub_nodes@.contains(x));
                            } else {
                                assert(bs1[bid as int].content.sub_nodes@.contains(x));
                            }
                        }
                        if exists|b: int|
                            #![auto]
                            0 <= b < bs1.len() && bs1[b].content.sub_nodes@.contains(x) {
                            let b = choose|b: int|
                                #![auto]
                                0 <= b < bs1.len() && bs1[b].content.sub_nodes@.contains(x);
                            if b < bs0.len() {
                                assert(bs0[b].content.sub_nodes@.contains(x));
                                assert(ab0[x as int]);
                                assert(absorbed@[x as int]);
                            } else {
                                assert(absorbed@[x as int]);
                            }
                        }
                    }
                    assert forall|b1: int, b2: int, x: usize|
                        0 <= b1 < b2 < bs1.len() implies !((
                    #[trigger] bs1[b1].content.sub_nodes@.contains(x)) && (
                    #[trigger] bs1[b2].content.sub_nodes@.contains(x))) by {
                        if b2 < bs0.len() {
                        } else if b1 < bs0.len() && b2 == bs0.len() {
                            if bs1[b1].content.sub_nodes@.contains(x) && bs1[b2].content.sub_nodes@.contains(
                                x,
                            ) {
                                assert(bs0[b1].content.sub_nodes@.contains(x));
                                assert(ab0[x as int]);
                                assert(!ab0[x as int] || x == e);
                                assert(x == e);
                                assert(!ab0[e as int]);
                                assert(false);
                            }
                        }
                    }
                }
            }
            e = e + 1;
        }
        proof {
            assert(blob_covers(self.blobs@, ne as int)) by {
                assert forall|x: usize| x < ne implies #[trigger] in_some_blob(self.blobs@, x) by {
                    assert(absorbed@[x as int]);
                    let b = choose|b: int|
                        #![auto]
                        0 <= b < self.blobs@.len() && self.blobs@[b].content.sub_nodes@.contains(x);
                    assert(0 <= b < self.blobs@.len() && self.blobs@[b].content.sub_nodes@.contains(
                        x,
                    ));
                }
            }
        }
        let ghost bsa = self.blobs@;
        let nb = self.blobs.len();
        let mut counts: Vec<Vec<u64>> = Vec::new();
        let mut b1: usize = 0;
        while b1 < nb
            invariant
                wf(self.edges@),
                self.edges@ == es0,
                self.blobs@ == bsa,
                ne == es0.len(),
                ne <= 0xffff_ffff,
                nb == bsa.len(),
                nb <= ne,
                blob_members_valid(bsa, ne as int),
                blob_members_dedup(bsa),
                b1 <= nb,
                counts@.len() == b1,
                forall|i: int, j: int|
                    0 <= i < b1 && 0 <= j < nb ==> (#[trigger] counts@[i]@[j]) == adj_pairs(
                        es0,
                        bsa[i].content.sub_nodes@,
                        bsa[j].content.sub_nodes@,
                    ),
                forall|i: int| 0 <= i < b1 ==> (#[trigger] counts@[i]@).len() == nb,
            decreases nb - b1,
        {
            let mut rowv: Vec<u64> = Vec::new();
            let mut b2: usize = 0;
            while b2 < nb
                invariant
                    wf(self.edges@),
                    self.edges@ == es0,
                    self.blobs@ == bsa,
                    ne == es0.len(),
                    ne <= 0xffff_ffff,
                    nb == bsa.len(),
                    b1 < nb,
                    b2 <= nb,
                    blob_members_valid(bsa, ne as int),
                    blob_members_dedup(bsa),
                    rowv@.len() == b2,
                    forall|j: int|
                        0 <= j < b2 ==> (#[trigger] rowv@[j]) == adj_pairs(
                            es0,
                            bsa[b1 as int].content.sub_nodes@,
                            bsa[j].content.sub_nodes@,
                        ),
                decreases nb - b2,
            {
                proof {
                    crate::node::lemma_distinct_bounded_len(
                        bsa[b1 as int].content.sub_nodes@,
                        ne as nat,
                    );
                    crate::node::lemma_distinct_bounded_len(
                        bsa[b2 as int].content.sub_nodes@,
                        ne as nat,
                    );
                }
                let cnt = self.blobs[b1].content.nb_adj_elements(
                    &self.edges,
                    &self.blobs[b2].content,
                );
                rowv.push(cnt);
                b2 = b2 + 1;
            }
            counts.push(rowv);
            b1 = b1 + 1;
        }
        let mut b1: usize = 0;
        while b1 < nb
            invariant
                wf(self.edges@),
                self.edges@.len() == ne,
                self.nodes@ == old(self).nodes@,
                self.edge_chrom_nb == old(self).edge_chrom_nb,
                self.blob_chrom_nb == old(self).blob_chrom_nb,
                ne == es0.len(),
                nb == bsa.len(),
                nb <= ne,
                b1 <= nb,
                self.blobs@.len() == nb,
                counts@.len() == nb,
                forall|i: int| 0 <= i < nb ==> (#[trigger] counts@[i]@).len() == nb,
                forall|i: int, j: int|
                    0 <= i < nb && 0 <= j < nb ==> (#[trigger] counts@[i]@[j]) == adj_pairs(
                        es0,
                        bsa[i].content.sub_nodes@,
                        bsa[j].content.sub_nodes@,
                    ),
                blob_members_valid(bsa, ne as int),
                blob_members_dedup(bsa),
                blob_disjoint(bsa),
                forall|e: int|
                    0 <= e < ne ==> same_but_adj(#[trigger] es0[e], self.edges@[e]),
                forall|a: int, b: int|
                    #[trigger] adj_to(self.edges@, a, b) ==> adj_to(es0, a, b),
                forall|bi: int, bj: int, a: usize, b: usize|
                    #![trigger bsa[bi].content.sub_nodes@.contains(a), bsa[bj].content.sub_nodes@.contains(b)]
                    0 <= bi < nb && 0 <= bj < nb && bsa[bi].content.sub_nodes@.contains(a)
                        && bsa[bj].content.sub_nodes@.contains(b) ==> (adj_to(
                        self.edges@,
                        a as int,
                        b as int,
                    ) <==> (adj_to(es0, a as int, b as int) && !((bi < b1) && counts@[bi]@[bj]
                        <= min_connections) && !((bj < b1) && counts@[bj]@[bi]
                        <= min_connections))),
                forall|b: int|
                    0 <= b < nb ==> same_but_adj(#[trigger] bsa[b], self.blobs@[b]),
                wf(self.blobs@),
                forall|p: int, q: int|
                    #![trigger adj_to(self.blobs@, p, q)]
                    adj_to(self.blobs@, p, q) <==> (0 <= p < nb && 0 <= q < nb && p != q && exists|
                        i: int,
                        j: int,
                    |
                        #![auto]
                        0 <= i < nb && 0 <= j < nb && (i < b1) && ((i == p && j == q) || (i == q
                            && j == p)) && counts@[i]@[j] > min_connections),
            decreases nb - b1,
        {
            let mut b2: usize = 0;
            while b2 < nb
                invariant
                    wf(self.edges@),
                    self.edges@.len() == ne,
                    self.nodes@ == old(self).nodes@,
                    self.edge_chrom_nb == old(self).edge_chrom_nb,
                    self.blob_chrom_nb == old(self).blob_chrom_nb,
                    ne == es0.len(),
                    nb == bsa.len(),
                    nb <= ne,
                    b1 < nb,
                    b2 <= nb,
                    self.blobs@.len() == nb,
                    counts@.len() == nb,
                    forall|i: int| 0 <= i < nb ==> (#[trigger] counts@[i]@).len() == nb,
                    forall|i: int, j: int|
                        0 <= i < nb && 0 <= j < nb ==> (#[trigger] counts@[i]@[j]) == adj_pairs(
                            es0,
                            bsa[i].content.sub_nodes@,
                            bsa[j].content.sub_nodes@,
                        ),
                    blob_members_valid(bsa, ne as int),
                    blob_members_dedup(bsa),
                    blob_disjoint(bsa),
                    forall|e: int|
                        0 <= e < ne ==> same_but_adj(#[trigger] es0[e], self.edges@[e]),
                    forall|a: int, b: int|
                        #[trigger] adj_to(self.edges@, a, b) ==> adj_to(es0, a, b),
                    forall|bi: int, bj: int, a: usize, b: usize|
                        #![trigger bsa[bi].content.sub_nodes@.contains(a), bsa[bj].content.sub_nodes@.contains(b)]
                        0 <= bi < nb && 0 <= bj < nb && bsa[bi].content.sub_nodes@.contains(a)
                            && bsa[bj].content.sub_nodes@.contains(b) ==> (adj_to(
                            self.edges@,
                            a as int,
                            b as int,
                        ) <==> (adj_to(es0, a as int, b as int) && !((bi < b1 || (bi == b1 && bj
                            < b2)) && counts@[bi]@[bj] <= min_connections) && !((bj < b1 || (bj
                            == b1 && bi < b2)) && counts@[bj]@[bi] <= min_connections))),
                    forall|b: int|
                        0 <= b < nb ==> same_but_adj(#[trigger] bsa[b], self.blobs@[b]),
                    wf(self.blobs@),
                    forall|p: int, q: int|
                        #![trigger adj_to(self.blobs@, p, q)]
                        adj_to(self.blobs@, p, q) <==> (0 <= p < nb && 0 <= q < nb && p != q
                            && exists|i: int, j: int|
                            #![auto]
                            0 <= i < nb && 0 <= j < nb && (i < b1 || (i == b1 && j < b2)) && ((i
                                == p && j == q) || (i == q && j == p)) && counts@[i]@[j]
                                > min_connections),
                decreases nb - b2,
            {
                let ghost pre_blobs = self.blobs@;
                let ghost pre_edges = self.edges@;
                if counts[b1][b2] > min_connections as u64 {
                    Node::connect(&mut self.blobs, b1, b2);
                    proof {
                        assert forall|bi: int, bj: int, a: usize, b: usize|
                            0 <= bi < nb && 0 <= bj < nb && bsa[bi].content.sub_nodes@.contains(a)
                                && bsa[bj].content.sub_nodes@.contains(b) implies (adj_to(
                            self.edges@,
                            a as int,
                            b as int,
                        ) <==> (adj_to(es0, a as int, b as int) && !((bi < b1 || (bi == b1 && bj
                            < b2 + 1)) && counts@[bi]@[bj] <= min_connections) && !((bj < b1 || (bj
                            == b1 && bi < b2 + 1)) && counts@[bj]@[bi] <= min_connections))) by {
                            assert(counts@[b1 as int]@[b2 as int] > min_connections);
                        }
                        assert forall|p: int, q: int|
                            adj_to(self.blobs@, p, q) <==> (0 <= p < nb && 0 <= q < nb && p != q
                                && exists|i: int, j: int|
                                #![auto]
                                0 <= i < nb && 0 <= j < nb && (i < b1 || (i == b1 && j < b2 + 1))
                                    && ((i == p && j == q) || (i == q && j == p)) && counts@[i]@[j]
                                    > min_connections) by {
                            assert(adj_to(self.blobs@, p, q) <==> (adj_to(pre_blobs, p, q) || (b1
                                != b2 && ((p == b1 && q == b2) || (p == b2 && q == b1)))));
                            if adj_to(self.blobs@, p, q) {
                                if adj_to(pre_blobs, p, q) {
                                    let (i, j): (int, int) = choose|i: int, j: int|
                                        #![auto]
                                        0 <= i < nb && 0 <= j < nb && (i < b1 || (i == b1 && j
                                            < b2)) && ((i == p && j == q) || (i == q && j == p))
                                            && counts@[i]@[j] > min_connections;
                                    assert(0 <= i < nb && 0 <= j < nb && (i < b1 || (i == b1 && j
                                        < b2 + 1)) && ((i == p && j == q) || (i == q && j == p))
                                        && counts@[i]@[j] > min_connections);
                                } else {
                                    assert(counts@[b1 as int]@[b2 as int] > min_connections);
                                    assert(0 <= (b1 as int) && (b1 as int) < nb && 0 <= (b2 as int)
                                        && (b2 as int) < nb && ((b1 as int) < b1 || ((b1 as int)
                                        == b1 && (b2 as int) < b2 + 1)) && (((b1 as int) == p && (
                                    b2 as int) == q) || ((b1 as int) == q && (b2 as int) == p))
                                        && counts@[b1 as int]@[b2 as int] > min_connections);
                                }
                            }
                            if !adj_to(self.blobs@, p, q) && 0 <= p < nb && 0 <= q < nb && p != q
                                && exists|i: int, j: int|
                                #![auto]
                                0 <= i < nb && 0 <= j < nb && (i < b1 || (i == b1 && j < b2 + 1))
                                    && ((i == p && j == q) || (i == q && j == p)) && counts@[i]@[j]
                                    > min_connections {
                                let (i, j): (int, int) = choose|i: int, j: int|
                                    #![auto]
                                    0 <= i < nb && 0 <= j < nb && (i < b1 || (i == b1 && j < b2
                                        + 1)) && ((i == p && j == q) || (i == q && j == p))
                                        && counts@[i]@[j] > min_connections;
                                if i < b1 || (i == b1 && j < b2) {
                                    assert(adj_to(pre_blobs, p, q));
                                    assert(false);
                                } else {
                                    assert(i == b1 && j == b2);
                                    assert(false);
                                }
                            }
                        }
                    }
                } else {
                    let m1_ref = &self.blobs[b1].content;
                    proof {
                        assert(bsa[b1 as int].content.sub_nodes@
                            == self.blobs@[b1 as int].content.sub_nodes@);
                        assert(bsa[b2 as int].content.sub_nodes@
                            == self.blobs@[b2 as int].content.sub_nodes@);
                        assert(blob_members_valid(bsa, ne as int));
                        assert forall|k: int|
                            0 <= k < self.blobs@[b1 as int].content.sub_nodes@.len() implies (
                        #[trigger] self.blobs@[b1 as int].content.sub_nodes@[k]) < ne by {
                            assert(bsa[b1 as int].content.sub_nodes@[k] < ne);
                        }
                        assert forall|k: int|
                            0 <= k < self.blobs@[b2 as int].content.sub_nodes@.len() implies (
                        #[trigger] self.blobs@[b2 as int].content.sub_nodes@[k]) < ne by {
                            assert(bsa[b2 as int].content.sub_nodes@[k] < ne);
                        }
                    }
                    Blob::disconnect_adj_elements(m1_ref, &mut self.edges, &self.blobs[b2].content);
                    proof {
                        let m1s = self.blobs@[b1 as int].content.sub_nodes@;
                        let m2s = self.blobs@[b2 as int].content.sub_nodes@;
                        assert(m1s == bsa[b1 as int].content.sub_nodes@);
                        assert(m2s == bsa[b2 as int].content.sub_nodes@);
                        assert forall|bi: int, bj: int, a: usize, b: usize|
                            0 <= bi < nb && 0 <= bj < nb && bsa[bi].content.sub_nodes@.contains(a)
                                && bsa[bj].content.sub_nodes@.contains(b) implies (adj_to(
                            self.edges@,
                            a as int,
                            b as int,
                        ) <==> (adj_to(es0, a as int, b as int) && !((bi < b1 || (bi == b1 && bj
                            < b2 + 1)) && counts@[bi]@[bj] <= min_connections) && !((bj < b1 || (bj
                            == b1 && bi < b2 + 1)) && counts@[bj]@[bi] <= min_connections))) by {
                            assert(adj_to(self.edges@, a as int, b as int) <==> (adj_to(
                                pre_edges,
                                a as int,
                                b as int,
                            ) && !(m1s.contains(a) && m2s.contains(b)) && !(m1s.contains(b)
                                && m2s.contains(a))));
                            assert(counts@[b1 as int]@[b2 as int] <= min_connections);
                            // A member belongs to exactly one blob, so the
                            // severed pair is the one being processed.
                            if bi != b1 && bsa[b1 as int].content.sub_nodes@.contains(a) {
                                assert(false);
                            }
                            if bi != b2 && bsa[b2 as int].content.sub_nodes@.contains(a) {
                                assert(false);
                            }
                            if bj != b1 && bsa[b1 as int].content.sub_nodes@.contains(b) {
                                assert(false);
                            }
                            if bj != b2 && bsa[b2 as int].content.sub_nodes@.contains(b) {
                                assert(false);
                            }
                        }
                        assert forall|a: int, b: int| #[trigger]
                            adj_to(self.edges@, a, b) implies adj_to(es0, a, b) by {
                            if 0 <= a < ne && 0 <= b < ne {
                                assert(adj_to(
                                    self.edges@,
                                    (a as usize) as int,
                                    (b as usize) as int,
                                ));
                                assert(adj_to(pre_edges, (a as usize) as int, (b as usize) as int));
                                assert(adj_to(pre_edges, a, b));
                            }
                        }
                        assert forall|p: int, q: int|
                            adj_to(self.blobs@, p, q) <==> (0 <= p < nb && 0 <= q < nb && p != q
                                && exists|i: int, j: int|
                                #![auto]
                                0 <= i < nb && 0 <= j < nb && (i < b1 || (i == b1 && j < b2 + 1))
                                    && ((i == p && j == q) || (i == q && j == p)) && counts@[i]@[j]
                                    > min_connections) by {
                            if adj_to(self.blobs@, p, q) {
                                let (i, j): (int, int) = choose|i: int, j: int|
                                    #![auto]
                                    0 <= i < nb && 0 <= j < nb && (i < b1 || (i == b1 && j < b2))
                                        && ((i == p && j == q) || (i == q && j == p))
                                        && counts@[i]@[j] > min_connections;
                                assert(0 <= i < nb && 0 <= j < nb && (i < b1 || (i == b1 && j < b2
                                    + 1)) && ((i == p && j == q) || (i == q && j == p))
                                    && counts@[i]@[j] > min_connections);
                            }
                            if !adj_to(self.blobs@, p, q) && 0 <= p < nb && 0 <= q < nb && p != q
                                && exists|i: int, j: int|
                                #![auto]
                                0 <= i < nb && 0 <= j < nb && (i < b1 || (i == b1 && j < b2 + 1))
                                    && ((i == p && j == q) || (i == q && j == p)) && counts@[i]@[j]
                                    > min_connections {
                                let (i, j): (int, int) = choose|i: int, j: int|
                                    #![auto]
                                    0 <= i < nb && 0 <= j < nb && (i < b1 || (i == b1 && j < b2
                                        + 1)) && ((i == p && j == q) || (i == q && j == p))
                                        && counts@[i]@[j] > min_connections;
                                if i < b1 || (i == b1 && j < b2) {
                                    assert(adj_to(self.blobs@, p, q));
                                    assert(false);
                                } else {
                                    assert(i == b1 && j == b2);
                                    assert(counts@[b1 as int]@[b2 as int] > min_connections);
                                    assert(false);
                                }
                            }
                        }
                    }
                }
                b2 = b2 + 1;
            }
            b1 = b1 + 1;
        }
        proof {
            // Translate the processed-pair form into the final symmetric
            // threshold form, and restore the partition facts, whose member
            // lists never changed.
            assert forall|p: int, q: int|
                #![trigger adj_to(self.blobs@, p, q)]
                adj_to(self.blobs@, p, q) <==> (0 <= p < self.blobs@.len() && 0 <= q
                    < self.blobs@.len() && p != q && (adj_pairs(
                    es0,
                    self.blobs@[p].content.sub_nodes@,
                    self.blobs@[q].content.sub_nodes@,
                ) > min_connections || adj_pairs(
                    es0,
                    self.blobs@[q].content.sub_nodes@,
                    self.blobs@[p].content.sub_nodes@,
                ) > min_connections)) by {
                if 0 <= p < nb && 0 <= q < nb {
                    assert(self.blobs@[p].content == bsa[p].content);
                    assert(self.blobs@[q].content == bsa[q].content);
                    if adj_to(self.blobs@, p, q) {
                        let (i, j): (int, int) = choose|i: int, j: int|
                            #![auto]
                            0 <= i < nb && 0 <= j < nb && (i < nb) && ((i == p && j == q) || (i == q
                                && j == p)) && counts@[i]@[j] > min_connections;
                        assert(counts@[i]@[j] == adj_pairs(
                            es0,
                            bsa[i].content.sub_nodes@,
                            bsa[j].content.sub_nodes@,
                        ));
                    }
                    if p != q && adj_pairs(
                        es0,
                        self.blobs@[p].content.sub_nodes@,
                        self.blobs@[q].content.sub_nodes@,
                    ) > min_connections {
                        assert(counts@[p]@[q] > min_connections);
                        assert(0 <= p < nb && 0 <= q < nb && (p < nb) && ((p == p && q == q) || (p
                            == q && q == p)) && counts@[p]@[q] > min_connections);
                        assert(adj_to(self.blobs@, p, q));
                    }
                    if p != q && adj_pairs(
                        es0,
                        self.blobs@[q].content.sub_nodes@,
                        self.blobs@[p].content.sub_nodes@,
                    ) > min_connections {
                        assert(counts@[q]@[p] > min_connections);
                        assert(0 <= q < nb && 0 <= p < nb && (q < nb) && ((q == p && p == q) || (q
                            == q && p == p)) && counts@[q]@[p] > min_connections);
                        assert(adj_to(self.blobs@, p, q));
                    }
                }
            }
            assert forall|b: int|
                0 <= b < self.blobs@.len() implies (#[trigger] self.blobs@[b]).id == b
                && self.blobs@[b].color == -1 && !self.blobs@[b].marked
                && !self.blobs@[b].intern_mark && self.blobs@[b].dist == 0 by {
                assert(same_but_adj(bsa[b], self.blobs@[b]));
            }
            assert forall|b: int|
                0 <= b < self.blobs@.len() implies (#[trigger] self.blobs@[b].content).sub_nodes@.len()
                >= 1 by {
                assert(same_but_adj(bsa[b], self.blobs@[b]));
                assert(bsa[b].content.sub_nodes@.len() >= 1);
            }
            assert forall|b: int, k: int|
                0 <= b < self.blobs@.len() && 0 <= k < self.blobs@[b].content.sub_nodes@.len()
                    implies reachable_within(
                es0,
                self.blobs@[b].content.sub_nodes@[0] as int,
                (#[trigger] self.blobs@[b].content.sub_nodes@[k]) as int,
                dist as nat,
            ) by {
                assert(same_but_adj(bsa[b], self.blobs@[b]));
                assert(self.blobs@[b].content == bsa[b].content);
                assert(reachable_within(
                    es0,
                    bsa[b].content.sub_nodes@[0] as int,
                    bsa[b].content.sub_nodes@[k] as int,
                    dist as nat,
                ));
            }
            assert forall|bi: int, bj: int, a: usize, b: usize|
                #![trigger self.blobs@[bi].content.sub_nodes@.contains(a), self.blobs@[bj].content.sub_nodes@.contains(b)]
                0 <= bi < self.blobs@.len() && 0 <= bj < self.blobs@.len()
                    && self.blobs@[bi].content.sub_nodes@.contains(a)
                    && self.blobs@[bj].content.sub_nodes@.contains(b) implies (adj_to(
                self.edges@,
                a as int,
                b as int,
            ) <==> (adj_to(es0, a as int, b as int) && adj_pairs(
                es0,
                self.blobs@[bi].content.sub_nodes@,
                self.blobs@[bj].content.sub_nodes@,
            ) > min_connections && adj_pairs(
                es0,
                self.blobs@[bj].content.sub_nodes@,
                self.blobs@[bi].content.sub_nodes@,
            ) > min_connections)) by {
                assert(self.blobs@[bi].content == bsa[bi].content);
                assert(self.blobs@[bj].content == bsa[bj].content);
                assert(bsa[bi].content.sub_nodes@.contains(a));
                assert(bsa[bj].content.sub_nodes@.contains(b));
                assert(counts@[bi]@[bj] == adj_pairs(
                    es0,
                    bsa[bi].content.sub_nodes@,
                    bsa[bj].content.sub_nodes@,
                ));
                assert(counts@[bj]@[bi] == adj_pairs(
                    es0,
                    bsa[bj].content.sub_nodes@,
                    bsa[bi].content.sub_nodes@,
                ));
            }
            assert(blobs_partition(self.blobs@, ne as int)) by {
                assert forall|b: int, k: int|
                    0 <= b < self.blobs@.len() && 0 <= k < self.blobs@[b].content.sub_nodes@.len()
                        implies (#[trigger] self.blobs@[b].content.sub_nodes@[k]) < ne by {
                    assert(self.blobs@[b].content == bsa[b].content);
                    assert(bsa[b].content.sub_nodes@[k] < ne);
                }
                assert forall|x: usize| x < ne implies #[trigger] in_some_blob(
                    self.blobs@,
                    x,
                ) by {
                    assert(in_some_blob(bsa, x));
                    let b = choose|b: int|
                        #![auto]
                        0 <= b < bsa.len() && bsa[b].content.sub_nodes@.contains(x);
                    assert(self.blobs@[b].content == bsa[b].content);
                    assert(0 <= b < self.blobs@.len() && self.blobs@[b].content.sub_nodes@.contains(
                        x,
                    ));
                }
                assert forall|b1: int, b2: int, x: usize|
                    0 <= b1 < b2 < self.blobs@.len() implies !((
                #[trigger] self.blobs@[b1].content.sub_nodes@.contains(x)) && (
                #[trigger] self.blobs@[b2].content.sub_nodes@.contains(x))) by {
                    assert(self.blobs@[b1].content == bsa[b1].content);
                    assert(self.blobs@[b2].content == bsa[b2].content);
                }
                assert forall|b: int|
                    0 <= b < self.blobs@.len() implies (
                #[trigger] self.blobs@[b].content.sub_nodes@).no_duplicates() by {
                    assert(self.blobs@[b].content == bsa[b].content);
                }
            }
        }
    }

    /// Color the line graph with the DSATUR heuristic and record the number
    /// of colors used. Afterwards every edge node carries a color in
    /// `[0, edge_chrom_nb)`, no two adjacent edge nodes share one, and
    /// `edge_chrom_nb` is one more than the largest color assigned.
    pub fn color_edge_graph(&mut self)
        requires
            wf(old(self).edges@),
            0 < old(self).edges@.len() <= 0x7fff_fffe,
            forall|e: int|
                0 <= e < old(self).edges@.len() ==> (#[trigger] old(self).edges@[e].color) == -1,
        ensures
            final (self).nodes@ == old(self).nodes@,
            final (self).blobs@ == old(self).blobs@,
            final (self).blob_chrom_nb == old(self).blob_chrom_nb,
            final (self).edges@.len() == old(self).edges@.len(),
            wf(final (self).edges@),
            forall|e: int|
                0 <= e < old(self).edges@.len() ==> same_but_color(
                    #[trigger] old(self).edges@[e],
                    final (self).edges@[e],
                ),
            1 <= final (self).edge_chrom_nb <= final (self).edges@.len(),
            forall|e: int|
                0 <= e < final (self).edges@.len() ==> 0 <= (
                #[trigger] final (self).edges@[e].color) < final (self).edge_chrom_nb,
            forall|e: int|
                0 <= e < final (self).edges@.len() ==> (#[trigger] final (self).edges@[e].color)
                    <= final (self).edges@[e].adj@.len(),
            exists|w: int|
                0 <= w < final (self).edges@.len() && final (self).edges@[w].color == final (
                self).edge_chrom_nb - 1,
            forall|a: int, b: int|
                #[trigger] adj_to(final (self).edges@, a, b) ==> final (self).edges@[a].color
                    != final (self).edges@[b].color,
            forall|a: int, cc: int|
                0 <= a < final (self).edges@.len() && 0 <= cc < final (self).edges@[a].color
                    ==> uses_color(final (self).edges@, a, cc),
    {
        let c = Node::color_graph(&mut self.edges);
        self.edge_chrom_nb = c;
        proof {
            let w = choose|w: int| 0 <= w < self.edges@.len() && self.edges@[w].color == c - 1;
            assert(0 <= w < self.edges@.len() && self.edges@[w].color == self.edge_chrom_nb - 1);
        }
    }

    /// Color the blob graph with the DSATUR heuristic, record the number of
    /// colors used, and propagate each blob's color to its member edges.
    /// The blobs must partition the edge set, so every edge receives exactly
    /// the color of its one blob.
    pub fn color_blob_graph(&mut self)
        requires
            wf(old(self).blobs@),
            0 < old(self).blobs@.len() <= 0x7fff_fffe,
            forall|b: int|
                0 <= b < old(self).blobs@.len() ==> (#[trigger] old(self).blobs@[b].color) == -1,
            blobs_partition(old(self).blobs@, old(self).edges@.len() as int),
        ensures
            final (self).nodes@ == old(self).nodes@,
            final (self).edge_chrom_nb == old(self).edge_chrom_nb,
            final (self).blobs@.len() == old(self).blobs@.len(),
            wf(final (self).blobs@),
            forall|b: int|
                0 <= b < old(self).blobs@.len() ==> same_but_color(
                    #[trigger] old(self).blobs@[b],
                    final (self).blobs@[b],
                ),
            1 <= final (self).blob_chrom_nb <= final (self).blobs@.len(),
            forall|b: int|
                0 <= b < final (self).blobs@.len() ==> 0 <= (
                #[trigger] final (self).blobs@[b].color) < final (self).blob_chrom_nb,
            forall|b: int|
                0 <= b < final (self).blobs@.len() ==> (#[trigger] final (self).blobs@[b].color)
                    <= final (self).blobs@[b].adj@.len(),
            exists|w: int|
                0 <= w < final (self).blobs@.len() && final (self).blobs@[w].color == final (
                self).blob_chrom_nb - 1,
            forall|p: int, q: int|
                #[trigger] adj_to(final (self).blobs@, p, q) ==> final (self).blobs@[p].color
                    != final (self).blobs@[q].color,
            blobs_partition(final (self).blobs@, old(self).edges@.len() as int),
            final (self).edges@.len() == old(self).edges@.len(),
            forall|e: int|
                0 <= e < old(self).edges@.len() ==> same_but_color(
                    #[trigger] old(self).edges@[e],
                    final (self).edges@[e],
                ),
            forall|b: int, k: int|
                0 <= b < final (self).blobs@.len() && 0 <= k < final (
                self).blobs@[b].content.sub_nodes@.len() ==> final (self).edges@[(#[trigger] final (
                self).blobs@[b].content.sub_nodes@[k]) as int].color == final (
                self).blobs@[b].color,
            forall|e: int|
                0 <= e < final (self).edges@.len() ==> 0 <= (
                #[trigger] final (self).edges@[e].color) < final (self).blob_chrom_nb,
    {
        let ghost es0 = self.edges@;
        let c = Node::color_graph(&mut self.blobs);
        self.blob_chrom_nb = c;
        let ghost bs1 = self.blobs@;
        let ne = self.edges.len();
        let nb = self.blobs.len();
        proof {
            assert(blobs_partition(bs1, ne as int)) by {
                assert forall|b: int, k: int|
                    0 <= b < bs1.len() && 0 <= k < bs1[b].content.sub_nodes@.len() implies (
                #[trigger] bs1[b].content.sub_nodes@[k]) < ne by {
                    assert(same_but_color(old(self).blobs@[b], bs1[b]));
                    assert(old(self).blobs@[b].content.sub_nodes@[k] < ne);
                }
                assert forall|x: usize| x < ne implies #[trigger] in_some_blob(bs1, x) by {
                    assert(in_some_blob(old(self).blobs@, x));
                    let b = choose|b: int|
                        #![auto]
                        0 <= b < old(self).blobs@.len() && old(
                            self,
                        ).blobs@[b].content.sub_nodes@.contains(x);
                    assert(same_but_color(old(self).blobs@[b], bs1[b]));
                    assert(0 <= b < bs1.len() && bs1[b].content.sub_nodes@.contains(x));
                }
                assert forall|p: int, q: int, x: usize|
                    0 <= p < q < bs1.len() implies !((
                #[trigger] bs1[p].content.sub_nodes@.contains(x)) && (
                #[trigger] bs1[q].content.sub_nodes@.contains(x))) by {
                    assert(same_but_color(old(self).blobs@[p], bs1[p]));
                    assert(same_but_color(old(self).blobs@[q], bs1[q]));
                }
                assert forall|b: int|
                    0 <= b < bs1.len() implies (
                #[trigger] bs1[b].content.sub_nodes@).no_duplicates() by {
                    assert(same_but_color(old(self).blobs@[b], bs1[b]));
                }
            }
        }
        let mut b: usize = 0;
        while b < nb
            invariant
                nb == bs1.len(),
                self.blobs@ == bs1,
                self.nodes@ == old(self).nodes@,
                self.edge_chrom_nb == old(self).edge_chrom_nb,
                self.blob_chrom_nb == c,
                b <= nb,
                ne == es0.len(),
                self.edges@.len() == ne,
                blobs_partition(bs1, ne as int),
                forall|bb: int| 0 <= bb < nb ==> 0 <= (#[trigger] bs1[bb].color),
                forall|e: int|
                    0 <= e < ne ==> same_but_color(#[trigger] es0[e], self.edges@[e]),
                forall|bb: int, k: int|
                    0 <= bb < b && 0 <= k < bs1[bb].content.sub_nodes@.len() ==> self.edges@[(
                    #[trigger] bs1[bb].content.sub_nodes@[k]) as int].color == bs1[bb].color,
            decreases nb - b,
        {
            let nm = self.blobs[b].content.sub_nodes.len();
            let col = self.blobs[b].color;
            let mut k: usize = 0;
            while k < nm
                invariant
                    nb == bs1.len(),
                    self.blobs@ == bs1,
                    self.nodes@ == old(self).nodes@,
                    self.edge_chrom_nb == old(self).edge_chrom_nb,
                    self.blob_chrom_nb == c,
                    b < nb,
                    nm == bs1[b as int].content.sub_nodes@.len(),
                    col == bs1[b as int].color,
                    k <= nm,
                    ne == es0.len(),
                    self.edges@.len() == ne,
                    blobs_partition(bs1, ne as int),
                    forall|e: int|
                        0 <= e < ne ==> same_but_color(#[trigger] es0[e], self.edges@[e]),
                    forall|bb: int, kk: int|
                        0 <= bb < b && 0 <= kk < bs1[bb].content.sub_nodes@.len() ==> self.edges@[(
                        #[trigger] bs1[bb].content.sub_nodes@[kk]) as int].color == bs1[bb].color,
                    forall|kk: int|
                        0 <= kk < k ==> self.edges@[(#[trigger] bs1[b as int].content.sub_nodes@[kk]) as int].color
                            == col,
                decreases nm - k,
            {
                let eid = self.blobs[b].content.sub_nodes[k];
                proof {
                    assert(bs1[b as int].content.sub_nodes@[k as int] < ne);
                }
                let ghost pre = self.edges@;
                let mut en = self.edges.remove(eid);
                en.color = col;
                self.edges.insert(eid, en);
                proof {
                    assert(self.edges@ =~= pre.update(eid as int, self.edges@[eid as int]));
                    assert(bs1[b as int].content.sub_nodes@.contains(eid));
                    assert forall|bb: int, kk: int|
                        0 <= bb < b && 0 <= kk < bs1[bb].content.sub_nodes@.len()
                            implies self.edges@[(#[trigger] bs1[bb].content.sub_nodes@[kk]) as int].color
                        == bs1[bb].color by {
                        let x = bs1[bb].content.sub_nodes@[kk];
                        if x == eid {
                            assert(bs1[bb].content.sub_nodes@.contains(x));
                            assert(bs1[b as int].content.sub_nodes@.contains(x));
                            assert(false);
                        } else {
                            assert(self.edges@[x as int] == pre[x as int]);
                        }
                    }
                    assert forall|kk: int|
                        0 <= kk < k + 1 implies self.edges@[(
                    #[trigger] bs1[b as int].content.sub_nodes@[kk]) as int].color == col by {
                        let x = bs1[b as int].content.sub_nodes@[kk];
                        if kk < k {
                            if x == eid {
                                assert(bs1[b as int].content.sub_nodes@.no_duplicates());
                                assert(false);
                            }
                            assert(self.edges@[x as int] == pre[x as int]);
                        }
                    }
                }
                k = k + 1;
            }
            b = b + 1;
        }
        proof {
            assert forall|e: int|
                0 <= e < ne implies 0 <= (#[trigger] self.edges@[e].color) < c by {
                assert(in_some_blob(bs1, e as usize));
                let bb = choose|bb: int|
                    #![auto]
                    0 <= bb < bs1.len() && bs1[bb].content.sub_nodes@.contains(e as usize);
                let kk = choose|kk: int|
                    0 <= kk < bs1[bb].content.sub_nodes@.len() && bs1[bb].content.sub_nodes@[kk]
                        == (e as usize);
                assert(self.edges@[(bs1[bb].content.sub_nodes@[kk]) as int].color
                    == bs1[bb].color);
            }
        }
    }

    /// Group the edges by color, in id order within each class. Requires a
    /// completed coloring pass: every edge's color must lie in
    /// `[0, edge_chrom_nb)`.
    pub fn export_edges(&self) -> (r: Vec<Vec<Edge>>)
        requires
            self.edge_chrom_nb >= 0,
            forall|e: int|
                0 <= e < self.edges@.len() ==> 0 <= (#[trigger] self.edges@[e].color)
                    < self.edge_chrom_nb,
        ensures
            r@.len() == self.edge_chrom_nb,
            forall|c: int|
                0 <= c < r@.len() ==> (#[trigger] r@[c]@) == edges_with_color(
                    self.edges@,
                    c,
                    self.edges@.len() as int,
                ),
    {
        let chrom = self.edge_chrom_nb as usize;
        let mut r: Vec<Vec<Edge>> = Vec::new();
        let mut c: usize = 0;
        while c < chrom
            invariant
                c <= chrom,
                r@.len() == c,
                forall|cc: int| 0 <= cc < c ==> (#[trigger] r@[cc]@).len() == 0,
            decreases chrom - c,
        {
            r.push(Vec::new());
            c = c + 1;
        }
        let ne = self.edges.len();
        let mut e: usize = 0;
        while e < ne
            invariant
                ne == self.edges@.len(),
                e <= ne,
                chrom == self.edge_chrom_nb,
                r@.len() == chrom,
                forall|ee: int|
                    0 <= ee < ne ==> 0 <= (#[trigger] self.edges@[ee].color) < chrom,
                forall|cc: int|
                    0 <= cc < chrom ==> (#[trigger] r@[cc]@) == edges_with_color(
                        self.edges@,
                        cc,
                        e as int,
                    ),
            decreases ne - e,
        {
            let col = self.edges[e].color;
            proof {
                assert(0 <= col < chrom);
            }
            let ghost pre = r@;
            let mut group = r.remove(col as usize);
            group.push(self.edges[e].content);
            r.insert(col as usize, group);
            proof {
                assert(r@ =~= pre.update(col as int, r@[col as int]));
                assert forall|cc: int| 0 <= cc < chrom implies (#[trigger] r@[cc]@)
                    == edges_with_color(self.edges@, cc, e + 1) by {
                    if cc == col {
                        assert(r@[cc]@ == pre[cc]@.push(self.edges@[e as int].content));
                    } else {
                        assert(r@[cc]@ == pre[cc]@);
                    }
                }
            }
            e = e + 1;
        }
        r
    }

    /// Group the blobs by color, in id order within each class, each blob
    /// flattened to the batch of its member edges. Requires a completed blob
    /// coloring pass.
    pub fn export_batches(&self) -> (r: Vec<ColorGroup>)
        requires
            self.blob_chrom_nb >= 0,
            forall|b: int|
                0 <= b < self.blobs@.len() ==> 0 <= (#[trigger] self.blobs@[b].color)
                    < self.blob_chrom_nb,
            blob_members_valid(self.blobs@, self.edges@.len() as int),
        ensures
            r@.len() == self.blob_chrom_nb,
            forall|c: int|
                0 <= c < r@.len() ==> (#[trigger] r@[c].batches@).len() == edges_with_color(
                    self.blobs@,
                    c,
                    self.blobs@.len() as int,
                ).len(),
            forall|c: int, k: int|
                0 <= c < r@.len() && 0 <= k < r@[c].batches@.len() ==> (
                #[trigger] r@[c].batches@[k].edges@) == batch_contents(
                    self.edges@,
                    edges_with_color(self.blobs@, c, self.blobs@.len() as int)[k].sub_nodes@,
                ),
    {
        let chrom = self.blob_chrom_nb as usize;
        let mut r: Vec<ColorGroup> = Vec::new();
        let mut c: usize = 0;
        while c < chrom
            invariant
                c <= chrom,
                r@.len() == c,
                forall|cc: int| 0 <= cc < c ==> (#[trigger] r@[cc].batches@).len() == 0,
            decreases chrom - c,
        {
            r.push(ColorGroup::new());
            c = c + 1;
        }
        let nb = self.blobs.len();
        let mut b: usize = 0;
        while b < nb
            invariant
                nb == self.blobs@.len(),
                b <= nb,
                chrom == self.blob_chrom_nb,
                r@.len() == chrom,
                blob_members_valid(self.blobs@, self.edges@.len() as int),
                forall|bb: int|
                    0 <= bb < nb ==> 0 <= (#[trigger] self.blobs@[bb].color) < chrom,
                forall|cc: int|
                    0 <= cc < chrom ==> (#[trigger] r@[cc].batches@).len() == edges_with_color(
                        self.blobs@,
                        cc,
                        b as int,
                    ).len(),
                forall|cc: int, k: int|
                    0 <= cc < chrom && 0 <= k < r@[cc].batches@.len() ==> (
                    #[trigger] r@[cc].batches@[k].edges@) == batch_contents(
                        self.edges@,
                        edges_with_color(self.blobs@, cc, b as int)[k].sub_nodes@,
                    ),
            decreases nb - b,
        {
            let col = self.blobs[b].color;
            proof {
                assert(0 <= col < chrom);
                assert forall|k: int|
                    0 <= k < self.blobs@[b as int].content.sub_nodes@.len() implies (
                #[trigger] self.blobs@[b as int].content.sub_nodes@[k]) < self.edges@.len() by {}
            }
            let batch = Batch::new(&self.edges, &self.blobs[b].content.sub_nodes);
            let ghost pre = r@;
            let mut group = r.remove(col as usize);
            group.batches.push(batch);
            r.insert(col as usize, group);
            proof {
                assert(r@ =~= pre.update(col as int, r@[col as int]));
                assert forall|cc: int|
                    0 <= cc < chrom implies (#[trigger] r@[cc].batches@).len()
                    == edges_with_color(self.blobs@, cc, b + 1).len() by {
                    if cc == col {
                        assert(r@[cc].batches@ == pre[cc].batches@.push(batch));
                    } else {
                        assert(r@[cc].batches@ == pre[cc].batches@);
                    }
                }
                assert forall|cc: int, k: int|
                    0 <= cc < chrom && 0 <= k < r@[cc].batches@.len() implies (
                #[trigger] r@[cc].batches@[k].edges@) == batch_contents(
                    self.edges@,
                    edges_with_color(self.blobs@, cc, b + 1)[k].sub_nodes@,
                ) by {
                    if cc == col {
                        assert(r@[cc].batches@ == pre[cc].batches@.push(batch));
                        if k < pre[cc].batches@.len() {
                            assert(r@[cc].batches@[k] == pre[cc].batches@[k]);
                            assert(edges_with_color(self.blobs@, cc, b + 1)[k]
                                == edges_with_color(self.blobs@, cc, b as int)[k]);
                        } else {
                            assert(r@[cc].batches@[k] == batch);
                            assert(edges_with_color(self.blobs@, cc, b + 1)[k]
                                == self.blobs@[b as int].content);
                        }
                    } else {
                        assert(r@[cc].batches@ == pre[cc].batches@);
                    }
                }
            }
            b = b + 1;
        }
        r
    }

    /// Flatten the line graph into plain endpoint index pairs, one entry per
    /// edge node, in id order. The caller pairs these indices with whatever
    /// per-vertex data it holds (positions, masses).
    pub fn export(&self) -> (r: (Vec<i32>, Vec<i32>))
        requires
            forall|e: int|
                0 <= e < self.edges@.len() ==> (#[trigger] self.edges@[e].content).node_1
                    < 0x8000_0000 && self.edges@[e].content.node_2 < 0x8000_0000,
        ensures
            r.0@.len() == self.edges@.len(),
            r.1@.len() == self.edges@.len(),
            forall|e: int|
                0 <= e < self.edges@.len() ==> (#[trigger] r.0@[e]) == self.edges@[e].content.node_1 as i32
                    && r.1@[e] == self.edges@[e].content.node_2 as i32 && r.0@[e]
                    == self.edges@[e].content.node_1 && r.1@[e] == self.edges@[e].content.node_2,
    {
        let ne = self.edges.len();
        let mut ids1: Vec<i32> = Vec::new();
        let mut ids2: Vec<i32> = Vec::new();
        let mut e: usize = 0;
        while e < ne
            invariant
                ne == self.edges@.len(),
                e <= ne,
                ids1@.len() == e,
                ids2@.len() == e,
                forall|ee: int|
                    0 <= ee < ne ==> (#[trigger] self.edges@[ee].content).node_1 < 0x8000_0000
                        && self.edges@[ee].content.node_2 < 0x8000_0000,
                forall|ee: int|
                    0 <= ee < e ==> (#[trigger] ids1@[ee]) == self.edges@[ee].content.node_1 as i32,
                forall|ee: int|
                    0 <= ee < e ==> (#[trigger] ids2@[ee]) == self.edges@[ee].content.node_2 as i32,
            decreases ne - e,
        {
            proof {
                assert(self.edges@[e as int].content.node_1 < 0x8000_0000);
                assert(self.edges@[e as int].content.node_2 < 0x8000_0000);
            }
            let ghost p1 = ids1@;
            let ghost p2 = ids2@;
            ids1.push(self.edges[e].content.node_1 as i32);
            ids2.push(self.edges[e].content.node_2 as i32);
            proof {
                assert forall|ee: int|
                    0 <= ee < e + 1 implies (#[trigger] ids1@[ee])
                    == self.edges@[ee].content.node_1 as i32 by {
                    if ee < e {
                        assert(ids1@[ee] == p1[ee]);
                    } else {
                        assert(ids1@[ee] == self.edges@[e as int].content.node_1 as i32);
                    }
                }
                assert forall|ee: int|
                    0 <= ee < e + 1 implies (#[trigger] ids2@[ee])
                    == self.edges@[ee].content.node_2 as i32 by {
                    if ee < e {
                        assert(ids2@[ee] == p2[ee]);
                    } else {
                        assert(ids2@[ee] == self.edges@[e as int].content.node_2 as i32);
                    }
                }
            }
            e = e + 1;
        }
        (ids1, ids2)
    }

    /// Clear the persistent mark of every node, edge and blob.
    pub fn unmark(&mut self)
        ensures
            final (self).nodes@.len() == old(self).nodes@.len(),
            final (self).edges@.len() == old(self).edges@.len(),
            final (self).blobs@.len() == old(self).blobs@.len(),
            forall|k: int|
                0 <= k < old(self).nodes@.len() ==> !(#[trigger] final (self).nodes@[k]).marked
                    && final (self).nodes@[k].id == old(self).nodes@[k].id && final (
                self).nodes@[k].color == old(self).nodes@[k].color && final (
                self).nodes@[k].intern_mark == old(self).nodes@[k].intern_mark && final (
                self).nodes@[k].dist == old(self).nodes@[k].dist && final (self).nodes@[k].adj@
                    == old(self).nodes@[k].adj@ && final (self).nodes@[k].content == old(
                    self,
                ).nodes@[k].content,
            forall|k: int|
                0 <= k < old(self).edges@.len() ==> !(#[trigger] final (self).edges@[k]).marked
                    && final (self).edges@[k].id == old(self).edges@[k].id && final (
                self).edges@[k].color == old(self).edges@[k].color && final (
                self).edges@[k].intern_mark == old(self).edges@[k].intern_mark && final (
                self).edges@[k].dist == old(self).edges@[k].dist && final (self).edges@[k].adj@
                    == old(self).edges@[k].adj@ && final (self).edges@[k].content == old(
                    self,
                ).edges@[k].content,
            forall|k: int|
                0 <= k < old(self).blobs@.len() ==> !(#[trigger] final (self).blobs@[k]).marked
                    && final (self).blobs@[k].id == old(self).blobs@[k].id && final (
                self).blobs@[k].color == old(self).blobs@[k].color && final (
                self).blobs@[k].intern_mark == old(self).blobs@[k].intern_mark && final (
                self).blobs@[k].dist == old(self).blobs@[k].dist && final (self).blobs@[k].adj@
                    == old(self).blobs@[k].adj@ && final (self).blobs@[k].content == old(
                    self,
                ).blobs@[k].content,
            final (self).blob_chrom_nb == old(self).blob_chrom_nb,
            final (self).edge_chrom_nb == old(self).edge_chrom_nb,
    {
        unmark_all(&mut self.nodes);
        unmark_all(&mut self.edges);
        unmark_all(&mut self.blobs);
    }

    /// Clear the transient mark of every node, edge and blob.
    pub fn intern_unmark(&mut self)
        ensures
            final (self).nodes@.len() == old(self).nodes@.len(),
            final (self).edges@.len() == old(self).edges@.len(),
            final (self).blobs@.len() == old(self).blobs@.len(),
            forall|k: int|
                0 <= k < old(self).nodes@.len() ==> !(#[trigger] final (
                self).nodes@[k]).intern_mark && final (self).nodes@[k].id == old(
                    self,
                ).nodes@[k].id && final (self).nodes@[k].color == old(self).nodes@[k].color
                    && final (self).nodes@[k].marked == old(self).nodes@[k].marked && final (
                self).nodes@[k].dist == old(self).nodes@[k].dist && final (self).nodes@[k].adj@
                    == old(self).nodes@[k].adj@ && final (self).nodes@[k].content == old(
                    self,
                ).nodes@[k].content,
            forall|k: int|
                0 <= k < old(self).edges@.len() ==> !(#[trigger] final (
                self).edges@[k]).intern_mark && final (self).edges@[k].id == old(
                    self,
                ).edges@[k].id && final (self).edges@[k].color == old(self).edges@[k].color
                    && final (self).edges@[k].marked == old(self).edges@[k].marked && final (
                self).edges@[k].dist == old(self).edges@[k].dist && final (self).edges@[k].adj@
                    == old(self).edges@[k].adj@ && final (self).edges@[k].content == old(
                    self,
                ).edges@[k].content,
            forall|k: int|
                0 <= k < old(self).blobs@.len() ==> !(#[trigger] final (
                self).blobs@[k]).intern_mark && final (self).blobs@[k].id == old(
                    self,
                ).blobs@[k].id && final (self).blobs@[k].color == old(self).blobs@[k].color
                    && final (self).blobs@[k].marked == old(self).blobs@[k].marked && final (
                self).blobs@[k].dist == old(self).blobs@[k].dist && final (self).blobs@[k].adj@
                    == old(self).blobs@[k].adj@ && final (self).blobs@[k].content == old(
                    self,
                ).blobs@[k].content,
            final (self).blob_chrom_nb == old(self).blob_chrom_nb,
            final (self).edge_chrom_nb == old(self).edge_chrom_nb,
    {
        intern_unmark_all(&mut self.nodes);
        intern_unmark_all(&mut self.edges);
        intern_unmark_all(&mut self.blobs);
    }

    /// Reset every vertex node's scratch distance and clear every edge
    /// node's persistent mark, as a traversal pass expects to find them.
    pub fn reset_dists(&mut self)
        ensures
            final (self).nodes@.len() == old(self).nodes@.len(),
            final (self).edges@.len() == old(self).edges@.len(),
            final (self).blobs@ == old(self).blobs@,
            forall|k: int|
                0 <= k < old(self).nodes@.len() ==> (#[trigger] final (self).nodes@[k]).dist == 0
                    && final (self).nodes@[k].id == old(self).nodes@[k].id && final (
                self).nodes@[k].color == old(self).nodes@[k].color && final (
                self).nodes@[k].marked == old(self).nodes@[k].marked && final (
                self).nodes@[k].intern_mark == old(self).nodes@[k].intern_mark && final (
                self).nodes@[k].adj@ == old(self).nodes@[k].adj@ && final (self).nodes@[k].content
                    == old(self).nodes@[k].content,
            forall|k: int|
                0 <= k < old(self).edges@.len() ==> !(#[trigger] final (self).edges@[k]).marked
                    && final (self).edges@[k].id == old(self).edges@[k].id && final (
                self).edges@[k].color == old(self).edges@[k].color && final (
                self).edges@[k].intern_mark == old(self).edges@[k].intern_mark && final (
                self).edges@[k].dist == old(self).edges@[k].dist && final (self).edges@[k].adj@
                    == old(self).edges@[k].adj@ && final (self).edges@[k].content == old(
                    self,
                ).edges@[k].content,
            final (self).blob_chrom_nb == old(self).blob_chrom_nb,
            final (self).edge_chrom_nb == old(self).edge_chrom_nb,
    {
        reset_dists_all(&mut self.nodes);
        unmark_all(&mut self.edges);
    }
}

} // verus!
