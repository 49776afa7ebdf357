//! Flattening of a colored graph into the parallel-dispatch arrays a
//! constraint solver consumes: endpoint id pairs in color order, per-color
//! offsets and batch counts, and per-batch offsets and sizes.

use vstd::prelude::*;

use crate::edge::Edge;
use crate::graph::{batch_contents, color_ordered_edges, edges_with_color, Blob, Graph};
use crate::node::Node;

verus! {

/// The member edges of the blobs of color `c` among the first `hi` blobs, in
/// blob id order, each blob's members in list order.
pub open spec fn class_batch_edges(
    bs: Seq<Node<Blob>>,
    es: Seq<Node<Edge>>,
    c: int,
    hi: int,
) -> Seq<Edge>
    decreases hi,
{
    if hi <= 0 || hi > bs.len() {
        Seq::empty()
    } else if bs[hi - 1].color == c {
        class_batch_edges(bs, es, c, hi - 1) + batch_contents(es, bs[hi - 1].content.sub_nodes@)
    } else {
        class_batch_edges(bs, es, c, hi - 1)
    }
}

/// All member edges in blob color order (colors below `c_hi`): the dispatch
/// order of the blob (batched) path.
pub open spec fn blob_ordered_edges(bs: Seq<Node<Blob>>, es: Seq<Node<Edge>>, c_hi: int) -> Seq<
    Edge,
>
    decreases c_hi,
{
    if c_hi <= 0 {
        Seq::empty()
    } else {
        blob_ordered_edges(bs, es, c_hi - 1) + class_batch_edges(bs, es, c_hi - 1, bs.len() as int)
    }
}

/// Total member count of the first `hi` blobs in the list.
pub open spec fn members_total(cls: Seq<Blob>, hi: int) -> nat
    decreases hi,
{
    if hi <= 0 || hi > cls.len() {
        0
    } else {
        members_total(cls, hi - 1) + cls[hi - 1].sub_nodes@.len()
    }
}

/// Member count of the blobs of color `c` among the first `hi`.
spec fn wsum_class(bs: Seq<Node<Blob>>, c: int, hi: int) -> nat
    decreases hi,
{
    if hi <= 0 || hi > bs.len() {
        0
    } else {
        wsum_class(bs, c, hi - 1) + if bs[hi - 1].color == c {
            bs[hi - 1].content.sub_nodes@.len()
        } else {
            0
        }
    }
}

/// Member count of the blobs with color in `[0, c_hi)` among the first `hi`.
spec fn wsum_lt(bs: Seq<Node<Blob>>, c_hi: int, hi: int) -> nat
    decreases hi,
{
    if hi <= 0 || hi > bs.len() {
        0
    } else {
        wsum_lt(bs, c_hi, hi - 1) + if 0 <= bs[hi - 1].color < c_hi {
            bs[hi - 1].content.sub_nodes@.len()
        } else {
            0
        }
    }
}

/// Member count of the first `hi` blobs.
spec fn wsum_all(bs: Seq<Node<Blob>>, hi: int) -> nat
    decreases hi,
{
    if hi <= 0 || hi > bs.len() {
        0
    } else {
        wsum_all(bs, hi - 1) + bs[hi - 1].content.sub_nodes@.len()
    }
}

/// All blob members in blob id order, concatenated.
spec fn all_members(bs: Seq<Node<Blob>>, hi: int) -> Seq<usize>
    decreases hi,
{
    if hi <= 0 || hi > bs.len() {
        Seq::empty()
    } else {
        all_members(bs, hi - 1) + bs[hi - 1].content.sub_nodes@
    }
}

proof fn lemma_class_len(bs: Seq<Node<Blob>>, es: Seq<Node<Edge>>, c: int, hi: int)
    ensures
        class_batch_edges(bs, es, c, hi).len() == wsum_class(bs, c, hi),
    decreases hi,
{
    if hi > 0 && hi <= bs.len() {
        lemma_class_len(bs, es, c, hi - 1);
    }
}

proof fn lemma_wsum_split(bs: Seq<Node<Blob>>, c_hi: int, hi: int)
    requires
        c_hi >= 0,
    ensures
        wsum_lt(bs, c_hi + 1, hi) == wsum_lt(bs, c_hi, hi) + wsum_class(bs, c_hi, hi),
    decreases hi,
{
    if hi > 0 && hi <= bs.len() {
        lemma_wsum_split(bs, c_hi, hi - 1);
    }
}

proof fn lemma_wsum_class_mono(bs: Seq<Node<Blob>>, c: int, h1: int, h2: int)
    requires
        h1 <= h2,
        h2 <= bs.len(),
    ensures
        wsum_class(bs, c, h1) <= wsum_class(bs, c, h2),
    decreases h2 - h1,
{
    if h1 < h2 {
        lemma_wsum_class_mono(bs, c, h1, h2 - 1);
    }
}

proof fn lemma_wsum_lt_zero(bs: Seq<Node<Blob>>, hi: int)
    ensures
        wsum_lt(bs, 0, hi) == 0,
    decreases hi,
{
    if hi > 0 && hi <= bs.len() {
        lemma_wsum_lt_zero(bs, hi - 1);
    }
}

proof fn lemma_ordered_is_wsum(bs: Seq<Node<Blob>>, es: Seq<Node<Edge>>, c_hi: int)
    requires
        c_hi >= 0,
    ensures
        blob_ordered_edges(bs, es, c_hi).len() == wsum_lt(bs, c_hi, bs.len() as int),
    decreases c_hi,
{
    if c_hi > 0 {
        lemma_ordered_is_wsum(bs, es, c_hi - 1);
        lemma_class_len(bs, es, c_hi - 1, bs.len() as int);
        lemma_wsum_split(bs, c_hi - 1, bs.len() as int);
    } else {
        lemma_wsum_lt_zero(bs, bs.len() as int);
    }
}

proof fn lemma_wsum_lt_le_all(bs: Seq<Node<Blob>>, c_hi: int, hi: int)
    ensures
        wsum_lt(bs, c_hi, hi) <= wsum_all(bs, hi),
    decreases hi,
{
    if hi > 0 && hi <= bs.len() {
        lemma_wsum_lt_le_all(bs, c_hi, hi - 1);
    }
}

proof fn lemma_all_members_facts(bs: Seq<Node<Blob>>, ne: int, hi: int)
    requires
        crate::graph::blob_members_valid(bs, ne),
        crate::graph::blob_disjoint(bs),
        crate::graph::blob_members_dedup(bs),
        0 <= hi <= bs.len(),
    ensures
        all_members(bs, hi).len() == wsum_all(bs, hi),
        all_members(bs, hi).no_duplicates(),
        forall|m: int|
            0 <= m < all_members(bs, hi).len() ==> (#[trigger] all_members(bs, hi)[m]) < ne,
        forall|x: usize|
            #[trigger] all_members(bs, hi).contains(x) ==> exists|b: int|
                #![auto]
                0 <= b < hi && bs[b].content.sub_nodes@.contains(x),
        forall|b: int, x: usize|
            0 <= b < hi && #[trigger] bs[b].content.sub_nodes@.contains(x) ==> all_members(
                bs,
                hi,
            ).contains(x),
    decreases hi,
{
    if hi > 0 {
        lemma_all_members_facts(bs, ne, hi - 1);
        let a = all_members(bs, hi - 1);
        let b = bs[hi - 1].content.sub_nodes@;
        assert forall|i: int, j: int|
            0 <= i < a.len() && 0 <= j < b.len() implies a[i] != b[j] by {
            if a[i] == b[j] {
                assert(a.contains(a[i]));
                let bb = choose|bb: int|
                    #![auto]
                    0 <= bb < hi - 1 && bs[bb].content.sub_nodes@.contains(a[i]);
                assert(bs[hi - 1].content.sub_nodes@.contains(a[i]));
            }
        }
        vstd::seq_lib::lemma_no_dup_in_concat(a, b);
        assert forall|x: usize|
            #[trigger] all_members(bs, hi).contains(x) implies exists|b0: int|
            #![auto]
            0 <= b0 < hi && bs[b0].content.sub_nodes@.contains(x) by {
            let m = choose|m: int| 0 <= m < all_members(bs, hi).len() && all_members(bs, hi)[m]
                == x;
            if m < a.len() {
                assert(a[m] == x);
                assert(a.contains(x));
            } else {
                assert(b[m - a.len()] == x);
                assert(bs[hi - 1].content.sub_nodes@.contains(x));
            }
        }
        assert forall|m: int|
            0 <= m < all_members(bs, hi).len() implies (#[trigger] all_members(bs, hi)[m])
            < ne by {
            if m < a.len() {
                assert(all_members(bs, hi)[m] == a[m]);
            } else {
                assert(all_members(bs, hi)[m] == b[m - a.len()]);
            }
        }
        assert forall|b0: int, x: usize|
            0 <= b0 < hi && #[trigger] bs[b0].content.sub_nodes@.contains(x) implies all_members(
                bs,
                hi,
            ).contains(x) by {
            if b0 < hi - 1 {
                assert(a.contains(x));
                let m = choose|m: int| 0 <= m < a.len() && a[m] == x;
                assert(all_members(bs, hi)[m] == x);
            } else {
                let m = choose|m: int| 0 <= m < b.len() && b[m] == x;
                assert(all_members(bs, hi)[a.len() + m] == x);
            }
        }
    }
}

proof fn lemma_wsum_lt_full(bs: Seq<Node<Blob>>, c_hi: int, hi: int)
    requires
        forall|b: int| 0 <= b < bs.len() ==> 0 <= (#[trigger] bs[b].color) < c_hi,
        hi <= bs.len(),
    ensures
        wsum_lt(bs, c_hi, hi) == wsum_all(bs, hi),
    decreases hi,
{
    if hi > 0 {
        lemma_wsum_lt_full(bs, c_hi, hi - 1);
    }
}

/// Partition completeness for the batched path: with the blobs partitioning
/// the edge set and every blob colored below `chrom`, the flattened
/// dispatch list over all colors has exactly one entry per edge.
pub proof fn lemma_blob_batches_cover(
    bs: Seq<Node<Blob>>,
    es: Seq<Node<Edge>>,
    ne: int,
    chrom: int,
)
    requires
        crate::graph::blobs_partition(bs, ne),
        forall|b: int| 0 <= b < bs.len() ==> 0 <= (#[trigger] bs[b].color) < chrom,
        0 <= ne <= usize::MAX,
        chrom >= 0,
    ensures
        blob_ordered_edges(bs, es, chrom).len() == ne,
{
    lemma_ordered_is_wsum(bs, es, chrom);
    lemma_wsum_lt_full(bs, chrom, bs.len() as int);
    lemma_all_members_facts(bs, ne, bs.len() as int);
    let msec = all_members(bs, bs.len() as int);
    crate::node::lemma_distinct_bounded_len(msec, ne as nat);
    // Lower bound: every edge index occurs among the members, so the
    // distinct member list is at least as long as the edge range.
    let t = msec.map_values(|x: usize| x as int);
    assert(t.len() == msec.len());
    t.unique_seq_to_set();
    assert(t.no_duplicates()) by {
        assert forall|k1: int, k2: int|
            0 <= k1 < t.len() && 0 <= k2 < t.len() && k1 != k2 implies t[k1] != t[k2] by {
            assert(t[k1] == msec[k1] as int);
            assert(t[k2] == msec[k2] as int);
        }
    }
    t.unique_seq_to_set();
    assert(vstd::set_lib::set_int_range(0, ne).subset_of(t.to_set())) by {
        assert forall|i: int|
            vstd::set_lib::set_int_range(0, ne).contains(i) implies t.to_set().contains(i) by {
            let x = i as usize;
            assert(crate::graph::in_some_blob(bs, x));
            let b = choose|b: int|
                #![auto]
                0 <= b < bs.len() && bs[b].content.sub_nodes@.contains(x);
            assert(msec.contains(x));
            let m = choose|m: int| 0 <= m < msec.len() && msec[m] == x;
            assert(t[m] == msec[m] as int);
            assert(t[m] == i);
            assert(t.contains(i));
        }
    }
    vstd::set_lib::lemma_int_range(0, ne);
    vstd::set_lib::lemma_len_subset(vstd::set_lib::set_int_range(0, ne), t.to_set());
}

/// With the blobs partitioning the edge set, the flattened dispatch list
/// over any color prefix has at most one entry per edge.
pub proof fn lemma_blob_ordered_bound(
    bs: Seq<Node<Blob>>,
    es: Seq<Node<Edge>>,
    ne: int,
    c_hi: int,
)
    requires
        crate::graph::blob_members_valid(bs, ne),
        crate::graph::blob_disjoint(bs),
        crate::graph::blob_members_dedup(bs),
        0 <= ne,
        c_hi >= 0,
    ensures
        blob_ordered_edges(bs, es, c_hi).len() <= ne,
{
    lemma_ordered_is_wsum(bs, es, c_hi);
    lemma_wsum_lt_le_all(bs, c_hi, bs.len() as int);
    lemma_all_members_facts(bs, ne, bs.len() as int);
    crate::node::lemma_distinct_bounded_len(all_members(bs, bs.len() as int), ne as nat);
}

proof fn lemma_members_total_prefix(c1: Seq<Blob>, c2: Seq<Blob>, hi: int)
    requires
        0 <= hi <= c1.len(),
        hi <= c2.len(),
        forall|k: int| 0 <= k < hi ==> c1[k] == c2[k],
    ensures
        members_total(c1, hi) == members_total(c2, hi),
    decreases hi,
{
    if hi > 0 {
        lemma_members_total_prefix(c1, c2, hi - 1);
    }
}

/// A color class's flattened edge list is as long as the total member count
/// of its blobs.
proof fn lemma_cbe_len_is_members_total(bs: Seq<Node<Blob>>, es: Seq<Node<Edge>>, c: int, hi: int)
    requires
        0 <= hi <= bs.len(),
    ensures
        class_batch_edges(bs, es, c, hi).len() == members_total(
            edges_with_color(bs, c, hi),
            edges_with_color(bs, c, hi).len() as int,
        ),
    decreases hi,
{
    if hi > 0 {
        lemma_cbe_len_is_members_total(bs, es, c, hi - 1);
        if bs[hi - 1].color == c {
            let cls = edges_with_color(bs, c, hi - 1);
            let cls1 = edges_with_color(bs, c, hi);
            assert(cls1 == cls.push(bs[hi - 1].content));
            lemma_members_total_prefix(cls1, cls, cls.len() as int);
            assert(members_total(cls1, cls1.len() as int) == members_total(
                cls1,
                cls.len() as int,
            ) + cls1[cls1.len() - 1].sub_nodes@.len());
        }
    }
}

/// Together with the edges of earlier colors, a prefix of one color class
/// still has at most one entry per edge.
proof fn lemma_class_prefix_bound(bs: Seq<Node<Blob>>, es: Seq<Node<Edge>>, ne: int, c: int, hi: int)
    requires
        crate::graph::blob_members_valid(bs, ne),
        crate::graph::blob_disjoint(bs),
        crate::graph::blob_members_dedup(bs),
        0 <= ne,
        c >= 0,
        0 <= hi <= bs.len(),
    ensures
        blob_ordered_edges(bs, es, c).len() + class_batch_edges(bs, es, c, hi).len() <= ne,
{
    lemma_ordered_is_wsum(bs, es, c);
    lemma_class_len(bs, es, c, hi);
    lemma_wsum_class_mono(bs, c, hi, bs.len() as int);
    lemma_class_len(bs, es, c, bs.len() as int);
    lemma_wsum_split(bs, c, bs.len() as int);
    lemma_ordered_is_wsum(bs, es, c + 1);
    lemma_blob_ordered_bound(bs, es, ne, c + 1);
}

/// Flatten a colored blob graph for dispatch. In blob color order, then
/// blob id order, then member order, the result holds: the two endpoint id
/// arrays; per color, the offset of its first edge in those arrays and its
/// batch (blob) count; and per batch, the offset of its first edge within
/// its color and its edge count.
#[verifier::rlimit(60)]
pub fn cg2ids(graph: &Graph) -> (r: (
    Vec<i32>,
    Vec<i32>,
    Vec<i32>,
    Vec<i32>,
    Vec<i32>,
    Vec<i32>,
))
    requires
        graph.blob_chrom_nb >= 0,
        graph.edges@.len() <= 0x7fff_ffff,
        graph.blobs@.len() <= 0x7fff_ffff,
        forall|b: int|
            0 <= b < graph.blobs@.len() ==> 0 <= (#[trigger] graph.blobs@[b].color)
                < graph.blob_chrom_nb,
        crate::graph::blob_members_valid(graph.blobs@, graph.edges@.len() as int),
        crate::graph::blob_disjoint(graph.blobs@),
        crate::graph::blob_members_dedup(graph.blobs@),
        forall|e: int|
            0 <= e < graph.edges@.len() ==> (#[trigger] graph.edges@[e].content).node_1
                < 0x8000_0000 && graph.edges@[e].content.node_2 < 0x8000_0000,
    ensures
        r.0@.len() == blob_ordered_edges(graph.blobs@, graph.edges@, graph.blob_chrom_nb as int).len(),
        r.1@.len() == r.0@.len(),
        forall|k: int|
            0 <= k < r.0@.len() ==> (#[trigger] r.0@[k]) == blob_ordered_edges(
                graph.blobs@,
                graph.edges@,
                graph.blob_chrom_nb as int,
            )[k].node_1 as i32,
        forall|k: int|
            0 <= k < r.1@.len() ==> (#[trigger] r.1@[k]) == blob_ordered_edges(
                graph.blobs@,
                graph.edges@,
                graph.blob_chrom_nb as int,
            )[k].node_2 as i32,
        r.2@.len() == graph.blob_chrom_nb,
        forall|c: int|
            0 <= c < r.2@.len() ==> (#[trigger] r.2@[c]) == blob_ordered_edges(
                graph.blobs@,
                graph.edges@,
                c,
            ).len(),
        r.3@.len() == graph.blob_chrom_nb,
        forall|c: int|
            0 <= c < r.3@.len() ==> (#[trigger] r.3@[c]) == edges_with_color(
                graph.blobs@,
                c,
                graph.blobs@.len() as int,
            ).len(),
        r.4@.len() == color_ordered_edges(graph.blobs@, graph.blob_chrom_nb as int).len(),
        r.5@.len() == r.4@.len(),
        forall|c: int, k: int|
            #![trigger r.5@[k], edges_with_color(graph.blobs@, c, graph.blobs@.len() as int)]
            0 <= c < graph.blob_chrom_nb && color_ordered_edges(graph.blobs@, c).len() <= k
                < color_ordered_edges(graph.blobs@, c).len() + edges_with_color(
                graph.blobs@,
                c,
                graph.blobs@.len() as int,
            ).len() ==> r.5@[k] == edges_with_color(graph.blobs@, c, graph.blobs@.len() as int)[k
                - color_ordered_edges(graph.blobs@, c).len()].sub_nodes@.len(),
        forall|c: int, k: int|
            #![trigger r.4@[k], edges_with_color(graph.blobs@, c, graph.blobs@.len() as int)]
            0 <= c < graph.blob_chrom_nb && color_ordered_edges(graph.blobs@, c).len() <= k
                < color_ordered_edges(graph.blobs@, c).len() + edges_with_color(
                graph.blobs@,
                c,
                graph.blobs@.len() as int,
            ).len() ==> r.4@[k] == members_total(
                edges_with_color(graph.blobs@, c, graph.blobs@.len() as int),
                k - color_ordered_edges(graph.blobs@, c).len(),
            ),
{
    let ghost es = graph.edges@;
    let ghost bs = graph.blobs@;
    let chrom = graph.blob_chrom_nb as usize;
    let ne = graph.edges.len();
    let nb = graph.blobs.len();
    let mut ids1: Vec<i32> = Vec::new();
    let mut ids2: Vec<i32> = Vec::new();
    let mut colors: Vec<i32> = Vec::new();
    let mut colors_sizes: Vec<i32> = Vec::new();
    let mut batches: Vec<i32> = Vec::new();
    let mut batch_sizes: Vec<i32> = Vec::new();
    let mut c: usize = 0;
    while c < chrom
        invariant
            es == graph.edges@,
            bs == graph.blobs@,
            ne == es.len(),
            nb == bs.len(),
            ne <= 0x7fff_ffff,
            nb <= 0x7fff_ffff,
            chrom == graph.blob_chrom_nb,
            forall|b: int| 0 <= b < nb ==> 0 <= (#[trigger] bs[b].color) < chrom,
            crate::graph::blob_members_valid(bs, ne as int),
            crate::graph::blob_disjoint(bs),
            crate::graph::blob_members_dedup(bs),
            forall|e: int|
                0 <= e < ne ==> (#[trigger] es[e].content).node_1 < 0x8000_0000
                    && es[e].content.node_2 < 0x8000_0000,
            c <= chrom,
            ids1@.len() == blob_ordered_edges(bs, es, c as int).len(),
            ids2@.len() == ids1@.len(),
            ids1@.len() <= ne,
            forall|k: int|
                0 <= k < ids1@.len() ==> (#[trigger] ids1@[k]) == blob_ordered_edges(
                    bs,
                    es,
                    c as int,
                )[k].node_1 as i32,
            forall|k: int|
                0 <= k < ids2@.len() ==> (#[trigger] ids2@[k]) == blob_ordered_edges(
                    bs,
                    es,
                    c as int,
                )[k].node_2 as i32,
            colors@.len() == c,
            forall|cc: int|
                0 <= cc < c ==> (#[trigger] colors@[cc]) == blob_ordered_edges(bs, es, cc).len(),
            colors_sizes@.len() == c,
            forall|cc: int|
                0 <= cc < c ==> (#[trigger] colors_sizes@[cc]) == edges_with_color(
                    bs,
                    cc,
                    nb as int,
                ).len(),
            batches@.len() == color_ordered_edges(bs, c as int).len(),
            batch_sizes@.len() == batches@.len(),
            batches@.len() <= nb,
            forall|cc: int, k: int|
                #![trigger batch_sizes@[k], edges_with_color(bs, cc, nb as int)]
                0 <= cc < c && color_ordered_edges(bs, cc).len() <= k < color_ordered_edges(
                    bs,
                    cc,
                ).len() + edges_with_color(bs, cc, nb as int).len() ==> batch_sizes@[k]
                    == edges_with_color(bs, cc, nb as int)[k - color_ordered_edges(
                    bs,
                    cc,
                ).len()].sub_nodes@.len(),
            forall|cc: int, k: int|
                #![trigger batches@[k], edges_with_color(bs, cc, nb as int)]
                0 <= cc < c && color_ordered_edges(bs, cc).len() <= k < color_ordered_edges(
                    bs,
                    cc,
                ).len() + edges_with_color(bs, cc, nb as int).len() ==> batches@[k]
                    == members_total(
                    edges_with_color(bs, cc, nb as int),
                    k - color_ordered_edges(bs, cc).len(),
                ),
        decreases chrom - c,
    {
        proof {
            lemma_blob_ordered_bound(bs, es, ne as int, c as int);
            crate::graph::lemma_ordered_len_bound(bs, c as int, chrom as int);
        }
        colors.push(ids1.len() as i32);
        let base_x = ids1.len();
        let bbase_x = batches.len();
        let ghost base = ids1@.len() as int;
        let ghost bbase = batches@.len() as int;
        let mut b: usize = 0;
        while b < nb
            invariant
                es == graph.edges@,
                bs == graph.blobs@,
                ne == es.len(),
                nb == bs.len(),
                ne <= 0x7fff_ffff,
                nb <= 0x7fff_ffff,
                chrom == graph.blob_chrom_nb,
                c < chrom,
                b <= nb,
                forall|bb: int| 0 <= bb < nb ==> 0 <= (#[trigger] bs[bb].color) < chrom,
                crate::graph::blob_members_valid(bs, ne as int),
                crate::graph::blob_disjoint(bs),
                crate::graph::blob_members_dedup(bs),
                forall|e: int|
                    0 <= e < ne ==> (#[trigger] es[e].content).node_1 < 0x8000_0000
                        && es[e].content.node_2 < 0x8000_0000,
                base == blob_ordered_edges(bs, es, c as int).len(),
                bbase == color_ordered_edges(bs, c as int).len(),
                base == base_x,
                bbase == bbase_x,
                ids1@.len() == base + class_batch_edges(bs, es, c as int, b as int).len(),
                ids2@.len() == ids1@.len(),
                ids1@.len() <= ne,
                forall|k: int|
                    0 <= k < ids1@.len() ==> (#[trigger] ids1@[k]) == (blob_ordered_edges(
                        bs,
                        es,
                        c as int,
                    ) + class_batch_edges(bs, es, c as int, b as int))[k].node_1 as i32,
                forall|k: int|
                    0 <= k < ids2@.len() ==> (#[trigger] ids2@[k]) == (blob_ordered_edges(
                        bs,
                        es,
                        c as int,
                    ) + class_batch_edges(bs, es, c as int, b as int))[k].node_2 as i32,
                batches@.len() == bbase + edges_with_color(bs, c as int, b as int).len(),
                batch_sizes@.len() == batches@.len(),
                batches@.len() <= nb,
                forall|cc: int, k: int|
                    #![trigger batch_sizes@[k], edges_with_color(bs, cc, nb as int)]
                    0 <= cc < c && color_ordered_edges(bs, cc).len() <= k < color_ordered_edges(
                        bs,
                        cc,
                    ).len() + edges_with_color(bs, cc, nb as int).len() ==> batch_sizes@[k]
                        == edges_with_color(bs, cc, nb as int)[k - color_ordered_edges(
                        bs,
                        cc,
                    ).len()].sub_nodes@.len(),
                forall|cc: int, k: int|
                    #![trigger batches@[k], edges_with_color(bs, cc, nb as int)]
                    0 <= cc < c && color_ordered_edges(bs, cc).len() <= k < color_ordered_edges(
                        bs,
                        cc,
                    ).len() + edges_with_color(bs, cc, nb as int).len() ==> batches@[k]
                        == members_total(
                        edges_with_color(bs, cc, nb as int),
                        k - color_ordered_edges(bs, cc).len(),
                    ),
                forall|k: int|
                    bbase <= k < batches@.len() ==> (#[trigger] batch_sizes@[k])
                        == edges_with_color(bs, c as int, b as int)[k - bbase].sub_nodes@.len(),
                forall|k: int|
                    bbase <= k < batches@.len() ==> (#[trigger] batches@[k]) == members_total(
                        edges_with_color(bs, c as int, b as int),
                        k - bbase,
                    ),
            decreases nb - b,
        {
            if graph.blobs[b].color == c as i32 {
                proof {
                    assert(bs[b as int].color == c);
                    crate::node::lemma_distinct_bounded_len(
                        bs[b as int].content.sub_nodes@,
                        ne as nat,
                    );
                }
                let ghost members = bs[b as int].content.sub_nodes@;
                let ghost old_cls = edges_with_color(bs, c as int, b as int);
                let ghost old_cbe = class_batch_edges(bs, es, c as int, b as int);
                let nm = graph.blobs[b].content.sub_nodes.len();
                proof {
                    assert forall|cc: int| 0 <= cc < c implies color_ordered_edges(bs, cc).len()
                        + edges_with_color(bs, cc, nb as int).len() <= bbase by {
                        assert(color_ordered_edges(bs, cc + 1) == color_ordered_edges(bs, cc)
                            + edges_with_color(bs, cc, nb as int));
                        crate::graph::lemma_ordered_mono(bs, cc + 1, c as int);
                    }
                    lemma_class_prefix_bound(bs, es, ne as int, c as int, b + 1);
                    assert(class_batch_edges(bs, es, c as int, b + 1) == old_cbe
                        + crate::graph::batch_contents(es, members));
                    crate::graph::lemma_ewc_mono(bs, c as int, b + 1, nb as int);
                    assert(color_ordered_edges(bs, c + 1) == color_ordered_edges(bs, c as int)
                        + edges_with_color(bs, c as int, nb as int));
                    crate::graph::lemma_ordered_len_bound(bs, c + 1, chrom as int);
                    assert(edges_with_color(bs, c as int, b + 1) == old_cls.push(
                        bs[b as int].content,
                    ));
                    lemma_cbe_len_is_members_total(bs, es, c as int, b as int);
                }
                let ghost pre_batches = batches@;
                let ghost pre_sizes = batch_sizes@;
                batches.push((ids1.len() - base_x) as i32);
                batch_sizes.push(nm as i32);
                proof {
                    let cls1 = edges_with_color(bs, c as int, b + 1);
                    assert forall|k: int|
                        bbase <= k < batches@.len() implies (#[trigger] batch_sizes@[k])
                        == cls1[k - bbase].sub_nodes@.len() by {
                        if k < pre_batches.len() {
                            assert(batch_sizes@[k] == pre_sizes[k]);
                            assert(cls1[k - bbase] == old_cls[k - bbase]);
                        } else {
                            assert(batch_sizes@[k] == nm as i32);
                            assert(cls1[k - bbase] == bs[b as int].content);
                        }
                    }
                    assert forall|k: int|
                        bbase <= k < batches@.len() implies (#[trigger] batches@[k])
                        == members_total(cls1, k - bbase) by {
                        lemma_members_total_prefix(cls1, old_cls, k - bbase);
                        if k < pre_batches.len() {
                            assert(batches@[k] == pre_batches[k]);
                            assert(members_total(old_cls, k - bbase) == members_total(
                                cls1,
                                k - bbase,
                            ));
                        } else {
                            assert(batches@[k] == (ids1@.len() - base) as i32);
                            assert(ids1@.len() - base == old_cbe.len());
                            assert(old_cbe.len() == members_total(
                                old_cls,
                                old_cls.len() as int,
                            ));
                        }
                    }
                }
                let mut m: usize = 0;
                while m < nm
                    invariant
                        es == graph.edges@,
                        bs == graph.blobs@,
                        ne == es.len(),
                        nb == bs.len(),
                        ne <= 0x7fff_ffff,
                        b < nb,
                        m <= nm,
                        members == bs[b as int].content.sub_nodes@,
                        nm == members.len(),
                        crate::graph::blob_members_valid(bs, ne as int),
                        forall|e: int|
                            0 <= e < ne ==> (#[trigger] es[e].content).node_1 < 0x8000_0000
                                && es[e].content.node_2 < 0x8000_0000,
                        base == blob_ordered_edges(bs, es, c as int).len(),
                        ids1@.len() == base + old_cbe.len() + m,
                        ids2@.len() == ids1@.len(),
                        old_cbe == class_batch_edges(bs, es, c as int, b as int),
                        old_cbe.len() + base + nm <= ne,
                        forall|k: int|
                            0 <= k < ids1@.len() ==> (#[trigger] ids1@[k]) == (blob_ordered_edges(
                                bs,
                                es,
                                c as int,
                            ) + old_cbe + crate::graph::batch_contents(es, members).subrange(
                                0,
                                m as int,
                            ))[k].node_1 as i32,
                        forall|k: int|
                            0 <= k < ids2@.len() ==> (#[trigger] ids2@[k]) == (blob_ordered_edges(
                                bs,
                                es,
                                c as int,
                            ) + old_cbe + crate::graph::batch_contents(es, members).subrange(
                                0,
                                m as int,
                            ))[k].node_2 as i32,
                    decreases nm - m,
                {
                    let eid = graph.blobs[b].content.sub_nodes[m];
                    proof {
                        assert(bs[b as int].content.sub_nodes@[m as int] < ne);
                    }
                    ids1.push(graph.edges[eid].content.node_1 as i32);
                    ids2.push(graph.edges[eid].content.node_2 as i32);
                    proof {
                        let bc = crate::graph::batch_contents(es, members);
                        assert(bc[m as int] == es[members[m as int] as int].content);
                        assert(blob_ordered_edges(bs, es, c as int) + old_cbe + bc.subrange(
                            0,
                            m + 1,
                        ) =~= (blob_ordered_edges(bs, es, c as int) + old_cbe + bc.subrange(
                            0,
                            m as int,
                        )).push(bc[m as int]));
                    }
                    m = m + 1;
                }
                proof {
                    let bc = crate::graph::batch_contents(es, members);
                    assert(bc.subrange(0, nm as int) =~= bc);
                    assert(class_batch_edges(bs, es, c as int, b + 1) == old_cbe + bc);
                    assert(blob_ordered_edges(bs, es, c as int) + class_batch_edges(
                        bs,
                        es,
                        c as int,
                        b + 1,
                    ) =~= blob_ordered_edges(bs, es, c as int) + old_cbe + bc);
                    assert(edges_with_color(bs, c as int, b + 1) == old_cls.push(
                        bs[b as int].content,
                    ));
                }
            } else {
                proof {
                    assert(class_batch_edges(bs, es, c as int, b + 1) == class_batch_edges(
                        bs,
                        es,
                        c as int,
                        b as int,
                    ));
                    assert(edges_with_color(bs, c as int, b + 1) == edges_with_color(
                        bs,
                        c as int,
                        b as int,
                    ));
                }
            }
            b = b + 1;
        }
        proof {
            assert(color_ordered_edges(bs, c + 1) == color_ordered_edges(bs, c as int)
                + edges_with_color(bs, c as int, nb as int));
            crate::graph::lemma_ordered_len_bound(bs, c + 1, chrom as int);
        }
        colors_sizes.push((batches.len() - bbase_x) as i32);
        proof {
            assert(blob_ordered_edges(bs, es, c + 1) == blob_ordered_edges(bs, es, c as int)
                + class_batch_edges(bs, es, c as int, nb as int));
            assert(color_ordered_edges(bs, c + 1) == color_ordered_edges(bs, c as int)
                + edges_with_color(bs, c as int, nb as int));
            lemma_blob_ordered_bound(bs, es, ne as int, c + 1);
            crate::graph::lemma_ordered_len_bound(bs, c + 1, chrom as int);
        }
        c = c + 1;
    }
    (ids1, ids2, colors, colors_sizes, batches, batch_sizes)
}

/// Flatten a colored line graph (no blobs) for dispatch. In color order,
/// then edge id order, the result holds: the two endpoint id arrays; per
/// color, the offset of its first edge in those arrays and its edge count;
/// and per edge, its offset within its color and a batch size of one (each
/// edge is its own singleton batch).
pub fn cg2ids_no_blob(graph: &Graph) -> (r: (
    Vec<i32>,
    Vec<i32>,
    Vec<i32>,
    Vec<i32>,
    Vec<i32>,
    Vec<i32>,
))
    requires
        graph.edge_chrom_nb >= 0,
        graph.edges@.len() <= 0x7fff_ffff,
        forall|e: int|
            0 <= e < graph.edges@.len() ==> 0 <= (#[trigger] graph.edges@[e].color)
                < graph.edge_chrom_nb,
        forall|e: int|
            0 <= e < graph.edges@.len() ==> (#[trigger] graph.edges@[e].content).node_1
                < 0x8000_0000 && graph.edges@[e].content.node_2 < 0x8000_0000,
    ensures
        r.0@.len() == color_ordered_edges(graph.edges@, graph.edge_chrom_nb as int).len(),
        r.1@.len() == r.0@.len(),
        r.4@.len() == r.0@.len(),
        r.5@.len() == r.0@.len(),
        r.0@.len() == graph.edges@.len(),
        forall|k: int|
            0 <= k < r.0@.len() ==> (#[trigger] r.0@[k]) == color_ordered_edges(
                graph.edges@,
                graph.edge_chrom_nb as int,
            )[k].node_1 as i32,
        forall|k: int|
            0 <= k < r.1@.len() ==> (#[trigger] r.1@[k]) == color_ordered_edges(
                graph.edges@,
                graph.edge_chrom_nb as int,
            )[k].node_2 as i32,
        r.2@.len() == graph.edge_chrom_nb,
        forall|c: int|
            0 <= c < r.2@.len() ==> (#[trigger] r.2@[c]) == color_ordered_edges(
                graph.edges@,
                c,
            ).len(),
        r.3@.len() == graph.edge_chrom_nb,
        forall|c: int|
            0 <= c < r.3@.len() ==> (#[trigger] r.3@[c]) == edges_with_color(
                graph.edges@,
                c,
                graph.edges@.len() as int,
            ).len(),
        forall|c: int, k: int|
            #![trigger r.4@[k], edges_with_color(graph.edges@, c, graph.edges@.len() as int)]
            0 <= c < graph.edge_chrom_nb && color_ordered_edges(graph.edges@, c).len() <= k
                < color_ordered_edges(graph.edges@, c).len() + edges_with_color(
                graph.edges@,
                c,
                graph.edges@.len() as int,
            ).len() ==> r.4@[k] == k - color_ordered_edges(graph.edges@, c).len(),
        forall|k: int| 0 <= k < r.5@.len() ==> (#[trigger] r.5@[k]) == 1,
{
    let ghost es = graph.edges@;
    let chrom = graph.edge_chrom_nb as usize;
    let ne = graph.edges.len();
    let mut ids1: Vec<i32> = Vec::new();
    let mut ids2: Vec<i32> = Vec::new();
    let mut colors: Vec<i32> = Vec::new();
    let mut colors_sizes: Vec<i32> = Vec::new();
    let mut batches: Vec<i32> = Vec::new();
    let mut batch_sizes: Vec<i32> = Vec::new();
    let mut c: usize = 0;
    while c < chrom
        invariant
            es == graph.edges@,
            ne == es.len(),
            ne <= 0x7fff_ffff,
            chrom == graph.edge_chrom_nb,
            forall|e: int| 0 <= e < ne ==> 0 <= (#[trigger] es[e].color) < chrom,
            forall|e: int|
                0 <= e < ne ==> (#[trigger] es[e].content).node_1 < 0x8000_0000
                    && es[e].content.node_2 < 0x8000_0000,
            c <= chrom,
            ids1@.len() == color_ordered_edges(es, c as int).len(),
            ids2@.len() == ids1@.len(),
            batches@.len() == ids1@.len(),
            batch_sizes@.len() == ids1@.len(),
            ids1@.len() <= ne,
            forall|k: int|
                0 <= k < ids1@.len() ==> (#[trigger] ids1@[k]) == color_ordered_edges(
                    es,
                    c as int,
                )[k].node_1 as i32,
            forall|k: int|
                0 <= k < ids2@.len() ==> (#[trigger] ids2@[k]) == color_ordered_edges(
                    es,
                    c as int,
                )[k].node_2 as i32,
            colors@.len() == c,
            forall|cc: int|
                0 <= cc < c ==> (#[trigger] colors@[cc]) == color_ordered_edges(es, cc).len(),
            colors_sizes@.len() == c,
            forall|cc: int|
                0 <= cc < c ==> (#[trigger] colors_sizes@[cc]) == edges_with_color(
                    es,
                    cc,
                    ne as int,
                ).len(),
            forall|cc: int, k: int|
                #![trigger batches@[k], edges_with_color(es, cc, ne as int)]
                0 <= cc < c && color_ordered_edges(es, cc).len() <= k < color_ordered_edges(
                    es,
                    cc,
                ).len() + edges_with_color(es, cc, ne as int).len() ==> batches@[k] == k
                    - color_ordered_edges(es, cc).len(),
            forall|k: int| 0 <= k < batch_sizes@.len() ==> (#[trigger] batch_sizes@[k]) == 1,
        decreases chrom - c,
    {
        proof {
            crate::graph::lemma_ordered_len_bound(es, c as int, chrom as int);
        }
        colors.push(ids1.len() as i32);
        let ghost base = ids1@.len() as int;
        let mut j: usize = 0;
        let mut e: usize = 0;
        while e < ne
            invariant
                es == graph.edges@,
                ne == es.len(),
                ne <= 0x7fff_ffff,
                chrom == graph.edge_chrom_nb,
                c < chrom,
                forall|ee: int| 0 <= ee < ne ==> 0 <= (#[trigger] es[ee].color) < chrom,
                forall|ee: int|
                    0 <= ee < ne ==> (#[trigger] es[ee].content).node_1 < 0x8000_0000
                        && es[ee].content.node_2 < 0x8000_0000,
                e <= ne,
                base == color_ordered_edges(es, c as int).len(),
                j == edges_with_color(es, c as int, e as int).len(),
                j <= e,
                ids1@.len() == base + j,
                ids2@.len() == ids1@.len(),
                batches@.len() == ids1@.len(),
                batch_sizes@.len() == ids1@.len(),
                forall|k: int|
                    0 <= k < ids1@.len() ==> (#[trigger] ids1@[k]) == (color_ordered_edges(
                        es,
                        c as int,
                    ) + edges_with_color(es, c as int, e as int))[k].node_1 as i32,
                forall|k: int|
                    0 <= k < ids2@.len() ==> (#[trigger] ids2@[k]) == (color_ordered_edges(
                        es,
                        c as int,
                    ) + edges_with_color(es, c as int, e as int))[k].node_2 as i32,
                forall|cc: int, k: int|
                    #![trigger batches@[k], edges_with_color(es, cc, ne as int)]
                    0 <= cc < c && color_ordered_edges(es, cc).len() <= k < color_ordered_edges(
                        es,
                        cc,
                    ).len() + edges_with_color(es, cc, ne as int).len() ==> batches@[k] == k
                        - color_ordered_edges(es, cc).len(),
                forall|k: int| base <= k < base + j ==> (#[trigger] batches@[k]) == k - base,
                forall|k: int| 0 <= k < batch_sizes@.len() ==> (#[trigger] batch_sizes@[k]) == 1,
            decreases ne - e,
        {
            if graph.edges[e].color == c as i32 {
                batches.push(j as i32);
                batch_sizes.push(1);
                ids1.push(graph.edges[e].content.node_1 as i32);
                ids2.push(graph.edges[e].content.node_2 as i32);
                proof {
                    assert(es[e as int].color == c);
                    assert(edges_with_color(es, c as int, e + 1) == edges_with_color(
                        es,
                        c as int,
                        e as int,
                    ).push(es[e as int].content));
                    assert forall|cc: int| 0 <= cc < c implies color_ordered_edges(es, cc).len()
                        + edges_with_color(es, cc, ne as int).len() <= base by {
                        assert(color_ordered_edges(es, cc + 1) == color_ordered_edges(es, cc)
                            + edges_with_color(es, cc, ne as int));
                        crate::graph::lemma_ordered_mono(es, cc + 1, c as int);
                    }
                    assert(color_ordered_edges(es, c as int) + edges_with_color(
                        es,
                        c as int,
                        e + 1,
                    ) =~= (color_ordered_edges(es, c as int) + edges_with_color(
                        es,
                        c as int,
                        e as int,
                    )).push(es[e as int].content));
                }
                j = j + 1;
            } else {
                proof {
                    assert(edges_with_color(es, c as int, e + 1) == edges_with_color(
                        es,
                        c as int,
                        e as int,
                    ));
                }
            }
            e = e + 1;
        }
        colors_sizes.push(j as i32);
        proof {
            assert(color_ordered_edges(es, c + 1) == color_ordered_edges(es, c as int)
                + edges_with_color(es, c as int, ne as int));
            crate::graph::lemma_ordered_len_bound(es, c + 1, chrom as int);
        }
        c = c + 1;
    }
    proof {
        crate::graph::lemma_export_partition(es, chrom as int);
        crate::graph::lemma_ordered_len_bound(es, chrom as int, chrom as int);
        assert(color_ordered_edges(es, chrom as int).len() == es.len());
    }
    (ids1, ids2, colors, colors_sizes, batches, batch_sizes)
}

} // verus!
