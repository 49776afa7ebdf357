//! Generic graph node stored in an arena (`Vec<Node<T>>`) and addressed by a
//! stable integer index. Adjacency is a list of arena indices, kept
//! symmetric, deduplicated and free of self-loops by the operations below.

use vstd::prelude::*;

verus! {

/// One node of a graph. The node with id `i` lives at index `i` of the arena
/// that owns it; `adj` holds the arena indices of its neighbours. `color` is
/// `-1` while the node is uncolored. `marked`, `intern_mark` and `dist` are
/// scratch state for traversals that want per-node bookkeeping.
pub struct Node<T> {
    pub id: usize,
    pub color: i32,
    pub marked: bool,
    pub intern_mark: bool,
    pub dist: usize,
    pub adj: Vec<usize>,
    pub content: T,
}

/// Every node's id equals its arena index.
pub open spec fn valid_ids<T>(ns: Seq<Node<T>>) -> bool {
    forall|i: int| 0 <= i < ns.len() ==> (#[trigger] ns[i].id) == i
}

/// Every adjacency entry is a valid arena index and no node lists itself.
pub open spec fn adj_in_bounds<T>(ns: Seq<Node<T>>) -> bool {
    forall|i: int, k: int|
        0 <= i < ns.len() && 0 <= k < ns[i].adj@.len() ==> (#[trigger] ns[i].adj@[k]) < ns.len()
            && ns[i].adj@[k] != i
}

/// No adjacency list mentions the same neighbour twice.
pub open spec fn adj_dedup<T>(ns: Seq<Node<T>>) -> bool {
    forall|i: int| 0 <= i < ns.len() ==> (#[trigger] ns[i].adj@).no_duplicates()
}

/// Node `j` appears on node `i`'s adjacency list.
pub open spec fn adj_to<T>(ns: Seq<Node<T>>, i: int, j: int) -> bool {
    &&& 0 <= i < ns.len()
    &&& 0 <= j < ns.len()
    &&& ns[i].adj@.contains(j as usize)
}

/// Adjacency is symmetric: `i` lists `j` exactly when `j` lists `i`.
pub open spec fn symmetric<T>(ns: Seq<Node<T>>) -> bool {
    forall|i: int, j: int| #[trigger] adj_to(ns, i, j) ==> adj_to(ns, j, i)
}

/// Well-formed arena: ids match indices and adjacency is in-bounds,
/// deduplicated, irreflexive and symmetric.
pub open spec fn wf<T>(ns: Seq<Node<T>>) -> bool {
    &&& ns.len() <= usize::MAX
    &&& valid_ids(ns)
    &&& adj_in_bounds(ns)
    &&& adj_dedup(ns)
    &&& symmetric(ns)
}

/// All fields of the two nodes agree except possibly the adjacency list.
pub open spec fn same_but_adj<T>(a: Node<T>, b: Node<T>) -> bool {
    &&& a.id == b.id
    &&& a.color == b.color
    &&& a.marked == b.marked
    &&& a.intern_mark == b.intern_mark
    &&& a.dist == b.dist
    &&& a.content == b.content
}

/// All fields of the two nodes agree except possibly the color.
pub open spec fn same_but_color<T>(a: Node<T>, b: Node<T>) -> bool {
    &&& a.id == b.id
    &&& a.marked == b.marked
    &&& a.intern_mark == b.intern_mark
    &&& a.dist == b.dist
    &&& a.adj@ == b.adj@
    &&& a.content == b.content
}

/// In any well-formed graph, adjacency is symmetric: A is adjacent to B
/// exactly when B is adjacent to A.
pub proof fn lemma_adjacency_symmetric<T>(ns: Seq<Node<T>>, a: int, b: int)
    requires
        wf(ns),
    ensures
        adj_to(ns, a, b) <==> adj_to(ns, b, a),
{
}

/// In any well-formed graph, no node is adjacent to itself.
pub proof fn lemma_no_self_loops<T>(ns: Seq<Node<T>>, a: int)
    requires
        wf(ns),
    ensures
        !adj_to(ns, a, a),
{
    if adj_to(ns, a, a) {
        assert(ns[a].adj@.contains(a as usize));
        let k = choose|k: int| 0 <= k < ns[a].adj@.len() && ns[a].adj@[k] == (a as usize);
        assert(0 <= k < ns[a].adj@.len() && ns[a].adj@[k] == (a as usize));
        assert(ns[a].adj@[k] != a);
        assert(false);
    }
}

/// Number of positions among the first `hi` entries of `b` that hold `x`.
pub open spec fn count_in_upto(b: Seq<usize>, x: usize, hi: int) -> nat
    decreases hi,
{
    if hi <= 0 {
        0
    } else if hi > b.len() {
        count_in_upto(b, x, b.len() as int)
    } else {
        count_in_upto(b, x, hi - 1) + if b[hi - 1] == x {
            1nat
        } else {
            0nat
        }
    }
}

/// Number of positions of `b` that hold `x`.
pub open spec fn count_in(b: Seq<usize>, x: usize) -> nat {
    count_in_upto(b, x, b.len() as int)
}

/// Number of index pairs `(k1, k2)` with `a[k1] == b[k2]`, looking only at
/// `k1 < hi`. For deduplicated lists this is the number of common entries.
pub open spec fn common_pairs_upto(a: Seq<usize>, b: Seq<usize>, hi: int) -> nat
    decreases hi,
{
    if hi <= 0 {
        0
    } else if hi > a.len() {
        common_pairs_upto(a, b, a.len() as int)
    } else {
        common_pairs_upto(a, b, hi - 1) + count_in(b, a[hi - 1])
    }
}

/// Number of index pairs `(k1, k2)` with `a[k1] == b[k2]`.
pub open spec fn common_pairs(a: Seq<usize>, b: Seq<usize>) -> nat {
    common_pairs_upto(a, b, a.len() as int)
}

proof fn lemma_count_in_upto_mono(b: Seq<usize>, x: usize, h1: int, h2: int)
    requires
        h1 <= h2,
    ensures
        count_in_upto(b, x, h1) <= count_in_upto(b, x, h2),
    decreases h2 - h1,
{
    if h1 < h2 {
        lemma_count_in_upto_mono(b, x, h1, h2 - 1);
        if h2 > b.len() && h2 - 1 <= b.len() {
            lemma_count_in_upto_mono(b, x, h2 - 1, b.len() as int);
        }
    }
}

/// In a deduplicated list a value occurs at most once, and it occurs exactly
/// when the list contains it.
proof fn lemma_count_in_dedup(b: Seq<usize>, x: usize, h: int)
    requires
        b.no_duplicates(),
        h <= b.len(),
    ensures
        count_in_upto(b, x, h) <= 1,
        count_in_upto(b, x, h) >= 1 <==> exists|m: int| 0 <= m < h && b[m] == x,
    decreases h,
{
    if h > 0 {
        lemma_count_in_dedup(b, x, h - 1);
        if b[h - 1] == x {
            if count_in_upto(b, x, h - 1) >= 1 {
                let m = choose|m: int| 0 <= m < h - 1 && b[m] == x;
                assert(b[m] != b[h - 1]);
            }
            assert(0 <= h - 1 < h && b[h - 1] == x);
        }
    }
}

proof fn lemma_common_pairs_upto_mono(a: Seq<usize>, b: Seq<usize>, h1: int, h2: int)
    requires
        h1 <= h2,
    ensures
        common_pairs_upto(a, b, h1) <= common_pairs_upto(a, b, h2),
    decreases h2 - h1,
{
    if h1 < h2 {
        lemma_common_pairs_upto_mono(a, b, h1, h2 - 1);
        if h2 > a.len() && h2 - 1 <= a.len() {
            lemma_common_pairs_upto_mono(a, b, h2 - 1, a.len() as int);
        }
    }
}

proof fn lemma_count_in_prefix(a1: Seq<usize>, a2: Seq<usize>, y: usize, h: int)
    requires
        0 <= h <= a1.len(),
        h <= a2.len(),
        forall|k: int| 0 <= k < h ==> a1[k] == a2[k],
    ensures
        count_in_upto(a1, y, h) == count_in_upto(a2, y, h),
    decreases h,
{
    if h > 0 {
        lemma_count_in_prefix(a1, a2, y, h - 1);
    }
}

proof fn lemma_count_in_drop_last(a: Seq<usize>, y: usize)
    requires
        a.len() > 0,
    ensures
        count_in(a, y) == count_in(a.drop_last(), y) + if a.last() == y {
            1nat
        } else {
            0nat
        },
{
    lemma_count_in_prefix(a, a.drop_last(), y, a.len() - 1);
}

proof fn lemma_cp_prefix(a1: Seq<usize>, a2: Seq<usize>, b: Seq<usize>, h: int)
    requires
        0 <= h <= a1.len(),
        h <= a2.len(),
        forall|k: int| 0 <= k < h ==> a1[k] == a2[k],
    ensures
        common_pairs_upto(a1, b, h) == common_pairs_upto(a2, b, h),
    decreases h,
{
    if h > 0 {
        lemma_cp_prefix(a1, a2, b, h - 1);
    }
}

proof fn lemma_cp_push_right(b: Seq<usize>, a: Seq<usize>, h: int)
    requires
        a.len() > 0,
        0 <= h <= b.len(),
    ensures
        common_pairs_upto(b, a, h) == common_pairs_upto(b, a.drop_last(), h) + count_in_upto(
            b,
            a.last(),
            h,
        ),
    decreases h,
{
    if h > 0 {
        lemma_cp_push_right(b, a, h - 1);
        lemma_count_in_drop_last(a, b[h - 1]);
    }
}

proof fn lemma_cp_empty(b: Seq<usize>, a: Seq<usize>, h: int)
    requires
        a.len() == 0,
        h <= b.len(),
    ensures
        common_pairs_upto(b, a, h) == 0,
    decreases h,
{
    if h > 0 {
        lemma_cp_empty(b, a, h - 1);
    }
}

/// Counting matching index pairs is symmetric in the two lists.
pub proof fn lemma_common_pairs_sym(a: Seq<usize>, b: Seq<usize>)
    ensures
        common_pairs(a, b) == common_pairs(b, a),
    decreases a.len(),
{
    if a.len() == 0 {
        lemma_cp_empty(b, a, b.len() as int);
    } else {
        let a1 = a.drop_last();
        lemma_cp_prefix(a, a1, b, a.len() - 1);
        lemma_common_pairs_sym(a1, b);
        lemma_cp_push_right(b, a, b.len() as int);
    }
}

/// Some neighbour among the first `mm` on `i`'s adjacency list has color `c`.
pub open spec fn uses_color_upto<T>(ns: Seq<Node<T>>, i: int, c: int, mm: int) -> bool {
    exists|m: int|
        0 <= m < mm && m < ns[i].adj@.len() && ns[(#[trigger] ns[i].adj@[m]) as int].color == c
}

/// Some neighbour of `i` has color `c`: the saturation predicate.
pub open spec fn uses_color<T>(ns: Seq<Node<T>>, i: int, c: int) -> bool {
    uses_color_upto(ns, i, c, ns[i].adj@.len() as int)
}

/// Number of colors in `[0, hi)` used by neighbours of `i`: the saturation
/// degree, restricted to colors below `hi`.
pub open spec fn nb_used_colors_upto<T>(ns: Seq<Node<T>>, i: int, hi: int) -> nat
    decreases hi,
{
    if hi <= 0 {
        0
    } else {
        nb_used_colors_upto(ns, i, hi - 1) + if uses_color(ns, i, hi - 1) {
            1nat
        } else {
            0nat
        }
    }
}

/// Number of positions `m < mm` of `i`'s adjacency list whose neighbour has
/// color `c`.
spec fn cnt_color_eq<T>(ns: Seq<Node<T>>, i: int, c: int, mm: int) -> nat
    decreases mm,
{
    if mm <= 0 || mm > ns[i].adj@.len() {
        0
    } else {
        cnt_color_eq(ns, i, c, mm - 1) + if ns[(ns[i].adj@[mm - 1]) as int].color == c {
            1nat
        } else {
            0nat
        }
    }
}

/// Number of positions `m < mm` of `i`'s adjacency list whose neighbour has
/// a color in `[0, h)`.
spec fn cnt_color_lt<T>(ns: Seq<Node<T>>, i: int, h: int, mm: int) -> nat
    decreases mm,
{
    if mm <= 0 || mm > ns[i].adj@.len() {
        0
    } else {
        cnt_color_lt(ns, i, h, mm - 1) + if 0 <= ns[(ns[i].adj@[mm - 1]) as int].color < h {
            1nat
        } else {
            0nat
        }
    }
}

proof fn lemma_cnt_color_split<T>(ns: Seq<Node<T>>, i: int, h: int, mm: int)
    requires
        h >= 0,
    ensures
        cnt_color_lt(ns, i, h + 1, mm) == cnt_color_lt(ns, i, h, mm) + cnt_color_eq(ns, i, h, mm),
    decreases mm,
{
    if mm > 0 && mm <= ns[i].adj@.len() {
        lemma_cnt_color_split(ns, i, h, mm - 1);
    }
}

proof fn lemma_cnt_color_eq_pos<T>(ns: Seq<Node<T>>, i: int, c: int, mm: int)
    requires
        uses_color_upto(ns, i, c, mm),
        mm <= ns[i].adj@.len(),
    ensures
        cnt_color_eq(ns, i, c, mm) >= 1,
    decreases mm,
{
    let m = choose|m: int|
        0 <= m < mm && m < ns[i].adj@.len() && ns[(ns[i].adj@[m]) as int].color == c;
    if m == mm - 1 {
    } else {
        assert(uses_color_upto(ns, i, c, mm - 1));
        lemma_cnt_color_eq_pos(ns, i, c, mm - 1);
    }
}

proof fn lemma_cnt_color_lt_bound<T>(ns: Seq<Node<T>>, i: int, h: int, mm: int)
    ensures
        cnt_color_lt(ns, i, h, mm) <= if mm < 0 {
            0
        } else {
            mm as nat
        },
    decreases mm,
{
    if mm > 0 && mm <= ns[i].adj@.len() {
        lemma_cnt_color_lt_bound(ns, i, h, mm - 1);
    }
}

proof fn lemma_nb_used_le_cnt<T>(ns: Seq<Node<T>>, i: int, h: int)
    requires
        h >= 0,
    ensures
        nb_used_colors_upto(ns, i, h) <= cnt_color_lt(ns, i, h, ns[i].adj@.len() as int),
    decreases h,
{
    if h > 0 {
        lemma_nb_used_le_cnt(ns, i, h - 1);
        lemma_cnt_color_split(ns, i, h - 1, ns[i].adj@.len() as int);
        if uses_color(ns, i, h - 1) {
            lemma_cnt_color_eq_pos(ns, i, h - 1, ns[i].adj@.len() as int);
        }
    }
}

proof fn lemma_all_used_nb_used<T>(ns: Seq<Node<T>>, i: int, h: int)
    requires
        h >= 0,
        forall|cc: int| 0 <= cc < h ==> uses_color(ns, i, cc),
    ensures
        nb_used_colors_upto(ns, i, h) == h,
    decreases h,
{
    if h > 0 {
        lemma_all_used_nb_used(ns, i, h - 1);
    }
}

/// A greedily assigned color never exceeds the node's degree: if every color
/// below `c` already appears on a neighbour, there are at least `c`
/// neighbours.
pub proof fn lemma_min_color_le_degree<T>(ns: Seq<Node<T>>, i: int, c: int)
    requires
        c >= 0,
        forall|cc: int| 0 <= cc < c ==> uses_color(ns, i, cc),
    ensures
        c <= ns[i].adj@.len(),
{
    lemma_all_used_nb_used(ns, i, c);
    lemma_nb_used_le_cnt(ns, i, c);
    lemma_cnt_color_lt_bound(ns, i, c, ns[i].adj@.len() as int);
}

/// The number of colors a greedy coloring reports is at most one more than
/// the maximum degree: some node carries the largest color, and no greedily
/// assigned color exceeds its node's degree.
pub proof fn lemma_chromatic_bound<T>(ns: Seq<Node<T>>, chrom: i32, max_deg: nat)
    requires
        exists|w: int| 0 <= w < ns.len() && ns[w].color == chrom - 1,
        forall|k: int|
            0 <= k < ns.len() ==> (#[trigger] ns[k].color) <= ns[k].adj@.len(),
        forall|k: int| 0 <= k < ns.len() ==> (#[trigger] ns[k].adj@.len()) <= max_deg,
    ensures
        chrom <= max_deg + 1,
{
    let w = choose|w: int| 0 <= w < ns.len() && ns[w].color == chrom - 1;
    assert(ns[w].color <= ns[w].adj@.len());
}

/// Number of nodes among the first `hi` that carry a color.
pub open spec fn num_colored_upto<T>(ns: Seq<Node<T>>, hi: int) -> nat
    decreases hi,
{
    if hi <= 0 || hi > ns.len() {
        0
    } else {
        num_colored_upto(ns, hi - 1) + if ns[hi - 1].color >= 0 {
            1nat
        } else {
            0nat
        }
    }
}

proof fn lemma_num_colored_update<T>(ns: Seq<Node<T>>, new: Seq<Node<T>>, i: int, hi: int)
    requires
        ns.len() == new.len(),
        0 <= i < ns.len(),
        forall|k: int| 0 <= k < ns.len() && k != i ==> new[k].color == ns[k].color,
        ns[i].color < 0,
        new[i].color >= 0,
        hi <= ns.len(),
    ensures
        num_colored_upto(new, hi) == num_colored_upto(ns, hi) + if i < hi {
            1int
        } else {
            0int
        },
    decreases hi,
{
    if hi > 0 {
        lemma_num_colored_update(ns, new, i, hi - 1);
    }
}

proof fn lemma_num_colored_none<T>(ns: Seq<Node<T>>, hi: int)
    requires
        forall|m: int| 0 <= m < ns.len() ==> (#[trigger] ns[m].color) < 0,
    ensures
        num_colored_upto(ns, hi) == 0,
    decreases hi,
{
    if hi > 0 {
        lemma_num_colored_none(ns, hi - 1);
    }
}

proof fn lemma_num_colored_full<T>(ns: Seq<Node<T>>, hi: int)
    requires
        0 <= hi <= ns.len(),
        forall|m: int| 0 <= m < ns.len() ==> (#[trigger] ns[m].color) >= 0,
    ensures
        num_colored_upto(ns, hi) == hi,
    decreases hi,
{
    if hi > 0 {
        lemma_num_colored_full(ns, hi - 1);
    }
}

proof fn lemma_num_colored_bound<T>(ns: Seq<Node<T>>, hi: int)
    ensures
        num_colored_upto(ns, hi) <= if hi < 0 {
            0
        } else {
            hi as nat
        },
        (0 <= hi <= ns.len() && num_colored_upto(ns, hi) == hi) ==> forall|m: int|
            0 <= m < hi ==> ns[m].color >= 0,
    decreases hi,
{
    if hi > 0 && hi <= ns.len() {
        lemma_num_colored_bound(ns, hi - 1);
    }
}

/// Pigeonhole: a duplicate-free list of indices below `n` has at most `n`
/// entries.
pub(crate) proof fn lemma_distinct_bounded_len(s: Seq<usize>, n: nat)
    requires
        s.no_duplicates(),
        forall|m: int| 0 <= m < s.len() ==> (#[trigger] s[m]) < n,
    ensures
        s.len() <= n,
{
    let t = s.map_values(|x: usize| x as int);
    assert(t.len() == s.len());
    assert(t.no_duplicates()) by {
        assert forall|k1: int, k2: int|
            0 <= k1 < t.len() && 0 <= k2 < t.len() && k1 != k2 implies t[k1] != t[k2] by {
            assert(t[k1] == s[k1] as int);
            assert(t[k2] == s[k2] as int);
        }
    }
    t.unique_seq_to_set();
    assert(t.to_set().subset_of(vstd::set_lib::set_int_range(0, n as int))) by {
        assert forall|x: int| t.to_set().contains(x) implies vstd::set_lib::set_int_range(
            0,
            n as int,
        ).contains(x) by {
            let m = choose|m: int| 0 <= m < t.len() && t[m] == x;
            assert(t[m] == s[m] as int);
            assert(s[m] < n);
        }
    }
    vstd::set_lib::lemma_int_range(0, n as int);
    vstd::set_lib::lemma_len_subset(t.to_set(), vstd::set_lib::set_int_range(0, n as int));
}

/// `u` can be reached from `s` along at most `d` adjacency steps.
pub open spec fn reachable_within<T>(ns: Seq<Node<T>>, s: int, u: int, d: nat) -> bool
    decreases d,
{
    if u == s {
        true
    } else if d == 0 {
        false
    } else {
        exists|w: int|
            #![auto]
            0 <= w < ns.len() && adj_to(ns, w, u) && reachable_within(ns, s, w, (d - 1) as nat)
    }
}

/// Whatever is reachable in `d1` steps is reachable in `d2 >= d1` steps.
pub proof fn lemma_reachable_mono<T>(ns: Seq<Node<T>>, s: int, u: int, d1: nat, d2: nat)
    requires
        d1 <= d2,
        reachable_within(ns, s, u, d1),
    ensures
        reachable_within(ns, s, u, d2),
    decreases d1,
{
    if u != s && d1 > 0 {
        let w = choose|w: int|
            #![auto]
            0 <= w < ns.len() && adj_to(ns, w, u) && reachable_within(ns, s, w, (d1 - 1) as nat);
        lemma_reachable_mono(ns, s, w, (d1 - 1) as nat, (d2 - 1) as nat);
    }
}

/// At the end of a breadth-first search whose processed queue covers every
/// visited node, everything reachable within `k <= d` steps has been visited,
/// with a recorded distance of at most `k`.
proof fn lemma_bfs_complete<T>(
    ns: Seq<Node<T>>,
    start: int,
    visited: Seq<bool>,
    dist: Seq<usize>,
    queue: Seq<usize>,
    d: nat,
    u: int,
    k: nat,
)
    requires
        wf(ns),
        0 <= start < ns.len(),
        visited.len() == ns.len(),
        dist.len() == ns.len(),
        visited[start],
        dist[start] == 0,
        forall|m: int| 0 <= m < queue.len() ==> (#[trigger] queue[m]) < ns.len(),
        forall|v: int| 0 <= v < ns.len() && visited[v] ==> queue.contains(v as usize),
        forall|qi: int, m: int|
            0 <= qi < queue.len() && 0 <= m < ns[queue[qi] as int].adj@.len() && dist[queue[qi] as int]
                < d ==> visited[(#[trigger] ns[queue[qi] as int].adj@[m]) as int] && dist[ns[queue[qi] as int].adj@[m] as int]
                <= dist[queue[qi] as int] + 1,
        0 <= u < ns.len(),
        reachable_within(ns, start, u, k),
        k <= d,
    ensures
        visited[u],
        dist[u] <= k,
    decreases k,
{
    if u != start {
        let w = choose|w: int|
            #![auto]
            0 <= w < ns.len() && adj_to(ns, w, u) && reachable_within(ns, start, w, (k - 1) as nat);
        lemma_bfs_complete(ns, start, visited, dist, queue, d, w, (k - 1) as nat);
        let qi = choose|qi: int| 0 <= qi < queue.len() && queue[qi] == (w as usize);
        let m = choose|m: int| 0 <= m < ns[w].adj@.len() && ns[w].adj@[m] == (u as usize);
        assert(dist[queue[qi] as int] < d);
        assert(visited[(ns[queue[qi] as int].adj@[m]) as int]);
    }
}

/// A graph that kept every id and every adjacency list is still well-formed,
/// whatever happened to colors, marks and contents.
pub proof fn lemma_wf_same_adjacency<T>(orig: Seq<Node<T>>, new: Seq<Node<T>>)
    requires
        wf(orig),
        new.len() == orig.len(),
        forall|k: int| 0 <= k < new.len() ==> (#[trigger] new[k].id) == orig[k].id,
        forall|k: int| 0 <= k < new.len() ==> (#[trigger] new[k].adj@) == orig[k].adj@,
    ensures
        wf(new),
{
    assert forall|i: int, k: int|
        0 <= i < new.len() && 0 <= k < new[i].adj@.len() implies (#[trigger] new[i].adj@[k])
        < new.len() && new[i].adj@[k] != i by {
        assert(new[i].adj@ == orig[i].adj@);
    }
    assert forall|i: int| 0 <= i < new.len() implies (#[trigger] new[i].adj@).no_duplicates() by {
        assert(new[i].adj@ == orig[i].adj@);
    }
    assert forall|a: int, b: int| #[trigger] adj_to(new, a, b) implies adj_to(new, b, a) by {
        assert(new[a].adj@ == orig[a].adj@);
        assert(adj_to(orig, a, b));
        assert(adj_to(orig, b, a));
        assert(new[b].adj@ == orig[b].adj@);
    }
}

/// A graph whose adjacency lists only lost entries, kept their ids and
/// stayed deduplicated and symmetric is still well-formed.
pub(crate) proof fn lemma_subgraph_wf<T>(orig: Seq<Node<T>>, new: Seq<Node<T>>)
    requires
        wf(orig),
        new.len() == orig.len(),
        forall|i: int| 0 <= i < new.len() ==> (#[trigger] new[i].id) == orig[i].id,
        forall|i: int| 0 <= i < new.len() ==> (#[trigger] new[i].adj@).no_duplicates(),
        forall|i: int, y: usize|
            0 <= i < new.len() && #[trigger] new[i].adj@.contains(y) ==> orig[i].adj@.contains(y),
        forall|a: int, b: int| #[trigger] adj_to(new, a, b) ==> adj_to(new, b, a),
    ensures
        wf(new),
{
    assert forall|i: int, k: int|
        0 <= i < new.len() && 0 <= k < new[i].adj@.len() implies (#[trigger] new[i].adj@[k])
        < new.len() && new[i].adj@[k] != i by {
        let y = new[i].adj@[k];
        assert(new[i].adj@.contains(y));
        assert(orig[i].adj@.contains(y));
        let m = choose|m: int| 0 <= m < orig[i].adj@.len() && orig[i].adj@[m] == y;
        assert(orig[i].adj@[m] < orig.len() && orig[i].adj@[m] != i);
    }
}

pub(crate) proof fn lemma_push_contains(s: Seq<usize>, x: usize, y: usize)
    ensures
        s.push(x).contains(y) <==> (s.contains(y) || y == x),
{
    if s.contains(y) {
        let k = choose|k: int| 0 <= k < s.len() && s[k] == y;
        assert(s.push(x)[k] == y);
    }
    if y == x {
        assert(s.push(x)[s.len() as int] == y);
    }
    if s.push(x).contains(y) {
        let k = choose|k: int| 0 <= k < s.push(x).len() && s.push(x)[k] == y;
        if k < s.len() {
            assert(s[k] == y);
        }
    }
}

pub(crate) proof fn lemma_push_no_dup(s: Seq<usize>, x: usize)
    requires
        s.no_duplicates(),
        !s.contains(x),
    ensures
        s.push(x).no_duplicates(),
{
    let t = s.push(x);
    assert forall|k1: int, k2: int| 0 <= k1 < k2 < t.len() implies t[k1] != t[k2] by {
        if k2 < s.len() {
            assert(t[k1] == s[k1] && t[k2] == s[k2]);
        } else {
            assert(t[k2] == x);
            assert(t[k1] == s[k1]);
            assert(s.contains(s[k1]));
        }
    }
}

/// Remove the first occurrence of `x` from `v`, if there is one.
fn remove_value_once(v: &mut Vec<usize>, x: usize)
    requires
        old(v)@.no_duplicates(),
    ensures
        final (v)@.no_duplicates(),
        forall|y: usize| final (v)@.contains(y) <==> (old(v)@.contains(y) && y != x),
        old(v)@.contains(x) ==> final (v)@.len() == old(v)@.len() - 1,
        !old(v)@.contains(x) ==> final (v)@ == old(v)@,
{
    let ghost orig = v@;
    let mut k: usize = 0;
    while k < v.len()
        invariant
            v@ == orig,
            orig == old(v)@,
            orig.no_duplicates(),
            k <= orig.len(),
            forall|m: int| 0 <= m < k ==> orig[m] != x,
        decreases orig.len() - k,
    {
        if v[k] == x {
            assert(orig[k as int] == x);
            v.remove(k);
            proof {
                orig.remove_ensures(k as int);
                assert(v@ == orig.remove(k as int));
                assert forall|y: usize| v@.contains(y) implies (orig.contains(y) && y != x) by {
                    assert(orig.remove(k as int).contains(y));
                    let m = choose|m: int|
                        0 <= m < orig.remove(k as int).len() && orig.remove(k as int)[m] == y;
                    if m < k {
                        assert(orig.remove(k as int)[m] == orig[m]);
                        assert(orig[m] == y && orig[m] != x);
                    } else {
                        assert(orig.remove(k as int)[m] == orig[m + 1]);
                        assert(orig[m + 1] == y);
                        if y == x {
                            assert(orig[k as int] != orig[m + 1]);
                        }
                    }
                }
                assert forall|y: usize| (orig.contains(y) && y != x) implies v@.contains(y) by {
                    let m = choose|m: int| 0 <= m < orig.len() && orig[m] == y;
                    assert(m != k);
                    if m < k {
                        assert(orig.remove(k as int)[m] == orig[m]);
                        assert(v@[m] == y);
                    } else {
                        assert(orig.remove(k as int)[m - 1] == orig[m]);
                        assert(v@[m - 1] == y);
                    }
                }
                assert forall|k1: int, k2: int| 0 <= k1 < k2 < v@.len() implies v@[k1] != v@[k2] by {
                    if k2 < k {
                        assert(orig.remove(k as int)[k1] == orig[k1]);
                        assert(orig.remove(k as int)[k2] == orig[k2]);
                    } else if k1 < k {
                        assert(orig.remove(k as int)[k1] == orig[k1]);
                        assert(orig.remove(k as int)[k2] == orig[k2 + 1]);
                    } else {
                        assert(orig.remove(k as int)[k1] == orig[k1 + 1]);
                        assert(orig.remove(k as int)[k2] == orig[k2 + 1]);
                    }
                }
                assert(orig.contains(x));
            }
            return ;
        }
        k = k + 1;
    }
    proof {
        if orig.contains(x) {
            let m = choose|m: int| 0 <= m < orig.len() && orig[m] == x;
            assert(orig[m] != x);
        }
    }
}

impl<T> Node<T> {
    /// Connect nodes `i` and `j` both ways. Adding an edge is idempotent and
    /// a node is never connected to itself, so adjacency stays symmetric,
    /// deduplicated and free of self-loops.
    pub fn connect(nodes: &mut Vec<Node<T>>, i: usize, j: usize)
        requires
            wf(old(nodes)@),
            i < old(nodes)@.len(),
            j < old(nodes)@.len(),
        ensures
            wf(final (nodes)@),
            final (nodes)@.len() == old(nodes)@.len(),
            forall|k: int|
                0 <= k < old(nodes)@.len() && k != i && k != j ==> final (nodes)@[k] == old(
                    nodes,
                )@[k],
            same_but_adj(old(nodes)@[i as int], final (nodes)@[i as int]),
            same_but_adj(old(nodes)@[j as int], final (nodes)@[j as int]),
            final (nodes)@[i as int].adj@ == if i == j || old(nodes)@[i as int].adj@.contains(j) {
                old(nodes)@[i as int].adj@
            } else {
                old(nodes)@[i as int].adj@.push(j)
            },
            final (nodes)@[j as int].adj@ == if i == j || old(nodes)@[i as int].adj@.contains(j) {
                old(nodes)@[j as int].adj@
            } else {
                old(nodes)@[j as int].adj@.push(i)
            },
            forall|a: int, b: int|
                #![trigger adj_to(final (nodes)@, a, b)]
                #![trigger adj_to(old(nodes)@, a, b)]
                adj_to(final (nodes)@, a, b) <==> adj_to(old(nodes)@, a, b) || (i != j && ((a == i
                    && b == j) || (a == j && b == i))),
    {
        let ghost orig = nodes@;
        if i == j {
            return ;
        }
        if nodes[i].has_adj(j) {
            proof {
                assert forall|a: int, b: int|
                    adj_to(nodes@, a, b) <==> adj_to(orig, a, b) || (i != j && ((a == i && b == j)
                        || (a == j && b == i))) by {
                    if a == i && b == j {
                        assert(adj_to(orig, i as int, j as int));
                    }
                    if a == j && b == i {
                        assert(adj_to(orig, i as int, j as int));
                        assert(adj_to(orig, j as int, i as int));
                    }
                }
            }
            return ;
        }
        let mut ni = nodes.remove(i);
        ni.adj.push(j);
        nodes.insert(i, ni);
        proof {
            assert(nodes@ =~= orig.update(i as int, nodes@[i as int]));
        }
        let mut nj = nodes.remove(j);
        nj.adj.push(i);
        nodes.insert(j, nj);
        proof {
            let mid = orig.update(i as int, Node { adj: nodes@[i as int].adj, ..orig[i as int] });
            assert(nodes@ =~= orig.update(i as int, nodes@[i as int]).update(
                j as int,
                nodes@[j as int],
            ));
            assert(nodes@[i as int].adj@ == orig[i as int].adj@.push(j));
            assert(nodes@[j as int].adj@ == orig[j as int].adj@.push(i));
            // j was not on i's list (checked above); i was not on j's list, by symmetry.
            assert(!orig[j as int].adj@.contains(i)) by {
                if orig[j as int].adj@.contains(i) {
                    assert(adj_to(orig, j as int, i as int));
                    assert(adj_to(orig, i as int, j as int));
                }
            }
            lemma_push_no_dup(orig[i as int].adj@, j);
            lemma_push_no_dup(orig[j as int].adj@, i);
            lemma_push_contains(orig[i as int].adj@, j, j);
            lemma_push_contains(orig[j as int].adj@, i, i);
            assert forall|a: int, b: int|
                adj_to(nodes@, a, b) <==> adj_to(orig, a, b) || ((a == i && b == j) || (a == j && b
                    == i)) by {
                if 0 <= a < orig.len() && 0 <= b < orig.len() {
                    if a == i {
                        lemma_push_contains(orig[i as int].adj@, j, b as usize);
                    } else if a == j {
                        lemma_push_contains(orig[j as int].adj@, i, b as usize);
                    }
                }
            }
            assert forall|a: int, b: int| adj_to(nodes@, a, b) implies adj_to(nodes@, b, a) by {
                if adj_to(nodes@, a, b) {
                    if adj_to(orig, a, b) {
                        assert(adj_to(orig, b, a));
                    }
                }
            }
        }
    }

    /// Remove any adjacency between nodes `i` and `j`, both ways. Severing a
    /// pair that is not connected leaves the graph unchanged.
    pub fn disconnect(nodes: &mut Vec<Node<T>>, i: usize, j: usize)
        requires
            wf(old(nodes)@),
            i < old(nodes)@.len(),
            j < old(nodes)@.len(),
        ensures
            wf(final (nodes)@),
            final (nodes)@.len() == old(nodes)@.len(),
            forall|k: int|
                0 <= k < old(nodes)@.len() && k != i && k != j ==> final (nodes)@[k] == old(
                    nodes,
                )@[k],
            same_but_adj(old(nodes)@[i as int], final (nodes)@[i as int]),
            same_but_adj(old(nodes)@[j as int], final (nodes)@[j as int]),
            forall|x: usize|
                final (nodes)@[i as int].adj@.contains(x) <==> (old(
                    nodes,
                )@[i as int].adj@.contains(x) && !(i != j && x == j)),
            forall|x: usize|
                final (nodes)@[j as int].adj@.contains(x) <==> (old(
                    nodes,
                )@[j as int].adj@.contains(x) && !(i != j && x == i)),
            forall|a: int, b: int|
                #![trigger adj_to(final (nodes)@, a, b)]
                #![trigger adj_to(old(nodes)@, a, b)]
                adj_to(final (nodes)@, a, b) <==> adj_to(old(nodes)@, a, b) && !((a == i && b == j)
                    || (a == j && b == i)),
    {
        let ghost orig = nodes@;
        if i == j {
            proof {
                assert forall|a: int, b: int|
                    adj_to(nodes@, a, b) <==> adj_to(orig, a, b) && !((a == i && b == j) || (a == j
                        && b == i)) by {
                    if a == i && b == i {
                        lemma_no_self_loops(orig, i as int);
                    }
                }
            }
            return ;
        }
        let mut ni = nodes.remove(i);
        remove_value_once(&mut ni.adj, j);
        nodes.insert(i, ni);
        proof {
            assert(nodes@ =~= orig.update(i as int, nodes@[i as int]));
        }
        let mut nj = nodes.remove(j);
        remove_value_once(&mut nj.adj, i);
        nodes.insert(j, nj);
        proof {
            assert(nodes@ =~= orig.update(i as int, nodes@[i as int]).update(
                j as int,
                nodes@[j as int],
            ));
            assert forall|a: int, b: int|
                adj_to(nodes@, a, b) <==> (adj_to(orig, a, b) && !((a == i && b == j) || (a == j
                    && b == i))) by {
                if 0 <= a < orig.len() && 0 <= b < orig.len() {
                    if a == i {
                        assert(nodes@[a].adj@.contains(b as usize) <==> (orig[a].adj@.contains(
                            b as usize,
                        ) && !(i != j && b == j)));
                    } else if a == j {
                        assert(nodes@[a].adj@.contains(b as usize) <==> (orig[a].adj@.contains(
                            b as usize,
                        ) && !(i != j && b == i)));
                    } else {
                        assert(nodes@[a] == orig[a]);
                    }
                }
            }
            assert forall|a: int, b: int| #[trigger] adj_to(nodes@, a, b) implies adj_to(
                nodes@,
                b,
                a,
            ) by {
                assert(adj_to(orig, a, b));
                assert(adj_to(orig, b, a));
            }
            lemma_subgraph_wf(orig, nodes@);
        }
    }

    /// A fresh, uncolored, unmarked node with an empty adjacency list.
    pub fn new(id: usize, content: T) -> (n: Node<T>)
        ensures
            n.id == id,
            n.color == -1,
            !n.marked,
            !n.intern_mark,
            n.dist == 0,
            n.adj@ == Seq::<usize>::empty(),
            n.content == content,
    {
        Node {
            id,
            color: -1,
            marked: false,
            intern_mark: false,
            dist: 0,
            adj: Vec::new(),
            content,
        }
    }

    /// The node's id, as an array index.
    pub fn index(&self) -> (r: usize)
        ensures
            r == self.id,
    {
        self.id
    }

    /// The node's id.
    pub fn id(&self) -> (r: usize)
        ensures
            r == self.id,
    {
        self.id
    }

    /// Number of neighbours.
    pub fn degree(&self) -> (r: usize)
        ensures
            r == self.adj@.len(),
    {
        self.adj.len()
    }

    /// The scratch traversal distance.
    pub fn dist(&self) -> (r: usize)
        ensures
            r == self.dist,
    {
        self.dist
    }

    /// Reset the scratch traversal distance.
    pub fn reset_dist(&mut self)
        ensures
            final (self).dist == 0,
            final (self).adj@ == old(self).adj@,
            final (self).id == old(self).id,
            final (self).color == old(self).color,
            final (self).marked == old(self).marked,
            final (self).intern_mark == old(self).intern_mark,
            final (self).content == old(self).content,
    {
        self.dist = 0;
    }

    /// Set the persistent mark.
    pub fn mark(&mut self)
        ensures
            final (self).marked,
            final (self).id == old(self).id,
            final (self).color == old(self).color,
            final (self).intern_mark == old(self).intern_mark,
            final (self).dist == old(self).dist,
            final (self).adj@ == old(self).adj@,
            final (self).content == old(self).content,
    {
        self.marked = true;
    }

    /// Clear the persistent mark.
    pub fn unmark(&mut self)
        ensures
            !final (self).marked,
            final (self).id == old(self).id,
            final (self).color == old(self).color,
            final (self).intern_mark == old(self).intern_mark,
            final (self).dist == old(self).dist,
            final (self).adj@ == old(self).adj@,
            final (self).content == old(self).content,
    {
        self.marked = false;
    }

    /// Clear the transient mark used by nested traversals.
    pub fn intern_unmark(&mut self)
        ensures
            !final (self).intern_mark,
            final (self).id == old(self).id,
            final (self).color == old(self).color,
            final (self).marked == old(self).marked,
            final (self).dist == old(self).dist,
            final (self).adj@ == old(self).adj@,
            final (self).content == old(self).content,
    {
        self.intern_mark = false;
    }

    /// Whether the persistent mark is set.
    pub fn is_marked(&self) -> (r: bool)
        ensures
            r == self.marked,
    {
        self.marked
    }

    /// The node's color, `-1` while uncolored.
    pub fn color(&self) -> (r: i32)
        ensures
            r == self.color,
    {
        self.color
    }

    /// Overwrite the node's color.
    pub fn set_color(&mut self, col: i32)
        ensures
            final (self).color == col,
            final (self).id == old(self).id,
            final (self).marked == old(self).marked,
            final (self).intern_mark == old(self).intern_mark,
            final (self).dist == old(self).dist,
            final (self).adj@ == old(self).adj@,
            final (self).content == old(self).content,
    {
        self.color = col;
    }

    /// Two nodes are the same node exactly when their ids agree.
    pub fn equals(&self, n: &Node<T>) -> (r: bool)
        ensures
            r == (self.id == n.id),
    {
        self.id == n.id
    }

    /// Whether `j` appears on this node's adjacency list.
    pub fn has_adj(&self, j: usize) -> (r: bool)
        ensures
            r == self.adj@.contains(j),
    {
        let mut k: usize = 0;
        while k < self.adj.len()
            invariant
                k <= self.adj@.len(),
                forall|m: int| 0 <= m < k ==> self.adj@[m] != j,
            decreases self.adj@.len() - k,
        {
            if self.adj[k] == j {
                assert(self.adj@[k as int] == j);
                return true;
            }
            k = k + 1;
        }
        false
    }

    /// Whether this node is adjacent to `node`.
    pub fn is_adj_to(&self, node: &Node<T>) -> (r: bool)
        ensures
            r == self.adj@.contains(node.id),
    {
        self.has_adj(node.id)
    }

    /// Number of neighbours the two nodes share. `node`'s adjacency list must
    /// be deduplicated, so every shared neighbour is counted once.
    pub fn nb_common_adj(&self, node: &Node<T>) -> (r: usize)
        requires
            node.adj@.no_duplicates(),
        ensures
            r == common_pairs(self.adj@, node.adj@),
            r <= self.adj@.len(),
    {
        let a_len = self.adj.len();
        let b_len = node.adj.len();
        let mut nb_common: usize = 0;
        let mut k1: usize = 0;
        while k1 < a_len
            invariant
                node.adj@.no_duplicates(),
                a_len == self.adj@.len(),
                b_len == node.adj@.len(),
                k1 <= a_len,
                nb_common == common_pairs_upto(self.adj@, node.adj@, k1 as int),
                nb_common <= k1,
            decreases a_len - k1,
        {
            let x = self.adj[k1];
            let mut c: usize = 0;
            let mut k2: usize = 0;
            while k2 < b_len
                invariant
                    b_len == node.adj@.len(),
                    k2 <= b_len,
                    x == self.adj@[k1 as int],
                    c == count_in_upto(node.adj@, x, k2 as int),
                    c <= k2,
                decreases b_len - k2,
            {
                if node.adj[k2] == x {
                    c = c + 1;
                }
                k2 = k2 + 1;
            }
            proof {
                lemma_count_in_dedup(node.adj@, x, node.adj@.len() as int);
            }
            nb_common = nb_common + c;
            k1 = k1 + 1;
        }
        nb_common
    }

    /// Build the saturation buckets of node `i`: slot `c` is set exactly when
    /// some neighbour of `i` carries color `c`.
    fn color_buckets(nodes: &Vec<Node<T>>, i: usize, nb_colors: usize) -> (buckets: Vec<bool>)
        requires
            wf(nodes@),
            i < nodes@.len(),
            nb_colors + 1 <= usize::MAX,
            forall|m: int|
                0 <= m < nodes@[i as int].adj@.len() ==> nodes@[(#[trigger] nodes@[i as int].adj@[m]) as int].color
                    <= nb_colors,
        ensures
            buckets@.len() == nb_colors + 1,
            forall|cc: int|
                0 <= cc < buckets@.len() ==> ((#[trigger] buckets@[cc]) <==> uses_color(
                    nodes@,
                    i as int,
                    cc,
                )),
    {
        let mut buckets: Vec<bool> = Vec::new();
        let mut s: usize = 0;
        while s < nb_colors + 1
            invariant
                s <= nb_colors + 1,
                nb_colors + 1 <= usize::MAX,
                buckets@.len() == s,
                forall|cc: int| 0 <= cc < s ==> !(#[trigger] buckets@[cc]),
            decreases nb_colors + 1 - s,
        {
            buckets.push(false);
            s = s + 1;
        }
        let deg = nodes[i].adj.len();
        let mut m: usize = 0;
        while m < deg
            invariant
                wf(nodes@),
                i < nodes@.len(),
                deg == nodes@[i as int].adj@.len(),
                m <= deg,
                buckets@.len() == nb_colors + 1,
                forall|mm: int|
                    0 <= mm < deg ==> nodes@[(#[trigger] nodes@[i as int].adj@[mm]) as int].color
                        <= nb_colors,
                forall|cc: int|
                    0 <= cc < buckets@.len() ==> ((#[trigger] buckets@[cc]) <==> uses_color_upto(
                        nodes@,
                        i as int,
                        cc,
                        m as int,
                    )),
            decreases deg - m,
        {
            let a = nodes[i].adj[m];
            proof {
                assert(nodes@[i as int].adj@[m as int] < nodes@.len());
            }
            let c = nodes[a].color;
            let ghost prev = buckets@;
            if c >= 0 {
                assert(c <= nb_colors);
                buckets.set(c as usize, true);
            }
            proof {
                assert forall|cc: int| 0 <= cc < buckets@.len() implies ((#[trigger] buckets@[cc])
                    <==> uses_color_upto(nodes@, i as int, cc, m + 1)) by {
                    if c >= 0 && cc == c {
                        assert(0 <= m < m + 1 && m < nodes@[i as int].adj@.len() && nodes@[(nodes@[i as int].adj@[m as int]) as int].color
                            == cc);
                        assert(uses_color_upto(nodes@, i as int, cc, m + 1));
                        assert(buckets@[cc]);
                    } else {
                        assert(buckets@[cc] == prev[cc]);
                        if uses_color_upto(nodes@, i as int, cc, m + 1) {
                            let w = choose|w: int|
                                0 <= w < m + 1 && w < nodes@[i as int].adj@.len()
                                    && nodes@[(nodes@[i as int].adj@[w]) as int].color == cc;
                            if w == m {
                                assert(cc == c);
                            } else {
                                assert(uses_color_upto(nodes@, i as int, cc, m as int));
                            }
                        }
                        if uses_color_upto(nodes@, i as int, cc, m as int) {
                            let w = choose|w: int|
                                0 <= w < m && w < nodes@[i as int].adj@.len()
                                    && nodes@[(nodes@[i as int].adj@[w]) as int].color == cc;
                            assert(uses_color_upto(nodes@, i as int, cc, m + 1));
                        }
                    }
                }
            }
            m = m + 1;
        }
        buckets
    }

    /// The saturation degree of node `i`: the number of distinct colors in
    /// `[0, nb_colors + 1)` already used by its neighbours.
    pub fn dsat(nodes: &Vec<Node<T>>, i: usize, nb_colors: usize) -> (r: usize)
        requires
            wf(nodes@),
            i < nodes@.len(),
            nb_colors + 1 <= usize::MAX,
            forall|m: int|
                0 <= m < nodes@[i as int].adj@.len() ==> nodes@[(#[trigger] nodes@[i as int].adj@[m]) as int].color
                    <= nb_colors,
        ensures
            r == nb_used_colors_upto(nodes@, i as int, nb_colors + 1),
    {
        let buckets = Self::color_buckets(nodes, i, nb_colors);
        let mut count: usize = 0;
        let mut cc: usize = 0;
        while cc < buckets.len()
            invariant
                buckets@.len() == nb_colors + 1,
                cc <= buckets@.len(),
                count <= cc,
                forall|c: int|
                    0 <= c < buckets@.len() ==> ((#[trigger] buckets@[c]) <==> uses_color(
                        nodes@,
                        i as int,
                        c,
                    )),
                count == nb_used_colors_upto(nodes@, i as int, cc as int),
            decreases buckets@.len() - cc,
        {
            if buckets[cc] {
                count = count + 1;
            }
            cc = cc + 1;
        }
        count
    }

    /// Give node `i` the smallest non-negative color not used by any of its
    /// neighbours, and return it. `nb_colors` must bound the colors currently
    /// in use.
    pub fn color_with_min(nodes: &mut Vec<Node<T>>, i: usize, nb_colors: usize) -> (c: i32)
        requires
            wf(old(nodes)@),
            i < old(nodes)@.len(),
            nb_colors + 2 <= i32::MAX,
            forall|m: int|
                0 <= m < old(nodes)@[i as int].adj@.len() ==> old(nodes)@[(#[trigger] old(
                    nodes,
                )@[i as int].adj@[m]) as int].color <= nb_colors,
        ensures
            wf(final (nodes)@),
            final (nodes)@.len() == old(nodes)@.len(),
            forall|k: int|
                0 <= k < old(nodes)@.len() && k != i ==> final (nodes)@[k] == old(nodes)@[k],
            same_but_color(old(nodes)@[i as int], final (nodes)@[i as int]),
            final (nodes)@[i as int].color == c,
            0 <= c <= nb_colors + 1,
            !uses_color(old(nodes)@, i as int, c as int),
            !uses_color(final (nodes)@, i as int, c as int),
            forall|cc: int| 0 <= cc < c ==> uses_color(old(nodes)@, i as int, cc),
            forall|cc: int| 0 <= cc < c ==> uses_color(final (nodes)@, i as int, cc),
    {
        let ghost orig = nodes@;
        let buckets = Self::color_buckets(nodes, i, nb_colors);
        let mut chosen: usize = nb_colors + 1;
        let mut cc: usize = 0;
        while cc < buckets.len()
            invariant_except_break
                buckets@.len() == nb_colors + 1,
                cc <= buckets@.len(),
                chosen == nb_colors + 1,
                forall|c0: int| 0 <= c0 < cc ==> #[trigger] buckets@[c0],
            ensures
                chosen <= nb_colors + 1,
                forall|c0: int| 0 <= c0 < chosen && c0 < buckets@.len() ==> #[trigger] buckets@[c0],
                chosen < buckets@.len() ==> !buckets@[chosen as int],
                chosen == nb_colors + 1 ==> forall|c0: int|
                    0 <= c0 < buckets@.len() ==> #[trigger] buckets@[c0],
            decreases buckets@.len() - cc,
        {
            if !buckets[cc] {
                chosen = cc;
                break ;
            }
            cc = cc + 1;
        }
        proof {
            assert forall|c0: int| 0 <= c0 < chosen implies uses_color(orig, i as int, c0) by {
                assert(buckets@[c0]);
            }
            if chosen == nb_colors + 1 && uses_color(orig, i as int, chosen as int) {
                let w = choose|w: int|
                    0 <= w < orig[i as int].adj@.len() && orig[(orig[i as int].adj@[w]) as int].color
                        == chosen;
                assert(orig[(orig[i as int].adj@[w]) as int].color <= nb_colors);
            }
            assert(!uses_color(orig, i as int, chosen as int));
        }
        let col: i32 = chosen as i32;
        let mut ni = nodes.remove(i);
        ni.color = col;
        nodes.insert(i, ni);
        proof {
            assert(nodes@ =~= orig.update(i as int, nodes@[i as int]));
            lemma_no_self_loops(orig, i as int);
            assert forall|k: int| 0 <= k < nodes@.len() implies (#[trigger] nodes@[k].id)
                == orig[k].id && nodes@[k].adj@ == orig[k].adj@ by {}
            lemma_wf_same_adjacency(orig, nodes@);
            assert forall|cc0: int|
                #![trigger uses_color(nodes@, i as int, cc0)]
                #![trigger uses_color(orig, i as int, cc0)]
                0 <= cc0 <= nb_colors + 1 implies (uses_color(nodes@, i as int, cc0) <==> uses_color(
                orig,
                i as int,
                cc0,
            )) by {
                assert(nodes@[i as int].adj@ == orig[i as int].adj@);
                if uses_color(nodes@, i as int, cc0) {
                    let w = choose|w: int|
                        0 <= w < nodes@[i as int].adj@.len() && nodes@[(nodes@[i as int].adj@[w]) as int].color
                            == cc0;
                    assert(orig[i as int].adj@[w] != i);
                    assert(orig[(orig[i as int].adj@[w]) as int].color == cc0);
                    assert(uses_color(orig, i as int, cc0));
                }
                if uses_color(orig, i as int, cc0) {
                    let w = choose|w: int|
                        0 <= w < orig[i as int].adj@.len() && orig[(orig[i as int].adj@[w]) as int].color
                            == cc0;
                    assert(orig[i as int].adj@[w] != i);
                    assert(nodes@[(nodes@[i as int].adj@[w]) as int].color == cc0);
                    assert(uses_color(nodes@, i as int, cc0));
                }
            }
        }
        col
    }

    /// The first node that still carries no color, if any is left.
    fn first_uncolored(nodes: &Vec<Node<T>>) -> (r: Option<usize>)
        ensures
            match r {
                Some(f) => f < nodes@.len() && nodes@[f as int].color < 0 && forall|m: int|
                    0 <= m < f ==> (#[trigger] nodes@[m].color) >= 0,
                None => forall|m: int|
                    0 <= m < nodes@.len() ==> (#[trigger] nodes@[m].color) >= 0,
            },
    {
        let mut f: usize = 0;
        while f < nodes.len()
            invariant
                f <= nodes@.len(),
                forall|m: int| 0 <= m < f ==> (#[trigger] nodes@[m].color) >= 0,
            decreases nodes@.len() - f,
        {
            if nodes[f].color < 0 {
                return Some(f);
            }
            f = f + 1;
        }
        None
    }

    /// Color the whole graph with the DSATUR greedy heuristic and return the
    /// number of colors used.
    ///
    /// Among the uncolored nodes, the next node to color is one of maximal
    /// saturation degree, ties broken by maximal raw degree; it receives the
    /// smallest color not used by any neighbour. The heuristic order only
    /// influences which proper coloring comes out; the contract states what
    /// every run guarantees: every node ends with a color in `[0, chrom)`,
    /// adjacent nodes never share a color, a node's color never exceeds the
    /// number of distinct neighbour colors below it (so never its degree),
    /// and `chrom` is exactly one more than the largest color assigned.
    pub fn color_graph(nodes: &mut Vec<Node<T>>) -> (chrom: i32)
        requires
            wf(old(nodes)@),
            0 < old(nodes)@.len() <= 0x7fff_fffe,
            forall|k: int| 0 <= k < old(nodes)@.len() ==> (#[trigger] old(nodes)@[k].color) == -1,
        ensures
            wf(final (nodes)@),
            final (nodes)@.len() == old(nodes)@.len(),
            forall|k: int|
                0 <= k < old(nodes)@.len() ==> same_but_color(
                    #[trigger] old(nodes)@[k],
                    final (nodes)@[k],
                ),
            forall|k: int|
                0 <= k < final (nodes)@.len() ==> 0 <= (#[trigger] final (nodes)@[k].color)
                    < chrom,
            forall|k: int|
                0 <= k < final (nodes)@.len() ==> (#[trigger] final (nodes)@[k].color) <= final (
                nodes)@[k].adj@.len(),
            exists|w: int| 0 <= w < final (nodes)@.len() && final (nodes)@[w].color == chrom - 1,
            1 <= chrom <= final (nodes)@.len(),
            forall|a: int, b: int|
                #[trigger] adj_to(final (nodes)@, a, b) ==> final (nodes)@[a].color != final (
                nodes)@[b].color,
            forall|a: int, cc: int|
                0 <= a < final (nodes)@.len() && 0 <= cc < final (nodes)@[a].color
                    ==> uses_color(final (nodes)@, a, cc),
    {
        let ghost orig = nodes@;
        let n = nodes.len();
        let mut colored: usize = 0;
        let mut nb_chrom: i32 = -1;
        proof {
            lemma_num_colored_none(nodes@, n as int);
        }
        while colored < n
            invariant
                wf(nodes@),
                nodes@.len() == n,
                0 < n <= 0x7fff_fffe,
                orig == old(nodes)@,
                orig.len() == n,
                forall|k: int| 0 <= k < n ==> same_but_color(#[trigger] orig[k], nodes@[k]),
                colored == num_colored_upto(nodes@, n as int),
                colored <= n,
                -1 <= nb_chrom,
                nb_chrom + 1 <= colored,
                forall|k: int| 0 <= k < n ==> (#[trigger] nodes@[k].color) <= nb_chrom,
                forall|k: int| 0 <= k < n ==> -1 <= (#[trigger] nodes@[k].color),
                colored > 0 ==> exists|w: int| 0 <= w < n && nodes@[w].color == nb_chrom,
                forall|a: int, b: int|
                    #[trigger] adj_to(nodes@, a, b) && nodes@[a].color >= 0 && nodes@[b].color >= 0
                        ==> nodes@[a].color != nodes@[b].color,
                forall|a: int, cc: int|
                    0 <= a < n && 0 <= cc < nodes@[a].color ==> uses_color(nodes@, a, cc),
            decreases n - colored,
        {
            let nbc: usize = if nb_chrom < 0 {
                0
            } else {
                nb_chrom as usize
            };
            let first = match Self::first_uncolored(nodes) {
                Some(f) => f,
                None => {
                    proof {
                        lemma_num_colored_full(nodes@, n as int);
                        assert(false);
                    }
                    0
                },
            };
            let mut best = first;
            let mut best_dsat = Self::dsat(nodes, first, nbc);
            let mut a = first + 1;
            while a < n
                invariant
                    wf(nodes@),
                    nodes@.len() == n,
                    n <= 0x7fff_fffe,
                    nbc <= 0x7fff_fffe,
                    forall|k: int| 0 <= k < n ==> (#[trigger] nodes@[k].color) <= nbc,
                    a <= n,
                    best < n,
                    nodes@[best as int].color < 0,
                decreases n - a,
            {
                if nodes[a].color < 0 {
                    let d = Self::dsat(nodes, a, nbc);
                    let bd = nodes[best].adj.len();
                    let ad = nodes[a].adj.len();
                    if d > best_dsat || (d == best_dsat && bd < ad) {
                        best = a;
                        best_dsat = d;
                    }
                }
                a = a + 1;
            }
            let ghost prev = nodes@;
            let c = Self::color_with_min(nodes, best, nbc);
            proof {
                lemma_num_colored_update(prev, nodes@, best as int, n as int);
                // The very first node always receives color 0.
                if colored == 0 && c > 0 {
                    assert(uses_color(prev, best as int, 0));
                    let w = choose|w: int|
                        0 <= w < prev[best as int].adj@.len() && prev[(prev[best as int].adj@[w]) as int].color
                            == 0;
                    assert(prev[(prev[best as int].adj@[w]) as int].color <= nb_chrom);
                    assert(false);
                }
                // Adjacency is untouched, so well-formedness and the partial
                // coloring invariants carry over.
                assert forall|x: int, y: int|
                    #[trigger] adj_to(nodes@, x, y) && nodes@[x].color >= 0 && nodes@[y].color >= 0
                        implies nodes@[x].color != nodes@[y].color by {
                    assert(nodes@[x].adj@ == prev[x].adj@);
                    assert(adj_to(prev, x, y));
                    if x == best {
                        assert(y != best);
                        let w = choose|w: int|
                            0 <= w < nodes@[best as int].adj@.len()
                                && nodes@[best as int].adj@[w] == (y as usize);
                        if nodes@[y].color == c {
                            assert(nodes@[(nodes@[best as int].adj@[w]) as int].color == c);
                            assert(uses_color(nodes@, best as int, c as int));
                        }
                    } else if y == best {
                        let w = choose|w: int|
                            0 <= w < nodes@[best as int].adj@.len()
                                && nodes@[best as int].adj@[w] == (x as usize);
                        assert(adj_to(nodes@, y, x));
                        if nodes@[x].color == c {
                            assert(nodes@[(nodes@[best as int].adj@[w]) as int].color == c);
                            assert(uses_color(nodes@, best as int, c as int));
                        }
                    } else {
                        assert(prev[x].color == nodes@[x].color);
                        assert(prev[y].color == nodes@[y].color);
                    }
                }
                assert forall|x: int, cc: int|
                    0 <= x < n && 0 <= cc < nodes@[x].color implies uses_color(nodes@, x, cc) by {
                    if x != best {
                        assert(uses_color(prev, x, cc));
                        let w = choose|w: int|
                            0 <= w < prev[x].adj@.len() && prev[(prev[x].adj@[w]) as int].color
                                == cc;
                        assert(prev[(prev[x].adj@[w]) as int].color >= 0);
                        assert((prev[x].adj@[w]) as int != best as int);
                        assert(nodes@[x].adj@ == prev[x].adj@);
                        assert(nodes@[(nodes@[x].adj@[w]) as int].color == cc);
                        assert(uses_color(nodes@, x, cc));
                    }
                }
            }
            colored = colored + 1;
            if c > nb_chrom {
                nb_chrom = c;
            }
            proof {
                assert(colored > 0);
                if nodes@[best as int].color == nb_chrom {
                    assert(exists|w: int| 0 <= w < n && nodes@[w].color == nb_chrom);
                } else {
                    let w = choose|w: int| 0 <= w < n && prev[w].color == nb_chrom;
                    assert(w != best);
                    assert(nodes@[w].color == nb_chrom);
                }
            }
        }
        proof {
            lemma_num_colored_bound(nodes@, n as int);
            assert forall|k: int| 0 <= k < n implies 0 <= (#[trigger] nodes@[k].color) by {}
            assert forall|k: int| 0 <= k < n implies (#[trigger] nodes@[k].color)
                <= nodes@[k].adj@.len() by {
                lemma_min_color_le_degree(nodes@, k, nodes@[k].color as int);
            }
            assert(nb_chrom >= 0) by {
                let w = choose|w: int| 0 <= w < n && nodes@[w].color == nb_chrom;
                assert(nodes@[w].color >= 0);
            }
        }
        nb_chrom + 1
    }

    /// Breadth-first search from `start`: collect every node other than
    /// `start` that lies within graph distance `d` of it, each exactly once.
    /// The search keeps its own visited set, so nested traversals never share
    /// state.
    pub fn distant_nodes(nodes: &Vec<Node<T>>, start: usize, d: usize) -> (r: Vec<usize>)
        requires
            wf(nodes@),
            start < nodes@.len(),
        ensures
            forall|u: usize|
                #[trigger] r@.contains(u) <==> (u != start && u < nodes@.len() && reachable_within(
                    nodes@,
                    start as int,
                    u as int,
                    d as nat,
                )),
            r@.no_duplicates(),
    {
        let n = nodes.len();
        let mut visited: Vec<bool> = vec![false; n];
        let mut dist: Vec<usize> = vec![0; n];
        let mut queue: Vec<usize> = Vec::new();
        let mut r: Vec<usize> = Vec::new();
        let mut head: usize = 0;
        visited.set(start, true);
        queue.push(start);
        proof {
            assert(queue@[0] == start);
            lemma_push_no_dup(Seq::<usize>::empty(), start);
        }
        while head < queue.len()
            invariant
                wf(nodes@),
                n == nodes@.len(),
                start < n,
                visited@.len() == n,
                dist@.len() == n,
                head <= queue@.len(),
                queue@.len() <= n,
                queue@.no_duplicates(),
                r@.no_duplicates(),
                forall|m: int| 0 <= m < queue@.len() ==> (#[trigger] queue@[m]) < n,
                forall|m: int| 0 <= m < queue@.len() ==> visited@[(#[trigger] queue@[m]) as int],
                forall|v: int| 0 <= v < n && visited@[v] ==> queue@.contains(v as usize),
                visited@[start as int],
                dist@[start as int] == 0,
                forall|u: usize|
                    #[trigger] r@.contains(u) <==> (u != start && u < n && visited@[u as int]),
                forall|v: int|
                    0 <= v < n && visited@[v] ==> dist@[v] <= d && reachable_within(
                        nodes@,
                        start as int,
                        v,
                        dist@[v] as nat,
                    ),
                forall|q1: int, q2: int|
                    0 <= q1 <= q2 < queue@.len() ==> dist@[(#[trigger] queue@[q1]) as int] <= dist@[(
                    #[trigger] queue@[q2]) as int],
                forall|q2: int|
                    head <= q2 < queue@.len() ==> dist@[(#[trigger] queue@[q2]) as int] <= dist@[queue@[head as int] as int]
                        + 1,
                forall|qi: int, m: int|
                    0 <= qi < head && 0 <= m < nodes@[queue@[qi] as int].adj@.len() && dist@[queue@[qi] as int]
                        < d ==> visited@[(#[trigger] nodes@[queue@[qi] as int].adj@[m]) as int]
                        && dist@[nodes@[queue@[qi] as int].adj@[m] as int] <= dist@[queue@[qi] as int]
                        + 1,
            decreases n - head,
        {
            let cur = queue[head];
            let cd = dist[cur];
            if cd < d {
                let deg = nodes[cur].adj.len();
                let mut m: usize = 0;
                while m < deg
                    invariant
                        wf(nodes@),
                        n == nodes@.len(),
                        start < n,
                        visited@.len() == n,
                        dist@.len() == n,
                        head < queue@.len(),
                        queue@.len() <= n,
                        queue@.no_duplicates(),
                        r@.no_duplicates(),
                        cur == queue@[head as int],
                        cur < n,
                        visited@[cur as int],
                        cd == dist@[cur as int],
                        cd < d,
                        deg == nodes@[cur as int].adj@.len(),
                        m <= deg,
                        forall|mm: int| 0 <= mm < queue@.len() ==> (#[trigger] queue@[mm]) < n,
                        forall|mm: int|
                            0 <= mm < queue@.len() ==> visited@[(#[trigger] queue@[mm]) as int],
                        forall|v: int| 0 <= v < n && visited@[v] ==> queue@.contains(v as usize),
                        visited@[start as int],
                        dist@[start as int] == 0,
                        forall|u: usize|
                            #[trigger] r@.contains(u) <==> (u != start && u < n && visited@[u as int]),
                        forall|v: int|
                            0 <= v < n && visited@[v] ==> dist@[v] <= d && reachable_within(
                                nodes@,
                                start as int,
                                v,
                                dist@[v] as nat,
                            ),
                        forall|q1: int, q2: int|
                            0 <= q1 <= q2 < queue@.len() ==> dist@[(#[trigger] queue@[q1]) as int]
                                <= dist@[(#[trigger] queue@[q2]) as int],
                        forall|q2: int|
                            head <= q2 < queue@.len() ==> dist@[(#[trigger] queue@[q2]) as int]
                                <= cd + 1,
                        forall|qi: int, mm: int|
                            0 <= qi < head && 0 <= mm < nodes@[queue@[qi] as int].adj@.len()
                                && dist@[queue@[qi] as int] < d ==> visited@[(#[trigger] nodes@[queue@[qi] as int].adj@[mm]) as int]
                                && dist@[nodes@[queue@[qi] as int].adj@[mm] as int] <= dist@[queue@[qi] as int]
                                + 1,
                        forall|mm: int|
                            0 <= mm < m ==> visited@[(#[trigger] nodes@[cur as int].adj@[mm]) as int]
                                && dist@[nodes@[cur as int].adj@[mm] as int] <= cd + 1,
                    decreases deg - m,
                {
                    let nb = nodes[cur].adj[m];
                    proof {
                        assert(nodes@[cur as int].adj@[m as int] < n);
                        assert(nodes@[cur as int].adj@.contains(nodes@[cur as int].adj@[m as int]));
                        assert(adj_to(nodes@, cur as int, nb as int));
                    }
                    if !visited[nb] {
                        proof {
                            assert(!queue@.contains(nb)) by {
                                if queue@.contains(nb) {
                                    let w = choose|w: int|
                                        0 <= w < queue@.len() && queue@[w] == nb;
                                    assert(visited@[(queue@[w]) as int]);
                                }
                            }
                            assert(!r@.contains(nb));
                            lemma_push_no_dup(queue@, nb);
                            lemma_push_no_dup(r@, nb);
                        }
                        let ghost old_queue = queue@;
                        let ghost old_r = r@;
                        let ghost old_visited = visited@;
                        let ghost old_dist = dist@;
                        visited.set(nb, true);
                        dist.set(nb, cd + 1);
                        queue.push(nb);
                        r.push(nb);
                        proof {
                            lemma_distinct_bounded_len(queue@, n as nat);
                            assert(nb != start) by {
                                assert(old_visited[start as int]);
                            }
                            assert forall|u: usize| #[trigger] r@.contains(u) <==> (u != start && u
                                < n && visited@[u as int]) by {
                                lemma_push_contains(old_r, nb, u);
                                if u != nb && u < n {
                                    assert(visited@[u as int] == old_visited[u as int]);
                                }
                            }
                            assert forall|v: int| 0 <= v < n && visited@[v] implies queue@.contains(
                                v as usize,
                            ) by {
                                lemma_push_contains(old_queue, nb, v as usize);
                                if v != nb {
                                    assert(old_visited[v]);
                                }
                            }
                            assert forall|v: int|
                                0 <= v < n && visited@[v] implies dist@[v] <= d && reachable_within(
                                nodes@,
                                start as int,
                                v,
                                dist@[v] as nat,
                            ) by {
                                if v == nb {
                                    assert(reachable_within(
                                        nodes@,
                                        start as int,
                                        cur as int,
                                        cd as nat,
                                    ));
                                    assert(reachable_within(
                                        nodes@,
                                        start as int,
                                        v,
                                        (cd + 1) as nat,
                                    )) by {
                                        assert(0 <= cur < nodes@.len() && adj_to(
                                            nodes@,
                                            cur as int,
                                            v,
                                        ) && reachable_within(
                                            nodes@,
                                            start as int,
                                            cur as int,
                                            ((cd + 1) - 1) as nat,
                                        ));
                                    }
                                } else {
                                    assert(old_visited[v] && old_dist[v] == dist@[v]);
                                }
                            }
                            assert forall|q1: int, q2: int|
                                0 <= q1 <= q2 < queue@.len() implies dist@[(
                            #[trigger] queue@[q1]) as int] <= dist@[(#[trigger] queue@[q2]) as int] by {
                                if q2 < old_queue.len() {
                                    assert(queue@[q1] == old_queue[q1]);
                                    assert(queue@[q2] == old_queue[q2]);
                                    assert(old_queue[q1] != nb && old_queue[q2] != nb);
                                } else {
                                    assert(queue@[q2] == nb && dist@[nb as int] == cd + 1);
                                    if q1 < old_queue.len() {
                                        assert(queue@[q1] == old_queue[q1]);
                                        assert(old_queue[q1] != nb);
                                        if q1 < head {
                                            assert(old_dist[(old_queue[q1]) as int] <= old_dist[(
                                            old_queue[head as int]) as int]);
                                        } else {
                                            assert(old_dist[(old_queue[q1]) as int] <= cd + 1);
                                        }
                                    }
                                }
                            }
                            assert forall|q2: int|
                                head <= q2 < queue@.len() implies dist@[(
                            #[trigger] queue@[q2]) as int] <= cd + 1 by {
                                if q2 < old_queue.len() {
                                    assert(queue@[q2] == old_queue[q2]);
                                    assert(old_queue[q2] != nb);
                                } else {
                                    assert(queue@[q2] == nb);
                                }
                            }
                            assert forall|qi: int, mm: int|
                                0 <= qi < head && 0 <= mm < nodes@[queue@[qi] as int].adj@.len()
                                    && dist@[queue@[qi] as int] < d implies visited@[(
                            #[trigger] nodes@[queue@[qi] as int].adj@[mm]) as int] && dist@[nodes@[queue@[qi] as int].adj@[mm] as int]
                                <= dist@[queue@[qi] as int] + 1 by {
                                assert(queue@[qi] == old_queue[qi]);
                                assert(old_queue[qi] != nb);
                                let x = nodes@[(old_queue[qi]) as int].adj@[mm];
                                assert(old_visited[x as int]);
                                assert(x != nb);
                            }
                            assert forall|mm: int|
                                0 <= mm < m + 1 implies visited@[(
                            #[trigger] nodes@[cur as int].adj@[mm]) as int] && dist@[nodes@[cur as int].adj@[mm] as int]
                                <= cd + 1 by {
                                if mm < m {
                                    let x = nodes@[cur as int].adj@[mm];
                                    assert(old_visited[x as int]);
                                    assert(x != nb);
                                }
                            }
                            assert(cur == queue@[head as int]) by {
                                assert(queue@[head as int] == old_queue[head as int]);
                            }
                        }
                    } else {
                        proof {
                            assert(queue@.contains(nb));
                            let qn = choose|qn: int| 0 <= qn < queue@.len() && queue@[qn] == nb;
                            if qn < head {
                                assert(dist@[(queue@[qn]) as int] <= dist@[(queue@[head as int]) as int]);
                            } else {
                                assert(dist@[(queue@[qn]) as int] <= cd + 1);
                            }
                            assert(dist@[nb as int] <= cd + 1);
                        }
                    }
                    m = m + 1;
                }
            }
            head = head + 1;
            proof {
                assert forall|q2: int|
                    head <= q2 < queue@.len() implies dist@[(#[trigger] queue@[q2]) as int]
                    <= dist@[queue@[head as int] as int] + 1 by {
                    assert(dist@[(queue@[(head - 1) as int]) as int] <= dist@[(
                    queue@[head as int]) as int]);
                    assert(dist@[(queue@[q2]) as int] <= dist@[(queue@[(head - 1) as int]) as int]
                        + 1);
                }
            }
        }
        proof {
            assert forall|u: usize|
                #[trigger] r@.contains(u) <==> (u != start && u < n && reachable_within(
                    nodes@,
                    start as int,
                    u as int,
                    d as nat,
                )) by {
                if r@.contains(u) {
                    assert(visited@[u as int]);
                    lemma_reachable_mono(
                        nodes@,
                        start as int,
                        u as int,
                        dist@[u as int] as nat,
                        d as nat,
                    );
                }
                if u != start && u < n && reachable_within(nodes@, start as int, u as int, d as nat) {
                    lemma_bfs_complete(
                        nodes@,
                        start as int,
                        visited@,
                        dist@,
                        queue@,
                        d as nat,
                        u as int,
                        d as nat,
                    );
                }
            }
        }
        r
    }

    /// Whether the two nodes share at least `k` neighbours, counted as index
    /// pairs of their adjacency lists.
    pub fn share_k_adjs(&self, node: &Node<T>, k: usize) -> (r: bool)
        ensures
            r == (common_pairs(self.adj@, node.adj@) >= k),
    {
        if k == 0 {
            return true;
        }
        let a_len = self.adj.len();
        let b_len = node.adj.len();
        let mut count: usize = 0;
        let mut k1: usize = 0;
        while k1 < a_len
            invariant
                a_len == self.adj@.len(),
                b_len == node.adj@.len(),
                k1 <= a_len,
                count == common_pairs_upto(self.adj@, node.adj@, k1 as int),
                count < k,
            decreases a_len - k1,
        {
            let x = self.adj[k1];
            let mut k2: usize = 0;
            while k2 < b_len
                invariant
                    a_len == self.adj@.len(),
                    b_len == node.adj@.len(),
                    k1 < a_len,
                    k2 <= b_len,
                    x == self.adj@[k1 as int],
                    count == common_pairs_upto(self.adj@, node.adj@, k1 as int) + count_in_upto(
                        node.adj@,
                        x,
                        k2 as int,
                    ),
                    count < k,
                decreases b_len - k2,
            {
                if node.adj[k2] == x {
                    count = count + 1;
                    if count >= k {
                        proof {
                            lemma_count_in_upto_mono(node.adj@, x, k2 + 1, b_len as int);
                            lemma_common_pairs_upto_mono(
                                self.adj@,
                                node.adj@,
                                k1 + 1,
                                a_len as int,
                            );
                        }
                        return true;
                    }
                }
                k2 = k2 + 1;
            }
            proof {
                assert(count == common_pairs_upto(self.adj@, node.adj@, k1 + 1));
            }
            k1 = k1 + 1;
        }
        false
    }
}

} // verus!
