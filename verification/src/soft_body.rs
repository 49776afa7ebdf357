//! The structural side of the mass-spring solver: the point masses, the
//! constraint records that couple pairs of them, and their assembly from the
//! exported graph arrays.
//!
//! The solver is generic over the scalar type `N` and the vector type `V`
//! and never computes with them: rest lengths are handed in by the numeric
//! layer that owns those types, which also runs the semi-implicit
//! integration and the fixed-iteration projected Gauss-Seidel solve. What is
//! pinned down here is the structure those iterations rely on: which point
//! masses exist, which pair each constraint couples, and which endpoints are
//! anchored and must never be written to.

use vstd::prelude::*;

verus! {

/// One simulated point: inverse mass (zero encodes an immovable anchor),
/// velocity and position.
pub struct PointMass<N, V> {
    pub invmass: N,
    pub velocity: V,
    pub position: V,
}

/// One spring-like constraint: its stiffness, rest length, accumulated
/// impulse, and the indices of the two point masses it couples.
pub struct ConstraintsGeometry<N> {
    pub stiffness: N,
    pub rest_length: N,
    pub impulse: N,
    pub rb1: usize,
    pub rb2: usize,
}

/// A soft body: point masses plus the constraints coupling them, and the
/// external force applied during the current step.
pub struct SoftBody<N, V> {
    pub ext_forces: V,
    pub points: Vec<PointMass<N, V>>,
    pub constraints: Vec<ConstraintsGeometry<N>>,
}

/// `sb` is exactly the solver state that assembly from these arrays
/// produces: one point per vertex with zeroed velocity, one constraint per
/// endpoint pair with zeroed impulse and the supplied rest length.
pub open spec fn assembled_from<N, V>(
    sb: SoftBody<N, V>,
    vbuf: Seq<V>,
    ids1: Seq<usize>,
    ids2: Seq<usize>,
    invmasses: Seq<N>,
    stiffness: Seq<N>,
    rest_lengths: Seq<N>,
    zero_n: N,
    zero_v: V,
) -> bool {
    &&& sb.points@.len() == vbuf.len()
    &&& forall|k: int|
        0 <= k < vbuf.len() ==> (#[trigger] sb.points@[k]).invmass == invmasses[k]
            && sb.points@[k].velocity == zero_v && sb.points@[k].position == vbuf[k]
    &&& sb.constraints@.len() == ids1.len()
    &&& forall|k: int|
        0 <= k < ids1.len() ==> (#[trigger] sb.constraints@[k]).rb1 == ids1[k]
            && sb.constraints@[k].rb2 == ids2[k] && sb.constraints@[k].stiffness == stiffness[k]
            && sb.constraints@[k].rest_length == rest_lengths[k] && sb.constraints@[k].impulse
            == zero_n
    &&& sb.ext_forces == zero_v
}

/// Round trip: two solver states assembled from the same exported arrays
/// are structurally identical — in particular, identical endpoint pairs
/// carry identical rest lengths.
pub proof fn lemma_assembly_deterministic<N, V>(
    a: SoftBody<N, V>,
    b: SoftBody<N, V>,
    vbuf: Seq<V>,
    ids1: Seq<usize>,
    ids2: Seq<usize>,
    invmasses: Seq<N>,
    stiffness: Seq<N>,
    rest_lengths: Seq<N>,
    zero_n: N,
    zero_v: V,
)
    requires
        assembled_from(a, vbuf, ids1, ids2, invmasses, stiffness, rest_lengths, zero_n, zero_v),
        assembled_from(b, vbuf, ids1, ids2, invmasses, stiffness, rest_lengths, zero_n, zero_v),
    ensures
        a.points@.len() == b.points@.len(),
        forall|k: int|
            0 <= k < a.points@.len() ==> (#[trigger] a.points@[k]).position == b.points@[k].position
                && a.points@[k].invmass == b.points@[k].invmass && a.points@[k].velocity
                == b.points@[k].velocity,
        a.constraints@.len() == b.constraints@.len(),
        forall|k: int|
            0 <= k < a.constraints@.len() ==> (#[trigger] a.constraints@[k]).rb1
                == b.constraints@[k].rb1 && a.constraints@[k].rb2 == b.constraints@[k].rb2
                && a.constraints@[k].rest_length == b.constraints@[k].rest_length
                && a.constraints@[k].stiffness == b.constraints@[k].stiffness
                && a.constraints@[k].impulse == b.constraints@[k].impulse,
{
    assert forall|k: int|
        0 <= k < a.points@.len() implies (#[trigger] a.points@[k]).position
        == b.points@[k].position && a.points@[k].invmass == b.points@[k].invmass
        && a.points@[k].velocity == b.points@[k].velocity by {
        assert(a.points@[k].position == vbuf[k]);
        assert(b.points@[k].position == vbuf[k]);
    }
    assert forall|k: int|
        0 <= k < a.constraints@.len() implies (#[trigger] a.constraints@[k]).rb1
        == b.constraints@[k].rb1 && a.constraints@[k].rb2 == b.constraints@[k].rb2
        && a.constraints@[k].rest_length == b.constraints@[k].rest_length
        && a.constraints@[k].stiffness == b.constraints@[k].stiffness
        && a.constraints@[k].impulse == b.constraints@[k].impulse by {
        assert(a.constraints@[k].rb1 == ids1[k]);
        assert(b.constraints@[k].rb1 == ids1[k]);
    }
}

impl<N: Copy, V: Copy> SoftBody<N, V> {
    /// Assemble a soft body from the exported arrays: one point mass per
    /// vertex (position from the vertex buffer, velocity zeroed), one
    /// constraint per endpoint pair (impulse zeroed, rest length as supplied
    /// by the numeric layer, which measures the initial distance of the two
    /// endpoints). The vertex buffer and the inverse masses must agree in
    /// length, as must the endpoint pairs, stiffnesses and rest lengths, and
    /// every endpoint index must name a vertex.
    pub fn from_mesh(
        vbuf: &Vec<V>,
        ids1: &Vec<usize>,
        ids2: &Vec<usize>,
        invmasses: &Vec<N>,
        stiffness: &Vec<N>,
        rest_lengths: &Vec<N>,
        zero_n: N,
        zero_v: V,
    ) -> (sb: SoftBody<N, V>)
        requires
            vbuf@.len() == invmasses@.len(),
            ids1@.len() == ids2@.len(),
            stiffness@.len() == ids1@.len(),
            rest_lengths@.len() == ids1@.len(),
            forall|k: int| 0 <= k < ids1@.len() ==> (#[trigger] ids1@[k]) < vbuf@.len(),
            forall|k: int| 0 <= k < ids2@.len() ==> (#[trigger] ids2@[k]) < vbuf@.len(),
        ensures
            sb.points@.len() == vbuf@.len(),
            forall|k: int|
                0 <= k < vbuf@.len() ==> (#[trigger] sb.points@[k]).invmass == invmasses@[k]
                    && sb.points@[k].velocity == zero_v && sb.points@[k].position == vbuf@[k],
            sb.constraints@.len() == ids1@.len(),
            forall|k: int|
                0 <= k < ids1@.len() ==> (#[trigger] sb.constraints@[k]).rb1 == ids1@[k]
                    && sb.constraints@[k].rb2 == ids2@[k] && sb.constraints@[k].stiffness
                    == stiffness@[k] && sb.constraints@[k].rest_length == rest_lengths@[k]
                    && sb.constraints@[k].impulse == zero_n,
            forall|k: int|
                0 <= k < sb.constraints@.len() ==> (#[trigger] sb.constraints@[k]).rb1
                    < sb.points@.len() && sb.constraints@[k].rb2 < sb.points@.len(),
            sb.ext_forces == zero_v,
            assembled_from(
                sb,
                vbuf@,
                ids1@,
                ids2@,
                invmasses@,
                stiffness@,
                rest_lengths@,
                zero_n,
                zero_v,
            ),
    {
        let nv = vbuf.len();
        let mut points: Vec<PointMass<N, V>> = Vec::new();
        let mut k: usize = 0;
        while k < nv
            invariant
                nv == vbuf@.len(),
                vbuf@.len() == invmasses@.len(),
                k <= nv,
                points@.len() == k,
                forall|m: int|
                    0 <= m < k ==> (#[trigger] points@[m]).invmass == invmasses@[m]
                        && points@[m].velocity == zero_v && points@[m].position == vbuf@[m],
            decreases nv - k,
        {
            points.push(PointMass { invmass: invmasses[k], velocity: zero_v, position: vbuf[k] });
            k = k + 1;
        }
        let nc = ids1.len();
        let mut constraints: Vec<ConstraintsGeometry<N>> = Vec::new();
        let mut k: usize = 0;
        while k < nc
            invariant
                nc == ids1@.len(),
                ids1@.len() == ids2@.len(),
                stiffness@.len() == ids1@.len(),
                rest_lengths@.len() == ids1@.len(),
                k <= nc,
                constraints@.len() == k,
                forall|m: int|
                    0 <= m < k ==> (#[trigger] constraints@[m]).rb1 == ids1@[m]
                        && constraints@[m].rb2 == ids2@[m] && constraints@[m].stiffness
                        == stiffness@[m] && constraints@[m].rest_length == rest_lengths@[m]
                        && constraints@[m].impulse == zero_n,
            decreases nc - k,
        {
            constraints.push(
                ConstraintsGeometry {
                    stiffness: stiffness[k],
                    rest_length: rest_lengths[k],
                    impulse: zero_n,
                    rb1: ids1[k],
                    rb2: ids2[k],
                },
            );
            k = k + 1;
        }
        SoftBody { ext_forces: zero_v, points, constraints }
    }
}

/// The per-constraint endpoint ids with anchored endpoints masked out: an
/// endpoint whose point has inverse mass zero is replaced by `-1`, so the
/// solver never targets it and an anchored point's state cannot change.
pub fn masked_endpoint_ids(ids: &Vec<usize>, anchored: &Vec<bool>) -> (r: Vec<i64>)
    requires
        forall|k: int| 0 <= k < ids@.len() ==> (#[trigger] ids@[k]) < anchored@.len(),
        anchored@.len() <= 0x7fff_ffff_ffff_ffff,
    ensures
        r@.len() == ids@.len(),
        forall|k: int|
            0 <= k < ids@.len() ==> (#[trigger] r@[k]) == if anchored@[ids@[k] as int] {
                -1int
            } else {
                ids@[k] as int
            },
{
    let n = ids.len();
    let mut r: Vec<i64> = Vec::new();
    let mut k: usize = 0;
    while k < n
        invariant
            n == ids@.len(),
            k <= n,
            r@.len() == k,
            anchored@.len() <= 0x7fff_ffff_ffff_ffff,
            forall|m: int| 0 <= m < ids@.len() ==> (#[trigger] ids@[m]) < anchored@.len(),
            forall|m: int|
                0 <= m < k ==> (#[trigger] r@[m]) == if anchored@[ids@[m] as int] {
                    -1int
                } else {
                    ids@[m] as int
                },
        decreases n - k,
    {
        let id = ids[k];
        if anchored[id] {
            r.push(-1);
        } else {
            r.push(id as i64);
        }
        k = k + 1;
    }
    r
}

} // verus!
