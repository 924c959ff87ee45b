//! Binary BVH construction over triangle primitives, splitting by a binned
//! surface-area heuristic with a deterministic median fallback.
use vstd::prelude::*;
use vstd::seq_lib::*;
use rayon::iter::{IntoParallelRefIterator, ParallelIterator};

use crate::aabb::{Aabb, Point3};
use crate::indexer::{RawTriangle, MAX_MESH_TRIS};

verus! {

/// Number of fixed-width bins per axis during split evaluation.
pub const NUM_BINS: u64 = 12;

/// A terminal node: one primitive and its bounding box.
#[derive(Debug, PartialEq)]
pub struct BvhLeaf {
    pub aabb: Aabb,
    pub idx: u32,
}

/// A binary BVH node; a branch owns both children and bounds them.
#[derive(Debug, PartialEq)]
pub enum BvhNode {
    Leaf(BvhLeaf),
    Branch { left: Box<BvhNode>, right: Box<BvhNode>, aabb: Aabb },
}

impl BvhNode {
    /// The bounding box of this node.
    pub open spec fn spec_aabb(self) -> Aabb {
        match self {
            BvhNode::Leaf(l) => l.aabb,
            BvhNode::Branch { left, right, aabb } => aabb,
        }
    }

    /// The primitive indices of the subtree's leaves, left to right.
    pub open spec fn prims(self) -> Seq<u32>
        decreases self,
    {
        match self {
            BvhNode::Leaf(l) => seq![l.idx],
            BvhNode::Branch { left, right, aabb } => left.prims() + right.prims(),
        }
    }

    /// The number of leaves below this node.
    pub open spec fn leaf_count(self) -> nat {
        self.prims().len()
    }

    /// Every leaf primitive index is small enough for the signed child
    /// encoding of the flattened GPU nodes.
    pub open spec fn prims_bounded(self) -> bool {
        forall|k: int| 0 <= k < self.prims().len() ==> (#[trigger] self.prims()[k]) < 0x7FFF_FFFF
    }

    /// The number of nodes of the subtree, leaves and branches together.
    pub open spec fn size(self) -> nat
        decreases self,
    {
        match self {
            BvhNode::Leaf(l) => 1,
            BvhNode::Branch { left, right, aabb } => 1 + left.size() + right.size(),
        }
    }

    /// The bounding box of this node.
    pub fn get_aabb(&self) -> (r: Aabb)
        ensures
            r == self.spec_aabb(),
    {
        match self {
            BvhNode::Leaf(l) => l.aabb,
            BvhNode::Branch { left, right, aabb } => *aabb,
        }
    }

    /// Well-formed over the per-primitive boxes `aabbs`: every leaf carries
    /// its own primitive's box, and every branch carries exactly the merge
    /// of its children's boxes.
    pub open spec fn wf(self, aabbs: Seq<Aabb>) -> bool
        decreases self,
    {
        match self {
            BvhNode::Leaf(l) => l.idx < aabbs.len() && l.aabb == aabbs[l.idx as int],
            BvhNode::Branch { left, right, aabb } => {
                &&& left.wf(aabbs)
                &&& right.wf(aabbs)
                &&& aabb == left.spec_aabb().spec_merged(right.spec_aabb())
            },
        }
    }
}

/// Every subtree holds at least one primitive.
pub proof fn lemma_prims_len_pos(node: BvhNode)
    ensures
        node.prims().len() >= 1,
    decreases node,
{
    match node {
        BvhNode::Leaf(l) => {},
        BvhNode::Branch { left, right, aabb } => {
            lemma_prims_len_pos(*left);
            lemma_prims_len_pos(*right);
        },
    }
}

/// If a subtree's primitives are bounded, so are those of its two halves.
pub proof fn lemma_prims_bounded_parts(l: BvhNode, r: BvhNode, b: BvhNode)
    requires
        b.prims() == l.prims() + r.prims(),
        b.prims_bounded(),
    ensures
        l.prims_bounded(),
        r.prims_bounded(),
{
    assert forall|k: int| 0 <= k < l.prims().len() implies (#[trigger] l.prims()[k])
        < 0x7FFF_FFFF by {
        assert(b.prims()[k] == l.prims()[k]);
    }
    assert forall|k: int| 0 <= k < r.prims().len() implies (#[trigger] r.prims()[k])
        < 0x7FFF_FFFF by {
        assert(b.prims()[l.prims().len() + k] == r.prims()[k]);
    }
}

/// AABB soundness: in a well-formed tree, the box of every node encloses
/// the box of every primitive anywhere below it. Applied to each node of an
/// ancestor chain in turn, a primitive's box is enclosed by all of its
/// ancestors' boxes, transitively up to the root.
pub proof fn lemma_aabb_soundness(node: BvhNode, aabbs: Seq<Aabb>)
    requires
        node.wf(aabbs),
    ensures
        forall|k: int|
            0 <= k < node.prims().len() ==> node.spec_aabb().spec_encloses(
                aabbs[#[trigger] node.prims()[k] as int],
            ),
    decreases node,
{
    match node {
        BvhNode::Leaf(l) => {
            assert(node.prims() =~= seq![l.idx]);
        },
        BvhNode::Branch { left, right, aabb } => {
            lemma_aabb_soundness(*left, aabbs);
            lemma_aabb_soundness(*right, aabbs);
            Aabb::lemma_merged_encloses(left.spec_aabb(), right.spec_aabb());
            assert forall|k: int| 0 <= k < node.prims().len() implies node.spec_aabb().spec_encloses(
                aabbs[#[trigger] node.prims()[k] as int],
            ) by {
                let lp = left.prims();
                if k < lp.len() {
                    assert(node.prims()[k] == lp[k]);
                    Aabb::lemma_encloses_transitive(
                        aabb,
                        left.spec_aabb(),
                        aabbs[lp[k] as int],
                    );
                } else {
                    assert(node.prims()[k] == right.prims()[k - lp.len()]);
                    Aabb::lemma_encloses_transitive(
                        aabb,
                        right.spec_aabb(),
                        aabbs[right.prims()[k - lp.len()] as int],
                    );
                }
            }
        },
    }
}

/// The centroid coordinate of a point along one axis.
pub open spec fn spec_axis_val(p: Point3, axis: int) -> u32 {
    if axis == 0 {
        p.x
    } else if axis == 1 {
        p.y
    } else {
        p.z
    }
}

fn axis_val(p: &Point3, axis: usize) -> (r: u32)
    requires
        axis < 3,
    ensures
        r == spec_axis_val(*p, axis as int),
{
    if axis == 0 {
        p.x
    } else if axis == 1 {
        p.y
    } else {
        p.z
    }
}


/// Whether the centroid bounds have positive extent along `axis`.
pub open spec fn spec_axis_extent_pos(cb: Aabb, axis: int) -> bool {
    spec_axis_val(cb.max, axis) > spec_axis_val(cb.min, axis)
}

/// The fixed-width bin (0..12) a centroid coordinate falls into when
/// `[cmin, cmax]` is cut into `NUM_BINS` equal bins, clamped into range.
pub open spec fn spec_bin(c: u32, cmin: u32, cmax: u32) -> int
    recommends
        cmin < cmax,
        cmin <= c <= cmax,
{
    let b = ((c - cmin) * 12) / (cmax - cmin);
    if b > 11 {
        11
    } else {
        b
    }
}

/// The merged box of the primitives (their own AABBs) whose centroid falls
/// in bin `b`, accumulated in index order.
pub open spec fn spec_bin_box(
    tri_idx: Seq<u32>,
    aabbs: Seq<Aabb>,
    cents: Seq<Point3>,
    cmin: u32,
    cmax: u32,
    axis: int,
    b: int,
) -> Aabb
    decreases tri_idx.len(),
{
    if tri_idx.len() == 0 {
        Aabb::spec_max_inv()
    } else {
        let prev = spec_bin_box(tri_idx.drop_last(), aabbs, cents, cmin, cmax, axis, b);
        if spec_bin(spec_axis_val(cents[tri_idx.last() as int], axis), cmin, cmax) == b {
            prev.spec_merged(aabbs[tri_idx.last() as int])
        } else {
            prev
        }
    }
}

/// How many primitives fall in bin `b`.
pub open spec fn spec_bin_count(
    tri_idx: Seq<u32>,
    cents: Seq<Point3>,
    cmin: u32,
    cmax: u32,
    axis: int,
    b: int,
) -> int
    decreases tri_idx.len(),
{
    if tri_idx.len() == 0 {
        0
    } else {
        spec_bin_count(tri_idx.drop_last(), cents, cmin, cmax, axis, b) + if spec_bin(
            spec_axis_val(cents[tri_idx.last() as int], axis),
            cmin,
            cmax,
        ) == b {
            1int
        } else {
            0
        }
    }
}

/// The merged box of bins `0..p` (the left side of split position `p`).
pub open spec fn spec_prefix_box(
    tri_idx: Seq<u32>,
    aabbs: Seq<Aabb>,
    cents: Seq<Point3>,
    cmin: u32,
    cmax: u32,
    axis: int,
    p: int,
) -> Aabb
    decreases p,
{
    if p <= 0 {
        Aabb::spec_max_inv()
    } else {
        spec_prefix_box(tri_idx, aabbs, cents, cmin, cmax, axis, p - 1).spec_merged(
            spec_bin_box(tri_idx, aabbs, cents, cmin, cmax, axis, p - 1),
        )
    }
}

pub open spec fn spec_prefix_count(
    tri_idx: Seq<u32>,
    cents: Seq<Point3>,
    cmin: u32,
    cmax: u32,
    axis: int,
    p: int,
) -> int
    decreases p,
{
    if p <= 0 {
        0
    } else {
        spec_prefix_count(tri_idx, cents, cmin, cmax, axis, p - 1) + spec_bin_count(
            tri_idx,
            cents,
            cmin,
            cmax,
            axis,
            p - 1,
        )
    }
}

/// The merged box of the top `j` bins (bins `12-j..12`), accumulated from
/// bin 11 downwards.
pub open spec fn spec_suffix_box(
    tri_idx: Seq<u32>,
    aabbs: Seq<Aabb>,
    cents: Seq<Point3>,
    cmin: u32,
    cmax: u32,
    axis: int,
    j: int,
) -> Aabb
    decreases j,
{
    if j <= 0 {
        Aabb::spec_max_inv()
    } else {
        spec_suffix_box(tri_idx, aabbs, cents, cmin, cmax, axis, j - 1).spec_merged(
            spec_bin_box(tri_idx, aabbs, cents, cmin, cmax, axis, 12 - j),
        )
    }
}

pub open spec fn spec_suffix_count(
    tri_idx: Seq<u32>,
    cents: Seq<Point3>,
    cmin: u32,
    cmax: u32,
    axis: int,
    j: int,
) -> int
    decreases j,
{
    if j <= 0 {
        0
    } else {
        spec_suffix_count(tri_idx, cents, cmin, cmax, axis, j - 1) + spec_bin_count(
            tri_idx,
            cents,
            cmin,
            cmax,
            axis,
            12 - j,
        )
    }
}

/// The SAH cost of splitting at bin boundary `p` along `axis`:
/// `area(leftBox)*leftCount + area(rightBox)*rightCount`, the bins below
/// `p` on the left and the rest on the right.
pub open spec fn spec_split_cost(
    tri_idx: Seq<u32>,
    aabbs: Seq<Aabb>,
    cents: Seq<Point3>,
    cb: Aabb,
    axis: int,
    p: int,
) -> int {
    let cmin = spec_axis_val(cb.min, axis);
    let cmax = spec_axis_val(cb.max, axis);
    spec_prefix_box(tri_idx, aabbs, cents, cmin, cmax, axis, p).spec_surface_area()
        * spec_prefix_count(tri_idx, cents, cmin, cmax, axis, p) + spec_suffix_box(
        tri_idx,
        aabbs,
        cents,
        cmin,
        cmax,
        axis,
        12 - p,
    ).spec_surface_area() * spec_suffix_count(tri_idx, cents, cmin, cmax, axis, 12 - p)
}

/// The split coordinate at bin boundary `p`.
pub open spec fn spec_threshold(cb: Aabb, axis: int, p: int) -> int {
    let cmin = spec_axis_val(cb.min, axis);
    let cmax = spec_axis_val(cb.max, axis);
    cmin + ((cmax - cmin) * p) / 12
}

/// One binning step: accounting for the next primitive changes exactly
/// its centroid's bin.
proof fn lemma_bin_step(
    tri_idx: Seq<u32>,
    aabbs: Seq<Aabb>,
    cents: Seq<Point3>,
    cmin: u32,
    cmax: u32,
    axis: int,
    k: int,
)
    requires
        0 <= k < tri_idx.len(),
    ensures
        forall|b: int|
            #[trigger] spec_bin_box(tri_idx.take(k + 1), aabbs, cents, cmin, cmax, axis, b)
                == if spec_bin(spec_axis_val(cents[tri_idx[k] as int], axis), cmin, cmax) == b {
                spec_bin_box(tri_idx.take(k), aabbs, cents, cmin, cmax, axis, b).spec_merged(
                    aabbs[tri_idx[k] as int],
                )
            } else {
                spec_bin_box(tri_idx.take(k), aabbs, cents, cmin, cmax, axis, b)
            },
        forall|b: int|
            #[trigger] spec_bin_count(tri_idx.take(k + 1), cents, cmin, cmax, axis, b)
                == spec_bin_count(tri_idx.take(k), cents, cmin, cmax, axis, b) + if spec_bin(
                spec_axis_val(cents[tri_idx[k] as int], axis),
                cmin,
                cmax,
            ) == b {
                1int
            } else {
                0
            },
{
    assert(tri_idx.take(k + 1).drop_last() =~= tri_idx.take(k));
    assert(tri_idx.take(k + 1).last() == tri_idx[k]);
}


/// The centroid bounds of the current primitive set, grown in index order.
pub open spec fn spec_centroid_bounds(tri_idx: Seq<u32>, cents: Seq<Point3>) -> Aabb
    decreases tri_idx.len(),
{
    if tri_idx.len() == 0 {
        Aabb::spec_max_inv()
    } else {
        spec_centroid_bounds(tri_idx.drop_last(), cents).spec_grown(
            cents[tri_idx.last() as int],
        )
    }
}

/// `(axis, p)` is a best binned SAH split: a real candidate (positive
/// extent, interior bin boundary) whose cost is minimal over all 3 axes
/// and all 11 candidate boundaries of every axis with positive extent.
pub open spec fn spec_sah_optimal(
    tri_idx: Seq<u32>,
    aabbs: Seq<Aabb>,
    cents: Seq<Point3>,
    cb: Aabb,
    axis: int,
    p: int,
) -> bool {
    &&& 0 <= axis < 3
    &&& spec_axis_extent_pos(cb, axis)
    &&& 1 <= p < 12
    &&& forall|ax: int, q: int|
        0 <= ax < 3 && spec_axis_extent_pos(cb, ax) && 1 <= q < 12 ==> spec_split_cost(
            tri_idx,
            aabbs,
            cents,
            cb,
            axis,
            p,
        ) <= #[trigger] spec_split_cost(tri_idx, aabbs, cents, cb, ax, q)
}

/// Every listed primitive's centroid lies at or below `thr` along `axis`.
pub open spec fn all_at_most(s: Seq<u32>, cents: Seq<Point3>, axis: int, thr: int) -> bool {
    forall|k: int| 0 <= k < s.len() ==> spec_axis_val(cents[#[trigger] s[k] as int], axis) <= thr
}

/// Every listed primitive's centroid lies strictly above `thr`.
pub open spec fn all_above(s: Seq<u32>, cents: Seq<Point3>, axis: int, thr: int) -> bool {
    forall|k: int| 0 <= k < s.len() ==> spec_axis_val(cents[#[trigger] s[k] as int], axis) > thr
}

/// Every box's surface area is below 2^67: each extent is below 2^32.
proof fn lemma_surface_area_bound(a: Aabb)
    ensures
        0 <= a.spec_surface_area() < 0x80000000000000000,
{
    if a.spec_valid() {
        let dx = a.max.x - a.min.x;
        let dy = a.max.y - a.min.y;
        let dz = a.max.z - a.min.z;
        assert(dx * dy < 0x10000000000000000 && dy * dz < 0x10000000000000000 && dz * dx
            < 0x10000000000000000) by (nonlinear_arith)
            requires
                0 <= dx < 0x100000000 && 0 <= dy < 0x100000000 && 0 <= dz < 0x100000000,
        {}
    }
}

/// Exchanging two elements of a sequence keeps its multiset of elements.
proof fn lemma_swap_multiset(s: Seq<u32>, i: int, j: int)
    requires
        0 <= i < s.len(),
        0 <= j < s.len(),
    ensures
        s.update(i, s[j]).update(j, s[i]).to_multiset() == s.to_multiset(),
{
    broadcast use vstd::multiset::group_multiset_axioms;

    let s1 = s.update(i, s[j]);
    to_multiset_update(s, i, s[j]);
    to_multiset_update(s1, j, s[i]);
    s.to_multiset_ensures();
    assert(s.contains(s[i]));
    assert(s.contains(s[j]));
    if i == j {
        assert(s1[j] == s[j]);
        assert(s1.update(j, s[i]).to_multiset() =~= s.to_multiset());
    } else {
        assert(s1[j] == s[j]);
        assert(s1.update(j, s[i]).to_multiset() =~= s.to_multiset());
    }
}

/// Splits the index array in place, Lomuto style: after the call the first
/// `store` entries have centroid at most `threshold` along `axis` and the
/// rest lie strictly above it; the entries themselves are only reordered.
fn partition_by_centroid(v: &mut Vec<u32>, cents: &Vec<Point3>, axis: usize, threshold: u32) -> (store: usize)
    requires
        axis < 3,
        forall|k: int| 0 <= k < old(v)@.len() ==> old(v)@[k] < cents@.len(),
    ensures
        final(v)@.len() == old(v)@.len(),
        final(v)@.to_multiset() == old(v)@.to_multiset(),
        forall|k: int| 0 <= k < final(v)@.len() ==> final(v)@[k] < cents@.len(),
        store <= final(v)@.len(),
        forall|k: int|
            0 <= k < store ==> spec_axis_val(cents@[#[trigger] final(v)@[k] as int], axis as int)
                <= threshold,
        forall|k: int|
            store <= k < final(v)@.len() ==> spec_axis_val(
                cents@[#[trigger] final(v)@[k] as int],
                axis as int,
            ) > threshold,
{
    let len = v.len();
    let mut store: usize = 0;
    let mut i: usize = 0;
    while i < len
        invariant
            store <= i <= len,
            len == v@.len() == old(v)@.len(),
            axis < 3,
            v@.to_multiset() == old(v)@.to_multiset(),
            forall|k: int| 0 <= k < v@.len() ==> v@[k] < cents@.len(),
            forall|k: int|
                0 <= k < store ==> spec_axis_val(cents@[#[trigger] v@[k] as int], axis as int)
                    <= threshold,
            forall|k: int|
                store <= k < i ==> spec_axis_val(cents@[#[trigger] v@[k] as int], axis as int)
                    > threshold,
        decreases len - i,
    {
        let e = v[i];
        if axis_val(&cents[e as usize], axis) <= threshold {
            let ghost before = v@;
            let a = v[store];
            v[store] = e;
            v[i] = a;
            proof {
                lemma_swap_multiset(before, store as int, i as int);
            }
            store = store + 1;
        }
        i = i + 1;
    }
    store
}

/// Picks the cheapest binned SAH split over the three axes: distribute the
/// primitives into `NUM_BINS` fixed-width bins along each axis by centroid,
/// each bin merging its primitives' own boxes, sweep the candidate split
/// positions with prefix and suffix merges, and return the axis and split
/// coordinate (a bin boundary) whose `area(left)*count(left) +
/// area(right)*count(right)` is minimal over every candidate of every axis
/// with positive centroid extent. Returns `None` exactly when the centroid
/// extent is zero on every axis.
#[verifier::rlimit(100)]
fn choose_best_split(
    tri_idx: &Vec<u32>,
    aabbs: &Vec<Aabb>,
    cents: &Vec<Point3>,
    cb: &Aabb,
) -> (r: Option<(usize, u32)>)
    requires
        tri_idx@.len() <= MAX_MESH_TRIS,
        aabbs@.len() == cents@.len(),
        forall|k: int| 0 <= k < tri_idx@.len() ==> tri_idx@[k] < cents@.len(),
        forall|k: int|
            0 <= k < tri_idx@.len() ==> cb.spec_contains_point(
                cents@[#[trigger] tri_idx@[k] as int],
            ),
    ensures
        (r is Some) <==> (exists|ax: int|
            0 <= ax < 3 && #[trigger] spec_axis_extent_pos(*cb, ax)),
        r matches Some(at) ==> at.0 < 3 && (exists|p: int|
            #[trigger] spec_sah_optimal(tri_idx@, aabbs@, cents@, *cb, at.0 as int, p) && at.1
                == spec_threshold(*cb, at.0 as int, p)),
{
    let len = tri_idx.len();
    let mut best: Option<(usize, u32)> = None;
    let mut best_cost: u128 = u128::MAX;
    let ghost mut best_ax: int = 0;
    let ghost mut best_p: int = 0;
    let mut axis: usize = 0;
    while axis < 3
        invariant
            axis <= 3,
            len == tri_idx@.len() <= MAX_MESH_TRIS,
            aabbs@.len() == cents@.len(),
            forall|k: int| 0 <= k < tri_idx@.len() ==> tri_idx@[k] < cents@.len(),
            forall|k: int|
                0 <= k < tri_idx@.len() ==> cb.spec_contains_point(
                    cents@[#[trigger] tri_idx@[k] as int],
                ),
            (best is None) ==> best_cost == u128::MAX && (forall|ax: int|
                0 <= ax < axis ==> !(#[trigger] spec_axis_extent_pos(*cb, ax))),
            best matches Some(at) ==> at.0 < 3 && at.0 == best_ax && spec_axis_extent_pos(
                *cb,
                best_ax,
            ) && 1 <= best_p < 12 && best_cost as int == spec_split_cost(
                tri_idx@,
                aabbs@,
                cents@,
                *cb,
                best_ax,
                best_p,
            ) && at.1 == spec_threshold(*cb, best_ax, best_p),
            forall|ax: int, q: int|
                0 <= ax < axis && spec_axis_extent_pos(*cb, ax) && 1 <= q < 12 ==> best_cost as int
                    <= #[trigger] spec_split_cost(tri_idx@, aabbs@, cents@, *cb, ax, q),
        decreases 3 - axis,
    {
        let cmin = axis_val(&cb.min, axis);
        let cmax = axis_val(&cb.max, axis);
        if cmax > cmin {
            let extent: u64 = (cmax - cmin) as u64;
            // Accumulate a merged box and a primitive count per bin.
            let mut bin_boxes: Vec<Aabb> = Vec::new();
            let mut bin_counts: Vec<u32> = Vec::new();
            let mut b: usize = 0;
            while b < 12
                invariant
                    b <= 12,
                    bin_boxes@.len() == b,
                    bin_counts@.len() == b,
                    forall|m: int| 0 <= m < b ==> bin_counts@[m] == 0u32,
                    forall|m: int| 0 <= m < b ==> bin_boxes@[m] == Aabb::spec_max_inv(),
                decreases 12 - b,
            {
                bin_boxes.push(Aabb::new_max_inv());
                bin_counts.push(0);
                b = b + 1;
            }
            let mut k: usize = 0;
            while k < len
                invariant
                    k <= len,
                    len == tri_idx@.len() <= MAX_MESH_TRIS,
                    axis < 3,
                    aabbs@.len() == cents@.len(),
                    bin_boxes@.len() == 12,
                    bin_counts@.len() == 12,
                    forall|m: int| 0 <= m < 12 ==> bin_counts@[m] <= k,
                    forall|m: int| 0 <= m < tri_idx@.len() ==> tri_idx@[m] < cents@.len(),
                    forall|m: int|
                        0 <= m < tri_idx@.len() ==> cb.spec_contains_point(
                            cents@[#[trigger] tri_idx@[m] as int],
                        ),
                    cmin == spec_axis_val(cb.min, axis as int),
                    cmax == spec_axis_val(cb.max, axis as int),
                    cmin < cmax,
                    extent == cmax - cmin,
                    forall|m: int|
                        0 <= m < 12 ==> bin_boxes@[m] == #[trigger] spec_bin_box(
                            tri_idx@.take(k as int),
                            aabbs@,
                            cents@,
                            cmin,
                            cmax,
                            axis as int,
                            m,
                        ),
                    forall|m: int|
                        0 <= m < 12 ==> bin_counts@[m] as int == #[trigger] spec_bin_count(
                            tri_idx@.take(k as int),
                            cents@,
                            cmin,
                            cmax,
                            axis as int,
                            m,
                        ),
                decreases len - k,
            {
                let c = axis_val(&cents[tri_idx[k] as usize], axis);
                proof {
                    assert(cb.spec_contains_point(cents@[tri_idx@[k as int] as int]));
                }
                let off: u64 = (c - cmin) as u64;
                let bin64: u64 = (off * NUM_BINS) / extent;
                let bin: usize = if bin64 > 11 {
                    11
                } else {
                    bin64 as usize
                };
                proof {
                    assert(bin as int == spec_bin(c, cmin, cmax));
                    lemma_bin_step(
                        tri_idx@,
                        aabbs@,
                        cents@,
                        cmin,
                        cmax,
                        axis as int,
                        k as int,
                    );
                }
                let mut bb = bin_boxes[bin];
                bb.grow_from_aabb(&aabbs[tri_idx[k] as usize]);
                bin_boxes[bin] = bb;
                bin_counts[bin] = bin_counts[bin] + 1;
                k = k + 1;
            }
            proof {
                assert(tri_idx@.take(len as int) =~= tri_idx@);
            }
            // Right-to-left suffix merges: element j bounds the top j bins.
            let mut suffix_boxes: Vec<Aabb> = Vec::new();
            let mut suffix_counts: Vec<u64> = Vec::new();
            let mut sb = Aabb::new_max_inv();
            let mut sc: u64 = 0;
            suffix_boxes.push(sb);
            suffix_counts.push(0);
            let mut i: usize = 0;
            while i < 12
                invariant
                    i <= 12,
                    suffix_boxes@.len() == i + 1,
                    suffix_counts@.len() == i + 1,
                    len == tri_idx@.len() <= MAX_MESH_TRIS,
                    axis < 3,
                    bin_boxes@.len() == 12,
                    bin_counts@.len() == 12,
                    cmin == spec_axis_val(cb.min, axis as int),
                    cmax == spec_axis_val(cb.max, axis as int),
                    cmin < cmax,
                    extent == cmax - cmin,
                    forall|m: int| 0 <= m < 12 ==> bin_counts@[m] <= len,
                    sc <= (i as int) * 0x55555555,
                    forall|m: int| 0 <= m < suffix_counts@.len() ==> suffix_counts@[m] <= 12 * 0x55555555,
                    forall|m: int|
                        0 <= m < 12 ==> bin_boxes@[m] == #[trigger] spec_bin_box(
                            tri_idx@,
                            aabbs@,
                            cents@,
                            cmin,
                            cmax,
                            axis as int,
                            m,
                        ),
                    forall|m: int|
                        0 <= m < 12 ==> bin_counts@[m] as int == #[trigger] spec_bin_count(
                            tri_idx@,
                            cents@,
                            cmin,
                            cmax,
                            axis as int,
                            m,
                        ),
                    sb == spec_suffix_box(
                        tri_idx@,
                        aabbs@,
                        cents@,
                        cmin,
                        cmax,
                        axis as int,
                        i as int,
                    ),
                    sc as int == spec_suffix_count(
                        tri_idx@,
                        cents@,
                        cmin,
                        cmax,
                        axis as int,
                        i as int,
                    ),
                    forall|m: int|
                        0 <= m <= i ==> suffix_boxes@[m] == #[trigger] spec_suffix_box(
                            tri_idx@,
                            aabbs@,
                            cents@,
                            cmin,
                            cmax,
                            axis as int,
                            m,
                        ),
                    forall|m: int|
                        0 <= m <= i ==> suffix_counts@[m] as int == #[trigger] spec_suffix_count(
                            tri_idx@,
                            cents@,
                            cmin,
                            cmax,
                            axis as int,
                            m,
                        ),
                decreases 12 - i,
            {
                sb.grow_from_aabb(&bin_boxes[11 - i]);
                sc = sc + bin_counts[11 - i] as u64;
                suffix_boxes.push(sb);
                suffix_counts.push(sc);
                i = i + 1;
            }
            // Left-to-right sweep over the candidate split positions.
            let mut lb = Aabb::new_max_inv();
            let mut lc: u64 = 0;
            let mut pos: usize = 1;
            proof {
                assert(lb == spec_prefix_box(
                    tri_idx@,
                    aabbs@,
                    cents@,
                    cmin,
                    cmax,
                    axis as int,
                    0,
                ));
            }
            while pos < 12
                invariant
                    1 <= pos <= 12,
                    len == tri_idx@.len() <= MAX_MESH_TRIS,
                    aabbs@.len() == cents@.len(),
                    axis < 3,
                    bin_boxes@.len() == 12,
                    bin_counts@.len() == 12,
                    suffix_boxes@.len() == 13,
                    suffix_counts@.len() == 13,
                    forall|m: int| 0 <= m < 12 ==> bin_counts@[m] <= len,
                    lc <= (pos as int - 1) * 0x55555555,
                    forall|m: int| 0 <= m < 13 ==> suffix_counts@[m] <= 12 * 0x55555555,
                    cmin == spec_axis_val(cb.min, axis as int),
                    cmax == spec_axis_val(cb.max, axis as int),
                    cmin < cmax,
                    extent == cmax - cmin,
                    forall|m: int|
                        0 <= m < 12 ==> bin_boxes@[m] == #[trigger] spec_bin_box(
                            tri_idx@,
                            aabbs@,
                            cents@,
                            cmin,
                            cmax,
                            axis as int,
                            m,
                        ),
                    forall|m: int|
                        0 <= m < 12 ==> bin_counts@[m] as int == #[trigger] spec_bin_count(
                            tri_idx@,
                            cents@,
                            cmin,
                            cmax,
                            axis as int,
                            m,
                        ),
                    forall|m: int|
                        0 <= m < 13 ==> suffix_boxes@[m] == #[trigger] spec_suffix_box(
                            tri_idx@,
                            aabbs@,
                            cents@,
                            cmin,
                            cmax,
                            axis as int,
                            m,
                        ),
                    forall|m: int|
                        0 <= m < 13 ==> suffix_counts@[m] as int == #[trigger] spec_suffix_count(
                            tri_idx@,
                            cents@,
                            cmin,
                            cmax,
                            axis as int,
                            m,
                        ),
                    lb == spec_prefix_box(
                        tri_idx@,
                        aabbs@,
                        cents@,
                        cmin,
                        cmax,
                        axis as int,
                        pos as int - 1,
                    ),
                    lc as int == spec_prefix_count(
                        tri_idx@,
                        cents@,
                        cmin,
                        cmax,
                        axis as int,
                        pos as int - 1,
                    ),
                    (best is None) ==> best_cost == u128::MAX && pos == 1 && (forall|ax: int|
                        0 <= ax < axis ==> !(#[trigger] spec_axis_extent_pos(*cb, ax))),
                    best matches Some(at) ==> at.0 < 3 && at.0 == best_ax && spec_axis_extent_pos(
                        *cb,
                        best_ax,
                    ) && 1 <= best_p < 12 && best_cost as int == spec_split_cost(
                        tri_idx@,
                        aabbs@,
                        cents@,
                        *cb,
                        best_ax,
                        best_p,
                    ) && at.1 == spec_threshold(*cb, best_ax, best_p),
                    forall|ax: int, q: int|
                        0 <= ax < axis && spec_axis_extent_pos(*cb, ax) && 1 <= q < 12
                            ==> best_cost as int <= #[trigger] spec_split_cost(
                            tri_idx@,
                            aabbs@,
                            cents@,
                            *cb,
                            ax,
                            q,
                        ),
                    forall|q: int|
                        1 <= q < pos ==> best_cost as int <= #[trigger] spec_split_cost(
                            tri_idx@,
                            aabbs@,
                            cents@,
                            *cb,
                            axis as int,
                            q,
                        ),
                decreases 12 - pos,
            {
                lb.grow_from_aabb(&bin_boxes[pos - 1]);
                lc = lc + bin_counts[pos - 1] as u64;
                let rb = suffix_boxes[12 - pos];
                let rc = suffix_counts[12 - pos];
                let la = lb.surface_area();
                let ra = rb.surface_area();
                proof {
                    lemma_surface_area_bound(lb);
                    lemma_surface_area_bound(rb);
                    assert(la * (lc as u128) < 0x80000000000000000 * 0x10000000000)
                        by (nonlinear_arith)
                        requires
                            la < 0x80000000000000000 && lc < 0x10000000000,
                    {}
                    assert(ra * (rc as u128) < 0x80000000000000000 * 0x10000000000)
                        by (nonlinear_arith)
                        requires
                            ra < 0x80000000000000000 && rc < 0x10000000000,
                    {}
                }
                let cost: u128 = la * (lc as u128) + ra * (rc as u128);
                proof {
                    assert(lb == spec_prefix_box(
                        tri_idx@,
                        aabbs@,
                        cents@,
                        cmin,
                        cmax,
                        axis as int,
                        pos as int,
                    ));
                    assert(lc as int == spec_prefix_count(
                        tri_idx@,
                        cents@,
                        cmin,
                        cmax,
                        axis as int,
                        pos as int,
                    ));
                    assert(cost as int == spec_split_cost(
                        tri_idx@,
                        aabbs@,
                        cents@,
                        *cb,
                        axis as int,
                        pos as int,
                    ));
                }
                if cost < best_cost {
                    best_cost = cost;
                    // The split coordinate at this bin boundary.
                    proof {
                        assert((extent as int) * (pos as int) <= (extent as int) * 12)
                            by (nonlinear_arith)
                            requires
                                0 <= pos <= 12 && 0 <= extent,
                        {}
                    }
                    let d: u64 = (extent * (pos as u64)) / NUM_BINS;
                    proof {
                        vstd::arithmetic::div_mod::lemma_div_is_ordered(
                            (extent as int) * (pos as int),
                            (extent as int) * 12,
                            12,
                        );
                        assert((extent as int) * 12 / 12 == extent) by (nonlinear_arith)
                            requires
                                extent >= 0,
                        {}
                    }
                    let threshold: u32 = cmin + d as u32;
                    proof {
                        assert(threshold as int == spec_threshold(*cb, axis as int, pos as int));
                        best_ax = axis as int;
                        best_p = pos as int;
                    }
                    best = Some((axis, threshold));
                }
                pos = pos + 1;
            }
        } else {
            proof {
                assert(!spec_axis_extent_pos(*cb, axis as int));
            }
        }
        axis = axis + 1;
    }
    proof {
        if best is Some {
            assert(spec_axis_extent_pos(*cb, best_ax));
            assert(exists|ax: int| 0 <= ax < 3 && #[trigger] spec_axis_extent_pos(*cb, ax));
            assert(spec_sah_optimal(tri_idx@, aabbs@, cents@, *cb, best_ax, best_p));
        }
    }
    best
}

/// Split totality: divides a set of at least two primitives into two
/// non-empty halves that together hold exactly the parent's primitives
/// (`left.len() + right.len() == parent.len()`, multiset preserved). The
/// split taken is the best binned SAH split: the sides obey the winning
/// axis and threshold, unless every primitive fell on one side of it (all
/// centroids in one bin) or no axis has centroid extent at all — then the
/// deterministic fallback splits the current order at its midpoint.
pub fn split_primitives(tri_idx: Vec<u32>, aabbs: &Vec<Aabb>, cents: &Vec<Point3>) -> (r: (
    Vec<u32>,
    Vec<u32>,
))
    requires
        2 <= tri_idx@.len() <= MAX_MESH_TRIS,
        aabbs@.len() == cents@.len(),
        forall|k: int| 0 <= k < tri_idx@.len() ==> tri_idx@[k] < cents@.len(),
    ensures
        r.0@.len() + r.1@.len() == tri_idx@.len(),
        r.0@.len() >= 1,
        r.1@.len() >= 1,
        r.0@.to_multiset().add(r.1@.to_multiset()) == tri_idx@.to_multiset(),
        forall|k: int| 0 <= k < r.0@.len() ==> r.0@[k] < cents@.len(),
        forall|k: int| 0 <= k < r.1@.len() ==> r.1@[k] < cents@.len(),
        ({
            let cb = spec_centroid_bounds(tri_idx@, cents@);
            &&& ((exists|ax: int| 0 <= ax < 3 && #[trigger] spec_axis_extent_pos(cb, ax)) ==> (
            exists|axis: int, p: int|
                #[trigger] spec_sah_optimal(tri_idx@, aabbs@, cents@, cb, axis, p) && ({
                    let thr = spec_threshold(cb, axis, p);
                    ||| (all_at_most(r.0@, cents@, axis, thr) && all_above(
                        r.1@,
                        cents@,
                        axis,
                        thr,
                    ))
                    ||| ((all_at_most(r.0@, cents@, axis, thr) && all_at_most(
                        r.1@,
                        cents@,
                        axis,
                        thr,
                    )) && r.0@.len() == tri_idx@.len() / 2)
                    ||| ((all_above(r.0@, cents@, axis, thr) && all_above(
                        r.1@,
                        cents@,
                        axis,
                        thr,
                    )) && r.0@.len() == tri_idx@.len() / 2)
                })))
            &&& (!(exists|ax: int| 0 <= ax < 3 && #[trigger] spec_axis_extent_pos(cb, ax))
                ==> r.0@ == tri_idx@.take(tri_idx@.len() as int / 2) && r.1@ == tri_idx@.skip(
                tri_idx@.len() as int / 2,
            ))
        }),
{
    let ghost orig = tri_idx@;
    let mut tri_idx = tri_idx;
    let len = tri_idx.len();

    // Bound the centroids of the current primitive set; the box only scales
    // the bin indices.
    let mut cb = Aabb::new_max_inv();
    let mut k: usize = 0;
    while k < len
        invariant
            k <= len,
            len == tri_idx@.len(),
            tri_idx@ == orig,
            forall|m: int| 0 <= m < tri_idx@.len() ==> tri_idx@[m] < cents@.len(),
            forall|m: int|
                0 <= m < k ==> cb.spec_contains_point(cents@[#[trigger] tri_idx@[m] as int]),
            cb == spec_centroid_bounds(tri_idx@.take(k as int), cents@),
        decreases len - k,
    {
        let ghost cb0 = cb;
        cb.grow_from_point(cents[tri_idx[k] as usize]);
        proof {
            assert forall|m: int| 0 <= m < k + 1 implies cb.spec_contains_point(
                cents@[#[trigger] tri_idx@[m] as int],
            ) by {
                if m < k {
                    assert(cb0.spec_contains_point(cents@[tri_idx@[m] as int]));
                }
            }
            assert(tri_idx@.take(k as int + 1).drop_last() =~= tri_idx@.take(k as int));
            assert(tri_idx@.take(k as int + 1).last() == tri_idx@[k as int]);
        }
        k = k + 1;
    }
    proof {
        assert(tri_idx@.take(len as int) =~= tri_idx@);
        assert(cb == spec_centroid_bounds(orig, cents@));
    }

    let mut mid: usize = len / 2;
    let choice = choose_best_split(&tri_idx, aabbs, cents, &cb);
    let ghost mut store_g: int = 0;
    if let Some((axis, threshold)) = choice {
        let ghost pw = choose|p: int|
            #[trigger] spec_sah_optimal(orig, aabbs@, cents@, cb, axis as int, p) && threshold as int
                == spec_threshold(cb, axis as int, p);
        let store = partition_by_centroid(&mut tri_idx, cents, axis, threshold);
        proof {
            store_g = store as int;
        }
        if store > 0 && store < len {
            mid = store;
        } else {
            // Degenerate split: every primitive fell on one side. Fall back
            // to the midpoint of the current order.
            mid = len / 2;
        }
        let ghost whole = tri_idx@;
        let right = tri_idx.split_off(mid);
        proof {
            assert(whole =~= tri_idx@ + right@);
            lemma_multiset_commutative(tri_idx@, right@);
            assert forall|m: int| 0 <= m < tri_idx@.len() implies tri_idx@[m] < cents@.len() by {
                assert(whole[m] == tri_idx@[m]);
            }
            assert forall|m: int| 0 <= m < right@.len() implies right@[m] < cents@.len() by {
                assert(whole[tri_idx@.len() + m] == right@[m]);
            }
            // The sides obey the winning threshold, or the partition was
            // one-sided and the midpoint fallback was taken.
            let thr = spec_threshold(cb, axis as int, pw);
            assert(threshold as int == thr);
            if 0 < store_g && store_g < len {
                assert(all_at_most(tri_idx@, cents@, axis as int, thr)) by {
                    assert forall|m: int| 0 <= m < tri_idx@.len() implies spec_axis_val(
                        cents@[#[trigger] tri_idx@[m] as int],
                        axis as int,
                    ) <= thr by {
                        assert(whole[m] == tri_idx@[m]);
                    }
                }
                assert(all_above(right@, cents@, axis as int, thr)) by {
                    assert forall|m: int| 0 <= m < right@.len() implies spec_axis_val(
                        cents@[#[trigger] right@[m] as int],
                        axis as int,
                    ) > thr by {
                        assert(whole[tri_idx@.len() + m] == right@[m]);
                    }
                }
            } else if store_g == 0 {
                assert(all_above(tri_idx@, cents@, axis as int, thr)) by {
                    assert forall|m: int| 0 <= m < tri_idx@.len() implies spec_axis_val(
                        cents@[#[trigger] tri_idx@[m] as int],
                        axis as int,
                    ) > thr by {
                        assert(whole[m] == tri_idx@[m]);
                    }
                }
                assert(all_above(right@, cents@, axis as int, thr)) by {
                    assert forall|m: int| 0 <= m < right@.len() implies spec_axis_val(
                        cents@[#[trigger] right@[m] as int],
                        axis as int,
                    ) > thr by {
                        assert(whole[tri_idx@.len() + m] == right@[m]);
                    }
                }
            } else {
                assert(all_at_most(tri_idx@, cents@, axis as int, thr)) by {
                    assert forall|m: int| 0 <= m < tri_idx@.len() implies spec_axis_val(
                        cents@[#[trigger] tri_idx@[m] as int],
                        axis as int,
                    ) <= thr by {
                        assert(whole[m] == tri_idx@[m]);
                    }
                }
                assert(all_at_most(right@, cents@, axis as int, thr)) by {
                    assert forall|m: int| 0 <= m < right@.len() implies spec_axis_val(
                        cents@[#[trigger] right@[m] as int],
                        axis as int,
                    ) <= thr by {
                        assert(whole[tri_idx@.len() + m] == right@[m]);
                    }
                }
            }
            assert(spec_sah_optimal(orig, aabbs@, cents@, cb, axis as int, pw));
        }
        (tri_idx, right)
    } else {
        proof {
            assert(!(exists|ax: int| 0 <= ax < 3 && #[trigger] spec_axis_extent_pos(cb, ax)));
        }
        let ghost whole = tri_idx@;
        let right = tri_idx.split_off(mid);
        proof {
            assert(whole == orig);
            assert(whole =~= tri_idx@ + right@);
            lemma_multiset_commutative(tri_idx@, right@);
            assert forall|m: int| 0 <= m < tri_idx@.len() implies tri_idx@[m] < cents@.len() by {
                assert(whole[m] == tri_idx@[m]);
            }
            assert forall|m: int| 0 <= m < right@.len() implies right@[m] < cents@.len() by {
                assert(whole[tri_idx@.len() + m] == right@[m]);
            }
            assert(tri_idx@ =~= orig.take(orig.len() as int / 2));
            assert(right@ =~= orig.skip(orig.len() as int / 2));
        }
        (tri_idx, right)
    }
}

/// Builds the subtree over the primitives named by `tri_idx`: a leaf for a
/// single primitive, otherwise a branch over a total, non-empty split of
/// the set, with each node's box the merge of its children's.
pub fn recurse_bvh(tri_idx: Vec<u32>, aabbs: &Vec<Aabb>, cents: &Vec<Point3>) -> (r: BvhNode)
    requires
        1 <= tri_idx@.len() <= MAX_MESH_TRIS,
        cents@.len() == aabbs@.len(),
        forall|k: int| 0 <= k < tri_idx@.len() ==> tri_idx@[k] < aabbs@.len(),
    ensures
        r.wf(aabbs@),
        r.prims().to_multiset() == tri_idx@.to_multiset(),
    decreases tri_idx@.len(),
{
    if tri_idx.len() == 1 {
        let idx = tri_idx[0];
        let leaf = BvhNode::Leaf(BvhLeaf { aabb: aabbs[idx as usize], idx });
        proof {
            assert(tri_idx@ =~= seq![idx]);
            assert(leaf.prims() == seq![idx]);
        }
        leaf
    } else {
        let ghost whole = tri_idx@;
        let (left_idx, right_idx) = split_primitives(tri_idx, aabbs, cents);
        proof {
            // Both sides are strictly smaller, so the recursion terminates.
            assert(left_idx@.len() < whole.len());
            assert(right_idx@.len() < whole.len());
        }
        let left = recurse_bvh(left_idx, aabbs, cents);
        let right = recurse_bvh(right_idx, aabbs, cents);
        let aabb = {
            let mut a = left.get_aabb();
            a.grow_from_aabb(&right.get_aabb());
            a
        };
        let ghost lp = left.prims();
        let ghost rp = right.prims();
        let node = BvhNode::Branch { left: Box::new(left), right: Box::new(right), aabb };
        proof {
            lemma_multiset_commutative(lp, rp);
            assert(node.prims() == lp + rp);
        }
        node
    }
}


/// Relies on rayon's `par_iter().map(..).collect::<Vec<_>>()`: the output
/// has one element per input, in input order, each the closure's result;
/// the closure only calls the verified `get_centroid`.
#[verifier::external_body]
fn par_map_centroids(raw_triangles: &Vec<RawTriangle>) -> (r: Vec<Point3>)
    ensures
        r@ == raw_triangles@.map_values(|t: RawTriangle| t.spec_centroid()),
{
    raw_triangles.par_iter().map(|t| t.get_centroid()).collect()
}

/// One centroid per triangle, in order, computed in parallel.
pub fn calculate_centroids(raw_triangles: &Vec<RawTriangle>) -> (r: Vec<Point3>)
    ensures
        r@.len() == raw_triangles@.len(),
        forall|i: int|
            0 <= i < r@.len() ==> r@[i] == (#[trigger] raw_triangles@[i]).spec_centroid(),
{
    par_map_centroids(raw_triangles)
}

/// The box of each triangle of the soup, in order.
pub open spec fn spec_aabbs(raw: Seq<RawTriangle>) -> Seq<Aabb> {
    raw.map_values(|t: RawTriangle| t.spec_aabb())
}

/// The identity permutation of primitive indices `0..n`.
pub open spec fn spec_id_indices(n: int) -> Seq<u32> {
    Seq::new(n as nat, |i: int| i as u32)
}

impl BvhNode {
    /// Builds a BVH over the whole soup: the tree's leaves carry exactly
    /// the primitive indices `0..len`, once each, every leaf carries its
    /// own triangle's box, and every branch bounds its two children.
    pub fn build(raw_triangles: Vec<RawTriangle>) -> (r: BvhNode)
        requires
            1 <= raw_triangles@.len() <= MAX_MESH_TRIS,
        ensures
            r.wf(spec_aabbs(raw_triangles@)),
            r.prims().to_multiset() == spec_id_indices(raw_triangles@.len() as int).to_multiset(),
            r.leaf_count() == raw_triangles@.len(),
            r.prims_bounded(),
    {
        let len = raw_triangles.len();
        let cents = calculate_centroids(&raw_triangles);
        let mut aabbs: Vec<Aabb> = Vec::new();
        let mut i: usize = 0;
        while i < len
            invariant
                i <= len,
                len == raw_triangles@.len(),
                aabbs@.len() == i,
                forall|k: int|
                    0 <= k < i ==> aabbs@[k] == (#[trigger] raw_triangles@[k]).spec_aabb(),
            decreases len - i,
        {
            aabbs.push(raw_triangles[i].get_aabb());
            i = i + 1;
        }
        let mut tri_idx: Vec<u32> = Vec::new();
        let mut j: usize = 0;
        while j < len
            invariant
                j <= len,
                len == raw_triangles@.len() <= MAX_MESH_TRIS,
                tri_idx@.len() == j,
                forall|k: int| 0 <= k < j ==> tri_idx@[k] == k as u32,
            decreases len - j,
        {
            tri_idx.push(j as u32);
            j = j + 1;
        }
        proof {
            assert(aabbs@ =~= spec_aabbs(raw_triangles@));
            assert(tri_idx@ =~= spec_id_indices(raw_triangles@.len() as int));
        }
        let ghost ids = tri_idx@;
        let r = recurse_bvh(tri_idx, &aabbs, &cents);
        proof {
            r.prims().to_multiset_ensures();
            ids.to_multiset_ensures();
            assert forall|k: int| 0 <= k < r.prims().len() implies (#[trigger] r.prims()[k])
                < 0x7FFF_FFFF by {
                assert(r.prims().contains(r.prims()[k]));
                assert(r.prims().to_multiset().count(r.prims()[k]) > 0);
                assert(ids.contains(r.prims()[k]));
            }
        }
        r
    }
}

} // verus!
