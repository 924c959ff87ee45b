//! Batching meshes for parallel BVH builds: accumulate raw triangle lists
//! until a memory or count cap is hit, then build every pending mesh in
//! parallel and drain the batch.
use vstd::prelude::*;
use vstd::seq_lib::*;
use rayon::iter::{IntoParallelIterator, ParallelIterator};

use crate::aabb::Point3;
use crate::bvh::{spec_aabbs, spec_id_indices, BvhNode};
use crate::flatten::{
    encode_leaf, encode_prims, flat_len, flat_represents, full_entries, neg_pred, pos_pred,
    ref_ids, GpuStorageBvhNode,
};
use crate::indexer::{
    indexing_valid, sort_sweep_vertices, RawTriangle, TriangleData, MAX_MESH_TRIS,
};

verus! {

/// A raw triangle soup as it comes from one mesh file.
pub type RawTriangleList = Vec<RawTriangle>;

/// At most this many meshes are held back before a flush.
pub const MAX_MESH_NUM: usize = 24;

/// At most this many bytes of raw triangles are held back before a flush.
pub const MAX_MEM_NUM: u64 = 0x10_000_000;

/// The byte estimate of one raw triangle: nine scalars of four bytes.
pub const TRI_BYTES: u64 = 36;

/// The complete build result for one mesh: deduplicated vertices, indexed
/// triangles, and the flattened wide-node array.
pub struct BvhRes {
    pub vertices: Vec<Point3>,
    pub triangles: Vec<TriangleData>,
    pub blas_tree: Vec<GpuStorageBvhNode>,
}

/// What one mesh build guarantees: the vertex indexing is valid for the
/// input soup; the flattened array's negative entries encode each triangle
/// index exactly once while its positive entries reference each non-root
/// node exactly once; and the array denotes a well-formed binary BVH over
/// exactly the soup's triangles — its length is pinned by that tree, every
/// filled slot carries the box of the subtree it references, and each
/// branch's box is the merge of its children's, so every primitive's box
/// is enclosed by its whole ancestor chain. An empty soup yields an empty
/// array.
pub open spec fn bvh_res_valid(res: BvhRes, raw: Seq<RawTriangle>) -> bool {
    &&& indexing_valid(raw, res.vertices@, res.triangles@)
    &&& if raw.len() == 0 {
        res.blas_tree@.len() == 0
    } else {
        &&& res.blas_tree@.len() >= 1
        &&& full_entries(res.blas_tree@).to_multiset().filter(neg_pred()) == encode_prims(
            spec_id_indices(raw.len() as int),
        ).to_multiset()
        &&& full_entries(res.blas_tree@).to_multiset().filter(pos_pred()) == ref_ids(
            res.blas_tree@.len() as int,
        ).to_multiset()
        &&& exists|tree: BvhNode|
            {
                &&& #[trigger] tree.wf(spec_aabbs(raw))
                &&& tree.prims().to_multiset() == spec_id_indices(raw.len() as int).to_multiset()
                &&& res.blas_tree@.len() == flat_len(tree)
                &&& exists|meaning: Seq<BvhNode>| flat_represents(res.blas_tree@, meaning, tree)
            }
    }
}

/// Encoding a primitive index is injective on bounded indices, so two
/// index lists with the same elements encode to the same elements.
proof fn lemma_encode_count(s: Seq<u32>, p: u32)
    requires
        forall|k: int| 0 <= k < s.len() ==> (#[trigger] s[k]) < 0x7FFF_FFFF,
        p < 0x7FFF_FFFF,
    ensures
        encode_prims(s).to_multiset().count(encode_leaf(p)) == s.to_multiset().count(p),
    decreases s.len(),
{
    broadcast use vstd::multiset::group_multiset_axioms;

    if s.len() == 0 {
        assert(encode_prims(s) =~= Seq::<i32>::empty());
        Seq::<i32>::empty().to_multiset_ensures();
        s.to_multiset_ensures();
    } else {
        let s0 = s.drop_last();
        lemma_encode_count(s0, p);
        assert(s =~= s0.push(s.last()));
        assert(encode_prims(s) =~= encode_prims(s0).push(encode_leaf(s.last())));
        s0.to_multiset_ensures();
        encode_prims(s0).to_multiset_ensures();
        if s.last() == p {
        } else {
            assert(encode_leaf(s.last()) != encode_leaf(p));
        }
    }
}

proof fn lemma_encode_multiset(a: Seq<u32>, b: Seq<u32>)
    requires
        a.to_multiset() == b.to_multiset(),
        forall|k: int| 0 <= k < a.len() ==> (#[trigger] a[k]) < 0x7FFF_FFFF,
        forall|k: int| 0 <= k < b.len() ==> (#[trigger] b[k]) < 0x7FFF_FFFF,
    ensures
        encode_prims(a).to_multiset() == encode_prims(b).to_multiset(),
{
    broadcast use vstd::multiset::group_multiset_axioms;

    assert forall|e: i32|
        encode_prims(a).to_multiset().count(e) == encode_prims(b).to_multiset().count(e) by {
        if 0 <= -(e as int) - 1 < 0x7FFF_FFFF {
            let p = ((-(e as int) - 1)) as u32;
            assert(e == encode_leaf(p));
            lemma_encode_count(a, p);
            lemma_encode_count(b, p);
        } else {
            // No bounded primitive encodes to `e`.
            assert(encode_prims(a).to_multiset().count(e) == 0) by {
                encode_prims(a).to_multiset_ensures();
                if encode_prims(a).to_multiset().count(e) > 0 {
                    assert(encode_prims(a).contains(e));
                    let k = choose|k: int|
                        0 <= k < encode_prims(a).len() && encode_prims(a)[k] == e;
                    assert(e == encode_leaf(a[k]));
                }
            }
            assert(encode_prims(b).to_multiset().count(e) == 0) by {
                encode_prims(b).to_multiset_ensures();
                if encode_prims(b).to_multiset().count(e) > 0 {
                    assert(encode_prims(b).contains(e));
                    let k = choose|k: int|
                        0 <= k < encode_prims(b).len() && encode_prims(b)[k] == e;
                    assert(e == encode_leaf(b[k]));
                }
            }
        }
    }
    assert(encode_prims(a).to_multiset() =~= encode_prims(b).to_multiset());
}

/// Builds everything the renderer needs for one mesh: index the vertices,
/// build the BVH over the triangles, and flatten it.
pub fn build_mesh_bvh(raw_triangles: RawTriangleList) -> (r: BvhRes)
    requires
        raw_triangles@.len() <= MAX_MESH_TRIS,
    ensures
        bvh_res_valid(r, raw_triangles@),
{
    let blas_tree: Vec<GpuStorageBvhNode> = if raw_triangles.len() == 0 {
        Vec::new()
    } else {
        let soup = raw_triangles.clone();
        proof {
            assert forall|i: int| 0 <= i < soup@.len() implies soup@[i] == raw_triangles@[i] by {}
            assert(soup@ =~= raw_triangles@);
        }
        let tree = BvhNode::build(soup);
        let ghost tree_g = tree;
        let ghost ids = spec_id_indices(raw_triangles@.len() as int);
        proof {
            tree.prims().to_multiset_ensures();
            ids.to_multiset_ensures();
        }
        let flat = tree.flatten_to_blas();
        proof {
            lemma_encode_multiset(tree_g.prims(), ids);
            // The flattened array denotes the freshly built tree.
            assert(tree_g.wf(spec_aabbs(raw_triangles@)));
            assert(exists|tree2: BvhNode|
                {
                    &&& #[trigger] tree2.wf(spec_aabbs(raw_triangles@))
                    &&& tree2.prims().to_multiset() == spec_id_indices(
                        raw_triangles@.len() as int,
                    ).to_multiset()
                    &&& flat@.len() == flat_len(tree2)
                    &&& exists|meaning: Seq<BvhNode>| flat_represents(flat@, meaning, tree2)
                }) by {
                assert(tree_g.wf(spec_aabbs(raw_triangles@)) && tree_g.prims().to_multiset()
                    == spec_id_indices(raw_triangles@.len() as int).to_multiset() && flat@.len()
                    == flat_len(tree_g) && (exists|meaning: Seq<BvhNode>|
                    flat_represents(flat@, meaning, tree_g)));
            }
        }
        flat
    };
    let ghost raw0 = raw_triangles@;
    let (vertices, triangles) = sort_sweep_vertices(raw_triangles);
    BvhRes { vertices, triangles, blas_tree }
}

/// Relies on rayon's `into_par_iter().map(..).collect::<Vec<_>>()`: one
/// output element per input mesh, in input order, each the result of the
/// verified `build_mesh_bvh` on that mesh.
#[verifier::external_body]
fn par_build_meshes(meshes: Vec<RawTriangleList>) -> (r: Vec<BvhRes>)
    requires
        forall|i: int| 0 <= i < meshes@.len() ==> (#[trigger] meshes@[i])@.len() <= MAX_MESH_TRIS,
    ensures
        r@.len() == meshes@.len(),
        forall|i: int|
            0 <= i < r@.len() ==> bvh_res_valid(#[trigger] r@[i], meshes@[i]@),
{
    meshes.into_par_iter().map(build_mesh_bvh).collect()
}

/// The byte estimate of a list of pending meshes.
pub open spec fn batch_mem(meshes: Seq<Vec<RawTriangle>>) -> int
    decreases meshes.len(),
{
    if meshes.len() == 0 {
        0
    } else {
        batch_mem(meshes.drop_last()) + TRI_BYTES * meshes.last()@.len()
    }
}

/// The accumulator of pending meshes and their running byte estimate.
pub struct BvhTriBatch {
    vertices: Vec<RawTriangleList>,
    current_mem: u64,
}

impl BvhTriBatch {
    /// The meshes held back so far, oldest first.
    pub closed spec fn pending(self) -> Seq<Vec<RawTriangle>> {
        self.vertices@
    }

    /// The running byte estimate of the pending meshes.
    pub closed spec fn mem(self) -> int {
        self.current_mem as int
    }

    /// The byte estimate matches the pending meshes, every pending mesh is
    /// small enough to build, and the estimate cannot overflow: it exceeds
    /// the flush cap only while a single oversized mesh is pending.
    pub closed spec fn wf(self) -> bool {
        &&& self.current_mem as int == batch_mem(self.vertices@)
        &&& forall|i: int|
            0 <= i < self.vertices@.len() ==> (#[trigger] self.vertices@[i])@.len()
                <= MAX_MESH_TRIS
        &&& (self.vertices@.len() != 1 ==> self.current_mem <= MAX_MEM_NUM)
        &&& self.current_mem < 0x10_0000_0000
    }

    /// An empty batch.
    pub fn new() -> (r: Self)
        ensures
            r.wf(),
            r.pending().len() == 0,
            r.mem() == 0,
    {
        BvhTriBatch { vertices: Vec::new(), current_mem: 0 }
    }

    fn push_vertices(&mut self, data: RawTriangleList, size: u64)
        requires
            old(self).wf(),
            data@.len() <= MAX_MESH_TRIS,
            size == TRI_BYTES * data@.len(),
            old(self).pending().len() >= 1 ==> old(self).mem() + size <= MAX_MEM_NUM,
        ensures
            final(self).wf(),
            final(self).pending() == old(self).pending().push(data),
            final(self).mem() == old(self).mem() + size,
    {
        proof {
            assert(TRI_BYTES * data@.len() <= 36 * 0x5555_5555);
            if self.vertices@.len() == 0 {
                assert(batch_mem(self.vertices@) == 0);
            }
        }
        self.current_mem = self.current_mem + size;
        self.vertices.push(data);
        proof {
            assert(self.vertices@.drop_last() =~= old(self).vertices@);
            assert(self.vertices@.last() == data);
        }
    }

    /// Builds every pending mesh in parallel and resets the accumulator.
    fn flush(&mut self) -> (r: Vec<BvhRes>)
        requires
            old(self).wf(),
        ensures
            final(self).wf(),
            final(self).pending().len() == 0,
            final(self).mem() == 0,
            r@.len() == old(self).pending().len(),
            forall|i: int|
                0 <= i < r@.len() ==> bvh_res_valid(#[trigger] r@[i], old(self).pending()[i]@),
    {
        let mut batch: Vec<RawTriangleList> = Vec::new();
        core::mem::swap(&mut self.vertices, &mut batch);
        self.current_mem = 0;
        par_build_meshes(batch)
    }

    /// Batch cap enforcement: when adding `new_triangles` would exceed the
    /// byte cap, or the mesh-count cap is already reached, and at least one
    /// mesh is pending, the pending batch is flushed (built and returned)
    /// first and the new mesh starts a fresh batch; otherwise the mesh is
    /// only accumulated and nothing is returned.
    pub fn push_and_check(&mut self, new_triangles: RawTriangleList) -> (r: Option<Vec<BvhRes>>)
        requires
            old(self).wf(),
            new_triangles@.len() <= MAX_MESH_TRIS,
        ensures
            final(self).wf(),
            ({
                let new_mem = TRI_BYTES * new_triangles@.len();
                let trigger_flush = (old(self).pending().len() >= MAX_MESH_NUM || old(self).mem()
                    + new_mem > MAX_MEM_NUM) && old(self).pending().len() >= 1;
                if trigger_flush {
                    &&& r is Some
                    &&& (r matches Some(results) ==> results@.len() == old(self).pending().len()
                        && (forall|i: int|
                        0 <= i < results@.len() ==> bvh_res_valid(
                            #[trigger] results@[i],
                            old(self).pending()[i]@,
                        )))
                    &&& final(self).pending().len() == 1
                    &&& final(self).pending()[0] == new_triangles
                    &&& final(self).mem() == new_mem
                } else {
                    &&& r is None
                    &&& final(self).pending() == old(self).pending().push(new_triangles)
                    &&& final(self).mem() == old(self).mem() + new_mem
                }
            }),
    {
        proof {
            assert(TRI_BYTES * new_triangles@.len() <= 36 * 0x5555_5555);
        }
        let new_mem_size: u64 = (new_triangles.len() as u64) * TRI_BYTES;
        proof {
            assert(new_mem_size == TRI_BYTES * new_triangles@.len());
        }

        let would_overflow_mem = self.current_mem + new_mem_size > MAX_MEM_NUM;
        let hit_count_limit = self.vertices.len() >= MAX_MESH_NUM;

        if (hit_count_limit || would_overflow_mem) && self.vertices.len() > 0 {
            let results = self.flush();
            self.push_vertices(new_triangles, new_mem_size);
            return Some(results);
        }
        self.push_vertices(new_triangles, new_mem_size);
        None
    }

    /// Flushes only when something is pending; draining the remainder at
    /// the end of a scan. On an empty batch it returns nothing.
    pub fn flush_option(&mut self) -> (r: Option<Vec<BvhRes>>)
        requires
            old(self).wf(),
        ensures
            final(self).wf(),
            final(self).pending().len() == 0,
            final(self).mem() == 0,
            old(self).pending().len() == 0 <==> r is None,
            r matches Some(results) ==> results@.len() == old(self).pending().len() && (forall|
                i: int,
            |
                0 <= i < results@.len() ==> bvh_res_valid(
                    #[trigger] results@[i],
                    old(self).pending()[i]@,
                )),
    {
        if self.vertices.len() == 0 {
            return None;
        }
        Some(self.flush())
    }
}

} // verus!
