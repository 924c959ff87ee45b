use latr::aabb::Point3;
use latr::batch::{build_mesh_bvh, BvhTriBatch};
use latr::indexer::RawTriangle;

fn small_mesh(offset: u32) -> Vec<RawTriangle> {
    vec![RawTriangle {
        a: Point3 { x: offset, y: 0, z: 0 },
        b: Point3 { x: offset + 1, y: 1, z: 0 },
        c: Point3 { x: offset + 2, y: 0, z: 1 },
    }]
}

#[test]
fn count_cap_triggers_exactly_one_flush() {
    let mut batch = BvhTriBatch::new();
    // The first 24 meshes only accumulate.
    for i in 0..24 {
        let r = batch.push_and_check(small_mesh(i));
        assert!(r.is_none());
    }
    // The 25th push hits the mesh-count cap: the pending 24 are built and
    // returned, and the new mesh starts the next batch.
    let r = batch.push_and_check(small_mesh(24));
    let results = r.expect("the 25th push must flush");
    assert_eq!(results.len(), 24);
    for res in &results {
        assert_eq!(res.triangles.len(), 1);
        assert_eq!(res.vertices.len(), 3);
        assert_eq!(res.blas_tree.len(), 1);
        assert_eq!(res.blas_tree[0].indices[0], -1);
    }
    // Draining afterwards returns exactly the one fresh mesh.
    let rest = batch.flush_option().expect("one mesh is pending");
    assert_eq!(rest.len(), 1);
}

#[test]
fn flush_option_on_empty_batch_is_none() {
    let mut batch = BvhTriBatch::new();
    assert!(batch.flush_option().is_none());
    // Still none after a push-and-drain cycle.
    batch.push_and_check(small_mesh(0));
    assert!(batch.flush_option().is_some());
    assert!(batch.flush_option().is_none());
}

#[test]
fn build_mesh_bvh_empty_mesh() {
    let res = build_mesh_bvh(Vec::new());
    assert_eq!(res.vertices.len(), 0);
    assert_eq!(res.triangles.len(), 0);
    assert_eq!(res.blas_tree.len(), 0);
}

#[test]
fn build_mesh_bvh_indexes_and_flattens() {
    let mut soup = small_mesh(0);
    soup.extend(small_mesh(100));
    let res = build_mesh_bvh(soup);
    assert_eq!(res.triangles.len(), 2);
    assert_eq!(res.vertices.len(), 6);
    // Two leaves below a root below the entry node.
    let mut neg: Vec<i32> = Vec::new();
    for n in &res.blas_tree {
        for &e in &n.indices {
            if e < 0 {
                neg.push(e);
            }
        }
    }
    neg.sort();
    assert_eq!(neg, vec![-2, -1]);
}
