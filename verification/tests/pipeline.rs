use latr::aabb::Point3;
use latr::bvh::{BvhLeaf, BvhNode};
use latr::error::EngineError;
use latr::indexer::{sort_sweep_vertices, RawTriangle};
use latr::mesh_file_parsers::parse_tri_scalars;

/// The order-preserving key of a renderer scalar.
fn key(f: f32) -> u32 {
    let b = f.to_bits();
    if b & 0x8000_0000 != 0 {
        !b
    } else {
        b | 0x8000_0000
    }
}

fn pt(x: f32, y: f32, z: f32) -> Point3 {
    Point3 { x: key(x), y: key(y), z: key(z) }
}

fn tri(a: Point3, b: Point3, c: Point3) -> RawTriangle {
    RawTriangle { a, b, c }
}

#[test]
fn single_tri() {
    let scalars: Vec<u32> = vec![
        key(0.0),
        key(0.0),
        key(0.0),
        key(1.0),
        key(1.0),
        key(1.0),
        key(3.0),
        key(3.0),
        key(3.0),
    ];
    let raw_tris = parse_tri_scalars(scalars).unwrap();

    assert_eq!(raw_tris.len(), 1);
    assert_eq!(raw_tris[0].a, pt(0.0, 0.0, 0.0));
    assert_eq!(raw_tris[0].b, pt(1.0, 1.0, 1.0));
    assert_eq!(raw_tris[0].c, pt(3.0, 3.0, 3.0));

    let leaf = BvhLeaf { aabb: raw_tris[0].get_aabb(), idx: 0 };

    let expected_min = pt(0.0, 0.0, 0.0);
    let expected_max = pt(3.0, 3.0, 3.0);
    assert_eq!(leaf.aabb.min, expected_min);
    assert_eq!(leaf.aabb.max, expected_max);

    let node = BvhNode::build(raw_tris);
    assert_eq!(node, BvhNode::Leaf(leaf));

    let flattened = node.flatten_to_blas();
    assert_eq!(1, flattened.len());
    assert_eq!(flattened[0].indices, [-1, 0, 0, 0]);
    assert_eq!(flattened[0].min_x[0], key(0.0));
    assert_eq!(flattened[0].min_y[0], key(0.0));
    assert_eq!(flattened[0].min_z[0], key(0.0));
    assert_eq!(flattened[0].max_x[0], key(3.0));
    assert_eq!(flattened[0].max_y[0], key(3.0));
    assert_eq!(flattened[0].max_z[0], key(3.0));
}

#[test]
fn single_triangle_indexing() {
    let t = tri(pt(0.0, 0.0, 0.0), pt(1.0, 1.0, 1.0), pt(3.0, 3.0, 3.0));
    let (verts, tris) = sort_sweep_vertices(vec![t]);
    // Three distinct corners become three vertices, at distinct indices.
    assert_eq!(verts.len(), 3);
    assert_eq!(tris.len(), 1);
    // Slots are filled in sorted-visit order: the corners are ascending,
    // so the indices come out [0, 1, 2].
    assert_eq!(tris[0].vertices, [0, 1, 2]);
    // Every index resolves back to one of the input corners, each once.
    let mut resolved: Vec<Point3> = tris[0]
        .vertices
        .iter()
        .map(|&i| verts[i as usize])
        .collect();
    resolved.sort_by_key(|p| (p.x, p.y, p.z));
    let mut expected = vec![t.a, t.b, t.c];
    expected.sort_by_key(|p| (p.x, p.y, p.z));
    assert_eq!(resolved, expected);
}

#[test]
fn two_disjoint_triangles() {
    // Two triangles far apart: a root branch bounding both leaves.
    let a = tri(pt(0.0, 0.0, 0.0), pt(1.0, 1.0, 1.0), pt(3.0, 3.0, 3.0));
    let b = tri(
        pt(100.0, 100.0, 100.0),
        pt(101.0, 101.0, 101.0),
        pt(103.0, 103.0, 103.0),
    );
    let node = BvhNode::build(vec![a, b]);
    let root_box = node.get_aabb();
    assert_eq!(root_box.min, pt(0.0, 0.0, 0.0));
    assert_eq!(root_box.max, pt(103.0, 103.0, 103.0));

    let flattened = node.flatten_to_blas();
    assert_eq!(flattened.len(), 2);
    // Element 0 references the root node at offset 1; the root references
    // both leaves by negative indices, each exactly once, in either order.
    assert_eq!(flattened[0].indices, [1, 0, 0, 0]);
    assert_eq!(flattened[0].min_x[0], key(0.0));
    assert_eq!(flattened[0].max_x[0], key(103.0));
    let mut leaves = vec![flattened[1].indices[0], flattened[1].indices[1]];
    leaves.sort();
    assert_eq!(leaves, vec![-2, -1]);
    assert_eq!(flattened[1].indices[2], 0);
    assert_eq!(flattened[1].indices[3], 0);
}

#[test]
fn dedup_merges_shared_corners() {
    // Two triangles sharing an edge: 6 corners, 4 distinct positions.
    let p = pt(0.0, 0.0, 0.0);
    let q = pt(1.0, 0.0, 0.0);
    let r = pt(0.0, 1.0, 0.0);
    let s = pt(1.0, 1.0, 0.0);
    let (verts, tris) = sort_sweep_vertices(vec![tri(p, q, r), tri(q, s, r)]);
    assert_eq!(verts.len(), 4);
    assert_eq!(tris.len(), 2);
    for t in &tris {
        for &i in &t.vertices {
            assert!((i as usize) < verts.len());
        }
    }
}

#[test]
fn dedup_requires_sorting() {
    // The duplicate corner is not adjacent in record order: only the sort
    // brings the two occurrences together, so an indexer whose sorting
    // step returned its input unchanged would emit 6 groups, not 5.
    let p = pt(5.0, 5.0, 5.0);
    let t0 = tri(p, pt(1.0, 0.0, 0.0), pt(2.0, 0.0, 0.0));
    let t1 = tri(pt(3.0, 0.0, 0.0), pt(4.0, 0.0, 0.0), p);
    let (verts, _tris) = sort_sweep_vertices(vec![t0, t1]);
    assert_eq!(verts.len(), 5);
}

#[test]
fn dedup_idempotent_on_resolved_output() {
    let p = pt(0.0, 0.0, 0.0);
    let q = pt(1.0, 0.0, 0.0);
    let r = pt(0.0, 1.0, 0.0);
    let s = pt(1.0, 1.0, 0.0);
    let (verts1, tris1) = sort_sweep_vertices(vec![tri(p, q, r), tri(q, s, r)]);
    // Resolve the indexed output back into a soup and index it again.
    let resolved: Vec<RawTriangle> = tris1
        .iter()
        .map(|t| RawTriangle {
            a: verts1[t.vertices[0] as usize],
            b: verts1[t.vertices[1] as usize],
            c: verts1[t.vertices[2] as usize],
        })
        .collect();
    let (verts2, _tris2) = sort_sweep_vertices(resolved);
    assert_eq!(verts2, verts1);
}

#[test]
fn empty_soup_indexes_to_nothing() {
    let (verts, tris) = sort_sweep_vertices(Vec::new());
    assert_eq!(verts.len(), 0);
    assert_eq!(tris.len(), 0);
}

#[test]
fn identical_triangles_terminate() {
    // All centroids identical: every split is degenerate and the builder
    // must fall back to the median split rather than recurse forever.
    let t = tri(pt(1.0, 1.0, 1.0), pt(1.0, 1.0, 1.0), pt(1.0, 1.0, 1.0));
    let node = BvhNode::build(vec![t, t, t, t]);
    let flattened = node.flatten_to_blas();
    let mut neg: Vec<i32> = Vec::new();
    for n in &flattened {
        for &e in &n.indices {
            if e < 0 {
                neg.push(e);
            }
        }
    }
    neg.sort();
    assert_eq!(neg, vec![-4, -3, -2, -1]);
}

#[test]
fn flatten_references_every_leaf_once() {
    let mut soup: Vec<RawTriangle> = Vec::new();
    for i in 0..9 {
        let f = i as f32 * 10.0;
        soup.push(tri(
            pt(f, 0.0, 0.0),
            pt(f + 1.0, 1.0, 0.0),
            pt(f + 2.0, 0.0, 1.0),
        ));
    }
    let node = BvhNode::build(soup);
    let flattened = node.flatten_to_blas();
    let mut neg: Vec<i32> = Vec::new();
    let mut pos: Vec<i32> = Vec::new();
    for n in &flattened {
        for &e in &n.indices {
            if e < 0 {
                neg.push(e);
            }
            if e > 0 {
                pos.push(e);
            }
        }
    }
    neg.sort();
    assert_eq!(neg, (1..=9).map(|p| -p).rev().collect::<Vec<i32>>());
    // Every non-root node is referenced exactly once.
    pos.sort();
    assert_eq!(pos, (1..flattened.len() as i32).collect::<Vec<i32>>());
}

#[test]
fn triangle_from_nine_coords() {
    let t = RawTriangle::from_coords(&[1, 2, 3, 4, 5, 6, 7, 8, 9]);
    assert_eq!(t.a, Point3 { x: 1, y: 2, z: 3 });
    assert_eq!(t.b, Point3 { x: 4, y: 5, z: 6 });
    assert_eq!(t.c, Point3 { x: 7, y: 8, z: 9 });
}

#[test]
fn parse_rejects_bad_scalar_count() {
    let r = parse_tri_scalars(vec![1, 2, 3, 4, 5, 6, 7, 8]);
    assert_eq!(r, Err(EngineError::TriFileFloatNum));
}

#[test]
fn parse_accepts_empty_file() {
    let r = parse_tri_scalars(Vec::new());
    assert_eq!(r.unwrap().len(), 0);
}

#[test]
fn aabb_soundness_sampled() {
    // Walk the built tree: every node's box encloses its children's.
    let mut soup: Vec<RawTriangle> = Vec::new();
    for i in 0..16 {
        let f = (i % 7) as f32 * 3.0;
        let g = (i / 7) as f32 * 5.0;
        soup.push(tri(
            pt(f, g, 0.0),
            pt(f + 1.0, g, 1.0),
            pt(f, g + 1.0, 2.0),
        ));
    }
    let node = BvhNode::build(soup);
    check_enclosure(&node);
}

fn check_enclosure(n: &BvhNode) {
    if let BvhNode::Branch { left, right, aabb } = n {
        for c in [left.as_ref(), right.as_ref()] {
            let cb = c.get_aabb();
            assert!(aabb.min.x <= cb.min.x && cb.max.x <= aabb.max.x);
            assert!(aabb.min.y <= cb.min.y && cb.max.y <= aabb.max.y);
            assert!(aabb.min.z <= cb.min.z && cb.max.z <= aabb.max.z);
            check_enclosure(c);
        }
    }
}
