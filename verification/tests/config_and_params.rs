use latr::aabb::{Aabb, Point3};
use latr::buffers::{GpuStorageBlasLeafNode, GpuUniformCamera};
use latr::bvh::{calculate_centroids, split_primitives};
use latr::config::{DirectoriesConfig, ExplicitModelConfig, LatrConfig, ModelConfig, RunMode};
use latr::error::{EngineError, LatrError};
use latr::indexer::{RawTriangle, TriangleData};
use latr::model::Model;
use latr::params::{EngineCamera, GpuUniformParams, TriangleBuffer};

#[test]
fn config_defaults() {
    let c = LatrConfig::default();
    assert_eq!(c.fps_cap, 60);
    assert_eq!(c.resolution, (640, 360));
    assert_eq!(c.num_rays, (640, 360));
    assert_eq!(c.run_mode, RunMode::Gui);
    assert!(c.model_file.is_none());
}

#[test]
fn attach_models_sets_the_file() {
    let mut c = LatrConfig::default();
    c.attach_models(String::from("./ModelConfig.toml"));
    assert_eq!(c.model_file.as_deref(), Some("./ModelConfig.toml"));
    assert_eq!(c.fps_cap, 60);
}

#[test]
fn model_config_records() {
    let mc = ModelConfig {
        directories: Some(DirectoriesConfig {
            model_folders: vec![String::from("meshes")],
        }),
        models: vec![ExplicitModelConfig {
            name: String::from("cube"),
            path: String::from("cube.tri"),
        }],
    };
    assert_eq!(mc.directories.as_ref().unwrap().model_folders.len(), 1);
    assert_eq!(mc.models[0].name, "cube");
}

#[test]
fn error_variants_exist() {
    let e = EngineError::ModelDirNotFound(String::from("meshes"));
    assert!(matches!(e, EngineError::ModelDirNotFound(_)));
    let e = EngineError::InvalidDirectory(String::from("x"));
    assert!(matches!(e, EngineError::InvalidDirectory(_)));
    let e = LatrError::Engine(EngineError::TriFileFloatNum);
    assert!(matches!(e, LatrError::Engine(EngineError::TriFileFloatNum)));
}

#[test]
fn triangle_buffer_clear() {
    let mut b = TriangleBuffer {
        vertices: vec![[1, 2, 3]],
        triangles: vec![TriangleData::default()],
    };
    b.clear();
    assert!(b.vertices.is_empty());
    assert!(b.triangles.is_empty());
}

#[test]
fn default_parameter_blocks_are_zeroed() {
    let c = EngineCamera::default();
    assert_eq!(c.pos, [0, 0, 0]);
    let p = GpuUniformParams::default();
    assert_eq!(p.camera_pos, [0, 0, 0, 0]);
    assert_eq!(p.screen_dims, [0, 0]);
    let g = GpuUniformCamera::default();
    assert_eq!(g.pos, [0, 0, 0]);
    let t = TriangleData::default();
    assert_eq!(t.vertices, [0, 0, 0]);
    // The default color: the renderer's standard pale blue, half-intensity
    // red and green, full blue and alpha.
    assert_eq!(t.color, [0x3F00_0000, 0x3F00_0000, 0x3F80_0000, 0x3F80_0000]);
    let leaf = GpuStorageBlasLeafNode { triangles: [0; 8], triangle_count: 0, _pad: [0; 3] };
    assert_eq!(leaf.triangle_count, 0);
}

#[test]
fn model_construction() {
    let _empty = Model::new();
    let _m = Model::from_raw(vec![1, 2, 3], vec![[0, 1, 2]]);
}

#[test]
fn aabb_grow_and_surface_area() {
    let mut b = Aabb::new_max_inv();
    b.grow_from_point(Point3 { x: 0, y: 0, z: 0 });
    b.grow_from_point(Point3 { x: 2, y: 4, z: 6 });
    assert_eq!(b.min, Point3 { x: 0, y: 0, z: 0 });
    assert_eq!(b.max, Point3 { x: 2, y: 4, z: 6 });
    // 2 * (2*4 + 4*6 + 6*2) = 88.
    assert_eq!(b.surface_area(), 88);
    // The inverted sentinel counts as empty.
    assert_eq!(Aabb::new_max_inv().surface_area(), 0);
}

#[test]
fn centroid_is_componentwise_average() {
    let t = RawTriangle {
        a: Point3 { x: 3, y: 0, z: 9 },
        b: Point3 { x: 6, y: 1, z: 9 },
        c: Point3 { x: 9, y: 2, z: 9 },
    };
    let cents = calculate_centroids(&vec![t]);
    assert_eq!(cents.len(), 1);
    assert_eq!(cents[0], Point3 { x: 6, y: 1, z: 9 });
}

#[test]
fn split_is_total_and_nonempty() {
    // Four primitives spread along one axis.
    let cents = vec![
        Point3 { x: 0, y: 0, z: 0 },
        Point3 { x: 10, y: 0, z: 0 },
        Point3 { x: 20, y: 0, z: 0 },
        Point3 { x: 30, y: 0, z: 0 },
    ];
    let aabbs: Vec<Aabb> = cents
        .iter()
        .map(|c| Aabb { min: *c, max: Point3 { x: c.x + 1, y: c.y + 1, z: c.z + 1 } })
        .collect();
    let (left, right) = split_primitives(vec![0, 1, 2, 3], &aabbs, &cents);
    assert_eq!(left.len() + right.len(), 4);
    assert!(!left.is_empty());
    assert!(!right.is_empty());
    let mut all: Vec<u32> = left.iter().chain(right.iter()).copied().collect();
    all.sort();
    assert_eq!(all, vec![0, 1, 2, 3]);
}
