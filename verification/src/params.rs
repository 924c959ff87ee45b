//! Engine-side parameter blocks: the camera the simulation steers, the
//! screen state, and the triangle buffer the simulation rewrites per tick.
use vstd::prelude::*;

use crate::indexer::TriangleData;

verus! {

/// The simulation's camera: a position and two view angles, one scalar
/// key per component.
#[derive(Clone, Copy, Debug, PartialEq, Eq)]
pub struct EngineCamera {
    pub pos: [u32; 3],
    pub pitch: u32,
    pub yaw: u32,
}

impl Default for EngineCamera {
    /// The origin, looking straight ahead.
    fn default() -> (r: EngineCamera)
        ensures
            r.pos@ == seq![0u32, 0u32, 0u32],
            r.pitch == 0,
            r.yaw == 0,
    {
        let r = EngineCamera { pos: [0, 0, 0], pitch: 0, yaw: 0 };
        proof {
            assert(r.pos@ =~= seq![0u32, 0u32, 0u32]);
        }
        r
    }
}

/// Everything the renderer needs from the simulation besides geometry.
#[derive(Clone, Copy, Debug, PartialEq, Eq)]
pub struct EngineParams {
    pub camera: EngineCamera,
    pub screen_dimensions: (u32, u32),
}

/// The live geometry the simulation mutates every tick: positions plus
/// indexed triangles.
pub struct TriangleBuffer {
    pub vertices: Vec<[u32; 3]>,
    pub triangles: Vec<TriangleData>,
}

impl TriangleBuffer {
    /// Empties both lists.
    pub fn clear(&mut self)
        ensures
            final(self).vertices@.len() == 0,
            final(self).triangles@.len() == 0,
    {
        self.vertices.clear();
        self.triangles.clear();
    }
}

/// The uniform parameter block as the GPU sees it: camera basis vectors
/// packed four wide, one scalar key per component.
#[derive(Clone, Copy, Debug, PartialEq, Eq)]
pub struct GpuUniformParams {
    pub camera_pos: [u32; 4],
    pub camera_forward: [u32; 4],
    pub camera_up: [u32; 4],
    pub camera_right: [u32; 4],
    pub screen_dims: [u32; 2],
    pub _padding: [u32; 2],
}

impl Default for GpuUniformParams {
    /// All components zero.
    fn default() -> (r: GpuUniformParams)
        ensures
            r.camera_pos@ == seq![0u32, 0u32, 0u32, 0u32],
            r.camera_forward@ == seq![0u32, 0u32, 0u32, 0u32],
            r.camera_up@ == seq![0u32, 0u32, 0u32, 0u32],
            r.camera_right@ == seq![0u32, 0u32, 0u32, 0u32],
            r.screen_dims@ == seq![0u32, 0u32],
    {
        let arr4: [u32; 4] = [0, 0, 0, 0];
        let r = GpuUniformParams {
            camera_pos: arr4,
            camera_forward: arr4,
            camera_up: arr4,
            camera_right: arr4,
            screen_dims: [0, 0],
            _padding: [0, 0],
        };
        proof {
            assert(arr4@ =~= seq![0u32, 0u32, 0u32, 0u32]);
            assert(r.screen_dims@ =~= seq![0u32, 0u32]);
        }
        r
    }
}

} // verus!
