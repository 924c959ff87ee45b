//! Plain GPU buffer record formats that hold no logic of their own.
use vstd::prelude::*;

verus! {

/// A packed leaf record holding up to eight triangle indices; entries past
/// `triangle_count` are junk by contract.
#[derive(Clone, Copy, Debug, PartialEq, Eq)]
pub struct GpuStorageBlasLeafNode {
    pub triangles: [u32; 8],
    pub triangle_count: u32,
    pub _pad: [u32; 3],
}

/// The camera uniform block, one scalar key per component.
#[derive(Clone, Copy, Debug, PartialEq, Eq)]
pub struct GpuUniformCamera {
    pub pos: [u32; 3],
    pub _pad: u32,
}

impl Default for GpuUniformCamera {
    /// The origin.
    fn default() -> (r: GpuUniformCamera)
        ensures
            r.pos@ == seq![0u32, 0u32, 0u32],
            r._pad == 0,
    {
        let r = GpuUniformCamera { pos: [0, 0, 0], _pad: 0 };
        proof {
            assert(r.pos@ =~= seq![0u32, 0u32, 0u32]);
        }
        r
    }
}

} // verus!
