//! The checked part of mesh-file ingestion: grouping a flat scalar list
//! into triangles. Reading files and decoding text into scalars is the
//! surrounding program's work.
use vstd::prelude::*;

use crate::aabb::Point3;
use crate::error::EngineError;
use crate::indexer::RawTriangle;

verus! {

/// The triangle a flat scalar list describes at position `9*i`.
pub open spec fn spec_tri_at(scalars: Seq<u32>, i: int) -> RawTriangle {
    RawTriangle {
        a: Point3 { x: scalars[9 * i], y: scalars[9 * i + 1], z: scalars[9 * i + 2] },
        b: Point3 { x: scalars[9 * i + 3], y: scalars[9 * i + 4], z: scalars[9 * i + 5] },
        c: Point3 { x: scalars[9 * i + 6], y: scalars[9 * i + 7], z: scalars[9 * i + 8] },
    }
}

/// Groups the scalars of a mesh file, nine per triangle, three per corner,
/// in file order. A count that is not a multiple of nine is rejected as a
/// parse error, never silently truncated.
pub fn parse_tri_scalars(scalars: Vec<u32>) -> (r: Result<Vec<RawTriangle>, EngineError>)
    ensures
        r is Ok <==> scalars@.len() % 9 == 0,
        r matches Ok(tris) ==> tris@.len() == scalars@.len() / 9 && (forall|i: int|
            0 <= i < tris@.len() ==> (#[trigger] tris@[i]) == spec_tri_at(scalars@, i)),
        r matches Err(e) ==> e == EngineError::TriFileFloatNum,
{
    if scalars.len() % 9 != 0 {
        return Err(EngineError::TriFileFloatNum);
    }
    let count = scalars.len() / 9;
    proof {
        vstd::arithmetic::div_mod::lemma_fundamental_div_mod(scalars@.len() as int, 9);
    }
    let mut tris: Vec<RawTriangle> = Vec::new();
    let mut i: usize = 0;
    while i < count
        invariant
            i <= count,
            count == scalars@.len() / 9,
            scalars@.len() % 9 == 0,
            scalars@.len() == 9 * count,
            tris@.len() == i,
            forall|j: int| 0 <= j < i ==> (#[trigger] tris@[j]) == spec_tri_at(scalars@, j),
        decreases count - i,
    {
        let base = i * 9;
        let tri = RawTriangle {
            a: Point3 { x: scalars[base], y: scalars[base + 1], z: scalars[base + 2] },
            b: Point3 { x: scalars[base + 3], y: scalars[base + 4], z: scalars[base + 5] },
            c: Point3 { x: scalars[base + 6], y: scalars[base + 7], z: scalars[base + 8] },
        };
        tris.push(tri);
        i = i + 1;
    }
    Ok(tris)
}

} // verus!
