//! How many compute workgroups cover the faces of a cubemap.

use vstd::prelude::*;

verus! {

/// Side of the square workgroup of the equirect-to-cubemap shader.
pub const WORKGROUP_SIZE: u32 = 8;

/// Workgroup counts along x, y and z for writing a cubemap of `face_size`
/// texels on a side: enough 8x8 groups to cover a face, once per face.
pub fn cubemap_dispatch_size(face_size: u32) -> (groups: (u32, u32, u32))
    requires
        face_size + WORKGROUP_SIZE - 1 <= u32::MAX,
    ensures
        groups.0 == groups.1,
        groups.2 == 6,
        groups.0 * WORKGROUP_SIZE >= face_size,
        groups.0 == 0 || (groups.0 - 1) * WORKGROUP_SIZE < face_size,
{
    let workgroups: u32 = (face_size + 7) / 8;
    (workgroups, workgroups, 6)
}

} // verus!
