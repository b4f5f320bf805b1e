//! From the six base faces of a cubemap to the bytes of its KTX2 file: the
//! mip chain, its bytes in the hardware's byte order, and the file around them.

use crate::ktx2::{
    encode_ktx2_cubemap_rgba16f, ktx2_cubemap_file, ktx2_layout_fits, ktx2_level_layout,
    levels_view,
};
use crate::mip::{chain_view, faces_view, generate_mip_chain_f16, is_mip_chain, mip_level_count};
use crate::texel_bytes::{
    chain_bytes_view, chain_in_byte_order, mip_chain_to_bytes, native_little, u16_bytes,
};
use vstd::prelude::*;

verus! {

/// Every face of every level of `chain` as bytes, in the byte order that
/// `little` names.
pub open spec fn chain_bytes(chain: Seq<Seq<Seq<u16>>>, little: bool) -> Seq<Seq<Seq<u8>>> {
    Seq::new(chain.len(), |k: int| Seq::new(chain[k].len(), |f: int| u16_bytes(chain[k][f], little)))
}

/// Bakes the six base faces of a cubemap (`face_size` texels on a side, RGBA
/// half-float bit patterns) into the bytes of a KTX2 file holding its whole
/// mip chain, each level filtered from the one above with `filter` and its
/// values stored in the hardware's byte order; `None`
/// where an offset of the file would not fit its header field or memory.
pub fn encode_cubemap_mip_chain_ktx2<F: Fn(u16, u16, u16, u16) -> u16>(
    base_faces: [Vec<u16>; 6],
    face_size: u32,
    filter: &F,
) -> (file: Option<Vec<u8>>)
    requires
        face_size * face_size * 4 <= 0x1_0000_0000,
        face_size > 1 ==> forall|f: int|
            0 <= f < 6 ==> (#[trigger] base_faces@[f])@.len() >= face_size * face_size * 4,
        forall|a: u16, b: u16, c: u16, d: u16| #[trigger] filter.requires((a, b, c, d)),
    ensures
        exists|chain: Seq<Seq<Seq<u16>>>, little: bool|
            #![trigger chain_bytes(chain, little)]
            {
                &&& little == native_little()
                &&& is_mip_chain(*filter, face_size as nat, faces_view(base_faces), chain)
                &&& chain.len() == mip_level_count(face_size as nat)
                &&& (file is Some <==> ktx2_layout_fits(chain_bytes(chain, little)))
                &&& (file matches Some(bytes) ==> bytes@ == ktx2_cubemap_file(
                    face_size,
                    chain_bytes(chain, little),
                ))
            },
{
    let ghost base = faces_view(base_faces);
    let chain = generate_mip_chain_f16(base_faces, face_size, filter);
    let mips = mip_chain_to_bytes(&chain);
    let ghost cv = chain_view(chain@);
    let ghost little = native_little();
    proof {
        assert(chain_in_byte_order(cv, chain_bytes_view(mips@), little));
        let lv = levels_view(mips@);
        let cb = chain_bytes(cv, little);
        assert forall|k: int| 0 <= k < lv.len() implies #[trigger] lv[k] == cb[k] by {
            assert(cv[k].len() == 6);
            assert forall|f: int| 0 <= f < 6 implies lv[k][f] == cb[k][f] by {
                assert(chain_bytes_view(mips@)[k][f] == mips@[k]@[f]@);
            }
            assert(lv[k] =~= cb[k]);
        }
        assert(lv =~= cb);
    }
    let file = match ktx2_level_layout(&mips) {
        Some(_) => Some(encode_ktx2_cubemap_rgba16f(face_size, &mips)),
        None => None,
    };
    proof {
        assert(is_mip_chain(*filter, face_size as nat, base, cv));
        let cb = chain_bytes(cv, little);
        assert({
            &&& little == native_little()
            &&& is_mip_chain(*filter, face_size as nat, base, cv)
            &&& cv.len() == mip_level_count(face_size as nat)
            &&& (file is Some <==> ktx2_layout_fits(cb))
            &&& (file matches Some(bytes) ==> bytes@ == ktx2_cubemap_file(face_size, cb))
        });
    }
    file
}

} // verus!
