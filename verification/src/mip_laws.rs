//! Laws of the mip chain: with a filter that gives one result per input, a
//! level is determined by the level above, faces never mix, and the last row
//! and column of an odd-sized face do not reach the level below.

use crate::mip::{
    box_inputs, downsample_size, is_box_downsample, is_deterministic, is_mip_chain, mip_size,
    source_pair, texel_index,
};
use vstd::arithmetic::div_mod::{lemma_fundamental_div_mod, lemma_mod_pos_bound};
use vstd::prelude::*;

verus! {

/// Every position inside a face `h` texels wide is some channel of some texel.
proof fn lemma_texel_index_onto(h: int, i: int) -> (xyc: (int, int, int))
    requires
        h >= 1,
        0 <= i < h * h * 4,
    ensures
        0 <= xyc.0 < h,
        0 <= xyc.1 < h,
        0 <= xyc.2 < 4,
        texel_index(h, xyc.0, xyc.1, xyc.2) == i,
{
    let c: int = i % 4;
    let t: int = i / 4;
    assert(i == 4 * t + c);
    assert(t < h * h);
    lemma_fundamental_div_mod(t, h);
    lemma_mod_pos_bound(t, h);
    let x: int = t % h;
    let y: int = t / h;
    assert(0 <= y < h) by (nonlinear_arith)
        requires
            t == h * y + x,
            0 <= x < h,
            0 <= t < h * h,
            h >= 1,
    ;
    assert((y * h + x) * 4 + c == i) by (nonlinear_arith)
        requires
            t == h * y + x,
            i == 4 * t + c,
    ;
    (x, y, c)
}

/// With a filter that gives one result per input, a face filters down to
/// exactly one face.
pub proof fn lemma_box_downsample_unique<F: Fn(u16, u16, u16, u16) -> u16>(
    filter: F,
    src: Seq<u16>,
    size: nat,
    dst1: Seq<u16>,
    dst2: Seq<u16>,
)
    requires
        is_deterministic(filter),
        is_box_downsample(filter, src, size, dst1),
        is_box_downsample(filter, src, size, dst2),
    ensures
        dst1 == dst2,
{
    let h = downsample_size(size) as int;
    assert forall|i: int| 0 <= i < dst1.len() implies dst1[i] == dst2[i] by {
        let (x, y, c) = lemma_texel_index_onto(h, i);
        let args = box_inputs(src, size as int, x, y, c);
        assert(call_ensures(filter, args, dst1[texel_index(h, x, y, c)]));
        assert(call_ensures(filter, args, dst2[texel_index(h, x, y, c)]));
    }
    assert(dst1 =~= dst2);
}

/// The last row and the last column of a face with an odd side of at least 3
/// never reach the face one level down: two faces that differ only there
/// filter down, with a filter that gives one result per input, to the same
/// face.
pub proof fn lemma_downsample_ignores_odd_edge<F: Fn(u16, u16, u16, u16) -> u16>(
    filter: F,
    src1: Seq<u16>,
    src2: Seq<u16>,
    size: nat,
    dst1: Seq<u16>,
    dst2: Seq<u16>,
)
    requires
        is_deterministic(filter),
        size >= 3,
        size % 2 == 1,
        forall|x: int, y: int, c: int|
            0 <= x < size - 1 && 0 <= y < size - 1 && 0 <= c < 4 ==> src1[texel_index(
                size as int,
                x,
                y,
                c,
            )] == #[trigger] src2[texel_index(size as int, x, y, c)],
        is_box_downsample(filter, src1, size, dst1),
        is_box_downsample(filter, src2, size, dst2),
    ensures
        dst1 == dst2,
{
    let h = downsample_size(size) as int;
    assert forall|x: int, y: int, c: int|
        0 <= x < h && 0 <= y < h && 0 <= c < 4 implies box_inputs(src1, size as int, x, y, c)
        == box_inputs(src2, size as int, x, y, c) by {
        let (sx, sx1) = source_pair(size as int, x);
        let (sy, sy1) = source_pair(size as int, y);
        assert(sx == 2 * x && sx1 == 2 * x + 1 && sx1 < size - 1);
        assert(sy == 2 * y && sy1 == 2 * y + 1 && sy1 < size - 1);
        assert(src1[texel_index(size as int, sx, sy, c)] == src2[texel_index(size as int, sx, sy, c)]);
        assert(src1[texel_index(size as int, sx1, sy, c)] == src2[texel_index(size as int, sx1, sy, c)]);
        assert(src1[texel_index(size as int, sx, sy1, c)] == src2[texel_index(size as int, sx, sy1, c)]);
        assert(src1[texel_index(size as int, sx1, sy1, c)] == src2[texel_index(size as int, sx1, sy1, c)]);
    }
    assert(is_box_downsample(filter, src1, size, dst2)) by {
        assert forall|x: int, y: int, c: int|
            0 <= x < h && 0 <= y < h && 0 <= c < 4 implies call_ensures(
            filter,
            box_inputs(src1, size as int, x, y, c),
            #[trigger] dst2[texel_index(h, x, y, c)],
        ) by {
            assert(call_ensures(
                filter,
                box_inputs(src2, size as int, x, y, c),
                dst2[texel_index(h, x, y, c)],
            ));
        }
    }
    lemma_box_downsample_unique(filter, src1, size, dst1, dst2);
}

/// Face `f` of every level of a mip chain depends on face `f` of the base
/// alone: two chains, built with a filter that gives one result per input,
/// from bases that agree on face `f` agree on face `f` at every level.
pub proof fn lemma_mip_chain_faces_independent<F: Fn(u16, u16, u16, u16) -> u16>(
    filter: F,
    face_size: nat,
    base1: Seq<Seq<u16>>,
    chain1: Seq<Seq<Seq<u16>>>,
    base2: Seq<Seq<u16>>,
    chain2: Seq<Seq<Seq<u16>>>,
    f: int,
)
    requires
        is_deterministic(filter),
        is_mip_chain(filter, face_size, base1, chain1),
        is_mip_chain(filter, face_size, base2, chain2),
        0 <= f < 6,
        base1[f] == base2[f],
    ensures
        chain1.len() == chain2.len(),
        forall|k: int| 0 <= k < chain1.len() ==> (#[trigger] chain1[k])[f] == chain2[k][f],
{
    assert forall|k: int| 0 <= k < chain1.len() implies (#[trigger] chain1[k])[f] == chain2[k][f] by {
        lemma_chain_face_agrees(filter, face_size, base1, chain1, base2, chain2, f, k);
    }
}

/// The two chains agree on face `f` at level `k`.
proof fn lemma_chain_face_agrees<F: Fn(u16, u16, u16, u16) -> u16>(
    filter: F,
    face_size: nat,
    base1: Seq<Seq<u16>>,
    chain1: Seq<Seq<Seq<u16>>>,
    base2: Seq<Seq<u16>>,
    chain2: Seq<Seq<Seq<u16>>>,
    f: int,
    k: int,
)
    requires
        is_deterministic(filter),
        is_mip_chain(filter, face_size, base1, chain1),
        is_mip_chain(filter, face_size, base2, chain2),
        0 <= f < 6,
        base1[f] == base2[f],
        0 <= k < chain1.len(),
    ensures
        chain1[k][f] == chain2[k][f],
    decreases k,
{
    if k > 0 {
        lemma_chain_face_agrees(filter, face_size, base1, chain1, base2, chain2, f, k - 1);
        assert(is_box_downsample(
            filter,
            chain1[k - 1][f],
            mip_size(face_size, (k - 1) as nat),
            chain1[k][f],
        ));
        assert(is_box_downsample(
            filter,
            chain2[k - 1][f],
            mip_size(face_size, (k - 1) as nat),
            chain2[k][f],
        ));
        lemma_box_downsample_unique(
            filter,
            chain1[k - 1][f],
            mip_size(face_size, (k - 1) as nat),
            chain1[k][f],
            chain2[k][f],
        );
    }
}

/// Every level of the chain is between 1 texel and `face_size` texels wide,
/// and no level is wider than the one above it.
pub proof fn lemma_mip_size_bounds(face_size: nat, k: nat)
    requires
        face_size >= 1,
    ensures
        1 <= mip_size(face_size, k) <= face_size,
        mip_size(face_size, k + 1) <= mip_size(face_size, k),
    decreases k,
{
    if k > 0 {
        lemma_mip_size_bounds(face_size, (k - 1) as nat);
    }
    assert(mip_size(face_size, k + 1) == downsample_size(mip_size(face_size, k)));
}

/// For a face at least 2 texels wide, channel `c` of destination texel
/// (x, y) is made from the same channel of the 2x2 block of source texels
/// (2x, 2y), (2x+1, 2y), (2x, 2y+1), (2x+1, 2y+1), in that order; the
/// destination face is half as wide, rounding down.
pub proof fn lemma_downsample_reads_2x2_block<F: Fn(u16, u16, u16, u16) -> u16>(
    filter: F,
    src: Seq<u16>,
    size: nat,
    dst: Seq<u16>,
    x: int,
    y: int,
    c: int,
)
    requires
        is_box_downsample(filter, src, size, dst),
        size >= 2,
        0 <= x < size / 2,
        0 <= y < size / 2,
        0 <= c < 4,
    ensures
        dst.len() == (size / 2) * (size / 2) * 4,
        call_ensures(
            filter,
            (
                src[(2 * y * size + 2 * x) * 4 + c],
                src[(2 * y * size + 2 * x + 1) * 4 + c],
                src[((2 * y + 1) * size + 2 * x) * 4 + c],
                src[((2 * y + 1) * size + 2 * x + 1) * 4 + c],
            ),
            dst[(y * (size / 2) + x) * 4 + c],
        ),
{
    let h = downsample_size(size) as int;
    assert(h == size / 2);
    let (sx, sx1) = source_pair(size as int, x);
    let (sy, sy1) = source_pair(size as int, y);
    assert(2 * x + 1 <= size - 1);
    assert(2 * y + 1 <= size - 1);
    assert(sx == 2 * x && sx1 == 2 * x + 1);
    assert(sy == 2 * y && sy1 == 2 * y + 1);
    assert(call_ensures(filter, box_inputs(src, size as int, x, y, c), dst[texel_index(h, x, y, c)]));
    assert(texel_index(size as int, sx, sy, c) == (2 * y * size + 2 * x) * 4 + c);
    assert(texel_index(size as int, sx1, sy, c) == (2 * y * size + 2 * x + 1) * 4 + c);
    assert(texel_index(size as int, sx, sy1, c) == ((2 * y + 1) * size + 2 * x) * 4 + c);
    assert(texel_index(size as int, sx1, sy1, c) == ((2 * y + 1) * size + 2 * x + 1) * 4 + c);
}

/// A face 1 texel wide stays 1 texel wide, each channel made from four copies
/// of itself.
pub proof fn lemma_downsample_one_texel<F: Fn(u16, u16, u16, u16) -> u16>(
    filter: F,
    src: Seq<u16>,
    dst: Seq<u16>,
    c: int,
)
    requires
        is_box_downsample(filter, src, 1, dst),
        0 <= c < 4,
    ensures
        dst.len() == 4,
        call_ensures(filter, (src[c], src[c], src[c], src[c]), dst[c]),
{
    assert(call_ensures(filter, box_inputs(src, 1, 0, 0, c), dst[texel_index(1, 0, 0, c)]));
}

} // verus!
