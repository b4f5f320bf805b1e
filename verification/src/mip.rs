//! The mip chain of a cubemap: each level is the previous one box-filtered
//! 2x2 down to half its size, face by face, until a face is 1x1.
//!
//! A face of `size` x `size` texels is `size * size * 4` half-float channel
//! values (RGBA), row-major: channel `c` of texel (x, y) is at
//! `(y * size + x) * 4 + c`. The filter that averages four half-float values
//! is handed in by the caller; this module decides which four values each
//! destination channel is made from.

use vstd::arithmetic::power::lemma_pow0;
use vstd::arithmetic::power2::{lemma_pow2_pos, lemma_pow2_unfold, pow2};
use vstd::prelude::*;

verus! {

/// Side of the face one mip level down: half of `size`, but at least 1.
pub open spec fn downsample_size(size: nat) -> nat {
    if size / 2 >= 1 {
        size / 2
    } else {
        1
    }
}

/// Position of channel `c` of texel (x, y) in a face `size` texels wide.
pub open spec fn texel_index(size: int, x: int, y: int, c: int) -> int {
    (y * size + x) * 4 + c
}

/// The two source columns (or rows) that destination column (or row) `x`
/// averages: `2x` and the one after it, both clamped to the last one.
pub open spec fn source_pair(size: int, x: int) -> (int, int) {
    let s0: int = if 2 * x < size - 1 { 2 * x } else { size - 1 };
    let s1: int = if s0 + 1 < size - 1 { s0 + 1 } else { size - 1 };
    (s0, s1)
}

/// The four source values that channel `c` of destination texel (x, y) is
/// made from: (sx, sy), (sx1, sy), (sx, sy1), (sx1, sy1), in that order.
pub open spec fn box_inputs(src: Seq<u16>, size: int, x: int, y: int, c: int) -> (
    u16,
    u16,
    u16,
    u16,
) {
    let (sx, sx1) = source_pair(size, x);
    let (sy, sy1) = source_pair(size, y);
    (
        src[texel_index(size, sx, sy, c)],
        src[texel_index(size, sx1, sy, c)],
        src[texel_index(size, sx, sy1, c)],
        src[texel_index(size, sx1, sy1, c)],
    )
}

/// `dst` is the face `src` (`size` texels wide) filtered down one level: it
/// is `downsample_size(size)` texels wide, and each of its channels is what
/// `filter` returns for that channel's four source values.
pub open spec fn is_box_downsample<F: Fn(u16, u16, u16, u16) -> u16>(
    filter: F,
    src: Seq<u16>,
    size: nat,
    dst: Seq<u16>,
) -> bool {
    let h: int = downsample_size(size) as int;
    &&& dst.len() == h * h * 4
    &&& forall|x: int, y: int, c: int|
        0 <= x < h && 0 <= y < h && 0 <= c < 4 ==> call_ensures(
            filter,
            box_inputs(src, size as int, x, y, c),
            #[trigger] dst[texel_index(h, x, y, c)],
        )
}

/// Side of the faces of mip level `level` when level 0 is `face_size` wide.
pub open spec fn mip_size(face_size: nat, level: nat) -> nat
    decreases level,
{
    if level == 0 {
        face_size
    } else {
        downsample_size(mip_size(face_size, (level - 1) as nat))
    }
}

/// Number of levels in the chain: halve until a face is 1 texel wide.
pub open spec fn mip_level_count(face_size: nat) -> nat
    decreases face_size,
{
    if face_size <= 1 {
        1
    } else {
        1 + mip_level_count(face_size / 2)
    }
}

/// The six faces of a level, as sequences.
pub open spec fn faces_view(faces: [Vec<u16>; 6]) -> Seq<Seq<u16>> {
    Seq::new(6, |f: int| faces@[f]@)
}

/// The levels of a mip chain, each as its six faces.
pub open spec fn chain_view(chain: Seq<[Vec<u16>; 6]>) -> Seq<Seq<Seq<u16>>> {
    Seq::new(chain.len(), |k: int| faces_view(chain[k]))
}

/// `chain` is the mip chain of `base` (six faces `face_size` texels wide):
/// one level per size down to 1x1, level 0 being `base` and each face of
/// each further level the same face of the level above filtered down.
pub open spec fn is_mip_chain<F: Fn(u16, u16, u16, u16) -> u16>(
    filter: F,
    face_size: nat,
    base: Seq<Seq<u16>>,
    chain: Seq<Seq<Seq<u16>>>,
) -> bool {
    &&& chain.len() == mip_level_count(face_size)
    &&& chain[0] == base
    &&& forall|k: int| 0 <= k < chain.len() ==> (#[trigger] chain[k]).len() == 6
    &&& forall|k: int, f: int|
        1 <= k < chain.len() && 0 <= f < 6 ==> is_box_downsample(
            filter,
            chain[k - 1][f],
            mip_size(face_size, (k - 1) as nat),
            #[trigger] chain[k][f],
        )
}

/// The filter gives one result for given inputs.
pub open spec fn is_deterministic<F: Fn(u16, u16, u16, u16) -> u16>(filter: F) -> bool {
    forall|args: (u16, u16, u16, u16), r1: u16, r2: u16|
        #![trigger call_ensures(filter, args, r1), call_ensures(filter, args, r2)]
        call_ensures(filter, args, r1) && call_ensures(filter, args, r2) ==> r1 == r2
}

/// A channel position inside a face is below the face's length.
proof fn lemma_texel_index_bound(size: int, x: int, y: int, c: int)
    requires
        0 <= x < size,
        0 <= y < size,
        0 <= c < 4,
    ensures
        0 <= texel_index(size, x, y, c) < size * size * 4,
{
    assert(0 <= (y * size + x) * 4 + c < size * size * 4) by (nonlinear_arith)
        requires
            0 <= x < size,
            0 <= y < size,
            0 <= c < 4,
    ;
}

/// Distinct texel channels have distinct positions.
proof fn lemma_texel_index_injective(h: int, x1: int, y1: int, c1: int, x2: int, y2: int, c2: int)
    requires
        0 <= x1 < h,
        0 <= x2 < h,
        0 <= y1,
        0 <= y2,
        0 <= c1 < 4,
        0 <= c2 < 4,
        texel_index(h, x1, y1, c1) == texel_index(h, x2, y2, c2),
    ensures
        x1 == x2 && y1 == y2 && c1 == c2,
{
    assert(c1 == c2 && y1 * h + x1 == y2 * h + x2) by (nonlinear_arith)
        requires
            0 <= c1 < 4,
            0 <= c2 < 4,
            (y1 * h + x1) * 4 + c1 == (y2 * h + x2) * 4 + c2,
    ;
    assert(y1 == y2 && x1 == x2) by (nonlinear_arith)
        requires
            0 <= x1 < h,
            0 <= x2 < h,
            0 <= y1,
            0 <= y2,
            y1 * h + x1 == y2 * h + x2,
    ;
}

/// Filters one face down one mip level: each channel of each destination
/// texel (x, y) is `filter` applied to the same channel of source texels
/// (2x, 2y), (2x+1, 2y), (2x, 2y+1), (2x+1, 2y+1), coordinates clamped to the
/// face. `src` holds `size * size` RGBA texels as half-float bit patterns.
pub fn downsample_face_f16<F: Fn(u16, u16, u16, u16) -> u16>(
    src: &[u16],
    size: u32,
    filter: &F,
) -> (dst: Vec<u16>)
    requires
        size >= 1,
        size * size * 4 <= 0x1_0000_0000,
        src@.len() >= size * size * 4,
        forall|a: u16, b: u16, c: u16, d: u16| #[trigger] filter.requires((a, b, c, d)),
    ensures
        is_box_downsample(*filter, src@, size as nat, dst@),
{
    let half_size: u32 = if size / 2 > 1 {
        size / 2
    } else {
        1
    };
    let ghost h = half_size as int;
    assert(h * h * 4 <= size * size * 4) by (nonlinear_arith)
        requires
            1 <= h <= size,
    ;
    let mut dst: Vec<u16> = Vec::new();
    let mut y: u32 = 0;
    while y < half_size
        invariant
            h == half_size,
            h == downsample_size(size as nat),
            size >= 1,
            size * size * 4 <= 0x1_0000_0000,
            h * h * 4 <= size * size * 4,
            src@.len() >= size * size * 4,
            forall|a: u16, b: u16, c: u16, d: u16| #[trigger] filter.requires((a, b, c, d)),
            y <= half_size,
            dst@.len() == texel_index(h, 0, y as int, 0),
            forall|xx: int, yy: int, cc: int|
                0 <= xx < h && 0 <= yy && 0 <= cc < 4 && texel_index(h, xx, yy, cc) < dst@.len()
                    ==> call_ensures(
                    *filter,
                    box_inputs(src@, size as int, xx, yy, cc),
                    #[trigger] dst@[texel_index(h, xx, yy, cc)],
                ),
        decreases half_size - y,
    {
        let mut x: u32 = 0;
        while x < half_size
            invariant
                h == half_size,
                h == downsample_size(size as nat),
                size >= 1,
                size * size * 4 <= 0x1_0000_0000,
                h * h * 4 <= size * size * 4,
                src@.len() >= size * size * 4,
                forall|a: u16, b: u16, c: u16, d: u16| #[trigger] filter.requires((a, b, c, d)),
                y < half_size,
                x <= half_size,
                dst@.len() == texel_index(h, x as int, y as int, 0),
                forall|xx: int, yy: int, cc: int|
                    0 <= xx < h && 0 <= yy && 0 <= cc < 4 && texel_index(h, xx, yy, cc)
                        < dst@.len() ==> call_ensures(
                        *filter,
                        box_inputs(src@, size as int, xx, yy, cc),
                        #[trigger] dst@[texel_index(h, xx, yy, cc)],
                    ),
            decreases half_size - x,
        {
            let mut c: u32 = 0;
            while c < 4
                invariant
                    h == half_size,
                    h == downsample_size(size as nat),
                    size >= 1,
                    size * size * 4 <= 0x1_0000_0000,
                    h * h * 4 <= size * size * 4,
                    src@.len() >= size * size * 4,
                    forall|a: u16, b: u16, c: u16, d: u16| #[trigger] filter.requires((a, b, c, d)),
                    y < half_size,
                    x < half_size,
                    c <= 4,
                    dst@.len() == texel_index(h, x as int, y as int, c as int),
                    forall|xx: int, yy: int, cc: int|
                        0 <= xx < h && 0 <= yy && 0 <= cc < 4 && texel_index(h, xx, yy, cc)
                            < dst@.len() ==> call_ensures(
                            *filter,
                            box_inputs(src@, size as int, xx, yy, cc),
                            #[trigger] dst@[texel_index(h, xx, yy, cc)],
                        ),
                decreases 4 - c,
            {
                let sx: u32 = if x * 2 < size - 1 {
                    x * 2
                } else {
                    size - 1
                };
                let sy: u32 = if y * 2 < size - 1 {
                    y * 2
                } else {
                    size - 1
                };
                let sx1: u32 = if sx + 1 < size - 1 {
                    sx + 1
                } else {
                    size - 1
                };
                let sy1: u32 = if sy + 1 < size - 1 {
                    sy + 1
                } else {
                    size - 1
                };
                proof {
                    lemma_texel_index_bound(size as int, sx as int, sy as int, c as int);
                    lemma_texel_index_bound(size as int, sx1 as int, sy as int, c as int);
                    lemma_texel_index_bound(size as int, sx as int, sy1 as int, c as int);
                    lemma_texel_index_bound(size as int, sx1 as int, sy1 as int, c as int);
                }
                let i00: usize = ((sy * size + sx) * 4 + c) as usize;
                let i10: usize = ((sy * size + sx1) * 4 + c) as usize;
                let i01: usize = ((sy1 * size + sx) * 4 + c) as usize;
                let i11: usize = ((sy1 * size + sx1) * 4 + c) as usize;
                let value: u16 = filter(src[i00], src[i10], src[i01], src[i11]);
                let ghost old_dst = dst@;
                dst.push(value);
                proof {
                    assert(box_inputs(src@, size as int, x as int, y as int, c as int) == (
                        src@[i00 as int],
                        src@[i10 as int],
                        src@[i01 as int],
                        src@[i11 as int],
                    ));
                    assert forall|xx: int, yy: int, cc: int|
                        0 <= xx < h && 0 <= yy && 0 <= cc < 4 && texel_index(h, xx, yy, cc)
                            < dst@.len() implies call_ensures(
                        *filter,
                        box_inputs(src@, size as int, xx, yy, cc),
                        #[trigger] dst@[texel_index(h, xx, yy, cc)],
                    ) by {
                        if texel_index(h, xx, yy, cc) == old_dst.len() {
                            lemma_texel_index_injective(
                                h,
                                xx,
                                yy,
                                cc,
                                x as int,
                                y as int,
                                c as int,
                            );
                        } else {
                            assert(dst@[texel_index(h, xx, yy, cc)] == old_dst[texel_index(
                                h,
                                xx,
                                yy,
                                cc,
                            )]);
                        }
                    }
                }
                c = c + 1;
            }
            x = x + 1;
        }
        assert((y * h + h) * 4 + 0 == ((y + 1) * h + 0) * 4 + 0) by (nonlinear_arith);
        y = y + 1;
    }
    proof {
        assert forall|xx: int, yy: int, cc: int|
            0 <= xx < h && 0 <= yy < h && 0 <= cc < 4 implies call_ensures(
            *filter,
            box_inputs(src@, size as int, xx, yy, cc),
            #[trigger] dst@[texel_index(h, xx, yy, cc)],
        ) by {
            lemma_texel_index_bound(h, xx, yy, cc);
        }
    }
    dst
}

/// A copy of one face.
fn clone_face(face: &Vec<u16>) -> (copy: Vec<u16>)
    ensures
        copy@ == face@,
{
    let copy = face.clone();
    assert(copy@ =~= face@);
    copy
}

/// A copy of the six faces of a level.
fn clone_faces(faces: &[Vec<u16>; 6]) -> (copy: [Vec<u16>; 6])
    ensures
        faces_view(copy) == faces_view(*faces),
{
    let copy = [
        clone_face(&faces[0]),
        clone_face(&faces[1]),
        clone_face(&faces[2]),
        clone_face(&faces[3]),
        clone_face(&faces[4]),
        clone_face(&faces[5]),
    ];
    assert(faces_view(copy) =~= faces_view(*faces));
    copy
}

/// Builds the whole mip chain of a cubemap, down to 1x1 faces: level 0 is
/// `base_faces` (six faces of `face_size` x `face_size` RGBA texels as
/// half-float bit patterns), and each further level filters every face of
/// the level above with `downsample_face_f16`.
pub fn generate_mip_chain_f16<F: Fn(u16, u16, u16, u16) -> u16>(
    base_faces: [Vec<u16>; 6],
    face_size: u32,
    filter: &F,
) -> (chain: Vec<[Vec<u16>; 6]>)
    requires
        face_size * face_size * 4 <= 0x1_0000_0000,
        face_size > 1 ==> forall|f: int|
            0 <= f < 6 ==> (#[trigger] base_faces@[f])@.len() >= face_size * face_size * 4,
        forall|a: u16, b: u16, c: u16, d: u16| #[trigger] filter.requires((a, b, c, d)),
    ensures
        chain@.len() == mip_level_count(face_size as nat),
        faces_view(chain@[0]) == faces_view(base_faces),
        forall|k: int, f: int|
            1 <= k < chain@.len() && 0 <= f < 6 ==> is_box_downsample(
                *filter,
                chain@[k - 1]@[f]@,
                mip_size(face_size as nat, (k - 1) as nat),
                (#[trigger] chain@[k]@[f])@,
            ),
        forall|k: int, f: int|
            1 <= k < chain@.len() && 0 <= f < 6 ==> (#[trigger] chain@[k]@[f])@.len() == mip_size(
                face_size as nat,
                k as nat,
            ) * mip_size(face_size as nat, k as nat) * 4,
        is_mip_chain(*filter, face_size as nat, faces_view(base_faces), chain_view(chain@)),
{
    let ghost base = faces_view(base_faces);
    let mut chain: Vec<[Vec<u16>; 6]> = Vec::new();
    chain.push(clone_faces(&base_faces));

    let mut cur = base_faces;
    let mut size: u32 = face_size;
    let ghost mut k: nat = 0;
    while size > 1
        invariant
            size == mip_size(face_size as nat, k),
            k + mip_level_count(size as nat) == mip_level_count(face_size as nat),
            chain@.len() == k + 1,
            faces_view(chain@[0]) == base,
            faces_view(cur) == faces_view(chain@[k as int]),
            size * size * 4 <= 0x1_0000_0000,
            size > 1 ==> forall|f: int|
                0 <= f < 6 ==> (#[trigger] cur@[f])@.len() >= size * size * 4,
            forall|a: u16, b: u16, c: u16, d: u16| #[trigger] filter.requires((a, b, c, d)),
            forall|j: int, f: int|
                1 <= j <= k && 0 <= f < 6 ==> is_box_downsample(
                    *filter,
                    chain@[j - 1]@[f]@,
                    mip_size(face_size as nat, (j - 1) as nat),
                    (#[trigger] chain@[j]@[f])@,
                ),
        decreases size,
    {
        assert(cur@[0]@.len() >= size * size * 4);
        assert(cur@[1]@.len() >= size * size * 4);
        assert(cur@[2]@.len() >= size * size * 4);
        assert(cur@[3]@.len() >= size * size * 4);
        assert(cur@[4]@.len() >= size * size * 4);
        assert(cur@[5]@.len() >= size * size * 4);
        let next: [Vec<u16>; 6] = [
            downsample_face_f16(cur[0].as_slice(), size, filter),
            downsample_face_f16(cur[1].as_slice(), size, filter),
            downsample_face_f16(cur[2].as_slice(), size, filter),
            downsample_face_f16(cur[3].as_slice(), size, filter),
            downsample_face_f16(cur[4].as_slice(), size, filter),
            downsample_face_f16(cur[5].as_slice(), size, filter),
        ];
        let ghost prev_size = size;
        size = if size / 2 > 1 {
            size / 2
        } else {
            1
        };
        let ghost prev_chain = chain@;
        chain.push(clone_faces(&next));
        proof {
            assert(size * size * 4 <= prev_size * prev_size * 4) by (nonlinear_arith)
                requires
                    1 <= size <= prev_size,
            ;
            assert forall|f: int| 0 <= f < 6 implies is_box_downsample(
                *filter,
                chain@[k as int]@[f]@,
                mip_size(face_size as nat, k),
                chain@[k + 1int]@[f]@,
            ) by {
                assert(chain@[k as int] == prev_chain[k as int]);
                assert(faces_view(cur)[f] == faces_view(chain@[k as int])[f]);
                assert(faces_view(next)[f] == faces_view(chain@[k + 1int])[f]);
            }
            assert forall|j: int, f: int|
                1 <= j <= k + 1 && 0 <= f < 6 implies is_box_downsample(
                *filter,
                chain@[j - 1]@[f]@,
                mip_size(face_size as nat, (j - 1) as nat),
                (#[trigger] chain@[j]@[f])@,
            ) by {
                if j <= k {
                    assert(chain@[j - 1] == prev_chain[j - 1]);
                    assert(chain@[j] == prev_chain[j]);
                }
            }
            assert forall|f: int| 0 <= f < 6 implies (#[trigger] next@[f])@.len() >= size * size
                * 4 by {
                assert(faces_view(next)[f] == next@[f]@);
            }
            assert(chain@[0] == prev_chain[0]);
        }
        cur = next;
        proof {
            k = k + 1;
        }
    }
    proof {
        assert forall|j: int, f: int|
            1 <= j < chain@.len() && 0 <= f < 6 implies (#[trigger] chain@[j]@[f])@.len()
                == mip_size(face_size as nat, j as nat) * mip_size(face_size as nat, j as nat) * 4 by {
            assert(is_box_downsample(
                *filter,
                chain@[j - 1]@[f]@,
                mip_size(face_size as nat, (j - 1) as nat),
                chain@[j]@[f]@,
            ));
        }
        let cv = chain_view(chain@);
        assert(cv[0] == base);
        assert forall|j: int, f: int|
            1 <= j < cv.len() && 0 <= f < 6 implies is_box_downsample(
            *filter,
            cv[j - 1][f],
            mip_size(face_size as nat, (j - 1) as nat),
            #[trigger] cv[j][f],
        ) by {
            assert(cv[j][f] == chain@[j]@[f]@);
            assert(cv[j - 1][f] == chain@[j - 1]@[f]@);
        }
    }
    chain
}

/// Going down `k + 1` levels from `face_size` is going down `k` levels from
/// the next size.
proof fn lemma_mip_size_shift(face_size: nat, k: nat)
    ensures
        mip_size(face_size, k + 1) == mip_size(downsample_size(face_size), k),
    decreases k,
{
    assert(mip_size(face_size, k + 1) == downsample_size(mip_size(face_size, k)));
    if k > 0 {
        lemma_mip_size_shift(face_size, (k - 1) as nat);
        assert(mip_size(downsample_size(face_size), k) == downsample_size(
            mip_size(downsample_size(face_size), (k - 1) as nat),
        ));
    } else {
        assert(mip_size(face_size, 0) == face_size);
        assert(mip_size(downsample_size(face_size), 0) == downsample_size(face_size));
    }
}

/// The chain ends with 1x1 faces: its last level is 1 texel wide and every
/// level before it is at least 2 texels wide.
pub proof fn lemma_mip_chain_ends_at_one_texel(face_size: nat)
    requires
        face_size >= 1,
    ensures
        mip_size(face_size, (mip_level_count(face_size) - 1) as nat) == 1,
        forall|k: nat|
            k < mip_level_count(face_size) - 1 ==> #[trigger] mip_size(face_size, k) >= 2,
    decreases face_size,
{
    if face_size > 1 {
        let next: nat = face_size / 2;
        lemma_mip_chain_ends_at_one_texel(next);
        lemma_mip_size_shift(face_size, (mip_level_count(next) - 1) as nat);
        assert forall|k: nat| k < mip_level_count(face_size) - 1 implies #[trigger] mip_size(
            face_size,
            k,
        ) >= 2 by {
            if k > 0 {
                lemma_mip_size_shift(face_size, (k - 1) as nat);
                assert(mip_size(next, (k - 1) as nat) >= 2);
            }
        }
    }
}

/// The chain has floor(log2(face_size)) + 1 levels.
pub proof fn lemma_mip_level_count_is_log2(face_size: nat)
    requires
        face_size >= 1,
    ensures
        pow2((mip_level_count(face_size) - 1) as nat) <= face_size < pow2(
            mip_level_count(face_size),
        ),
    decreases face_size,
{
    let c: nat = mip_level_count(face_size);
    if face_size == 1 {
        lemma_pow0(2);
        lemma_pow2_unfold(1);
    } else {
        let next: nat = face_size / 2;
        lemma_mip_level_count_is_log2(next);
        let c1: nat = mip_level_count(next);
        assert(c == c1 + 1);
        lemma_pow2_unfold(c1);
        lemma_pow2_unfold(c1 + 1);
    }
}

/// Each level halves the side of the one above it, rounding down: level `k`
/// is floor(face_size / 2^k) texels wide.
pub proof fn lemma_mip_size_halves(face_size: nat, k: nat)
    requires
        face_size >= 1,
        k < mip_level_count(face_size),
    ensures
        mip_size(face_size, k) == face_size / pow2(k),
    decreases k,
{
    if k == 0 {
        lemma_pow0(2);
        assert(pow2(0) == 1);
        assert(face_size / 1 == face_size);
    } else {
        lemma_mip_size_halves(face_size, (k - 1) as nat);
        lemma_mip_chain_ends_at_one_texel(face_size);
        let prev: nat = mip_size(face_size, (k - 1) as nat);
        assert(prev >= 2);
        lemma_pow2_unfold(k);
        let p: nat = pow2((k - 1) as nat);
        lemma_pow2_pos((k - 1) as nat);
        assert(face_size / p / 2 == face_size / (p * 2)) by {
            vstd::arithmetic::div_mod::lemma_div_denominator(face_size as int, p as int, 2);
        }
        assert(p * 2 == 2 * p) by (nonlinear_arith);
        assert(mip_size(face_size, k) == downsample_size(prev));
        assert(downsample_size(prev) == prev / 2);
        assert(pow2(k) == 2 * p);
        assert(face_size / pow2(k) == face_size / (p * 2));
        assert(prev == face_size / p);
    }
}

} // verus!
