//! Byte layout of a KTX2 file holding a mipmapped RGBA16F cubemap.
//!
//! The file holds one image per mip level, largest first; each level is the
//! six faces (+X, -X, +Y, -Y, +Z, -Z) one after the other, faceCount = 6 and
//! layerCount = 0. After the 80-byte header come the level index, the Data
//! Format Descriptor and an empty key/value section; each level's data starts
//! at a multiple of 8.

use crate::dfd::{build_dfd_rgba16f, dfd_rgba16f, DFD_TOTAL_SIZE};
use crate::le_bytes::{
    le_u32, le_u64, le_words, lemma_le_words_len, push_bytes, push_u64_le, push_words_le, read_le_u32, read_le_u64,
};
use vstd::prelude::*;

verus! {

/// The KTX2 file identifier: «KTX 20»\r\n\x1A\n.
pub const KTX2_MAGIC: [u8; 12] = [
    0xAB, 0x4B, 0x54, 0x58, 0x20, 0x32, 0x30, 0xBB, 0x0D, 0x0A, 0x1A, 0x0A,
];

/// VK_FORMAT_R16G16B16A16_SFLOAT.
pub const VK_FORMAT_R16G16B16A16_SFLOAT: u32 = 97;

/// Size in bytes of the fixed KTX2 header.
pub const HEADER_SIZE: u32 = 80;

/// Size in bytes of one entry of the level index.
pub const LEVEL_INDEX_ENTRY_SIZE: u32 = 24;

/// The magic identifier as a sequence.
pub open spec fn ktx2_magic() -> Seq<u8> {
    seq![0xABu8, 0x4Bu8, 0x54u8, 0x58u8, 0x20u8, 0x32u8, 0x30u8, 0xBBu8, 0x0Du8, 0x0Au8, 0x1Au8, 0x0Au8]
}

/// The mip levels as byte sequences: `levels[i][f]` is face `f` of level `i`.
pub open spec fn levels_view(mips: Seq<[Vec<u8>; 6]>) -> Seq<Seq<Seq<u8>>> {
    Seq::new(mips.len(), |i: int| Seq::new(6, |f: int| mips[i]@[f]@))
}

/// The faces of a level, one after the other.
pub open spec fn faces_concat(faces: Seq<Seq<u8>>) -> Seq<u8>
    decreases faces.len(),
{
    if faces.len() == 0 {
        Seq::empty()
    } else {
        faces_concat(faces.drop_last()) + faces.last()
    }
}

/// Number of bytes in a level.
pub open spec fn level_len(faces: Seq<Seq<u8>>) -> int {
    faces_concat(faces).len() as int
}

/// `v` rounded up to a multiple of 8.
pub open spec fn align8(v: int) -> int {
    (v + 7) / 8 * 8
}

/// Byte offset of the Data Format Descriptor, after the header and the index.
pub open spec fn dfd_offset(level_count: int) -> int {
    HEADER_SIZE + LEVEL_INDEX_ENTRY_SIZE * level_count
}

/// Byte offset of the (empty) key/value data, right after the descriptor.
pub open spec fn kvd_offset(level_count: int) -> int {
    dfd_offset(level_count) + DFD_TOTAL_SIZE
}

/// Byte offset of level `i`: the end of what precedes it, rounded up to 8.
pub open spec fn level_offset(levels: Seq<Seq<Seq<u8>>>, i: int) -> int
    decreases i,
{
    if i <= 0 {
        align8(kvd_offset(levels.len() as int))
    } else {
        align8(level_offset(levels, i - 1) + level_len(levels[i - 1]))
    }
}

/// Where the bytes before level `i` end: the key/value offset for the first
/// level, else the end of level `i - 1`.
pub open spec fn level_prev_end(levels: Seq<Seq<Seq<u8>>>, i: int) -> int {
    if i <= 0 {
        kvd_offset(levels.len() as int)
    } else {
        level_offset(levels, i - 1) + level_len(levels[i - 1])
    }
}

/// The header fields fit their 32-bit words and every offset, rounded up,
/// fits in memory.
pub open spec fn ktx2_layout_fits(levels: Seq<Seq<Seq<u8>>>) -> bool {
    &&& kvd_offset(levels.len() as int) <= u32::MAX
    &&& level_prev_end(levels, levels.len() as int) + 7 <= usize::MAX
}

/// The 80-byte header: identifier, vkFormat, typeSize 2, width and height
/// `face_size`, depth 0, layerCount 0, faceCount 6, levelCount, no
/// supercompression, the descriptor's offset and length, the key/value
/// offset and length 0, and an empty supercompression global data section.
pub open spec fn ktx2_header(face_size: u32, level_count: int) -> Seq<u8> {
    ktx2_magic() + le_words(ktx2_header_words(face_size, level_count)) + le_u64(0) + le_u64(0)
}

/// The 32-bit header fields after the identifier, in file order.
pub open spec fn ktx2_header_words(face_size: u32, level_count: int) -> Seq<u32> {
    Seq::new(13, |k: int| ktx2_header_word(face_size, level_count, k))
}

/// Header field `k` after the identifier: vkFormat, typeSize, pixelWidth,
/// pixelHeight, pixelDepth, layerCount, faceCount, levelCount,
/// supercompressionScheme, dfdByteOffset, dfdByteLength, kvdByteOffset,
/// kvdByteLength.
pub open spec fn ktx2_header_word(face_size: u32, level_count: int, k: int) -> u32 {
    if k == 0 {
        VK_FORMAT_R16G16B16A16_SFLOAT
    } else if k == 1 {
        2
    } else if k == 2 || k == 3 {
        face_size
    } else if k == 6 {
        6
    } else if k == 7 {
        level_count as u32
    } else if k == 9 {
        dfd_offset(level_count) as u32
    } else if k == 10 {
        DFD_TOTAL_SIZE
    } else if k == 11 {
        kvd_offset(level_count) as u32
    } else {
        0
    }
}

/// The index entries of the first `k` levels: byte offset, byte length and
/// uncompressed byte length.
pub open spec fn level_index(levels: Seq<Seq<Seq<u8>>>, k: int) -> Seq<u8>
    decreases k,
{
    if k <= 0 {
        Seq::empty()
    } else {
        level_index(levels, k - 1) + le_u64(level_offset(levels, k - 1) as u64) + le_u64(
            level_len(levels[k - 1]) as u64,
        ) + le_u64(level_len(levels[k - 1]) as u64)
    }
}

/// `n` zero bytes.
pub open spec fn zeros(n: int) -> Seq<u8> {
    Seq::new(n as nat, |i: int| 0u8)
}

/// The data of the first `k` levels, each preceded by the zero padding that
/// brings it to its offset.
pub open spec fn level_data(levels: Seq<Seq<Seq<u8>>>, k: int) -> Seq<u8>
    decreases k,
{
    if k <= 0 {
        Seq::empty()
    } else {
        level_data(levels, k - 1) + zeros(level_offset(levels, k - 1) - level_prev_end(levels, k - 1))
            + faces_concat(levels[k - 1])
    }
}

/// The whole file.
pub open spec fn ktx2_cubemap_file(face_size: u32, levels: Seq<Seq<Seq<u8>>>) -> Seq<u8> {
    ktx2_header(face_size, levels.len() as int) + level_index(levels, levels.len() as int)
        + dfd_rgba16f() + level_data(levels, levels.len() as int)
}

/// Rounding up to 8 with the bit trick gives the next multiple of 8.
proof fn lemma_align8_bits(x: u64)
    requires
        x + 7 <= u64::MAX,
    ensures
        (((x + 7) as u64) & !7u64) == align8(x as int),
        align8(x as int) >= x,
        align8(x as int) % 8 == 0,
{
    let y: u64 = (x + 7) as u64;
    assert((y & !7u64) == y - y % 8) by (bit_vector);
}

/// The bytes before a level never end earlier than those before an earlier level.
pub proof fn lemma_prev_end_monotone(levels: Seq<Seq<Seq<u8>>>, j: int, k: int)
    requires
        0 <= j <= k,
    ensures
        level_prev_end(levels, j) <= level_prev_end(levels, k),
        level_prev_end(levels, k) <= level_offset(levels, k),
    decreases k,
{
    if k > j {
        lemma_prev_end_monotone(levels, j, k - 1);
        assert(level_len(levels[k - 1]) >= 0);
    }
}

/// Computes, for each mip level, its byte offset in the file and its byte
/// length; `None` where an offset or a header field would overflow.
pub fn ktx2_level_layout(mips: &[[Vec<u8>; 6]]) -> (layout: Option<Vec<(u64, u64)>>)
    ensures
        layout is Some <==> ktx2_layout_fits(levels_view(mips@)),
        layout matches Some(entries) ==> {
            &&& entries@.len() == mips@.len()
            &&& forall|i: int|
                0 <= i < entries@.len() ==> {
                    &&& (#[trigger] entries@[i]).0 == level_offset(levels_view(mips@), i)
                    &&& entries@[i].1 == level_len(levels_view(mips@)[i])
                }
        },
{
    let ghost levels = levels_view(mips@);
    let n: usize = mips.len();
    if n > ((u32::MAX - HEADER_SIZE - DFD_TOTAL_SIZE) / LEVEL_INDEX_ENTRY_SIZE) as usize {
        // The key/value offset would not fit in its 32-bit header field.
        return None;
    }
    assert(24 * n + 172 <= u32::MAX) by (nonlinear_arith)
        requires
            n <= (u32::MAX - 172) / 24,
    ;
    let kvd: u64 = (HEADER_SIZE + DFD_TOTAL_SIZE) as u64 + (LEVEL_INDEX_ENTRY_SIZE as u64) * (
    n as u64);
    let limit: u64 = usize::MAX as u64;
    if kvd > limit - 7 {
        proof {
            lemma_prev_end_monotone(levels, 0, n as int);
        }
        return None;
    }
    proof {
        lemma_align8_bits(kvd);
    }
    let mut cursor: u64 = (kvd + 7) & !7u64;
    let mut entries: Vec<(u64, u64)> = Vec::new();
    let mut i: usize = 0;
    while i < n
        invariant
            i <= n,
            n == mips@.len(),
            levels == levels_view(mips@),
            limit == usize::MAX,
            kvd_offset(n as int) <= u32::MAX,
            cursor == level_offset(levels, i as int),
            level_prev_end(levels, i as int) + 7 <= usize::MAX,
            entries@.len() == i,
            forall|j: int|
                0 <= j < i ==> {
                    &&& (#[trigger] entries@[j]).0 == level_offset(levels, j)
                    &&& entries@[j].1 == level_len(levels[j])
                },
        decreases n - i,
    {
        let faces = &mips[i];
        let mut level_len_acc: u64 = 0;
        for f in 0..6usize
            invariant
                n == mips@.len(),
                i < n,
                levels == levels_view(mips@),
                *faces == mips@[i as int],
                limit == usize::MAX,
                level_len_acc == faces_concat(levels[i as int].take(f as int)).len(),
                kvd_offset(n as int) <= u32::MAX,
                cursor == level_offset(levels, i as int),
                level_prev_end(levels, i as int) + 7 <= usize::MAX,
                entries@.len() == i,
                forall|j: int|
                    0 <= j < i ==> {
                        &&& (#[trigger] entries@[j]).0 == level_offset(levels, j)
                        &&& entries@[j].1 == level_len(levels[j])
                    },
        {
            let face_len: u64 = faces[f].len() as u64;
            assert(levels[i as int].take(f + 1).drop_last() =~= levels[i as int].take(f as int));
            assert(levels[i as int][f as int] == faces@[f as int]@);
            match level_len_acc.checked_add(face_len) {
                Some(s) => {
                    level_len_acc = s;
                },
                None => {
                    proof {
                        assert(levels[i as int].take(6) =~= levels[i as int]);
                        lemma_faces_concat_prefix_len(levels[i as int], f + 1, 6);
                        lemma_prev_end_monotone(levels, i + 1, n as int);
                    }
                    return None;
                },
            }
        }
        proof {
            assert(levels[i as int].take(6) =~= levels[i as int]);
        }
        let end: u64 = match cursor.checked_add(level_len_acc) {
            Some(e) => e,
            None => {
                proof {
                    lemma_prev_end_monotone(levels, i + 1, n as int);
                }
                return None;
            },
        };
        if end > limit - 7 {
            proof {
                lemma_prev_end_monotone(levels, i + 1, n as int);
            }
            return None;
        }
        entries.push((cursor, level_len_acc));
        proof {
            lemma_align8_bits(end);
            assert(level_len_acc == level_len(levels[i as int]));
            assert(entries@[i as int] == (cursor, level_len_acc));
            assert forall|j: int| 0 <= j < i + 1 implies {
                &&& (#[trigger] entries@[j]).0 == level_offset(levels, j)
                &&& entries@[j].1 == level_len(levels[j])
            } by {}
        }
        cursor = (end + 7) & !7u64;
        i = i + 1;
    }
    Some(entries)
}

/// A prefix of the faces is no longer than all of them.
proof fn lemma_faces_concat_prefix_len(faces: Seq<Seq<u8>>, j: int, k: int)
    requires
        0 <= j <= k <= faces.len(),
    ensures
        faces_concat(faces.take(j)).len() <= faces_concat(faces.take(k)).len(),
    decreases k,
{
    if k > j {
        assert(faces.take(k).drop_last() =~= faces.take(k - 1));
        lemma_faces_concat_prefix_len(faces, j, k - 1);
    }
}

/// Rounding up to a multiple of 8 never lowers a non-negative number.
proof fn lemma_align8_ge(x: int)
    requires
        x >= 0,
    ensures
        align8(x) >= x,
        align8(x) < x + 8,
        align8(x) % 8 == 0,
{
}

/// The header is 80 bytes long.
pub proof fn lemma_header_len(face_size: u32, level_count: int)
    ensures
        ktx2_header(face_size, level_count).len() == HEADER_SIZE,
{
    lemma_le_words_len(ktx2_header_words(face_size, level_count));
}

/// The index of the first `k` levels takes 24 bytes per level.
pub proof fn lemma_level_index_len(levels: Seq<Seq<Seq<u8>>>, k: int)
    requires
        k >= 0,
    ensures
        level_index(levels, k).len() == LEVEL_INDEX_ENTRY_SIZE * k,
    decreases k,
{
    if k > 0 {
        lemma_level_index_len(levels, k - 1);
    }
}

/// Offsets never fall before the bytes that precede them.
pub proof fn lemma_level_offset_bounds(levels: Seq<Seq<Seq<u8>>>, i: int)
    requires
        i >= 0,
    ensures
        level_prev_end(levels, i) >= kvd_offset(levels.len() as int),
        level_offset(levels, i) >= level_prev_end(levels, i),
        level_offset(levels, i) < level_prev_end(levels, i) + 8,
        level_offset(levels, i) % 8 == 0,
    decreases i,
{
    if i > 0 {
        lemma_level_offset_bounds(levels, i - 1);
    }
    lemma_align8_ge(level_prev_end(levels, i));
}

/// The data of the first `k` levels ends where level `k` would be preceded.
pub proof fn lemma_level_data_len(levels: Seq<Seq<Seq<u8>>>, k: int)
    requires
        k >= 0,
    ensures
        level_data(levels, k).len() == level_prev_end(levels, k) - kvd_offset(levels.len() as int),
    decreases k,
{
    if k > 0 {
        lemma_level_data_len(levels, k - 1);
        lemma_level_offset_bounds(levels, k - 1);
    }
}

/// Writes a KTX2 file holding a cubemap with mip levels, as bytes: `mips[i][f]`
/// holds the RGBA16F texels of face `f` (+X, -X, +Y, -Y, +Z, -Z) of level `i`,
/// level 0 being `face_size` texels on a side.
pub fn encode_ktx2_cubemap_rgba16f(face_size: u32, mips: &[[Vec<u8>; 6]]) -> (file: Vec<u8>)
    requires
        mips@.len() >= 1,
        ktx2_layout_fits(levels_view(mips@)),
    ensures
        file@ == ktx2_cubemap_file(face_size, levels_view(mips@)),
{
    let ghost levels = levels_view(mips@);
    let level_count: u32 = mips.len() as u32;

    let dfd = build_dfd_rgba16f();
    let dfd_len: u32 = dfd.len() as u32;

    let header_size: u32 = HEADER_SIZE;
    let level_index_size: u32 = LEVEL_INDEX_ENTRY_SIZE * level_count;
    let dfd_offset: u32 = header_size + level_index_size;
    let kvd_offset: u32 = dfd_offset + dfd_len;
    let kvd_len: u32 = 0;

    let level_entries = ktx2_level_layout(mips).unwrap();

    let mut out: Vec<u8> = Vec::new();
    push_bytes(&mut out, &KTX2_MAGIC);
    let fields: [u32; 13] = [
        VK_FORMAT_R16G16B16A16_SFLOAT,
        2,  // typeSize: one f16 channel is 2 bytes
        face_size,  // pixelWidth
        face_size,  // pixelHeight
        0,  // pixelDepth
        0,  // layerCount
        6,  // faceCount
        level_count,
        0,  // supercompressionScheme
        dfd_offset,
        dfd_len,
        kvd_offset,
        kvd_len,
    ];
    push_words_le(&mut out, &fields);
    push_u64_le(&mut out, 0);  // sgdByteOffset
    push_u64_le(&mut out, 0);  // sgdByteLength
    proof {
        assert(KTX2_MAGIC@ =~= ktx2_magic());
        assert(fields@ =~= ktx2_header_words(face_size, levels.len() as int));
        assert(out@ =~= ktx2_header(face_size, levels.len() as int));
        lemma_header_len(face_size, levels.len() as int);
    }
    let ghost header = out@;

    let n: usize = level_entries.len();
    let mut i: usize = 0;
    while i < n
        invariant
            i <= n,
            n == mips@.len(),
            levels == levels_view(mips@),
            level_entries@.len() == n,
            forall|j: int|
                0 <= j < n ==> {
                    &&& (#[trigger] level_entries@[j]).0 == level_offset(levels, j)
                    &&& level_entries@[j].1 == level_len(levels[j])
                },
            out@ == header + level_index(levels, i as int),
        decreases n - i,
    {
        let (offset, length) = level_entries[i];
        push_u64_le(&mut out, offset);
        push_u64_le(&mut out, length);
        push_u64_le(&mut out, length);  // uncompressedByteLength
        proof {
            assert(out@ =~= header + level_index(levels, i + 1));
        }
        i = i + 1;
    }

    push_bytes(&mut out, dfd.as_slice());
    let ghost prefix = out@;
    proof {
        lemma_level_index_len(levels, n as int);
        assert(prefix.len() == crate::ktx2::kvd_offset(n as int));
        assert(out@ =~= prefix + level_data(levels, 0));
    }

    let mut i: usize = 0;
    while i < n
        invariant
            i <= n,
            n == mips@.len(),
            levels == levels_view(mips@),
            level_entries@.len() == n,
            forall|j: int|
                0 <= j < n ==> {
                    &&& (#[trigger] level_entries@[j]).0 == level_offset(levels, j)
                    &&& level_entries@[j].1 == level_len(levels[j])
                },
            prefix.len() == crate::ktx2::kvd_offset(n as int),
            out@ == prefix + level_data(levels, i as int),
            out@.len() == level_prev_end(levels, i as int),
            ktx2_layout_fits(levels),
        decreases n - i,
    {
        let (offset, _length) = level_entries[i];
        proof {
            lemma_level_data_len(levels, i as int);
            lemma_level_offset_bounds(levels, i as int);
            lemma_prev_end_monotone(levels, i + 1, n as int);
        }
        let ghost start = out@.len() as int;
        while (out.len() as u64) < offset
            invariant
                start == level_prev_end(levels, i as int),
                offset == level_offset(levels, i as int),
                start <= out@.len() <= offset,
                out@ == prefix + level_data(levels, i as int) + zeros(out@.len() - start),
            decreases offset - out@.len(),
        {
            out.push(0u8);
            assert(out@ =~= prefix + level_data(levels, i as int) + zeros(out@.len() - start));
        }
        let ghost padded = out@;
        let faces = &mips[i];
        for f in 0..6usize
            invariant
                i < n,
                n == mips@.len(),
                levels == levels_view(mips@),
                *faces == mips@[i as int],
                out@ == padded + faces_concat(levels[i as int].take(f as int)),
        {
            push_bytes(&mut out, faces[f].as_slice());
            proof {
                assert(levels[i as int][f as int] == faces@[f as int]@);
                assert(levels[i as int].take(f + 1).drop_last() =~= levels[i as int].take(f as int));
                assert(out@ =~= padded + faces_concat(levels[i as int].take(f + 1)));
            }
        }
        proof {
            assert(levels[i as int].take(6) =~= levels[i as int]);
            assert(out@ =~= prefix + level_data(levels, i + 1));
        }
        i = i + 1;
    }
    out
}

} // verus!
