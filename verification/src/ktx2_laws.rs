//! What a reader of the KTX2 file finds where: the header fields, the level
//! index and, at each level's recorded offset, that level's six faces.

use crate::dfd::{dfd_rgba16f, lemma_dfd_rgba16f_size, DFD_TOTAL_SIZE};
use crate::ktx2::{
    dfd_offset, faces_concat, ktx2_cubemap_file, ktx2_header, ktx2_header_words, ktx2_layout_fits, ktx2_magic,
    kvd_offset, level_data, level_index, level_len, level_offset, level_prev_end,
    HEADER_SIZE, LEVEL_INDEX_ENTRY_SIZE, VK_FORMAT_R16G16B16A16_SFLOAT,
};
use crate::ktx2::{
    lemma_header_len, lemma_level_data_len, lemma_level_index_len, lemma_level_offset_bounds,
    lemma_prev_end_monotone,
};
use crate::le_bytes::{
    le_u32, le_u64, le_value4, le_value8, le_words, lemma_le_u32_roundtrip, lemma_le_u64_roundtrip,
    lemma_le_words_len, read_le_u32, read_le_u64,
};
use vstd::prelude::*;

verus! {

/// A window that lies inside the second part of a concatenation.
proof fn lemma_subrange_right(a: Seq<u8>, b: Seq<u8>, p: int, q: int)
    requires
        a.len() <= p <= q <= a.len() + b.len(),
    ensures
        (a + b).subrange(p, q) == b.subrange(p - a.len(), q - a.len()),
{
    assert((a + b).subrange(p, q) =~= b.subrange(p - a.len(), q - a.len()));
}

/// A window that lies inside the first part of a concatenation.
proof fn lemma_subrange_left(a: Seq<u8>, b: Seq<u8>, p: int, q: int)
    requires
        0 <= p <= q <= a.len(),
    ensures
        (a + b).subrange(p, q) == a.subrange(p, q),
{
    assert((a + b).subrange(p, q) =~= a.subrange(p, q));
}

/// Word `k` of an encoded word sequence sits at byte `4 * k`.
proof fn lemma_le_words_at(ws: Seq<u32>, k: int)
    requires
        0 <= k < ws.len(),
    ensures
        le_words(ws).subrange(4 * k, 4 * k + 4) == le_u32(ws[k]),
    decreases ws.len(),
{
    lemma_le_words_len(ws.drop_last());
    if k == ws.len() - 1 {
        lemma_subrange_right(le_words(ws.drop_last()), le_u32(ws.last()), 4 * k, 4 * k + 4);
        assert(le_u32(ws.last()).subrange(0, 4) =~= le_u32(ws.last()));
    } else {
        lemma_le_words_at(ws.drop_last(), k);
        lemma_subrange_left(le_words(ws.drop_last()), le_u32(ws.last()), 4 * k, 4 * k + 4);
    }
}

/// Entry `i` of the level index sits at byte `24 * i` of the index.
proof fn lemma_level_index_at(levels: Seq<Seq<Seq<u8>>>, k: int, i: int)
    requires
        0 <= i < k,
    ensures
        level_index(levels, k).subrange(24 * i, 24 * i + 24) == le_u64(
            level_offset(levels, i) as u64,
        ) + le_u64(level_len(levels[i]) as u64) + le_u64(level_len(levels[i]) as u64),
    decreases k,
{
    lemma_level_index_len(levels, k - 1);
    let entry = le_u64(level_offset(levels, k - 1) as u64) + le_u64(
        level_len(levels[k - 1]) as u64,
    ) + le_u64(level_len(levels[k - 1]) as u64);
    lemma_le_u64_roundtrip(0);
    assert(level_index(levels, k) =~= level_index(levels, k - 1) + entry);
    if i == k - 1 {
        lemma_subrange_right(level_index(levels, k - 1), entry, 24 * i, 24 * i + 24);
        assert(entry.subrange(0, 24) =~= entry);
    } else {
        lemma_level_index_at(levels, k - 1, i);
        lemma_subrange_left(level_index(levels, k - 1), entry, 24 * i, 24 * i + 24);
    }
}

/// The faces of level `i` sit in the level data at the level's offset,
/// counted from the start of the data section.
proof fn lemma_level_data_at(levels: Seq<Seq<Seq<u8>>>, k: int, i: int)
    requires
        0 <= i < k,
    ensures
        level_data(levels, k).subrange(
            level_offset(levels, i) - kvd_offset(levels.len() as int),
            level_offset(levels, i) - kvd_offset(levels.len() as int) + level_len(levels[i]),
        ) == faces_concat(levels[i]),
    decreases k,
{
    let kvd: int = kvd_offset(levels.len() as int);
    lemma_level_data_len(levels, k - 1);
    lemma_level_offset_bounds(levels, k - 1);
    lemma_level_offset_bounds(levels, i);
    let pad = crate::ktx2::zeros(level_offset(levels, k - 1) - level_prev_end(levels, k - 1));
    let head = level_data(levels, k - 1) + pad;
    assert(level_data(levels, k) == head + faces_concat(levels[k - 1]));
    assert(head.len() == level_offset(levels, k - 1) - kvd);
    if i == k - 1 {
        lemma_subrange_right(
            head,
            faces_concat(levels[i]),
            level_offset(levels, i) - kvd,
            level_offset(levels, i) - kvd + level_len(levels[i]),
        );
        assert(faces_concat(levels[i]).subrange(0, level_len(levels[i])) =~= faces_concat(
            levels[i],
        ));
    } else {
        lemma_level_data_at(levels, k - 1, i);
        lemma_level_data_len(levels, i + 1);
        lemma_prev_end_monotone(levels, i + 1, k - 1);
        lemma_subrange_left(
            head,
            faces_concat(levels[k - 1]),
            level_offset(levels, i) - kvd,
            level_offset(levels, i) - kvd + level_len(levels[i]),
        );
        lemma_subrange_left(
            level_data(levels, k - 1),
            pad,
            level_offset(levels, i) - kvd,
            level_offset(levels, i) - kvd + level_len(levels[i]),
        );
    }
}

/// The file's parts: header, level index, descriptor, level data.
proof fn lemma_file_parts(face_size: u32, levels: Seq<Seq<Seq<u8>>>)
    ensures
        ktx2_header(face_size, levels.len() as int).len() == 80,
        level_index(levels, levels.len() as int).len() == 24 * levels.len(),
        dfd_rgba16f().len() == DFD_TOTAL_SIZE,
        ktx2_cubemap_file(face_size, levels).len() == level_prev_end(levels, levels.len() as int),
{
    let n: int = levels.len() as int;
    lemma_header_len(face_size, n);
    lemma_level_index_len(levels, n);
    lemma_dfd_rgba16f_size();
    lemma_level_data_len(levels, n);
}

/// Field `k` of the header words is read back at byte `12 + 4 * k`.
proof fn lemma_header_word_at(face_size: u32, levels: Seq<Seq<Seq<u8>>>, k: int)
    requires
        0 <= k < 13,
    ensures
        read_le_u32(ktx2_cubemap_file(face_size, levels), 12 + 4 * k) == ktx2_header_words(
            face_size,
            levels.len() as int,
        )[k],
{
    let file = ktx2_cubemap_file(face_size, levels);
    let n: int = levels.len() as int;
    let ws = ktx2_header_words(face_size, n);
    let header = ktx2_header(face_size, n);
    let rest = level_index(levels, n) + dfd_rgba16f() + level_data(levels, n);
    lemma_header_len(face_size, n);
    lemma_le_words_len(ws);
    assert(file =~= header + rest);
    let front = ktx2_magic() + le_words(ws);
    assert(header =~= front + (le_u64(0) + le_u64(0)));
    lemma_le_words_at(ws, k);
    lemma_subrange_left(header, rest, 12 + 4 * k, 16 + 4 * k);
    lemma_subrange_left(front, le_u64(0) + le_u64(0), 12 + 4 * k, 16 + 4 * k);
    lemma_subrange_right(ktx2_magic(), le_words(ws), 12 + 4 * k, 16 + 4 * k);
    lemma_le_u32_roundtrip(ws[k]);
}

/// The header a reader finds: the identifier, vkFormat R16G16B16A16_SFLOAT,
/// typeSize 2, width and height `face_size`, depth 0, layerCount 0,
/// faceCount 6, one level per entry of `levels`, no supercompression, and the
/// offsets and lengths of the descriptor and of the empty key/value data;
/// at the descriptor's offset lies the RGBA16F descriptor, whose first word
/// is its own length.
pub proof fn lemma_ktx2_header_reads_back(face_size: u32, levels: Seq<Seq<Seq<u8>>>)
    requires
        ktx2_layout_fits(levels),
    ensures
        ({
            let file = ktx2_cubemap_file(face_size, levels);
            let n: int = levels.len() as int;
            &&& file.subrange(0, 12) == ktx2_magic()
            &&& read_le_u32(file, 12) == VK_FORMAT_R16G16B16A16_SFLOAT
            &&& read_le_u32(file, 16) == 2
            &&& read_le_u32(file, 20) == face_size
            &&& read_le_u32(file, 24) == face_size
            &&& read_le_u32(file, 28) == 0
            &&& read_le_u32(file, 32) == 0
            &&& read_le_u32(file, 36) == 6
            &&& read_le_u32(file, 40) == n
            &&& read_le_u32(file, 44) == 0
            &&& read_le_u32(file, 48) == dfd_offset(n)
            &&& read_le_u32(file, 52) == DFD_TOTAL_SIZE
            &&& read_le_u32(file, 56) == kvd_offset(n)
            &&& read_le_u32(file, 60) == 0
            &&& read_le_u64(file, 64) == 0
            &&& read_le_u64(file, 72) == 0
            &&& file.subrange(dfd_offset(n), dfd_offset(n) + DFD_TOTAL_SIZE) == dfd_rgba16f()
            &&& read_le_u32(file, dfd_offset(n)) == DFD_TOTAL_SIZE
        }),
{
    let file = ktx2_cubemap_file(face_size, levels);
    let n: int = levels.len() as int;
    lemma_header_word_at(face_size, levels, 0);
    lemma_header_word_at(face_size, levels, 1);
    lemma_header_word_at(face_size, levels, 2);
    lemma_header_word_at(face_size, levels, 3);
    lemma_header_word_at(face_size, levels, 4);
    lemma_header_word_at(face_size, levels, 5);
    lemma_header_word_at(face_size, levels, 6);
    lemma_header_word_at(face_size, levels, 7);
    lemma_header_word_at(face_size, levels, 8);
    lemma_header_word_at(face_size, levels, 9);
    lemma_header_word_at(face_size, levels, 10);
    lemma_header_word_at(face_size, levels, 11);
    lemma_header_word_at(face_size, levels, 12);
    lemma_header_tail(face_size, levels);
}

/// The identifier, the empty supercompression data and the descriptor.
proof fn lemma_header_tail(face_size: u32, levels: Seq<Seq<Seq<u8>>>)
    requires
        ktx2_layout_fits(levels),
    ensures
        ({
            let file = ktx2_cubemap_file(face_size, levels);
            let n: int = levels.len() as int;
            &&& file.subrange(0, 12) == ktx2_magic()
            &&& read_le_u64(file, 64) == 0
            &&& read_le_u64(file, 72) == 0
            &&& file.subrange(dfd_offset(n), dfd_offset(n) + DFD_TOTAL_SIZE) == dfd_rgba16f()
            &&& read_le_u32(file, dfd_offset(n)) == DFD_TOTAL_SIZE
        }),
{
    let file = ktx2_cubemap_file(face_size, levels);
    let n: int = levels.len() as int;
    let ws = ktx2_header_words(face_size, n);
    let header = ktx2_header(face_size, n);
    let rest = level_index(levels, n) + dfd_rgba16f() + level_data(levels, n);
    lemma_file_parts(face_size, levels);
    lemma_le_words_len(ws);
    assert(file =~= header + rest);
    lemma_le_u64_roundtrip(0);
    lemma_subrange_left(header, rest, 0, 12);
    assert(header.subrange(0, 12) =~= ktx2_magic());
    lemma_subrange_left(header, rest, 64, 72);
    lemma_subrange_left(header, rest, 72, 80);
    assert(header.subrange(64, 72) =~= le_u64(0));
    assert(header.subrange(72, 80) =~= le_u64(0));
    let d0 = header + level_index(levels, n);
    assert(file =~= d0 + (dfd_rgba16f() + level_data(levels, n)));
    lemma_subrange_right(d0, dfd_rgba16f() + level_data(levels, n), dfd_offset(n), dfd_offset(n) + 92);
    lemma_subrange_left(dfd_rgba16f(), level_data(levels, n), 0, 92);
    assert(dfd_rgba16f().subrange(0, 92) =~= dfd_rgba16f());
    assert(file.subrange(dfd_offset(n), dfd_offset(n) + 4) =~= dfd_rgba16f().subrange(0, 4));
    lemma_dfd_rgba16f_size();
}

/// The level index a reader finds: entry `i` holds level `i`'s byte offset,
/// a multiple of 8, and its byte length twice (stored and uncompressed); at
/// that offset lie the six faces of level `i`, one after the other.
pub proof fn lemma_ktx2_level_reads_back(face_size: u32, levels: Seq<Seq<Seq<u8>>>, i: int)
    requires
        ktx2_layout_fits(levels),
        0 <= i < levels.len(),
    ensures
        ({
            let file = ktx2_cubemap_file(face_size, levels);
            let offset: int = read_le_u64(file, 80 + 24 * i);
            let length: int = read_le_u64(file, 80 + 24 * i + 8);
            &&& offset == level_offset(levels, i)
            &&& length == level_len(levels[i])
            &&& read_le_u64(file, 80 + 24 * i + 16) == length
            &&& offset % 8 == 0
            &&& offset + length <= file.len()
            &&& file.subrange(offset, offset + length) == faces_concat(levels[i])
        }),
{
    lemma_index_entry_reads_back(face_size, levels, i);
    lemma_level_data_reads_back(face_size, levels, i);
}

/// Entry `i` of the level index holds level `i`'s offset and length.
proof fn lemma_index_entry_reads_back(face_size: u32, levels: Seq<Seq<Seq<u8>>>, i: int)
    requires
        ktx2_layout_fits(levels),
        0 <= i < levels.len(),
    ensures
        ({
            let file = ktx2_cubemap_file(face_size, levels);
            &&& read_le_u64(file, 80 + 24 * i) == level_offset(levels, i)
            &&& read_le_u64(file, 80 + 24 * i + 8) == level_len(levels[i])
            &&& read_le_u64(file, 80 + 24 * i + 16) == level_len(levels[i])
        }),
{
    let file = ktx2_cubemap_file(face_size, levels);
    let n: int = levels.len() as int;
    lemma_file_parts(face_size, levels);
    lemma_level_offset_bounds(levels, i);
    lemma_prev_end_monotone(levels, i + 1, n);
    let off: int = level_offset(levels, i);
    let len: int = level_len(levels[i]);
    assert(off <= u64::MAX && len <= u64::MAX);
    let header = ktx2_header(face_size, n);
    let index = level_index(levels, n);
    let tail = dfd_rgba16f() + level_data(levels, n);
    assert(file =~= header + index + tail);
    lemma_level_index_at(levels, n, i);
    let entry = le_u64(off as u64) + le_u64(len as u64) + le_u64(len as u64);
    lemma_le_u64_roundtrip(off as u64);
    lemma_le_u64_roundtrip(len as u64);
    lemma_subrange_left(header + index, tail, 80 + 24 * i, 104 + 24 * i);
    lemma_subrange_right(header, index, 80 + 24 * i, 104 + 24 * i);
    assert(file.subrange(80 + 24 * i, 88 + 24 * i) =~= entry.subrange(0, 8));
    assert(file.subrange(88 + 24 * i, 96 + 24 * i) =~= entry.subrange(8, 16));
    assert(file.subrange(96 + 24 * i, 104 + 24 * i) =~= entry.subrange(16, 24));
    assert(entry.subrange(0, 8) =~= le_u64(off as u64));
    assert(entry.subrange(8, 16) =~= le_u64(len as u64));
    assert(entry.subrange(16, 24) =~= le_u64(len as u64));
}

/// The faces of level `i` lie at the level's offset, a multiple of 8.
proof fn lemma_level_data_reads_back(face_size: u32, levels: Seq<Seq<Seq<u8>>>, i: int)
    requires
        ktx2_layout_fits(levels),
        0 <= i < levels.len(),
    ensures
        ({
            let file = ktx2_cubemap_file(face_size, levels);
            let offset: int = level_offset(levels, i);
            let length: int = level_len(levels[i]);
            &&& offset % 8 == 0
            &&& offset + length <= file.len()
            &&& file.subrange(offset, offset + length) == faces_concat(levels[i])
        }),
{
    let file = ktx2_cubemap_file(face_size, levels);
    let n: int = levels.len() as int;
    lemma_file_parts(face_size, levels);
    lemma_level_offset_bounds(levels, i);
    lemma_prev_end_monotone(levels, i + 1, n);
    let off: int = level_offset(levels, i);
    let len: int = level_len(levels[i]);
    let front = ktx2_header(face_size, n) + level_index(levels, n) + dfd_rgba16f();
    assert(file =~= front + level_data(levels, n));
    lemma_level_data_at(levels, n, i);
    lemma_level_data_len(levels, n);
    lemma_level_data_len(levels, i + 1);
    lemma_subrange_right(front, level_data(levels, n), off, off + len);
}

/// When every face has `len` bytes, face `f` sits at byte `f * len` of the
/// level.
proof fn lemma_faces_concat_at(faces: Seq<Seq<u8>>, len: int, f: int)
    requires
        0 <= f < faces.len(),
        len >= 0,
        forall|g: int| 0 <= g < faces.len() ==> (#[trigger] faces[g]).len() == len,
    ensures
        faces_concat(faces).len() == faces.len() * len,
        faces_concat(faces).subrange(f * len, f * len + len) == faces[f],
    decreases faces.len(),
{
    let init = faces.drop_last();
    if init.len() > 0 && f < init.len() {
        lemma_faces_concat_at(init, len, f);
    } else if init.len() > 0 {
        lemma_faces_concat_at(init, len, 0);
    }
    if init.len() == 0 {
        assert(faces_concat(init) =~= Seq::<u8>::empty());
    }
    assert(faces_concat(init).len() == init.len() * len);
    assert((faces.len() - 1) * len + len == faces.len() * len) by (nonlinear_arith);
    if f == faces.len() - 1 {
        lemma_subrange_right(faces_concat(init), faces.last(), f * len, f * len + len);
        assert(faces.last().subrange(0, len) =~= faces.last());
    } else {
        assert(f * len + len <= init.len() * len) by (nonlinear_arith)
            requires
                0 <= f < init.len(),
                len >= 0,
        ;
        lemma_subrange_left(faces_concat(init), faces.last(), f * len, f * len + len);
    }
}

/// When the faces of level `i` are `side` texels on a side (8 bytes per
/// RGBA16F texel), the level is `6 * side * side * 8` bytes long and face
/// `f` (+X, -X, +Y, -Y, +Z, -Z) lies at the level's offset plus
/// `f * side * side * 8`.
pub proof fn lemma_ktx2_face_reads_back(
    face_size: u32,
    levels: Seq<Seq<Seq<u8>>>,
    i: int,
    side: int,
    f: int,
)
    requires
        ktx2_layout_fits(levels),
        0 <= i < levels.len(),
        levels[i].len() == 6,
        side >= 0,
        forall|g: int| 0 <= g < 6 ==> (#[trigger] levels[i][g]).len() == side * side * 8,
        0 <= f < 6,
    ensures
        ({
            let file = ktx2_cubemap_file(face_size, levels);
            let offset: int = read_le_u64(file, 80 + 24 * i);
            let face_len: int = side * side * 8;
            &&& read_le_u64(file, 80 + 24 * i + 8) == 6 * face_len
            &&& file.subrange(offset + f * face_len, offset + f * face_len + face_len)
                == levels[i][f]
        }),
{
    let file = ktx2_cubemap_file(face_size, levels);
    let face_len: int = side * side * 8;
    assert(face_len >= 0) by (nonlinear_arith)
        requires
            side >= 0,
            face_len == side * side * 8,
    ;
    lemma_ktx2_level_reads_back(face_size, levels, i);
    lemma_faces_concat_at(levels[i], face_len, f);
    let offset: int = level_offset(levels, i);
    let level = file.subrange(offset, offset + 6 * face_len);
    assert(level == faces_concat(levels[i]));
    assert(f * face_len + face_len <= 6 * face_len) by (nonlinear_arith)
        requires
            0 <= f < 6,
            face_len >= 0,
    ;
    assert(0 <= f * face_len) by (nonlinear_arith)
        requires
            0 <= f,
            face_len >= 0,
    ;
    assert(file.subrange(offset + f * face_len, offset + f * face_len + face_len) =~= level.subrange(
        f * face_len,
        f * face_len + face_len,
    ));
}

/// What a reader collects by appending, for each of the first `k` entries of
/// the level index, the bytes that the entry points at.
pub open spec fn indexed_level_bytes(file: Seq<u8>, k: int) -> Seq<u8>
    decreases k,
{
    if k <= 0 {
        Seq::empty()
    } else {
        let at: int = HEADER_SIZE + LEVEL_INDEX_ENTRY_SIZE * (k - 1);
        let offset: int = read_le_u64(file, at);
        indexed_level_bytes(file, k - 1) + file.subrange(offset, offset + read_le_u64(file, at + 8))
    }
}

/// The first `k` levels one after the other, each with its six faces in order.
pub open spec fn mip_major_bytes(levels: Seq<Seq<Seq<u8>>>, k: int) -> Seq<u8>
    decreases k,
{
    if k <= 0 {
        Seq::empty()
    } else {
        mip_major_bytes(levels, k - 1) + faces_concat(levels[k - 1])
    }
}

/// Reading the level count from the header and appending the data of every
/// indexed level gives all mip levels in mip-major order: level by level,
/// and within a level the six faces in order.
pub proof fn lemma_ktx2_reader_sees_mip_major_image(face_size: u32, levels: Seq<Seq<Seq<u8>>>)
    requires
        ktx2_layout_fits(levels),
    ensures
        ({
            let file = ktx2_cubemap_file(face_size, levels);
            indexed_level_bytes(file, read_le_u32(file, 40)) == mip_major_bytes(
                levels,
                levels.len() as int,
            )
        }),
{
    let file = ktx2_cubemap_file(face_size, levels);
    lemma_ktx2_header_reads_back(face_size, levels);
    lemma_indexed_level_bytes(face_size, levels, levels.len() as int);
}

/// The first `k` indexed levels are the first `k` mip levels.
proof fn lemma_indexed_level_bytes(face_size: u32, levels: Seq<Seq<Seq<u8>>>, k: int)
    requires
        ktx2_layout_fits(levels),
        0 <= k <= levels.len(),
    ensures
        indexed_level_bytes(ktx2_cubemap_file(face_size, levels), k) == mip_major_bytes(levels, k),
    decreases k,
{
    if k > 0 {
        lemma_indexed_level_bytes(face_size, levels, k - 1);
        lemma_ktx2_level_reads_back(face_size, levels, k - 1);
    }
}

} // verus!
