//! Unpacking the cubemap that was copied from the GPU into a buffer whose
//! rows are padded to the copy alignment.
//!
//! The buffer holds the six faces one after the other, each `face_size` rows
//! of `padded` bytes; only the first `face_size * 8` bytes of a row are texels
//! (RGBA16F, 8 bytes each).

use crate::le_bytes::push_bytes;
use crate::mip::faces_view;
use crate::texel_bytes::{
    bytes_view, faces_from_bytes, faces_in_byte_order, lemma_native_bytes_read_back, native_little,
    native_u16_value,
};
use vstd::prelude::*;
use vstd::slice::slice_subrange;

verus! {

/// Bytes in one RGBA16F texel.
pub const RGBA16F_TEXEL_BYTES: u32 = 8;

/// `v` rounded up to a multiple of `align`.
pub open spec fn round_up(v: int, align: int) -> int {
    (v + align - 1) / align * align
}

/// Bytes per row in the readback buffer: a face row of RGBA16F texels rounded
/// up to a multiple of `align_bytes` (the GPU's copy row alignment).
pub fn padded_bytes_per_row(face_size: u32, align_bytes: u32) -> (padded: u32)
    requires
        align_bytes >= 1,
        face_size * RGBA16F_TEXEL_BYTES + align_bytes <= u32::MAX,
    ensures
        padded == round_up(face_size * RGBA16F_TEXEL_BYTES, align_bytes as int),
        padded % align_bytes == 0,
        face_size * RGBA16F_TEXEL_BYTES <= padded < face_size * RGBA16F_TEXEL_BYTES + align_bytes,
{
    let bytes_per_texel: u32 = RGBA16F_TEXEL_BYTES;
    let unpadded_bytes_per_row: u32 = face_size * bytes_per_texel;
    let sum: u32 = unpadded_bytes_per_row + align_bytes - 1;
    let q: u32 = sum / align_bytes;
    assert(q * align_bytes <= sum && sum - align_bytes < q * align_bytes && (q * align_bytes)
        % (align_bytes as int) == 0) by (nonlinear_arith)
        requires
            align_bytes >= 1,
            q == sum / align_bytes,
    ;
    q * align_bytes
}

/// Size in bytes of the readback buffer: six faces of `face_size` padded rows.
pub fn readback_buffer_size(face_size: u32, padded_bytes_per_row: u32) -> (size: u64)
    requires
        face_size * RGBA16F_TEXEL_BYTES <= u32::MAX,
    ensures
        size == padded_bytes_per_row * face_size * 6,
{
    assert(padded_bytes_per_row * face_size * 6 <= u64::MAX) by (nonlinear_arith)
        requires
            padded_bytes_per_row <= u32::MAX,
            face_size * 8 <= u32::MAX,
    ;
    (padded_bytes_per_row as u64) * (face_size as u64) * 6
}

/// Where row `row` of face `face` starts in the readback buffer.
pub open spec fn row_start(face_size: int, padded: int, face: int, row: int) -> int {
    padded * face_size * face + padded * row
}

/// The texel bytes of the first `rows` rows of face `face`, padding dropped.
pub open spec fn face_rows(data: Seq<u8>, face_size: int, padded: int, face: int, rows: int) -> Seq<
    u8,
>
    decreases rows,
{
    if rows <= 0 {
        Seq::empty()
    } else {
        face_rows(data, face_size, padded, face, rows - 1) + data.subrange(
            row_start(face_size, padded, face, rows - 1),
            row_start(face_size, padded, face, rows - 1) + face_size * RGBA16F_TEXEL_BYTES,
        )
    }
}

/// The texel bytes of face `face`, padding dropped.
pub open spec fn unpadded_face(data: Seq<u8>, face_size: int, padded: int, face: int) -> Seq<u8> {
    face_rows(data, face_size, padded, face, face_size)
}

/// Every row of every face lies inside the buffer.
pub open spec fn readback_rows_in_bounds(data_len: int, face_size: int, padded: int) -> bool {
    face_size >= 1 ==> row_start(face_size, padded, 5, face_size - 1) + face_size
        * RGBA16F_TEXEL_BYTES <= data_len
}

/// The rows of the first `rows` rows take `face_size * 8` bytes each.
proof fn lemma_face_rows_len(data: Seq<u8>, face_size: int, padded: int, face: int, rows: int)
    requires
        0 <= rows <= face_size,
        0 <= face < 6,
        padded >= 0,
        readback_rows_in_bounds(data.len() as int, face_size, padded),
    ensures
        face_rows(data, face_size, padded, face, rows).len() == rows * face_size
            * RGBA16F_TEXEL_BYTES,
    decreases rows,
{
    if rows > 0 {
        lemma_face_rows_len(data, face_size, padded, face, rows - 1);
        lemma_row_in_bounds(data.len() as int, face_size, padded, face, rows - 1);
        let start: int = row_start(face_size, padded, face, rows - 1);
        assert(data.subrange(start, start + face_size * 8).len() == face_size * 8);
        assert(face_rows(data, face_size, padded, face, rows) == face_rows(
            data,
            face_size,
            padded,
            face,
            rows - 1,
        ) + data.subrange(start, start + face_size * 8));
        assert((rows - 1) * face_size * 8 + face_size * 8 == rows * face_size * 8) by (
        nonlinear_arith);
    } else {
        assert(rows * face_size * 8 == 0) by (nonlinear_arith)
            requires
                rows == 0,
        ;
    }
    assert(RGBA16F_TEXEL_BYTES == 8);
}

/// A row of a face lies inside the buffer when the last row of the last face does.
proof fn lemma_row_in_bounds(data_len: int, face_size: int, padded: int, face: int, row: int)
    requires
        0 <= face < 6,
        0 <= row < face_size,
        padded >= 0,
        readback_rows_in_bounds(data_len, face_size, padded),
    ensures
        0 <= row_start(face_size, padded, face, row),
        row_start(face_size, padded, face, row) + face_size * RGBA16F_TEXEL_BYTES <= data_len,
{
    assert(0 <= padded * face_size * face + padded * row <= padded * face_size * 5 + padded * (
    face_size - 1)) by (nonlinear_arith)
        requires
            0 <= face < 6,
            0 <= row < face_size,
            padded >= 0,
    ;
}

/// The texel bytes of one face of the readback buffer.
pub fn unpad_face(data: &[u8], face_size: u32, padded_bytes_per_row: u32, face: usize) -> (bytes:
    Vec<u8>)
    requires
        face < 6,
        face_size * RGBA16F_TEXEL_BYTES <= u32::MAX,
        readback_rows_in_bounds(data@.len() as int, face_size as int, padded_bytes_per_row as int),
    ensures
        bytes@ == unpadded_face(data@, face_size as int, padded_bytes_per_row as int, face as int),
        bytes@.len() == face_size * face_size * RGBA16F_TEXEL_BYTES,
{
    let unpadded_bytes_per_row: u32 = face_size * RGBA16F_TEXEL_BYTES;
    let ghost fs = face_size as int;
    let ghost padded = padded_bytes_per_row as int;
    assert(padded * fs <= u64::MAX && padded * fs * face <= u64::MAX) by (nonlinear_arith)
        requires
            0 <= padded <= u32::MAX,
            fs * 8 <= u32::MAX,
            fs >= 0,
            0 <= face < 6,
    ;
    let face_offset: u64 = (padded_bytes_per_row as u64) * (face_size as u64) * (face as u64);
    assert(face_offset == padded * fs * face) by (nonlinear_arith)
        requires
            face_offset == (padded_bytes_per_row as u64) * (face_size as u64) * (face as u64),
            padded == padded_bytes_per_row,
            fs == face_size,
    ;
    let data_len: usize = data.len();
    let mut bytes: Vec<u8> = Vec::new();
    let mut row: u32 = 0;
    while row < face_size
        invariant
            face < 6,
            row <= face_size,
            fs == face_size,
            padded == padded_bytes_per_row,
            unpadded_bytes_per_row == fs * 8,
            face_offset == padded * fs * face,
            fs * 8 <= u32::MAX,
            data_len == data@.len(),
            readback_rows_in_bounds(data@.len() as int, fs, padded),
            bytes@ == face_rows(data@, fs, padded, face as int, row as int),
        decreases face_size - row,
    {
        proof {
            lemma_row_in_bounds(data@.len() as int, fs, padded, face as int, row as int);
            assert(0 <= padded * row <= padded * fs * face + padded * row) by (nonlinear_arith)
                requires
                    padded >= 0,
                    row >= 0,
                    fs >= 0,
                    face >= 0,
            ;
        }
        let row_start: usize = (face_offset + (padded_bytes_per_row as u64) * (row as u64)) as usize;
        let row_bytes = slice_subrange(data, row_start, row_start + unpadded_bytes_per_row as usize);
        push_bytes(&mut bytes, row_bytes);
        row = row + 1;
    }
    proof {
        lemma_face_rows_len(data@, fs, padded, face as int, fs);
    }
    bytes
}

/// The texel bytes of the six faces of the readback buffer, rows unpadded.
pub fn unpad_cubemap_rows(data: &[u8], face_size: u32, padded_bytes_per_row: u32) -> (faces: [Vec<
    u8,
>; 6])
    requires
        face_size * RGBA16F_TEXEL_BYTES <= u32::MAX,
        readback_rows_in_bounds(data@.len() as int, face_size as int, padded_bytes_per_row as int),
    ensures
        forall|f: int|
            0 <= f < 6 ==> (#[trigger] faces@[f])@ == unpadded_face(
                data@,
                face_size as int,
                padded_bytes_per_row as int,
                f,
            ),
        forall|f: int|
            0 <= f < 6 ==> (#[trigger] faces@[f])@.len() == face_size * face_size
                * RGBA16F_TEXEL_BYTES,
{
    [
        unpad_face(data, face_size, padded_bytes_per_row, 0),
        unpad_face(data, face_size, padded_bytes_per_row, 1),
        unpad_face(data, face_size, padded_bytes_per_row, 2),
        unpad_face(data, face_size, padded_bytes_per_row, 3),
        unpad_face(data, face_size, padded_bytes_per_row, 4),
        unpad_face(data, face_size, padded_bytes_per_row, 5),
    ]
}

/// The texel bytes of the six faces of the readback buffer.
pub open spec fn unpadded_faces(data: Seq<u8>, face_size: int, padded: int) -> Seq<Seq<u8>> {
    Seq::new(6, |f: int| unpadded_face(data, face_size, padded, f))
}

/// The six faces copied back from the GPU, as RGBA16F half-float bit
/// patterns: `face_size * face_size * 4` values per face, the padding at the
/// end of each buffer row dropped, read in the hardware's byte order.
pub fn cubemap_faces_from_readback(data: &[u8], face_size: u32, padded_bytes_per_row: u32) -> (faces:
    [Vec<u16>; 6])
    requires
        face_size * RGBA16F_TEXEL_BYTES <= u32::MAX,
        readback_rows_in_bounds(data@.len() as int, face_size as int, padded_bytes_per_row as int),
    ensures
        forall|f: int|
            0 <= f < 6 ==> (#[trigger] faces_view(faces)[f]).len() == face_size * face_size * 4,
        faces_in_byte_order(
            faces_view(faces),
            unpadded_faces(data@, face_size as int, padded_bytes_per_row as int),
            native_little(),
        ),
{
    let bytes = unpad_cubemap_rows(data, face_size, padded_bytes_per_row);
    proof {
        assert forall|f: int| 0 <= f < 6 implies (#[trigger] bytes@[f])@.len() % 2 == 0 by {
            assert(face_size * face_size * 8 == (face_size * face_size * 4) * 2) by (nonlinear_arith);
        }
        assert(bytes_view(bytes) =~= unpadded_faces(
            data@,
            face_size as int,
            padded_bytes_per_row as int,
        ));
    }
    let faces = faces_from_bytes(&bytes);
    proof {
        assert forall|f: int| 0 <= f < 6 implies (#[trigger] faces_view(faces)[f]).len()
            == face_size * face_size * 4 by {
            assert(face_size * face_size * 8 == (face_size * face_size * 4) * 2) by (nonlinear_arith);
        }
    }
    faces
}

/// Whether a readback buffer of `data_len` bytes holds every row of every
/// face, so that `cubemap_faces_from_readback` can be called on it.
pub fn readback_rows_fit(data_len: usize, face_size: u32, padded_bytes_per_row: u32) -> (fits: bool)
    requires
        face_size * RGBA16F_TEXEL_BYTES <= u32::MAX,
    ensures
        fits == readback_rows_in_bounds(data_len as int, face_size as int, padded_bytes_per_row as int),
{
    if face_size == 0 {
        return true;
    }
    let ghost fs = face_size as int;
    let ghost padded = padded_bytes_per_row as int;
    assert(padded * fs * 5 + padded * (fs - 1) + fs * 8 <= u64::MAX && padded * fs <= u64::MAX
        && padded * fs * 5 + padded * (fs - 1) <= u64::MAX && padded * (fs - 1) <= u64::MAX)
        by (nonlinear_arith)
        requires
            0 <= padded <= u32::MAX,
            1 <= fs,
            fs * 8 <= u32::MAX,
    ;
    let last_row_end: u64 = (padded_bytes_per_row as u64) * (face_size as u64) * 5
        + (padded_bytes_per_row as u64) * ((face_size - 1) as u64) + (face_size as u64) * 8;
    last_row_end <= data_len as u64
}

/// Byte `j` of row `r` of a face, padding dropped, is byte `j` of that row in
/// the buffer.
proof fn lemma_face_rows_at(
    data: Seq<u8>,
    face_size: int,
    padded: int,
    face: int,
    rows: int,
    r: int,
    j: int,
)
    requires
        0 <= rows <= face_size,
        0 <= face < 6,
        padded >= 0,
        readback_rows_in_bounds(data.len() as int, face_size, padded),
        0 <= r < rows,
        0 <= j < face_size * RGBA16F_TEXEL_BYTES,
    ensures
        0 <= r * face_size * 8 + j < face_rows(data, face_size, padded, face, rows).len(),
        face_rows(data, face_size, padded, face, rows)[r * face_size * 8 + j] == data[row_start(
            face_size,
            padded,
            face,
            r,
        ) + j],
    decreases rows,
{
    lemma_face_rows_len(data, face_size, padded, face, rows - 1);
    lemma_face_rows_len(data, face_size, padded, face, rows);
    lemma_row_in_bounds(data.len() as int, face_size, padded, face, rows - 1);
    assert(0 <= r * face_size * 8 + j < rows * face_size * 8) by (nonlinear_arith)
        requires
            0 <= r < rows,
            0 <= j < face_size * 8,
    ;
    if r < rows - 1 {
        lemma_face_rows_at(data, face_size, padded, face, rows - 1, r, j);
    } else {
        assert(r * face_size * 8 == (rows - 1) * face_size * 8);
    }
}

/// What the readback gives: channel value `k` of row `y` of face `f` is the
/// number that bytes `2k` and `2k + 1` of that row of the buffer stand for on
/// this hardware; the row starts `f * face_size + y` padded rows into the
/// buffer, and its padding never reaches a face.
pub proof fn lemma_readback_value(
    data: Seq<u8>,
    face_size: int,
    padded: int,
    faces: Seq<Seq<u16>>,
    f: int,
    y: int,
    k: int,
)
    requires
        faces_in_byte_order(faces, unpadded_faces(data, face_size, padded), native_little()),
        readback_rows_in_bounds(data.len() as int, face_size, padded),
        padded >= 0,
        0 <= f < 6,
        0 <= y < face_size,
        0 <= k < 4 * face_size,
    ensures
        faces[f].len() == 4 * face_size * face_size,
        faces[f][y * 4 * face_size + k] == native_u16_value(
            data[f * face_size * padded + y * padded + 2 * k],
            data[f * face_size * padded + y * padded + 2 * k + 1],
        ),
{
    let bytes = unpadded_faces(data, face_size, padded)[f];
    assert(bytes == crate::texel_bytes::u16_bytes(faces[f], native_little()));
    let i: int = y * 4 * face_size + k;
    lemma_unpadded_byte(data, face_size, padded, f, y, 2 * k);
    lemma_unpadded_byte(data, face_size, padded, f, y, 2 * k + 1);
    assert(2 * i == y * face_size * 8 + 2 * k) by (nonlinear_arith)
        requires
            i == y * 4 * face_size + k,
    ;
    assert(0 <= i < 4 * face_size * face_size) by (nonlinear_arith)
        requires
            i == y * 4 * face_size + k,
            0 <= y < face_size,
            0 <= k < 4 * face_size,
    ;
    assert(bytes.len() == 2 * (4 * face_size * face_size)) by (nonlinear_arith)
        requires
            bytes.len() == face_size * face_size * 8,
    ;
    lemma_native_value_at(faces[f], bytes, i);
}

/// Byte `j` of row `y` of face `f`, padding dropped, is the byte `j` after the
/// start of that row in the buffer.
proof fn lemma_unpadded_byte(data: Seq<u8>, face_size: int, padded: int, f: int, y: int, j: int)
    requires
        readback_rows_in_bounds(data.len() as int, face_size, padded),
        padded >= 0,
        0 <= f < 6,
        0 <= y < face_size,
        0 <= j < face_size * 8,
    ensures
        unpadded_faces(data, face_size, padded)[f].len() == face_size * face_size * 8,
        unpadded_faces(data, face_size, padded)[f][y * face_size * 8 + j] == data[f * face_size
            * padded + y * padded + j],
{
    assert(unpadded_faces(data, face_size, padded)[f] == face_rows(data, face_size, padded, f, face_size));
    lemma_face_rows_len(data, face_size, padded, f, face_size);
    lemma_face_rows_at(data, face_size, padded, f, face_size, y, j);
    let start: int = row_start(face_size, padded, f, y);
    assert(start == f * face_size * padded + y * padded) by (nonlinear_arith)
        requires
            start == padded * face_size * f + padded * y,
    ;
}

/// Value `i` is what its two bytes stand for on this hardware.
proof fn lemma_native_value_at(ws: Seq<u16>, bytes: Seq<u8>, i: int)
    requires
        bytes == crate::texel_bytes::u16_bytes(ws, native_little()),
        0 <= i < ws.len(),
    ensures
        ws.len() * 2 == bytes.len(),
        ws[i] == native_u16_value(bytes[2 * i], bytes[2 * i + 1]),
{
    lemma_native_bytes_read_back(ws, bytes);
}

} // verus!
