use sky_baker::dispatch::cubemap_dispatch_size;
use sky_baker::readback::{
    cubemap_faces_from_readback, padded_bytes_per_row, readback_buffer_size, readback_rows_fit,
    unpad_cubemap_rows,
};
use sky_baker::texel_bytes::{faces_from_bytes, mip_chain_to_bytes};

#[test]
fn rows_are_padded_to_the_copy_alignment() {
    assert_eq!(padded_bytes_per_row(512, 256), 4096);
    assert_eq!(padded_bytes_per_row(3, 256), 256);
    assert_eq!(padded_bytes_per_row(32, 256), 256);
    assert_eq!(padded_bytes_per_row(33, 256), 512);
    assert_eq!(padded_bytes_per_row(0, 256), 0);
    assert_eq!(readback_buffer_size(512, 4096), 4096 * 512 * 6);
}

/// A readback buffer for 2x2 faces with 24-byte rows: byte k of row r of
/// face f is 40 * f + 20 * r + k, and the padding is 0xEE.
fn padded_buffer() -> Vec<u8> {
    let mut data = Vec::new();
    for f in 0..6u8 {
        for r in 0..2u8 {
            for k in 0..16u8 {
                data.push(40 * f + 20 * r + k);
            }
            data.extend_from_slice(&[0xEE; 8]);
        }
    }
    data
}

#[test]
fn unpadding_drops_the_row_padding() {
    let data = padded_buffer();
    assert!(readback_rows_fit(data.len(), 2, 24));
    assert!(!readback_rows_fit(data.len() - 9, 2, 24));
    assert!(readback_rows_fit(data.len() - 8, 2, 24));
    let faces = unpad_cubemap_rows(&data, 2, 24);
    for f in 0..6u8 {
        let expected: Vec<u8> = (0..2u8)
            .flat_map(|r| (0..16u8).map(move |k| 40 * f + 20 * r + k))
            .collect();
        assert_eq!(faces[f as usize], expected);
    }
}

#[test]
fn readback_faces_hold_native_half_floats() {
    let data = padded_buffer();
    let faces = cubemap_faces_from_readback(&data, 2, 24);
    let bytes = unpad_cubemap_rows(&data, 2, 24);
    for f in 0..6 {
        assert_eq!(faces[f].len(), 2 * 2 * 4);
        for (i, w) in faces[f].iter().enumerate() {
            assert_eq!(*w, u16::from_ne_bytes([bytes[f][2 * i], bytes[f][2 * i + 1]]));
        }
    }
    // Turning them back into bytes gives the unpadded rows again.
    assert_eq!(mip_chain_to_bytes(&vec![faces.clone()]), vec![bytes.clone()]);
    assert_eq!(faces_from_bytes(&bytes), faces);
}

#[test]
fn mip_chain_bytes_are_native_order() {
    let chain = vec![
        std::array::from_fn::<Vec<u16>, 6, _>(|f| vec![0x1234 + f as u16, 0xABCD]),
        std::array::from_fn::<Vec<u16>, 6, _>(|_| vec![0x0102]),
    ];
    let mips = mip_chain_to_bytes(&chain);
    assert_eq!(mips.len(), 2);
    for k in 0..2 {
        for f in 0..6 {
            let expected: Vec<u8> = chain[k][f].iter().flat_map(|w| w.to_ne_bytes()).collect();
            assert_eq!(mips[k][f], expected);
        }
    }
}

#[test]
fn dispatch_covers_each_face() {
    assert_eq!(cubemap_dispatch_size(512), (64, 64, 6));
    assert_eq!(cubemap_dispatch_size(1), (1, 1, 6));
    assert_eq!(cubemap_dispatch_size(9), (2, 2, 6));
    assert_eq!(cubemap_dispatch_size(0), (0, 0, 6));
}

#[test]
fn mixed_face_lengths_convert_in_one_order() {
    let faces: [Vec<u8>; 6] = [
        vec![1, 2],
        vec![],
        vec![3, 4, 5, 6],
        vec![7, 8],
        vec![9, 10, 11, 12, 13, 14],
        vec![15, 16],
    ];
    let words = faces_from_bytes(&faces);
    for f in 0..6 {
        assert_eq!(words[f].len(), faces[f].len() / 2);
        for (i, w) in words[f].iter().enumerate() {
            assert_eq!(*w, u16::from_ne_bytes([faces[f][2 * i], faces[f][2 * i + 1]]));
        }
    }
}
