use sky_baker::dfd::build_dfd_rgba16f;
use sky_baker::ktx2::{encode_ktx2_cubemap_rgba16f, ktx2_level_layout, KTX2_MAGIC};

fn u32_at(b: &[u8], at: usize) -> u32 {
    u32::from_le_bytes([b[at], b[at + 1], b[at + 2], b[at + 3]])
}

fn u64_at(b: &[u8], at: usize) -> u64 {
    let mut a = [0u8; 8];
    a.copy_from_slice(&b[at..at + 8]);
    u64::from_le_bytes(a)
}

fn level(face_len: usize, tag: u8) -> [Vec<u8>; 6] {
    std::array::from_fn(|f| (0..face_len).map(|k| tag.wrapping_add((f * 16 + k) as u8)).collect())
}

#[test]
fn dfd_is_the_rgba16f_basic_descriptor() {
    let dfd = build_dfd_rgba16f();
    assert_eq!(dfd.len(), 92);
    assert_eq!(u32_at(&dfd, 0), 92); // dfdTotalSize
    assert_eq!(u32_at(&dfd, 4), 0); // vendorId 0, descriptorType 0
    assert_eq!(u32_at(&dfd, 8), 0x0058_0002); // version 2, block size 88
    assert_eq!(u32_at(&dfd, 12), 0x0001_0101); // RGBSDA, BT709, linear
    assert_eq!(u32_at(&dfd, 16), 0); // 1x1x1x1 texel block
    assert_eq!(u32_at(&dfd, 20), 8); // bytesPlane0
    assert_eq!(u32_at(&dfd, 24), 0);
    let expected_samples: [(u32, u32); 4] =
        [(0xC00F_0000, 0), (0xC10F_0010, 1), (0xC20F_0020, 2), (0xCF0F_0030, 3)];
    for (word0, i) in expected_samples {
        let at = 28 + 16 * i as usize;
        assert_eq!(u32_at(&dfd, at), word0);
        assert_eq!(u32_at(&dfd, at + 4), 0);
        assert_eq!(u32_at(&dfd, at + 8), (-1.0f32).to_bits());
        assert_eq!(u32_at(&dfd, at + 12), 1.0f32.to_bits());
    }
}

#[test]
fn single_level_file_layout() {
    let mips = vec![level(8, 1)];
    let file = encode_ktx2_cubemap_rgba16f(1, &mips);
    assert_eq!(file.len(), 248);
    assert_eq!(&file[0..12], &KTX2_MAGIC);
    assert_eq!(u32_at(&file, 12), 97); // vkFormat
    assert_eq!(u32_at(&file, 16), 2); // typeSize
    assert_eq!(u32_at(&file, 20), 1); // pixelWidth
    assert_eq!(u32_at(&file, 24), 1); // pixelHeight
    assert_eq!(u32_at(&file, 28), 0); // pixelDepth
    assert_eq!(u32_at(&file, 32), 0); // layerCount
    assert_eq!(u32_at(&file, 36), 6); // faceCount
    assert_eq!(u32_at(&file, 40), 1); // levelCount
    assert_eq!(u32_at(&file, 44), 0); // supercompressionScheme
    assert_eq!(u32_at(&file, 48), 104); // dfdByteOffset
    assert_eq!(u32_at(&file, 52), 92); // dfdByteLength
    assert_eq!(u32_at(&file, 56), 196); // kvdByteOffset
    assert_eq!(u32_at(&file, 60), 0); // kvdByteLength
    assert_eq!(u64_at(&file, 64), 0);
    assert_eq!(u64_at(&file, 72), 0);
    assert_eq!(u64_at(&file, 80), 200);
    assert_eq!(u64_at(&file, 88), 48);
    assert_eq!(u64_at(&file, 96), 48);
    assert_eq!(&file[104..196], build_dfd_rgba16f().as_slice());
    assert_eq!(&file[196..200], &[0, 0, 0, 0]);
    let expected: Vec<u8> = mips[0].iter().flatten().copied().collect();
    assert_eq!(&file[200..248], expected.as_slice());
}

#[test]
fn levels_are_padded_to_multiples_of_eight() {
    let mips = vec![level(3, 10), level(1, 100)];
    let file = encode_ktx2_cubemap_rgba16f(2, &mips);
    assert_eq!(u32_at(&file, 20), 2);
    assert_eq!(u32_at(&file, 40), 2);
    assert_eq!(u32_at(&file, 48), 128);
    assert_eq!(u32_at(&file, 56), 220);
    assert_eq!(u64_at(&file, 80), 224);
    assert_eq!(u64_at(&file, 88), 18);
    assert_eq!(u64_at(&file, 96), 18);
    assert_eq!(u64_at(&file, 104), 248);
    assert_eq!(u64_at(&file, 112), 6);
    assert_eq!(u64_at(&file, 120), 6);
    assert_eq!(file.len(), 254);
    assert_eq!(&file[242..248], &[0u8; 6]);
    let l0: Vec<u8> = mips[0].iter().flatten().copied().collect();
    let l1: Vec<u8> = mips[1].iter().flatten().copied().collect();
    assert_eq!(&file[224..242], l0.as_slice());
    assert_eq!(&file[248..254], l1.as_slice());
}

#[test]
fn every_recorded_level_is_found_at_its_offset() {
    let mips = vec![level(32, 0), level(8, 50), level(5, 90)];
    let file = encode_ktx2_cubemap_rgba16f(2, &mips);
    for (i, faces) in mips.iter().enumerate() {
        let offset = u64_at(&file, 80 + 24 * i) as usize;
        let length = u64_at(&file, 88 + 24 * i) as usize;
        assert_eq!(u64_at(&file, 96 + 24 * i) as usize, length);
        assert_eq!(offset % 8, 0);
        let expected: Vec<u8> = faces.iter().flatten().copied().collect();
        assert_eq!(&file[offset..offset + length], expected.as_slice());
    }
}

#[test]
fn layout_lists_offsets_and_lengths() {
    let mips = vec![level(3, 10), level(1, 100)];
    let layout = ktx2_level_layout(&mips).unwrap();
    assert_eq!(layout, vec![(224, 18), (248, 6)]);
    let none: Vec<[Vec<u8>; 6]> = Vec::new();
    assert_eq!(ktx2_level_layout(&none), Some(vec![]));
}
