use sky_baker::bake::encode_cubemap_mip_chain_ktx2;
use sky_baker::ktx2::encode_ktx2_cubemap_rgba16f;
use sky_baker::mip::generate_mip_chain_f16;
use sky_baker::texel_bytes::mip_chain_to_bytes;

fn f16_mean(a: u16, b: u16, c: u16, d: u16) -> u16 {
    let get = |bits: u16| half::f16::from_bits(bits).to_f32();
    half::f16::from_f32((get(a) + get(b) + get(c) + get(d)) * 0.25).to_bits()
}

fn u64_at(b: &[u8], at: usize) -> u64 {
    let mut a = [0u8; 8];
    a.copy_from_slice(&b[at..at + 8]);
    u64::from_le_bytes(a)
}

#[test]
fn baked_file_holds_the_whole_chain() {
    let base: [Vec<u16>; 6] = std::array::from_fn(|f| {
        (0..4 * 4 * 4).map(|i| half::f16::from_f32((i + f) as f32 * 0.5).to_bits()).collect()
    });
    let file = encode_cubemap_mip_chain_ktx2(base.clone(), 4, &f16_mean).unwrap();
    let chain = generate_mip_chain_f16(base, 4, &f16_mean);
    assert_eq!(chain.len(), 3);
    let mips = mip_chain_to_bytes(&chain);
    assert_eq!(file, encode_ktx2_cubemap_rgba16f(4, &mips));
    // Level lengths: 6 faces of side*side texels of 8 bytes.
    assert_eq!(u64_at(&file, 88), 6 * 4 * 4 * 8);
    assert_eq!(u64_at(&file, 112), 6 * 2 * 2 * 8);
    assert_eq!(u64_at(&file, 136), 6 * 8);
    // The last level's first face, read where the index says.
    let offset = u64_at(&file, 128) as usize;
    let expected: Vec<u8> = chain[2][0].iter().flat_map(|w| w.to_ne_bytes()).collect();
    assert_eq!(&file[offset..offset + 8], expected.as_slice());
}

#[test]
fn one_texel_faces_give_one_level() {
    let base: [Vec<u16>; 6] = std::array::from_fn(|f| vec![f as u16; 4]);
    let file = encode_cubemap_mip_chain_ktx2(base, 1, &f16_mean).unwrap();
    assert_eq!(u32::from_le_bytes([file[40], file[41], file[42], file[43]]), 1);
    assert_eq!(file.len(), 200 + 6 * 8);
}
