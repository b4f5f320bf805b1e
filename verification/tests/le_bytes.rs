use sky_baker::le_bytes::{push_bytes, push_u32_le, push_u64_le, push_words_le};

#[test]
fn pushes_little_endian_words() {
    let mut out = vec![9u8];
    push_u32_le(&mut out, 0x1122_3344);
    assert_eq!(out, vec![9, 0x44, 0x33, 0x22, 0x11]);
    push_u64_le(&mut out, 0x0102_0304_0506_0708);
    assert_eq!(&out[5..], &[8, 7, 6, 5, 4, 3, 2, 1]);
    let mut words = Vec::new();
    push_words_le(&mut words, &[1, 0xFFFF_FFFF]);
    assert_eq!(words, vec![1, 0, 0, 0, 0xFF, 0xFF, 0xFF, 0xFF]);
    push_bytes(&mut words, &[5, 6]);
    assert_eq!(words.len(), 10);
    assert_eq!(&words[8..], &[5, 6]);
}
