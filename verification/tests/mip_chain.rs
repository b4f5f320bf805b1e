use sky_baker::mip::{downsample_face_f16, generate_mip_chain_f16};

fn sum4(a: u16, b: u16, c: u16, d: u16) -> u16 {
    a + b + c + d
}

fn f16_mean(a: u16, b: u16, c: u16, d: u16) -> u16 {
    let get = |bits: u16| half::f16::from_bits(bits).to_f32();
    half::f16::from_f32((get(a) + get(b) + get(c) + get(d)) * 0.25).to_bits()
}

/// A face whose channel c of texel (x, y) is 100 * y + 10 * x + c.
fn coded_face(size: usize) -> Vec<u16> {
    let mut v = Vec::new();
    for y in 0..size {
        for x in 0..size {
            for c in 0..4 {
                v.push((100 * y + 10 * x + c) as u16);
            }
        }
    }
    v
}

#[test]
fn downsample_averages_two_by_two_blocks() {
    let src = coded_face(4);
    let dst = downsample_face_f16(&src, 4, &sum4);
    assert_eq!(dst.len(), 2 * 2 * 4);
    // texel (1, 0) takes source texels (2,0), (3,0), (2,1), (3,1)
    let expect = |x: u16, y: u16, c: u16| {
        let at = |sx: u16, sy: u16| 100 * sy + 10 * sx + c;
        at(2 * x, 2 * y) + at(2 * x + 1, 2 * y) + at(2 * x, 2 * y + 1) + at(2 * x + 1, 2 * y + 1)
    };
    for y in 0..2u16 {
        for x in 0..2u16 {
            for c in 0..4u16 {
                assert_eq!(dst[((y * 2 + x) * 4 + c) as usize], expect(x, y, c));
            }
        }
    }
}

#[test]
fn downsample_clamps_at_the_edge() {
    // A 3x3 face goes to 1x1 from texels (0,0), (1,0), (0,1), (1,1).
    let src = coded_face(3);
    let dst = downsample_face_f16(&src, 3, &sum4);
    assert_eq!(dst.len(), 4);
    assert_eq!(dst[0], 0 + 10 + 100 + 110);
    // A 1x1 face stays 1x1: all four inputs are the one texel.
    let one = vec![1u16, 2, 3, 4];
    assert_eq!(downsample_face_f16(&one, 1, &sum4), vec![4, 8, 12, 16]);
}

#[test]
fn downsample_with_half_floats() {
    let one = half::f16::from_f32(1.0).to_bits();
    let two = half::f16::from_f32(2.0).to_bits();
    let three = half::f16::from_f32(3.0).to_bits();
    let four = half::f16::from_f32(4.0).to_bits();
    let src = vec![one, one, one, one, two, two, two, two, three, three, three, three, four, four, four, four];
    let dst = downsample_face_f16(&src, 2, &f16_mean);
    assert_eq!(dst, vec![half::f16::from_f32(2.5).to_bits(); 4]);
}

#[test]
fn chain_goes_down_to_one_texel() {
    let base: [Vec<u16>; 6] = std::array::from_fn(|_| coded_face(8));
    let chain = generate_mip_chain_f16(base.clone(), 8, &sum4);
    assert_eq!(chain.len(), 4);
    assert_eq!(chain[0], base);
    for (k, side) in [(1usize, 4usize), (2, 2), (3, 1)] {
        for f in 0..6 {
            assert_eq!(chain[k][f].len(), side * side * 4);
            assert_eq!(chain[k][f], downsample_face_f16(&chain[k - 1][f], (side * 2) as u32, &sum4));
        }
    }
}

#[test]
fn chain_level_counts() {
    let faces = |n: usize| -> [Vec<u16>; 6] { std::array::from_fn(|_| vec![0u16; n * n * 4]) };
    assert_eq!(generate_mip_chain_f16(faces(1), 1, &sum4).len(), 1);
    assert_eq!(generate_mip_chain_f16(faces(0), 0, &sum4).len(), 1);
    assert_eq!(generate_mip_chain_f16(faces(2), 2, &sum4).len(), 2);
    let five = generate_mip_chain_f16(faces(5), 5, &sum4);
    assert_eq!(five.len(), 3);
    assert_eq!(five[1][0].len(), 2 * 2 * 4);
    assert_eq!(five[2][0].len(), 4);
    assert_eq!(generate_mip_chain_f16(faces(16), 16, &sum4).len(), 5);
}

#[test]
fn odd_face_last_row_and_column_do_not_reach_the_next_level() {
    let src = coded_face(5);
    let mut changed = src.clone();
    for y in 0..5 {
        for c in 0..4 {
            changed[(y * 5 + 4) * 4 + c] = 9999;
            changed[(4 * 5 + y) * 4 + c] = 9999;
        }
    }
    assert_eq!(
        downsample_face_f16(&src, 5, &sum4),
        downsample_face_f16(&changed, 5, &sum4)
    );
}

#[test]
fn faces_are_filtered_independently() {
    let a: [Vec<u16>; 6] = std::array::from_fn(|f| coded_face(4).iter().map(|v| v + f as u16).collect());
    let mut b = a.clone();
    b[3] = vec![7u16; 4 * 4 * 4];
    let chain_a = generate_mip_chain_f16(a, 4, &sum4);
    let chain_b = generate_mip_chain_f16(b, 4, &sum4);
    assert_eq!(chain_a.len(), chain_b.len());
    for k in 0..chain_a.len() {
        for f in 0..6 {
            if f != 3 {
                assert_eq!(chain_a[k][f], chain_b[k][f]);
            }
        }
    }
    assert_ne!(chain_a[2][3], chain_b[2][3]);
}
