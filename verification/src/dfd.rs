//! The Khronos Data Format Descriptor of uncompressed RGBA16F texels.

use crate::le_bytes::{
    le_u32, le_words, lemma_le_words_append, lemma_le_words_len, lemma_le_words_single, lemma_read_le_u32_at,
    push_bytes, push_u32_le, push_words_le, read_le_u32,
};
use vstd::prelude::*;

verus! {

/// Size in bytes of the basic descriptor block.
pub const DFD_BLOCK_SIZE: u32 = 88;

/// Size in bytes of the whole descriptor: its total-size word and one block.
pub const DFD_TOTAL_SIZE: u32 = 92;

/// IEEE-754 single-precision bit pattern of -1.0.
pub const F32_MINUS_ONE_BITS: u32 = 0xBF80_0000;

/// IEEE-754 single-precision bit pattern of 1.0.
pub const F32_ONE_BITS: u32 = 0x3F80_0000;

/// KHR_DF channel ids of the RGBSDA color model.
pub const CHANNEL_RED: u8 = 0;
pub const CHANNEL_GREEN: u8 = 1;
pub const CHANNEL_BLUE: u8 = 2;
pub const CHANNEL_ALPHA: u8 = 15;

/// Sample qualifiers: FLOAT (0x80) and SIGNED (0x40).
pub const QUALIFIER_FLOAT_SIGNED: u8 = 0xC0;

/// The four words of a 16-bit signed-float sample: first word is
/// bitOffset | (bitLength - 1) << 16 | channelType << 24, then sample position 0,
/// sampleLower = -1.0 and sampleUpper = 1.0.
pub open spec fn dfd_sample_words(bit_offset: u32, channel_id: u8) -> Seq<u32> {
    seq![
        (bit_offset + 15 * 0x1_0000 + (channel_id + QUALIFIER_FLOAT_SIGNED) * 0x100_0000) as u32,
        0u32,
        F32_MINUS_ONE_BITS,
        F32_ONE_BITS,
    ]
}

/// The words of the descriptor block: vendor 0 / type 0, version 2 with block
/// size 88, RGBSDA / BT709 / linear with no flags, a 1x1x1x1 texel block,
/// 8 bytes in plane 0, then the R, G, B and A samples.
pub open spec fn dfd_block_words() -> Seq<u32> {
    seq![0u32, (2 + DFD_BLOCK_SIZE * 0x1_0000) as u32, 0x0001_0101u32, 0u32, 8u32, 0u32]
        + dfd_sample_words(0, CHANNEL_RED) + dfd_sample_words(16, CHANNEL_GREEN)
        + dfd_sample_words(32, CHANNEL_BLUE) + dfd_sample_words(48, CHANNEL_ALPHA)
}

/// The words of the whole descriptor: its total size, then the block.
pub open spec fn dfd_rgba16f_words() -> Seq<u32> {
    seq![DFD_TOTAL_SIZE] + dfd_block_words()
}

/// The words of a sequence of word groups, one group after the other.
pub open spec fn flatten_words(ss: Seq<Seq<u32>>) -> Seq<u32>
    decreases ss.len(),
{
    if ss.len() == 0 {
        Seq::empty()
    } else {
        flatten_words(ss.drop_last()) + ss.last()
    }
}

/// The bytes of the descriptor.
pub open spec fn dfd_rgba16f() -> Seq<u8> {
    le_words(dfd_rgba16f_words())
}

/// The descriptor is 92 bytes long, and its first word says so.
pub proof fn lemma_dfd_rgba16f_size()
    ensures
        dfd_rgba16f().len() == DFD_TOTAL_SIZE,
        read_le_u32(dfd_rgba16f(), 0) == DFD_TOTAL_SIZE,
{
    lemma_le_words_len(dfd_rgba16f_words());
    lemma_le_words_append(seq![DFD_TOTAL_SIZE], dfd_block_words());
    lemma_le_words_single(DFD_TOTAL_SIZE);
    assert(seq![DFD_TOTAL_SIZE] + dfd_block_words() =~= dfd_rgba16f_words());
    lemma_read_le_u32_at(Seq::empty(), DFD_TOTAL_SIZE, le_words(dfd_block_words()));
    assert(Seq::<u8>::empty() + le_u32(DFD_TOTAL_SIZE) + le_words(dfd_block_words())
        =~= dfd_rgba16f());
}

/// Builds the Data Format Descriptor of R16G16B16A16_SFLOAT texels: the
/// 4-byte total size (92) followed by the 88-byte basic descriptor block.
pub fn build_dfd_rgba16f() -> (dfd: Vec<u8>)
    ensures
        dfd@ == dfd_rgba16f(),
        dfd@.len() == DFD_TOTAL_SIZE,
{
    let mut buf: Vec<u8> = Vec::with_capacity(92);
    let mut block: Vec<u8> = Vec::with_capacity(88);
    let ghost mut words: Seq<u32> = Seq::empty();

    let word1: u32 = 2u32 | (88u32 << 16u32);
    assert(word1 == 2 + 88 * 0x1_0000) by (bit_vector)
        requires
            word1 == 2u32 | (88u32 << 16u32),
    ;
    let word2: u32 = 1u32 | (1u32 << 8u32) | (1u32 << 16u32) | (0u32 << 24u32);
    assert(word2 == 0x0001_0101) by (bit_vector)
        requires
            word2 == 1u32 | (1u32 << 8u32) | (1u32 << 16u32) | (0u32 << 24u32),
    ;
    let header: [u32; 6] = [0u32, word1, word2, 0u32, 8u32, 0u32];
    push_words_le(&mut block, &header);
    proof {
        words = header@;
        assert(words =~= seq![0u32, (2 + DFD_BLOCK_SIZE * 0x1_0000) as u32, 0x0001_0101u32, 0u32, 8u32, 0u32]);
    }

    let samples: [(u16, u8); 4] = [
        (0, CHANNEL_RED),
        (16, CHANNEL_GREEN),
        (32, CHANNEL_BLUE),
        (48, CHANNEL_ALPHA),
    ];
    let ghost expected: Seq<Seq<u32>> = seq![
        dfd_sample_words(0, CHANNEL_RED),
        dfd_sample_words(16, CHANNEL_GREEN),
        dfd_sample_words(32, CHANNEL_BLUE),
        dfd_sample_words(48, CHANNEL_ALPHA),
    ];

    for i in 0..4usize
        invariant
            block@ == le_words(words),
            words == seq![0u32, (2 + DFD_BLOCK_SIZE * 0x1_0000) as u32, 0x0001_0101u32, 0u32, 8u32, 0u32]
                + flatten_words(expected.take(i as int)),
            samples@ == seq![(0u16, CHANNEL_RED), (16u16, CHANNEL_GREEN), (32u16, CHANNEL_BLUE), (48u16, CHANNEL_ALPHA)],
            expected == seq![
                dfd_sample_words(0, CHANNEL_RED),
                dfd_sample_words(16, CHANNEL_GREEN),
                dfd_sample_words(32, CHANNEL_BLUE),
                dfd_sample_words(48, CHANNEL_ALPHA),
            ],
    {
        let (bit_offset, channel_id) = samples[i];
        let channel_type: u8 = channel_id | QUALIFIER_FLOAT_SIGNED;
        let bo: u32 = bit_offset as u32;
        let ct: u32 = channel_type as u32;
        let w0: u32 = bo | (15u32 << 16u32) | (ct << 24u32);
        assert(channel_id < 0x40);
        assert(channel_type == channel_id + 0xC0) by (bit_vector)
            requires
                channel_type == channel_id | 0xC0u8,
                channel_id < 0x40u8,
        ;
        assert(bo < 0x1_0000);
        assert(w0 == bo + 15 * 0x1_0000 + ct * 0x100_0000) by (bit_vector)
            requires
                w0 == bo | (15u32 << 16u32) | (ct << 24u32),
                bo < 0x1_0000u32,
                ct < 0x100u32,
        ;
        let sample: [u32; 4] = [w0, 0u32, F32_MINUS_ONE_BITS, F32_ONE_BITS];
        push_words_le(&mut block, &sample);
        proof {
            assert(sample@ =~= expected[i as int]);
            lemma_le_words_append(words, sample@);
            assert(expected.take(i + 1).drop_last() =~= expected.take(i as int));
            words = words + sample@;
        }
    }
    proof {
        assert(expected.take(4) =~= expected);
        reveal_with_fuel(flatten_words, 5);
        assert(words =~= dfd_block_words());
        lemma_le_words_len(words);
    }

    let dfd_total_size: u32 = 4 + block.len() as u32;
    push_u32_le(&mut buf, dfd_total_size);
    push_bytes(&mut buf, block.as_slice());
    proof {
        lemma_le_words_append(seq![DFD_TOTAL_SIZE], dfd_block_words());
        lemma_le_words_single(DFD_TOTAL_SIZE);
        assert(seq![DFD_TOTAL_SIZE] + dfd_block_words() =~= dfd_rgba16f_words());
        lemma_le_words_len(dfd_rgba16f_words());
    }
    buf
}

} // verus!
