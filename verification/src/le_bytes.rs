//! Little-endian encoding of fixed-width integers, with the reading that
//! recovers them.

use vstd::prelude::*;

verus! {

/// The four bytes of `v`, least significant first.
pub open spec fn le_u32(v: u32) -> Seq<u8> {
    seq![
        (v & 0xff) as u8,
        ((v >> 8u32) & 0xff) as u8,
        ((v >> 16u32) & 0xff) as u8,
        ((v >> 24u32) & 0xff) as u8,
    ]
}

/// The eight bytes of `v`, least significant first.
pub open spec fn le_u64(v: u64) -> Seq<u8> {
    le_u32((v & 0xffff_ffff) as u32) + le_u32((v >> 32u64) as u32)
}

/// The number that four bytes stand for, read least significant first.
pub open spec fn le_value4(b: Seq<u8>) -> int {
    b[0] + 0x100 * b[1] + 0x1_0000 * b[2] + 0x100_0000 * b[3]
}

/// The number that eight bytes stand for, read least significant first.
pub open spec fn le_value8(b: Seq<u8>) -> int {
    le_value4(b.subrange(0, 4)) + 0x1_0000_0000 * le_value4(b.subrange(4, 8))
}

/// The little-endian 32-bit number stored in `s` at byte offset `at`.
pub open spec fn read_le_u32(s: Seq<u8>, at: int) -> int {
    le_value4(s.subrange(at, at + 4))
}

/// The little-endian 64-bit number stored in `s` at byte offset `at`.
pub open spec fn read_le_u64(s: Seq<u8>, at: int) -> int {
    le_value8(s.subrange(at, at + 8))
}

/// Concatenation of the little-endian encodings of a sequence of words.
pub open spec fn le_words(ws: Seq<u32>) -> Seq<u8>
    decreases ws.len(),
{
    if ws.len() == 0 {
        Seq::empty()
    } else {
        le_words(ws.drop_last()) + le_u32(ws.last())
    }
}

/// Reading four little-endian bytes gives back the number they encode.
pub proof fn lemma_le_u32_roundtrip(v: u32)
    ensures
        le_u32(v).len() == 4,
        le_value4(le_u32(v)) == v,
{
    let b0: u32 = v & 0xff;
    let b1: u32 = (v >> 8u32) & 0xff;
    let b2: u32 = (v >> 16u32) & 0xff;
    let b3: u32 = (v >> 24u32) & 0xff;
    assert(b0 < 0x100 && b1 < 0x100 && b2 < 0x100 && b3 < 0x100) by (bit_vector)
        requires
            b0 == v & 0xff,
            b1 == (v >> 8u32) & 0xff,
            b2 == (v >> 16u32) & 0xff,
            b3 == (v >> 24u32) & 0xff,
    ;
    assert(v == b0 + 0x100 * b1 + 0x1_0000 * b2 + 0x100_0000 * b3) by (bit_vector)
        requires
            b0 == v & 0xff,
            b1 == (v >> 8u32) & 0xff,
            b2 == (v >> 16u32) & 0xff,
            b3 == (v >> 24u32) & 0xff,
    ;
}

/// Reading eight little-endian bytes gives back the number they encode.
pub proof fn lemma_le_u64_roundtrip(v: u64)
    ensures
        le_u64(v).len() == 8,
        le_value8(le_u64(v)) == v,
{
    let lo: u32 = (v & 0xffff_ffff) as u32;
    let hi: u32 = (v >> 32u64) as u32;
    lemma_le_u32_roundtrip(lo);
    lemma_le_u32_roundtrip(hi);
    assert(le_u64(v).subrange(0, 4) =~= le_u32(lo));
    assert(le_u64(v).subrange(4, 8) =~= le_u32(hi));
    assert(v == (v & 0xffff_ffff) + 0x1_0000_0000 * (v >> 32u64)) by (bit_vector);
    assert((v & 0xffff_ffff) < 0x1_0000_0000 && (v >> 32u64) < 0x1_0000_0000) by (bit_vector);
}

/// A number encoded at byte offset `a.len()` of a sequence is read back there.
pub proof fn lemma_read_le_u32_at(a: Seq<u8>, v: u32, b: Seq<u8>)
    ensures
        read_le_u32(a + le_u32(v) + b, a.len() as int) == v,
{
    lemma_le_u32_roundtrip(v);
    assert((a + le_u32(v) + b).subrange(a.len() as int, a.len() + 4int) =~= le_u32(v));
}

/// A number encoded at byte offset `a.len()` of a sequence is read back there.
pub proof fn lemma_read_le_u64_at(a: Seq<u8>, v: u64, b: Seq<u8>)
    ensures
        read_le_u64(a + le_u64(v) + b, a.len() as int) == v,
{
    lemma_le_u64_roundtrip(v);
    assert((a + le_u64(v) + b).subrange(a.len() as int, a.len() + 8int) =~= le_u64(v));
}

/// Encoding a concatenation of words is concatenating their encodings.
pub proof fn lemma_le_words_append(a: Seq<u32>, b: Seq<u32>)
    ensures
        le_words(a + b) == le_words(a) + le_words(b),
    decreases b.len(),
{
    if b.len() == 0 {
        assert(a + b =~= a);
        assert(le_words(b) =~= Seq::<u8>::empty());
        assert(le_words(a) + le_words(b) =~= le_words(a));
    } else {
        lemma_le_words_append(a, b.drop_last());
        assert((a + b).drop_last() =~= a + b.drop_last());
        assert(le_words(a) + le_words(b) =~= le_words(a) + le_words(b.drop_last()) + le_u32(
            b.last(),
        ));
    }
}

/// A single word is encoded as its four bytes.
pub proof fn lemma_le_words_single(w: u32)
    ensures
        le_words(seq![w]) == le_u32(w),
{
    assert(seq![w].drop_last() =~= Seq::<u32>::empty());
    assert(le_words(Seq::<u32>::empty()) =~= Seq::<u8>::empty());
    assert(le_words(seq![w]) =~= le_u32(w));
}

/// Each word takes four bytes.
pub proof fn lemma_le_words_len(ws: Seq<u32>)
    ensures
        le_words(ws).len() == 4 * ws.len(),
    decreases ws.len(),
{
    if ws.len() > 0 {
        lemma_le_words_len(ws.drop_last());
    }
}

/// Appends the little-endian bytes of `v`.
pub fn push_u32_le(out: &mut Vec<u8>, v: u32)
    ensures
        final(out)@ == old(out)@ + le_u32(v),
{
    out.push((v & 0xff) as u8);
    out.push(((v >> 8u32) & 0xff) as u8);
    out.push(((v >> 16u32) & 0xff) as u8);
    out.push(((v >> 24u32) & 0xff) as u8);
    assert(out@ =~= old(out)@ + le_u32(v));
}

/// Appends the little-endian bytes of `v`.
pub fn push_u64_le(out: &mut Vec<u8>, v: u64)
    ensures
        final(out)@ == old(out)@ + le_u64(v),
{
    push_u32_le(out, (v & 0xffff_ffff) as u32);
    push_u32_le(out, (v >> 32u64) as u32);
    assert(out@ =~= old(out)@ + le_u64(v));
}

/// Appends the little-endian bytes of each word in turn.
pub fn push_words_le(out: &mut Vec<u8>, ws: &[u32])
    ensures
        final(out)@ == old(out)@ + le_words(ws@),
{
    let n: usize = ws.len();
    for i in 0..n
        invariant
            n == ws@.len(),
            out@ == old(out)@ + le_words(ws@.take(i as int)),
    {
        push_u32_le(out, ws[i]);
        assert(ws@.take(i + 1).drop_last() =~= ws@.take(i as int));
        assert(out@ =~= old(out)@ + le_words(ws@.take(i + 1)));
    }
    assert(ws@.take(n as int) =~= ws@);
}

/// Appends a copy of `bytes`.
pub fn push_bytes(out: &mut Vec<u8>, bytes: &[u8])
    ensures
        final(out)@ == old(out)@ + bytes@,
{
    let n: usize = bytes.len();
    for i in 0..n
        invariant
            n == bytes@.len(),
            out@ == old(out)@ + bytes@.take(i as int),
    {
        out.push(bytes[i]);
        assert(out@ =~= old(out)@ + bytes@.take(i + 1));
    }
    assert(bytes@.take(n as int) =~= bytes@);
}

} // verus!
