//! Half-float channel values as bytes and back, in the machine's byte order.
//!
//! The conversions are those of `bytemuck`, which reinterprets memory: the
//! two bytes of each `u16` come in the order of the machine that runs them.
//! That order is the hardware's: `native_little()`, true on a little-endian
//! machine. Each function here makes one conversion over all the values it
//! handles and then cuts the result into faces, and every byte it hands out
//! or reads is in that one order.

use crate::mip::{chain_view, faces_view};
use vstd::endian::{endianness, Endian};
use vstd::prelude::*;
use vstd::slice::{slice_subrange, slice_to_vec};

verus! {

/// Each value as two bytes, least significant first.
pub open spec fn le_u16_bytes(ws: Seq<u16>) -> Seq<u8> {
    Seq::new(
        2 * ws.len(),
        |i: int|
            if i % 2 == 0 {
                (ws[i / 2] & 0xff) as u8
            } else {
                (ws[i / 2] >> 8u16) as u8
            },
    )
}

/// Each value as two bytes, most significant first.
pub open spec fn be_u16_bytes(ws: Seq<u16>) -> Seq<u8> {
    Seq::new(
        2 * ws.len(),
        |i: int|
            if i % 2 == 0 {
                (ws[i / 2] >> 8u16) as u8
            } else {
                (ws[i / 2] & 0xff) as u8
            },
    )
}

/// Each value as two bytes, least significant first when `little` holds,
/// else most significant first.
pub open spec fn u16_bytes(ws: Seq<u16>, little: bool) -> Seq<u8> {
    if little {
        le_u16_bytes(ws)
    } else {
        be_u16_bytes(ws)
    }
}

/// Whether the hardware that runs the code stores the least significant byte
/// of a number first.
pub open spec fn native_little() -> bool {
    endianness() == Endian::Little
}

/// `bytes` holds `ws` in the hardware's byte order.
pub open spec fn is_native_u16_bytes(ws: Seq<u16>, bytes: Seq<u8>) -> bool {
    bytes == u16_bytes(ws, native_little())
}

/// Each sequence of bytes holds the matching sequence of values in the byte
/// order that `little` names.
pub open spec fn faces_in_byte_order(words: Seq<Seq<u16>>, bytes: Seq<Seq<u8>>, little: bool) -> bool {
    &&& words.len() == bytes.len()
    &&& forall|f: int| 0 <= f < words.len() ==> #[trigger] bytes[f] == u16_bytes(words[f], little)
}

/// Every face of every level: `bytes[k][f]` holds `words[k][f]` in the byte
/// order that `little` names.
pub open spec fn chain_in_byte_order(
    words: Seq<Seq<Seq<u16>>>,
    bytes: Seq<Seq<Seq<u8>>>,
    little: bool,
) -> bool {
    &&& words.len() == bytes.len()
    &&& forall|k: int|
        0 <= k < words.len() ==> faces_in_byte_order(#[trigger] words[k], bytes[k], little)
}

/// The six byte sequences of a level.
pub open spec fn bytes_view(faces: [Vec<u8>; 6]) -> Seq<Seq<u8>> {
    Seq::new(6, |f: int| faces@[f]@)
}

/// The parts one after the other.
pub open spec fn join<T>(parts: Seq<Seq<T>>) -> Seq<T>
    decreases parts.len(),
{
    if parts.len() == 0 {
        Seq::empty()
    } else {
        join(parts.drop_last()) + parts.last()
    }
}

/// Calls `bytemuck::pod_collect_to_vec::<u8, u16>`, which copies the bytes into
/// a fresh vector of `u16`, two bytes per value in the hardware's byte order
/// (`native_little()`).
#[verifier::external_body]
fn collect_u16s(bytes: &[u8]) -> (words: Vec<u16>)
    requires
        bytes@.len() % 2 == 0,
    ensures
        words@.len() == bytes@.len() / 2,
        is_native_u16_bytes(words@, bytes@),
{
    bytemuck::pod_collect_to_vec::<u8, u16>(bytes)
}

/// Calls `bytemuck::cast_slice::<u16, u8>` and copies the result: the bytes of
/// the values, two per value in the hardware's byte order (`native_little()`).
#[verifier::external_body]
fn cast_u16s_to_bytes(words: &[u16]) -> (bytes: Vec<u8>)
    ensures
        bytes@.len() == 2 * words@.len(),
        is_native_u16_bytes(words@, bytes@),
{
    bytemuck::cast_slice::<u16, u8>(words).to_vec()
}

/// The bytes of a run of values are the matching run of the bytes of all.
proof fn lemma_u16_bytes_subrange(ws: Seq<u16>, a: int, b: int, little: bool)
    requires
        0 <= a <= b <= ws.len(),
    ensures
        u16_bytes(ws, little).subrange(2 * a, 2 * b) == u16_bytes(ws.subrange(a, b), little),
{
    let lhs = u16_bytes(ws, little).subrange(2 * a, 2 * b);
    let rhs = u16_bytes(ws.subrange(a, b), little);
    assert forall|i: int| 0 <= i < 2 * (b - a) implies lhs[i] == rhs[i] by {
        assert((2 * a + i) / 2 == a + i / 2);
        assert((2 * a + i) % 2 == i % 2);
    }
    assert(lhs =~= rhs);
}

/// Joining the first `k + 1` parts appends part `k` to the first `k`.
proof fn lemma_join_take_step<T>(parts: Seq<Seq<T>>, k: int)
    requires
        0 <= k < parts.len(),
    ensures
        join(parts.take(k + 1)) == join(parts.take(k)) + parts[k],
{
    assert(parts.take(k + 1).drop_last() =~= parts.take(k));
}

/// Part `k` sits in the joined parts right after the first `k` parts.
proof fn lemma_join_part<T>(parts: Seq<Seq<T>>, k: int)
    requires
        0 <= k < parts.len(),
    ensures
        join(parts.take(k)).len() + parts[k].len() <= join(parts).len(),
        join(parts).subrange(
            join(parts.take(k)).len() as int,
            (join(parts.take(k)).len() + parts[k].len()) as int,
        ) == parts[k],
{
    lemma_join_prefix(parts, k + 1, parts.len() as int);
    lemma_join_take_step(parts, k);
    assert(parts.take(parts.len() as int) =~= parts);
    let p = join(parts.take(k + 1));
    assert(join(parts).subrange(0, p.len() as int) == p);
    assert(join(parts).subrange(
        join(parts.take(k)).len() as int,
        (join(parts.take(k)).len() + parts[k].len()) as int,
    ) =~= p.subrange(join(parts.take(k)).len() as int, p.len() as int));
    assert(p.subrange(join(parts.take(k)).len() as int, p.len() as int) =~= parts[k]);
}

/// The join of the first `j` parts begins the join of the first `m`.
proof fn lemma_join_prefix<T>(parts: Seq<Seq<T>>, j: int, m: int)
    requires
        0 <= j <= m <= parts.len(),
    ensures
        join(parts.take(j)).len() <= join(parts.take(m)).len(),
        join(parts.take(m)).subrange(0, join(parts.take(j)).len() as int) == join(parts.take(j)),
    decreases m - j,
{
    if j == m {
        assert(join(parts.take(m)).subrange(0, join(parts.take(m)).len() as int) =~= join(
            parts.take(m),
        ));
    } else {
        lemma_join_prefix(parts, j, m - 1);
        lemma_join_take_step(parts, m - 1);
        assert(join(parts.take(m)).subrange(0, join(parts.take(j)).len() as int) =~= join(
            parts.take(m - 1),
        ).subrange(0, join(parts.take(j)).len() as int));
    }
}

/// Appends a copy of `items`.
fn push_all<T: Copy>(out: &mut Vec<T>, items: &[T])
    ensures
        final(out)@ == old(out)@ + items@,
{
    let n: usize = items.len();
    for i in 0..n
        invariant
            n == items@.len(),
            out@ == old(out)@ + items@.take(i as int),
    {
        out.push(items[i]);
        assert(out@ =~= old(out)@ + items@.take(i + 1));
    }
    assert(items@.take(n as int) =~= items@);
}

/// A copy of `len` items of `items` from `start` on.
fn copy_run<T: Copy>(items: &Vec<T>, start: usize, len: usize) -> (run: Vec<T>)
    requires
        start + len <= items@.len(),
    ensures
        run@ == items@.subrange(start as int, start + len),
{
    let total: usize = items.len();
    assert(start + len <= total);
    slice_to_vec(slice_subrange(items.as_slice(), start, start + len))
}

/// The faces of a level as half-float bit patterns, from their bytes read in
/// the hardware's byte order.
pub fn faces_from_bytes(faces: &[Vec<u8>; 6]) -> (words: [Vec<u16>; 6])
    requires
        forall|f: int| 0 <= f < 6 ==> (#[trigger] faces@[f])@.len() % 2 == 0,
    ensures
        forall|f: int|
            0 <= f < 6 ==> (#[trigger] faces_view(words)[f]).len() == faces@[f]@.len() / 2,
        faces_in_byte_order(faces_view(words), bytes_view(*faces), native_little()),
{
    let ghost parts = bytes_view(*faces);
    let mut joined: Vec<u8> = Vec::new();
    let mut starts: Vec<usize> = Vec::new();
    for f in 0..6usize
        invariant
            parts == bytes_view(*faces),
            forall|g: int| 0 <= g < 6 ==> (#[trigger] faces@[g])@.len() % 2 == 0,
            joined@ == join(parts.take(f as int)),
            joined@.len() % 2 == 0,
            starts@.len() == f,
            forall|g: int|
                0 <= g < f ==> #[trigger] starts@[g] == join(parts.take(g)).len() && starts@[g]
                    % 2 == 0,
    {
        proof {
            lemma_join_take_step(parts, f as int);
        }
        starts.push(joined.len());
        push_all(&mut joined, faces[f].as_slice());
    }
    assert(parts.take(6) =~= parts);
    let all = collect_u16s(joined.as_slice());
    let ghost little = native_little();
    assert(joined@ == u16_bytes(all@, little));
    proof {
        assert forall|f: int| 0 <= f < 6 implies starts@[f] / 2 + faces@[f]@.len() / 2
            <= all@.len() && u16_bytes(
            all@.subrange((starts@[f] / 2) as int, starts@[f] / 2 + faces@[f]@.len() / 2),
            little,
        ) == parts[f] by {
            lemma_join_part(parts, f);
            lemma_u16_bytes_subrange(
                all@,
                (starts@[f] / 2) as int,
                starts@[f] / 2 + faces@[f]@.len() / 2,
                little,
            );
        }
    }
    let words = [
        copy_run(&all, starts[0] / 2, faces[0].len() / 2),
        copy_run(&all, starts[1] / 2, faces[1].len() / 2),
        copy_run(&all, starts[2] / 2, faces[2].len() / 2),
        copy_run(&all, starts[3] / 2, faces[3].len() / 2),
        copy_run(&all, starts[4] / 2, faces[4].len() / 2),
        copy_run(&all, starts[5] / 2, faces[5].len() / 2),
    ];
    proof {
        assert forall|f: int| 0 <= f < 6 implies #[trigger] parts[f] == u16_bytes(
            faces_view(words)[f],
            little,
        ) by {}
        assert(faces_in_byte_order(faces_view(words), parts, little));
    }
    words
}

/// The faces of all levels in one sequence: face `f` of level `k` is part
/// `6 * k + f`.
pub open spec fn flat_faces<T>(levels: Seq<Seq<Seq<T>>>) -> Seq<Seq<T>> {
    Seq::new(6 * levels.len(), |i: int| levels[i / 6][i % 6])
}

/// All values of all faces of all levels, one face after the other, with the
/// position where each face starts.
fn flatten_chain(chain: &Vec<[Vec<u16>; 6]>) -> (flat: (Vec<u16>, Vec<usize>))
    ensures
        flat.0@ == join(flat_faces(chain_view(chain@))),
        flat.1@.len() == 6 * chain@.len(),
        forall|i: int|
            0 <= i < 6 * chain@.len() ==> #[trigger] flat.1@[i] == join(
                flat_faces(chain_view(chain@)).take(i),
            ).len(),
{
    let ghost words = chain_view(chain@);
    let ghost parts = flat_faces(words);
    let n: usize = chain.len();
    let mut all: Vec<u16> = Vec::new();
    let mut starts: Vec<usize> = Vec::new();
    let mut k: usize = 0;
    while k < n
        invariant
            k <= n,
            n == chain@.len(),
            words == chain_view(chain@),
            parts == flat_faces(words),
            all@ == join(parts.take(6 * k)),
            starts@.len() == 6 * k,
            forall|i: int| 0 <= i < 6 * k ==> #[trigger] starts@[i] == join(parts.take(i)).len(),
        decreases n - k,
    {
        for f in 0..6usize
            invariant
                k < n,
                n == chain@.len(),
                words == chain_view(chain@),
                parts == flat_faces(words),
                all@ == join(parts.take(6 * k + f)),
                starts@.len() == 6 * k + f,
                forall|i: int|
                    0 <= i < 6 * k + f ==> #[trigger] starts@[i] == join(parts.take(i)).len(),
        {
            proof {
                assert((6 * k + f) / 6 == k && (6 * k + f) % 6 == f);
                assert(parts[6 * k + f] == chain@[k as int]@[f as int]@);
                lemma_join_take_step(parts, 6 * k + f);
            }
            starts.push(all.len());
            push_all(&mut all, chain[k][f].as_slice());
        }
        k = k + 1;
    }
    assert(parts.take(6 * n) =~= parts);
    (all, starts)
}

/// Face `f` of a level is `2 * len` bytes of `bytes` from `2 * starts[base + f]`
/// on, where `len` is the number of its values.
fn cut_level(bytes: &Vec<u8>, starts: &Vec<usize>, faces: &[Vec<u16>; 6], base: usize) -> (level:
    [Vec<u8>; 6])
    requires
        base + 6 <= starts@.len(),
        forall|f: int|
            0 <= f < 6 ==> 2 * starts@[base + f] + 2 * (#[trigger] faces@[f])@.len()
                <= bytes@.len(),
    ensures
        forall|f: int|
            0 <= f < 6 ==> (#[trigger] level@[f])@ == bytes@.subrange(
                2 * starts@[base + f],
                2 * starts@[base + f] + 2 * faces@[f]@.len(),
            ),
{
    let total: usize = bytes.len();
    let count: usize = starts.len();
    assert(base + 6 <= count);
    assert(2 * starts@[base + 0] + 2 * faces@[0]@.len() <= total);
    assert(2 * starts@[base + 1] + 2 * faces@[1]@.len() <= total);
    assert(2 * starts@[base + 2] + 2 * faces@[2]@.len() <= total);
    assert(2 * starts@[base + 3] + 2 * faces@[3]@.len() <= total);
    assert(2 * starts@[base + 4] + 2 * faces@[4]@.len() <= total);
    assert(2 * starts@[base + 5] + 2 * faces@[5]@.len() <= total);
    [
        copy_run(bytes, 2 * starts[base], 2 * faces[0].len()),
        copy_run(bytes, 2 * starts[base + 1], 2 * faces[1].len()),
        copy_run(bytes, 2 * starts[base + 2], 2 * faces[2].len()),
        copy_run(bytes, 2 * starts[base + 3], 2 * faces[3].len()),
        copy_run(bytes, 2 * starts[base + 4], 2 * faces[4].len()),
        copy_run(bytes, 2 * starts[base + 5], 2 * faces[5].len()),
    ]
}

/// Each part's values, converted with the others, are found at twice its
/// start among the bytes of all of them.
proof fn lemma_parts_in_bytes(parts: Seq<Seq<u16>>, all: Seq<u16>, bytes: Seq<u8>, little: bool, i: int)
    requires
        all == join(parts),
        bytes == u16_bytes(all, little),
        0 <= i < parts.len(),
    ensures
        2 * join(parts.take(i)).len() + 2 * parts[i].len() <= bytes.len(),
        bytes.subrange(
            (2 * join(parts.take(i)).len()) as int,
            (2 * join(parts.take(i)).len() + 2 * parts[i].len()) as int,
        ) == u16_bytes(parts[i], little),
{
    lemma_join_part(parts, i);
    lemma_u16_bytes_subrange(
        all,
        join(parts.take(i)).len() as int,
        (join(parts.take(i)).len() + parts[i].len()) as int,
        little,
    );
}

/// Every level of a mip chain, face by face, as bytes in the hardware's byte
/// order.
pub fn mip_chain_to_bytes(chain: &Vec<[Vec<u16>; 6]>) -> (mips: Vec<[Vec<u8>; 6]>)
    ensures
        mips@.len() == chain@.len(),
        forall|k: int, f: int|
            0 <= k < mips@.len() && 0 <= f < 6 ==> (#[trigger] mips@[k]@[f])@.len() == 2
                * chain@[k]@[f]@.len(),
        chain_in_byte_order(chain_view(chain@), chain_bytes_view(mips@), native_little()),
{
    let ghost words = chain_view(chain@);
    let ghost parts = flat_faces(words);
    let (all, starts) = flatten_chain(chain);
    let bytes = cast_u16s_to_bytes(all.as_slice());
    let ghost little = native_little();
    assert(bytes@ == u16_bytes(all@, little));
    let n: usize = chain.len();
    let mut mips: Vec<[Vec<u8>; 6]> = Vec::new();
    let mut k: usize = 0;
    while k < n
        invariant
            k <= n,
            n == chain@.len(),
            words == chain_view(chain@),
            parts == flat_faces(words),
            all@ == join(parts),
            bytes@ == u16_bytes(all@, little),
            starts@.len() == 6 * n,
            forall|i: int| 0 <= i < 6 * n ==> #[trigger] starts@[i] == join(parts.take(i)).len(),
            mips@.len() == k,
            forall|j: int, f: int|
                0 <= j < k && 0 <= f < 6 ==> (#[trigger] mips@[j]@[f])@ == u16_bytes(
                    words[j][f],
                    little,
                ),
        decreases n - k,
    {
        proof {
            assert forall|f: int| 0 <= f < 6 implies {
                &&& 2 * starts@[6 * k + f] + 2 * (#[trigger] chain@[k as int]@[f])@.len()
                    <= bytes@.len()
                &&& bytes@.subrange(
                    2 * starts@[6 * k + f],
                    2 * starts@[6 * k + f] + 2 * chain@[k as int]@[f]@.len(),
                ) == u16_bytes(words[k as int][f], little)
            } by {
                assert((6 * k + f) / 6 == k && (6 * k + f) % 6 == f);
                assert(parts[6 * k + f] == words[k as int][f]);
                lemma_parts_in_bytes(parts, all@, bytes@, little, 6 * k + f);
            }
        }
        let count: usize = starts.len();
        assert(6 * k + 6 <= count);
        let level = cut_level(&bytes, &starts, &chain[k], 6 * k);
        let ghost before = mips@;
        mips.push(level);
        proof {
            assert forall|j: int, f: int|
                0 <= j < k + 1 && 0 <= f < 6 implies (#[trigger] mips@[j]@[f])@ == u16_bytes(
                words[j][f],
                little,
            ) by {
                if j < k {
                    assert(mips@[j] == before[j]);
                }
            }
        }
        k = k + 1;
    }
    proof {
        let bv = chain_bytes_view(mips@);
        assert forall|j: int| 0 <= j < words.len() implies faces_in_byte_order(
            #[trigger] words[j],
            bv[j],
            little,
        ) by {
            assert forall|f: int| 0 <= f < words[j].len() implies #[trigger] bv[j][f] == u16_bytes(
                words[j][f],
                little,
            ) by {
                assert(bv[j][f] == mips@[j]@[f]@);
            }
        }
        assert forall|j: int, f: int|
            0 <= j < mips@.len() && 0 <= f < 6 implies (#[trigger] mips@[j]@[f])@.len() == 2
                * chain@[j]@[f]@.len() by {
            assert(mips@[j]@[f]@ == u16_bytes(words[j][f], little));
        }
    }
    mips
}

/// The levels of a chain of byte faces, each as its six faces.
pub open spec fn chain_bytes_view(mips: Seq<[Vec<u8>; 6]>) -> Seq<Seq<Seq<u8>>> {
    Seq::new(mips.len(), |k: int| bytes_view(mips[k]))
}

/// The number that two bytes stand for in the hardware's byte order.
pub open spec fn native_u16_value(b0: u8, b1: u8) -> int {
    if native_little() {
        b0 + 0x100 * b1
    } else {
        0x100 * b0 + b1
    }
}

/// Bytes in the hardware's order read back as the values: value `i` is the
/// number that bytes `2i` and `2i + 1` stand for on this hardware.
pub proof fn lemma_native_bytes_read_back(ws: Seq<u16>, bytes: Seq<u8>)
    requires
        is_native_u16_bytes(ws, bytes),
    ensures
        bytes.len() == 2 * ws.len(),
        forall|i: int| 0 <= i < ws.len() ==> #[trigger] ws[i] == native_u16_value(bytes[2 * i], bytes[2 * i + 1]),
{
    assert forall|i: int| 0 <= i < ws.len() implies #[trigger] ws[i] == native_u16_value(
        bytes[2 * i],
        bytes[2 * i + 1],
    ) by {
        let v = ws[i];
        assert((2 * i) / 2 == i && (2 * i + 1) / 2 == i && (2 * i) % 2 == 0 && (2 * i + 1) % 2 == 1);
        assert((v & 0xff) < 0x100 && (v >> 8u16) < 0x100 && v == (v & 0xff) + 0x100 * (v >> 8u16))
            by (bit_vector);
    }
}

/// Two value sequences with the same bytes in the hardware's order are equal.
pub proof fn lemma_native_bytes_determine_values(ws1: Seq<u16>, ws2: Seq<u16>, bytes: Seq<u8>)
    requires
        is_native_u16_bytes(ws1, bytes),
        is_native_u16_bytes(ws2, bytes),
    ensures
        ws1 == ws2,
{
    lemma_native_bytes_read_back(ws1, bytes);
    lemma_native_bytes_read_back(ws2, bytes);
    assert forall|i: int| 0 <= i < ws1.len() implies ws1[i] == ws2[i] by {
        assert(ws1[i] == native_u16_value(bytes[2 * i], bytes[2 * i + 1]));
        assert(ws2[i] == native_u16_value(bytes[2 * i], bytes[2 * i + 1]));
    }
    assert(ws1 =~= ws2);
}

/// Reading back the bytes of a chain level, as `faces_from_bytes` does with
/// what `mip_chain_to_bytes` wrote, gives the level's values.
pub proof fn lemma_chain_bytes_read_back(
    chain: Seq<Seq<Seq<u16>>>,
    mips: Seq<Seq<Seq<u8>>>,
    k: int,
    words: Seq<Seq<u16>>,
)
    requires
        chain_in_byte_order(chain, mips, native_little()),
        0 <= k < chain.len(),
        faces_in_byte_order(words, mips[k], native_little()),
    ensures
        words == chain[k],
{
    assert(faces_in_byte_order(chain[k], mips[k], native_little()));
    assert forall|f: int| 0 <= f < words.len() implies words[f] == chain[k][f] by {
        lemma_native_bytes_determine_values(words[f], chain[k][f], mips[k][f]);
    }
    assert(words =~= chain[k]);
}

/// Writing back values read from bytes, as `mip_chain_to_bytes` does with what
/// `faces_from_bytes` read, gives the same bytes.
pub proof fn lemma_read_bytes_write_back(
    bytes: Seq<Seq<u8>>,
    words: Seq<Seq<u16>>,
    written: Seq<Seq<u8>>,
)
    requires
        faces_in_byte_order(words, bytes, native_little()),
        faces_in_byte_order(words, written, native_little()),
    ensures
        written == bytes,
{
    assert(written =~= bytes);
}

} // verus!
