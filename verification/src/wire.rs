//! The layout of a batch in a transfer buffer: sixteen bytes a vector, four a
//! component, the least significant byte first.

use crate::binary32::Binary32;
use crate::vector::Vector4;
use vstd::prelude::*;

verus! {

/// The bytes that one vector takes in a buffer.
pub const VECTOR_BYTES: usize = 16;

/// The four bytes of a word, least significant first.
pub open spec fn word_bytes(x: u32) -> Seq<u8> {
    seq![
        (x % 256) as u8,
        (x / 0x100 % 256) as u8,
        (x / 0x1_0000 % 256) as u8,
        (x / 0x100_0000) as u8,
    ]
}

/// The word whose four bytes, least significant first, start at `at`.
pub open spec fn word_at(bytes: Seq<u8>, at: int) -> u32 {
    (bytes[at] + bytes[at + 1] * 0x100 + bytes[at + 2] * 0x1_0000 + bytes[at + 3] * 0x100_0000) as u32
}

/// The sixteen bytes of a vector: its components in order.
pub open spec fn vector_bytes(v: Vector4) -> Seq<u8> {
    word_bytes(v.x.bits) + word_bytes(v.y.bits) + word_bytes(v.z.bits) + word_bytes(v.w.bits)
}

/// The vector whose sixteen bytes start at `at`.
pub open spec fn vector_at(bytes: Seq<u8>, at: int) -> Vector4 {
    Vector4::of_bits(
        word_at(bytes, at),
        word_at(bytes, at + 4),
        word_at(bytes, at + 8),
        word_at(bytes, at + 12),
    )
}

/// The bytes of a batch: those of its vectors, one after the other.
pub open spec fn batch_bytes(batch: Seq<Vector4>) -> Seq<u8> {
    Seq::new(16 * batch.len(), |k: int| vector_bytes(batch[k / 16])[k % 16])
}

/// The batch that a buffer of whole vectors holds.
pub open spec fn parsed(bytes: Seq<u8>) -> Seq<Vector4> {
    Seq::new(bytes.len() / 16, |k: int| vector_at(bytes, 16 * k))
}

/// A word is what its four bytes spell.
pub proof fn lemma_word_round_trip(x: u32)
    ensures
        word_bytes(x).len() == 4,
        word_at(word_bytes(x), 0) == x,
{
}

/// A vector is what its sixteen bytes spell.
pub proof fn lemma_vector_round_trip(v: Vector4)
    ensures
        vector_bytes(v).len() == 16,
        vector_at(vector_bytes(v), 0) == v,
{
    lemma_word_round_trip(v.x.bits);
    lemma_word_round_trip(v.y.bits);
    lemma_word_round_trip(v.z.bits);
    lemma_word_round_trip(v.w.bits);
    let b = vector_bytes(v);
    assert(word_at(b, 0) == word_at(word_bytes(v.x.bits), 0));
    assert(word_at(b, 4) == word_at(word_bytes(v.y.bits), 0));
    assert(word_at(b, 8) == word_at(word_bytes(v.z.bits), 0));
    assert(word_at(b, 12) == word_at(word_bytes(v.w.bits), 0));
}

/// Reading back what was written gives the batch that was written: the
/// layout loses nothing and keeps the order.
pub proof fn lemma_batch_round_trip(batch: Seq<Vector4>)
    ensures
        batch_bytes(batch).len() == 16 * batch.len(),
        parsed(batch_bytes(batch)) == batch,
{
    let bytes = batch_bytes(batch);
    assert(bytes.len() / 16 == batch.len());
    assert forall|k: int| 0 <= k < batch.len() implies vector_at(bytes, 16 * k) == batch[k] by {
        let v = batch[k];
        lemma_vector_round_trip(v);
        assert forall|j: int| 0 <= j < 16 implies bytes[16 * k + j] == #[trigger] vector_bytes(v)[j] by {
            assert((16 * k + j) / 16 == k);
            assert((16 * k + j) % 16 == j);
        }
        assert(word_at(bytes, 16 * k) == word_at(vector_bytes(v), 0));
        assert(word_at(bytes, 16 * k + 4) == word_at(vector_bytes(v), 4));
        assert(word_at(bytes, 16 * k + 8) == word_at(vector_bytes(v), 8));
        assert(word_at(bytes, 16 * k + 12) == word_at(vector_bytes(v), 12));
    }
    assert(parsed(bytes) =~= batch);
}

/// Appends the four bytes of `x` to `out`.
fn push_word(out: &mut Vec<u8>, x: u32)
    ensures
        final(out)@ == old(out)@ + word_bytes(x),
{
    out.push((x % 256) as u8);
    out.push((x / 0x100 % 256) as u8);
    out.push((x / 0x1_0000 % 256) as u8);
    out.push((x / 0x100_0000) as u8);
    assert(out@ =~= old(out)@ + word_bytes(x));
}

/// The word whose four bytes start at `at`.
fn read_word(bytes: &[u8], at: usize) -> (x: u32)
    requires
        at + 4 <= bytes@.len(),
    ensures
        x == word_at(bytes@, at as int),
{
    (bytes[at] as u32) + (bytes[at + 1] as u32) * 0x100 + (bytes[at + 2] as u32) * 0x1_0000
        + (bytes[at + 3] as u32) * 0x100_0000
}

/// The bytes of a batch, as they go into a transfer buffer.
pub fn encode_batch(points: &Vec<Vector4>) -> (bytes: Vec<u8>)
    ensures
        bytes@ == batch_bytes(points@),
{
    let mut bytes: Vec<u8> = Vec::new();
    let mut k: usize = 0;
    while k < points.len()
        invariant
            k <= points.len(),
            bytes@.len() == 16 * k,
            forall|j: int| 0 <= j < 16 * k ==> bytes@[j] == vector_bytes(points@[j / 16])[j % 16],
        decreases points.len() - k,
    {
        let v = points[k];
        let ghost before = bytes@;
        push_word(&mut bytes, v.x.bits);
        push_word(&mut bytes, v.y.bits);
        push_word(&mut bytes, v.z.bits);
        push_word(&mut bytes, v.w.bits);
        proof {
            assert(bytes@ =~= before + vector_bytes(v));
            assert forall|j: int| 0 <= j < 16 * (k + 1) implies bytes@[j] == vector_bytes(
                points@[j / 16],
            )[j % 16] by {
                if j >= 16 * k {
                    assert(j / 16 == k);
                    assert(j % 16 == j - 16 * k);
                }
            }
        }
        k = k + 1;
    }
    assert(bytes@ =~= batch_bytes(points@));
    bytes
}

/// The batch that a transfer buffer holds: `None` for a buffer that does not
/// end on a whole vector, else its vectors in order.
pub fn decode_batch(bytes: &[u8]) -> (r: Option<Vec<Vector4>>)
    ensures
        match r {
            Some(v) => bytes@.len() % 16 == 0 && v@ == parsed(bytes@),
            None => bytes@.len() % 16 != 0,
        },
{
    let n: usize = bytes.len();
    if n % VECTOR_BYTES != 0 {
        return None;
    }
    let mut out: Vec<Vector4> = Vec::new();
    let mut at: usize = 0;
    while at < n
        invariant
            n == bytes@.len(),
            n % 16 == 0,
            at <= n,
            at % 16 == 0,
            out.len() == at / 16,
            forall|k: int| 0 <= k < out.len() ==> out[k] == vector_at(bytes@, 16 * k),
        decreases n - at,
    {
        let v = Vector4 {
            x: Binary32 { bits: read_word(bytes, at) },
            y: Binary32 { bits: read_word(bytes, at + 4) },
            z: Binary32 { bits: read_word(bytes, at + 8) },
            w: Binary32 { bits: read_word(bytes, at + 12) },
        };
        out.push(v);
        at = at + 16;
    }
    assert(out@ =~= parsed(bytes@));
    Some(out)
}

} // verus!
