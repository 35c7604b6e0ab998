//! What one dispatch of a batch takes and gives: how many bytes travel, how
//! many workgroups run, what the buffer that comes back holds, and the same
//! dispatch done on the host.

use crate::evaluator::{samples, solve_mandel};
use crate::vector::Vector4;
use crate::wire::{batch_bytes, decode_batch, lemma_batch_round_trip, parsed};
use vstd::prelude::*;
use vstd::slice::slice_subrange;

verus! {

/// The longest batch that the transfer buffers hold.
pub const BATCH_CAPACITY: usize = 65536;

/// The size of each transfer buffer in bytes: the capacity times sixteen.
pub const BUFFER_BYTES: u64 = 0x10_0000;

/// The number of kernel instances in one workgroup.
pub const WORKGROUP_SIZE: u32 = 256;

/// Why a dispatch gave no results.
#[derive(Clone, Copy, Debug, PartialEq, Eq, Structural)]
pub enum DispatchError {
    /// The batch holds no coordinate.
    EmptyBatch,
    /// The batch is longer than the transfer buffers.
    BatchTooLarge,
    /// The buffer that came back is shorter than the batch.
    Truncated,
    /// The execution backend reported a failure.
    Backend,
}

/// The sizes of one dispatch.
#[derive(Clone, Copy, Debug, PartialEq, Eq, Structural)]
pub struct DispatchPlan {
    /// The bytes written to the device and read back from it.
    pub transfer_bytes: u64,
    /// The workgroups to run: the fewest whose instances cover the batch.
    pub workgroups: u32,
}

/// The plan for a batch of `len` coordinates, or why there is none.
pub open spec fn planned(len: nat) -> Result<DispatchPlan, DispatchError> {
    if len == 0 {
        Err(DispatchError::EmptyBatch)
    } else if len > 65536 {
        Err(DispatchError::BatchTooLarge)
    } else {
        Ok(DispatchPlan { transfer_bytes: (16 * len) as u64, workgroups: ((len + 255) / 256) as u32 })
    }
}

/// What a buffer read back from the device gives for a batch of `len`
/// coordinates: its first `len` vectors, whatever the buffer holds beyond
/// them. A length beyond the capacity and a buffer too short for the batch
/// are refused.
pub open spec fn read_back(len: nat, bytes: Seq<u8>) -> Result<Seq<Vector4>, DispatchError> {
    if len > 65536 {
        Err(DispatchError::BatchTooLarge)
    } else if bytes.len() < 16 * len {
        Err(DispatchError::Truncated)
    } else {
        Ok(parsed(bytes.subrange(0, 16 * len as int)))
    }
}

/// What a dispatch of `batch` returns when nothing fails on the way: one
/// sample per coordinate, in the order of the batch.
pub open spec fn dispatched(batch: Seq<Vector4>) -> Result<Seq<Vector4>, DispatchError> {
    match planned(batch.len()) {
        Ok(_) => Ok(samples(batch)),
        Err(e) => Err(e),
    }
}

/// The plan for a batch of `len` coordinates.
pub fn plan_dispatch(len: usize) -> (r: Result<DispatchPlan, DispatchError>)
    ensures
        r == planned(len as nat),
{
    if len == 0 {
        Err(DispatchError::EmptyBatch)
    } else if len > BATCH_CAPACITY {
        Err(DispatchError::BatchTooLarge)
    } else {
        Ok(DispatchPlan { transfer_bytes: 16 * (len as u64), workgroups: ((len + 255) / 256) as u32 })
    }
}

/// The results that a buffer read back from the device holds for a batch of
/// `len` coordinates.
pub fn read_results(len: usize, bytes: &[u8]) -> (r: Result<Vec<Vector4>, DispatchError>)
    ensures
        match r {
            Ok(v) => read_back(len as nat, bytes@) == Ok::<Seq<Vector4>, DispatchError>(v@),
            Err(e) => read_back(len as nat, bytes@) == Err::<Seq<Vector4>, DispatchError>(e),
        },
{
    if len > BATCH_CAPACITY {
        return Err(DispatchError::BatchTooLarge);
    }
    if bytes.len() < 16 * len {
        return Err(DispatchError::Truncated);
    }
    let part = slice_subrange(bytes, 0, 16 * len);
    match decode_batch(part) {
        Some(v) => Ok(v),
        None => Err(DispatchError::Truncated),
    }
}

/// One dispatch done on the host: the batch is checked as a dispatch to the
/// device checks it, and each coordinate is evaluated in turn.
pub fn dispatch_on_host(batch: &Vec<Vector4>) -> (r: Result<Vec<Vector4>, DispatchError>)
    ensures
        match r {
            Ok(v) => dispatched(batch@) == Ok::<Seq<Vector4>, DispatchError>(v@),
            Err(e) => dispatched(batch@) == Err::<Seq<Vector4>, DispatchError>(e),
        },
{
    match plan_dispatch(batch.len()) {
        Ok(_) => Ok(solve_mandel(batch)),
        Err(e) => Err(e),
    }
}

/// A dispatch answers every coordinate, in order: for each batch of one to
/// 65536 coordinates the results are as many as the batch, and each is the
/// evaluator's sample of the coordinate in its place.
pub proof fn lemma_dispatch_answers_in_order(batch: Seq<Vector4>)
    requires
        1 <= batch.len() <= 65536,
    ensures
        dispatched(batch) matches Ok(results) && results.len() == batch.len() && forall|i: int|
            0 <= i < batch.len() ==> results[i] == crate::evaluator::sample(batch[i]),
{
}

/// A dispatch depends on the batch alone: two dispatches of one batch give
/// the same.
pub proof fn lemma_dispatch_repeats(
    batch: Seq<Vector4>,
    first: Result<Seq<Vector4>, DispatchError>,
    second: Result<Seq<Vector4>, DispatchError>,
)
    requires
        first == dispatched(batch),
        second == dispatched(batch),
    ensures
        first == second,
{
}

/// A device that leaves the samples of the batch at the start of the buffer
/// has served the dispatch: what is read back is what the host computes.
pub proof fn lemma_read_back_of_samples(batch: Seq<Vector4>, bytes: Seq<u8>)
    requires
        1 <= batch.len() <= 65536,
        bytes.len() >= 16 * batch.len(),
        bytes.subrange(0, 16 * batch.len() as int) == batch_bytes(samples(batch)),
    ensures
        read_back(batch.len(), bytes) == dispatched(batch),
{
    lemma_batch_round_trip(samples(batch));
}

} // verus!
