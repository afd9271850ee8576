//! Telemetry: the per-work-item counters logged on the flush cadence.
//!
//! Counters are process-local, reset at the start of each work item, and
//! advance monotonically within it.  They are computed on a cadence
//! measured in processed documents.
use vstd::prelude::*;

verus! {

/// One telemetry snapshot, computed at a flush point.
pub struct Telemetry {
    /// Documents sitting in scan-engine queues: pending batches times the
    /// batch size.
    pub documents_queued: u64,
    /// Documents fully processed: processed so far, less what is still
    /// queued (never below zero).
    pub documents_completed: u64,
    /// Completed documents per elapsed second, counting a fraction of a
    /// second as one.
    pub docs_per_second: u64,
    /// Outputs delivered over the whole work item, this flush included.
    pub total_outputs: u64,
    /// Outputs delivered by this flush alone.
    pub new_outputs: u64,
}

/// Whether the flush cadence has come round: every `interval` processed
/// documents.
pub fn is_flush_point(documents_processed: u64, interval: u64) -> (r: bool)
    requires
        interval >= 1,
    ensures
        r <==> documents_processed % interval == 0,
{
    documents_processed % interval == 0
}

/// Compute one telemetry snapshot.  The products and sums stay within
/// `u64` by the callers' own bounds on queue depth and output counts.
pub fn compute_telemetry(
    documents_processed: u64,
    old_total_outputs: u64,
    new_outputs: u64,
    max_pending: u64,
    batch_size: u64,
    elapsed_secs: u64,
) -> (t: Telemetry)
    requires
        max_pending * batch_size <= u64::MAX,
        old_total_outputs + new_outputs <= u64::MAX,
    ensures
        t.documents_queued == max_pending * batch_size,
        t.documents_completed == if t.documents_queued > documents_processed {
            0
        } else {
            documents_processed - t.documents_queued
        },
        t.docs_per_second == t.documents_completed as int / (if elapsed_secs == 0 {
            1
        } else {
            elapsed_secs as int
        }),
        t.total_outputs == old_total_outputs + new_outputs,
        t.new_outputs == new_outputs,
{
    let documents_queued = max_pending * batch_size;
    let documents_completed: u64 = if documents_queued > documents_processed {
        0
    } else {
        documents_processed - documents_queued
    };
    let elapsed: u64 = if elapsed_secs == 0 {
        1
    } else {
        elapsed_secs
    };
    let docs_per_second = documents_completed / elapsed;
    Telemetry {
        documents_queued,
        documents_completed,
        docs_per_second,
        total_outputs: old_total_outputs + new_outputs,
        new_outputs,
    }
}

} // verus!
