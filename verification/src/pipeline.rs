//! The ingestion pipeline's planning logic: how a candidate list is cut
//! into bounded batches, what progress is reported after each batch, and
//! when a root is skipped as already indexed.
//!
//! The walking, extraction and persistence around this plan are the
//! caller's concern; the plan itself guarantees that batches partition the
//! work and that the reported processed-counts climb to the total.
use vstd::prelude::*;

verus! {

/// One progress event of a scan: the phase name, how many files have been
/// processed, and the total when it is known.
#[derive(Clone, Debug)]
pub struct IndexProgress {
    pub phase: String,
    pub current: u64,
    pub total: Option<u64>,
}

/// The batch boundaries for `total` candidates in chunks of `chunk_size`:
/// consecutive half-open ranges that cover `0..total`, each of the chunk
/// size except possibly the last.
pub fn chunk_bounds(total: usize, chunk_size: usize) -> (r: Vec<(usize, usize)>)
    requires
        chunk_size > 0,
    ensures
        total == 0 ==> r@.len() == 0,
        total > 0 ==> r@.len() > 0 && r@[0].0 == 0 && r@.last().1 == total,
        forall|i: int| 0 <= i < r@.len() ==> (#[trigger] r@[i]).0 < r@[i].1 <= total,
        forall|i: int|
            0 < i < r@.len() ==> (#[trigger] r@[i]).0 == r@[i - 1].1,
        forall|i: int|
            0 <= i < r@.len() ==> (#[trigger] r@[i]).1 - r@[i].0 <= chunk_size,
        forall|i: int|
            0 <= i < r@.len() - 1 ==> (#[trigger] r@[i]).1 - r@[i].0 == chunk_size,
{
    let mut r: Vec<(usize, usize)> = Vec::new();
    let mut start: usize = 0;
    while start < total
        invariant
            0 <= start <= total,
            chunk_size > 0,
            start == 0 ==> r@.len() == 0,
            start > 0 ==> r@.len() > 0 && r@[0].0 == 0 && r@.last().1 == start,
            forall|i: int| 0 <= i < r@.len() ==> (#[trigger] r@[i]).0 < r@[i].1 <= start,
            forall|i: int| 0 < i < r@.len() ==> (#[trigger] r@[i]).0 == r@[i - 1].1,
            forall|i: int| 0 <= i < r@.len() ==> (#[trigger] r@[i]).1 - r@[i].0 <= chunk_size,
            forall|i: int|
                0 <= i < r@.len() - 1 ==> (#[trigger] r@[i]).1 - r@[i].0 == chunk_size,
            r@.len() > 0 ==> r@.last().1 - r@.last().0 == chunk_size || r@.last().1 == total,
        decreases total - start,
    {
        let remaining = total - start;
        let len = if remaining < chunk_size {
            remaining
        } else {
            chunk_size
        };
        let end = start + len;
        r.push((start, end));
        start = end;
    }
    r
}

/// The cumulative processed-count after each batch climbs strictly and
/// reaches the total: the order in which progress is reported.
pub proof fn lemma_progress_monotone(bounds: Seq<(usize, usize)>, total: usize)
    requires
        bounds.len() > 0 ==> bounds.last().1 == total,
        forall|i: int| 0 <= i < bounds.len() ==> (#[trigger] bounds[i]).0 < bounds[i].1,
        forall|i: int| 0 < i < bounds.len() ==> (#[trigger] bounds[i]).0 == bounds[i - 1].1,
    ensures
        forall|i: int, j: int|
            0 <= i < j < bounds.len() ==> (#[trigger] bounds[i]).1 < (#[trigger] bounds[j]).1,
        forall|i: int| 0 <= i < bounds.len() ==> (#[trigger] bounds[i]).1 <= total,
    decreases bounds.len(),
{
    if bounds.len() > 1 {
        let head = bounds.drop_last();
        assert forall|i: int| 0 <= i < head.len() implies (#[trigger] head[i]).0 < head[i].1 by {
            assert(bounds[i].0 < bounds[i].1);
        }
        assert forall|i: int| 0 < i < head.len() implies (#[trigger] head[i]).0 == head[i
            - 1].1 by {
            assert(bounds[i].0 == bounds[i - 1].1);
        }
        assert(head.last() == bounds[bounds.len() - 2]);
        assert(bounds.last().0 == bounds[bounds.len() - 2].1);
        lemma_progress_monotone(head, head.last().1);
        assert forall|i: int, j: int|
            0 <= i < j < bounds.len() implies (#[trigger] bounds[i]).1 < (
        #[trigger] bounds[j]).1 by {
            if j < bounds.len() - 1 {
                assert(head[i].1 < head[j].1);
            } else {
                if i < bounds.len() - 2 {
                    assert(head[i].1 < head[head.len() - 1].1);
                }
                assert(bounds[bounds.len() - 2].1 < bounds[j].1);
            }
        }
        assert forall|i: int| 0 <= i < bounds.len() implies (#[trigger] bounds[i]).1 <= total by {
            if i < bounds.len() - 1 {
                assert(head[i].1 <= head.last().1);
            }
        }
    }
}

/// Whether a root that already holds indexed photos is skipped rather than
/// re-scanned: the deliberate no-rediff shortcut. Removed or changed files
/// under such a root are not detected.
pub fn should_skip_indexed_root(existing_count: u64) -> (r: bool)
    ensures
        r == (existing_count > 0),
{
    existing_count > 0
}

} // verus!
