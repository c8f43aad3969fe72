//! Byte-range chunks, the chunk map of a download and the work queue.

use crate::engine::select;
use crate::engine::speed;
use std::collections::HashMap;
use vstd::prelude::*;

verus! {

/// A worker's chunk is only split while more than this many bytes are left.
pub const MIN_STEAL_REMAINING: u64 = 2097152;

/// State of a single byte-range chunk.
#[derive(Debug, Clone, Copy, PartialEq, Eq, Structural)]
pub enum ChunkState {
    Pending,
    InFlight { worker_id: usize },
    Complete,
    Failed { attempts: u32 },
}

/// A single chunk / byte-range within a download.
#[derive(Debug, Clone, Copy)]
pub struct Chunk {
    pub index: usize,
    pub start: u64,
    /// Inclusive end byte
    pub end: u64,
    /// Bytes downloaded for this chunk so far (for resumption)
    pub downloaded: u64,
    pub state: ChunkState,
}

impl Chunk {
    /// The number of bytes from `start` to `end`, both included.
    pub open spec fn length(self) -> int {
        self.end - self.start + 1
    }

    /// The range is not empty.
    pub open spec fn is_ranged(self) -> bool {
        self.start <= self.end
    }

    /// The chunk of a file of unknown size: from the first byte to wherever the
    /// file ends. It is the one range whose length is no `u64`.
    pub open spec fn is_open(self) -> bool {
        self.start == 0 && self.end == u64::MAX
    }

    /// The range is not empty and its length is known.
    pub open spec fn is_sized(self) -> bool {
        self.is_ranged() && !self.is_open()
    }

    /// The bytes still to fetch; none once `downloaded` reaches the length. An
    /// open-ended chunk counts as long as can be.
    pub open spec fn left(self) -> int {
        if self.is_open() {
            u64::MAX - self.downloaded
        } else if self.downloaded < self.length() {
            self.length() - self.downloaded
        } else {
            0
        }
    }

    /// As many bytes as the range holds count as fetched; or, where it is
    /// open-ended, a worker has reached the end of the file.
    pub open spec fn done(self) -> bool {
        if self.is_open() {
            self.state is Complete
        } else {
            self.downloaded >= self.length()
        }
    }

    /// Byte `b` of the file belongs to this chunk.
    pub open spec fn holds(self, b: int) -> bool {
        self.start <= b <= self.end
    }

    pub fn len(&self) -> (n: u64)
        requires
            self.is_sized(),
        ensures
            n == self.length(),
    {
        self.end - self.start + 1
    }

    /// Whether the chunk has no known end.
    fn open_ended(&self) -> (r: bool)
        ensures
            r == self.is_open(),
    {
        self.start == 0 && self.end == u64::MAX
    }

    pub fn remaining(&self) -> (n: u64)
        requires
            self.is_ranged(),
        ensures
            n == self.left(),
    {
        if self.open_ended() {
            return u64::MAX - self.downloaded;
        }
        self.len().saturating_sub(self.downloaded)
    }

    pub fn is_complete(&self) -> (r: bool)
        requires
            self.is_ranged(),
        ensures
            r == self.done(),
    {
        if self.open_ended() {
            return matches!(self.state, ChunkState::Complete);
        }
        self.downloaded >= self.len()
    }

    /// Current offset into the file for the next read.
    pub fn current_offset(&self) -> (n: u64)
        requires
            self.start + self.downloaded <= u64::MAX,
        ensures
            n == self.start + self.downloaded,
    {
        self.start + self.downloaded
    }
}

/// No chunk's range is empty.
pub open spec fn all_ranged(chunks: Seq<Chunk>) -> bool {
    forall|i: int| 0 <= i < chunks.len() ==> (#[trigger] chunks[i]).is_ranged()
}

/// Every chunk has a length.
pub open spec fn all_sized(chunks: Seq<Chunk>) -> bool {
    forall|i: int| 0 <= i < chunks.len() ==> (#[trigger] chunks[i]).is_sized()
}

/// Each chunk's index is its position.
pub open spec fn indexed(chunks: Seq<Chunk>) -> bool {
    forall|i: int| 0 <= i < chunks.len() ==> (#[trigger] chunks[i]).index == i
}

/// The bytes downloaded over all chunks.
pub open spec fn sum_downloaded(chunks: Seq<Chunk>) -> int
    decreases chunks.len(),
{
    if chunks.len() == 0 {
        0
    } else {
        sum_downloaded(chunks.drop_last()) + chunks.last().downloaded
    }
}

/// The lengths of all chunks, added up.
pub open spec fn sum_lengths(chunks: Seq<Chunk>) -> int
    decreases chunks.len(),
{
    if chunks.len() == 0 {
        0
    } else {
        sum_lengths(chunks.drop_last()) + chunks.last().length()
    }
}

/// Some chunk holds byte `b`.
pub open spec fn covered(chunks: Seq<Chunk>, b: int) -> bool {
    exists|i: int| 0 <= i < chunks.len() && (#[trigger] chunks[i]).holds(b)
}

/// No byte belongs to two chunks.
pub open spec fn disjoint(chunks: Seq<Chunk>) -> bool {
    forall|i: int, j: int|
        0 <= i < j < chunks.len() ==> (#[trigger] chunks[i]).end < (#[trigger] chunks[j]).start
            || chunks[j].end < chunks[i].start
}

/// The chunks cover exactly the bytes `0..total`, each of them once.
pub open spec fn partitions(chunks: Seq<Chunk>, total: int) -> bool {
    &&& disjoint(chunks)
    &&& forall|b: int| #[trigger] covered(chunks, b) <==> 0 <= b < total
}

/// The size that `ChunkMap::new` gives every chunk but perhaps the last:
/// `total / n`, rounded up.
pub open spec fn chunk_size(total: int, n: int) -> int {
    (total + n - 1) / n
}

/// The number of chunks of `chunk_size(total, n)` bytes that `total` needs.
pub open spec fn chunk_count(total: int, n: int) -> int {
    (total + chunk_size(total, n) - 1) / chunk_size(total, n)
}

/// Chunk `i` of `total` bytes divided among `n`.
pub open spec fn nth_chunk(total: int, n: int, i: int) -> Chunk {
    let size = chunk_size(total, n);
    Chunk {
        index: i as usize,
        start: (i * size) as u64,
        end: if (i + 1) * size - 1 <= total - 1 {
            ((i + 1) * size - 1) as u64
        } else {
            (total - 1) as u64
        },
        downloaded: 0,
        state: ChunkState::Pending,
    }
}

/// The first pending chunk.
pub open spec fn first_pending(chunks: Seq<Chunk>) -> Option<int>
    decreases chunks.len(),
{
    if chunks.len() == 0 {
        None
    } else {
        match first_pending(chunks.drop_last()) {
            Some(i) => Some(i),
            None => if chunks.last().state is Pending {
                Some(chunks.len() - 1)
            } else {
                None
            },
        }
    }
}

/// The first chunk whose index is `index`.
pub open spec fn position(chunks: Seq<Chunk>, index: usize) -> Option<int>
    decreases chunks.len(),
{
    if chunks.len() == 0 {
        None
    } else {
        match position(chunks.drop_last(), index) {
            Some(i) => Some(i),
            None => if chunks.last().index == index {
                Some(chunks.len() - 1)
            } else {
                None
            },
        }
    }
}

/// The number of pending chunks.
pub open spec fn count_pending(chunks: Seq<Chunk>) -> nat {
    chunks.filter(|c: Chunk| c.state is Pending).len()
}

/// The full chunk map for a download.
#[derive(Debug)]
pub struct ChunkMap {
    pub chunks: Vec<Chunk>,
}

impl Clone for ChunkMap {
    fn clone(&self) -> (copy: Self)
        ensures
            copy.chunks@ == self.chunks@,
    {
        let chunks = self.chunks.clone();
        assert(chunks@ =~= self.chunks@);
        ChunkMap { chunks }
    }
}

impl ChunkMap {
    /// Divide `total_bytes` into `n` roughly-equal chunks.
    pub fn new(total_bytes: u64, n: usize) -> (map: Self)
        requires
            0 < total_bytes,
            0 < n,
            total_bytes + n - 1 <= u64::MAX,
        ensures
            map.chunks@.len() == chunk_count(total_bytes as int, n as int),
            map.chunks@.len() <= n,
            forall|i: int|
                0 <= i < map.chunks@.len() ==> #[trigger] map.chunks@[i] == nth_chunk(
                    total_bytes as int,
                    n as int,
                    i,
                ),
    {
        let parts: u64 = n as u64;
        let size: u64 = (total_bytes + (parts - 1)) / parts;
        let mut chunks: Vec<Chunk> = Vec::new();
        let mut i: usize = 0;
        proof {
            division_bounds(total_bytes as int, n as int);
        }
        while i < n
            invariant_except_break
                i <= n,
                chunks@.len() == i,
                i * size < total_bytes || i == chunk_count(total_bytes as int, n as int),
            invariant
                0 < total_bytes,
                0 < n,
                n == parts,
                total_bytes + n - 1 <= u64::MAX,
                size == chunk_size(total_bytes as int, n as int),
                0 < size,
                n * size <= total_bytes + n - 1,
                i <= chunk_count(total_bytes as int, n as int) <= n,
                forall|k: int|
                    0 <= k < chunks@.len() ==> #[trigger] chunks@[k] == nth_chunk(
                        total_bytes as int,
                        n as int,
                        k,
                    ),
            ensures
                chunks@.len() == chunk_count(total_bytes as int, n as int),
            decreases n - i,
        {
            assert((i + 1) * size == i * size + size) by (nonlinear_arith);
            assert((i + 1) * size <= n * size) by (nonlinear_arith)
                requires
                    i + 1 <= n,
                    0 < size,
            ;
            proof {
                lemma_chunk_start(total_bytes as int, n as int, i as int);
                lemma_chunk_start(total_bytes as int, n as int, i + 1);
            }
            let start: u64 = i as u64 * size;
            let next: u64 = (i as u64 + 1) * size;
            let end: u64 = if next - 1 <= total_bytes - 1 {
                next - 1
            } else {
                total_bytes - 1
            };
            if start > total_bytes - 1 {
                break;
            }
            chunks.push(Chunk { index: i, start, end, downloaded: 0, state: ChunkState::Pending });
            i += 1;
        }
        ChunkMap { chunks }
    }

    /// Single-chunk map for servers that don't support range requests.
    pub fn single(total_bytes: u64) -> (map: Self)
        ensures
            map.chunks@ == seq![
                Chunk {
                    index: 0,
                    start: 0,
                    end: if total_bytes == 0 {
                        0
                    } else {
                        (total_bytes - 1) as u64
                    },
                    downloaded: 0,
                    state: ChunkState::Pending,
                },
            ],
    {
        ChunkMap {
            chunks: vec![
                Chunk {
                    index: 0,
                    start: 0,
                    end: total_bytes.saturating_sub(1),
                    downloaded: 0,
                    state: ChunkState::Pending,
                },
            ],
        }
    }

    /// Unknown size: one open-ended chunk.
    pub fn unknown() -> (map: Self)
        ensures
            map.chunks@ == seq![
                Chunk {
                    index: 0,
                    start: 0,
                    end: u64::MAX,
                    downloaded: 0,
                    state: ChunkState::Pending,
                },
            ],
    {
        ChunkMap {
            chunks: vec![
                Chunk {
                    index: 0,
                    start: 0,
                    end: u64::MAX,
                    downloaded: 0,
                    state: ChunkState::Pending,
                },
            ],
        }
    }

    /// The bytes downloaded over all chunks, or the largest number there is.
    pub fn downloaded_so_far(&self) -> (n: u64)
        ensures
            n == (if sum_downloaded(self.chunks@) <= u64::MAX {
                sum_downloaded(self.chunks@)
            } else {
                u64::MAX as int
            }),
    {
        let mut total: u64 = 0;
        let mut i: usize = 0;
        while i < self.chunks.len()
            invariant
                i <= self.chunks@.len(),
                0 <= sum_downloaded(self.chunks@.take(i as int)),
                total == (if sum_downloaded(self.chunks@.take(i as int)) <= u64::MAX {
                    sum_downloaded(self.chunks@.take(i as int))
                } else {
                    u64::MAX as int
                }),
            decreases self.chunks@.len() - i,
        {
            assert(self.chunks@.take(i + 1).drop_last() =~= self.chunks@.take(i as int));
            total = total.saturating_add(self.chunks[i].downloaded);
            i += 1;
        }
        assert(self.chunks@.take(i as int) =~= self.chunks@);
        total
    }

    pub fn total_downloaded(&self) -> (n: u64)
        requires
            sum_downloaded(self.chunks@) <= u64::MAX,
        ensures
            n == sum_downloaded(self.chunks@),
    {
        let mut total: u64 = 0;
        let mut i: usize = 0;
        while i < self.chunks.len()
            invariant
                i <= self.chunks@.len(),
                sum_downloaded(self.chunks@) <= u64::MAX,
                total == sum_downloaded(self.chunks@.take(i as int)),
            decreases self.chunks@.len() - i,
        {
            proof {
                lemma_sum_downloaded_prefix(self.chunks@, i as int + 1);
                assert(self.chunks@.take(i + 1).drop_last() =~= self.chunks@.take(i as int));
            }
            total = total + self.chunks[i].downloaded;
            i += 1;
        }
        assert(self.chunks@.take(i as int) =~= self.chunks@);
        total
    }

    pub fn all_complete(&self) -> (r: bool)
        requires
            all_ranged(self.chunks@),
        ensures
            r <==> (forall|i: int|
                0 <= i < self.chunks@.len() ==> (#[trigger] self.chunks@[i]).done()),
    {
        let mut i: usize = 0;
        while i < self.chunks.len()
            invariant
                i <= self.chunks@.len(),
                all_ranged(self.chunks@),
                forall|k: int| 0 <= k < i ==> (#[trigger] self.chunks@[k]).done(),
            decreases self.chunks@.len() - i,
        {
            if !self.chunks[i].is_complete() {
                return false;
            }
            i += 1;
        }
        true
    }

    pub fn pending_count(&self) -> (n: usize)
        ensures
            n == count_pending(self.chunks@),
    {
        let mut n: usize = 0;
        let mut i: usize = 0;
        while i < self.chunks.len()
            invariant
                i <= self.chunks@.len(),
                n <= i,
                n == count_pending(self.chunks@.take(i as int)),
            decreases self.chunks@.len() - i,
        {
            proof {
                reveal(Seq::filter);
                assert(self.chunks@.take(i + 1).drop_last() =~= self.chunks@.take(i as int));
            }
            if matches!(self.chunks[i].state, ChunkState::Pending) {
                n += 1;
            }
            i += 1;
        }
        assert(self.chunks@.take(i as int) =~= self.chunks@);
        n
    }
}

/// Adding a chunk adds its length.
proof fn lemma_sum_lengths_push(chunks: Seq<Chunk>, c: Chunk)
    ensures
        sum_lengths(chunks.push(c)) == sum_lengths(chunks) + c.length(),
{
    assert(chunks.push(c).drop_last() =~= chunks);
}

/// Replacing one chunk changes the sum by the difference of the two lengths.
proof fn lemma_sum_lengths_update(chunks: Seq<Chunk>, i: int, c: Chunk)
    requires
        0 <= i < chunks.len(),
    ensures
        sum_lengths(chunks.update(i, c)) == sum_lengths(chunks) - chunks[i].length() + c.length(),
    decreases chunks.len(),
{
    let changed = chunks.update(i, c);
    if i == chunks.len() - 1 {
        assert(changed.drop_last() =~= chunks.drop_last());
    } else {
        assert(changed.drop_last() =~= chunks.drop_last().update(i, c));
        lemma_sum_lengths_update(chunks.drop_last(), i, c);
    }
}

proof fn lemma_first_pending(chunks: Seq<Chunk>)
    ensures
        first_pending(chunks) is None <==> (forall|j: int|
            0 <= j < chunks.len() ==> !((#[trigger] chunks[j]).state is Pending)),
        first_pending(chunks) matches Some(i) ==> {
            &&& 0 <= i < chunks.len()
            &&& chunks[i].state is Pending
            &&& forall|j: int| 0 <= j < i ==> !((#[trigger] chunks[j]).state is Pending)
        },
    decreases chunks.len(),
{
    if chunks.len() > 0 {
        let front = chunks.drop_last();
        lemma_first_pending(front);
        assert(forall|j: int| 0 <= j < front.len() ==> front[j] == chunks[j]);
    }
}

/// What `held_by` finds is in the worker's hands, and nothing before it is.
pub proof fn held_by_is_first(chunks: Seq<Chunk>, worker_id: usize)
    ensures
        held_by(chunks, worker_id) is None <==> (forall|j: int|
            0 <= j < chunks.len() ==> worker_of(#[trigger] chunks[j]) != Some(worker_id)),
        held_by(chunks, worker_id) matches Some(i) ==> {
            &&& 0 <= i < chunks.len()
            &&& worker_of(chunks[i]) == Some(worker_id)
            &&& forall|j: int| 0 <= j < i ==> worker_of(#[trigger] chunks[j]) != Some(worker_id)
        },
    decreases chunks.len(),
{
    if chunks.len() > 0 {
        let front = chunks.drop_last();
        held_by_is_first(front, worker_id);
        assert(forall|j: int| 0 <= j < front.len() ==> front[j] == chunks[j]);
    }
}

/// Replacing a chunk changes the number in flight by what the two differ.
pub proof fn in_flight_after_update(chunks: Seq<Chunk>, i: int, c: Chunk)
    requires
        0 <= i < chunks.len(),
    ensures
        in_flight(chunks.update(i, c)) == in_flight(chunks) - (if chunks[i].state is InFlight {
            1int
        } else {
            0
        }) + (if c.state is InFlight {
            1int
        } else {
            0
        }),
    decreases chunks.len(),
{
    let changed = chunks.update(i, c);
    if i == chunks.len() - 1 {
        assert(changed.drop_last() =~= chunks.drop_last());
    } else {
        assert(changed.drop_last() =~= chunks.drop_last().update(i, c));
        in_flight_after_update(chunks.drop_last(), i, c);
    }
}

/// Adding a chunk in flight raises the number by one.
pub proof fn in_flight_after_push(chunks: Seq<Chunk>, c: Chunk)
    requires
        c.state is InFlight,
    ensures
        in_flight(chunks.push(c)) == in_flight(chunks) + 1,
{
    assert(chunks.push(c).drop_last() =~= chunks);
}

/// The number in flight depends on the states alone.
pub proof fn in_flight_depends_on_states(a: Seq<Chunk>, b: Seq<Chunk>)
    requires
        a.len() == b.len(),
        forall|i: int|
            0 <= i < a.len() ==> ((#[trigger] a[i]).state is InFlight <==> (
            #[trigger] b[i]).state is InFlight),
    ensures
        in_flight(a) == in_flight(b),
    decreases a.len(),
{
    if a.len() > 0 {
        assert forall|i: int| 0 <= i < a.len() - 1 implies (#[trigger] a.drop_last()[i].state
            is InFlight <==> #[trigger] b.drop_last()[i].state is InFlight) by {
            assert(a[i].state is InFlight <==> b[i].state is InFlight);
        }
        in_flight_depends_on_states(a.drop_last(), b.drop_last());
        assert(a[a.len() - 1].state is InFlight <==> b[a.len() - 1].state is InFlight);
    }
}

/// What `first_failed` finds has failed, and nothing before it has.
pub proof fn first_failed_is_first(chunks: Seq<Chunk>)
    ensures
        first_failed(chunks) is None <==> (forall|j: int|
            0 <= j < chunks.len() ==> !((#[trigger] chunks[j]).state is Failed)),
        first_failed(chunks) matches Some(i) ==> {
            &&& 0 <= i < chunks.len()
            &&& chunks[i].state is Failed
            &&& forall|j: int| 0 <= j < i ==> !((#[trigger] chunks[j]).state is Failed)
        },
    decreases chunks.len(),
{
    if chunks.len() > 0 {
        let front = chunks.drop_last();
        first_failed_is_first(front);
        assert(forall|j: int| 0 <= j < front.len() ==> front[j] == chunks[j]);
    }
}

/// What `position` finds has the index, and nothing before it has.
pub proof fn position_is_first(chunks: Seq<Chunk>, index: usize)
    ensures
        position(chunks, index) is None <==> (forall|j: int|
            0 <= j < chunks.len() ==> (#[trigger] chunks[j]).index != index),
        position(chunks, index) matches Some(i) ==> {
            &&& 0 <= i < chunks.len()
            &&& chunks[i].index == index
            &&& forall|j: int| 0 <= j < i ==> (#[trigger] chunks[j]).index != index
        },
    decreases chunks.len(),
{
    if chunks.len() > 0 {
        let front = chunks.drop_last();
        position_is_first(front, index);
        assert(forall|j: int| 0 <= j < front.len() ==> front[j] == chunks[j]);
    }
}

/// The bounds that dividing `total` among `n` keeps to.
pub proof fn division_bounds(total: int, n: int)
    requires
        0 < total,
        0 < n,
    ensures
        0 < chunk_size(total, n) <= total,
        total <= n * chunk_size(total, n) <= total + n - 1,
        0 < chunk_count(total, n) <= n,
{
    let size = chunk_size(total, n);
    assert(total <= n * size <= total + n - 1 && 0 < size <= total) by (nonlinear_arith)
        requires
            0 < total,
            0 < n,
            size == (total + n - 1) / n,
    ;
    let count = chunk_count(total, n);
    assert(0 < count <= n) by (nonlinear_arith)
        requires
            0 < total,
            0 < n,
            0 < size,
            total <= n * size,
            count == (total + size - 1) / size,
    ;
}

/// Chunk `i` starts inside the file exactly if it is one of the `chunk_count`.
proof fn lemma_chunk_start(total: int, n: int, i: int)
    requires
        0 < total,
        0 < n,
        0 <= i,
    ensures
        i * chunk_size(total, n) < total <==> i < chunk_count(total, n),
{
    division_bounds(total, n);
    let size = chunk_size(total, n);
    let count = chunk_count(total, n);
    assert(i * size < total <==> i < count) by (nonlinear_arith)
        requires
            0 < total,
            0 < size,
            count == (total + size - 1) / size,
    ;
}

proof fn lemma_sum_downloaded_prefix(chunks: Seq<Chunk>, k: int)
    requires
        0 <= k <= chunks.len(),
    ensures
        sum_downloaded(chunks.take(k)) <= sum_downloaded(chunks),
    decreases chunks.len(),
{
    if k == chunks.len() {
        assert(chunks.take(k) =~= chunks);
    } else {
        lemma_sum_downloaded_prefix(chunks.drop_last(), k);
        assert(chunks.drop_last().take(k) =~= chunks.take(k));
    }
}

// ─── Work-stealing queue ─────────────────────────────────────────────────────

/// What the work queue holds.
pub struct QueueView {
    pub chunks: Seq<Chunk>,
    /// Total bytes written, counted modulo 2^64
    pub written: u64,
    /// The speed last recorded for each worker
    pub speeds: Map<usize, u64>,
    /// How often each chunk has failed so far, by index
    pub failures: Map<usize, u32>,
}

/// Work queue that supports work stealing.
///
/// Workers own a chunk index. When they finish early they can steal
/// from the peer that needs the longest to finish, by splitting its chunk.
///
/// Work stealing uses remaining time (not bytes) as the metric:
/// `remaining_time = remaining_bytes / current_speed`
#[derive(Debug)]
pub struct WorkQueue {
    pub inner: ChunkMap,
    /// Counter of total bytes written, used for speed sampling
    pub bytes_written: u64,
    /// Per-worker speed tracking for intelligent work stealing
    pub worker_speeds: HashMap<usize, u64>,
    /// Failed attempts per chunk, kept over retries
    pub failures: HashMap<usize, u32>,
}

impl View for WorkQueue {
    type V = QueueView;

    open spec fn view(&self) -> QueueView {
        QueueView {
            chunks: self.inner.chunks@,
            written: self.bytes_written,
            speeds: self.worker_speeds@,
            failures: self.failures@,
        }
    }
}

/// The key by which a chunk is claimed out of order: pending chunks only, by
/// the bytes left.
pub open spec fn claim_key(c: Chunk) -> Option<int> {
    if c.state is Pending {
        Some(c.left())
    } else {
        None
    }
}

/// The chunk that is claimed next.
pub open spec fn claim_target(chunks: Seq<Chunk>, sequential: bool) -> Option<int> {
    if sequential {
        first_pending(chunks)
    } else {
        select::last_max(chunks.map_values(|c: Chunk| claim_key(c)))
    }
}

/// The queue with chunk `i` handed to `worker_id`.
pub open spec fn assigned(chunks: Seq<Chunk>, i: int, worker_id: usize) -> Seq<Chunk> {
    chunks.update(i, Chunk { state: ChunkState::InFlight { worker_id }, ..chunks[i] })
}

/// The speed that the steal metric uses for a worker: 1 if none is recorded.
pub open spec fn metric_speed(speeds: Map<usize, u64>, worker_id: usize) -> u64 {
    if speeds.contains_key(worker_id) {
        speeds[worker_id]
    } else {
        1
    }
}

/// The key by which a chunk is stolen: chunks in flight with a known end and more
/// than `MIN_STEAL_REMAINING` bytes left, by the time left; a stalled worker
/// counts as the longest time there is.
pub open spec fn steal_key(c: Chunk, speeds: Map<usize, u64>) -> Option<int> {
    match c.state {
        ChunkState::InFlight { worker_id } => if !c.is_open() && c.left() > MIN_STEAL_REMAINING {
            let speed = metric_speed(speeds, worker_id);
            Some(
                if speed == 0 {
                    u64::MAX as int
                } else {
                    c.left() / (speed as int)
                },
            )
        } else {
            None
        },
        _ => None,
    }
}

/// The chunk that is split next.
pub open spec fn steal_target(q: QueueView) -> Option<int> {
    select::last_max(q.chunks.map_values(|c: Chunk| steal_key(c, q.speeds)))
}

/// The first byte of the half that a thief takes of `c`.
pub open spec fn split_point(c: Chunk) -> int {
    c.start + c.downloaded + c.left() / 2
}

/// The second half of chunk `i`, as the new last chunk, in the thief's hands.
pub open spec fn stolen_half(chunks: Seq<Chunk>, i: int, thief: usize) -> Chunk {
    Chunk {
        index: chunks.len() as usize,
        start: split_point(chunks[i]) as u64,
        end: chunks[i].end,
        downloaded: 0,
        state: ChunkState::InFlight { worker_id: thief },
    }
}

/// The queue after chunk `i` was split for `thief`.
pub open spec fn after_steal(chunks: Seq<Chunk>, i: int, thief: usize) -> Seq<Chunk> {
    chunks.update(
        i,
        Chunk { end: (split_point(chunks[i]) - 1) as u64, ..chunks[i] },
    ).push(stolen_half(chunks, i, thief))
}

/// The bytes that a chunk counts as downloaded once a worker has finished it: its
/// length, or, where that is not known, what was fetched.
pub open spec fn size_when_complete(c: Chunk, bytes: u64) -> u64 {
    if !c.is_open() {
        c.length() as u64
    } else if bytes > c.downloaded {
        bytes
    } else {
        c.downloaded
    }
}

/// The queue after the chunk with this index was completed with `bytes`.
pub open spec fn after_complete(q: QueueView, index: usize, bytes: u64) -> QueueView {
    let counted = QueueView { written: speed::counter_add(q.written, bytes), ..q };
    match position(q.chunks, index) {
        Some(i) => QueueView {
            chunks: q.chunks.update(
                i,
                Chunk {
                    downloaded: size_when_complete(q.chunks[i], bytes),
                    state: ChunkState::Complete,
                    ..q.chunks[i]
                },
            ),
            ..counted
        },
        None => counted,
    }
}

/// The queue after `bytes_so_far` were reported for the chunk with this index:
/// the counter grows by what is new.
pub open spec fn after_progress(q: QueueView, index: usize, bytes_so_far: u64) -> QueueView {
    match position(q.chunks, index) {
        Some(i) => QueueView {
            chunks: q.chunks.update(i, Chunk { downloaded: bytes_so_far, ..q.chunks[i] }),
            written: speed::counter_add(
                q.written,
                speed::growth(q.chunks[i].downloaded, bytes_so_far) as u64,
            ),
            ..q
        },
        None => q,
    }
}

/// How often the chunk has failed so far.
pub open spec fn failures_of(c: Chunk, failures: Map<usize, u32>) -> u32 {
    match c.state {
        ChunkState::Failed { attempts } => attempts,
        _ => if failures.contains_key(c.index) {
            failures[c.index]
        } else {
            0
        },
    }
}

/// A failure report counts for this chunk: it is being fetched, or it failed
/// already.
pub open spec fn can_fail(c: Chunk) -> bool {
    c.state is InFlight || c.state is Failed
}

/// The queue after one more failed attempt on chunk `i`.
pub open spec fn failed_once_more(q: QueueView, i: int) -> QueueView {
    let c = q.chunks[i];
    if can_fail(c) {
        let attempts = speed::one_more(failures_of(c, q.failures));
        QueueView {
            chunks: q.chunks.update(i, Chunk { state: ChunkState::Failed { attempts }, ..c }),
            failures: q.failures.insert(c.index, attempts),
            ..q
        }
    } else {
        q
    }
}

/// The queue after a failure of the chunk with this index.
pub open spec fn after_failed(q: QueueView, index: usize) -> QueueView {
    match position(q.chunks, index) {
        Some(i) => failed_once_more(q, i),
        None => q,
    }
}

/// The queue after the failures that may be retried were cleared.
pub open spec fn after_reset(q: QueueView, max_attempts: u32) -> QueueView {
    QueueView { chunks: q.chunks.map_values(|c: Chunk| retried(c, max_attempts)), ..q }
}

/// The worker that has the chunk in hand.
pub open spec fn worker_of(c: Chunk) -> Option<usize> {
    match c.state {
        ChunkState::InFlight { worker_id } => Some(worker_id),
        _ => None,
    }
}

/// The number of chunks in flight.
pub open spec fn in_flight(chunks: Seq<Chunk>) -> nat
    decreases chunks.len(),
{
    if chunks.len() == 0 {
        0
    } else {
        in_flight(chunks.drop_last()) + if chunks.last().state is InFlight {
            1nat
        } else {
            0nat
        }
    }
}

/// The first chunk that the worker has in hand.
pub open spec fn held_by(chunks: Seq<Chunk>, worker_id: usize) -> Option<int>
    decreases chunks.len(),
{
    if chunks.len() == 0 {
        None
    } else {
        match held_by(chunks.drop_last(), worker_id) {
            Some(i) => Some(i),
            None => if worker_of(chunks.last()) == Some(worker_id) {
                Some(chunks.len() - 1)
            } else {
                None
            },
        }
    }
}

/// The queue after a worker's chunk was taken back: it is pending again, and what
/// was downloaded of it stays.
pub open spec fn after_hand_back(q: QueueView, worker_id: usize) -> QueueView {
    match held_by(q.chunks, worker_id) {
        Some(i) => QueueView {
            chunks: q.chunks.update(i, Chunk { state: ChunkState::Pending, ..q.chunks[i] }),
            ..q
        },
        None => q,
    }
}

/// The recorded speed of the worker that has the chunk in hand.
pub open spec fn speed_on(c: Chunk, speeds: Map<usize, u64>) -> Option<u64> {
    match worker_of(c) {
        Some(w) => if speeds.contains_key(w) {
            Some(speeds[w])
        } else {
            None
        },
        None => None,
    }
}

/// The recorded speeds of the workers at work, in the order of their chunks.
pub open spec fn working_speeds(chunks: Seq<Chunk>, speeds: Map<usize, u64>) -> Seq<u64>
    decreases chunks.len(),
{
    if chunks.len() == 0 {
        Seq::empty()
    } else {
        let before = working_speeds(chunks.drop_last(), speeds);
        match speed_on(chunks.last(), speeds) {
            Some(speed) => before.push(speed),
            None => before,
        }
    }
}

/// The workers at work whose recorded speed is below the threshold, in the order
/// of their chunks.
pub open spec fn slow_workers_of(
    chunks: Seq<Chunk>,
    speeds: Map<usize, u64>,
    threshold: u64,
) -> Seq<usize>
    decreases chunks.len(),
{
    if chunks.len() == 0 {
        Seq::empty()
    } else {
        let before = slow_workers_of(chunks.drop_last(), speeds, threshold);
        match speed_on(chunks.last(), speeds) {
            Some(speed) if speed < threshold => before.push(worker_of(chunks.last())->0),
            _ => before,
        }
    }
}

/// The first chunk that has failed.
pub open spec fn first_failed(chunks: Seq<Chunk>) -> Option<int>
    decreases chunks.len(),
{
    if chunks.len() == 0 {
        None
    } else {
        match first_failed(chunks.drop_last()) {
            Some(i) => Some(i),
            None => if chunks.last().state is Failed {
                Some(chunks.len() - 1)
            } else {
                None
            },
        }
    }
}

/// The chunk failed and may be tried again.
pub open spec fn retriable(c: Chunk, max_attempts: u32) -> bool {
    c.state matches ChunkState::Failed { attempts } && attempts <= max_attempts
}

/// A chunk after a retriable failure was cleared.
pub open spec fn retried(c: Chunk, max_attempts: u32) -> Chunk {
    if retriable(c, max_attempts) {
        Chunk { state: ChunkState::Pending, ..c }
    } else {
        c
    }
}

impl WorkQueue {
    pub fn new(map: ChunkMap) -> (queue: Self)
        ensures
            queue@.chunks == map.chunks@,
            queue@.written == 0,
            queue@.speeds == Map::<usize, u64>::empty(),
            queue@.failures == Map::<usize, u32>::empty(),
    {
        WorkQueue {
            inner: map,
            bytes_written: 0,
            worker_speeds: HashMap::new(),
            failures: HashMap::new(),
        }
    }

    /// Update the recorded speed for a worker.
    pub fn update_worker_speed(&mut self, worker_id: usize, speed_bps: u64)
        ensures
            final(self)@ == (QueueView {
                speeds: old(self)@.speeds.insert(worker_id, speed_bps),
                ..old(self)@
            }),
    {
        self.worker_speeds.insert(worker_id, speed_bps);
    }

    /// Get the current speed for a worker; 0 if none is recorded.
    pub fn get_worker_speed(&self, worker_id: usize) -> (speed: u64)
        ensures
            speed == (if self@.speeds.contains_key(worker_id) {
                self@.speeds[worker_id]
            } else {
                0
            }),
    {
        match self.worker_speeds.get(&worker_id) {
            Some(speed) => *speed,
            None => 0,
        }
    }

    /// Claim the next pending chunk for `worker_id`.
    /// In sequential mode, always returns the lowest-index pending chunk;
    /// otherwise the one with the most bytes left.
    pub fn claim_next(&mut self, worker_id: usize, sequential: bool) -> (claimed: Option<Chunk>)
        requires
            !sequential ==> forall|i: int|
                0 <= i < old(self)@.chunks.len() && old(self)@.chunks[i].state is Pending
                    ==> (#[trigger] old(self)@.chunks[i]).is_ranged(),
        ensures
            match claim_target(old(self)@.chunks, sequential) {
                Some(i) => {
                    &&& 0 <= i < old(self)@.chunks.len()
                    &&& old(self)@.chunks[i].state is Pending
                    &&& final(self)@ == (QueueView {
                        chunks: assigned(old(self)@.chunks, i, worker_id),
                        ..old(self)@
                    })
                    &&& claimed == Some(final(self)@.chunks[i])
                },
                None => claimed is None && final(self)@ == old(self)@,
            },
    {
        let target = if sequential {
            self.find_pending()
        } else {
            self.find_largest_pending()
        };
        match target {
            Some(i) => {
                let mut chunk = self.inner.chunks[i];
                chunk.state = ChunkState::InFlight { worker_id };
                self.inner.chunks.set(i, chunk);
                Some(chunk)
            },
            None => None,
        }
    }

    fn find_pending(&self) -> (r: Option<usize>)
        ensures
            match r {
                Some(i) => {
                    &&& first_pending(self@.chunks) == Some(i as int)
                    &&& i < self@.chunks.len()
                    &&& self@.chunks[i as int].state is Pending
                },
                None => first_pending(self@.chunks) is None,
            },
    {
        proof {
            lemma_first_pending(self.inner.chunks@);
        }
        let mut i: usize = 0;
        while i < self.inner.chunks.len()
            invariant
                i <= self.inner.chunks@.len(),
                first_pending(self.inner.chunks@) matches Some(k) ==> k >= i,
                forall|j: int|
                    0 <= j < i ==> !((#[trigger] self.inner.chunks@[j]).state is Pending),
            decreases self.inner.chunks@.len() - i,
        {
            proof {
                lemma_first_pending(self.inner.chunks@);
            }
            if matches!(self.inner.chunks[i].state, ChunkState::Pending) {
                return Some(i);
            }
            i += 1;
        }
        None
    }

    fn find_largest_pending(&self) -> (r: Option<usize>)
        requires
            forall|i: int|
                0 <= i < self@.chunks.len() && self@.chunks[i].state is Pending ==> (
                #[trigger] self@.chunks[i]).is_ranged(),
        ensures
            match r {
                Some(i) => {
                    &&& claim_target(self@.chunks, false) == Some(i as int)
                    &&& i < self@.chunks.len()
                    &&& self@.chunks[i as int].state is Pending
                },
                None => claim_target(self@.chunks, false) is None,
            },
    {
        let ghost keys = self.inner.chunks@.map_values(|c: Chunk| claim_key(c));
        let mut best: Option<usize> = None;
        let mut best_left: u64 = 0;
        let mut i: usize = 0;
        while i < self.inner.chunks.len()
            invariant
                i <= self.inner.chunks@.len(),
                keys == self.inner.chunks@.map_values(|c: Chunk| claim_key(c)),
                forall|k: int|
                    0 <= k < self@.chunks.len() && self@.chunks[k].state is Pending ==> (
                    #[trigger] self@.chunks[k]).is_ranged(),
                match best {
                    Some(b) => {
                        &&& select::last_max(keys.take(i as int)) == Some(b as int)
                        &&& b < i
                        &&& self.inner.chunks@[b as int].state is Pending
                        &&& best_left == self.inner.chunks@[b as int].left()
                    },
                    None => select::last_max(keys.take(i as int)) is None,
                },
            decreases self.inner.chunks@.len() - i,
        {
            proof {
                assert(keys.take(i + 1).drop_last() =~= keys.take(i as int));
                assert(keys.take(i + 1).last() == claim_key(self.inner.chunks@[i as int]));
                assert(self@.chunks[i as int] == self.inner.chunks@[i as int]);
            }
            let chunk = self.inner.chunks[i];
            if matches!(chunk.state, ChunkState::Pending) {
                let left: u64 = chunk.remaining();
                if best.is_none() || left >= best_left {
                    best = Some(i);
                    best_left = left;
                }
            }
            i += 1;
        }
        proof {
            assert(keys.take(i as int) =~= keys);
            select::last_max_is_best(keys);
        }
        best
    }

    /// Work stealing: split the chunk with the highest remaining time and hand the
    /// second half to `thief_worker_id`. Returns the stolen sub-chunk.
    ///
    /// The steal priority metric is: `remaining_time = remaining_bytes / speed`
    /// This ensures we steal from slow connections, not just large chunks.
    pub fn steal(&mut self, thief_worker_id: usize) -> (stolen: Option<Chunk>)
        requires
            forall|i: int|
                0 <= i < old(self)@.chunks.len() && old(self)@.chunks[i].state is InFlight ==> (
                #[trigger] old(self)@.chunks[i]).is_ranged(),
        ensures
            match steal_target(old(self)@) {
                Some(i) => {
                    &&& 0 <= i < old(self)@.chunks.len()
                    &&& steal_key(old(self)@.chunks[i], old(self)@.speeds) is Some
                    &&& old(self)@.chunks[i].start < split_point(old(self)@.chunks[i])
                        <= old(self)@.chunks[i].end
                    &&& final(self)@ == (QueueView {
                        chunks: after_steal(old(self)@.chunks, i, thief_worker_id),
                        ..old(self)@
                    })
                    &&& stolen == Some(final(self)@.chunks.last())
                },
                None => stolen is None && final(self)@ == old(self)@,
            },
    {
        let target = self.find_steal_target();
        match target {
            Some(i) => {
                let original = self.inner.chunks[i];
                let left: u64 = original.remaining();
                let middle: u64 = original.current_offset() + left / 2;
                let stolen = Chunk {
                    index: self.inner.chunks.len(),
                    start: middle,
                    end: original.end,
                    downloaded: 0,
                    state: ChunkState::InFlight { worker_id: thief_worker_id },
                };
                let mut kept = original;
                kept.end = middle - 1;
                self.inner.chunks.set(i, kept);
                self.inner.chunks.push(stolen);
                Some(stolen)
            },
            None => None,
        }
    }

    fn find_steal_target(&self) -> (r: Option<usize>)
        requires
            forall|i: int|
                0 <= i < self@.chunks.len() && self@.chunks[i].state is InFlight ==> (
                #[trigger] self@.chunks[i]).is_ranged(),
        ensures
            match r {
                Some(i) => {
                    &&& steal_target(self@) == Some(i as int)
                    &&& i < self@.chunks.len()
                    &&& steal_key(self@.chunks[i as int], self@.speeds) is Some
                },
                None => steal_target(self@) is None,
            },
    {
        let ghost keys = self@.chunks.map_values(|c: Chunk| steal_key(c, self@.speeds));
        let mut best: Option<usize> = None;
        let mut best_time: u64 = 0;
        let mut i: usize = 0;
        while i < self.inner.chunks.len()
            invariant
                i <= self.inner.chunks@.len(),
                keys == self@.chunks.map_values(|c: Chunk| steal_key(c, self@.speeds)),
                forall|k: int|
                    0 <= k < self@.chunks.len() && self@.chunks[k].state is InFlight ==> (
                    #[trigger] self@.chunks[k]).is_ranged(),
                match best {
                    Some(b) => {
                        &&& select::last_max(keys.take(i as int)) == Some(b as int)
                        &&& b < i
                        &&& steal_key(self@.chunks[b as int], self@.speeds) == Some(
                            best_time as int,
                        )
                    },
                    None => select::last_max(keys.take(i as int)) is None,
                },
            decreases self.inner.chunks@.len() - i,
        {
            proof {
                assert(keys.take(i + 1).drop_last() =~= keys.take(i as int));
                assert(self@.chunks[i as int] == self.inner.chunks@[i as int]);
                assert(keys.take(i + 1).last() == steal_key(self@.chunks[i as int], self@.speeds));
            }
            let chunk = self.inner.chunks[i];
            match chunk.state {
                ChunkState::InFlight { worker_id } => {
                    let left: u64 = chunk.remaining();
                    if !chunk.open_ended() && left > MIN_STEAL_REMAINING {
                        let speed: u64 = match self.worker_speeds.get(&worker_id) {
                            Some(speed) => *speed,
                            None => 1,
                        };
                        let time: u64 = if speed == 0 {
                            u64::MAX
                        } else {
                            left / speed
                        };
                        if best.is_none() || time >= best_time {
                            best = Some(i);
                            best_time = time;
                        }
                    }
                },
                _ => {},
            }
            i += 1;
        }
        proof {
            assert(keys.take(i as int) =~= keys);
            select::last_max_is_best(keys);
        }
        best
    }

    fn find(&self, chunk_index: usize) -> (r: Option<usize>)
        ensures
            match r {
                Some(i) => {
                    &&& position(self@.chunks, chunk_index) == Some(i as int)
                    &&& i < self@.chunks.len()
                },
                None => position(self@.chunks, chunk_index) is None,
            },
    {
        let mut i: usize = 0;
        proof {
            position_is_first(self.inner.chunks@, chunk_index);
        }
        while i < self.inner.chunks.len()
            invariant
                i <= self.inner.chunks@.len(),
                position(self.inner.chunks@, chunk_index) matches Some(k) ==> k >= i,
                forall|j: int| 0 <= j < i ==> (#[trigger] self.inner.chunks@[j]).index
                    != chunk_index,
            decreases self.inner.chunks@.len() - i,
        {
            proof {
                position_is_first(self.inner.chunks@, chunk_index);
            }
            if self.inner.chunks[i].index == chunk_index {
                return Some(i);
            }
            i += 1;
        }
        None
    }

    /// Mark a chunk as complete and add its bytes to the counter. The chunk counts
    /// as fetched whole, whatever number of bytes is given.
    pub fn mark_complete(&mut self, chunk_index: usize, bytes: u64)
        requires
            position(old(self)@.chunks, chunk_index) matches Some(i)
                ==> old(self)@.chunks[i].is_ranged(),
        ensures
            final(self)@ == after_complete(old(self)@, chunk_index, bytes),
    {
        match self.find(chunk_index) {
            Some(i) => {
                let mut chunk = self.inner.chunks[i];
                if !chunk.open_ended() {
                    chunk.downloaded = chunk.len();
                } else if bytes > chunk.downloaded {
                    chunk.downloaded = bytes;
                }
                chunk.state = ChunkState::Complete;
                self.inner.chunks.set(i, chunk);
            },
            None => {},
        }
        self.bytes_written = self.bytes_written.wrapping_add(bytes);
    }

    /// Update progress for an in-flight chunk.
    pub fn update_progress(&mut self, chunk_index: usize, bytes_so_far: u64)
        ensures
            final(self)@ == after_progress(old(self)@, chunk_index, bytes_so_far),
    {
        match self.find(chunk_index) {
            Some(i) => {
                let mut chunk = self.inner.chunks[i];
                let delta: u64 = bytes_so_far.saturating_sub(chunk.downloaded);
                chunk.downloaded = bytes_so_far;
                self.inner.chunks.set(i, chunk);
                self.bytes_written = self.bytes_written.wrapping_add(delta);
            },
            None => {},
        }
    }

    /// Mark a chunk as failed (to be retried by the scheduler). The attempts are
    /// counted over retries.
    pub fn mark_failed(&mut self, chunk_index: usize)
        ensures
            final(self)@ == after_failed(old(self)@, chunk_index),
    {
        proof {
            position_is_first(self.inner.chunks@, chunk_index);
        }
        match self.find(chunk_index) {
            Some(i) => {
                let mut chunk = self.inner.chunks[i];
                let before: u32 = match chunk.state {
                    ChunkState::Failed { attempts } => attempts,
                    ChunkState::InFlight { .. } => match self.failures.get(&chunk_index) {
                        Some(attempts) => *attempts,
                        None => 0,
                    },
                    _ => return,
                };
                let attempts: u32 = before.saturating_add(1);
                chunk.state = ChunkState::Failed { attempts };
                self.inner.chunks.set(i, chunk);
                self.failures.insert(chunk_index, attempts);
            },
            None => {},
        }
    }

    /// Take a worker's chunk back, so that another worker can have it. Returns
    /// whether the worker had one.
    pub fn hand_back(&mut self, worker_id: usize) -> (had: bool)
        ensures
            final(self)@ == after_hand_back(old(self)@, worker_id),
            had == (held_by(old(self)@.chunks, worker_id) is Some),
    {
        let mut i: usize = 0;
        proof {
            held_by_is_first(self.inner.chunks@, worker_id);
        }
        while i < self.inner.chunks.len()
            invariant
                *self == *old(self),
                i <= self.inner.chunks@.len(),
                forall|j: int|
                    0 <= j < i ==> worker_of(#[trigger] self.inner.chunks@[j]) != Some(worker_id),
            decreases self.inner.chunks@.len() - i,
        {
            proof {
                held_by_is_first(self.inner.chunks@, worker_id);
            }
            let mut chunk = self.inner.chunks[i];
            if let ChunkState::InFlight { worker_id: owner } = chunk.state {
                if owner == worker_id {
                    chunk.state = ChunkState::Pending;
                    self.inner.chunks.set(i, chunk);
                    return true;
                }
            }
            i += 1;
        }
        false
    }

    /// Whether the chunk with this index is in flight.
    pub fn is_in_flight(&self, chunk_index: usize) -> (r: bool)
        ensures
            r <==> (position(self@.chunks, chunk_index) matches Some(i)
                && self@.chunks[i].state is InFlight),
    {
        match self.find(chunk_index) {
            Some(i) => matches!(self.inner.chunks[i].state, ChunkState::InFlight { .. }),
            None => false,
        }
    }

    /// The recorded speed of the worker that has a chunk in hand.
    fn chunk_speed(&self, chunk: Chunk) -> (speed: Option<u64>)
        ensures
            speed == speed_on(chunk, self@.speeds),
    {
        match chunk.state {
            ChunkState::InFlight { worker_id } => match self.worker_speeds.get(&worker_id) {
                Some(speed) => Some(*speed),
                None => None,
            },
            _ => None,
        }
    }

    /// The recorded speeds of the workers at work.
    pub fn speeds_at_work(&self) -> (speeds: Vec<u64>)
        ensures
            speeds@ == working_speeds(self@.chunks, self@.speeds),
    {
        let mut speeds: Vec<u64> = Vec::new();
        let mut i: usize = 0;
        assert(speeds@ =~= working_speeds(self@.chunks.take(0), self@.speeds));
        while i < self.inner.chunks.len()
            invariant
                i <= self.inner.chunks@.len(),
                speeds@ == working_speeds(self@.chunks.take(i as int), self@.speeds),
            decreases self.inner.chunks@.len() - i,
        {
            assert(self@.chunks.take(i + 1).drop_last() =~= self@.chunks.take(i as int));
            if let Some(speed) = self.chunk_speed(self.inner.chunks[i]) {
                speeds.push(speed);
            }
            i += 1;
        }
        assert(self@.chunks.take(i as int) =~= self@.chunks);
        speeds
    }

    /// The workers at work whose recorded speed is below the threshold.
    pub fn slow_workers(&self, threshold: u64) -> (ids: Vec<usize>)
        ensures
            ids@ == slow_workers_of(self@.chunks, self@.speeds, threshold),
    {
        let mut ids: Vec<usize> = Vec::new();
        let mut i: usize = 0;
        assert(ids@ =~= slow_workers_of(self@.chunks.take(0), self@.speeds, threshold));
        while i < self.inner.chunks.len()
            invariant
                i <= self.inner.chunks@.len(),
                ids@ == slow_workers_of(self@.chunks.take(i as int), self@.speeds, threshold),
            decreases self.inner.chunks@.len() - i,
        {
            assert(self@.chunks.take(i + 1).drop_last() =~= self@.chunks.take(i as int));
            let chunk = self.inner.chunks[i];
            if let (ChunkState::InFlight { worker_id }, Some(speed)) = (
                chunk.state,
                self.chunk_speed(chunk),
            ) {
                if speed < threshold {
                    ids.push(worker_id);
                }
            }
            i += 1;
        }
        assert(self@.chunks.take(i as int) =~= self@.chunks);
        ids
    }

    /// There are no more chunks than a `usize` counts.
    pub proof fn chunks_are_countable(&self)
        ensures
            self@.chunks.len() <= usize::MAX,
    {
        assert(self.inner.chunks.len() == self.inner.chunks@.len());
    }

    /// The first chunk that has failed and was not reset, with its attempts.
    pub fn failed_chunk(&self) -> (failed: Option<(usize, u32)>)
        ensures
            match first_failed(self@.chunks) {
                Some(i) => {
                    &&& 0 <= i < self@.chunks.len()
                    &&& self@.chunks[i].state is Failed
                    &&& failed == Some(
                        (self@.chunks[i].index, self@.chunks[i].state->attempts),
                    )
                },
                None => failed is None,
            },
    {
        let mut i: usize = 0;
        proof {
            first_failed_is_first(self.inner.chunks@);
        }
        while i < self.inner.chunks.len()
            invariant
                i <= self.inner.chunks@.len(),
                forall|j: int| 0 <= j < i ==> !((#[trigger] self.inner.chunks@[j]).state is Failed),
            decreases self.inner.chunks@.len() - i,
        {
            proof {
                first_failed_is_first(self.inner.chunks@);
            }
            if let ChunkState::Failed { attempts } = self.inner.chunks[i].state {
                return Some((self.inner.chunks[i].index, attempts));
            }
            i += 1;
        }
        None
    }

    /// Reset failed chunks back to Pending so the scheduler can retry them.
    /// Returns how many were reset.
    pub fn reset_failed(&mut self, max_attempts: u32) -> (reset: usize)
        ensures
            final(self)@ == after_reset(old(self)@, max_attempts),
            reset == old(self)@.chunks.filter(|c: Chunk| retriable(c, max_attempts)).len(),
    {
        let ghost before = self.inner.chunks@;
        let ghost pred = |c: Chunk| retriable(c, max_attempts);
        let mut reset: usize = 0;
        let mut i: usize = 0;
        assert(before.take(0).filter(pred).len() == 0) by {
            reveal(Seq::filter);
        }
        while i < self.inner.chunks.len()
            invariant
                i <= self.inner.chunks@.len(),
                self.inner.chunks@.len() == before.len(),
                self.bytes_written == old(self).bytes_written,
                self.worker_speeds == old(self).worker_speeds,
                self.failures == old(self).failures,
                pred == (|c: Chunk| retriable(c, max_attempts)),
                reset <= i,
                reset == before.take(i as int).filter(pred).len(),
                forall|k: int|
                    0 <= k < i ==> #[trigger] self.inner.chunks@[k] == retried(
                        before[k],
                        max_attempts,
                    ),
                forall|k: int|
                    i <= k < before.len() ==> #[trigger] self.inner.chunks@[k] == before[k],
            decreases self.inner.chunks@.len() - i,
        {
            proof {
                reveal(Seq::filter);
                assert(before.take(i + 1).drop_last() =~= before.take(i as int));
            }
            let mut chunk = self.inner.chunks[i];
            if let ChunkState::Failed { attempts } = chunk.state {
                if attempts <= max_attempts {
                    chunk.state = ChunkState::Pending;
                    self.inner.chunks.set(i, chunk);
                    reset += 1;
                }
            }
            i += 1;
        }
        proof {
            assert(before.take(i as int) =~= before);
            assert(self.inner.chunks@ =~= before.map_values(|c: Chunk| retried(c, max_attempts)));
        }
        reset
    }

    /// True once every chunk has all its bytes.
    pub fn all_complete(&self) -> (r: bool)
        requires
            all_ranged(self@.chunks),
        ensures
            r <==> (forall|i: int|
                0 <= i < self@.chunks.len() ==> (#[trigger] self@.chunks[i]).done()),
    {
        self.inner.all_complete()
    }

    /// Total bytes written, as counted.
    pub fn written(&self) -> (n: u64)
        ensures
            n == self@.written,
    {
        self.bytes_written
    }

    /// The number of chunks.
    pub fn chunk_count(&self) -> (n: usize)
        ensures
            n == self@.chunks.len(),
    {
        self.inner.chunks.len()
    }

    /// A copy of the chunk map.
    pub fn snapshot(&self) -> (map: ChunkMap)
        ensures
            map.chunks@ == self@.chunks,
    {
        self.inner.clone()
    }
}

// ─── Laws ────────────────────────────────────────────────────────────────────

/// Dividing a file covers every byte of it exactly once: no gaps, no overlaps,
/// nothing beyond the end. Every chunk has a length, the lengths add up to the
/// file's, and each chunk's index is its position.
pub proof fn division_partitions_the_file(chunks: Seq<Chunk>, total: int, n: int)
    requires
        0 < total,
        0 < n,
        total + n - 1 <= u64::MAX,
        n <= usize::MAX,
        chunks.len() == chunk_count(total, n),
        forall|i: int| 0 <= i < chunks.len() ==> #[trigger] chunks[i] == nth_chunk(total, n, i),
    ensures
        partitions(chunks, total),
        all_sized(chunks),
        indexed(chunks),
        sum_lengths(chunks) == total,
{
    let size = chunk_size(total, n);
    division_bounds(total, n);
    assert forall|i: int| 0 <= i < chunks.len() implies {
        &&& (#[trigger] chunks[i]).index == i
        &&& chunks[i].start == i * size
        &&& chunks[i].end == (if (i + 1) * size < total {
            (i + 1) * size - 1
        } else {
            total - 1
        })
        &&& chunks[i].start <= chunks[i].end < total
    } by {
        lemma_chunk_start(total, n, i);
        assert(0 <= i * size && (i + 1) * size == i * size + size) by (nonlinear_arith)
            requires
                0 <= i,
                0 < size,
        ;
    }
    assert(disjoint(chunks)) by {
        assert forall|i: int, j: int| 0 <= i < j < chunks.len() implies (
        #[trigger] chunks[i]).end < (#[trigger] chunks[j]).start by {
            assert((i + 1) * size <= j * size) by (nonlinear_arith)
                requires
                    i + 1 <= j,
                    0 < size,
            ;
        }
    }
    assert forall|b: int| #[trigger] covered(chunks, b) <==> 0 <= b < total by {
        if covered(chunks, b) {
            let i = choose|i: int| 0 <= i < chunks.len() && (#[trigger] chunks[i]).holds(b);
            assert(chunks[i].holds(b));
        }
        if 0 <= b < total {
            let i = b / size;
            assert(0 <= i && i * size <= b < (i + 1) * size) by (nonlinear_arith)
                requires
                    0 <= b,
                    0 < size,
                    i == b / size,
            ;
            lemma_chunk_start(total, n, i);
            assert(chunks[i].holds(b));
        }
    }
    lemma_division_length(chunks, total, n, chunks.len() as int);
    lemma_chunk_start(total, n, chunks.len() as int);
    assert(chunks.take(chunks.len() as int) =~= chunks);
}

proof fn lemma_division_length(chunks: Seq<Chunk>, total: int, n: int, k: int)
    requires
        0 < total,
        0 < n,
        total + n - 1 <= u64::MAX,
        chunks.len() == chunk_count(total, n),
        forall|i: int| 0 <= i < chunks.len() ==> #[trigger] chunks[i] == nth_chunk(total, n, i),
        0 <= k <= chunks.len(),
    ensures
        sum_lengths(chunks.take(k)) == (if k * chunk_size(total, n) <= total {
            k * chunk_size(total, n)
        } else {
            total
        }),
    decreases k,
{
    let size = chunk_size(total, n);
    division_bounds(total, n);
    if k > 0 {
        lemma_division_length(chunks, total, n, k - 1);
        assert(chunks.take(k).drop_last() =~= chunks.take(k - 1));
        lemma_chunk_start(total, n, k - 1);
        assert(0 <= (k - 1) * size && k * size == (k - 1) * size + size) by (nonlinear_arith)
            requires
                1 <= k,
                0 < size,
        ;
        assert(chunks[k - 1] == nth_chunk(total, n, k - 1));
    } else {
        assert(0 * size == 0);
    }
}

/// Stealing moves work and never changes it: the same bytes are covered, still
/// each of them once, and the lengths add up to what they did before.
pub proof fn stealing_preserves_coverage(q: QueueView, thief: usize, total: int)
    requires
        all_ranged(q.chunks),
        q.chunks.len() <= usize::MAX,
        steal_target(q) is Some,
    ensures
        ({
            let after = after_steal(q.chunks, steal_target(q)->0, thief);
            &&& all_ranged(after)
            &&& all_sized(q.chunks) ==> all_sized(after)
            &&& sum_lengths(after) == sum_lengths(q.chunks)
            &&& indexed(q.chunks) ==> indexed(after)
            &&& partitions(q.chunks, total) ==> partitions(after, total)
        }),
{
    let keys = q.chunks.map_values(|c: Chunk| steal_key(c, q.speeds));
    select::last_max_is_best(keys);
    let i = steal_target(q)->0;
    let c = q.chunks[i];
    assert(steal_key(c, q.speeds) == keys[i]);
    assert(c.is_ranged());
    let kept = Chunk { end: (split_point(c) - 1) as u64, ..c };
    let half = stolen_half(q.chunks, i, thief);
    let after = after_steal(q.chunks, i, thief);
    assert(c.start < split_point(c) <= c.end);
    lemma_sum_lengths_update(q.chunks, i, kept);
    lemma_sum_lengths_push(q.chunks.update(i, kept), half);
    assert forall|k: int| 0 <= k < after.len() implies (#[trigger] after[k]).is_ranged() && (
    all_sized(q.chunks) ==> after[k].is_sized()) by {
        if k != i && k < q.chunks.len() {
            assert(after[k] == q.chunks[k]);
            assert(q.chunks[k].is_ranged());
            assert(all_sized(q.chunks) ==> q.chunks[k].is_sized());
        }
    }
    if indexed(q.chunks) {
        assert forall|k: int| 0 <= k < after.len() implies (#[trigger] after[k]).index == k by {
            if k < q.chunks.len() {
                assert(q.chunks[k].index == k);
            }
        }
    }
    if partitions(q.chunks, total) {
        let m = q.chunks.len() as int;
        assert forall|x: int, y: int| 0 <= x < y < after.len() implies (#[trigger] after[x]).end < (
        #[trigger] after[y]).start || after[y].end < after[x].start by {
            assert(q.chunks[x].end < q.chunks[i].start || q.chunks[i].end < q.chunks[x].start || x
                == i);
            if y < m {
                assert(q.chunks[x].end < q.chunks[y].start || q.chunks[y].end < q.chunks[x].start);
            }
        }
        assert forall|b: int| #[trigger] covered(after, b) <==> 0 <= b < total by {
            assert(covered(q.chunks, b) <==> 0 <= b < total);
            if covered(after, b) {
                let k = choose|k: int| 0 <= k < after.len() && (#[trigger] after[k]).holds(b);
                if k == i || k == m {
                    assert(q.chunks[i].holds(b));
                } else {
                    assert(q.chunks[k].holds(b));
                }
            }
            if covered(q.chunks, b) {
                let k = choose|k: int| 0 <= k < m && (#[trigger] q.chunks[k]).holds(b);
                if k == i {
                    if b < split_point(c) {
                        assert(after[i].holds(b));
                    } else {
                        assert(after[m].holds(b));
                    }
                } else {
                    assert(after[k].holds(b));
                }
            }
        }
    }
}

/// The two sequences hold the same byte ranges, in the same places.
pub open spec fn same_ranges(a: Seq<Chunk>, b: Seq<Chunk>) -> bool {
    &&& a.len() == b.len()
    &&& forall|i: int|
        0 <= i < a.len() ==> (#[trigger] a[i]).start == (#[trigger] b[i]).start && a[i].end
            == b[i].end && a[i].index == b[i].index
}

/// What a file's chunks cover is decided by their ranges alone.
pub proof fn coverage_depends_on_ranges(a: Seq<Chunk>, b: Seq<Chunk>, total: int)
    requires
        same_ranges(a, b),
    ensures
        partitions(a, total) ==> partitions(b, total),
        all_ranged(a) ==> all_ranged(b),
        all_sized(a) ==> all_sized(b),
        indexed(a) ==> indexed(b),
        sum_lengths(a) == sum_lengths(b),
    decreases a.len(),
{
    assert forall|i: int| 0 <= i < a.len() implies {
        &&& (#[trigger] b[i]).start == a[i].start
        &&& b[i].end == a[i].end
        &&& b[i].index == a[i].index
    } by {
        assert(a[i].start == b[i].start);
    }
    if partitions(a, total) {
        assert forall|b0: int| #[trigger] covered(b, b0) <==> 0 <= b0 < total by {
            assert(covered(a, b0) <==> 0 <= b0 < total);
            if covered(a, b0) {
                let k = choose|k: int| 0 <= k < a.len() && (#[trigger] a[k]).holds(b0);
                assert(b[k].holds(b0));
            }
            if covered(b, b0) {
                let k = choose|k: int| 0 <= k < b.len() && (#[trigger] b[k]).holds(b0);
                assert(a[k].holds(b0));
            }
        }
        assert forall|i: int, j: int| 0 <= i < j < b.len() implies (#[trigger] b[i]).end < (
        #[trigger] b[j]).start || b[j].end < b[i].start by {
            assert(a[i].end < a[j].start || a[j].end < a[i].start);
        }
    }
    if a.len() > 0 {
        assert(same_ranges(a.drop_last(), b.drop_last()));
        coverage_depends_on_ranges(a.drop_last(), b.drop_last(), total);
        assert(a.last().length() == b.last().length());
    }
}

/// Claiming, completing, failing, retrying and reporting progress leave every
/// byte range where it is: only stealing touches ranges.
pub proof fn bookkeeping_keeps_ranges(
    q: QueueView,
    i: int,
    index: usize,
    worker_id: usize,
    bytes: u64,
    max_attempts: u32,
)
    requires
        0 <= i < q.chunks.len(),
    ensures
        same_ranges(q.chunks, assigned(q.chunks, i, worker_id)),
        same_ranges(q.chunks, after_complete(q, index, bytes).chunks),
        same_ranges(q.chunks, after_progress(q, index, bytes).chunks),
        same_ranges(q.chunks, after_failed(q, index).chunks),
        same_ranges(q.chunks, after_reset(q, max_attempts).chunks),
{
    position_is_first(q.chunks, index);
}

/// Failures are remembered: each one raises a chunk's count by one, claiming it
/// again or resetting it for a retry does not lower the count, and a chunk that
/// has failed more than `max_attempts` times is never made pending again.
pub proof fn failures_are_remembered(
    q: QueueView,
    i: int,
    worker_id: usize,
    max_attempts: u32,
)
    requires
        0 <= i < q.chunks.len(),
        can_fail(q.chunks[i]),
    ensures
        ({
            let after = failed_once_more(q, i);
            let count = speed::one_more(failures_of(q.chunks[i], q.failures));
            let reset = after_reset(after, max_attempts).chunks;
            let again = assigned(reset, i, worker_id);
            &&& failures_of(after.chunks[i], after.failures) == count
            &&& failures_of(reset[i], after.failures) == count
            &&& failures_of(again[i], after.failures) == count
            &&& reset[i].state is Pending <==> count <= max_attempts
        }),
{
}

/// A completed chunk has all its bytes, and is neither claimed, stolen from nor
/// failed afterwards.
pub proof fn a_completed_chunk_is_settled(
    q: QueueView,
    index: usize,
    bytes: u64,
    sequential: bool,
)
    requires
        position(q.chunks, index) is Some,
        all_ranged(q.chunks),
    ensures
        ({
            let i = position(q.chunks, index)->0;
            let after = after_complete(q, index, bytes);
            &&& after.chunks[i].done()
            &&& !after.chunks[i].is_open() ==> after.chunks[i].left() == 0
            &&& claim_target(after.chunks, sequential) != Some(i)
            &&& steal_target(after) != Some(i)
            &&& after_failed(after, index) == after
        }),
{
    position_is_first(q.chunks, index);
    let i = position(q.chunks, index)->0;
    let after = after_complete(q, index, bytes);
    position_is_first(after.chunks, index);
    assert(q.chunks[i].is_ranged());
    assert(after.chunks[i].index == index);
    let k = position(after.chunks, index)->0;
    assert(q.chunks[k].index == index);
    assert(k == i);
    lemma_first_pending(after.chunks);
    let claims = after.chunks.map_values(|c: Chunk| claim_key(c));
    select::last_max_is_best(claims);
    assert(claims[i] == claim_key(after.chunks[i]));
    let steals = after.chunks.map_values(|c: Chunk| steal_key(c, after.speeds));
    select::last_max_is_best(steals);
    assert(steals[i] == steal_key(after.chunks[i], after.speeds));
}

/// A claimed chunk is not claimed again: whatever the mode, the next claim
/// finds another chunk or none.
pub proof fn claims_are_exclusive(
    chunks: Seq<Chunk>,
    first_sequential: bool,
    second_sequential: bool,
    worker_id: usize,
)
    requires
        claim_target(chunks, first_sequential) is Some,
    ensures
        ({
            let i = claim_target(chunks, first_sequential)->0;
            let after = assigned(chunks, i, worker_id);
            &&& 0 <= i < chunks.len()
            &&& chunks[i].state is Pending
            &&& claim_target(after, second_sequential) != Some(i)
            &&& claim_target(after, second_sequential) matches Some(j) ==> chunks[j].state is Pending
        }),
{
    let keys = chunks.map_values(|c: Chunk| claim_key(c));
    select::last_max_is_best(keys);
    lemma_first_pending(chunks);
    let i = claim_target(chunks, first_sequential)->0;
    assert(keys[i] == claim_key(chunks[i]));
    let after = assigned(chunks, i, worker_id);
    let keys_after = after.map_values(|c: Chunk| claim_key(c));
    select::last_max_is_best(keys_after);
    lemma_first_pending(after);
    assert(keys_after[i] == claim_key(after[i]));
    if let Some(j) = claim_target(after, second_sequential) {
        assert(keys_after[j] == claim_key(after[j]));
    }
}

/// In sequential mode the claimed chunk is the first pending one, and the next
/// claim lies behind it: chunks are handed out in file order.
pub proof fn sequential_claims_ascend(chunks: Seq<Chunk>, worker_id: usize)
    requires
        claim_target(chunks, true) is Some,
    ensures
        ({
            let i = claim_target(chunks, true)->0;
            let after = assigned(chunks, i, worker_id);
            &&& chunks[i].state is Pending
            &&& forall|j: int| 0 <= j < i ==> !((#[trigger] chunks[j]).state is Pending)
            &&& claim_target(after, true) matches Some(j) ==> i < j
        }),
{
    lemma_first_pending(chunks);
    let i = claim_target(chunks, true)->0;
    let after = assigned(chunks, i, worker_id);
    lemma_first_pending(after);
    assert(forall|j: int| 0 <= j < i ==> after[j] == chunks[j]);
}

/// Out of order, no pending chunk has more bytes left than the claimed one; and
/// in either mode a claim comes back empty only if nothing is pending.
pub proof fn claims_take_the_largest(chunks: Seq<Chunk>)
    ensures
        claim_target(chunks, false) matches Some(i) ==> {
            &&& chunks[i].state is Pending
            &&& forall|j: int|
                0 <= j < chunks.len() && (#[trigger] chunks[j]).state is Pending
                    ==> chunks[j].left() <= chunks[i].left()
        },
        claim_target(chunks, false) is None <==> claim_target(chunks, true) is None,
        claim_target(chunks, false) is None <==> (forall|j: int|
            0 <= j < chunks.len() ==> !((#[trigger] chunks[j]).state is Pending)),
{
    let keys = chunks.map_values(|c: Chunk| claim_key(c));
    select::last_max_is_best(keys);
    lemma_first_pending(chunks);
    assert forall|j: int| 0 <= j < chunks.len() implies keys[j] == claim_key(
        #[trigger] chunks[j],
    ) by {}
    assert forall|j: int| 0 <= j < chunks.len() && keys[j] is None implies !(
        (#[trigger] chunks[j]).state is Pending) by {}
    if claim_target(chunks, false) is None {
        assert forall|j: int| 0 <= j < chunks.len() implies !(
            (#[trigger] chunks[j]).state is Pending) by {
            assert(keys[j] is None);
        }
    }
    if forall|j: int| 0 <= j < chunks.len() ==> !((#[trigger] chunks[j]).state is Pending) {
        assert forall|j: int| 0 <= j < keys.len() implies keys[j] is None by {
            assert(!(chunks[j].state is Pending));
        }
    }
}

/// The slow workers are exactly those at work whose recorded speed is below the
/// threshold.
pub proof fn slow_workers_are_below_the_threshold(
    chunks: Seq<Chunk>,
    speeds: Map<usize, u64>,
    threshold: u64,
    w: usize,
)
    ensures
        slow_workers_of(chunks, speeds, threshold).contains(w) <==> speeds.contains_key(w)
            && speeds[w] < threshold && (exists|i: int|
            0 <= i < chunks.len() && worker_of(#[trigger] chunks[i]) == Some(w)),
    decreases chunks.len(),
{
    if chunks.len() > 0 {
        let front = chunks.drop_last();
        let before = slow_workers_of(front, speeds, threshold);
        let after = slow_workers_of(chunks, speeds, threshold);
        slow_workers_are_below_the_threshold(front, speeds, threshold, w);
        assert(forall|i: int| 0 <= i < front.len() ==> front[i] == chunks[i]);
        assert(chunks[chunks.len() - 1] == chunks.last());
        if after.len() > before.len() {
            assert(after[before.len() as int] == worker_of(chunks.last())->0);
        }
        assert(forall|i: int| 0 <= i < before.len() ==> after[i] == before[i]);
        if exists|i: int| 0 <= i < chunks.len() && worker_of(#[trigger] chunks[i]) == Some(w) {
            let i = choose|i: int|
                0 <= i < chunks.len() && worker_of(#[trigger] chunks[i]) == Some(w);
            if i < front.len() {
                assert(worker_of(front[i]) == Some(w));
            }
        }
        if before.contains(w) {
            let k = choose|k: int| 0 <= k < before.len() && before[k] == w;
            assert(after[k] == w);
        }
        if after.contains(w) && !before.contains(w) {
            let k = choose|k: int| 0 <= k < after.len() && after[k] == w;
            assert(k == before.len());
        }
    }
}

/// The split chunk needs at least as long as any other that could be split.
pub proof fn steals_from_the_slowest(q: QueueView)
    requires
        steal_target(q) is Some,
    ensures
        ({
            let i = steal_target(q)->0;
            &&& 0 <= i < q.chunks.len()
            &&& q.chunks[i].state is InFlight
            &&& q.chunks[i].left() > MIN_STEAL_REMAINING
            &&& forall|j: int|
                0 <= j < q.chunks.len() && steal_key(#[trigger] q.chunks[j], q.speeds) is Some
                    ==> steal_key(q.chunks[j], q.speeds)->0 <= steal_key(
                    q.chunks[i],
                    q.speeds,
                )->0
        }),
{
    let keys = q.chunks.map_values(|c: Chunk| steal_key(c, q.speeds));
    select::last_max_is_best(keys);
    let i = steal_target(q)->0;
    assert(keys[i] == steal_key(q.chunks[i], q.speeds));
    assert forall|j: int|
        0 <= j < q.chunks.len() && steal_key(#[trigger] q.chunks[j], q.speeds)
            is Some implies steal_key(q.chunks[j], q.speeds)->0 <= steal_key(
        q.chunks[i],
        q.speeds,
    )->0 by {
        assert(keys[j] == steal_key(q.chunks[j], q.speeds));
    }
}

/// With chunks indexed by position, a chunk is found at its index, so reports
/// about one chunk never reach another.
pub proof fn reports_reach_their_chunk(chunks: Seq<Chunk>, i: int)
    requires
        indexed(chunks),
        0 <= i < chunks.len() <= usize::MAX,
    ensures
        position(chunks, i as usize) == Some(i),
{
    position_is_first(chunks, i as usize);
    assert(chunks[i].index == i);
}

/// The measures of a chunk agree: it is as long as the bytes from its start to its
/// end; what was downloaded and what is left make up its length; it is done once
/// nothing is left; and only a range whose length is no `u64` is open-ended.
pub proof fn the_measures_of_a_chunk_agree(c: Chunk)
    requires
        c.start <= c.end,
    ensures
        c.start + c.length() == c.end + 1,
        c.is_ranged(),
        c.is_open() <==> c.end - c.start + 1 > u64::MAX,
        c.is_sized() <==> c.end - c.start + 1 <= u64::MAX,
        !c.is_open() && c.downloaded <= c.end - c.start + 1 ==> c.downloaded + c.left() == c.end
            - c.start + 1,
        !c.is_open() && c.downloaded > c.end - c.start + 1 ==> c.left() == 0,
        c.is_open() ==> c.downloaded + c.left() == u64::MAX,
        !c.is_open() ==> (c.done() <==> c.left() == 0),
        c.is_open() ==> (c.done() <==> c.state == ChunkState::Complete),
        forall|b: int| #[trigger] c.holds(b) <==> c.start <= b && b < c.start + c.length(),
{
}

/// A file is divided evenly: the first chunk begins at its first byte, each begins
/// where the one before it ends, all but the last have the same length, the last is
/// no longer, and no shorter length would do with `n` chunks. The last ends with the
/// file, and nothing is downloaded yet.
pub proof fn a_file_is_divided_evenly(total: int, n: int)
    requires
        0 < total,
        0 < n,
        total + n - 1 <= u64::MAX,
        n <= usize::MAX,
    ensures
        0 < chunk_count(total, n) <= n,
        nth_chunk(total, n, 0).start == 0,
        forall|i: int|
            0 <= i < chunk_count(total, n) ==> {
                let c = #[trigger] nth_chunk(total, n, i);
                let first = nth_chunk(total, n, 0);
                &&& c.index == i
                &&& c.downloaded == 0
                &&& c.state == ChunkState::Pending
                &&& c.start <= c.end
                &&& c.end - c.start <= first.end - first.start
                &&& i < chunk_count(total, n) - 1 ==> {
                    &&& c.end - c.start == first.end - first.start
                    &&& nth_chunk(total, n, i + 1).start == c.end + 1
                }
                &&& i == chunk_count(total, n) - 1 ==> c.end == total - 1
            },
        ({
            let first = nth_chunk(total, n, 0);
            n * (first.end - first.start) < total
        }),
{
    let size = chunk_size(total, n);
    let count = chunk_count(total, n);
    division_bounds(total, n);
    assert(0 * size == 0 && (0 + 1) * size == size) by (nonlinear_arith);
    lemma_chunk_start(total, n, count);
    lemma_chunk_start(total, n, count - 1);
    assert forall|i: int| 0 <= i < count implies {
        let c = #[trigger] nth_chunk(total, n, i);
        let first = nth_chunk(total, n, 0);
        &&& c.index == i
        &&& c.downloaded == 0
        &&& c.state == ChunkState::Pending
        &&& c.start <= c.end
        &&& c.end - c.start <= first.end - first.start
        &&& i < count - 1 ==> {
            &&& c.end - c.start == first.end - first.start
            &&& nth_chunk(total, n, i + 1).start == c.end + 1
        }
        &&& i == count - 1 ==> c.end == total - 1
    } by {
        lemma_chunk_start(total, n, i);
        lemma_chunk_start(total, n, i + 1);
        assert(0 <= i * size && (i + 1) * size == i * size + size) by (nonlinear_arith)
            requires
                0 <= i,
                0 < size,
        ;
        assert(size <= (i + 1) * size) by (nonlinear_arith)
            requires
                0 <= i,
                0 < size,
        ;
    }
    assert(n * (size - 1) < total) by (nonlinear_arith)
        requires
            n * size <= total + n - 1,
    ;
}

/// A chunk that is worth splitting: in flight, with a known end, and with more than
/// two mebibytes still to fetch.
pub open spec fn worth_splitting(c: Chunk) -> bool {
    &&& c.state is InFlight
    &&& c.end - c.start + 1 <= u64::MAX
    &&& c.end - c.start + 1 - c.downloaded > 2 * 1024 * 1024
}

/// What is split is the chunk with the longest time to go: the bytes still to fetch,
/// divided by the worker's recorded speed. A worker that stands still goes before all
/// that make headway, and one whose speed was not recorded counts as one that makes a
/// byte per second. Only chunks worth splitting are split, and one is split whenever
/// there is one.
pub proof fn the_longest_to_go_is_split(q: QueueView)
    requires
        forall|i: int| 0 <= i < q.chunks.len() ==> (#[trigger] q.chunks[i]).start <= q.chunks[i].end,
    ensures
        steal_target(q) is None <==> (forall|j: int|
            0 <= j < q.chunks.len() ==> !worth_splitting(#[trigger] q.chunks[j])),
        steal_target(q) matches Some(i) ==> {
            &&& 0 <= i < q.chunks.len()
            &&& worth_splitting(q.chunks[i])
            &&& forall|j: int|
                0 <= j < q.chunks.len() && worth_splitting(#[trigger] q.chunks[j]) ==> {
                    let a = q.chunks[j].state->worker_id;
                    let b = q.chunks[i].state->worker_id;
                    let left_a = q.chunks[j].end - q.chunks[j].start + 1 - q.chunks[j].downloaded;
                    let left_b = q.chunks[i].end - q.chunks[i].start + 1 - q.chunks[i].downloaded;
                    let known_a = q.speeds.contains_key(a);
                    let known_b = q.speeds.contains_key(b);
                    &&& known_a && known_b && q.speeds[a] > 0 && q.speeds[b] > 0 ==> left_a
                        / q.speeds[a] as int <= left_b / q.speeds[b] as int
                    &&& known_a && known_b && q.speeds[a] > 0 && q.speeds[a] == q.speeds[b]
                        ==> left_a < left_b + q.speeds[b]
                    &&& known_a && known_b && q.speeds[a] == 0 && q.speeds[b] > 1 ==> false
                    &&& !known_a && known_b && q.speeds[b] > 0 ==> left_a <= left_b
                        / q.speeds[b] as int
                    &&& known_a && !known_b && q.speeds[a] > 0 ==> left_a / q.speeds[a] as int
                        <= left_b
                    &&& !known_a && !known_b ==> left_a <= left_b
                }
        },
{
    let keys = q.chunks.map_values(|c: Chunk| steal_key(c, q.speeds));
    select::last_max_is_best(keys);
    assert forall|j: int| 0 <= j < q.chunks.len() implies (worth_splitting(#[trigger] q.chunks[j])
        <==> keys[j] is Some) by {
        assert(keys[j] == steal_key(q.chunks[j], q.speeds));
        assert(q.chunks[j].start <= q.chunks[j].end);
    }
    if steal_target(q) is None {
        assert forall|j: int| 0 <= j < q.chunks.len() implies !worth_splitting(
            #[trigger] q.chunks[j],
        ) by {
            assert(keys[j] is None);
        }
    }
    if forall|j: int| 0 <= j < q.chunks.len() ==> !worth_splitting(#[trigger] q.chunks[j]) {
        assert forall|j: int| 0 <= j < keys.len() implies keys[j] is None by {
            assert(!worth_splitting(q.chunks[j]));
        }
    }
    if let Some(i) = steal_target(q) {
        assert(keys[i] == steal_key(q.chunks[i], q.speeds));
        assert(q.chunks[i].start <= q.chunks[i].end);
        assert forall|j: int| 0 <= j < q.chunks.len() && worth_splitting(#[trigger] q.chunks[j]) implies {
            let a = q.chunks[j].state->worker_id;
            let b = q.chunks[i].state->worker_id;
            let left_a = q.chunks[j].end - q.chunks[j].start + 1 - q.chunks[j].downloaded;
            let left_b = q.chunks[i].end - q.chunks[i].start + 1 - q.chunks[i].downloaded;
            let known_a = q.speeds.contains_key(a);
            let known_b = q.speeds.contains_key(b);
            &&& known_a && known_b && q.speeds[a] > 0 && q.speeds[b] > 0 ==> left_a
                / q.speeds[a] as int <= left_b / q.speeds[b] as int
            &&& known_a && known_b && q.speeds[a] > 0 && q.speeds[a] == q.speeds[b] ==> left_a
                < left_b + q.speeds[b]
            &&& known_a && known_b && q.speeds[a] == 0 && q.speeds[b] > 1 ==> false
            &&& !known_a && known_b && q.speeds[b] > 0 ==> left_a <= left_b / q.speeds[b] as int
            &&& known_a && !known_b && q.speeds[a] > 0 ==> left_a / q.speeds[a] as int <= left_b
            &&& !known_a && !known_b ==> left_a <= left_b
        } by {
            assert(keys[j] == steal_key(q.chunks[j], q.speeds));
            assert(q.chunks[j].start <= q.chunks[j].end);
            let a = q.chunks[j].state->worker_id;
            let b = q.chunks[i].state->worker_id;
            let left_a = q.chunks[j].left();
            let left_b = q.chunks[i].left();
            let va = q.speeds[a] as int;
            let vb = q.speeds[b] as int;
            assert(keys[j]->0 <= keys[i]->0);
            assert(left_a / 1 == left_a && left_b / 1 == left_b);
            if va > 0 {
                assert(left_a / va <= left_b / va ==> left_a < left_b + va) by (nonlinear_arith)
                    requires
                        0 < va,
                ;
            }
            if vb > 1 {
                assert(left_b / vb < u64::MAX) by (nonlinear_arith)
                    requires
                        1 < vb,
                        0 <= left_b <= u64::MAX,
                ;
            }
        }
    }
}

/// The recorded speed of a worker that has no chunk makes no difference to a steal.
pub proof fn idle_speeds_do_not_matter(q: QueueView, w: usize, speed: u64)
    requires
        forall|i: int|
            0 <= i < q.chunks.len() ==> (#[trigger] q.chunks[i]).state != (ChunkState::InFlight {
                worker_id: w,
            }),
    ensures
        steal_target(QueueView { speeds: q.speeds.insert(w, speed), ..q }) == steal_target(q),
{
    let more = q.speeds.insert(w, speed);
    let keys = q.chunks.map_values(|c: Chunk| steal_key(c, q.speeds));
    let keys2 = q.chunks.map_values(|c: Chunk| steal_key(c, more));
    assert forall|i: int| 0 <= i < q.chunks.len() implies keys[i] == keys2[i] by {
        assert(q.chunks[i].state != (ChunkState::InFlight { worker_id: w }));
    }
    assert(keys =~= keys2);
}

/// A steal divides what is still to be fetched, not what is there: the victim keeps
/// its worker, its start and what it downloaded; the thief takes the second half, up
/// to the victim's old end; the two halves differ by one byte at most; and no other
/// chunk changes.
pub proof fn a_steal_halves_what_is_left(q: QueueView, thief: usize)
    requires
        forall|i: int| 0 <= i < q.chunks.len() ==> (#[trigger] q.chunks[i]).start <= q.chunks[i].end,
        q.chunks.len() <= usize::MAX,
        steal_target(q) is Some,
    ensures
        ({
            let i = steal_target(q)->0;
            let before = q.chunks[i];
            let after = after_steal(q.chunks, i, thief);
            let kept = after[i];
            let taken = after[q.chunks.len() as int];
            let kept_left = kept.end - kept.start + 1 - kept.downloaded;
            let taken_left = taken.end - taken.start + 1;
            &&& 0 <= i < q.chunks.len()
            &&& after.len() == q.chunks.len() + 1
            &&& kept.index == before.index && kept.state == before.state
            &&& kept.start == before.start && kept.downloaded == before.downloaded
            &&& taken.start == kept.end + 1 && taken.end == before.end
            &&& taken.downloaded == 0 && taken.index == q.chunks.len()
            &&& taken.state == (ChunkState::InFlight { worker_id: thief })
            &&& 0 < kept_left <= taken_left <= kept_left + 1
            &&& forall|j: int| 0 <= j < q.chunks.len() && j != i ==> #[trigger] after[j] == q.chunks[j]
        }),
{
    let keys = q.chunks.map_values(|c: Chunk| steal_key(c, q.speeds));
    select::last_max_is_best(keys);
    let i = steal_target(q)->0;
    assert(keys[i] == steal_key(q.chunks[i], q.speeds));
    assert(q.chunks[i].start <= q.chunks[i].end);
}

/// A claim hands over one pending chunk as it is, in file order where that is asked
/// for and otherwise the one with the most bytes to fetch, the last of those; and
/// something is claimed whenever something is pending.
pub proof fn a_claim_hands_over_one_chunk(chunks: Seq<Chunk>, sequential: bool, worker_id: usize)
    requires
        forall|i: int| 0 <= i < chunks.len() ==> (#[trigger] chunks[i]).start <= chunks[i].end,
    ensures
        claim_target(chunks, sequential) is None <==> (forall|j: int|
            0 <= j < chunks.len() ==> (#[trigger] chunks[j]).state != ChunkState::Pending),
        claim_target(chunks, sequential) matches Some(i) ==> {
            let after = assigned(chunks, i, worker_id);
            &&& 0 <= i < chunks.len()
            &&& chunks[i].state == ChunkState::Pending
            &&& after.len() == chunks.len()
            &&& after[i].state == (ChunkState::InFlight { worker_id })
            &&& after[i].index == chunks[i].index && after[i].downloaded == chunks[i].downloaded
            &&& after[i].start == chunks[i].start && after[i].end == chunks[i].end
            &&& forall|j: int| 0 <= j < chunks.len() && j != i ==> #[trigger] after[j] == chunks[j]
            &&& forall|j: int|
                0 <= j < chunks.len() && (#[trigger] chunks[j]).state == ChunkState::Pending ==> {
                    let left_j = chunks[j].end - chunks[j].start + 1 - chunks[j].downloaded;
                    let left_i = chunks[i].end - chunks[i].start + 1 - chunks[i].downloaded;
                    &&& sequential ==> i <= j
                    &&& !sequential && left_j >= 0 && chunks[j].end - chunks[j].start < u64::MAX
                        && chunks[i].end - chunks[i].start < u64::MAX ==> left_j < left_i || (left_j
                        == left_i && j <= i) || (left_j == 0 && left_i < 0)
                }
        },
{
    let keys = chunks.map_values(|c: Chunk| claim_key(c));
    select::last_max_is_best(keys);
    lemma_first_pending(chunks);
    assert forall|j: int| 0 <= j < chunks.len() implies keys[j] == claim_key(
        #[trigger] chunks[j],
    ) by {}
    claims_take_the_largest(chunks);
    if let Some(i) = claim_target(chunks, sequential) {
        assert(keys[i] == claim_key(chunks[i]));
        assert forall|j: int|
            0 <= j < chunks.len() && (#[trigger] chunks[j]).state == ChunkState::Pending implies {
            let left_j = chunks[j].end - chunks[j].start + 1 - chunks[j].downloaded;
            let left_i = chunks[i].end - chunks[i].start + 1 - chunks[i].downloaded;
            &&& sequential ==> i <= j
            &&& !sequential && left_j >= 0 && chunks[j].end - chunks[j].start < u64::MAX
                && chunks[i].end - chunks[i].start < u64::MAX ==> left_j < left_i || (left_j
                == left_i && j <= i) || (left_j == 0 && left_i < 0)
        } by {
            assert(keys[j] == claim_key(chunks[j]));
            assert(chunks[j].start <= chunks[j].end && chunks[i].start <= chunks[i].end);
        }
    }
}

/// A completed chunk counts as fetched whole, the bytes are added to the counter
/// modulo 2^64, and no other chunk, speed or count of failures changes.
pub proof fn completing_settles_one_chunk(q: QueueView, index: usize, bytes: u64)
    ensures
        ({
            let after = after_complete(q, index, bytes);
            &&& after.written == (q.written + bytes) % 0x1_0000_0000_0000_0000
            &&& after.speeds == q.speeds && after.failures == q.failures
            &&& after.chunks.len() == q.chunks.len()
            &&& forall|j: int|
                0 <= j < q.chunks.len() ==> {
                    let old_c = #[trigger] q.chunks[j];
                    let new_c = after.chunks[j];
                    let first = old_c.index == index && (forall|k: int|
                        0 <= k < j ==> (#[trigger] q.chunks[k]).index != index);
                    &&& !first ==> new_c == old_c
                    &&& first ==> {
                        &&& new_c.state == ChunkState::Complete
                        &&& new_c.index == old_c.index
                        &&& new_c.start == old_c.start && new_c.end == old_c.end
                        &&& old_c.start <= old_c.end && old_c.end - old_c.start < u64::MAX
                            ==> new_c.downloaded == old_c.end - old_c.start + 1
                        &&& old_c.start <= old_c.end && old_c.end - old_c.start == u64::MAX ==> (
                        new_c.downloaded >= bytes && new_c.downloaded >= old_c.downloaded && (
                        new_c.downloaded == bytes || new_c.downloaded == old_c.downloaded))
                    }
                }
        }),
{
    position_is_first(q.chunks, index);
    speed::counting_wraps_around(q.written, bytes);
}

/// A report of progress says what is there of one chunk. The counter grows, modulo
/// 2^64, by what is new; reports of the same bytes count them once, in however many
/// steps they came.
pub proof fn progress_is_counted_once(q: QueueView, index: usize, part: u64, whole: u64)
    requires
        part <= whole,
    ensures
        ({
            let after = after_progress(q, index, whole);
            let steps = after_progress(after_progress(q, index, part), index, whole);
            &&& after.speeds == q.speeds && after.failures == q.failures
            &&& after.chunks.len() == q.chunks.len()
            &&& after_progress(after, index, whole) == after
            &&& (forall|j: int| 0 <= j < q.chunks.len() ==> (#[trigger] q.chunks[j]).index != index)
                ==> after == q
            &&& forall|j: int|
                0 <= j < q.chunks.len() ==> {
                    let old_c = #[trigger] q.chunks[j];
                    let new_c = after.chunks[j];
                    let first = old_c.index == index && (forall|k: int|
                        0 <= k < j ==> (#[trigger] q.chunks[k]).index != index);
                    &&& !first ==> new_c == old_c
                    &&& first ==> {
                        &&& new_c.downloaded == whole
                        &&& new_c.state == old_c.state && new_c.index == old_c.index
                        &&& new_c.start == old_c.start && new_c.end == old_c.end
                        &&& after.written == (q.written + (if whole > old_c.downloaded {
                            whole - old_c.downloaded
                        } else {
                            0
                        })) % 0x1_0000_0000_0000_0000
                        &&& old_c.downloaded <= part ==> steps == after
                    }
                }
        }),
{
    position_is_first(q.chunks, index);
    let after = after_progress(q, index, whole);
    let mid = after_progress(q, index, part);
    position_is_first(mid.chunks, index);
    position_is_first(after.chunks, index);
    let again = after_progress(after, index, whole);
    let steps = after_progress(mid, index, whole);
    speed::growth_is_what_is_new(whole, whole);
    if let Some(i) = position(q.chunks, index) {
        let d = q.chunks[i].downloaded;
        assert(position(mid.chunks, index) == Some(i)) by {
            let k = position(mid.chunks, index)->0;
            assert(mid.chunks[i].index == index);
            assert(q.chunks[k].index == index);
        }
        assert(position(after.chunks, index) == Some(i)) by {
            let k = position(after.chunks, index)->0;
            assert(after.chunks[i].index == index);
            assert(q.chunks[k].index == index);
        }
        speed::growth_is_what_is_new(d, whole);
        speed::growth_is_what_is_new(d, part);
        speed::growth_is_what_is_new(part, whole);
        speed::counting_wraps_around(q.written, speed::growth(d, whole) as u64);
        speed::counting_wraps_around(q.written, speed::growth(d, part) as u64);
        speed::counting_wraps_around(mid.written, speed::growth(part, whole) as u64);
        speed::counting_wraps_around(after.written, speed::growth(whole, whole) as u64);
        assert(again.chunks =~= after.chunks);
        assert(steps.chunks =~= after.chunks);
    }
}

/// A failure is counted for the chunk that it is about, if that is in flight or failed
/// already: its count goes up by one, up to the largest there is, and is kept; what
/// was downloaded stays, and no other chunk and no speed changes.
pub proof fn a_failure_is_counted_for_its_chunk(q: QueueView, index: usize)
    ensures
        ({
            let after = after_failed(q, index);
            &&& after.speeds == q.speeds && after.written == q.written
            &&& after.chunks.len() == q.chunks.len()
            &&& forall|k: usize| k != index ==> (#[trigger] after.failures.contains_key(k) <==> q.failures.contains_key(k))
                && after.failures[k] == q.failures[k]
            &&& forall|j: int|
                0 <= j < q.chunks.len() ==> {
                    let old_c = #[trigger] q.chunks[j];
                    let new_c = after.chunks[j];
                    let first = old_c.index == index && (forall|k: int|
                        0 <= k < j ==> (#[trigger] q.chunks[k]).index != index);
                    let counts = old_c.state is InFlight || old_c.state is Failed;
                    &&& !first || !counts ==> new_c == old_c
                    &&& first && !counts ==> after == q
                    &&& first && counts ==> {
                        let before: int = if old_c.state is Failed {
                            old_c.state->attempts as int
                        } else if q.failures.contains_key(index) {
                            q.failures[index] as int
                        } else {
                            0
                        };
                        &&& new_c.state is Failed
                        &&& new_c.state->attempts == (if before < u32::MAX {
                            before + 1
                        } else {
                            before
                        })
                        &&& after.failures.contains_key(index)
                        &&& after.failures[index] == new_c.state->attempts
                        &&& new_c.index == old_c.index && new_c.downloaded == old_c.downloaded
                        &&& new_c.start == old_c.start && new_c.end == old_c.end
                    }
                }
        }),
{
    position_is_first(q.chunks, index);
}

/// A reset makes pending again what failed no more than `max_attempts` times, with
/// what was downloaded of it, and changes nothing else.
pub proof fn a_reset_clears_what_may_be_retried(q: QueueView, max_attempts: u32)
    ensures
        ({
            let after = after_reset(q, max_attempts);
            &&& after.speeds == q.speeds && after.written == q.written
            &&& after.failures == q.failures
            &&& after.chunks.len() == q.chunks.len()
            &&& forall|j: int|
                0 <= j < q.chunks.len() ==> {
                    let old_c = #[trigger] q.chunks[j];
                    let new_c = after.chunks[j];
                    &&& old_c.state is Failed && old_c.state->attempts <= max_attempts
                        ==> new_c.state == ChunkState::Pending
                    &&& !(old_c.state is Failed && old_c.state->attempts <= max_attempts)
                        ==> new_c == old_c
                    &&& new_c.index == old_c.index && new_c.downloaded == old_c.downloaded
                    &&& new_c.start == old_c.start && new_c.end == old_c.end
                }
        }),
        forall|c: Chunk| #[trigger] retriable(c, max_attempts) <==> c.state is Failed && c.state->attempts <= max_attempts,
{
}

/// What is handed back is the worker's first chunk, pending and with what was
/// downloaded of it; nothing else changes, and nothing at all for a worker without one.
pub proof fn handing_back_frees_one_chunk(q: QueueView, worker_id: usize)
    ensures
        ({
            let after = after_hand_back(q, worker_id);
            let mine = ChunkState::InFlight { worker_id };
            &&& after.speeds == q.speeds && after.written == q.written
            &&& after.failures == q.failures
            &&& after.chunks.len() == q.chunks.len()
            &&& forall|j: int|
                0 <= j < q.chunks.len() ==> {
                    let old_c = #[trigger] q.chunks[j];
                    let new_c = after.chunks[j];
                    let first = old_c.state == mine && (forall|k: int|
                        0 <= k < j ==> (#[trigger] q.chunks[k]).state != mine);
                    &&& !first ==> new_c == old_c
                    &&& first ==> new_c == (Chunk { state: ChunkState::Pending, ..old_c })
                }
            &&& (held_by(q.chunks, worker_id) is Some <==> exists|j: int|
                0 <= j < q.chunks.len() && (#[trigger] q.chunks[j]).state == mine)
        }),
{
    held_by_is_first(q.chunks, worker_id);
    let mine = ChunkState::InFlight { worker_id };
    assert forall|j: int| 0 <= j < q.chunks.len() implies (worker_of(#[trigger] q.chunks[j]) == Some(
        worker_id,
    ) <==> q.chunks[j].state == mine) by {}
    if let Some(i) = held_by(q.chunks, worker_id) {
        assert(q.chunks[i].state == mine);
    }
    assert forall|j: int| 0 <= j < q.chunks.len() implies {
        let old_c = #[trigger] q.chunks[j];
        let new_c = after_hand_back(q, worker_id).chunks[j];
        let first = old_c.state == mine && (forall|k: int|
            0 <= k < j ==> (#[trigger] q.chunks[k]).state != mine);
        &&& !first ==> new_c == old_c
        &&& first ==> new_c == (Chunk { state: ChunkState::Pending, ..old_c })
    } by {
        if let Some(i) = held_by(q.chunks, worker_id) {
            if j == i {
                assert forall|k: int| 0 <= k < j implies (#[trigger] q.chunks[k]).state != mine by {
                    assert(worker_of(q.chunks[k]) != Some(worker_id));
                }
            }
            if j > i {
                assert(q.chunks[i].state == mine);
            }
            if j < i {
                assert(worker_of(q.chunks[j]) != Some(worker_id));
            }
        }
    }
}

/// One more chunk adds what it holds: its bytes to the bytes downloaded, itself to
/// those pending or in flight, and its worker's recorded speed to the speeds at work.
pub proof fn one_more_chunk_adds_its_own(
    chunks: Seq<Chunk>,
    c: Chunk,
    speeds: Map<usize, u64>,
    threshold: u64,
)
    ensures
        sum_downloaded(Seq::empty()) == 0,
        sum_downloaded(chunks.push(c)) == sum_downloaded(chunks) + c.downloaded,
        count_pending(Seq::empty()) == 0,
        count_pending(chunks.push(c)) == count_pending(chunks) + (if c.state
            == ChunkState::Pending {
            1int
        } else {
            0
        }),
        in_flight(Seq::empty()) == 0,
        in_flight(chunks.push(c)) == in_flight(chunks) + (if c.state is InFlight {
            1int
        } else {
            0
        }),
        working_speeds(Seq::empty(), speeds) == Seq::<u64>::empty(),
        working_speeds(chunks.push(c), speeds) == (if c.state is InFlight && speeds.contains_key(
            c.state->worker_id,
        ) {
            working_speeds(chunks, speeds).push(speeds[c.state->worker_id])
        } else {
            working_speeds(chunks, speeds)
        }),
        slow_workers_of(Seq::empty(), speeds, threshold) == Seq::<usize>::empty(),
        slow_workers_of(chunks.push(c), speeds, threshold) == (if c.state is InFlight
            && speeds.contains_key(c.state->worker_id) && speeds[c.state->worker_id] < threshold {
            slow_workers_of(chunks, speeds, threshold).push(c.state->worker_id)
        } else {
            slow_workers_of(chunks, speeds, threshold)
        }),
{
    reveal(Seq::filter);
    assert(chunks.push(c).drop_last() =~= chunks);
    assert(chunks.push(c).last() == c);
}

/// The first pending chunk is pending, and none before it is; there is one unless no chunk
/// is pending. Without chunks there is nothing to add up.
pub proof fn the_first_pending_chunk_is_first(chunks: Seq<Chunk>)
    ensures
        first_pending(chunks) is None <==> forall|i: int|
            0 <= i < chunks.len() ==> !((#[trigger] chunks[i]).state is Pending),
        first_pending(chunks) matches Some(k) ==> {
            &&& 0 <= k < chunks.len()
            &&& chunks[k].state is Pending
            &&& forall|i: int| 0 <= i < k ==> !((#[trigger] chunks[i]).state is Pending)
        },
        chunks.len() == 0 ==> sum_lengths(chunks) == 0,
    decreases chunks.len(),
{
    if chunks.len() > 0 {
        let rest = chunks.drop_last();
        the_first_pending_chunk_is_first(rest);
        assert forall|i: int| 0 <= i < rest.len() implies rest[i] == #[trigger] chunks[i] by {}
        if first_pending(rest) is None {
            assert forall|i: int| 0 <= i < chunks.len() - 1 implies !((
            #[trigger] chunks[i]).state is Pending) by {
                assert(!(rest[i].state is Pending));
            }
        }
        if let Some(k) = first_pending(rest) {
            assert(chunks[k] == rest[k]);
            assert forall|i: int| 0 <= i < k implies !((#[trigger] chunks[i]).state is Pending) by {
                assert(!(rest[i].state is Pending));
            }
        }
    }
}

} // verus!
