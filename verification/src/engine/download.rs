//! The download loop's decisions: which worker fetches what from where, what
//! finished workers mean, and when the download is over.

use crate::engine::chunk;
use crate::engine::chunk::{Chunk, ChunkMap, ChunkState, QueueView, WorkQueue};
use crate::engine::clock::Clock;
use crate::engine::mirror;
use crate::engine::mirror::{ErrorClass, MirrorPool, MirrorState, PoolView};
use crate::engine::speed;
use crate::engine::worker::WorkerResult;
use crate::text;
use std::collections::HashMap;
use vstd::prelude::*;

verus! {

/// A plan, with all text in view.
pub struct PlanView {
    pub chunks: Seq<Chunk>,
    pub urls: Seq<Seq<char>>,
    pub max_connections: usize,
    pub sequential: bool,
    pub work_stealing: bool,
    pub max_retries: u32,
    pub retry_delay_ms: u64,
    pub chunk_size: u64,
}

/// How a file is to be downloaded.
#[derive(Debug)]
pub struct Plan {
    pub chunk_map: ChunkMap,
    pub urls: Vec<String>,
    /// Most workers at a time, and most connections to one mirror
    pub max_connections: usize,
    pub sequential: bool,
    pub work_stealing: bool,
    pub max_retries: u32,
    /// Backoff of a mirror after a first failure
    pub retry_delay_ms: u64,
    /// Most bytes that one request asks for; 0 for no limit
    pub chunk_size: u64,
}

impl View for Plan {
    type V = PlanView;

    open spec fn view(&self) -> PlanView {
        PlanView {
            chunks: self.chunk_map.chunks@,
            urls: text::each(self.urls@),
            max_connections: self.max_connections,
            sequential: self.sequential,
            work_stealing: self.work_stealing,
            max_retries: self.max_retries,
            retry_delay_ms: self.retry_delay_ms,
            chunk_size: self.chunk_size,
        }
    }
}

/// A download can start with these chunks: none has an empty range, each stands
/// at its index, and each is pending, or complete and done.
pub open spec fn startable(chunks: Seq<Chunk>) -> bool {
    &&& chunk::all_ranged(chunks)
    &&& chunk::indexed(chunks)
    &&& forall|i: int|
        0 <= i < chunks.len() ==> (#[trigger] chunks[i]).state is Pending || (chunks[i].state
            is Complete && chunks[i].done())
}

impl Plan {
    /// Whether a download can start with the plan's chunks.
    pub fn is_startable(&self) -> (r: bool)
        ensures
            r == startable(self@.chunks),
    {
        let ghost chunks = self.chunk_map.chunks@;
        let mut i: usize = 0;
        while i < self.chunk_map.chunks.len()
            invariant
                i <= chunks.len(),
                chunks == self.chunk_map.chunks@,
                forall|k: int|
                    0 <= k < i ==> {
                        &&& (#[trigger] chunks[k]).is_ranged()
                        &&& chunks[k].index == k
                        &&& chunks[k].state is Pending || (chunks[k].state is Complete
                            && chunks[k].done())
                    },
            decreases chunks.len() - i,
        {
            let c = self.chunk_map.chunks[i];
            if c.start > c.end || c.index != i {
                assert(!chunks[i as int].is_ranged() || chunks[i as int].index != i);
                return false;
            }
            let waits = match c.state {
                ChunkState::Pending => true,
                ChunkState::Complete => c.is_complete(),
                _ => false,
            };
            if !waits {
                assert(!(chunks[i as int].state is Pending));
                return false;
            }
            i += 1;
        }
        true
    }
}

/// Where no chunk is in flight, none is counted.
pub proof fn none_in_flight(chunks: Seq<Chunk>)
    requires
        forall|i: int| 0 <= i < chunks.len() ==> !((#[trigger] chunks[i]).state is InFlight),
    ensures
        chunk::in_flight(chunks) == 0,
    decreases chunks.len(),
{
    if chunks.len() > 0 {
        assert(!(chunks[chunks.len() - 1].state is InFlight));
        assert forall|i: int| 0 <= i < chunks.len() - 1 implies !(
        (#[trigger] chunks.drop_last()[i]).state is InFlight) by {
            assert(!(chunks[i].state is InFlight));
        }
        none_in_flight(chunks.drop_last());
    }
}

/// What the download loop holds.
pub struct LoopView {
    pub queue: QueueView,
    pub pool: PoolView,
    /// The speed at which each chunk was completed, by its index
    pub speeds: Map<usize, u64>,
    pub next_worker: usize,
    /// Workers that have not been settled
    pub running: usize,
    pub max_connections: usize,
    pub sequential: bool,
    pub work_stealing: bool,
    pub max_retries: u32,
}

/// A chunk handed to a worker, and the mirror to fetch it from.
#[derive(Debug)]
pub struct Assignment {
    pub worker_id: usize,
    pub chunk: Chunk,
    pub mirror: String,
}

/// Where the loop stands after finished workers were settled.
#[derive(Debug, Clone, Copy, PartialEq, Eq, Structural)]
pub enum LoopStatus {
    /// Every chunk is done and no worker is left
    Done,
    Running,
    /// Nothing is being fetched and every mirror is banned
    NoMirrors,
    /// A chunk has used up its retries
    GivenUp { chunk_index: usize, attempts: u32 },
}

/// Every chunk is done: it counts as fetched whole.
pub open spec fn all_done(chunks: Seq<Chunk>) -> bool {
    forall|i: int| 0 <= i < chunks.len() ==> (#[trigger] chunks[i]).done()
}

/// The chunk that the next worker gets, and the queue after it was handed out: a
/// pending chunk first; while others are at work, half of a slow one's chunk.
pub open spec fn next_chunk(l: LoopView) -> Option<(QueueView, Chunk)> {
    let q = l.queue;
    match chunk::claim_target(q.chunks, l.sequential) {
        Some(i) => {
            let after = chunk::assigned(q.chunks, i, l.next_worker);
            Some((QueueView { chunks: after, ..q }, after[i]))
        },
        None => if l.work_stealing && l.running > 0 {
            match chunk::steal_target(q) {
                Some(i) => {
                    let after = chunk::after_steal(q.chunks, i, l.next_worker);
                    Some((QueueView { chunks: after, ..q }, after.last()))
                },
                None => None,
            }
        } else {
            None
        },
    }
}

/// What the next worker is told at `now`: the chunk and the mirror's URL; nothing
/// where no worker may start, nothing is left to fetch or no mirror is free.
pub open spec fn assignment(l: LoopView, now: u128) -> Option<(Chunk, Seq<char>)> {
    if l.running >= l.max_connections {
        None
    } else {
        match (next_chunk(l), mirror::pick_target(l.pool, now)) {
            (Some((_, c)), Some(m)) => Some((c, l.pool.mirrors[m].url@)),
            _ => None,
        }
    }
}

/// The loop after the next worker was assigned at `now`; nothing changes where
/// none starts.
pub open spec fn after_assign(l: LoopView, now: u128) -> LoopView {
    if assignment(l, now) is None {
        l
    } else {
        let m = mirror::pick_target(l.pool, now)->0;
        let chunk_taken = next_chunk(l)->0;
        LoopView {
            queue: chunk_taken.0,
            pool: PoolView {
                mirrors: l.pool.mirrors.update(m, mirror::connected(l.pool.mirrors[m])),
                ..l.pool
            },
            next_worker: (l.next_worker + 1) as usize,
            running: (l.running + 1) as usize,
            ..l
        }
    }
}

/// The class of a worker's failure: by its status, where it has one.
pub open spec fn failure_class(status_code: Option<u16>) -> ErrorClass {
    match status_code {
        Some(status) => mirror::class_of(status),
        None => ErrorClass::RetriableWithBackoff,
    }
}

/// The loop after a worker's result was settled at `now`.
pub open spec fn after_settle(l: LoopView, result: WorkerResult, now: u128) -> LoopView {
    let fewer = LoopView { running: (l.running - 1) as usize, ..l };
    match result {
        WorkerResult::Complete { chunk_index, bytes, speed_bps, mirror: url } => LoopView {
            queue: chunk::after_complete(l.queue, chunk_index, bytes),
            pool: mirror::after_success(l.pool, url@, speed_bps),
            speeds: l.speeds.insert(chunk_index, speed_bps),
            ..fewer
        },
        WorkerResult::Failed { chunk_index, mirror: url, error: _, status_code } => LoopView {
            queue: chunk::after_failed(l.queue, chunk_index),
            pool: mirror::after_failure(l.pool, url@, failure_class(status_code), now),
            ..fewer
        },
    }
}

/// The loop after it was checked: while it is not over, failed chunks that may
/// be retried become pending again.
pub open spec fn after_check(l: LoopView) -> LoopView {
    if all_done(l.queue.chunks) && l.running == 0 {
        l
    } else {
        LoopView { queue: chunk::after_reset(l.queue, l.max_retries), ..l }
    }
}

/// Where the loop stands.
pub open spec fn status_of(l: LoopView) -> LoopStatus {
    if all_done(l.queue.chunks) && l.running == 0 {
        LoopStatus::Done
    } else {
        let chunks = chunk::after_reset(l.queue, l.max_retries).chunks;
        match chunk::first_failed(chunks) {
            Some(i) => LoopStatus::GivenUp {
                chunk_index: chunks[i].index,
                attempts: chunks[i].state->attempts,
            },
            None => if l.running == 0 && mirror::every_banned(l.pool) {
                LoopStatus::NoMirrors
            } else {
                LoopStatus::Running
            },
        }
    }
}

/// The state of one file's download: its chunks, its mirrors and its workers.
#[derive(Debug)]
pub struct DownloadLoop {
    queue: WorkQueue,
    mirrors: MirrorPool,
    worker_speeds: HashMap<usize, u64>,
    next_worker: usize,
    running: usize,
    max_connections: usize,
    sequential: bool,
    work_stealing: bool,
    max_retries: u32,
    clock: Clock,
}

impl View for DownloadLoop {
    type V = LoopView;

    closed spec fn view(&self) -> LoopView {
        LoopView {
            queue: self.queue@,
            pool: self.mirrors@,
            speeds: self.worker_speeds@,
            next_worker: self.next_worker,
            running: self.running,
            max_connections: self.max_connections,
            sequential: self.sequential,
            work_stealing: self.work_stealing,
            max_retries: self.max_retries,
        }
    }
}

/// The chunks marked complete are done.
pub open spec fn settled(chunks: Seq<Chunk>) -> bool {
    forall|i: int|
        0 <= i < chunks.len() && (#[trigger] chunks[i]).state is Complete ==> chunks[i].done()
}

/// Every chunk in flight has a worker of its own, with a number below `next`.
pub open spec fn owned(chunks: Seq<Chunk>, next: usize) -> bool {
    &&& forall|i: int|
        0 <= i < chunks.len() ==> (chunk::worker_of(#[trigger] chunks[i]) matches Some(w) ==> w
            < next)
    &&& forall|i: int, j: int|
        0 <= i < j < chunks.len() && chunk::worker_of(#[trigger] chunks[i]) is Some
            ==> chunk::worker_of(chunks[i]) != chunk::worker_of(#[trigger] chunks[j])
}

/// The failures are tallied: a failed chunk's count is remembered, and any other
/// chunk has not failed more often than it may be retried.
pub open spec fn tallied(q: QueueView, max_retries: u32) -> bool {
    &&& forall|i: int|
        0 <= i < q.chunks.len() ==> match (#[trigger] q.chunks[i]).state {
            ChunkState::Failed { attempts } => q.failures.contains_key(q.chunks[i].index)
                && q.failures[q.chunks[i].index] == attempts,
            _ => chunk::failures_of(q.chunks[i], q.failures) <= max_retries,
        }
    &&& forall|k: usize| #[trigger] q.failures.contains_key(k) ==> k < q.chunks.len()
}

/// What every operation keeps: no range is empty, each chunk stands at its index,
/// the chunks in flight are as many as the workers at work, each of these has its
/// own chunk, what is marked complete is done, and the failures are tallied.
pub open spec fn sound(l: LoopView) -> bool {
    &&& chunk::all_ranged(l.queue.chunks)
    &&& chunk::indexed(l.queue.chunks)
    &&& chunk::in_flight(l.queue.chunks) == l.running
    &&& owned(l.queue.chunks, l.next_worker)
    &&& settled(l.queue.chunks)
    &&& tallied(l.queue, l.max_retries)
}

/// The connections are accounted for: no mirror stands twice in the pool, and as
/// many connections are open as workers are at work. (Of a mirror that stands twice,
/// the reports on both go to the first.)
pub open spec fn accounted(l: LoopView) -> bool {
    &&& mirror::all_apart(l.pool.mirrors)
    &&& mirror::sum_connections(l.pool.mirrors) == l.running
}

/// A worker is at work on the chunk with this index.
pub open spec fn awaited(l: LoopView, chunk_index: usize) -> bool {
    chunk::position(l.queue.chunks, chunk_index) matches Some(i)
        && l.queue.chunks[i].state is InFlight
}

/// The chunk that a worker's result is about.
pub open spec fn chunk_of(result: WorkerResult) -> usize {
    match result {
        WorkerResult::Complete { chunk_index, .. } => chunk_index,
        WorkerResult::Failed { chunk_index, .. } => chunk_index,
    }
}

/// The mirror that a worker's result is about.
pub open spec fn mirror_of(result: WorkerResult) -> Seq<char> {
    match result {
        WorkerResult::Complete { mirror, .. } => mirror@,
        WorkerResult::Failed { mirror, .. } => mirror@,
    }
}

/// The result of a worker that is at work.
pub open spec fn expected(l: LoopView, result: WorkerResult) -> bool {
    awaited(l, chunk_of(result))
}

/// A worker that is at work.
pub open spec fn stoppable(l: LoopView, worker_id: usize) -> bool {
    chunk::held_by(l.queue.chunks, worker_id) is Some
}

/// The loop after a worker's report of its progress; a report on a chunk that is
/// not in flight comes too late and changes nothing.
pub open spec fn after_report(l: LoopView, chunk_index: usize, bytes_so_far: u64) -> LoopView {
    if awaited(l, chunk_index) {
        LoopView {
            queue: chunk::after_progress(l.queue, chunk_index, bytes_so_far),
            ..l
        }
    } else {
        l
    }
}

/// The loop after a worker was stopped: its chunk is pending again, its connection
/// to the mirror is given back, and one worker fewer is at work.
pub open spec fn after_restart(l: LoopView, worker_id: usize, url: Seq<char>) -> LoopView {
    if stoppable(l, worker_id) {
        LoopView {
            queue: chunk::after_hand_back(l.queue, worker_id),
            pool: mirror::after_release(l.pool, url),
            running: (l.running - 1) as usize,
            ..l
        }
    } else {
        l
    }
}

impl DownloadLoop {
    /// What every operation keeps.
    pub open spec fn wf(self) -> bool {
        sound(self@)
    }

    pub fn new(plan: Plan) -> (l: Self)
        requires
            startable(plan@.chunks),
        ensures
            l.wf(),
            l@ == (LoopView {
                queue: QueueView {
                    chunks: plan@.chunks,
                    written: 0,
                    speeds: Map::empty(),
                    failures: Map::empty(),
                },
                pool: mirror::fresh_pool(
                    plan.urls@,
                    plan@.max_connections,
                    plan@.retry_delay_ms,
                ),
                speeds: Map::empty(),
                next_worker: 0,
                running: 0,
                max_connections: plan@.max_connections,
                sequential: plan@.sequential,
                work_stealing: plan@.work_stealing,
                max_retries: plan@.max_retries,
            }),
    {
        proof {
            none_in_flight(plan@.chunks);
        }
        DownloadLoop {
            queue: WorkQueue::new(plan.chunk_map),
            mirrors: MirrorPool::with_retry_delay(
                plan.urls,
                plan.max_connections,
                plan.retry_delay_ms,
            ),
            worker_speeds: HashMap::new(),
            next_worker: 0,
            running: 0,
            max_connections: plan.max_connections,
            sequential: plan.sequential,
            work_stealing: plan.work_stealing,
            max_retries: plan.max_retries,
            clock: Clock::start(),
        }
    }

    /// Whether the result is that of a worker at work, so that it can be settled.
    pub fn awaits(&self, result: &WorkerResult) -> (r: bool)
        ensures
            r == expected(self@, *result),
    {
        match result {
            WorkerResult::Complete { chunk_index, .. } => self.queue.is_in_flight(*chunk_index),
            WorkerResult::Failed { chunk_index, .. } => self.queue.is_in_flight(*chunk_index),
        }
    }

    /// Settle a finished worker.
    pub fn settle(&mut self, result: WorkerResult)
        requires
            old(self).wf(),
            expected(old(self)@, result),
        ensures
            final(self).wf(),
            exists|now: u128| final(self)@ == #[trigger] after_settle(old(self)@, result, now),
    {
        let now: u128 = self.clock.now();
        self.settle_at(result, now);
    }

    /// `settle` at `now`, in nanoseconds on the pool's clock.
    pub fn settle_at(&mut self, result: WorkerResult, now: u128)
        requires
            old(self).wf(),
            expected(old(self)@, result),
        ensures
            final(self).wf(),
            final(self)@ == after_settle(old(self)@, result, now),
    {
        proof {
            settling_keeps_the_loop_sound(self@, result, now);
            let i = chunk::position(self@.queue.chunks, chunk_of(result))->0;
            chunk::position_is_first(self@.queue.chunks, chunk_of(result));
            chunk::in_flight_after_update(
                self@.queue.chunks,
                i,
                Chunk { state: ChunkState::Pending, ..self@.queue.chunks[i] },
            );
        }
        self.running = self.running - 1;
        proof {
            if let WorkerResult::Complete { chunk_index, .. } = result {
                chunk::position_is_first(self@.queue.chunks, chunk_index);
            }
        }
        match result {
            WorkerResult::Complete { chunk_index, bytes, speed_bps, mirror } => {
                self.queue.mark_complete(chunk_index, bytes);
                self.mirrors.report_success(mirror.as_str(), speed_bps);
                self.worker_speeds.insert(chunk_index, speed_bps);
            },
            WorkerResult::Failed { chunk_index, mirror, error: _, status_code } => {
                self.queue.mark_failed(chunk_index);
                let class = match status_code {
                    Some(status) => ErrorClass::from_status(status),
                    None => ErrorClass::from_connection_error(),
                };
                self.mirrors.report_failure_at(mirror.as_str(), class, now);
            },
        }
    }

    /// After the finished workers were settled: is the download over? Failed
    /// chunks that have retries left are made pending again.
    pub fn check(&mut self) -> (status: LoopStatus)
        requires
            old(self).wf(),
        ensures
            final(self).wf(),
            final(self)@ == after_check(old(self)@),
            status == status_of(old(self)@),
    {
        proof {
            checking_keeps_the_loop_sound(self@);
        }
        let done = self.queue.all_complete();
        if done && self.running == 0 {
            return LoopStatus::Done;
        }
        let _ = self.queue.reset_failed(self.max_retries);
        match self.queue.failed_chunk() {
            Some((chunk_index, attempts)) => LoopStatus::GivenUp { chunk_index, attempts },
            None => if self.running == 0 && self.mirrors.all_banned() {
                LoopStatus::NoMirrors
            } else {
                LoopStatus::Running
            },
        }
    }

    /// Hand the next chunk to a new worker, if one may start.
    pub fn assign(&mut self) -> (a: Option<Assignment>)
        requires
            old(self).wf(),
            old(self)@.next_worker < usize::MAX,
        ensures
            final(self).wf(),
            exists|now: u128|
                final(self)@ == #[trigger] after_assign(old(self)@, now) && assigned_as(
                    a,
                    old(self)@,
                    now,
                ),
    {
        let now: u128 = self.clock.now();
        self.assign_at(now)
    }

    /// `assign` at `now`, in nanoseconds on the pool's clock.
    pub fn assign_at(&mut self, now: u128) -> (a: Option<Assignment>)
        requires
            old(self).wf(),
            old(self)@.next_worker < usize::MAX,
        ensures
            final(self).wf(),
            final(self)@ == after_assign(old(self)@, now),
            assigned_as(a, old(self)@, now),
    {
        proof {
            self.queue.chunks_are_countable();
            assigning_keeps_the_loop_sound(self@, now);
        }
        if self.running >= self.max_connections || !self.mirrors.can_pick_at(now) {
            return None;
        }
        let worker_id: usize = self.next_worker;
        let claimed = match self.queue.claim_next(worker_id, self.sequential) {
            Some(c) => Some(c),
            None => if self.work_stealing && self.running > 0 {
                self.queue.steal(worker_id)
            } else {
                None
            },
        };
        match claimed {
            None => None,
            Some(chunk) => match self.mirrors.pick_at(now) {
                None => None,
                Some(mirror) => {
                    self.next_worker = worker_id + 1;
                    self.running = self.running + 1;
                    Some(Assignment { worker_id, chunk, mirror })
                },
            },
        }
    }

    /// A worker's report of its progress.
    pub fn update_progress(&mut self, chunk_index: usize, bytes_so_far: u64)
        requires
            old(self).wf(),
        ensures
            final(self).wf(),
            final(self)@ == after_report(old(self)@, chunk_index, bytes_so_far),
    {
        proof {
            reporting_keeps_the_loop_sound(self@, chunk_index, bytes_so_far);
        }
        if self.queue.is_in_flight(chunk_index) {
            self.queue.update_progress(chunk_index, bytes_so_far);
        }
    }

    /// The median of the recorded speeds of the workers at work; 0 where none is
    /// recorded.
    pub fn median_speed(&self) -> (bps: u64)
        ensures
            bps == speed::percentile_of(
                chunk::working_speeds(self@.queue.chunks, self@.queue.speeds),
                50,
            ),
    {
        let speeds = self.queue.speeds_at_work();
        speed::percentile(speeds.as_slice(), 50)
    }

    /// The workers at work whose recorded speed is below the threshold: they are to
    /// be stopped and their chunks started again.
    pub fn slow_workers(&self, threshold: u64) -> (ids: Vec<usize>)
        ensures
            ids@ == chunk::slow_workers_of(self@.queue.chunks, self@.queue.speeds, threshold),
            forall|w: usize| #[trigger]
                ids@.contains(w) <==> self@.queue.speeds.contains_key(w)
                    && self@.queue.speeds[w] < threshold && (exists|i: int|
                    0 <= i < self@.queue.chunks.len() && chunk::worker_of(
                        #[trigger] self@.queue.chunks[i],
                    ) == Some(w)),
    {
        let ids = self.queue.slow_workers(threshold);
        proof {
            assert forall|w: usize| #[trigger] ids@.contains(w) <==> self@.queue.speeds.contains_key(
                w,
            ) && self@.queue.speeds[w] < threshold && (exists|i: int|
                0 <= i < self@.queue.chunks.len() && chunk::worker_of(
                    #[trigger] self@.queue.chunks[i],
                ) == Some(w)) by {
                chunk::slow_workers_are_below_the_threshold(
                    self@.queue.chunks,
                    self@.queue.speeds,
                    threshold,
                    w,
                );
            }
        }
        ids
    }

    /// A worker was stopped: its chunk can be started again by a new worker.
    /// `mirror` is where it was connected. Returns whether the worker was at work;
    /// nothing changes where it was not.
    pub fn restart(&mut self, worker_id: usize, mirror: &str) -> (stopped: bool)
        requires
            old(self).wf(),
        ensures
            final(self).wf(),
            final(self)@ == after_restart(old(self)@, worker_id, mirror@),
            stopped == stoppable(old(self)@, worker_id),
    {
        proof {
            restarting_keeps_the_loop_sound(self@, worker_id, mirror@);
            if let Some(i) = chunk::held_by(self@.queue.chunks, worker_id) {
                chunk::held_by_is_first(self@.queue.chunks, worker_id);
                chunk::in_flight_after_update(
                    self@.queue.chunks,
                    i,
                    Chunk { state: ChunkState::Pending, ..self@.queue.chunks[i] },
                );
            }
        }
        if !self.queue.hand_back(worker_id) {
            return false;
        }
        self.mirrors.release(mirror);
        self.running = self.running - 1;
        true
    }

    /// A worker's report of its speed.
    pub fn update_worker_speed(&mut self, worker_id: usize, speed_bps: u64)
        requires
            old(self).wf(),
        ensures
            final(self).wf(),
            final(self)@ == (LoopView {
                queue: QueueView {
                    speeds: old(self)@.queue.speeds.insert(worker_id, speed_bps),
                    ..old(self)@.queue
                },
                ..old(self)@
            }),
    {
        self.queue.update_worker_speed(worker_id, speed_bps);
    }

    /// Bytes of the file that are there so far, those of an earlier run included;
    /// at most the largest number there is.
    pub fn fetched(&self) -> (n: u64)
        ensures
            n == (if chunk::sum_downloaded(self@.queue.chunks) <= u64::MAX {
                chunk::sum_downloaded(self@.queue.chunks)
            } else {
                u64::MAX as int
            }),
    {
        self.queue.snapshot().downloaded_so_far()
    }

    /// Bytes written so far.
    pub fn downloaded(&self) -> (n: u64)
        ensures
            n == self@.queue.written,
    {
        self.queue.written()
    }

    /// Workers at work.
    pub fn connections(&self) -> (n: usize)
        ensures
            n == self@.running,
    {
        self.running
    }

    /// Workers started so far.
    pub fn workers_started(&self) -> (n: usize)
        ensures
            n == self@.next_worker,
    {
        self.next_worker
    }

    /// P75 of the speeds at which chunks were completed.
    pub fn p75_speed(&self) -> (value: u64)
        ensures
            is_p75(value, self@.speeds),
    {
        p75_speed(&self.worker_speeds)
    }

    /// A copy of the chunk map.
    pub fn snapshot(&self) -> (map: ChunkMap)
        ensures
            map.chunks@ == self@.queue.chunks,
    {
        self.queue.snapshot()
    }
}

/// What `assign` returns.
pub open spec fn assigned_as(a: Option<Assignment>, l: LoopView, now: u128) -> bool {
    match assignment(l, now) {
        Some((chunk, url)) => {
            &&& a is Some
            &&& a->0.worker_id == l.next_worker
            &&& a->0.chunk == chunk
            &&& a->0.mirror@ == url
        },
        None => a is None,
    }
}

/// What is said of a loop that stopped without success.
pub open spec fn stop_text(status: LoopStatus) -> Option<Seq<char>> {
    match status {
        LoopStatus::GivenUp { chunk_index, attempts } => Some(
            "Chunk "@ + text::decimal(chunk_index as nat) + " failed after "@ + text::decimal(
                attempts as nat,
            ) + " attempts"@,
        ),
        LoopStatus::NoMirrors => Some("All mirrors are banned"@),
        _ => None,
    }
}

/// The error of a loop that stopped without success; `None` where it goes on or is
/// done.
pub fn stop_message(status: LoopStatus) -> (message: Option<String>)
    ensures
        text::opt(message) == stop_text(status),
{
    match status {
        LoopStatus::GivenUp { chunk_index, attempts } => {
            let mut message: String = "Chunk ".to_string();
            let index: String = text::decimal_string(chunk_index as u64);
            let count: String = text::decimal_string(attempts as u64);
            message.append(index.as_str());
            message.append(" failed after ");
            message.append(count.as_str());
            message.append(" attempts");
            Some(message)
        },
        LoopStatus::NoMirrors => Some("All mirrors are banned".to_string()),
        _ => None,
    }
}

// ─── P75 of worker speeds ────────────────────────────────────────────────────

/// The speeds under these keys, in their order.
pub open spec fn values_at(speeds: Map<usize, u64>, keys: Seq<usize>) -> Seq<u64> {
    keys.map_values(|k: usize| speeds[k])
}

/// The value is the 75th percentile of the map's speeds, in whatever order they
/// are listed.
pub open spec fn is_p75(value: u64, speeds: Map<usize, u64>) -> bool {
    forall|keys: Seq<usize>|
        keys.no_duplicates() && keys.to_set() == speeds.dom() ==> value == speed::percentile_of(
            #[trigger] values_at(speeds, keys),
            75,
        )
}

proof fn lemma_values_multiset(a: Seq<usize>, b: Seq<usize>, speeds: Map<usize, u64>)
    requires
        a.no_duplicates(),
        b.no_duplicates(),
        a.to_set() == b.to_set(),
    ensures
        values_at(speeds, a).to_multiset() == values_at(speeds, b).to_multiset(),
    decreases a.len(),
{
    let f = |k: usize| speeds[k];
    a.unique_seq_to_set();
    b.unique_seq_to_set();
    if a.len() == 0 {
        assert(a.map_values(f) =~= b.map_values(f));
    } else {
        let x = a.last();
        assert(a.to_set().contains(x));
        assert(b.contains(x));
        let j = choose|j: int| 0 <= j < b.len() && b[j] == x;
        let a2 = a.drop_last();
        let b2 = b.remove(j);
        assert(a2.no_duplicates());
        assert(b2.no_duplicates());
        assert forall|k: usize| a2.to_set().contains(k) <==> b2.to_set().contains(k) by {
            if a2.to_set().contains(k) {
                let p = choose|p: int| 0 <= p < a2.len() && a2[p] == k;
                assert(a[p] == k);
                assert(a.to_set().contains(k));
                assert(b.contains(k));
                let q = choose|q: int| 0 <= q < b.len() && b[q] == k;
                assert(k != x);
                assert(b2[if q < j { q } else { q - 1 }] == k);
            }
            if b2.to_set().contains(k) {
                let p = choose|p: int| 0 <= p < b2.len() && b2[p] == k;
                let q = if p < j { p } else { p + 1 };
                assert(b[q] == k);
                assert(b.to_set().contains(k));
                assert(a.contains(k));
                let r = choose|r: int| 0 <= r < a.len() && a[r] == k;
                assert(k != x);
                assert(a2[r] == k);
            }
        }
        assert(a2.to_set() =~= b2.to_set());
        lemma_values_multiset(a2, b2, speeds);
        vstd::seq_lib::to_multiset_build(a2.map_values(f), f(x));
        assert(a.map_values(f) =~= a2.map_values(f).push(f(x)));
        vstd::seq_lib::to_multiset_insert(b2.map_values(f), j, f(x));
        assert(b.map_values(f) =~= b2.map_values(f).insert(j, f(x)));
    }
}

/// Calculate P75 (75th percentile) of worker speeds.
/// More robust than median for small sample sizes.
pub fn p75_speed(speeds: &HashMap<usize, u64>) -> (value: u64)
    ensures
        is_p75(value, speeds@),
{
    let mut vals: Vec<u64> = Vec::new();
    let mut ids: Vec<usize> = Vec::new();
    let keys = speeds.keys();
    let ghost refs = vstd::std_specs::iter::IteratorSpec::remaining(&keys);
    let ghost listed = refs.unref();
    for id in it: keys
        invariant
            it.seq().unref() == listed,
            listed.to_set() == speeds@.dom(),
            ids@ == listed.take(it.index()),
            vals@ == values_at(speeds@, ids@),
    {
        assert(speeds@.contains_key(*id));
        match speeds.get(id) {
            Some(v) => {
                vals.push(*v);
            },
            None => {},
        }
        ids.push(*id);
    }
    proof {
        assert(ids@ =~= listed);
        assert(listed.no_duplicates()) by {
            assert(refs.no_duplicates());
            assert forall|i: int, j: int| 0 <= i < j < listed.len() implies listed[i]
                != listed[j] by {
                assert(refs[i] != refs[j]);
            }
        }
        assert forall|order: Seq<usize>|
            order.no_duplicates() && order.to_set()
                == speeds@.dom() implies speed::percentile_of(
            #[trigger] values_at(speeds@, order),
            75,
        ) == speed::percentile_of(vals@, 75) by {
            lemma_values_multiset(order, listed, speeds@);
            speed::percentile_ignores_order(values_at(speeds@, order), vals@, 75);
        }
    }
    speed::p75(vals.as_slice())
}

// ─── Laws ────────────────────────────────────────────────────────────────────

proof fn lemma_in_flight_is_zero(chunks: Seq<Chunk>)
    requires
        chunk::in_flight(chunks) == 0,
    ensures
        forall|i: int| 0 <= i < chunks.len() ==> !((#[trigger] chunks[i]).state is InFlight),
    decreases chunks.len(),
{
    if chunks.len() > 0 {
        lemma_in_flight_is_zero(chunks.drop_last());
        assert forall|i: int| 0 <= i < chunks.len() implies !(
        (#[trigger] chunks[i]).state is InFlight) by {
            if i < chunks.len() - 1 {
                assert(!(chunks.drop_last()[i].state is InFlight));
            }
        }
    }
}

proof fn lemma_fresh_mirrors_are_unused(mirrors: Seq<MirrorState>)
    requires
        forall|i: int| 0 <= i < mirrors.len() ==> (#[trigger] mirrors[i]).active_connections == 0,
    ensures
        mirror::sum_connections(mirrors) == 0,
    decreases mirrors.len(),
{
    if mirrors.len() > 0 {
        assert forall|i: int| 0 <= i < mirrors.len() - 1 implies (
        #[trigger] mirrors.drop_last()[i]).active_connections == 0 by {
            assert(mirrors[i].active_connections == 0);
        }
        lemma_fresh_mirrors_are_unused(mirrors.drop_last());
        assert(mirrors[mirrors.len() - 1].active_connections == 0);
    }
}

/// A change of the mirror with this URL that gives one connection back.
proof fn lemma_one_connection_fewer(before: PoolView, after: PoolView, url: Seq<char>)
    requires
        mirror::in_use(before, url),
        mirror::all_apart(before.mirrors),
        ({
            let i = mirror::mirror_at(before.mirrors, url)->0;
            &&& after.mirrors == before.mirrors.update(i, after.mirrors[i])
            &&& after.mirrors[i].url == before.mirrors[i].url
            &&& after.mirrors[i].active_connections == before.mirrors[i].active_connections - 1
        }),
    ensures
        mirror::sum_connections(after.mirrors) == mirror::sum_connections(before.mirrors) - 1,
        mirror::all_apart(after.mirrors),
{
    let i = mirror::mirror_at(before.mirrors, url)->0;
    mirror::mirror_at_is_first(before.mirrors, url);
    mirror::connections_after_update(before.mirrors, i, after.mirrors[i]);
    assert forall|a: int, b: int| 0 <= a < b < after.mirrors.len() implies (
    #[trigger] after.mirrors[a]).url@ != (#[trigger] after.mirrors[b]).url@ by {
        assert(before.mirrors[a].url@ != before.mirrors[b].url@);
    }
}

proof fn lemma_same_ranges(before: Seq<Chunk>, after: Seq<Chunk>)
    requires
        chunk::same_ranges(before, after),
    ensures
        chunk::all_ranged(before) ==> chunk::all_ranged(after),
        chunk::indexed(before) ==> chunk::indexed(after),
        forall|total: int|
            chunk::partitions(before, total) ==> #[trigger] chunk::partitions(after, total),
{
    chunk::coverage_depends_on_ranges(before, after, 0);
    assert forall|total: int| chunk::partitions(before, total) implies #[trigger] chunk::partitions(
        after,
        total,
    ) by {
        chunk::coverage_depends_on_ranges(before, after, total);
    }
}

/// Settling a worker's result keeps the loop sound, and the bytes that the chunks
/// cover.
pub proof fn settling_keeps_the_loop_sound(l: LoopView, result: WorkerResult, now: u128)
    requires
        sound(l),
        expected(l, result),
    ensures
        sound(after_settle(l, result, now)),
        forall|total: int|
            chunk::partitions(l.queue.chunks, total) ==> #[trigger] chunk::partitions(
                after_settle(l, result, now).queue.chunks,
                total,
            ),
{
    let before = l.queue.chunks;
    let after = after_settle(l, result, now).queue.chunks;
    let index = chunk_of(result);
    let i = chunk::position(before, index)->0;
    chunk::position_is_first(before, index);
    match result {
        WorkerResult::Complete { bytes, .. } => {
            chunk::bookkeeping_keeps_ranges(l.queue, i, index, 0, bytes, 0);
        },
        WorkerResult::Failed { .. } => {
            chunk::bookkeeping_keeps_ranges(l.queue, i, index, 0, 0, 0);
        },
    }
    lemma_same_ranges(before, after);
    assert(after =~= before.update(i, after[i]));
    chunk::in_flight_after_update(before, i, after[i]);
    assert(before[i].is_ranged());
    assert forall|a: int, b: int|
        0 <= a < b < after.len() && chunk::worker_of(#[trigger] after[a])
            is Some implies chunk::worker_of(after[a]) != chunk::worker_of(
        #[trigger] after[b],
    ) by {
        assert(chunk::worker_of(before[a]) != chunk::worker_of(before[b]));
    }
}

/// A new pool of mirrors that are named once is accounted for: none stands twice in
/// it, and no connection is open.
pub proof fn a_new_pool_is_accounted_for(
    urls: Seq<String>,
    max_per_mirror: usize,
    retry_delay_ms: u64,
)
    requires
        forall|i: int, j: int|
            0 <= i < j < urls.len() ==> (#[trigger] urls[i])@ != (#[trigger] urls[j])@,
    ensures
        ({
            let mirrors = mirror::fresh_pool(urls, max_per_mirror, retry_delay_ms).mirrors;
            mirror::all_apart(mirrors) && mirror::sum_connections(mirrors) == 0
        }),
{
    let mirrors = mirror::fresh_pool(urls, max_per_mirror, retry_delay_ms).mirrors;
    lemma_fresh_mirrors_are_unused(mirrors);
    assert forall|i: int, j: int| 0 <= i < j < mirrors.len() implies (
    #[trigger] mirrors[i]).url@ != (#[trigger] mirrors[j]).url@ by {
        assert(urls[i]@ != urls[j]@);
    }
}

/// The connections stay accounted for: whoever starts opens one, and whoever ends or
/// is stopped gives one back, as long as reports name the mirror that was in use.
pub proof fn the_connections_stay_accounted_for(
    l: LoopView,
    now: u128,
    result: WorkerResult,
    worker_id: usize,
    url: Seq<char>,
)
    requires
        sound(l),
        accounted(l),
    ensures
        accounted(after_check(l)),
        accounted(after_assign(l, now)),
        expected(l, result) && mirror::in_use(l.pool, mirror_of(result)) ==> accounted(
            after_settle(l, result, now),
        ),
        stoppable(l, worker_id) && mirror::in_use(l.pool, url) ==> accounted(
            after_restart(l, worker_id, url),
        ),
{
    let mirrors = l.pool.mirrors;
    if assignment(l, now) is Some {
        let m = mirror::pick_target(l.pool, now)->0;
        mirror::pick_follows_the_selection_order(l.pool, now);
        mirror::connections_after_update(mirrors, m, mirror::connected(mirrors[m]));
        assert forall|a: int, b: int| 0 <= a < b < mirrors.len() implies (
        #[trigger] after_assign(l, now).pool.mirrors[a]).url@ != (#[trigger] after_assign(
            l,
            now,
        ).pool.mirrors[b]).url@ by {
            assert(mirrors[a].url@ != mirrors[b].url@);
        }
    }
    if expected(l, result) && mirror::in_use(l.pool, mirror_of(result)) {
        chunk::position_is_first(l.queue.chunks, chunk_of(result));
        lemma_someone_is_at_work(l, chunk::position(l.queue.chunks, chunk_of(result))->0);
        mirror::mirror_at_is_first(mirrors, mirror_of(result));
        lemma_one_connection_fewer(l.pool, after_settle(l, result, now).pool, mirror_of(result));
    }
    if stoppable(l, worker_id) && mirror::in_use(l.pool, url) {
        chunk::held_by_is_first(l.queue.chunks, worker_id);
        lemma_someone_is_at_work(l, chunk::held_by(l.queue.chunks, worker_id)->0);
        mirror::mirror_at_is_first(mirrors, url);
        lemma_one_connection_fewer(l.pool, after_restart(l, worker_id, url).pool, url);
    }
}

/// While a chunk is in flight, a worker is at work.
proof fn lemma_someone_is_at_work(l: LoopView, i: int)
    requires
        sound(l),
        0 <= i < l.queue.chunks.len(),
        l.queue.chunks[i].state is InFlight,
    ensures
        0 < l.running,
{
    chunk::in_flight_after_update(
        l.queue.chunks,
        i,
        Chunk { state: ChunkState::Pending, ..l.queue.chunks[i] },
    );
}

/// Checking keeps the loop sound, and the bytes that the chunks cover.
pub proof fn checking_keeps_the_loop_sound(l: LoopView)
    requires
        sound(l),
    ensures
        sound(after_check(l)),
        forall|total: int|
            chunk::partitions(l.queue.chunks, total) ==> #[trigger] chunk::partitions(
                after_check(l).queue.chunks,
                total,
            ),
{
    let before = l.queue.chunks;
    let after = after_check(l).queue.chunks;
    if before.len() > 0 {
        chunk::bookkeeping_keeps_ranges(l.queue, 0, 0, 0, 0, l.max_retries);
    }
    lemma_same_ranges(before, after);
    assert forall|i: int| 0 <= i < before.len() implies {
        &&& (#[trigger] before[i]).state is InFlight <==> (#[trigger] after[i]).state is InFlight
        &&& after[i].state is InFlight || after[i].state is Complete ==> after[i] == before[i]
    } by {}
    chunk::in_flight_depends_on_states(before, after);
    assert forall|a: int, b: int|
        0 <= a < b < after.len() && chunk::worker_of(#[trigger] after[a])
            is Some implies chunk::worker_of(after[a]) != chunk::worker_of(
        #[trigger] after[b],
    ) by {
        assert(chunk::worker_of(before[a]) != chunk::worker_of(before[b]));
    }
}

/// Assigning work keeps the loop sound, and the bytes that the chunks cover: a
/// steal divides a range and loses nothing of it.
pub proof fn assigning_keeps_the_loop_sound(l: LoopView, now: u128)
    requires
        sound(l),
        l.queue.chunks.len() <= usize::MAX,
        l.next_worker < usize::MAX,
    ensures
        sound(after_assign(l, now)),
        forall|total: int|
            chunk::partitions(l.queue.chunks, total) ==> #[trigger] chunk::partitions(
                after_assign(l, now).queue.chunks,
                total,
            ),
{
    let before = l.queue.chunks;
    let after = after_assign(l, now).queue.chunks;
    if assignment(l, now) is Some {
        match chunk::claim_target(before, l.sequential) {
            Some(i) => {
                chunk::claims_are_exclusive(before, l.sequential, l.sequential, l.next_worker);
                chunk::bookkeeping_keeps_ranges(l.queue, i, 0, l.next_worker, 0, 0);
                lemma_same_ranges(before, after);
                chunk::in_flight_after_update(before, i, after[i]);
            },
            None => {
                let i = chunk::steal_target(l.queue)->0;
                chunk::steals_from_the_slowest(l.queue);
                chunk::stealing_preserves_coverage(l.queue, l.next_worker, 0);
                assert forall|total: int|
                    chunk::partitions(before, total) implies #[trigger] chunk::partitions(
                    after,
                    total,
                ) by {
                    chunk::stealing_preserves_coverage(l.queue, l.next_worker, total);
                }
                let kept = after[i];
                assert(after =~= before.update(i, kept).push(after.last()));
                chunk::in_flight_after_update(before, i, kept);
                chunk::in_flight_after_push(before.update(i, kept), after.last());
            },
        }
        assert forall|a: int| 0 <= a < after.len() implies (chunk::worker_of(
            #[trigger] after[a],
        ) matches Some(w) ==> w == l.next_worker || (a < before.len() && chunk::worker_of(before[a])
            == Some(w))) by {}
        assert forall|a: int, b: int|
            0 <= a < b < after.len() && chunk::worker_of(#[trigger] after[a])
                is Some implies chunk::worker_of(after[a]) != chunk::worker_of(
            #[trigger] after[b],
        ) by {
            if b < before.len() {
                assert(chunk::worker_of(before[a]) is Some ==> chunk::worker_of(before[a])
                    != chunk::worker_of(before[b]));
            }
        }
    }
}

/// A progress report keeps the loop sound, and the bytes that the chunks cover.
pub proof fn reporting_keeps_the_loop_sound(l: LoopView, chunk_index: usize, bytes_so_far: u64)
    requires
        sound(l),
    ensures
        sound(after_report(l, chunk_index, bytes_so_far)),
        forall|total: int|
            chunk::partitions(l.queue.chunks, total) ==> #[trigger] chunk::partitions(
                after_report(l, chunk_index, bytes_so_far).queue.chunks,
                total,
            ),
{
    let before = l.queue.chunks;
    let after = after_report(l, chunk_index, bytes_so_far).queue.chunks;
    if awaited(l, chunk_index) {
        let i = chunk::position(before, chunk_index)->0;
        chunk::position_is_first(before, chunk_index);
        chunk::bookkeeping_keeps_ranges(l.queue, i, chunk_index, 0, bytes_so_far, 0);
        lemma_same_ranges(before, after);
        chunk::in_flight_after_update(before, i, after[i]);
        assert forall|a: int, b: int|
            0 <= a < b < after.len() && chunk::worker_of(#[trigger] after[a])
                is Some implies chunk::worker_of(after[a]) != chunk::worker_of(
            #[trigger] after[b],
        ) by {
            assert(chunk::worker_of(before[a]) != chunk::worker_of(before[b]));
        }
    }
}

/// Stopping a worker keeps the loop sound, and the bytes that the chunks cover;
/// and afterwards no chunk is in the worker's hands.
pub proof fn restarting_keeps_the_loop_sound(l: LoopView, worker_id: usize, url: Seq<char>)
    requires
        sound(l),
    ensures
        sound(after_restart(l, worker_id, url)),
        stoppable(l, worker_id) ==> chunk::held_by(
            after_restart(l, worker_id, url).queue.chunks,
            worker_id,
        ) is None,
        forall|total: int|
            chunk::partitions(l.queue.chunks, total) ==> #[trigger] chunk::partitions(
                after_restart(l, worker_id, url).queue.chunks,
                total,
            ),
{
    let before = l.queue.chunks;
    let after = after_restart(l, worker_id, url).queue.chunks;
    chunk::held_by_is_first(before, worker_id);
    chunk::held_by_is_first(after, worker_id);
    if stoppable(l, worker_id) {
        let i = chunk::held_by(before, worker_id)->0;
        assert(chunk::same_ranges(before, after));
        lemma_same_ranges(before, after);
        chunk::in_flight_after_update(before, i, after[i]);
        assert forall|a: int, b: int|
            0 <= a < b < after.len() && chunk::worker_of(#[trigger] after[a])
                is Some implies chunk::worker_of(after[a]) != chunk::worker_of(
            #[trigger] after[b],
        ) by {
            assert(chunk::worker_of(before[a]) != chunk::worker_of(before[b]));
        }
        assert forall|a: int| 0 <= a < after.len() implies chunk::worker_of(#[trigger] after[a])
            != Some(worker_id) by {
            if a < i {
                assert(chunk::worker_of(before[a]) != Some(worker_id));
            } else if a > i {
                assert(chunk::worker_of(before[i]) != chunk::worker_of(before[a]));
            }
        }
    }
}

/// A stopped worker's chunk is pending, so that the next worker can claim it, and
/// keeps what was downloaded of it.
pub proof fn a_restarted_chunk_is_pending(l: LoopView, worker_id: usize, url: Seq<char>)
    requires
        stoppable(l, worker_id),
    ensures
        ({
            let i = chunk::held_by(l.queue.chunks, worker_id)->0;
            let after = after_restart(l, worker_id, url).queue.chunks;
            &&& after[i].state is Pending
            &&& after[i].downloaded == l.queue.chunks[i].downloaded
            &&& chunk::claim_target(after, true) is Some
            &&& chunk::claim_target(after, false) is Some
        }),
{
    let i = chunk::held_by(l.queue.chunks, worker_id)->0;
    chunk::held_by_is_first(l.queue.chunks, worker_id);
    let after = after_restart(l, worker_id, url).queue.chunks;
    chunk::claims_take_the_largest(after);
    assert(after[i].state is Pending);
}

/// No more workers run than may, and worker numbers are never reused.
pub proof fn workers_stay_within_the_limit(l: LoopView, now: u128)
    requires
        l.running <= l.max_connections,
        l.next_worker < usize::MAX,
    ensures
        after_assign(l, now).running <= l.max_connections,
        assignment(l, now) is Some ==> {
            &&& after_assign(l, now).next_worker == l.next_worker + 1
            &&& after_assign(l, now).running == l.running + 1
        },
        assignment(l, now) is None ==> after_assign(l, now) == l,
{
}

/// The loop ends in success only when every chunk is done and nobody is at work;
/// it gives up only on a chunk that failed more often than it may be retried, or
/// when nobody is at work and every mirror is banned.
pub proof fn the_loop_ends_for_a_reason(l: LoopView)
    ensures
        status_of(l) is Done <==> all_done(l.queue.chunks) && l.running == 0,
        status_of(l) matches LoopStatus::GivenUp { chunk_index, attempts } ==> {
            &&& attempts > l.max_retries
            &&& exists|i: int|
                0 <= i < l.queue.chunks.len() && (#[trigger] l.queue.chunks[i]).index == chunk_index
                    && l.queue.chunks[i].state == (chunk::ChunkState::Failed { attempts })
        },
        status_of(l) is NoMirrors ==> l.running == 0 && mirror::every_banned(l.pool),
{
    let chunks = chunk::after_reset(l.queue, l.max_retries).chunks;
    chunk::first_failed_is_first(chunks);
    if let LoopStatus::GivenUp { chunk_index, attempts } = status_of(l) {
        let i = chunk::first_failed(chunks)->0;
        assert(chunks[i] == chunk::retried(l.queue.chunks[i], l.max_retries));
        assert(l.queue.chunks[i].index == chunk_index);
    }
}

/// Retries are limited: a failure beyond the last retry ends the loop, and one
/// within the limit makes the chunk pending again.
pub proof fn retries_are_limited(l: LoopView, result: WorkerResult, now: u128)
    requires
        sound(l),
        expected(l, result),
        result is Failed,
    ensures
        ({
            let i = chunk::position(l.queue.chunks, chunk_of(result))->0;
            let attempts = speed::one_more(
                chunk::failures_of(l.queue.chunks[i], l.queue.failures),
            );
            let after = after_settle(l, result, now);
            &&& chunk::failures_of(after.queue.chunks[i], after.queue.failures) == attempts
            &&& attempts > l.max_retries && !(status_of(after) is Done) ==> status_of(
                after,
            ) is GivenUp
            &&& attempts <= l.max_retries && !(status_of(after) is Done) ==> after_check(
                after,
            ).queue.chunks[i].state is Pending
        }),
{
    let index = chunk_of(result);
    chunk::position_is_first(l.queue.chunks, index);
    let i = chunk::position(l.queue.chunks, index)->0;
    let after = after_settle(l, result, now);
    let chunks = chunk::after_reset(after.queue, l.max_retries).chunks;
    chunk::first_failed_is_first(chunks);
    assert(after.queue.chunks[i].state is Failed);
    assert(chunks[i] == chunk::retried(after.queue.chunks[i], l.max_retries));
}

/// No chunk is tried more often than it may be: a chunk that is handed out has not
/// failed more often than it may be retried, so that there is a first attempt and
/// at most `max_retries` more.
pub proof fn attempts_are_limited(l: LoopView, now: u128)
    requires
        sound(l),
        l.queue.chunks.len() <= usize::MAX,
        l.next_worker < usize::MAX,
    ensures
        assignment(l, now) matches Some((c, _)) ==> chunk::failures_of(
            c,
            after_assign(l, now).queue.failures,
        ) <= l.max_retries,
{
    if assignment(l, now) is Some {
        assigning_keeps_the_loop_sound(l, now);
        let after = after_assign(l, now).queue.chunks;
        let (c, _) = assignment(l, now)->0;
        match chunk::claim_target(l.queue.chunks, l.sequential) {
            Some(i) => {
                chunk::claims_are_exclusive(
                    l.queue.chunks,
                    l.sequential,
                    l.sequential,
                    l.next_worker,
                );
                assert(after[i] == c);
            },
            None => {
                assert(after[after.len() - 1] == c);
            },
        }
    }
}

/// A worker that was just started can report: its chunk is in flight; and where no
/// mirror stands twice, its mirror is found in use.
pub proof fn an_assigned_worker_is_expected(l: LoopView, now: u128)
    requires
        sound(l),
        l.queue.chunks.len() <= usize::MAX,
        l.next_worker < usize::MAX,
        assignment(l, now) is Some,
    ensures
        ({
            let after = after_assign(l, now);
            let (c, url) = assignment(l, now)->0;
            &&& awaited(after, c.index)
            &&& stoppable(after, l.next_worker)
            &&& mirror::all_apart(l.pool.mirrors) ==> mirror::in_use(after.pool, url)
        }),
{
    assigning_keeps_the_loop_sound(l, now);
    let after = after_assign(l, now);
    let chunks = after.queue.chunks;
    let (c, url) = assignment(l, now)->0;
    let m = mirror::pick_target(l.pool, now)->0;
    mirror::pick_follows_the_selection_order(l.pool, now);
    mirror::mirror_at_is_first(after.pool.mirrors, url);
    let found = mirror::mirror_at(after.pool.mirrors, url)->0;
    assert(after.pool.mirrors[m].url@ == url);
    if mirror::all_apart(l.pool.mirrors) && found < m {
        assert(l.pool.mirrors[found].url@ != l.pool.mirrors[m].url@);
    }
    let k: int = match chunk::claim_target(l.queue.chunks, l.sequential) {
        Some(i) => {
            chunk::claims_are_exclusive(
                l.queue.chunks,
                l.sequential,
                l.sequential,
                l.next_worker,
            );
            i
        },
        None => {
            chunk::steals_from_the_slowest(l.queue);
            l.queue.chunks.len() as int
        },
    };
    assert(chunks[k] == c && chunks[k].index == k);
    chunk::position_is_first(chunks, c.index);
    let p = chunk::position(chunks, c.index)->0;
    assert(chunks[p].index == p);
    chunk::held_by_is_first(chunks, l.next_worker);
    assert(chunk::worker_of(chunks[k]) == Some(l.next_worker));
}

/// A loop whose connections are accounted for, and that may have workers and open
/// connections, never hangs while it goes on: where nobody is at work, a chunk is
/// pending and some mirror is not banned; as soon as that mirror's backoff is over,
/// the next worker starts.
pub proof fn a_running_loop_goes_on(l: LoopView)
    requires
        sound(l),
        accounted(l),
        status_of(l) is Running,
        l.running == 0,
        0 < l.max_connections,
        0 < l.pool.max_per_mirror,
    ensures
        chunk::claim_target(after_check(l).queue.chunks, l.sequential) is Some,
        exists|m: int|
            0 <= m < l.pool.mirrors.len() && !(#[trigger] l.pool.mirrors[m]).banned && (forall|
                now: u128,
            |
                !l.pool.mirrors[m].cooling(now) ==> #[trigger] assignment(after_check(l), now)
                    is Some),
{
    let after = after_check(l);
    let chunks = after.queue.chunks;
    checking_keeps_the_loop_sound(l);
    chunk::first_failed_is_first(chunks);
    lemma_in_flight_is_zero(chunks);
    let i = choose|i: int|
        0 <= i < l.queue.chunks.len() && !(#[trigger] l.queue.chunks[i]).done();
    assert(chunks[i] == chunk::retried(l.queue.chunks[i], l.max_retries));
    assert(!(l.queue.chunks[i].state is Complete));
    assert(chunks[i].state is Pending);
    chunk::claims_take_the_largest(chunks);
    let m = choose|m: int|
        0 <= m < l.pool.mirrors.len() && !(#[trigger] l.pool.mirrors[m]).banned;
    mirror::connections_count_each_mirror(l.pool.mirrors);
    assert(l.pool.mirrors[m].active_connections == 0);
    assert forall|now: u128| !l.pool.mirrors[m].cooling(now) implies #[trigger] assignment(
        after,
        now,
    ) is Some by {
        mirror::pick_follows_the_selection_order(l.pool, now);
        assert(mirror::eligible(l.pool.mirrors[m], now, l.pool.max_per_mirror));
    }
}

/// A failure that may pass does not cost the mirror: where the status is none of those
/// that say a retry cannot help, a mirror that was not banned and had fewer failures in
/// a row than all but one of those it may have is not banned; so the loop does not end
/// for want of mirrors, and the mirror is available again, at the latest, a minute
/// later.
pub proof fn transient_failures_do_not_ban(l: LoopView, result: WorkerResult, now: u128, i: int)
    requires
        result is Failed,
        result->status_code matches Some(status) ==> !seq![
            400u16,
            401,
            403,
            404,
            405,
            410,
            451,
        ].contains(status),
        0 <= i < l.pool.mirrors.len(),
        l.pool.mirrors[i].url@ == result->Failed_mirror@,
        forall|k: int|
            0 <= k < i ==> (#[trigger] l.pool.mirrors[k]).url@ != result->Failed_mirror@,
        !l.pool.mirrors[i].banned,
        l.pool.mirrors[i].failures + 1 < l.pool.max_failures,
    ensures
        ({
            let after = after_settle(l, result, now);
            &&& !after.pool.mirrors[i].banned
            &&& status_of(after) != LoopStatus::NoMirrors
            &&& forall|then: u128|
                now + 60 * 1000000000 <= then
                    ==> #[trigger] after.pool.mirrors[i].available(then)
        }),
{
    mirror::mirror_at_is_first(l.pool.mirrors, result->Failed_mirror@);
    let after = after_settle(l, result, now);
    if let Some(status) = result->status_code {
        mirror::statuses_have_their_classes(status);
    }
    mirror::a_failure_is_told_of_one_mirror(
        l.pool,
        result->Failed_mirror@,
        failure_class(result->status_code),
        now,
    );
    assert(l.pool.mirrors[i].url@ == result->Failed_mirror@);
    assert(!after.pool.mirrors[i].banned);
    assert forall|then: u128| now + 60 * 1000000000 <= then implies #[trigger] after.pool.mirrors[i].available(
        then,
    ) by {
        mirror::a_backoff_ends_on_time(after.pool.mirrors[i], then, 1);
    }
}

/// A failure with a status that says a retry cannot help bans the mirror at once: it is
/// never picked again. No other mirror changes.
pub proof fn fatal_failures_ban(l: LoopView, result: WorkerResult, now: u128, i: int)
    requires
        result is Failed,
        result->status_code is Some,
        seq![400u16, 401, 403, 404, 405, 410, 451].contains(result->status_code->0),
        0 <= i < l.pool.mirrors.len(),
        l.pool.mirrors[i].url@ == result->Failed_mirror@,
        forall|k: int|
            0 <= k < i ==> (#[trigger] l.pool.mirrors[k]).url@ != result->Failed_mirror@,
    ensures
        ({
            let after = after_settle(l, result, now);
            &&& after.pool.mirrors[i].banned
            &&& forall|then: u128| #[trigger] mirror::pick_target(after.pool, then) != Some(i)
            &&& forall|j: int|
                0 <= j < l.pool.mirrors.len() && j != i ==> #[trigger] after.pool.mirrors[j]
                    == l.pool.mirrors[j]
        }),
{
    mirror::mirror_at_is_first(l.pool.mirrors, result->Failed_mirror@);
    mirror::statuses_have_their_classes(result->status_code->0);
    let after = after_settle(l, result, now);
    mirror::a_failure_is_told_of_one_mirror(
        l.pool,
        result->Failed_mirror@,
        failure_class(result->status_code),
        now,
    );
    assert(l.pool.mirrors[i].url@ == result->Failed_mirror@);
    assert forall|then: u128| #[trigger] mirror::pick_target(after.pool, then) != Some(i) by {
        mirror::the_fastest_ready_mirror_is_picked(after.pool, then);
    }
}

/// A settled worker is one fewer at work. If it completed its chunk, the chunk counts
/// as fetched and its speed is recorded for it; if it failed, the chunk has failed once
/// more and keeps what was downloaded of it. Other chunks and the limits stay.
pub proof fn settling_is_about_one_chunk(l: LoopView, result: WorkerResult, now: u128, i: int)
    requires
        0 <= i < l.queue.chunks.len(),
        l.queue.chunks[i].index == chunk_of(result),
        forall|k: int|
            0 <= k < i ==> (#[trigger] l.queue.chunks[k]).index != chunk_of(result),
        l.queue.chunks[i].state is InFlight,
        l.queue.chunks[i].start <= l.queue.chunks[i].end,
        0 < l.running,
    ensures
        ({
            let after = after_settle(l, result, now);
            let c = l.queue.chunks[i];
            let d = after.queue.chunks[i];
            &&& after.running + 1 == l.running
            &&& after.next_worker == l.next_worker
            &&& after.max_connections == l.max_connections
            &&& after.max_retries == l.max_retries
            &&& after.sequential == l.sequential && after.work_stealing == l.work_stealing
            &&& after.queue.chunks.len() == l.queue.chunks.len()
            &&& forall|j: int|
                0 <= j < l.queue.chunks.len() && j != i ==> #[trigger] after.queue.chunks[j]
                    == l.queue.chunks[j]
            &&& d.start == c.start && d.end == c.end && d.index == c.index
            &&& match result {
                WorkerResult::Complete { chunk_index, bytes, speed_bps, .. } => {
                    &&& chunk_index == c.index
                    &&& d.state == ChunkState::Complete
                    &&& c.end - c.start < u64::MAX ==> d.downloaded == c.end - c.start + 1
                    &&& after.speeds.contains_key(chunk_index)
                    &&& after.speeds[chunk_index] == speed_bps
                    &&& after.queue.failures == l.queue.failures
                    &&& after.queue.written == (l.queue.written + bytes)
                        % 0x1_0000_0000_0000_0000
                },
                WorkerResult::Failed { chunk_index, .. } => {
                    &&& chunk_index == c.index
                    &&& d.state is Failed
                    &&& d.downloaded == c.downloaded
                    &&& after.speeds == l.speeds
                    &&& after.queue.written == l.queue.written
                    &&& after.queue.failures.contains_key(chunk_index)
                    &&& !l.queue.failures.contains_key(chunk_index)
                        ==> after.queue.failures[chunk_index] == 1
                    &&& l.queue.failures.contains_key(chunk_index)
                        && l.queue.failures[chunk_index] < u32::MAX
                        ==> after.queue.failures[chunk_index] == l.queue.failures[chunk_index] + 1
                },
            }
            &&& forall|k: usize| #[trigger]
                l.speeds.contains_key(k) && k != chunk_of(result) ==> after.speeds.contains_key(k)
                    && after.speeds[k] == l.speeds[k]
        }),
{
    let c = l.queue.chunks[i];
    match result {
        WorkerResult::Complete { chunk_index, bytes, .. } => {
            chunk::completing_settles_one_chunk(l.queue, chunk_index, bytes);
        },
        WorkerResult::Failed { chunk_index, .. } => {
            chunk::a_failure_is_counted_for_its_chunk(l.queue, chunk_index);
        },
    }
    assert(c.index == chunk_of(result));
    assert forall|j: int| 0 <= j < l.queue.chunks.len() && j != i implies #[trigger] after_settle(
        l,
        result,
        now,
    ).queue.chunks[j] == l.queue.chunks[j] by {
        if j > i {
            assert(l.queue.chunks[i].index == chunk_of(result));
        } else {
            assert(l.queue.chunks[j].index != chunk_of(result));
        }
    }
}

/// A settled worker's report reaches its mirror: a success is told as a success with
/// its speed, a failure as a failure at that moment, and either gives the connection
/// back.
pub proof fn settling_reports_on_one_mirror(l: LoopView, result: WorkerResult, now: u128, i: int)
    requires
        0 <= i < l.pool.mirrors.len(),
        l.pool.mirrors[i].url@ == mirror_of(result),
        forall|k: int|
            0 <= k < i ==> (#[trigger] l.pool.mirrors[k]).url@ != mirror_of(result),
        0 < l.pool.mirrors[i].active_connections,
    ensures
        ({
            let after = after_settle(l, result, now);
            let m = l.pool.mirrors[i];
            let w = after.pool.mirrors[i];
            &&& w.active_connections + 1 == m.active_connections
            &&& after.pool.max_per_mirror == l.pool.max_per_mirror
            &&& after.pool.max_failures == l.pool.max_failures
            &&& after.pool.retry_delay_ms == l.pool.retry_delay_ms
            &&& match result {
                WorkerResult::Complete { speed_bps, mirror, .. } => {
                    &&& mirror@ == m.url@
                    &&& w.failures == 0 && w.last_failure is None && w.banned == m.banned
                    &&& m.avg_speed_bps == 0 ==> w.avg_speed_bps == speed_bps
                },
                WorkerResult::Failed { mirror, .. } => {
                    &&& mirror@ == m.url@
                    &&& m.failures < u32::MAX ==> w.failures == m.failures + 1
                    &&& w.last_failure == Some(now)
                    &&& w.avg_speed_bps == m.avg_speed_bps
                },
            }
        }),
{
    match result {
        WorkerResult::Complete { speed_bps, mirror, .. } => {
            mirror::a_success_clears_one_mirror(l.pool, mirror@, speed_bps);
        },
        WorkerResult::Failed { mirror, status_code, .. } => {
            mirror::a_failure_is_told_of_one_mirror(
                l.pool,
                mirror@,
                failure_class(status_code),
                now,
            );
        },
    }
    assert(l.pool.mirrors[i].url@ == mirror_of(result));
}

/// A worker starts whenever one may: fewer are at work than the limit, a mirror is
/// ready, and a chunk is pending, or, while others are at work and stealing is allowed,
/// one is worth splitting. It gets a pending chunk if there is one, the URL of the
/// mirror that is picked, and the next number; and that mirror has one connection more.
pub proof fn a_worker_starts_whenever_one_may(l: LoopView, now: u128)
    requires
        forall|i: int|
            0 <= i < l.queue.chunks.len() ==> (#[trigger] l.queue.chunks[i]).start
                <= l.queue.chunks[i].end,
        l.queue.chunks.len() <= usize::MAX,
        l.next_worker < usize::MAX,
    ensures
        ({
            let pending = exists|i: int|
                0 <= i < l.queue.chunks.len() && (#[trigger] l.queue.chunks[i]).state
                    == ChunkState::Pending;
            let splittable = exists|i: int|
                0 <= i < l.queue.chunks.len() && chunk::worth_splitting(
                    #[trigger] l.queue.chunks[i],
                );
            let served = exists|m: int|
                0 <= m < l.pool.mirrors.len() && mirror::ready(
                    #[trigger] l.pool.mirrors[m],
                    now,
                    l.pool.max_per_mirror,
                );
            let after = after_assign(l, now);
            &&& assignment(l, now) is Some <==> l.running < l.max_connections && served && (pending
                || (l.work_stealing && l.running > 0 && splittable))
            &&& assignment(l, now) is None ==> after == l
            &&& assignment(l, now) matches Some((c, url)) ==> {
                let m = mirror::pick_target(l.pool, now)->0;
                &&& c.state == (ChunkState::InFlight { worker_id: l.next_worker })
                &&& after.running == l.running + 1
                &&& after.next_worker == l.next_worker + 1
                &&& after.max_connections == l.max_connections
                &&& after.speeds == l.speeds
                &&& after.queue.failures == l.queue.failures
                &&& after.queue.written == l.queue.written
                &&& url == l.pool.mirrors[m].url@
                &&& after.pool.mirrors[m].active_connections
                    == l.pool.mirrors[m].active_connections + 1
                &&& forall|j: int|
                    0 <= j < l.pool.mirrors.len() && j != m ==> #[trigger] after.pool.mirrors[j]
                        == l.pool.mirrors[j]
                &&& pending ==> {
                    let i = chunk::claim_target(l.queue.chunks, l.sequential)->0;
                    &&& l.queue.chunks[i].state == ChunkState::Pending
                    &&& after.queue.chunks.len() == l.queue.chunks.len()
                    &&& after.queue.chunks[i] == c
                    &&& c.start == l.queue.chunks[i].start && c.end == l.queue.chunks[i].end
                    &&& c.index == l.queue.chunks[i].index
                    &&& c.downloaded == l.queue.chunks[i].downloaded
                }
                &&& !pending ==> {
                    let i = chunk::steal_target(l.queue)->0;
                    &&& chunk::worth_splitting(l.queue.chunks[i])
                    &&& after.queue.chunks.len() == l.queue.chunks.len() + 1
                    &&& after.queue.chunks[l.queue.chunks.len() as int] == c
                    &&& c.end == l.queue.chunks[i].end
                    &&& after.queue.chunks[i].end + 1 == c.start
                }
            }
        }),
{
    chunk::a_claim_hands_over_one_chunk(l.queue.chunks, l.sequential, l.next_worker);
    chunk::the_longest_to_go_is_split(l.queue);
    if chunk::steal_target(l.queue) is Some {
        chunk::a_steal_halves_what_is_left(l.queue, l.next_worker);
    }
    mirror::the_fastest_ready_mirror_is_picked(l.pool, now);
    let m = mirror::pick_target(l.pool, now);
    if m is Some {
        assert(mirror::ready(l.pool.mirrors[m->0], now, l.pool.max_per_mirror));
    }
    let t = chunk::claim_target(l.queue.chunks, l.sequential);
    if t is Some {
        assert(l.queue.chunks[t->0].state == ChunkState::Pending);
    }
    let s = chunk::steal_target(l.queue);
    if s is Some {
        assert(chunk::worth_splitting(l.queue.chunks[s->0]));
    }
}

/// After a check the failed chunks that may be retried are pending again, with what was
/// downloaded of them, and nothing else has changed; and the status says which it is:
/// done if nobody is at work and every chunk has all its bytes; given up if a chunk has
/// failed more often than it may be retried; without mirrors if nobody is at work and
/// every mirror is banned; and otherwise running.
pub proof fn a_check_tells_where_the_loop_stands(l: LoopView)
    requires
        forall|i: int|
            0 <= i < l.queue.chunks.len() ==> (#[trigger] l.queue.chunks[i]).start
                <= l.queue.chunks[i].end && l.queue.chunks[i].end - l.queue.chunks[i].start
                < u64::MAX,
    ensures
        ({
            let fetched = forall|i: int|
                0 <= i < l.queue.chunks.len() ==> {
                    let c = #[trigger] l.queue.chunks[i];
                    c.downloaded > c.end - c.start
                };
            let spent = exists|i: int|
                0 <= i < l.queue.chunks.len() && (#[trigger] l.queue.chunks[i]).state is Failed
                    && l.queue.chunks[i].state->attempts > l.max_retries;
            let banned = forall|m: int|
                0 <= m < l.pool.mirrors.len() ==> (#[trigger] l.pool.mirrors[m]).banned;
            let after = after_check(l);
            &&& status_of(l) is Done <==> fetched && l.running == 0
            &&& status_of(l) is GivenUp <==> !(fetched && l.running == 0) && spent
            &&& status_of(l) is NoMirrors <==> !(fetched && l.running == 0) && !spent && l.running
                == 0 && banned
            &&& status_of(l) is Done ==> after == l
            &&& after == (LoopView { queue: after.queue, ..l })
            &&& after.queue == (QueueView { chunks: after.queue.chunks, ..l.queue })
            &&& after.queue.chunks.len() == l.queue.chunks.len()
            &&& forall|i: int|
                0 <= i < l.queue.chunks.len() ==> {
                    let c = #[trigger] l.queue.chunks[i];
                    let d = after.queue.chunks[i];
                    &&& d == (Chunk { state: d.state, ..c })
                    &&& !(fetched && l.running == 0) && c.state is Failed && c.state->attempts
                        <= l.max_retries ==> d.state == ChunkState::Pending
                    &&& !(c.state is Failed && c.state->attempts <= l.max_retries) ==> d == c
                }
        }),
{
    let chunks = chunk::after_reset(l.queue, l.max_retries).chunks;
    chunk::first_failed_is_first(chunks);
    chunk::a_reset_clears_what_may_be_retried(l.queue, l.max_retries);
    assert forall|i: int| 0 <= i < l.queue.chunks.len() implies ((
    #[trigger] l.queue.chunks[i]).done() <==> l.queue.chunks[i].downloaded > l.queue.chunks[i].end
        - l.queue.chunks[i].start) by {}
    if exists|i: int|
        0 <= i < l.queue.chunks.len() && (#[trigger] l.queue.chunks[i]).state is Failed
            && l.queue.chunks[i].state->attempts > l.max_retries {
        let i = choose|i: int|
            0 <= i < l.queue.chunks.len() && (#[trigger] l.queue.chunks[i]).state is Failed
                && l.queue.chunks[i].state->attempts > l.max_retries;
        assert(chunks[i].state is Failed);
    }
    if let Some(i) = chunk::first_failed(chunks) {
        assert(l.queue.chunks[i].state is Failed);
    }
}

/// A worker that is stopped leaves its chunk pending, with what was downloaded of it,
/// gives its connection back, and is one fewer at work; no other chunk and no other
/// mirror changes. One that is not at work cannot be stopped.
pub proof fn stopping_frees_one_chunk(l: LoopView, worker_id: usize, url: Seq<char>)
    requires
        0 < l.running,
    ensures
        ({
            let after = after_restart(l, worker_id, url);
            let mine = ChunkState::InFlight { worker_id };
            let busy = exists|i: int|
                0 <= i < l.queue.chunks.len() && (#[trigger] l.queue.chunks[i]).state == mine;
            &&& stoppable(l, worker_id) <==> busy
            &&& !busy ==> after == l
            &&& busy ==> {
                &&& after.running + 1 == l.running
                &&& after.pool == mirror::after_release(l.pool, url)
                &&& after == (LoopView {
                    queue: after.queue,
                    pool: after.pool,
                    running: after.running,
                    ..l
                })
                &&& after.queue == (QueueView { chunks: after.queue.chunks, ..l.queue })
                &&& after.queue.chunks.len() == l.queue.chunks.len()
                &&& forall|i: int|
                    0 <= i < l.queue.chunks.len() ==> {
                        let c = #[trigger] l.queue.chunks[i];
                        let first = c.state == mine && (forall|k: int|
                            0 <= k < i ==> (#[trigger] l.queue.chunks[k]).state != mine);
                        &&& first ==> after.queue.chunks[i] == (Chunk {
                            state: ChunkState::Pending,
                            ..c
                        })
                        &&& !first ==> after.queue.chunks[i] == c
                    }
            }
        }),
{
    chunk::handing_back_frees_one_chunk(l.queue, worker_id);
}

/// A report of progress counts while the chunk is in flight, and comes too late
/// afterwards.
pub proof fn late_reports_change_nothing(
    l: LoopView,
    chunk_index: usize,
    bytes_so_far: u64,
    i: int,
)
    requires
        0 <= i < l.queue.chunks.len(),
        l.queue.chunks[i].index == chunk_index,
        forall|k: int|
            0 <= k < i ==> (#[trigger] l.queue.chunks[k]).index != chunk_index,
    ensures
        ({
            let after = after_report(l, chunk_index, bytes_so_far);
            &&& awaited(l, chunk_index) <==> l.queue.chunks[i].state is InFlight
            &&& !(l.queue.chunks[i].state is InFlight) ==> after == l
            &&& l.queue.chunks[i].state is InFlight ==> {
                &&& after == (LoopView { queue: after.queue, ..l })
                &&& after.queue.chunks[i] == (Chunk {
                    downloaded: bytes_so_far,
                    ..l.queue.chunks[i]
                })
            }
            &&& forall|j: int|
                0 <= j < l.queue.chunks.len() && j != i ==> #[trigger] after.queue.chunks[j]
                    == l.queue.chunks[j]
        }),
{
    chunk::position_is_first(l.queue.chunks, chunk_index);
}

/// A download can start with chunks that have a range, stand at their index, and are
/// pending, or complete with all their bytes.
pub proof fn downloads_start_from_waiting_chunks(chunks: Seq<Chunk>)
    requires
        forall|i: int|
            0 <= i < chunks.len() ==> (#[trigger] chunks[i]).end - chunks[i].start < u64::MAX,
    ensures
        startable(chunks) <==> (forall|i: int|
            0 <= i < chunks.len() ==> {
                let c = #[trigger] chunks[i];
                &&& c.start <= c.end
                &&& c.index == i
                &&& c.state == ChunkState::Pending || (c.state == ChunkState::Complete
                    && c.downloaded > c.end - c.start)
            }),
{
    if startable(chunks) {
        assert forall|i: int| 0 <= i < chunks.len() implies {
            let c = #[trigger] chunks[i];
            &&& c.start <= c.end
            &&& c.index == i
            &&& c.state == ChunkState::Pending || (c.state == ChunkState::Complete && c.downloaded
                > c.end - c.start)
        } by {
            assert(chunks[i].is_ranged());
            assert(chunks[i].index == i);
        }
    }
}

/// A worker that is started is the next one, and is given the chunk and the mirror that
/// were chosen for it; none is started where none was chosen.
pub proof fn a_started_worker_has_its_chunk(a: Option<Assignment>, l: LoopView, now: u128)
    requires
        assigned_as(a, l, now),
    ensures
        a is Some <==> assignment(l, now) is Some,
        a matches Some(given) ==> {
            let chosen = assignment(l, now)->0;
            &&& given.worker_id == l.next_worker
            &&& given.chunk == chosen.0
            &&& given.mirror@ == chosen.1
        },
{
}

/// A download that was given up says which chunk failed, and after how many attempts; one
/// that goes on or is complete has nothing to say.
pub proof fn a_stop_says_why(chunk_index: usize, attempts: u32, status: LoopStatus)
    ensures
        stop_text(LoopStatus::GivenUp { chunk_index, attempts }) == Some(
            "Chunk "@ + text::decimal(chunk_index as nat) + " failed after "@ + text::decimal(
                attempts as nat,
            ) + " attempts"@,
        ),
        stop_text(LoopStatus::NoMirrors) == Some("All mirrors are banned"@),
        !(status is GivenUp) && !(status is NoMirrors) ==> stop_text(status) is None,
{
}

/// Three quarters of the way through the speeds of the workers, in ascending order, lies
/// their 75th percentile; between two speeds, it is that part of the way from the one to
/// the other. Without workers it is 0, and of one worker it is the speed.
pub proof fn three_quarters_are_slower(value: u64, speeds: Map<usize, u64>, workers: Seq<usize>)
    requires
        is_p75(value, speeds),
        workers.no_duplicates(),
        workers.to_set() == speeds.dom(),
        workers.len() <= 0x8_0000_0000_0000,
        forall|w: usize| #[trigger] speeds.contains_key(w) ==> speeds[w] <= 0x8_0000_0000_0000,
    ensures
        workers.len() == 0 ==> value == 0,
        workers.len() == 1 ==> value == speeds[workers[0]],
        workers.len() >= 2 ==> {
            let of_workers = Seq::new(workers.len(), |i: int| speeds[workers[i]]);
            let sorted = of_workers.sort_by(|a: u64, b: u64| a <= b);
            let at = 3 * (workers.len() - 1);
            let low = sorted[at / 4];
            let high = sorted[at / 4 + 1];
            let c = at % 4;
            &&& c == 0 ==> value == low
            &&& c > 0 ==> low <= high && value == ((4 - c) * low + c * high) / 4
        },
{
    let of_workers = Seq::new(workers.len(), |i: int| speeds[workers[i]]);
    let values = values_at(speeds, workers);
    assert(values =~= of_workers);
    assert forall|i: int| 0 <= i < values.len() implies #[trigger] values[i]
        <= 0x8_0000_0000_0000 by {
        assert(workers.to_set().contains(workers[i]));
        assert(speeds.contains_key(workers[i]));
    }
    if workers.len() >= 2 {
        speed::percentiles_lie_between_ranks(values, 3);
    }
}

/// A plan is seen whole: its chunks, all its URLs and every limit.
pub proof fn plans_are_seen_whole(a: Plan, b: Plan)
    requires
        a@ == b@,
    ensures
        a.chunk_map.chunks@ == b.chunk_map.chunks@,
        a.urls@.len() == b.urls@.len(),
        forall|i: int| 0 <= i < a.urls@.len() ==> (#[trigger] a.urls@[i])@ == b.urls@[i]@,
        a.max_connections == b.max_connections,
        a.sequential == b.sequential,
        a.work_stealing == b.work_stealing,
        a.max_retries == b.max_retries,
        a.retry_delay_ms == b.retry_delay_ms,
        a.chunk_size == b.chunk_size,
{
    text::strings_are_seen_by_their_characters(None, a.urls@, Seq::empty());
    text::strings_are_seen_by_their_characters(None, b.urls@, Seq::empty());
    assert forall|i: int| 0 <= i < a.urls@.len() implies (#[trigger] a.urls@[i])@ == b.urls@[i]@ by {
        assert(text::each(a.urls@)[i] == a.urls@[i]@);
        assert(text::each(b.urls@)[i] == b.urls@[i]@);
    }
}

} // verus!
