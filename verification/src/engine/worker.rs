//! Fetching one chunk: the request, the stream of bytes, throttling and
//! progress reports.

use crate::engine::chunk::Chunk;
use crate::engine::config::EngineConfig;
use crate::engine::io::{WriteOp, WriteView};
use crate::engine::speed;
use crate::engine::speed::{SamplerView, SpeedSampler, WorkerSpeedUpdate};
use crate::engine::task::TaskOptions;
use crate::text;
use vstd::prelude::*;

verus! {

/// Write buffer size, aligned to 4K pages for optimal I/O
pub const WRITE_BUF: usize = 262144;

/// Progress is reported when this much time (250 ms) has passed since the last
/// report.
pub const PROGRESS_INTERVAL: u128 = 250000000;

/// The speed is reported when this much time (500 ms) has passed since the last
/// report.
pub const SPEED_INTERVAL: u128 = 500000000;

// ─── Request and response ────────────────────────────────────────────────────

/// Result returned by a worker when it finishes a chunk attempt.
#[derive(Debug)]
pub enum WorkerResult {
    Complete { chunk_index: usize, bytes: u64, speed_bps: u64, mirror: String },
    Failed {
        chunk_index: usize,
        mirror: String,
        error: String,
        /// HTTP status code if available (for error classification)
        status_code: Option<u16>,
    },
}

impl WorkerResult {
    /// What a worker reports of one attempt: the bytes and speed of a download
    /// that went through, or the error with its status.
    pub fn of_attempt(
        chunk_index: usize,
        mirror: String,
        attempt: Result<(u64, u64), (String, Option<u16>)>,
    ) -> (result: Self)
        ensures
            result == (match attempt {
                Ok((bytes, speed_bps)) => WorkerResult::Complete {
                    chunk_index,
                    bytes,
                    speed_bps,
                    mirror,
                },
                Err((error, status_code)) => WorkerResult::Failed {
                    chunk_index,
                    mirror,
                    error,
                    status_code,
                },
            }),
    {
        match attempt {
            Ok((bytes, speed_bps)) => WorkerResult::Complete {
                chunk_index,
                bytes,
                speed_bps,
                mirror,
            },
            Err((error, status_code)) => WorkerResult::Failed {
                chunk_index,
                mirror,
                error,
                status_code,
            },
        }
    }
}

/// The value of the `Range` header for what is left of a chunk.
pub open spec fn range_of(chunk: Chunk) -> Seq<char> {
    let from = text::decimal((chunk.start + chunk.downloaded) as nat);
    if chunk.end == u64::MAX {
        "bytes="@ + from + "-"@
    } else {
        "bytes="@ + from + "-"@ + text::decimal(chunk.end as nat)
    }
}

/// The `Range` header that asks for what is left of a chunk: from its current
/// offset to its last byte, or to the end of the file where it is open-ended.
pub fn range_header(chunk: &Chunk) -> (header: String)
    requires
        chunk.start + chunk.downloaded <= u64::MAX,
    ensures
        header@ == range_of(*chunk),
{
    let mut header: String = "bytes=".to_string();
    let from: String = text::decimal_string(chunk.current_offset());
    header.append(from.as_str());
    header.append("-");
    if chunk.end != u64::MAX {
        let to: String = text::decimal_string(chunk.end);
        header.append(to.as_str());
    }
    header
}

/// The status says that the request succeeded.
pub open spec fn success(status: u16) -> bool {
    200 <= status <= 299
}

/// Whether a status says that the request succeeded.
pub fn is_success(status: u16) -> (r: bool)
    ensures
        r == success(status),
{
    200 <= status && status <= 299
}

/// Accept or refuse a response to a range request, by its status. `reason` is
/// the status as text.
pub fn check_response(status: u16, reason: &str) -> (r: Result<(), (String, Option<u16>)>)
    ensures
        r is Ok <==> success(status),
        r matches Err(e) ==> e.0@ == "HTTP "@ + reason@ && e.1 == Some(status),
{
    if is_success(status) {
        Ok(())
    } else {
        let mut message: String = "HTTP ".to_string();
        message.append(reason);
        Err((message, Some(status)))
    }
}

/// The headers that a task sends with every request: those it was given, then
/// its referer and its user agent.
pub open spec fn headers_of(
    headers: Seq<(Seq<char>, Seq<char>)>,
    referer: Option<Seq<char>>,
    user_agent: Option<Seq<char>>,
) -> Seq<(Seq<char>, Seq<char>)> {
    let with_referer = match referer {
        Some(r) => headers.push(("Referer"@, r)),
        None => headers,
    };
    match user_agent {
        Some(agent) => with_referer.push(("User-Agent"@, agent)),
        None => with_referer,
    }
}

/// The headers that a task sends with every request.
pub fn request_headers(options: &TaskOptions) -> (headers: Vec<(String, String)>)
    ensures
        text::each_pair(headers@) == headers_of(
            options@.headers,
            options@.referer,
            options@.user_agent,
        ),
{
    let mut headers = text::copy_pairs(&options.headers);
    let ghost mut expected = text::each_pair(headers@);
    if let Some(referer) = &options.referer {
        headers.push(("Referer".to_string(), referer.clone()));
        proof {
            expected = expected.push(("Referer"@, referer@));
            assert(text::each_pair(headers@) =~= expected);
        }
    }
    if let Some(agent) = &options.user_agent {
        headers.push(("User-Agent".to_string(), agent.clone()));
        proof {
            expected = expected.push(("User-Agent"@, agent@));
            assert(text::each_pair(headers@) =~= expected);
        }
    }
    headers
}

// ─── Throttling ──────────────────────────────────────────────────────────────

/// The bytes that `max_bps` allows in `elapsed` nanoseconds.
pub open spec fn allowed_bytes(elapsed: int, max_bps: u64) -> int {
    elapsed * max_bps / 1000000000
}

/// How long to sleep, in nanoseconds, after `written` bytes in `elapsed`
/// nanoseconds: the time that the excess over the allowed bytes takes, rounded
/// up; none without a cap.
pub open spec fn throttle_delay(written: u64, elapsed: int, max_bps: u64) -> int {
    let allowed = allowed_bytes(elapsed, max_bps);
    if max_bps == 0 || written <= allowed {
        0
    } else {
        ((written - allowed) * 1000000000 + max_bps - 1) / (max_bps as int)
    }
}

/// More bytes than are ever counted.
const PLENTY: u128 = 0x1_0000_0000_0000_0000_0000;

/// The bytes that `max_bps` allows in `elapsed` nanoseconds, or `PLENTY` where
/// there are more.
fn allowance(elapsed: u128, max_bps: u64) -> (n: u128)
    ensures
        n == (if allowed_bytes(elapsed as int, max_bps) < PLENTY {
            allowed_bytes(elapsed as int, max_bps)
        } else {
            PLENTY as int
        }),
{
    if max_bps == 0 {
        return 0;
    }
    let secs: u128 = elapsed / 1000000000;
    let rest: u128 = elapsed % 1000000000;
    let ghost e = elapsed as int;
    let ghost m = max_bps as int;
    assert(e * m / 1000000000 == secs * m + rest * m / 1000000000 && 0 <= rest * m
        <= 1000000000 * m && 0 <= rest * m / 1000000000) by (nonlinear_arith)
        requires
            0 < m,
            0 <= e,
            secs == e / 1000000000,
            rest == e % 1000000000,
    ;
    if secs >= PLENTY {
        assert(secs * m >= secs) by (nonlinear_arith)
            requires
                0 < m,
                0 <= secs,
        ;
        return PLENTY;
    }
    match secs.checked_mul(max_bps as u128) {
        None => PLENTY,
        Some(whole) => {
            let part: u128 = rest * max_bps as u128 / 1000000000;
            if whole >= PLENTY || whole + part >= PLENTY {
                PLENTY
            } else {
                whole + part
            }
        },
    }
}

/// Simple token-bucket throttler.
/// If we're ahead of the allowed rate, sleep the deficit: the nanoseconds to
/// sleep.
pub fn throttle(written: u64, elapsed: u128, max_bps: u64) -> (delay: u128)
    ensures
        delay == throttle_delay(written, elapsed as int, max_bps),
{
    let allowed: u128 = allowance(elapsed, max_bps);
    if max_bps == 0 || written as u128 <= allowed {
        return 0;
    }
    let excess: u128 = written as u128 - allowed;
    (excess * 1000000000 + max_bps as u128 - 1) / max_bps as u128
}

/// After the sleep the bytes written are within what the rate allows.
pub proof fn throttling_keeps_the_rate(written: u64, elapsed: int, max_bps: u64)
    requires
        0 < max_bps,
        0 <= elapsed,
    ensures
        written * 1000000000 <= (elapsed + throttle_delay(written, elapsed, max_bps)) * max_bps,
{
    let e = elapsed;
    let m = max_bps as int;
    let allowed = allowed_bytes(elapsed, max_bps);
    assert(allowed * 1000000000 <= e * m) by (nonlinear_arith)
        requires
            allowed == e * m / 1000000000,
    ;
    let delay = throttle_delay(written, elapsed, max_bps);
    if written > allowed {
        let need = (written - allowed) * 1000000000;
        assert(delay * m >= need) by (nonlinear_arith)
            requires
                0 < m,
                delay == (need + m - 1) / m,
        ;
    } else {
        assert(delay == 0);
    }
    assert((e + delay) * m == e * m + delay * m) by (nonlinear_arith);
}

/// A second, in nanoseconds.
pub const SECOND: u128 = 1000000000;

/// What a throttle holds.
pub struct ThrottleView {
    /// The cap in bytes per second; 0 stands for none
    pub max_bps: u64,
    /// When the count began
    pub since: u128,
    /// Bytes counted since then
    pub total: u64,
}

/// More than a second's worth of bytes was allowed and not used.
pub open spec fn idle(t: ThrottleView, now: u128) -> bool {
    t.max_bps > 0 && allowed_bytes(speed::span(t.since, now), t.max_bps) > t.total + t.max_bps
}

/// The throttle at `now`: after idle time it begins anew, with a second's worth
/// of bytes to spare.
pub open spec fn caught_up(t: ThrottleView, now: u128) -> ThrottleView {
    if idle(t, now) {
        ThrottleView { since: (now - SECOND) as u128, total: 0, ..t }
    } else {
        t
    }
}

/// The throttle after `bytes` more were written by `now`.
pub open spec fn charged(t: ThrottleView, bytes: u64, now: u128) -> ThrottleView {
    let base = caught_up(t, now);
    ThrottleView {
        total: if base.total + bytes <= u64::MAX {
            (base.total + bytes) as u64
        } else {
            u64::MAX
        },
        ..base
    }
}

/// A speed cap over the total of all workers that share it. Times are nanoseconds
/// on one clock.
#[derive(Debug)]
pub struct Throttle {
    max_bps: u64,
    since: u128,
    total: u64,
}

impl View for Throttle {
    type V = ThrottleView;

    closed spec fn view(&self) -> ThrottleView {
        ThrottleView { max_bps: self.max_bps, since: self.since, total: self.total }
    }
}

impl Throttle {
    pub fn new(max_bps: u64, now: u128) -> (t: Self)
        ensures
            t@ == (ThrottleView { max_bps, since: now, total: 0 }),
    {
        Throttle { max_bps, since: now, total: 0 }
    }

    /// The cap of one download, that all its workers share.
    pub fn for_task(options: &TaskOptions, now: u128) -> (t: Self)
        ensures
            t@ == (ThrottleView { max_bps: options@.max_speed, since: now, total: 0 }),
    {
        Throttle::new(options.max_speed, now)
    }

    /// The cap over all downloads.
    pub fn for_engine(config: &EngineConfig, now: u128) -> (t: Self)
        ensures
            t@ == (ThrottleView { max_bps: config.max_download_speed, since: now, total: 0 }),
    {
        Throttle::new(config.max_download_speed, now)
    }

    /// Count `bytes` that a worker has written by `now`. Returns how long it has to
    /// sleep, in nanoseconds.
    pub fn charge(&mut self, bytes: u64, now: u128) -> (delay: u128)
        ensures
            final(self)@ == charged(old(self)@, bytes, now),
            delay == throttle_delay(
                final(self)@.total,
                speed::span(final(self)@.since, now),
                final(self)@.max_bps,
            ),
    {
        let elapsed: u128 = now.saturating_sub(self.since);
        let allowed: u128 = allowance(elapsed, self.max_bps);
        if self.max_bps > 0 && allowed > self.total as u128 + self.max_bps as u128 {
            proof {
                let e = elapsed as int;
                let m = self.max_bps as int;
                assert(e > 1000000000) by (nonlinear_arith)
                    requires
                        0 < m,
                        0 <= e,
                        e * m / 1000000000 > m,
                ;
            }
            self.since = now - SECOND;
            self.total = 0;
        }
        self.total = self.total.saturating_add(bytes);
        throttle(self.total, now.saturating_sub(self.since), self.max_bps)
    }
}

/// Whoever shares a throttle and sleeps as told, together they keep its rate:
/// after the sleep, all bytes counted are within what the cap allows.
pub proof fn shared_throttling_keeps_the_rate(t: ThrottleView, bytes: u64, now: u128)
    requires
        0 < t.max_bps,
        t.since <= now,
    ensures
        ({
            let after = charged(t, bytes, now);
            let elapsed = speed::span(after.since, now);
            after.total * 1000000000 <= (elapsed + throttle_delay(
                after.total,
                elapsed,
                after.max_bps,
            )) * after.max_bps
        }),
{
    let after = charged(t, bytes, now);
    throttling_keeps_the_rate(after.total, speed::span(after.since, now), after.max_bps);
}

/// Idle time is not saved up: at most a second's worth of bytes can be written
/// ahead of the rate.
pub proof fn idle_time_buys_at_most_a_second(t: ThrottleView, now: u128)
    requires
        0 < t.max_bps,
    ensures
        ({
            let base = caught_up(t, now);
            allowed_bytes(speed::span(base.since, now), base.max_bps) <= base.total + base.max_bps
        }),
{
    if idle(t, now) {
        let e = speed::span(t.since, now);
        let m = t.max_bps as int;
        assert(e > 1000000000) by (nonlinear_arith)
            requires
                0 < m,
                0 <= e,
                e * m / 1000000000 > m,
        ;
        assert(1000000000 * m / 1000000000 == m) by (nonlinear_arith);
    }
}

// ─── The transfer ────────────────────────────────────────────────────────────

/// What a transfer holds.
pub struct TransferView {
    pub chunk: Chunk,
    /// Bytes handed out for writing so far
    pub sent: u64,
    /// Bytes received and not handed out yet
    pub buf: Seq<u8>,
    /// Bytes received when the last request was made
    pub asked: Option<u64>,
    /// What was reported as written
    pub sampler: SamplerView,
    pub last_progress: u128,
    pub last_speed: u128,
}

impl TransferView {
    /// Where in the file the next write goes.
    pub open spec fn offset(self) -> int {
        self.chunk.start + self.chunk.downloaded + self.sent
    }

    /// Bytes received so far.
    pub open spec fn received(self) -> int {
        self.sent + self.buf.len()
    }

    /// The byte of the file that is to be received next.
    pub open spec fn next_byte(self) -> int {
        self.offset() + self.buf.len()
    }
}

/// The last byte to ask for: the chunk's, or an earlier one where a request may
/// ask for no more than `limit` bytes. 0 stands for no limit, and an open-ended
/// chunk is asked for as a whole.
pub open spec fn request_end(t: TransferView, limit: u64) -> u64 {
    if limit == 0 || t.chunk.end == u64::MAX || t.chunk.end - t.next_byte() < limit {
        t.chunk.end
    } else {
        (t.next_byte() + limit - 1) as u64
    }
}

/// The range to ask for next; nothing once the chunk's end is reached, or the end
/// of the file where the chunk is open-ended, or once a request brought nothing.
pub open spec fn next_range(t: TransferView, limit: u64) -> Option<Chunk> {
    if t.next_byte() > t.chunk.end || (t.asked is Some && (t.chunk.end == u64::MAX || t.asked->0
        == t.received())) {
        None
    } else {
        Some(
            Chunk {
                start: t.next_byte() as u64,
                end: request_end(t, limit),
                downloaded: 0,
                ..t.chunk
            },
        )
    }
}

/// What is handed out when `piece` arrives: everything in hand once it fills
/// the buffer.
pub open spec fn push_op(t: TransferView, piece: Seq<u8>) -> Option<WriteView> {
    let all = t.buf + piece;
    if all.len() >= WRITE_BUF {
        Some(WriteView { offset: t.offset() as u64, data: all })
    } else {
        None
    }
}

/// The transfer after `piece` arrived.
pub open spec fn push_after(t: TransferView, piece: Seq<u8>) -> TransferView {
    let all = t.buf + piece;
    if all.len() >= WRITE_BUF {
        TransferView { sent: (t.sent + all.len()) as u64, buf: Seq::empty(), ..t }
    } else {
        TransferView { buf: all, ..t }
    }
}

/// What is left to hand out at the end of the stream.
pub open spec fn finish_op(t: TransferView) -> Option<WriteView> {
    if t.buf.len() > 0 {
        Some(WriteView { offset: t.offset() as u64, data: t.buf })
    } else {
        None
    }
}

/// A progress report is due.
pub open spec fn progress_due(t: TransferView, now: u128) -> bool {
    speed::span(t.last_progress, now) > PROGRESS_INTERVAL
}

/// A speed report is due.
pub open spec fn speed_due(t: TransferView, now: u128) -> bool {
    speed::span(t.last_speed, now) > SPEED_INTERVAL
}

/// The reports that are due after a write.
#[derive(Debug, Clone, Copy)]
pub struct Report {
    /// Bytes of the chunk downloaded so far
    pub progress: Option<u64>,
    pub speed: Option<WorkerSpeedUpdate>,
}

/// One attempt at a chunk: collects the response into buffers that are written
/// at ascending offsets, measures the speed and decides when to report. Times
/// are nanoseconds since the attempt began.
#[derive(Debug)]
pub struct Transfer {
    chunk: Chunk,
    sent: u64,
    buf: Vec<u8>,
    asked: Option<u64>,
    sampler: SpeedSampler,
    last_progress: u128,
    last_speed: u128,
}

impl View for Transfer {
    type V = TransferView;

    closed spec fn view(&self) -> TransferView {
        TransferView {
            chunk: self.chunk,
            sent: self.sent,
            buf: self.buf@,
            asked: self.asked,
            sampler: self.sampler@,
            last_progress: self.last_progress,
            last_speed: self.last_speed,
        }
    }
}

impl Transfer {
    /// The buffer is below its size, no more is reported written than was handed
    /// out, and the next offsets are numbers of bytes that exist.
    pub closed spec fn wf(self) -> bool {
        &&& self.sampler.wf()
        &&& self@.sampler.total <= self@.sent
        &&& self@.buf.len() < WRITE_BUF
        &&& self@.offset() + self@.buf.len() <= u64::MAX
    }

    pub fn new(chunk: Chunk) -> (transfer: Self)
        requires
            chunk.start + chunk.downloaded <= u64::MAX,
        ensures
            transfer.wf(),
            transfer@ == (TransferView {
                chunk,
                sent: 0,
                buf: Seq::empty(),
                asked: None,
                sampler: SamplerView { samples: Seq::empty(), total: 0 },
                last_progress: 0,
                last_speed: 0,
            }),
    {
        Transfer {
            chunk,
            sent: 0,
            buf: Vec::new(),
            asked: None,
            sampler: SpeedSampler::new(),
            last_progress: 0,
            last_speed: 0,
        }
    }

    /// The range to ask for next, of at most `limit` bytes (0 for no limit);
    /// nothing where there is no more to ask for.
    pub fn next_request(&mut self, limit: u64) -> (range: Option<Chunk>)
        requires
            old(self).wf(),
        ensures
            final(self).wf(),
            range == next_range(old(self)@, limit),
            final(self)@ == (if range is Some {
                TransferView { asked: Some(old(self)@.received() as u64), ..old(self)@ }
            } else {
                old(self)@
            }),
    {
        let received: u64 = self.sent + self.buf.len() as u64;
        let from: u64 = self.chunk.start + self.chunk.downloaded + received;
        let stopped = match self.asked {
            Some(n) => self.chunk.end == u64::MAX || n == received,
            None => false,
        };
        if from > self.chunk.end || stopped {
            return None;
        }
        let end: u64 = if limit == 0 || self.chunk.end == u64::MAX || self.chunk.end - from
            < limit {
            self.chunk.end
        } else {
            from + (limit - 1)
        };
        self.asked = Some(received);
        Some(Chunk { start: from, end, downloaded: 0, ..self.chunk })
    }

    /// Whether `n` more bytes still have an offset.
    pub fn has_room(&self, n: usize) -> (r: bool)
        requires
            self.wf(),
        ensures
            r == (self@.offset() + self@.buf.len() + n <= u64::MAX),
    {
        let held: u64 = self.chunk.start + self.chunk.downloaded + self.sent
            + self.buf.len() as u64;
        n as u64 <= u64::MAX - held
    }

    /// Take the next piece of the stream. Once a buffer is full it is handed out
    /// for writing.
    pub fn push(&mut self, piece: &[u8]) -> (op: Option<WriteOp>)
        requires
            old(self).wf(),
            old(self)@.offset() + old(self)@.buf.len() + piece@.len() <= u64::MAX,
        ensures
            final(self).wf(),
            final(self)@ == push_after(old(self)@, piece@),
            match op {
                Some(op) => push_op(old(self)@, piece@) == Some(op@),
                None => push_op(old(self)@, piece@) is None,
            },
    {
        self.buf.extend_from_slice(piece);
        assert(self.buf@ =~= old(self)@.buf + piece@);
        if self.buf.len() >= WRITE_BUF {
            Some(self.take())
        } else {
            None
        }
    }

    /// Hand out what is left in the buffer at the end of the stream.
    pub fn finish(&mut self) -> (op: Option<WriteOp>)
        requires
            old(self).wf(),
        ensures
            final(self).wf(),
            final(self)@ == (TransferView {
                sent: (old(self)@.sent + old(self)@.buf.len()) as u64,
                buf: Seq::empty(),
                ..old(self)@
            }),
            match op {
                Some(op) => finish_op(old(self)@) == Some(op@),
                None => finish_op(old(self)@) is None,
            },
    {
        if self.buf.len() > 0 {
            Some(self.take())
        } else {
            assert(self.buf@ =~= Seq::empty());
            None
        }
    }

    /// Empty the buffer into a write at the current offset.
    fn take(&mut self) -> (op: WriteOp)
        requires
            old(self).sampler.wf(),
            old(self)@.sampler.total <= old(self)@.sent,
            old(self)@.offset() + old(self)@.buf.len() <= u64::MAX,
        ensures
            final(self).wf(),
            final(self)@ == (TransferView {
                sent: (old(self)@.sent + old(self)@.buf.len()) as u64,
                buf: Seq::empty(),
                ..old(self)@
            }),
            op@ == (WriteView { offset: old(self)@.offset() as u64, data: old(self)@.buf }),
    {
        let offset: u64 = self.chunk.start + self.chunk.downloaded + self.sent;
        let mut data: Vec<u8> = Vec::new();
        std::mem::swap(&mut data, &mut self.buf);
        self.sent = self.sent + data.len() as u64;
        WriteOp { offset, data }
    }

    /// Record that `bytes` were written by `now`.
    pub fn wrote(&mut self, bytes: u64, now: u128)
        requires
            old(self).wf(),
            old(self)@.sampler.total + bytes <= old(self)@.sent,
        ensures
            final(self).wf(),
            final(self)@ == (TransferView {
                sampler: speed::recorded(old(self)@.sampler, bytes, now),
                ..old(self)@
            }),
    {
        self.sampler.record_at(bytes, now);
    }

    /// The reports that are due at `now`; with `report_speed` false the speed is
    /// not reported.
    pub fn report(&mut self, worker_id: usize, now: u128, report_speed: bool) -> (report: Report)
        requires
            old(self).wf(),
        ensures
            final(self).wf(),
            ({
                let so_far = (old(self)@.chunk.downloaded + old(self)@.sampler.total) as u64;
                let due = report_speed && speed_due(old(self)@, now);
                &&& report.progress == (if progress_due(old(self)@, now) {
                    Some(so_far)
                } else {
                    None
                })
                &&& report.speed == (if due {
                    Some(
                        WorkerSpeedUpdate {
                            worker_id,
                            chunk_index: old(self)@.chunk.index,
                            speed_bps: speed::window_speed(old(self)@.sampler.samples) as u64,
                            bytes_downloaded: so_far,
                        },
                    )
                } else {
                    None
                })
                &&& final(self)@ == (TransferView {
                    last_progress: if progress_due(old(self)@, now) {
                        now
                    } else {
                        old(self)@.last_progress
                    },
                    last_speed: if due {
                        now
                    } else {
                        old(self)@.last_speed
                    },
                    ..old(self)@
                })
            }),
    {
        let so_far: u64 = self.chunk.downloaded + self.sampler.total_bytes();
        let mut report = Report { progress: None, speed: None };
        if now.saturating_sub(self.last_progress) > PROGRESS_INTERVAL {
            report.progress = Some(so_far);
            self.last_progress = now;
        }
        if report_speed && now.saturating_sub(self.last_speed) > SPEED_INTERVAL {
            report.speed = Some(
                WorkerSpeedUpdate {
                    worker_id,
                    chunk_index: self.chunk.index,
                    speed_bps: self.sampler.speed_bps(),
                    bytes_downloaded: so_far,
                },
            );
            self.last_speed = now;
        }
        report
    }

    /// The bytes of the chunk that are written so far, those of earlier attempts
    /// included.
    pub fn so_far(&self) -> (n: u64)
        requires
            self.wf(),
        ensures
            n == self@.chunk.downloaded + self@.sampler.total,
    {
        self.chunk.downloaded + self.sampler.total_bytes()
    }

    /// The bytes written and the speed over the last samples.
    pub fn outcome(&self) -> (r: (u64, u64))
        requires
            self.wf(),
        ensures
            r.0 == self@.sampler.total,
            r.1 == speed::window_speed(self@.sampler.samples),
    {
        (self.sampler.total_bytes(), self.sampler.speed_bps())
    }
}

// ─── Laws ────────────────────────────────────────────────────────────────────

/// The writes handed out while `pieces` arrive one after the other, and at the
/// end of the stream.
pub open spec fn writes(t: TransferView, pieces: Seq<Seq<u8>>) -> Seq<WriteView>
    decreases pieces.len(),
{
    if pieces.len() == 0 {
        match finish_op(t) {
            Some(op) => seq![op],
            None => Seq::empty(),
        }
    } else {
        let rest = writes(push_after(t, pieces[0]), pieces.drop_first());
        match push_op(t, pieces[0]) {
            Some(op) => seq![op] + rest,
            None => rest,
        }
    }
}

/// All pieces, one after the other.
pub open spec fn stream(pieces: Seq<Seq<u8>>) -> Seq<u8>
    decreases pieces.len(),
{
    if pieces.len() == 0 {
        Seq::empty()
    } else {
        pieces[0] + stream(pieces.drop_first())
    }
}

/// The writes put `data` into the file from `offset` on: each begins where the
/// one before it ended, and together they hold `data`.
pub open spec fn lay_down(ops: Seq<WriteView>, offset: int, data: Seq<u8>) -> bool
    decreases ops.len(),
{
    if ops.len() == 0 {
        data.len() == 0
    } else {
        let n = ops[0].data.len() as int;
        &&& ops[0].offset == offset
        &&& n <= data.len()
        &&& ops[0].data == data.take(n)
        &&& lay_down(ops.drop_first(), offset + n, data.skip(n))
    }
}

/// Whatever pieces the stream arrives in, the writes lay exactly its bytes down
/// in the file, in order and without gaps, from the transfer's offset on.
pub proof fn transfer_writes_the_stream(t: TransferView, pieces: Seq<Seq<u8>>)
    requires
        t.offset() + t.buf.len() + stream(pieces).len() <= u64::MAX,
    ensures
        lay_down(writes(t, pieces), t.offset(), t.buf + stream(pieces)),
    decreases pieces.len(),
{
    let all = t.buf + stream(pieces);
    if pieces.len() == 0 {
        assert(all =~= t.buf);
        if t.buf.len() > 0 {
            let ops = writes(t, pieces);
            let n = t.buf.len() as int;
            assert(all.take(n) =~= t.buf);
            assert(all.skip(n).len() == 0);
            assert(ops.drop_first() =~= Seq::<WriteView>::empty());
            assert(lay_down(ops.drop_first(), t.offset() + n, all.skip(n)));
        }
    } else {
        let next = push_after(t, pieces[0]);
        let rest = pieces.drop_first();
        assert(t.buf + (pieces[0] + stream(rest)) =~= (t.buf + pieces[0]) + stream(rest));
        transfer_writes_the_stream(next, rest);
        match push_op(t, pieces[0]) {
            Some(op) => {
                let ops = writes(t, pieces);
                let n = op.data.len() as int;
                assert(ops.drop_first() =~= writes(next, rest));
                assert(ops[0] == op);
                assert(all.take(n) =~= op.data);
                assert(all.skip(n) =~= Seq::<u8>::empty() + stream(rest));
            },
            None => {},
        }
    }
}

/// The requests of a transfer follow one another without gap or overlap: each asks
/// for bytes of the chunk from the first that was not received yet, for at least
/// one and at most `limit`; and where the last one brought something, there is
/// another until the chunk's end is reached.
pub proof fn requests_follow_one_another(t: TransferView, limit: u64)
    requires
        t.next_byte() <= u64::MAX,
    ensures
        next_range(t, limit) matches Some(r) ==> {
            &&& r.start == t.next_byte()
            &&& r.start <= r.end <= t.chunk.end
            &&& limit > 0 && t.chunk.end < u64::MAX ==> r.length() <= limit
        },
        t.next_byte() <= t.chunk.end < u64::MAX && (t.asked matches Some(n) ==> n < t.received())
            ==> next_range(t, limit) is Some,
{
}

/// A request for what is left of a chunk and the writes of its response start at
/// the same byte.
pub proof fn transfer_starts_at_the_requested_byte(chunk: Chunk, t: TransferView)
    requires
        chunk.start + chunk.downloaded <= u64::MAX,
        t.chunk == chunk,
        t.sent == 0,
    ensures
        range_of(chunk).take(6 + text::decimal(t.offset() as nat).len() as int) == "bytes="@
            + text::decimal(t.offset() as nat),
{
    reveal_strlit("bytes=");
    let head = "bytes="@ + text::decimal(t.offset() as nat);
    assert(range_of(chunk).take(head.len() as int) =~= head);
}

/// A range request asks for what is left of a chunk: from the first byte that was not
/// downloaded to its last byte, or on to the end of the file where the chunk has none.
/// The two numbers can be read back.
pub proof fn a_range_asks_for_what_is_left(c: Chunk)
    requires
        c.start + c.downloaded <= u64::MAX,
    ensures
        ({
            let from = text::decimal((c.start + c.downloaded) as nat);
            let to = text::decimal(c.end as nat);
            &&& c.end < u64::MAX ==> range_of(c) == "bytes="@ + from + "-"@ + to
            &&& c.end == u64::MAX ==> range_of(c) == "bytes="@ + from + "-"@
            &&& text::parsed_u64(from) == Some((c.start + c.downloaded) as u64)
            &&& text::parsed_u64(to) == Some(c.end)
        }),
{
    text::decimal_round_trip((c.start + c.downloaded) as u64);
    text::decimal_round_trip(c.end);
}

/// Responses in the two hundreds are successes, and no others.
pub proof fn successes_are_in_the_two_hundreds(status: u16)
    ensures
        success(status) <==> status / 100 == 2,
{
}

/// A request carries the headers that were asked for, as they stand and in their order;
/// then the referer and then the user agent, each if there is one.
pub proof fn a_request_carries_its_headers(
    headers: Seq<(Seq<char>, Seq<char>)>,
    referer: Option<Seq<char>>,
    user_agent: Option<Seq<char>>,
)
    ensures
        ({
            let all = headers_of(headers, referer, user_agent);
            let r: int = if referer is Some {
                1
            } else {
                0
            };
            let a: int = if user_agent is Some {
                1
            } else {
                0
            };
            &&& all.len() == headers.len() + r + a
            &&& forall|i: int| 0 <= i < headers.len() ==> #[trigger] all[i] == headers[i]
            &&& referer matches Some(value) ==> all[headers.len() as int] == ("Referer"@, value)
            &&& user_agent matches Some(value) ==> all[headers.len() + r] == ("User-Agent"@, value)
        }),
{
}

/// A throttle is asked to wait only when it is ahead of its rate, and no longer than it
/// takes to be within it: a nanosecond less, and it would still be ahead, by the byte in
/// progress at most. Without a cap nobody waits.
pub proof fn a_throttle_waits_no_longer_than_needed(written: u64, elapsed: int, max_bps: u64)
    requires
        0 <= elapsed,
    ensures
        0 <= throttle_delay(written, elapsed, max_bps),
        max_bps == 0 ==> throttle_delay(written, elapsed, max_bps) == 0,
        written * 1000000000 <= elapsed * max_bps ==> throttle_delay(written, elapsed, max_bps)
            == 0,
        throttle_delay(written, elapsed, max_bps) > 0 ==> (elapsed + throttle_delay(
            written,
            elapsed,
            max_bps,
        ) - 1) * max_bps < (written + 1) * 1000000000,
{
    let e = elapsed;
    let m = max_bps as int;
    let w = written as int;
    let allowed = allowed_bytes(elapsed, max_bps);
    assert(0 <= allowed && allowed * 1000000000 <= e * m < (allowed + 1) * 1000000000 && (w
        * 1000000000 <= e * m ==> w <= allowed)) by (nonlinear_arith)
        requires
            0 <= e,
            0 <= m,
            allowed == e * m / 1000000000,
    ;
    if m > 0 && w > allowed {
        let need = (w - allowed) * 1000000000;
        let delay = throttle_delay(written, elapsed, max_bps);
        assert((delay - 1) * m < need && 0 <= delay) by (nonlinear_arith)
            requires
                0 < m,
                0 < need,
                delay == (need + m - 1) / m,
        ;
        assert((e + delay - 1) * m == e * m + (delay - 1) * m) by (nonlinear_arith);
    }
}

/// Bytes are charged to the cap that they were written under: they are added to those
/// counted since the count began. The count begins anew, a second back, only if more than
/// a second's worth of bytes was allowed and not written.
pub proof fn charges_add_up(t: ThrottleView, bytes: u64, now: u128)
    ensures
        ({
            let after = charged(t, bytes, now);
            let elapsed: int = if t.since <= now {
                now - t.since
            } else {
                0
            };
            let unused = t.max_bps > 0 && elapsed * t.max_bps / 1000000000 > t.total + t.max_bps;
            &&& after.max_bps == t.max_bps
            &&& !unused ==> after.since == t.since
            &&& !unused && t.total + bytes <= u64::MAX ==> after.total == t.total + bytes
            &&& !unused && t.total + bytes > u64::MAX ==> after.total == u64::MAX
            &&& unused ==> after.since + 1000000000 == now && after.total == bytes
        }),
{
    let e = speed::span(t.since, now);
    let m = t.max_bps as int;
    if idle(t, now) {
        assert(e > 1000000000) by (nonlinear_arith)
            requires
                0 < m,
                0 <= e,
                e * m / 1000000000 > m,
        ;
    }
}

/// A transfer writes where its chunk was left: at the chunk's start, behind what was
/// downloaded and what was handed out. What arrived is handed out, all of it, once it is
/// a quarter of a mebibyte or more, and what is left of it at the end.
pub proof fn a_transfer_hands_out_full_buffers(t: TransferView, piece: Seq<u8>)
    requires
        t.chunk.start + t.chunk.downloaded + t.sent + t.buf.len() + piece.len() <= u64::MAX,
    ensures
        t.offset() == t.chunk.start + t.chunk.downloaded + t.sent,
        t.received() == t.sent + t.buf.len(),
        t.next_byte() == t.offset() + t.buf.len(),
        push_op(t, piece) is Some <==> t.buf.len() + piece.len() >= 256 * 1024,
        push_op(t, piece) matches Some(op) ==> op.offset == t.offset() && op.data == t.buf + piece,
        finish_op(t) is Some <==> t.buf.len() > 0,
        finish_op(t) matches Some(op) ==> op.offset == t.offset() && op.data == t.buf,
        ({
            let after = push_after(t, piece);
            &&& after == (TransferView { sent: after.sent, buf: after.buf, ..t })
            &&& after.received() == t.received() + piece.len()
            &&& push_op(t, piece) is Some ==> after.buf.len() == 0
            &&& push_op(t, piece) is None ==> after.buf == t.buf + piece && after.sent == t.sent
        }),
{
}

/// A request asks for as much as it may: to the chunk's end, or for as many bytes as one
/// request is allowed. Nothing is asked for beyond the chunk, after a request that
/// brought nothing, or again of a chunk without an end.
pub proof fn a_request_asks_for_as_much_as_it_may(t: TransferView, limit: u64)
    requires
        t.next_byte() <= u64::MAX,
    ensures
        next_range(t, limit) matches Some(r) ==> {
            &&& r.start == t.next_byte()
            &&& r.downloaded == 0
            &&& r.index == t.chunk.index
            &&& r.start <= r.end <= t.chunk.end
            &&& r.end == t.chunk.end || (limit > 0 && r.end - r.start + 1 == limit)
            &&& limit > 0 && t.chunk.end < u64::MAX ==> r.end - r.start < limit
            &&& limit == 0 || t.chunk.end == u64::MAX ==> r.end == t.chunk.end
        },
        next_range(t, limit) is None <==> t.next_byte() > t.chunk.end || (t.asked is Some && (
        t.chunk.end == u64::MAX || t.asked->0 == t.received())),
{
}

/// Progress is reported when more than a quarter of a second has passed since the last
/// report, and the speed when more than half a second has.
pub proof fn reports_keep_their_intervals(t: TransferView, now: u128)
    ensures
        progress_due(t, now) <==> t.last_progress + 250000000 < now,
        speed_due(t, now) <==> t.last_speed + 500000000 < now,
{
}

} // verus!
