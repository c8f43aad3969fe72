//! Speed tracking, percentiles and remaining-time estimates.

use crate::engine::clock::Clock;
use crate::engine::double;
use crate::engine::double::Double;
use std::collections::VecDeque;
use vstd::prelude::*;

verus! {

/// Per-worker speed sample window, in nanoseconds (5 s).
pub const SAMPLE_WINDOW: u128 = 5000000000;

/// Samples kept per worker.
pub const MAX_SAMPLES: usize = 20;

/// Samples kept by the ring speed meter.
pub const RING_SIZE: usize = 50;

/// Sample interval for the ring speed meter, in milliseconds.
pub const SAMPLE_INTERVAL_MS: u64 = 100;

/// Two samples closer than this (10 ms) give no speed.
pub const MIN_SPAN: u128 = 10000000;

/// Two snapshots closer than this (100 ms) give no speed.
pub const MIN_SNAPSHOT_SPAN: u128 = 100000000;

const NANOS_PER_SEC: u128 = 1000000000;

/// Modular addition, as a byte counter does it.
pub open spec fn counter_add(counter: u64, bytes: u64) -> u64 {
    if counter + bytes > u64::MAX {
        (counter + bytes - u64::MAX - 1) as u64
    } else {
        (counter + bytes) as u64
    }
}

/// One more; the counter stays at its largest value.
pub open spec fn one_more(count: u32) -> u32 {
    if count < u32::MAX {
        (count + 1) as u32
    } else {
        count
    }
}

/// Nanoseconds from `earlier` to `later`; 0 if the clock ran backwards.
pub open spec fn span(earlier: u128, later: u128) -> int {
    if earlier < later {
        later - earlier
    } else {
        0
    }
}

/// `nanos` nanoseconds in seconds, in double precision.
pub open spec fn seconds(nanos: int) -> int {
    double::plus(
        double::of(nanos / 1000000000),
        double::over(double::of(nanos % 1000000000), double::of(1000000000)),
    )
}

/// `bytes` in `nanos` nanoseconds, as whole bytes per second, computed in double
/// precision; the largest `u64` where there is no larger one.
pub open spec fn rate(bytes: int, nanos: int) -> int {
    double::whole(double::over(double::of(bytes), seconds(nanos)))
}

fn rate_bps(bytes: u64, nanos: u128) -> (bps: u64)
    requires
        0 < nanos,
    ensures
        bps == rate(bytes as int, nanos as int),
{
    let secs = Double::from_whole(nanos / NANOS_PER_SEC);
    let rest = Double::from_whole(nanos % NANOS_PER_SEC);
    let second = Double::from_whole(NANOS_PER_SEC);
    proof {
        lemma_seconds_pass(nanos as int);
    }
    let elapsed = secs.plus(rest.over(second));
    Double::from_whole(bytes as u128).over(elapsed).whole()
}

/// Some time is not rounded away.
proof fn lemma_seconds_pass(nanos: int)
    requires
        0 < nanos,
    ensures
        0 < double::of(1000000000),
        0 < seconds(nanos),
{
    let u = double::unit();
    let a = nanos / 1000000000;
    let b = nanos % 1000000000;
    lemma_unit();
    assert(0 <= a * u && 0 <= b * u && (1 <= a ==> 1 <= a * u)) by (nonlinear_arith)
        requires
            0 <= a,
            0 <= b,
            1 <= u,
    ;
    double::short_numbers_stay(1000000000, 1074);
    double::short_numbers_stay(b, 1074);
    double::short_numbers_stay(1, 0);
    vstd::arithmetic::power2::lemma2_to64();
    double::rounding_is_final(a * u, 1);
    let n = double::of(b) * u;
    assert(0 <= (b * u) * u && (1 <= b ==> 1000000000 * u <= (b * u) * u)) by (nonlinear_arith)
        requires
            0 <= b,
            1000000000 <= u,
    ;
    double::rounding_is_final(n, 1000000000 * u);
    if 1 <= a {
        double::rounding_stays_above(a * u, 1, 1);
    } else {
        double::rounding_stays_above(n, 1000000000 * u, 1);
    }
    double::rounding_stays_above(
        double::of(a) + double::over(double::of(b), double::of(1000000000)),
        1,
        1,
    );
}

/// There are many units in one.
proof fn lemma_unit()
    ensures
        0x1000_0000_0000_0000 < double::unit(),
        double::unit() == 128 * vstd::arithmetic::power2::pow2(1067),
        0x1000_0000_0000_0000 < vstd::arithmetic::power2::pow2(1067),
{
    vstd::arithmetic::power2::lemma2_to64();
    vstd::arithmetic::power2::lemma2_to64_rest();
    vstd::arithmetic::power2::lemma_pow2_adds(7, 1067);
    vstd::arithmetic::power2::lemma_pow2_strictly_increases(60, 1067);
}

// ─── Rolling-window sampler ──────────────────────────────────────────────────

/// Bytes recorded at one moment.
#[derive(Debug, Clone, Copy)]
pub struct Sample {
    pub bytes: u64,
    /// Nanoseconds on the sampler's clock
    pub at: u128,
}

/// The bytes of all samples.
pub open spec fn sum_bytes(samples: Seq<Sample>) -> int
    decreases samples.len(),
{
    if samples.len() == 0 {
        0
    } else {
        sum_bytes(samples.drop_last()) + samples.last().bytes
    }
}

/// The sample lies more than the window before `now`.
pub open spec fn stale(s: Sample, now: u128) -> bool {
    span(s.at, now) > SAMPLE_WINDOW
}

/// The samples from the first one on that is not stale.
pub open spec fn drop_stale(samples: Seq<Sample>, now: u128) -> Seq<Sample>
    decreases samples.len(),
{
    if samples.len() > 0 && stale(samples[0], now) {
        drop_stale(samples.drop_first(), now)
    } else {
        samples
    }
}

/// The last `n` entries.
pub open spec fn keep_last<T>(s: Seq<T>, n: int) -> Seq<T> {
    if s.len() <= n {
        s
    } else {
        s.skip(s.len() - n)
    }
}

/// What a sampler holds.
pub struct SamplerView {
    pub samples: Seq<Sample>,
    pub total: u64,
}

/// A sampler after `bytes` were recorded at `now`.
pub open spec fn recorded(s: SamplerView, bytes: u64, now: u128) -> SamplerView {
    SamplerView {
        samples: keep_last(
            drop_stale(s.samples.push(Sample { bytes, at: now }), now),
            MAX_SAMPLES as int,
        ),
        total: (s.total + bytes) as u64,
    }
}

/// The speed over the samples: none for fewer than two, or for less than
/// `MIN_SPAN` from the oldest to the newest.
pub open spec fn window_speed(samples: Seq<Sample>) -> int {
    if samples.len() < 2 {
        0
    } else {
        let elapsed = span(samples[0].at, samples.last().at);
        if elapsed < MIN_SPAN {
            0
        } else {
            rate(sum_bytes(samples), elapsed)
        }
    }
}

/// Rolling-window speed tracker.
///
/// Each worker has one; the manager aggregates them for global speed.
#[derive(Debug)]
pub struct SpeedSampler {
    samples: VecDeque<Sample>,
    total_bytes: u64,
    clock: Clock,
}

impl View for SpeedSampler {
    type V = SamplerView;

    closed spec fn view(&self) -> SamplerView {
        SamplerView { samples: self.samples@, total: self.total_bytes }
    }
}

impl SpeedSampler {
    /// The window holds no more bytes than were ever recorded, and no more
    /// samples than the cap.
    pub open spec fn wf(self) -> bool {
        &&& sum_bytes(self@.samples) <= self@.total
        &&& self@.samples.len() <= MAX_SAMPLES
    }

    pub fn new() -> (sampler: Self)
        ensures
            sampler.wf(),
            sampler@ == (SamplerView { samples: Seq::empty(), total: 0 }),
    {
        SpeedSampler {
            samples: VecDeque::with_capacity(MAX_SAMPLES),
            total_bytes: 0,
            clock: Clock::start(),
        }
    }

    /// Record `bytes` downloaded at this instant.
    pub fn record(&mut self, bytes: u64)
        requires
            old(self).wf(),
            old(self)@.total + bytes <= u64::MAX,
        ensures
            final(self).wf(),
            exists|now: u128| final(self)@ == #[trigger] recorded(old(self)@, bytes, now),
    {
        let now: u128 = self.clock.now();
        self.record_at(bytes, now);
    }

    /// Record `bytes` downloaded at `now`, in nanoseconds on the sampler's clock.
    pub fn record_at(&mut self, bytes: u64, now: u128)
        requires
            old(self).wf(),
            old(self)@.total + bytes <= u64::MAX,
        ensures
            final(self).wf(),
            final(self)@ == recorded(old(self)@, bytes, now),
    {
        let ghost pushed = self.samples@.push(Sample { bytes, at: now });
        self.samples.push_back(Sample { bytes, at: now });
        self.total_bytes = self.total_bytes + bytes;
        assert(pushed.drop_last() =~= old(self).samples@);

        // Evict samples older than the window
        while self.samples.len() > 0 && now > self.samples[0].at && now - self.samples[0].at
            > SAMPLE_WINDOW
            invariant
                drop_stale(self.samples@, now) == drop_stale(pushed, now),
                sum_bytes(self.samples@) <= self.total_bytes,
                self.samples@.len() <= pushed.len(),
                self.total_bytes == old(self)@.total + bytes,
            decreases self.samples@.len(),
        {
            proof {
                lemma_sum_bytes_drop_first(self.samples@);
            }
            let ghost before = self.samples@;
            let _ = self.samples.pop_front();
            assert(self.samples@ =~= before.drop_first());
        }
        let ghost fresh = self.samples@;
        assert(fresh == drop_stale(pushed, now));

        // Cap sample count
        while self.samples.len() > MAX_SAMPLES
            invariant
                self.samples@.len() <= fresh.len(),
                self.samples@ == fresh.skip(fresh.len() - self.samples@.len()),
                self.samples@.len() >= MAX_SAMPLES || self.samples@ == fresh,
                sum_bytes(self.samples@) <= self.total_bytes,
                self.total_bytes == old(self)@.total + bytes,
            decreases self.samples@.len(),
        {
            proof {
                lemma_sum_bytes_drop_first(self.samples@);
            }
            let ghost before = self.samples@;
            let _ = self.samples.pop_front();
            assert(self.samples@ =~= before.drop_first());
        }
        assert(self.samples@ =~= keep_last(fresh, MAX_SAMPLES as int));
    }

    /// Current speed in bytes/sec over the sample window.
    pub fn speed_bps(&self) -> (bps: u64)
        requires
            self.wf(),
        ensures
            bps == window_speed(self@.samples),
    {
        if self.samples.len() < 2 {
            return 0;
        }
        let oldest = self.samples[0];
        let newest = self.samples[self.samples.len() - 1];
        let elapsed: u128 = newest.at.saturating_sub(oldest.at);
        if elapsed < MIN_SPAN {
            return 0;
        }
        let mut bytes: u64 = 0;
        let mut i: usize = 0;
        while i < self.samples.len()
            invariant
                i <= self.samples@.len(),
                sum_bytes(self.samples@) <= self.total_bytes,
                bytes == sum_bytes(self.samples@.take(i as int)),
            decreases self.samples@.len() - i,
        {
            proof {
                lemma_sum_bytes_prefix(self.samples@, i + 1);
                assert(self.samples@.take(i + 1).drop_last() =~= self.samples@.take(i as int));
            }
            bytes = bytes + self.samples[i].bytes;
            i += 1;
        }
        assert(self.samples@.take(i as int) =~= self.samples@);
        rate_bps(bytes, elapsed)
    }

    pub fn total_bytes(&self) -> (n: u64)
        ensures
            n == self@.total,
    {
        self.total_bytes
    }
}

proof fn lemma_sum_bytes_drop_first(samples: Seq<Sample>)
    requires
        samples.len() > 0,
    ensures
        sum_bytes(samples) == samples[0].bytes + sum_bytes(samples.drop_first()),
    decreases samples.len(),
{
    if samples.len() > 1 {
        lemma_sum_bytes_drop_first(samples.drop_last());
        assert(samples.drop_last().drop_first() =~= samples.drop_first().drop_last());
    } else {
        assert(samples.drop_last() =~= Seq::<Sample>::empty());
        assert(samples.drop_first() =~= Seq::<Sample>::empty());
    }
}

proof fn lemma_sum_bytes_prefix(samples: Seq<Sample>, k: int)
    requires
        0 <= k <= samples.len(),
    ensures
        sum_bytes(samples.take(k)) <= sum_bytes(samples),
    decreases samples.len(),
{
    if k == samples.len() {
        assert(samples.take(k) =~= samples);
    } else {
        lemma_sum_bytes_prefix(samples.drop_last(), k);
        assert(samples.drop_last().take(k) =~= samples.take(k));
    }
}

// ─── Global speed aggregator ─────────────────────────────────────────────────

/// What the global meter holds: the counter, and the counter and time of the
/// last snapshot.
pub struct MeterView {
    pub total: u64,
    pub last_total: u64,
    pub last_at: u128,
}

/// The counter's growth since the last snapshot; 0 if it wrapped.
pub open spec fn growth(before: u64, after: u64) -> int {
    if before < after {
        after - before
    } else {
        0
    }
}

/// The speed that the meter reports at `now`.
pub open spec fn meter_speed(m: MeterView, now: u128) -> int {
    if span(m.last_at, now) < MIN_SNAPSHOT_SPAN {
        0
    } else {
        rate(growth(m.last_total, m.total), span(m.last_at, now))
    }
}

/// The meter after its speed was read at `now`: a reading that comes too soon
/// takes no snapshot.
pub open spec fn meter_after(m: MeterView, now: u128) -> MeterView {
    if span(m.last_at, now) < MIN_SNAPSHOT_SPAN {
        m
    } else {
        MeterView { last_total: m.total, last_at: now, ..m }
    }
}

/// Byte counter: workers add bytes here; the manager reads speed by sampling it
/// periodically.
#[derive(Debug)]
pub struct GlobalSpeedMeter {
    counter: u64,
    last_total: u64,
    last_at: u128,
    clock: Clock,
}

impl View for GlobalSpeedMeter {
    type V = MeterView;

    closed spec fn view(&self) -> MeterView {
        MeterView { total: self.counter, last_total: self.last_total, last_at: self.last_at }
    }
}

impl GlobalSpeedMeter {
    pub fn new() -> (meter: Self)
        ensures
            meter@ == (MeterView { total: 0, last_total: 0, last_at: 0 }),
    {
        GlobalSpeedMeter { counter: 0, last_total: 0, last_at: 0, clock: Clock::start() }
    }

    pub fn add(&mut self, bytes: u64)
        ensures
            final(self)@ == (MeterView {
                total: counter_add(old(self)@.total, bytes),
                ..old(self)@
            }),
    {
        self.counter = self.counter.wrapping_add(bytes);
    }

    /// Compute current speed by diffing counter vs last snapshot.
    pub fn speed_bps(&mut self) -> (bps: u64)
        ensures
            exists|now: u128|
                bps == #[trigger] meter_speed(old(self)@, now) && final(self)@ == meter_after(
                    old(self)@,
                    now,
                ),
    {
        let now: u128 = self.clock.now();
        self.speed_bps_at(now)
    }

    /// The speed at `now`, in nanoseconds since the meter was made.
    pub fn speed_bps_at(&mut self, now: u128) -> (bps: u64)
        ensures
            bps == meter_speed(old(self)@, now),
            final(self)@ == meter_after(old(self)@, now),
    {
        let elapsed: u128 = now.saturating_sub(self.last_at);
        if elapsed < MIN_SNAPSHOT_SPAN {
            return 0;
        }
        let delta: u64 = self.counter.saturating_sub(self.last_total);
        let speed: u64 = rate_bps(delta, elapsed);
        self.last_total = self.counter;
        self.last_at = now;
        speed
    }

    pub fn total_bytes(&self) -> (n: u64)
        ensures
            n == self@.total,
    {
        self.counter
    }
}

// ─── Ring-buffer speed meter ─────────────────────────────────────────────────

/// The counter at one moment.
#[derive(Debug, Clone, Copy)]
pub struct RingSample {
    pub bytes: u64,
    /// Nanoseconds on the meter's clock
    pub at: u128,
}

/// What the ring meter holds.
pub struct RingView {
    pub total: u64,
    pub samples: Seq<RingSample>,
}

/// The ring after a sample was taken at `now`.
pub open spec fn ring_sampled(r: RingView, now: u128) -> RingView {
    RingView {
        samples: keep_last(
            r.samples.push(RingSample { bytes: r.total, at: now }),
            RING_SIZE as int,
        ),
        ..r
    }
}

/// The speed from the oldest to the newest sample.
pub open spec fn ring_speed(samples: Seq<RingSample>) -> int {
    if samples.len() < 2 {
        0
    } else {
        let elapsed = span(samples[0].at, samples.last().at);
        if elapsed < MIN_SPAN {
            0
        } else {
            rate(growth(samples[0].bytes, samples.last().bytes), elapsed)
        }
    }
}

/// Speed meter using a ring buffer.
///
/// A dedicated timer task takes samples at fixed intervals; speed queries read
/// from the ring.
#[derive(Debug)]
pub struct RingSpeedMeter {
    counter: u64,
    samples: VecDeque<RingSample>,
    clock: Clock,
}

impl View for RingSpeedMeter {
    type V = RingView;

    closed spec fn view(&self) -> RingView {
        RingView { total: self.counter, samples: self.samples@ }
    }
}

impl RingSpeedMeter {
    /// The ring holds no more samples than its size.
    pub open spec fn wf(self) -> bool {
        self@.samples.len() <= RING_SIZE
    }

    pub fn new() -> (meter: Self)
        ensures
            meter.wf(),
            meter@ == (RingView { total: 0, samples: Seq::empty() }),
    {
        RingSpeedMeter {
            counter: 0,
            samples: VecDeque::with_capacity(RING_SIZE),
            clock: Clock::start(),
        }
    }

    /// Add bytes to the counter (called by workers).
    pub fn add(&mut self, bytes: u64)
        ensures
            final(self)@ == (RingView { total: counter_add(old(self)@.total, bytes), ..old(self)@ }),
    {
        self.counter = self.counter.wrapping_add(bytes);
    }

    /// Take a sample; call this from a dedicated timer task.
    pub fn sample(&mut self)
        requires
            old(self).wf(),
        ensures
            final(self).wf(),
            exists|now: u128| final(self)@ == #[trigger] ring_sampled(old(self)@, now),
    {
        let now: u128 = self.clock.now();
        self.sample_at(now);
    }

    /// Take a sample at `now`, in nanoseconds on the meter's clock.
    pub fn sample_at(&mut self, now: u128)
        requires
            old(self).wf(),
        ensures
            final(self).wf(),
            final(self)@ == ring_sampled(old(self)@, now),
    {
        let ghost pushed = self.samples@.push(RingSample { bytes: self.counter, at: now });
        self.samples.push_back(RingSample { bytes: self.counter, at: now });
        if self.samples.len() > RING_SIZE {
            let _ = self.samples.pop_front();
            assert(self.samples@ =~= pushed.skip(1));
        }
    }

    /// Compute current speed from the ring buffer.
    pub fn speed_bps(&self) -> (bps: u64)
        ensures
            bps == ring_speed(self@.samples),
    {
        if self.samples.len() < 2 {
            return 0;
        }
        let oldest = self.samples[0];
        let newest = self.samples[self.samples.len() - 1];
        let elapsed: u128 = newest.at.saturating_sub(oldest.at);
        if elapsed < MIN_SPAN {
            return 0;
        }
        rate_bps(newest.bytes.saturating_sub(oldest.bytes), elapsed)
    }

    pub fn total_bytes(&self) -> (n: u64)
        ensures
            n == self@.total,
    {
        self.counter
    }
}

impl Default for RingSpeedMeter {
    fn default() -> (meter: Self)
        ensures
            meter.wf(),
            meter@ == (RingView { total: 0, samples: Seq::empty() }),
    {
        RingSpeedMeter::new()
    }
}

/// Real-time speed update from a worker.
#[derive(Debug, Clone, Copy)]
pub struct WorkerSpeedUpdate {
    pub worker_id: usize,
    pub chunk_index: usize,
    pub speed_bps: u64,
    pub bytes_downloaded: u64,
}

// ─── Percentile calculation for adaptive workers ─────────────────────────────

/// The speeds in ascending order.
pub open spec fn ascending(speeds: Seq<u64>) -> Seq<u64> {
    speeds.sort_by(|a: u64, b: u64| a <= b)
}

/// Where percentile `p` stands among `len` sorted speeds, counted from 0, in double
/// precision.
pub open spec fn rank(p: int, len: int) -> int {
    double::times(double::over(double::of(p), double::of(100)), double::of(len - 1))
}

/// The value that lies `part` of the way from `low` to `high`, in double precision
/// and without its fraction.
pub open spec fn between(low: u64, high: u64, part: int) -> int {
    let gap = double::nearest(double::of(high as int) - double::of(low as int), 1);
    double::whole(double::plus(double::of(low as int), double::times(part, gap)))
}

/// The value `p` per cent of the way from the smallest speed to the largest, by
/// rank, with linear interpolation between two ranks. (A rank less its whole part is
/// a double, so the difference is exact.)
pub open spec fn percentile_of(speeds: Seq<u64>, p: int) -> int {
    if speeds.len() == 0 {
        0
    } else if speeds.len() == 1 {
        speeds[0] as int
    } else {
        let sorted = ascending(speeds);
        let at = rank(p, speeds.len() as int);
        let lower = at / double::unit();
        let part = at % double::unit();
        if part == 0 {
            sorted[lower] as int
        } else {
            between(sorted[lower], sorted[lower + 1], part)
        }
    }
}

/// The rank of percentile `p` is one that `len` speeds have. Only at 100 can it
/// lie beyond, where `len` is too large for a double.
pub open spec fn ranked(p: int, len: int) -> bool {
    p < 100 || (p == 100 && len <= double::LIMIT + 1)
}

proof fn lemma_rank_in_range(p: int, len: int)
    requires
        0 <= p,
        2 <= len,
        ranked(p, len),
    ensures
        0 <= rank(p, len) <= (len - 1) * double::unit(),
        p == 0 ==> rank(p, len) == 0,
        p == 100 ==> rank(p, len) == (len - 1) * double::unit(),
{
    let u = double::unit();
    let n = len - 1;
    let c = double::over(double::of(p), double::of(100));
    let y = double::of(n);
    lemma_unit();
    double::short_numbers_stay(p, 1074);
    double::short_numbers_stay(100, 1074);
    assert(0 <= p * u && 0 <= (p * u) * u && 0 < n * u && 0 < 100 * u && u <= n * u)
        by (nonlinear_arith)
        requires
            0 <= p,
            1 <= n,
            1 <= u,
    ;
    double::rounding_is_final((p * u) * u, 100 * u);
    double::rounding_is_final(n * u, 1);
    assert(0 <= c * y) by (nonlinear_arith)
        requires
            0 <= c,
            0 <= y,
    ;
    double::rounding_is_final(c * y, u);
    if p == 0 {
        assert((0 * u) * u == 0 && 0 * 100 * u == 0) by (nonlinear_arith);
        double::short_numbers_stay(0, 0);
        vstd::arithmetic::power2::lemma2_to64();
        double::rounding_stays_below(0, 100 * u, 0);
        assert(c == 0);
        assert(0 * y == 0) by (nonlinear_arith);
        double::rounding_stays_below(0, u, 0);
    } else if p == 100 {
        double::short_numbers_stay(1, 1074);
        double::short_numbers_stay(n, 1074);
        assert((100 * u) * u == u * (100 * u)) by (nonlinear_arith);
        double::rounding_stays_below((p * u) * u, 100 * u, u);
        double::rounding_stays_above((p * u) * u, 100 * u, u);
        assert(c == u);
        assert(u * (n * u) == (n * u) * u && 0 <= (n * u) * u) by (nonlinear_arith)
            requires
                0 <= n,
                0 <= u,
        ;
        double::rounding_stays_below(u * (n * u), u, n * u);
        double::rounding_stays_above(u * (n * u), u, n * u);
    } else {
        let least = double::LEAST as int;
        let v = vstd::arithmetic::power2::pow2(1067) as int;
        double::short_numbers_stay(1, 1067);
        double::short_numbers_stay(1, 1074);
        assert(0 <= v * (100 * u) <= (p * u) * u && least * (100 * u) <= (p * u) * u)
            by (nonlinear_arith)
            requires
                1 <= p,
                u == 128 * v,
                0 < v,
                least * 100 <= u,
        ;
        double::rounding_stays_above((p * u) * u, 100 * u, v);
        double::rounding_stays_above(n * u, 1, u);
        assert(least * u <= c * u) by (nonlinear_arith)
            requires
                least <= c,
                0 < u,
        ;
        assert(c * u <= c * y) by (nonlinear_arith)
            requires
                0 <= c,
                u <= y,
        ;
        double::rounding_is_close((p * u) * u, 100 * u);
        double::rounding_is_close(n * u, 1);
        double::rounding_is_close(c * y, u);
        lemma_three_roundings(rank(p, len), c, y, p, n, u);
    }
}

/// Three roundings do not make up for one per cent.
proof fn lemma_three_roundings(at: int, c: int, y: int, p: int, n: int, u: int)
    requires
        1 <= p <= 99,
        1 <= n,
        0 < u,
        0 <= c,
        0 <= y,
        0 <= at,
        c * ((100 * u) * double::LEAST) <= ((p * u) * u) * (double::LEAST + 1),
        y * (1 * double::LEAST) <= (n * u) * (double::LEAST + 1),
        at * (u * double::LEAST) <= (c * y) * (double::LEAST + 1),
    ensures
        at <= n * u,
{
    let l = double::LEAST as int;
    let m = l + 1;
    assert(c * (100 * l) <= (p * u) * m) by (nonlinear_arith)
        requires
            c * ((100 * u) * l) <= ((p * u) * u) * m,
            0 < u,
    ;
    assert((c * (100 * l)) * (y * l) <= ((p * u) * m) * ((n * u) * m)) by (nonlinear_arith)
        requires
            0 <= c * (100 * l) <= (p * u) * m,
            0 <= y * l <= (n * u) * m,
    ;
    assert((at * (u * l)) * (100 * l * l) <= ((c * y) * m) * (100 * l * l)) by (nonlinear_arith)
        requires
            at * (u * l) <= (c * y) * m,
            0 < l,
    ;
    assert(((c * y) * m) * (100 * l * l) == ((c * (100 * l)) * (y * l)) * m) by (nonlinear_arith);
    assert(((c * (100 * l)) * (y * l)) * m <= (((p * u) * m) * ((n * u) * m)) * m)
        by (nonlinear_arith)
        requires
            (c * (100 * l)) * (y * l) <= ((p * u) * m) * ((n * u) * m),
            0 < m,
    ;
    let cube = l * l * l;
    let over_cube = m * m * m;
    assert((at * (u * l)) * (100 * l * l) == u * (at * (100 * cube))) by (nonlinear_arith)
        requires
            cube == l * l * l,
    ;
    assert((((p * u) * m) * ((n * u) * m)) * m == u * ((p * over_cube) * (n * u)))
        by (nonlinear_arith)
        requires
            over_cube == m * m * m,
    ;
    assert(at * (100 * cube) <= (p * over_cube) * (n * u)) by (nonlinear_arith)
        requires
            u * (at * (100 * cube)) <= u * ((p * over_cube) * (n * u)),
            0 < u,
    ;
    assert(99 * ((l + 1) * (l + 1) * (l + 1)) <= 100 * (l * l * l)) by (nonlinear_arith)
        requires
            l == 0x10_0000_0000_0000,
    ;
    assert(0 < n * u) by (nonlinear_arith)
        requires
            1 <= n,
            0 < u,
    ;
    assert((p * over_cube) * (n * u) <= (100 * cube) * (n * u)) by (nonlinear_arith)
        requires
            0 < n * u,
            p <= 99,
            0 <= over_cube,
            99 * over_cube <= 100 * cube,
    ;
    assert(at <= n * u) by (nonlinear_arith)
        requires
            at * (100 * cube) <= (100 * cube) * (n * u),
            0 < cube,
    ;
}

proof fn lemma_leq_total()
    ensures
        vstd::relations::total_ordering(|a: u64, b: u64| a <= b),
{
}

/// The speeds in ascending order, as a new vector.
fn sort_speeds(speeds: &[u64]) -> (sorted: Vec<u64>)
    ensures
        sorted@ == ascending(speeds@),
        sorted@.len() == speeds@.len(),
        forall|i: int, j: int| 0 <= i <= j < sorted@.len() ==> sorted@[i] <= sorted@[j],
{
    let ghost leq = |a: u64, b: u64| a <= b;
    let mut sorted: Vec<u64> = Vec::new();
    let mut i: usize = 0;
    assert(sorted@ =~= speeds@.take(0));
    while i < speeds.len()
        invariant
            i <= speeds@.len(),
            sorted@.len() == i,
            forall|a: int, b: int| 0 <= a <= b < sorted@.len() ==> sorted@[a] <= sorted@[b],
            sorted@.to_multiset() == speeds@.take(i as int).to_multiset(),
        decreases speeds@.len() - i,
    {
        let x: u64 = speeds[i];
        let mut at: usize = sorted.len();
        while at > 0 && sorted[at - 1] > x
            invariant
                at <= sorted@.len(),
                forall|k: int| at <= k < sorted@.len() ==> sorted@[k] > x,
            decreases at,
        {
            at -= 1;
        }
        let ghost before = sorted@;
        sorted.insert(at, x);
        proof {
            vstd::seq_lib::to_multiset_insert(before, at as int, x);
            vstd::seq_lib::to_multiset_build(speeds@.take(i as int), x);
            assert(speeds@.take(i + 1) =~= speeds@.take(i as int).push(x));
        }
        i += 1;
    }
    proof {
        assert(speeds@.take(i as int) =~= speeds@);
        lemma_leq_total();
        speeds@.lemma_sort_by_ensures(leq);
        assert(vstd::relations::sorted_by(sorted@, leq));
        vstd::seq_lib::lemma_sorted_unique(sorted@, ascending(speeds@), leq);
    }
    sorted
}

/// The value `part` of the way from `low` to `high`.
fn interpolate(low: u64, high: u64, part: Double) -> (value: u64)
    requires
        low <= high,
        part.wf(),
        700 <= part.scale() <= 1500,
    ensures
        value == between(low, high, part@),
{
    let from: u128 = double::rounded(low);
    let to: u128 = double::rounded(high);
    proof {
        let u = double::unit();
        lemma_unit();
        assert(0 <= low * u <= high * u) by (nonlinear_arith)
            requires
                0 <= low <= high,
                0 <= u,
        ;
        double::rounding_keeps_order(low * u, high * u, 1);
        assert(from <= to && to * u - from * u == (to - from) * u) by (nonlinear_arith)
            requires
                from * u <= to * u,
                0 < u,
        ;
    }
    let gap = Double::from_whole(to - from);
    Double::from_whole(low as u128).plus(part.times(gap)).whole()
}

/// The `p`-th percentile of a slice of speeds, 0 for an empty one.
/// Uses linear interpolation for non-integer indices.
pub fn percentile(speeds: &[u64], p: u64) -> (value: u64)
    requires
        ranked(p as int, speeds@.len() as int) || speeds@.len() <= 1,
    ensures
        value == percentile_of(speeds@, p as int),
{
    if speeds.len() == 0 {
        return 0;
    }
    if speeds.len() == 1 {
        return speeds[0];
    }
    let sorted = sort_speeds(speeds);
    let ghost n = speeds@.len() - 1;
    proof {
        lemma_rank_in_range(p as int, speeds@.len() as int);
        lemma_unit();
        double::short_numbers_stay(100, 1074);
    }
    let at = Double::from_whole(p as u128).over(Double::from_whole(100)).times(
        Double::from_whole((sorted.len() - 1) as u128),
    );
    let ghost u = double::unit();
    proof {
        vstd::arithmetic::div_mod::lemma_fundamental_div_mod(at@, u);
        let (q, r) = (at@ / u, at@ % u);
        assert(0 <= q <= n && (q == n ==> r == 0)) by (nonlinear_arith)
            requires
                at@ == u * q + r,
                0 <= r < u,
                0 <= at@ <= n * u,
        ;
    }
    let lower: usize = at.whole() as usize;
    let part = at.fraction();
    if part.is_zero() {
        sorted[lower]
    } else {
        interpolate(sorted[lower], sorted[lower + 1], part)
    }
}

/// Calculate P75 (75th percentile); use instead of median for small samples.
pub fn p75(speeds: &[u64]) -> (value: u64)
    ensures
        value == percentile_of(speeds@, 75),
{
    percentile(speeds, 75)
}

/// The whole seconds that the rest of a file takes at this speed; `None` where
/// the size is unknown or nothing moves.
pub open spec fn eta_of(total: Option<u64>, downloaded: u64, speed_bps: u64) -> Option<u64> {
    if total is None || speed_bps == 0 {
        None
    } else if downloaded >= total->0 {
        Some(0u64)
    } else {
        Some(((total->0 - downloaded) / (speed_bps as int)) as u64)
    }
}

/// ETA calculator: given total size and current speed, return seconds.
pub fn eta(total: Option<u64>, downloaded: u64, speed_bps: u64) -> (secs: Option<u64>)
    ensures
        secs == eta_of(total, downloaded, speed_bps),
{
    match total {
        None => None,
        Some(total) => {
            let remaining: u64 = total.saturating_sub(downloaded);
            if speed_bps == 0 {
                None
            } else {
                Some(remaining / speed_bps)
            }
        },
    }
}

// ─── Laws ────────────────────────────────────────────────────────────────────

/// Recording never loses the newest sample, never holds one that is stale at
/// the front, and never exceeds the cap.
pub proof fn recording_keeps_a_fresh_window(s: SamplerView, bytes: u64, now: u128)
    ensures
        ({
            let kept = recorded(s, bytes, now).samples;
            &&& 1 <= kept.len() <= MAX_SAMPLES
            &&& kept.last() == (Sample { bytes, at: now })
            &&& !stale(drop_stale(s.samples.push(Sample { bytes, at: now }), now)[0], now)
        }),
{
    let pushed = s.samples.push(Sample { bytes, at: now });
    lemma_drop_stale(pushed, now);
}

proof fn lemma_drop_stale(samples: Seq<Sample>, now: u128)
    requires
        samples.len() > 0,
        !stale(samples.last(), now),
    ensures
        drop_stale(samples, now).len() > 0,
        drop_stale(samples, now).last() == samples.last(),
        !stale(drop_stale(samples, now)[0], now),
    decreases samples.len(),
{
    if stale(samples[0], now) {
        lemma_drop_stale(samples.drop_first(), now);
    }
}

/// A percentile depends on which speeds there are, not on their order.
pub proof fn percentile_ignores_order(a: Seq<u64>, b: Seq<u64>, p: int)
    requires
        a.to_multiset() == b.to_multiset(),
    ensures
        percentile_of(a, p) == percentile_of(b, p),
{
    let leq = |x: u64, y: u64| x <= y;
    lemma_leq_total();
    a.lemma_sort_by_ensures(leq);
    b.lemma_sort_by_ensures(leq);
    vstd::seq_lib::lemma_sorted_unique(ascending(a), ascending(b), leq);
    vstd::seq_lib::to_multiset_len(a);
    vstd::seq_lib::to_multiset_len(b);
    if a.len() == 1 {
        vstd::seq_lib::to_multiset_contains(a, a[0]);
        vstd::seq_lib::to_multiset_contains(b, a[0]);
    }
}

/// What lies between two speeds that are doubles is neither below nor above them.
proof fn lemma_between(low: u64, high: u64, part: int)
    requires
        low <= high <= double::LIMIT,
        0 <= part < double::unit(),
    ensures
        low <= between(low, high, part) <= high,
{
    let u = double::unit();
    let g = high - low;
    lemma_unit();
    double::short_numbers_stay(low as int, 1074);
    double::short_numbers_stay(high as int, 1074);
    double::short_numbers_stay(g, 1074);
    assert(high * u - low * u == g * u && 0 <= g * u && 0 <= part * (g * u) <= (g * u) * u)
        by (nonlinear_arith)
        requires
            g == high - low,
            0 <= g,
            0 <= part < u,
    ;
    let step = double::times(part, g * u);
    double::rounding_is_final(part * (g * u), u);
    double::rounding_stays_below(part * (g * u), u, g * u);
    assert(0 <= low * u) by (nonlinear_arith)
        requires
            0 <= low,
            0 < u,
    ;
    double::rounding_stays_above(low * u + step, 1, low * u);
    double::rounding_stays_below(low * u + step, 1, high * u);
    let sum = double::plus(low * u, step);
    vstd::arithmetic::div_mod::lemma_fundamental_div_mod(sum, u);
    let (q, r) = (sum / u, sum % u);
    assert(low <= q <= high) by (nonlinear_arith)
        requires
            sum == u * q + r,
            0 <= r < u,
            low * u <= sum <= high * u,
    ;
}

/// A percentile lies between the smallest and the largest speed, where these are
/// doubles; percentile 0 is the smallest and percentile 100 the largest.
pub proof fn percentile_stays_in_range(speeds: Seq<u64>, p: int)
    requires
        speeds.len() > 0,
        0 <= p,
        ranked(p, speeds.len() as int),
        forall|i: int| 0 <= i < speeds.len() ==> #[trigger] speeds[i] <= double::LIMIT,
    ensures
        ascending(speeds).len() == speeds.len(),
        ascending(speeds)[0] <= percentile_of(speeds, p) <= ascending(speeds).last(),
        p == 0 ==> percentile_of(speeds, p) == ascending(speeds)[0],
        p == 100 ==> percentile_of(speeds, p) == ascending(speeds).last(),
{
    let leq = |x: u64, y: u64| x <= y;
    let sorted = ascending(speeds);
    lemma_leq_total();
    speeds.lemma_sort_by_ensures(leq);
    vstd::seq_lib::to_multiset_len(speeds);
    vstd::seq_lib::to_multiset_len(sorted);
    assert forall|i: int, j: int| 0 <= i <= j < sorted.len() implies sorted[i] <= sorted[j] by {
        if i < j {
            assert(leq(sorted[i], sorted[j]));
        }
    }
    let n = speeds.len() - 1;
    if n == 0 {
        vstd::seq_lib::to_multiset_contains(speeds, speeds[0]);
        vstd::seq_lib::to_multiset_contains(sorted, speeds[0]);
    } else {
        let u = double::unit();
        let at = rank(p, speeds.len() as int);
        lemma_unit();
        lemma_rank_in_range(p, speeds.len() as int);
        vstd::arithmetic::div_mod::lemma_fundamental_div_mod(at, u);
        let (q, r) = (at / u, at % u);
        assert(0 <= q <= n && (q == n ==> r == 0) && (at == 0 ==> q == 0 && r == 0) && (at == n * u
            ==> q == n)) by (nonlinear_arith)
            requires
                at == u * q + r,
                0 <= r < u,
                0 <= at <= n * u,
        ;
        if r != 0 {
            vstd::seq_lib::to_multiset_contains(sorted, sorted[q + 1]);
            vstd::seq_lib::to_multiset_contains(speeds, sorted[q + 1]);
            lemma_between(sorted[q], sorted[q + 1], r);
        }
    }
}

/// Counters run modulo 2^64.
pub proof fn counting_wraps_around(counter: u64, bytes: u64)
    ensures
        counter_add(counter, bytes) == (counter + bytes) % 0x1_0000_0000_0000_0000,
{
}

/// What is new of a count: the two add up, unless the count fell.
pub proof fn growth_is_what_is_new(before: u64, after: u64)
    ensures
        before <= after ==> before + growth(before, after) == after,
        after <= before ==> growth(before, after) == 0,
{
}

/// The time between two moments: the two add up, unless the clock ran backwards.
pub proof fn a_span_is_the_time_between(earlier: u128, later: u128)
    ensures
        earlier <= later ==> earlier + span(earlier, later) == later,
        later <= earlier ==> span(earlier, later) == 0,
{
}

/// One more is the next number, up to the largest there is.
pub proof fn one_more_is_the_next(count: u32)
    ensures
        count < u32::MAX ==> one_more(count) == count + 1,
        one_more(u32::MAX) == u32::MAX,
{
}

/// Bytes in one second are the speed; nothing makes no speed; and more bytes in the
/// same time never make less of it.
pub proof fn a_rate_is_bytes_per_second(bytes: int, more: int, nanos: int)
    requires
        0 <= bytes <= more,
        0 < nanos,
    ensures
        more <= double::LIMIT ==> rate(more, 1000000000) == more,
        rate(0, nanos) == 0,
        rate(bytes, nanos) <= rate(more, nanos),
{
    let u = double::unit();
    lemma_unit();
    lemma_seconds_pass(nanos);
    lemma_seconds_pass(1000000000);
    let s = seconds(nanos);
    assert(0 <= bytes * u <= more * u && 0 * u == 0) by (nonlinear_arith)
        requires
            0 <= bytes <= more,
            0 < u,
    ;
    double::rounding_is_final(bytes * u, 1);
    double::rounding_is_final(more * u, 1);
    double::rounding_keeps_order(bytes * u, more * u, 1);
    let a = double::of(bytes);
    let b = double::of(more);
    assert(0 <= a * u <= b * u) by (nonlinear_arith)
        requires
            0 <= a <= b,
            0 < u,
    ;
    double::rounding_keeps_order(a * u, b * u, s);
    double::rounding_is_final(a * u, s);
    double::rounding_is_final(b * u, s);
    let x = double::over(a, s);
    let y = double::over(b, s);
    vstd::arithmetic::div_mod::lemma_div_is_ordered(x, y, u);
    vstd::arithmetic::div_mod::lemma_div_pos_is_pos(x, u);
    // nothing
    double::short_numbers_stay(0, 0);
    vstd::arithmetic::power2::lemma2_to64();
    double::short_numbers_stay(0, 1074);
    double::rounding_stays_below(0, s, 0);
    double::rounding_is_final(0, s);
    assert(double::of(0) == 0);
    assert(double::over(0, s) == 0);
    vstd::arithmetic::div_mod::lemma_div_basics(u);
    // one second
    double::short_numbers_stay(1, 1074);
    double::short_numbers_stay(1000000000, 1074);
    double::rounding_stays_below(0, 1000000000 * u, 0);
    double::rounding_is_final(0, 1000000000 * u);
    assert(double::over(0, double::of(1000000000)) == 0);
    assert(seconds(1000000000) == u) by {
        assert(1000000000int / 1000000000 == 1 && 1000000000int % 1000000000 == 0);
        assert(1 * u == u);
    }
    if more <= double::LIMIT {
        double::short_numbers_stay(more, 1074);
        double::rounding_stays_below(b * u, u, b);
        double::rounding_stays_above(b * u, u, b);
        assert(double::over(b, u) == b);
        vstd::arithmetic::div_mod::lemma_div_multiples_vanish(more, u);
        assert(more * u == u * more) by (nonlinear_arith);
    }
}

/// A sampler keeps the newest samples: what was recorded is the last of them, and an
/// older one goes only if it is more than five seconds old, or if twenty newer ones
/// are there; of fewer than twenty, the first is not that old. All bytes are counted.
pub proof fn a_sampler_keeps_the_newest(s: SamplerView, bytes: u64, now: u128)
    requires
        s.total + bytes <= u64::MAX,
    ensures
        ({
            let pushed = s.samples.push(Sample { bytes, at: now });
            let after = recorded(s, bytes, now);
            let gone = pushed.len() - after.samples.len();
            &&& after.total == s.total + bytes
            &&& 0 <= gone < pushed.len()
            &&& after.samples == pushed.skip(gone)
            &&& after.samples.len() <= 20
            &&& after.samples.len() < 20 ==> pushed[gone].at + 5000000000 >= now
            &&& 0 < gone && after.samples.len() < 20 ==> pushed[gone - 1].at + 5000000000 < now
        }),
{
    let pushed = s.samples.push(Sample { bytes, at: now });
    lemma_drop_stale_skips(pushed, now);
    lemma_drop_stale(pushed, now);
    let fresh = drop_stale(pushed, now);
    let k = pushed.len() - fresh.len();
    if fresh.len() > 20 {
        assert(pushed.skip(k).skip(fresh.len() - 20) =~= pushed.skip(pushed.len() - 20));
    }
}

proof fn lemma_drop_stale_skips(samples: Seq<Sample>, now: u128)
    ensures
        ({
            let kept = drop_stale(samples, now);
            let gone = samples.len() - kept.len();
            &&& 0 <= gone
            &&& kept == samples.skip(gone)
            &&& kept.len() > 0 ==> samples[gone].at + 5000000000 >= now
            &&& 0 < gone ==> samples[gone - 1].at + 5000000000 < now
        }),
    decreases samples.len(),
{
    let kept = drop_stale(samples, now);
    if samples.len() > 0 && stale(samples[0], now) {
        let rest = samples.drop_first();
        lemma_drop_stale_skips(rest, now);
        let gone = rest.len() - kept.len();
        assert(rest.skip(gone) =~= samples.skip(gone + 1));
        if gone > 0 {
            assert(rest[gone - 1] == samples[gone]);
        }
        if kept.len() > 0 {
            assert(rest[gone] == samples[gone + 1]);
        }
    } else {
        assert(samples.skip(0) =~= samples);
    }
}

/// A sampler's speed: all bytes in the window over the time from its first sample to
/// its last; nothing for one sample, or for less than ten milliseconds. One more
/// sample adds its bytes.
pub proof fn a_window_speed_spans_the_window(samples: Seq<Sample>, next: Sample)
    ensures
        sum_bytes(Seq::empty()) == 0,
        sum_bytes(samples.push(next)) == sum_bytes(samples) + next.bytes,
        samples.len() < 2 ==> window_speed(samples) == 0,
        samples.len() >= 2 ==> {
            let first = samples[0].at;
            let last = samples[samples.len() - 1].at;
            &&& first + 10000000 > last ==> window_speed(samples) == 0
            &&& first + 10000000 <= last ==> window_speed(samples) == rate(
                sum_bytes(samples),
                last - first,
            )
        },
{
    assert(samples.push(next).drop_last() =~= samples);
}

/// A meter tells the bytes that were added since its last reading over the time since
/// then, so that each byte is told once; a reading within a tenth of a second tells
/// nothing and leaves the bytes to the next.
pub proof fn a_meter_tells_each_byte_once(m: MeterView, soon: u128, now: u128, bytes: u64)
    requires
        m.last_at <= soon < m.last_at + 100000000 <= now,
        m.last_total <= m.total,
        m.total + bytes <= u64::MAX,
    ensures
        meter_speed(m, soon) == 0,
        meter_after(m, soon) == m,
        meter_speed(m, now) == rate(m.total - m.last_total, now - m.last_at),
        ({
            let read = meter_after(m, now);
            let later = MeterView { total: counter_add(read.total, bytes), ..read };
            &&& read.total == m.total
            &&& forall|then: u128|
                now + 100000000 <= then ==> #[trigger] meter_speed(later, then) == rate(
                    bytes as int,
                    then - now,
                )
        }),
{
}

/// A ring holds the newest fifty counts, and its speed is what was counted from the
/// first of them to the last over the time between; nothing for one count, or for
/// less than ten milliseconds.
pub proof fn a_ring_spans_its_counts(r: RingView, now: u128)
    ensures
        ({
            let pushed = r.samples.push(RingSample { bytes: r.total, at: now });
            let after = ring_sampled(r, now);
            &&& after.total == r.total
            &&& pushed.len() <= 50 ==> after.samples == pushed
            &&& pushed.len() > 50 ==> after.samples == pushed.skip(pushed.len() - 50)
        }),
        r.samples.len() < 2 ==> ring_speed(r.samples) == 0,
        r.samples.len() >= 2 ==> {
            let first = r.samples[0];
            let last = r.samples[r.samples.len() - 1];
            &&& first.at + 10000000 > last.at ==> ring_speed(r.samples) == 0
            &&& first.at + 10000000 <= last.at && first.bytes <= last.bytes ==> ring_speed(
                r.samples,
            ) == rate(last.bytes - first.bytes, last.at - first.at)
            &&& first.at + 10000000 <= last.at && first.bytes > last.bytes ==> ring_speed(
                r.samples,
            ) == rate(0, last.at - first.at)
        },
{
}

/// The remaining time is told for a known size and a speed: at that speed the rest is
/// fetched within the next second after it, and not before it.
pub proof fn the_eta_is_the_time_for_the_rest(total: Option<u64>, downloaded: u64, speed_bps: u64)
    ensures
        eta_of(total, downloaded, speed_bps) is Some <==> total is Some && speed_bps > 0,
        eta_of(total, downloaded, speed_bps) matches Some(secs) ==> {
            &&& downloaded >= total->0 ==> secs == 0
            &&& downloaded <= total->0 ==> secs * speed_bps <= total->0 - downloaded < (secs + 1)
                * speed_bps
        },
{
    if total is Some && speed_bps > 0 && downloaded < total->0 {
        let rest = total->0 - downloaded;
        let v = speed_bps as int;
        let q = rest / v;
        assert(q * v <= rest < (q + 1) * v && 0 <= q <= rest) by (nonlinear_arith)
            requires
                0 < v,
                0 <= rest,
                q == rest / v,
        ;
    } else if total is Some && speed_bps > 0 {
        assert(0 * speed_bps == 0 && (0 + 1) * speed_bps == speed_bps) by (nonlinear_arith);
    }
}

/// The median of an odd number of speeds is the one in the middle, and where the
/// number is one more than a multiple of four, three quarters of the others stand
/// before the 75th percentile.
pub proof fn medians_and_quartiles_are_speeds(speeds: Seq<u64>, k: int)
    requires
        1 <= k,
        speeds.len() <= double::LIMIT,
    ensures
        speeds.len() == 2 * k + 1 ==> percentile_of(speeds, 50) == ascending(speeds)[k],
        speeds.len() == 4 * k + 1 ==> percentile_of(speeds, 75) == ascending(speeds)[3 * k],
{
    let u = double::unit();
    let quarter = vstd::arithmetic::power2::pow2(1072) as int;
    lemma_unit();
    vstd::arithmetic::power2::lemma2_to64();
    vstd::arithmetic::power2::lemma_pow2_adds(2, 1072);
    vstd::arithmetic::power2::lemma_pow2_pos(1072);
    assert(u == 4 * quarter);
    double::short_numbers_stay(50, 1074);
    double::short_numbers_stay(75, 1074);
    double::short_numbers_stay(100, 1074);
    double::short_numbers_stay(2, 1072);
    double::short_numbers_stay(3, 1072);
    let half = 2 * quarter;
    let three = 3 * quarter;
    assert((50 * u) * u == half * (100 * u) && (75 * u) * u == three * (100 * u))
        by (nonlinear_arith)
        requires
            u == 4 * quarter,
            half == 2 * quarter,
            three == 3 * quarter,
    ;
    assert(0 < 100 * u && 0 <= half && 0 <= three);
    assert(0 <= (50 * u) * u && 0 <= (75 * u) * u) by (nonlinear_arith)
        requires
            0 < u,
    ;
    double::rounding_stays_below((50 * u) * u, 100 * u, half);
    double::rounding_stays_above((50 * u) * u, 100 * u, half);
    double::rounding_stays_below((75 * u) * u, 100 * u, three);
    double::rounding_stays_above((75 * u) * u, 100 * u, three);
    if speeds.len() == 2 * k + 1 {
        let n = 2 * k;
        double::short_numbers_stay(n, 1074);
        double::short_numbers_stay(k, 1074);
        assert(half * (n * u) == (k * u) * u && 0 <= (k * u) * u && 0 <= k * u) by (nonlinear_arith)
            requires
                u == 4 * quarter,
                half == 2 * quarter,
                n == 2 * k,
                0 <= k,
                0 < u,
        ;
        double::rounding_stays_below(half * (n * u), u, k * u);
        double::rounding_stays_above(half * (n * u), u, k * u);
        assert(rank(50, n + 1) == k * u);
        vstd::arithmetic::div_mod::lemma_fundamental_div_mod_converse(k * u, u, k, 0);
    }
    if speeds.len() == 4 * k + 1 {
        let n = 4 * k;
        let m = 3 * k;
        double::short_numbers_stay(n, 1074);
        double::short_numbers_stay(m, 1074);
        assert(three * (n * u) == (m * u) * u && 0 <= (m * u) * u && 0 <= m * u) by (nonlinear_arith)
            requires
                u == 4 * quarter,
                three == 3 * quarter,
                n == 4 * k,
                m == 3 * k,
                0 <= k,
                0 < u,
        ;
        double::rounding_stays_below(three * (n * u), u, m * u);
        double::rounding_stays_above(three * (n * u), u, m * u);
        assert(rank(75, n + 1) == m * u);
        vstd::arithmetic::div_mod::lemma_fundamental_div_mod_converse(m * u, u, m, 0);
    }
}

/// The speed is the number of bytes by the time that they took: exactly so, wherever the
/// time is a number of 512ths of a second and the speed a whole number.
pub proof fn a_rate_is_bytes_by_time(bytes: int, parts: int, bps: int)
    requires
        0 <= bytes <= double::LIMIT,
        0 < parts <= double::LIMIT,
        0 <= bps <= double::LIMIT,
        bps * parts == bytes * 512,
    ensures
        rate(bytes, 1953125 * parts) == bps,
{
    let u = double::unit();
    let w = vstd::arithmetic::power2::pow2(1065) as int;
    lemma_unit();
    vstd::arithmetic::power2::lemma2_to64();
    vstd::arithmetic::power2::lemma_pow2_adds(9, 1065);
    vstd::arithmetic::power2::lemma_pow2_pos(1065);
    assert(u == 512 * w);
    let q = parts / 512;
    let c = parts % 512;
    let r = 1953125 * c;
    let nanos = 1953125 * parts;
    vstd::arithmetic::div_mod::lemma_fundamental_div_mod(parts, 512);
    vstd::arithmetic::div_mod::lemma_fundamental_div_mod_converse(nanos, 1000000000, q, r);
    double::short_numbers_stay(q, 1074);
    double::short_numbers_stay(r, 1074);
    double::short_numbers_stay(1000000000, 1074);
    double::short_numbers_stay(c, 1065);
    double::short_numbers_stay(parts, 1065);
    assert((r * u) * u == (c * w) * (1000000000 * u) && 0 <= c * w && 0 < 1000000000 * u)
        by (nonlinear_arith)
        requires
            r == 1953125 * c,
            u == 512 * w,
            0 <= c,
            0 < w,
    ;
    double::exact_quotients_stay((r * u) * u, 1000000000 * u, c * w);
    assert(q * u + c * w == parts * w && 0 < parts * w) by (nonlinear_arith)
        requires
            parts == 512 * q + c,
            u == 512 * w,
            0 < parts,
            0 < w,
    ;
    assert(seconds(nanos) == parts * w);
    double::short_numbers_stay(bytes, 1074);
    double::short_numbers_stay(bps, 1074);
    assert((bps * u) * (parts * w) == (bps * parts) * (u * w)) by (nonlinear_arith);
    assert((bytes * 512) * (u * w) == (bytes * u) * u) by (nonlinear_arith)
        requires
            u == 512 * w,
    ;
    assert(0 <= bps * u) by (nonlinear_arith)
        requires
            0 <= bps,
            0 < u,
    ;
    double::exact_quotients_stay((bytes * u) * u, parts * w, bps * u);
    vstd::arithmetic::div_mod::lemma_div_multiples_vanish(bps, u);
}

proof fn lemma_seconds_in_order(sooner: int, later: int)
    requires
        0 < sooner <= later <= double::LIMIT * 1000000000,
    ensures
        0 < seconds(sooner) <= seconds(later),
{
    let u = double::unit();
    let d = 1000000000 * u;
    let (qs, rs) = (sooner / 1000000000, sooner % 1000000000);
    let (ql, rl) = (later / 1000000000, later % 1000000000);
    lemma_unit();
    lemma_seconds_pass(sooner);
    vstd::arithmetic::power2::lemma2_to64();
    double::short_numbers_stay(qs, 1074);
    double::short_numbers_stay(ql, 1074);
    double::short_numbers_stay(rs, 1074);
    double::short_numbers_stay(rl, 1074);
    double::short_numbers_stay(1000000000, 1074);
    double::short_numbers_stay(1, 1074);
    let xs = double::over(double::of(rs), double::of(1000000000));
    let xl = double::over(double::of(rl), double::of(1000000000));
    assert(0 <= (rs * u) * u <= u * d && 0 <= (rl * u) * u && 0 < d && (rs <= rl ==> (rs * u) * u
        <= (rl * u) * u)) by (nonlinear_arith)
        requires
            0 <= rs < 1000000000,
            0 <= rl,
            d == 1000000000 * u,
            0 < u,
    ;
    double::rounding_is_final((rs * u) * u, d);
    double::rounding_is_final((rl * u) * u, d);
    assert(0 <= qs * u && (qs < ql ==> qs * u + u <= ql * u)) by (nonlinear_arith)
        requires
            0 <= qs,
            0 < u,
    ;
    if qs == ql {
        double::rounding_keeps_order((rs * u) * u, (rl * u) * u, d);
    } else {
        double::rounding_stays_below((rs * u) * u, d, u);
    }
    double::rounding_keeps_order(qs * u + xs, ql * u + xl, 1);
}

/// The same bytes in more time never make more speed.
pub proof fn more_time_makes_less_speed(bytes: int, sooner: int, later: int)
    requires
        0 <= bytes,
        0 < sooner <= later <= double::LIMIT * 1000000000,
    ensures
        rate(bytes, later) <= rate(bytes, sooner),
{
    let u = double::unit();
    lemma_unit();
    lemma_seconds_in_order(sooner, later);
    assert(0 <= bytes * u) by (nonlinear_arith)
        requires
            0 <= bytes,
            0 < u,
    ;
    double::rounding_is_final(bytes * u, 1);
    let b = double::of(bytes);
    assert(0 <= b * u) by (nonlinear_arith)
        requires
            0 <= b,
            0 < u,
    ;
    double::larger_divisors_give_less(b * u, seconds(sooner), seconds(later));
    vstd::arithmetic::div_mod::lemma_div_is_ordered(
        double::over(b, seconds(later)),
        double::over(b, seconds(sooner)),
        u,
    );
}

proof fn lemma_quarter_way(low: u64, high: u64, c: int)
    requires
        low <= high <= 0x8_0000_0000_0000,
        0 <= c < 4,
    ensures
        between(low, high, c * vstd::arithmetic::power2::pow2(1072)) == ((4 - c) * low + c * high)
            / 4,
{
    let u = double::unit();
    let w = vstd::arithmetic::power2::pow2(1072) as int;
    lemma_unit();
    vstd::arithmetic::power2::lemma2_to64();
    vstd::arithmetic::power2::lemma_pow2_adds(2, 1072);
    vstd::arithmetic::power2::lemma_pow2_pos(1072);
    assert(u == 4 * w);
    let gap = high - low;
    double::short_numbers_stay(low as int, 1074);
    double::short_numbers_stay(high as int, 1074);
    double::short_numbers_stay(gap, 1074);
    assert(high * u - low * u == gap * u) by (nonlinear_arith)
        requires
            gap == high - low,
    ;
    let step = c * gap;
    assert(0 <= step <= 3 * gap) by (nonlinear_arith)
        requires
            0 <= c < 4,
            0 <= gap,
            step == c * gap,
    ;
    double::short_numbers_stay(step, 1072);
    assert((c * w) * (gap * u) == (step * w) * u && 0 <= step * w) by (nonlinear_arith)
        requires
            step == c * gap,
            0 <= step,
            0 < w,
    ;
    double::exact_quotients_stay((c * w) * (gap * u), u, step * w);
    let t = 4 * low + step;
    assert(low * u + step * w == t * w) by (nonlinear_arith)
        requires
            u == 4 * w,
            t == 4 * low + step,
    ;
    double::short_numbers_stay(t, 1072);
    vstd::arithmetic::div_mod::lemma_fundamental_div_mod(t, 4);
    let (q, r) = (t / 4, t % 4);
    assert(t * w == q * u + r * w && 0 <= r * w < u) by (nonlinear_arith)
        requires
            t == 4 * q + r,
            u == 4 * w,
            0 <= r < 4,
            0 < w,
    ;
    vstd::arithmetic::div_mod::lemma_fundamental_div_mod_converse(t * w, u, q, r * w);
    assert((4 - c) * low + c * high == t) by (nonlinear_arith)
        requires
            t == 4 * low + step,
            step == c * gap,
            gap == high - low,
    ;
}

proof fn lemma_quarter_rank(k: int, len: int)
    requires
        k == 2 || k == 3,
        2 <= len <= 0x8_0000_0000_0000,
    ensures
        rank(25 * k, len) == (k * (len - 1)) * vstd::arithmetic::power2::pow2(1072),
{
    let u = double::unit();
    let w = vstd::arithmetic::power2::pow2(1072) as int;
    let n = len - 1;
    let p = 25 * k;
    lemma_unit();
    vstd::arithmetic::power2::lemma2_to64();
    vstd::arithmetic::power2::lemma_pow2_adds(2, 1072);
    vstd::arithmetic::power2::lemma_pow2_pos(1072);
    assert(u == 4 * w);
    double::short_numbers_stay(p, 1074);
    double::short_numbers_stay(100, 1074);
    double::short_numbers_stay(n, 1074);
    double::short_numbers_stay(k, 1072);
    let m = k * n;
    assert(0 <= m <= 3 * n) by (nonlinear_arith)
        requires
            2 <= k <= 3,
            0 <= n,
            m == k * n,
    ;
    double::short_numbers_stay(m, 1072);
    assert((p * u) * u == (k * w) * (100 * u) && 0 <= k * w && 0 < 100 * u && (k * w) * (n * u)
        == (m * w) * u && 0 <= m * w) by (nonlinear_arith)
        requires
            p == 25 * k,
            u == 4 * w,
            m == k * n,
            0 <= m,
            0 <= k,
            0 < w,
    ;
    double::exact_quotients_stay((p * u) * u, 100 * u, k * w);
    double::exact_quotients_stay((k * w) * (n * u), u, m * w);
}

/// The median (two quarters) and the 75th percentile (three quarters) lie that part of the
/// way through the speeds in ascending order; between two speeds, that part of the way
/// from the one to the other, without its fraction.
pub proof fn percentiles_lie_between_ranks(speeds: Seq<u64>, quarters: int)
    requires
        quarters == 2 || quarters == 3,
        2 <= speeds.len() <= 0x8_0000_0000_0000,
        forall|i: int| 0 <= i < speeds.len() ==> #[trigger] speeds[i] <= 0x8_0000_0000_0000,
    ensures
        ({
            let at = quarters * (speeds.len() - 1);
            let low = ascending(speeds)[at / 4];
            let high = ascending(speeds)[at / 4 + 1];
            let c = at % 4;
            &&& c == 0 ==> percentile_of(speeds, 25 * quarters) == low
            &&& c > 0 ==> low <= high && percentile_of(speeds, 25 * quarters) == ((4 - c) * low + c
                * high) / 4
        }),
{
    let u = double::unit();
    let w = vstd::arithmetic::power2::pow2(1072) as int;
    let len = speeds.len() as int;
    let at = quarters * (len - 1);
    let sorted = ascending(speeds);
    lemma_unit();
    vstd::arithmetic::power2::lemma2_to64();
    vstd::arithmetic::power2::lemma_pow2_adds(2, 1072);
    vstd::arithmetic::power2::lemma_pow2_pos(1072);
    lemma_quarter_rank(quarters, len);
    assert(0 <= at <= 3 * (len - 1)) by (nonlinear_arith)
        requires
            2 <= quarters <= 3,
            2 <= len,
            at == quarters * (len - 1),
    ;
    vstd::arithmetic::div_mod::lemma_fundamental_div_mod(at, 4);
    let (q, c) = (at / 4, at % 4);
    assert(at * w == q * u + c * w && 0 <= c * w < u && (c > 0 ==> 0 < c * w)) by (nonlinear_arith)
        requires
            at == 4 * q + c,
            u == 4 * w,
            0 <= c < 4,
            0 < w,
    ;
    vstd::arithmetic::div_mod::lemma_fundamental_div_mod_converse(at * w, u, q, c * w);
    if c > 0 {
        let leq = |x: u64, y: u64| x <= y;
        lemma_leq_total();
        speeds.lemma_sort_by_ensures(leq);
        vstd::seq_lib::to_multiset_len(speeds);
        vstd::seq_lib::to_multiset_len(sorted);
        assert(q + 1 < len);
        assert(leq(sorted[q], sorted[q + 1]));
        vstd::seq_lib::to_multiset_contains(sorted, sorted[q + 1]);
        vstd::seq_lib::to_multiset_contains(speeds, sorted[q + 1]);
        lemma_quarter_way(sorted[q], sorted[q + 1], c);
    } else {
        assert(0 * w == 0);
    }
}

/// Of no speeds a percentile is 0, and of one speed it is that speed.
pub proof fn percentiles_of_few_speeds(speed: u64, p: int)
    ensures
        percentile_of(Seq::empty(), p) == 0,
        percentile_of(seq![speed], p) == speed,
{
}

/// Samples that are too old are dropped from the front, up to the first that is not; no
/// other is.
pub proof fn only_old_samples_are_dropped(samples: Seq<Sample>, now: u128)
    ensures
        ({
            let n = samples.len() - drop_stale(samples, now).len();
            &&& 0 <= n <= samples.len()
            &&& drop_stale(samples, now) == samples.skip(n)
            &&& forall|i: int|
                0 <= i < n ==> now - (#[trigger] samples[i]).at > SAMPLE_WINDOW
            &&& n < samples.len() ==> now - samples[n].at <= SAMPLE_WINDOW
        }),
    decreases samples.len(),
{
    if samples.len() > 0 && stale(samples[0], now) {
        let rest = samples.drop_first();
        only_old_samples_are_dropped(rest, now);
        let k = rest.len() - drop_stale(rest, now).len();
        assert(rest.skip(k) =~= samples.skip(k + 1));
        assert forall|i: int| 0 <= i < k + 1 implies now - (#[trigger] samples[i]).at
            > SAMPLE_WINDOW by {
            if i > 0 {
                assert(rest[i - 1] == samples[i]);
            }
        }
    } else {
        assert(samples.skip(0) =~= samples);
    }
}

} // verus!
