//! The mirrors of a download: selection, backoff and banning.

use crate::engine::clock::Clock;
use crate::engine::double;
use crate::engine::double::Double;
use crate::engine::select;
use crate::engine::speed;
use crate::text;
use vstd::prelude::*;

verus! {

/// Failures before a mirror is banned.
pub const MAX_FAILURES: u32 = 5;

/// Longest backoff, in seconds.
pub const MAX_BACKOFF_SECS: u64 = 60;

/// Backoff after a first failure, in milliseconds, unless another is given.
pub const DEFAULT_RETRY_DELAY_MS: u64 = 1000;

/// What one open connection takes off a mirror's weight.
pub const CONNECTION_PENALTY: u64 = 100000;

/// Classification of HTTP errors for retry logic.
#[derive(Debug, Clone, Copy, PartialEq, Eq, Structural)]
pub enum ErrorClass {
    /// Fatal errors that should not be retried (403, 404, 410, etc.)
    Fatal,
    /// Retriable errors with backoff (429, 5xx network errors)
    RetriableWithBackoff,
    /// Retriable errors immediately (503)
    RetriableImmediate,
}

/// The statuses that say a retry cannot help.
pub open spec fn fatal_status(status: u16) -> bool {
    status == 400 || status == 401 || status == 403 || status == 404 || status == 405 || status
        == 410 || status == 451
}

/// The class of an HTTP status.
pub open spec fn class_of(status: u16) -> ErrorClass {
    if fatal_status(status) {
        ErrorClass::Fatal
    } else if status == 503 {
        ErrorClass::RetriableImmediate
    } else {
        ErrorClass::RetriableWithBackoff
    }
}

impl ErrorClass {
    /// Classify an HTTP status code.
    pub fn from_status(status: u16) -> (class: Self)
        ensures
            class == class_of(status),
    {
        match status {
            // Client errors that indicate permanent failure
            400 | 401 | 403 | 404 | 405 | 410 | 451 => ErrorClass::Fatal,
            // Service unavailable, often transient
            503 => ErrorClass::RetriableImmediate,
            // Rate limiting, other server errors and anything else: backoff
            _ => ErrorClass::RetriableWithBackoff,
        }
    }

    /// Classify a connection/network error (no HTTP status).
    pub fn from_connection_error() -> (class: Self)
        ensures
            class == ErrorClass::RetriableWithBackoff,
    {
        ErrorClass::RetriableWithBackoff
    }
}

/// Health state of a mirror with exponential backoff.
#[derive(Debug)]
pub struct MirrorState {
    pub url: String,
    pub failures: u32,
    pub avg_speed_bps: u64,
    pub active_connections: usize,
    pub banned: bool,
    /// Last failure, in nanoseconds on the pool's clock, for backoff calculation
    pub last_failure: Option<u128>,
    /// Current backoff duration in seconds (doubles each failure: 1, 2, 4, 8... by
    /// default)
    pub backoff_secs: u64,
    /// Last error class (determines retry strategy)
    pub last_error_class: Option<ErrorClass>,
}

impl Clone for MirrorState {
    fn clone(&self) -> (copy: Self)
        ensures
            copy == *self,
    {
        MirrorState {
            url: self.url.clone(),
            failures: self.failures,
            avg_speed_bps: self.avg_speed_bps,
            active_connections: self.active_connections,
            banned: self.banned,
            last_failure: self.last_failure,
            backoff_secs: self.backoff_secs,
            last_error_class: self.last_error_class,
        }
    }
}

/// A mirror that was not used yet.
pub open spec fn fresh_mirror(url: String) -> MirrorState {
    MirrorState {
        url,
        failures: 0,
        avg_speed_bps: 0,
        active_connections: 0,
        banned: false,
        last_failure: None,
        backoff_secs: 0,
        last_error_class: None,
    }
}

/// Whole seconds from `earlier` to `later`.
pub open spec fn secs_between(earlier: u128, later: u128) -> int {
    speed::span(earlier, later) / 1000000000
}

fn elapsed_secs(earlier: u128, later: u128) -> (secs: u128)
    ensures
        secs == secs_between(earlier, later),
{
    later.saturating_sub(earlier) / 1000000000
}

impl MirrorState {
    /// The last failure's backoff is not over yet.
    pub open spec fn cooling(self, now: u128) -> bool {
        self.last_failure matches Some(at) && secs_between(at, now) < self.backoff_secs
    }

    /// Not banned and not in backoff.
    pub open spec fn available(self, now: u128) -> bool {
        !self.banned && !self.cooling(now)
    }

    pub fn new(url: String) -> (mirror: Self)
        ensures
            mirror == fresh_mirror(url),
    {
        MirrorState {
            url,
            failures: 0,
            avg_speed_bps: 0,
            active_connections: 0,
            banned: false,
            last_failure: None,
            backoff_secs: 0,
            last_error_class: None,
        }
    }

    /// Check if this mirror is available for a new connection at `now`.
    /// Respects backoff timing for failed mirrors.
    pub fn is_available(&self, now: u128) -> (r: bool)
        ensures
            r == self.available(now),
    {
        if self.banned {
            return false;
        }
        match self.last_failure {
            Some(at) => elapsed_secs(at, now) >= self.backoff_secs as u128,
            None => true,
        }
    }

    /// Time until this mirror exits backoff (0 if it is over at `now`).
    pub fn cooldown_remaining_secs(&self, now: u128) -> (secs: u64)
        ensures
            secs == (if self.cooling(now) {
                self.backoff_secs - secs_between(self.last_failure->0, now)
            } else {
                0
            }),
            self.available(now) <==> !self.banned && secs == 0,
    {
        match self.last_failure {
            Some(at) => {
                let elapsed: u128 = elapsed_secs(at, now);
                if elapsed < self.backoff_secs as u128 {
                    self.backoff_secs - elapsed as u64
                } else {
                    0
                }
            },
            None => 0,
        }
    }
}

/// What the pool holds.
pub struct PoolView {
    pub mirrors: Seq<MirrorState>,
    pub max_per_mirror: usize,
    pub max_failures: u32,
    /// The backoff after a first failure, in milliseconds
    pub retry_delay_ms: u64,
}

/// The mirror may take another connection.
pub open spec fn eligible(m: MirrorState, now: u128, max_per_mirror: usize) -> bool {
    m.available(now) && m.active_connections < max_per_mirror
}

/// The key by which a mirror is picked: the average speed first, and among
/// equal speeds the fewest connections.
pub open spec fn pick_key(m: MirrorState, now: u128, max_per_mirror: usize) -> Option<int> {
    if eligible(m, now, max_per_mirror) {
        Some(m.avg_speed_bps * 18446744073709551616 - m.active_connections)
    } else {
        None
    }
}

/// Speed biased, connection-penalised weight.
pub open spec fn weight(m: MirrorState) -> int {
    if m.avg_speed_bps > m.active_connections * CONNECTION_PENALTY {
        m.avg_speed_bps - m.active_connections * CONNECTION_PENALTY
    } else {
        0
    }
}

/// The key by which an alternative to `current` is picked.
pub open spec fn alternative_key(
    m: MirrorState,
    current: Seq<char>,
    now: u128,
    max_per_mirror: usize,
) -> Option<int> {
    if m.url@ != current && eligible(m, now, max_per_mirror) {
        Some(weight(m))
    } else {
        None
    }
}

/// The mirror that is picked at `now`.
pub open spec fn pick_target(p: PoolView, now: u128) -> Option<int> {
    select::last_max(p.mirrors.map_values(|m: MirrorState| pick_key(m, now, p.max_per_mirror)))
}

/// The mirror that is picked in place of `current` at `now`.
pub open spec fn alternative_target(p: PoolView, current: Seq<char>, now: u128) -> Option<int> {
    select::last_max(
        p.mirrors.map_values(
            |m: MirrorState| alternative_key(m, current, now, p.max_per_mirror),
        ),
    )
}

/// The first mirror with this URL.
pub open spec fn mirror_at(mirrors: Seq<MirrorState>, url: Seq<char>) -> Option<int>
    decreases mirrors.len(),
{
    if mirrors.len() == 0 {
        None
    } else {
        match mirror_at(mirrors.drop_last(), url) {
            Some(i) => Some(i),
            None => if mirrors.last().url@ == url {
                Some(mirrors.len() - 1)
            } else {
                None
            },
        }
    }
}

/// The mirror with one more connection.
pub open spec fn connected(m: MirrorState) -> MirrorState {
    MirrorState { active_connections: (m.active_connections + 1) as usize, ..m }
}

/// The mirror with one connection fewer.
pub open spec fn released(m: MirrorState) -> MirrorState {
    MirrorState {
        active_connections: if m.active_connections == 0 {
            0
        } else {
            (m.active_connections - 1) as usize
        },
        ..m
    }
}

/// So many tenths, in double precision.
pub open spec fn tenths(n: int) -> int {
    double::over(double::of(n), double::of(10))
}

/// Exponentially weighted moving average (weight 0.3 on the new value), computed in
/// double precision and without its fraction; the first speed is taken as it is.
pub open spec fn average(avg: u64, speed_bps: u64) -> u64 {
    if avg == 0 {
        speed_bps
    } else {
        double::whole(
            double::plus(
                double::times(double::of(avg as int), tenths(7)),
                double::times(double::of(speed_bps as int), tenths(3)),
            ),
        ) as u64
    }
}

/// The moving average of a mirror's speed.
fn moving_average(avg: u64, speed_bps: u64) -> (value: u64)
    ensures
        value == average(avg, speed_bps),
{
    if avg == 0 {
        return speed_bps;
    }
    proof {
        double::short_numbers_stay(10, 1074);
        vstd::arithmetic::power2::lemma_pow2_pos(1074);
    }
    let ten = Double::from_whole(10);
    let before = Double::from_whole(avg as u128).times(Double::from_whole(7).over(ten));
    let latest = Double::from_whole(speed_bps as u128).times(Double::from_whole(3).over(ten));
    before.plus(latest).whole()
}

/// The mirror after a connection completed with this speed.
pub open spec fn succeeded(m: MirrorState, speed_bps: u64) -> MirrorState {
    MirrorState {
        failures: 0,
        backoff_secs: 0,
        last_failure: None,
        last_error_class: None,
        avg_speed_bps: average(m.avg_speed_bps, speed_bps),
        ..released(m)
    }
}

/// The backoff after the `failures`-th failure in a row, in seconds: the delay
/// doubles with each failure (1, 2, 4, 8... seconds for a delay of one second), is
/// rounded up to whole seconds, and is at most `MAX_BACKOFF_SECS`.
pub open spec fn backoff_after(failures: int, retry_delay_ms: u64) -> int {
    let ms = retry_delay_ms * vstd::arithmetic::power2::pow2((failures - 1) as nat);
    let secs = (ms + 999) / 1000;
    if secs <= MAX_BACKOFF_SECS {
        secs
    } else {
        MAX_BACKOFF_SECS as int
    }
}

/// The mirror after a failure of the given class at `now`.
pub open spec fn failed(
    m: MirrorState,
    class: ErrorClass,
    now: u128,
    max_failures: u32,
    retry_delay_ms: u64,
) -> MirrorState {
    let failures = speed::one_more(m.failures);
    MirrorState {
        failures,
        last_failure: Some(now),
        last_error_class: Some(class),
        backoff_secs: match class {
            ErrorClass::Fatal => m.backoff_secs,
            ErrorClass::RetriableWithBackoff => backoff_after(
                failures as int,
                retry_delay_ms,
            ) as u64,
            ErrorClass::RetriableImmediate => 0,
        },
        banned: m.banned || class == ErrorClass::Fatal || failures >= max_failures,
        ..released(m)
    }
}

/// The pool after a success on `url`.
pub open spec fn after_success(p: PoolView, url: Seq<char>, speed_bps: u64) -> PoolView {
    match mirror_at(p.mirrors, url) {
        Some(i) => PoolView {
            mirrors: p.mirrors.update(i, succeeded(p.mirrors[i], speed_bps)),
            ..p
        },
        None => p,
    }
}

/// The pool after a failure on `url`.
pub open spec fn after_failure(
    p: PoolView,
    url: Seq<char>,
    class: ErrorClass,
    now: u128,
) -> PoolView {
    match mirror_at(p.mirrors, url) {
        Some(i) => PoolView {
            mirrors: p.mirrors.update(
                i,
                failed(p.mirrors[i], class, now, p.max_failures, p.retry_delay_ms),
            ),
            ..p
        },
        None => p,
    }
}

/// The pool after a connection to `url` was given back.
pub open spec fn after_release(p: PoolView, url: Seq<char>) -> PoolView {
    match mirror_at(p.mirrors, url) {
        Some(i) => PoolView { mirrors: p.mirrors.update(i, released(p.mirrors[i])), ..p },
        None => p,
    }
}

/// The connections over all mirrors.
pub open spec fn sum_connections(mirrors: Seq<MirrorState>) -> int
    decreases mirrors.len(),
{
    if mirrors.len() == 0 {
        0
    } else {
        sum_connections(mirrors.drop_last()) + mirrors.last().active_connections
    }
}

/// Manages the set of mirrors for a single download task.
///
/// Features:
/// - Selection that prefers faster mirrors
/// - Exponential backoff per mirror on failure
/// - Error classification (fatal vs retriable)
/// - Automatic banning after threshold
#[derive(Debug)]
pub struct MirrorPool {
    mirrors: Vec<MirrorState>,
    /// Max connections per mirror
    max_per_mirror: usize,
    /// Max failures before banning
    max_failures: u32,
    /// Backoff after a first failure
    retry_delay_ms: u64,
    clock: Clock,
}

impl View for MirrorPool {
    type V = PoolView;

    closed spec fn view(&self) -> PoolView {
        PoolView {
            mirrors: self.mirrors@,
            max_per_mirror: self.max_per_mirror,
            max_failures: self.max_failures,
            retry_delay_ms: self.retry_delay_ms,
        }
    }
}

/// A pool of mirrors that were not used yet.
pub open spec fn fresh_pool(
    urls: Seq<String>,
    max_per_mirror: usize,
    retry_delay_ms: u64,
) -> PoolView {
    PoolView {
        mirrors: urls.map_values(|url: String| fresh_mirror(url)),
        max_per_mirror,
        max_failures: MAX_FAILURES,
        retry_delay_ms,
    }
}

/// What a pick at `now` leaves and returns.
pub open spec fn picked(
    before: PoolView,
    target: Option<int>,
    after: PoolView,
    url: Option<String>,
) -> bool {
    match target {
        Some(i) => {
            &&& 0 <= i < before.mirrors.len()
            &&& after == (PoolView {
                mirrors: before.mirrors.update(i, connected(before.mirrors[i])),
                ..before
            })
            &&& url is Some
            &&& url->0@ == before.mirrors[i].url@
        },
        None => url is None && after == before,
    }
}

impl MirrorPool {
    pub fn new(urls: Vec<String>, max_per_mirror: usize) -> (pool: Self)
        ensures
            pool@ == fresh_pool(urls@, max_per_mirror, DEFAULT_RETRY_DELAY_MS),
    {
        MirrorPool::with_retry_delay(urls, max_per_mirror, DEFAULT_RETRY_DELAY_MS)
    }

    /// A pool whose backoff starts at the given delay, in milliseconds.
    pub fn with_retry_delay(
        urls: Vec<String>,
        max_per_mirror: usize,
        retry_delay_ms: u64,
    ) -> (pool: Self)
        ensures
            pool@ == fresh_pool(urls@, max_per_mirror, retry_delay_ms),
    {
        let mut mirrors: Vec<MirrorState> = Vec::new();
        let mut i: usize = 0;
        while i < urls.len()
            invariant
                i <= urls@.len(),
                mirrors@.len() == i,
                forall|k: int| 0 <= k < i ==> #[trigger] mirrors@[k] == fresh_mirror(urls@[k]),
            decreases urls@.len() - i,
        {
            mirrors.push(MirrorState::new(urls[i].clone()));
            i += 1;
        }
        assert(mirrors@ =~= fresh_pool(urls@, max_per_mirror, retry_delay_ms).mirrors);
        MirrorPool {
            mirrors,
            max_per_mirror,
            max_failures: MAX_FAILURES,
            retry_delay_ms,
            clock: Clock::start(),
        }
    }

    /// Select the best available mirror URL for a new connection.
    ///
    /// Selection order:
    /// 1. Not banned, not in backoff, not at connection limit
    /// 2. Highest average speed
    /// 3. Fewest active connections (tie-break)
    pub fn pick(&mut self) -> (url: Option<String>)
        ensures
            exists|now: u128|
                picked(old(self)@, #[trigger] pick_target(old(self)@, now), final(self)@, url),
    {
        let now: u128 = self.clock.now();
        self.pick_at(now)
    }

    /// `pick` at `now`, in nanoseconds on the pool's clock.
    pub fn pick_at(&mut self, now: u128) -> (url: Option<String>)
        ensures
            picked(old(self)@, pick_target(old(self)@, now), final(self)@, url),
            pick_target(old(self)@, now) matches Some(i) ==> eligible(
                old(self)@.mirrors[i],
                now,
                old(self)@.max_per_mirror,
            ),
    {
        let ghost keys = self@.mirrors.map_values(
            |m: MirrorState| pick_key(m, now, self@.max_per_mirror),
        );
        let mut best: Option<usize> = None;
        let mut best_speed: u64 = 0;
        let mut best_active: usize = 0;
        let mut i: usize = 0;
        while i < self.mirrors.len()
            invariant
                *self == *old(self),
                i <= self.mirrors@.len(),
                keys == self@.mirrors.map_values(
                    |m: MirrorState| pick_key(m, now, self@.max_per_mirror),
                ),
                match best {
                    Some(b) => {
                        &&& select::last_max(keys.take(i as int)) == Some(b as int)
                        &&& b < i
                        &&& eligible(self.mirrors@[b as int], now, self.max_per_mirror)
                        &&& best_speed == self.mirrors@[b as int].avg_speed_bps
                        &&& best_active == self.mirrors@[b as int].active_connections
                    },
                    None => select::last_max(keys.take(i as int)) is None,
                },
            decreases self.mirrors@.len() - i,
        {
            proof {
                assert(keys.take(i + 1).drop_last() =~= keys.take(i as int));
                assert(keys.take(i + 1).last() == pick_key(
                    self.mirrors@[i as int],
                    now,
                    self.max_per_mirror,
                ));
            }
            let m = &self.mirrors[i];
            if m.is_available(now) && m.active_connections < self.max_per_mirror {
                if best.is_none() || m.avg_speed_bps > best_speed || (m.avg_speed_bps == best_speed
                    && m.active_connections <= best_active) {
                    best = Some(i);
                    best_speed = m.avg_speed_bps;
                    best_active = m.active_connections;
                }
            }
            i += 1;
        }
        assert(keys.take(i as int) =~= keys);
        self.connect(best)
    }

    /// Open a connection to the mirror at `target`.
    fn connect(&mut self, target: Option<usize>) -> (url: Option<String>)
        requires
            target matches Some(i) ==> i < old(self)@.mirrors.len()
                && old(self)@.mirrors[i as int].active_connections < usize::MAX,
        ensures
            picked(
                old(self)@,
                match target {
                    Some(i) => Some(i as int),
                    None => None,
                },
                final(self)@,
                url,
            ),
    {
        match target {
            Some(i) => {
                let m = &mut self.mirrors[i];
                m.active_connections = m.active_connections + 1;
                Some(self.mirrors[i].url.clone())
            },
            None => None,
        }
    }

    /// Pick an alternative mirror (for mirror switching before connection restart).
    /// Returns a different mirror than the current one if available.
    pub fn pick_alternative(&mut self, current: &str) -> (url: Option<String>)
        requires
            old(self).weights_fit(),
        ensures
            exists|now: u128|
                picked(
                    old(self)@,
                    #[trigger] alternative_target(old(self)@, current@, now),
                    final(self)@,
                    url,
                ),
            url matches Some(u) ==> u@ != current@,
    {
        let now: u128 = self.clock.now();
        self.pick_alternative_at(current, now)
    }

    /// The penalty of every mirror below the connection limit is a `u64`.
    pub open spec fn weights_fit(self) -> bool {
        forall|i: int|
            0 <= i < self@.mirrors.len() && (#[trigger] self@.mirrors[i]).active_connections
                < self@.max_per_mirror ==> self@.mirrors[i].active_connections * CONNECTION_PENALTY
                <= u64::MAX
    }

    /// `pick_alternative` at `now`, in nanoseconds on the pool's clock.
    pub fn pick_alternative_at(&mut self, current: &str, now: u128) -> (url: Option<String>)
        requires
            old(self).weights_fit(),
        ensures
            picked(
                old(self)@,
                alternative_target(old(self)@, current@, now),
                final(self)@,
                url,
            ),
            alternative_target(old(self)@, current@, now) matches Some(i) ==> eligible(
                old(self)@.mirrors[i],
                now,
                old(self)@.max_per_mirror,
            ),
            url matches Some(u) ==> u@ != current@,
    {
        let ghost keys = self@.mirrors.map_values(
            |m: MirrorState| alternative_key(m, current@, now, self@.max_per_mirror),
        );
        let mut best: Option<usize> = None;
        let mut best_weight: u64 = 0;
        let mut i: usize = 0;
        while i < self.mirrors.len()
            invariant
                *self == *old(self),
                self.weights_fit(),
                i <= self.mirrors@.len(),
                keys == self@.mirrors.map_values(
                    |m: MirrorState| alternative_key(m, current@, now, self@.max_per_mirror),
                ),
                match best {
                    Some(b) => {
                        &&& select::last_max(keys.take(i as int)) == Some(b as int)
                        &&& b < i
                        &&& eligible(self.mirrors@[b as int], now, self.max_per_mirror)
                        &&& self.mirrors@[b as int].url@ != current@
                        &&& best_weight == weight(self.mirrors@[b as int])
                    },
                    None => select::last_max(keys.take(i as int)) is None,
                },
            decreases self.mirrors@.len() - i,
        {
            proof {
                assert(keys.take(i + 1).drop_last() =~= keys.take(i as int));
                assert(keys.take(i + 1).last() == alternative_key(
                    self.mirrors@[i as int],
                    current@,
                    now,
                    self.max_per_mirror,
                ));
                assert(self@.mirrors[i as int] == self.mirrors@[i as int]);
            }
            let m = &self.mirrors[i];
            if !text::same(m.url.as_str(), current) && m.is_available(now) && m.active_connections
                < self.max_per_mirror {
                let w: u64 = m.avg_speed_bps.saturating_sub(
                    m.active_connections as u64 * CONNECTION_PENALTY,
                );
                if best.is_none() || w >= best_weight {
                    best = Some(i);
                    best_weight = w;
                }
            }
            i += 1;
        }
        assert(keys.take(i as int) =~= keys);
        self.connect(best)
    }

    fn find(&self, url: &str) -> (r: Option<usize>)
        ensures
            match r {
                Some(i) => mirror_at(self@.mirrors, url@) == Some(i as int) && i
                    < self@.mirrors.len(),
                None => mirror_at(self@.mirrors, url@) is None,
            },
    {
        let mut i: usize = 0;
        proof {
            mirror_at_is_first(self.mirrors@, url@);
        }
        while i < self.mirrors.len()
            invariant
                i <= self.mirrors@.len(),
                forall|k: int| 0 <= k < i ==> (#[trigger] self.mirrors@[k]).url@ != url@,
            decreases self.mirrors@.len() - i,
        {
            proof {
                mirror_at_is_first(self.mirrors@, url@);
            }
            if text::same(self.mirrors[i].url.as_str(), url) {
                return Some(i);
            }
            i += 1;
        }
        None
    }

    /// Report that a connection to `url` completed successfully with this speed.
    pub fn report_success(&mut self, url: &str, speed_bps: u64)
        ensures
            final(self)@ == after_success(old(self)@, url@, speed_bps),
    {
        match self.find(url) {
            Some(i) => {
                let m = &mut self.mirrors[i];
                m.active_connections = m.active_connections.saturating_sub(1);
                // Reset failure state on success
                m.failures = 0;
                m.backoff_secs = 0;
                m.last_failure = None;
                m.last_error_class = None;
                m.avg_speed_bps = moving_average(m.avg_speed_bps, speed_bps);
            },
            None => {},
        }
    }

    /// Report a connection failure with no status to classify it by.
    /// Applies exponential backoff and bans after threshold.
    pub fn report_failure(&mut self, url: &str)
        ensures
            exists|now: u128|
                final(self)@ == #[trigger] after_failure(
                    old(self)@,
                    url@,
                    ErrorClass::RetriableWithBackoff,
                    now,
                ),
    {
        self.report_failure_with_class(url, ErrorClass::RetriableWithBackoff);
    }

    /// Report a failure with specific HTTP status code for proper classification.
    pub fn report_failure_with_status(&mut self, url: &str, status: u16)
        ensures
            exists|now: u128|
                final(self)@ == #[trigger] after_failure(old(self)@, url@, class_of(status), now),
    {
        let class = ErrorClass::from_status(status);
        self.report_failure_with_class(url, class);
    }

    /// Report a failure with a specific error class.
    pub fn report_failure_with_class(&mut self, url: &str, error_class: ErrorClass)
        ensures
            exists|now: u128|
                final(self)@ == #[trigger] after_failure(old(self)@, url@, error_class, now),
    {
        let now: u128 = self.clock.now();
        self.report_failure_at(url, error_class, now);
    }

    /// Report a failure at `now`, in nanoseconds on the pool's clock.
    pub fn report_failure_at(&mut self, url: &str, error_class: ErrorClass, now: u128)
        ensures
            final(self)@ == after_failure(old(self)@, url@, error_class, now),
    {
        let max_failures: u32 = self.max_failures;
        let retry_delay_ms: u64 = self.retry_delay_ms;
        match self.find(url) {
            Some(i) => {
                let m = &mut self.mirrors[i];
                m.active_connections = m.active_connections.saturating_sub(1);
                m.failures = m.failures.saturating_add(1);
                m.last_failure = Some(now);
                m.last_error_class = Some(error_class);
                match error_class {
                    ErrorClass::Fatal => {
                        // Immediately ban on fatal errors
                        m.banned = true;
                    },
                    ErrorClass::RetriableWithBackoff => {
                        m.backoff_secs = backoff(m.failures, retry_delay_ms);
                        if m.failures >= max_failures {
                            m.banned = true;
                        }
                    },
                    ErrorClass::RetriableImmediate => {
                        // No backoff, but still track failures
                        m.backoff_secs = 0;
                        if m.failures >= max_failures {
                            m.banned = true;
                        }
                    },
                }
            },
            None => {},
        }
    }

    /// Release a connection slot without reporting success or failure.
    /// Used when cancelling or switching mirrors.
    pub fn release(&mut self, url: &str)
        ensures
            final(self)@ == after_release(old(self)@, url@),
    {
        match self.find(url) {
            Some(i) => {
                let m = &mut self.mirrors[i];
                m.active_connections = m.active_connections.saturating_sub(1);
            },
            None => {},
        }
    }

    /// True if at least one mirror is still available.
    pub fn has_available(&self) -> (r: bool)
        ensures
            exists|now: u128| r == #[trigger] some_available(self@, now),
    {
        let now: u128 = self.clock.now();
        self.has_available_at(now)
    }

    /// `has_available` at `now`, in nanoseconds on the pool's clock.
    pub fn has_available_at(&self, now: u128) -> (r: bool)
        ensures
            r == some_available(self@, now),
    {
        let mut i: usize = 0;
        while i < self.mirrors.len()
            invariant
                i <= self.mirrors@.len(),
                forall|k: int| 0 <= k < i ==> !(#[trigger] self@.mirrors[k]).available(now),
            decreases self.mirrors@.len() - i,
        {
            assert(self@.mirrors[i as int] == self.mirrors@[i as int]);
            if self.mirrors[i].is_available(now) {
                return true;
            }
            i += 1;
        }
        false
    }

    /// Whether a pick at `now` would find a mirror.
    pub fn can_pick_at(&self, now: u128) -> (r: bool)
        ensures
            r <==> pick_target(self@, now) is Some,
    {
        proof {
            pick_follows_the_selection_order(self@, now);
        }
        let mut i: usize = 0;
        while i < self.mirrors.len()
            invariant
                i <= self.mirrors@.len(),
                forall|k: int|
                    0 <= k < i ==> !eligible(
                        #[trigger] self@.mirrors[k],
                        now,
                        self@.max_per_mirror,
                    ),
            decreases self.mirrors@.len() - i,
        {
            assert(self@.mirrors[i as int] == self.mirrors@[i as int]);
            let m = &self.mirrors[i];
            if m.is_available(now) && m.active_connections < self.max_per_mirror {
                proof {
                    pick_follows_the_selection_order(self@, now);
                }
                return true;
            }
            i += 1;
        }
        false
    }

    /// Whether every mirror is banned.
    pub fn all_banned(&self) -> (r: bool)
        ensures
            r == every_banned(self@),
    {
        let mut i: usize = 0;
        while i < self.mirrors.len()
            invariant
                i <= self.mirrors@.len(),
                forall|k: int| 0 <= k < i ==> (#[trigger] self@.mirrors[k]).banned,
            decreases self.mirrors@.len() - i,
        {
            assert(self@.mirrors[i as int] == self.mirrors@[i as int]);
            if !self.mirrors[i].banned {
                return false;
            }
            i += 1;
        }
        true
    }

    /// A copy of every mirror's state.
    pub fn snapshot(&self) -> (mirrors: Vec<MirrorState>)
        ensures
            mirrors@ == self@.mirrors,
    {
        let copy = self.mirrors.clone();
        assert(copy@ =~= self.mirrors@);
        copy
    }

    /// Get total active connections across all mirrors.
    pub fn total_connections(&self) -> (n: usize)
        requires
            sum_connections(self@.mirrors) <= usize::MAX,
        ensures
            n == sum_connections(self@.mirrors),
    {
        let mut n: usize = 0;
        let mut i: usize = 0;
        while i < self.mirrors.len()
            invariant
                i <= self.mirrors@.len(),
                sum_connections(self.mirrors@) <= usize::MAX,
                n == sum_connections(self.mirrors@.take(i as int)),
            decreases self.mirrors@.len() - i,
        {
            proof {
                lemma_sum_connections_prefix(self.mirrors@, i + 1);
                assert(self.mirrors@.take(i + 1).drop_last() =~= self.mirrors@.take(i as int));
            }
            n = n + self.mirrors[i].active_connections;
            i += 1;
        }
        assert(self.mirrors@.take(i as int) =~= self.mirrors@);
        n
    }
}

/// A connection to `url` is open.
pub open spec fn in_use(p: PoolView, url: Seq<char>) -> bool {
    mirror_at(p.mirrors, url) matches Some(i) && p.mirrors[i].active_connections > 0
}

/// No two mirrors have the same URL.
pub open spec fn all_apart(mirrors: Seq<MirrorState>) -> bool {
    forall|i: int, j: int|
        0 <= i < j < mirrors.len() ==> (#[trigger] mirrors[i]).url@ != (#[trigger] mirrors[j]).url@
}

/// Every mirror is banned.
pub open spec fn every_banned(p: PoolView) -> bool {
    forall|i: int| 0 <= i < p.mirrors.len() ==> (#[trigger] p.mirrors[i]).banned
}

/// Some mirror is available at `now`.
pub open spec fn some_available(p: PoolView, now: u128) -> bool {
    exists|i: int| 0 <= i < p.mirrors.len() && (#[trigger] p.mirrors[i]).available(now)
}

/// The backoff after that many failures, in seconds.
fn backoff(failures: u32, retry_delay_ms: u64) -> (secs: u64)
    requires
        0 < failures,
    ensures
        secs == backoff_after(failures as int, retry_delay_ms),
{
    let cap: u64 = MAX_BACKOFF_SECS * 1000;
    let ghost base = retry_delay_ms as int;
    proof {
        vstd::arithmetic::power2::lemma2_to64();
    }
    if retry_delay_ms == 0 {
        return 0;
    }
    let mut ms: u64 = retry_delay_ms;
    let mut n: u32 = 1;
    proof {
        let p = vstd::arithmetic::power2::pow2(0) as int;
        assert(base * p == base) by (nonlinear_arith)
            requires
                p == 1,
        ;
    }
    while n < failures && ms < cap
        invariant
            1 <= n <= failures,
            cap == 60000,
            0 < base,
            base == retry_delay_ms,
            ms == base * vstd::arithmetic::power2::pow2((n - 1) as nat),
        decreases failures - n,
    {
        proof {
            vstd::arithmetic::power2::lemma_pow2_unfold(n as nat);
            let p = vstd::arithmetic::power2::pow2((n - 1) as nat) as int;
            assert(base * (2 * p) == 2 * (base * p)) by (nonlinear_arith);
        }
        ms = 2 * ms;
        n += 1;
    }
    proof {
        lemma_backoff_grows(n as int, failures as int, retry_delay_ms);
    }
    if ms >= cap {
        MAX_BACKOFF_SECS
    } else {
        (ms + 999) / 1000
    }
}

proof fn lemma_backoff_grows(a: int, b: int, retry_delay_ms: u64)
    requires
        1 <= a <= b,
    ensures
        retry_delay_ms * vstd::arithmetic::power2::pow2((a - 1) as nat) <= retry_delay_ms
            * vstd::arithmetic::power2::pow2((b - 1) as nat),
        0 <= backoff_after(a, retry_delay_ms) <= backoff_after(b, retry_delay_ms)
            <= MAX_BACKOFF_SECS,
        retry_delay_ms > 0 ==> 1 <= backoff_after(a, retry_delay_ms),
{
    let x = vstd::arithmetic::power2::pow2((a - 1) as nat) as int;
    let y = vstd::arithmetic::power2::pow2((b - 1) as nat) as int;
    vstd::arithmetic::power2::lemma_pow2_pos((a - 1) as nat);
    if a < b {
        vstd::arithmetic::power2::lemma_pow2_strictly_increases((a - 1) as nat, (b - 1) as nat);
    }
    let d = retry_delay_ms as int;
    assert(0 <= d * x <= d * y && (d > 0 ==> d * x >= 1)) by (nonlinear_arith)
        requires
            0 <= d,
            0 < x <= y,
    ;
}

/// What is found under a URL has it, and is the first that does.
pub proof fn mirror_at_is_first(mirrors: Seq<MirrorState>, url: Seq<char>)
    ensures
        mirror_at(mirrors, url) is None <==> (forall|j: int|
            0 <= j < mirrors.len() ==> (#[trigger] mirrors[j]).url@ != url),
        mirror_at(mirrors, url) matches Some(i) ==> {
            &&& 0 <= i < mirrors.len()
            &&& mirrors[i].url@ == url
            &&& forall|j: int| 0 <= j < i ==> (#[trigger] mirrors[j]).url@ != url
        },
    decreases mirrors.len(),
{
    if mirrors.len() > 0 {
        let front = mirrors.drop_last();
        mirror_at_is_first(front, url);
        assert(forall|j: int| 0 <= j < front.len() ==> front[j] == mirrors[j]);
    }
}

proof fn lemma_sum_connections_prefix(mirrors: Seq<MirrorState>, k: int)
    requires
        0 <= k <= mirrors.len(),
    ensures
        sum_connections(mirrors.take(k)) <= sum_connections(mirrors),
    decreases mirrors.len(),
{
    if k == mirrors.len() {
        assert(mirrors.take(k) =~= mirrors);
    } else {
        lemma_sum_connections_prefix(mirrors.drop_last(), k);
        assert(mirrors.drop_last().take(k) =~= mirrors.take(k));
    }
}

/// Changing one mirror changes the connections by what it has more or fewer.
pub proof fn connections_after_update(mirrors: Seq<MirrorState>, i: int, m: MirrorState)
    requires
        0 <= i < mirrors.len(),
    ensures
        sum_connections(mirrors.update(i, m)) == sum_connections(mirrors) + m.active_connections
            - mirrors[i].active_connections,
    decreases mirrors.len(),
{
    let after = mirrors.update(i, m);
    if i == mirrors.len() - 1 {
        assert(after.drop_last() =~= mirrors.drop_last());
    } else {
        assert(after.drop_last() =~= mirrors.drop_last().update(i, m));
        connections_after_update(mirrors.drop_last(), i, m);
    }
}

/// The connections are no fewer than those of each mirror.
pub proof fn connections_count_each_mirror(mirrors: Seq<MirrorState>)
    ensures
        0 <= sum_connections(mirrors),
        forall|i: int|
            0 <= i < mirrors.len() ==> (#[trigger] mirrors[i]).active_connections
                <= sum_connections(mirrors),
    decreases mirrors.len(),
{
    if mirrors.len() > 0 {
        let front = mirrors.drop_last();
        connections_count_each_mirror(front);
        assert forall|i: int| 0 <= i < mirrors.len() implies (
        #[trigger] mirrors[i]).active_connections <= sum_connections(mirrors) by {
            if i < front.len() {
                assert(front[i] == mirrors[i]);
            }
        }
    }
}

// ─── Laws ────────────────────────────────────────────────────────────────────

/// The selection order: what is picked is not banned, not in backoff and below
/// the connection limit; no other such mirror is faster, and none of the same
/// speed has fewer connections; nothing is picked only if there is no such
/// mirror.
pub proof fn pick_follows_the_selection_order(p: PoolView, now: u128)
    ensures
        pick_target(p, now) is None <==> (forall|j: int|
            0 <= j < p.mirrors.len() ==> !eligible(#[trigger] p.mirrors[j], now, p.max_per_mirror)),
        pick_target(p, now) matches Some(i) ==> {
            let best = p.mirrors[i];
            &&& 0 <= i < p.mirrors.len()
            &&& eligible(best, now, p.max_per_mirror)
            &&& forall|j: int|
                0 <= j < p.mirrors.len() && eligible(
                    #[trigger] p.mirrors[j],
                    now,
                    p.max_per_mirror,
                ) ==> {
                    ||| p.mirrors[j].avg_speed_bps < best.avg_speed_bps
                    ||| p.mirrors[j].avg_speed_bps == best.avg_speed_bps
                        && p.mirrors[j].active_connections >= best.active_connections
                }
        },
{
    let keys = p.mirrors.map_values(|m: MirrorState| pick_key(m, now, p.max_per_mirror));
    select::last_max_is_best(keys);
    assert forall|j: int| 0 <= j < p.mirrors.len() implies keys[j] == pick_key(
        #[trigger] p.mirrors[j],
        now,
        p.max_per_mirror,
    ) by {}
    if pick_target(p, now) is None {
        assert forall|j: int| 0 <= j < p.mirrors.len() implies !eligible(
            #[trigger] p.mirrors[j],
            now,
            p.max_per_mirror,
        ) by {
            assert(keys[j] is None);
        }
    } else {
        let i = pick_target(p, now)->0;
        assert(keys[i] == pick_key(p.mirrors[i], now, p.max_per_mirror));
        assert(eligible(p.mirrors[i], now, p.max_per_mirror));
        assert forall|j: int|
            0 <= j < p.mirrors.len() && eligible(
                #[trigger] p.mirrors[j],
                now,
                p.max_per_mirror,
            ) implies {
            ||| p.mirrors[j].avg_speed_bps < p.mirrors[i].avg_speed_bps
            ||| p.mirrors[j].avg_speed_bps == p.mirrors[i].avg_speed_bps
                && p.mirrors[j].active_connections >= p.mirrors[i].active_connections
        } by {
            assert(keys[j]->0 <= keys[i]->0);
        }
    }
}

/// No mirror is over its connection limit.
pub open spec fn within_limits(p: PoolView) -> bool {
    forall|i: int|
        0 <= i < p.mirrors.len() ==> (#[trigger] p.mirrors[i]).active_connections
            <= p.max_per_mirror
}

/// The connection limit is kept by everything a pool does.
pub proof fn limits_are_kept(
    p: PoolView,
    url: Seq<char>,
    speed_bps: u64,
    class: ErrorClass,
    now: u128,
)
    requires
        within_limits(p),
    ensures
        within_limits(after_success(p, url, speed_bps)),
        within_limits(after_failure(p, url, class, now)),
        within_limits(after_release(p, url)),
        pick_target(p, now) matches Some(i) ==> within_limits(
            PoolView { mirrors: p.mirrors.update(i, connected(p.mirrors[i])), ..p },
        ),
        alternative_target(p, url, now) matches Some(i) ==> within_limits(
            PoolView { mirrors: p.mirrors.update(i, connected(p.mirrors[i])), ..p },
        ),
{
    mirror_at_is_first(p.mirrors, url);
    pick_follows_the_selection_order(p, now);
    let keys = p.mirrors.map_values(
        |m: MirrorState| alternative_key(m, url, now, p.max_per_mirror),
    );
    select::last_max_is_best(keys);
    if let Some(i) = alternative_target(p, url, now) {
        assert(keys[i] == alternative_key(p.mirrors[i], url, now, p.max_per_mirror));
    }
}

/// Giving back what a pick took leaves the pool as it was, as long as no two
/// mirrors share a URL.
pub proof fn release_undoes_pick(p: PoolView, now: u128)
    requires
        pick_target(p, now) is Some,
        forall|i: int, j: int|
            0 <= i < j < p.mirrors.len() ==> (#[trigger] p.mirrors[i]).url@ != (
            #[trigger] p.mirrors[j]).url@,
    ensures
        ({
            let i = pick_target(p, now)->0;
            let after = PoolView { mirrors: p.mirrors.update(i, connected(p.mirrors[i])), ..p };
            after_release(after, p.mirrors[i].url@) == p
        }),
{
    pick_follows_the_selection_order(p, now);
    let i = pick_target(p, now)->0;
    let after = PoolView { mirrors: p.mirrors.update(i, connected(p.mirrors[i])), ..p };
    let url = p.mirrors[i].url@;
    mirror_at_is_first(after.mirrors, url);
    assert(after.mirrors[i].url@ == url);
    let k = mirror_at(after.mirrors, url)->0;
    assert(after.mirrors[k].url@ == url);
    assert(p.mirrors[k].url@ == url);
    assert(k == i);
    assert(released(connected(p.mirrors[i])) == p.mirrors[i]);
    assert(after_release(after, url).mirrors =~= p.mirrors);
}

/// A mirror that fails with backoff is left alone until the backoff is over;
/// a fatal error or the `max_failures`-th failure in a row bans it, and a ban
/// is never lifted.
pub proof fn failures_take_a_mirror_out(
    m: MirrorState,
    class: ErrorClass,
    at: u128,
    now: u128,
    max_failures: u32,
    retry_delay_ms: u64,
    speed_bps: u64,
)
    ensures
        ({
            let failures = speed::one_more(m.failures);
            let wait = backoff_after(failures as int, retry_delay_ms);
            let after = failed(m, class, at, max_failures, retry_delay_ms);
            &&& class == ErrorClass::RetriableWithBackoff && secs_between(at, now) < wait
                ==> !after.available(now)
            &&& class == ErrorClass::Fatal || failures >= max_failures ==> after.banned
            &&& m.banned ==> !m.available(now) && after.banned && succeeded(m, speed_bps).banned
                && released(m).banned && connected(m).banned
            &&& 0 <= wait <= MAX_BACKOFF_SECS
            &&& retry_delay_ms > 0 ==> 1 <= wait
        }),
{
    let failures = speed::one_more(m.failures) as int;
    lemma_backoff_grows(failures, failures, retry_delay_ms);
}

/// Failover: a mirror that failed fatally is not picked again, and one that
/// failed with backoff is not picked before the backoff is over. So another
/// mirror takes its place, if one is free.
pub proof fn failed_mirrors_are_not_picked(
    p: PoolView,
    i: int,
    class: ErrorClass,
    at: u128,
    now: u128,
)
    requires
        0 <= i < p.mirrors.len(),
        mirror_at(p.mirrors, p.mirrors[i].url@) == Some(i),
        class == ErrorClass::Fatal || class == ErrorClass::RetriableWithBackoff && secs_between(
            at,
            now,
        ) < backoff_after(speed::one_more(p.mirrors[i].failures) as int, p.retry_delay_ms),
    ensures
        ({
            let after = after_failure(p, p.mirrors[i].url@, class, at);
            &&& pick_target(after, now) != Some(i)
            &&& (exists|j: int|
                0 <= j < p.mirrors.len() && j != i && eligible(
                    #[trigger] p.mirrors[j],
                    now,
                    p.max_per_mirror,
                )) ==> pick_target(after, now) is Some
        }),
{
    let after = after_failure(p, p.mirrors[i].url@, class, at);
    failures_take_a_mirror_out(
        p.mirrors[i],
        class,
        at,
        now,
        p.max_failures,
        p.retry_delay_ms,
        0,
    );
    pick_follows_the_selection_order(after, now);
    if exists|j: int|
        0 <= j < p.mirrors.len() && j != i && eligible(
            #[trigger] p.mirrors[j],
            now,
            p.max_per_mirror,
        ) {
        let j = choose|j: int|
            0 <= j < p.mirrors.len() && j != i && eligible(
                #[trigger] p.mirrors[j],
                now,
                p.max_per_mirror,
            );
        assert(after.mirrors[j] == p.mirrors[j]);
    }
}

/// The backoff never shrinks from one failure to the next, and stays within its
/// cap; with the default delay it is 1, 2, 4, 8, 16 and 32 seconds, and then the
/// cap.
pub proof fn backoff_doubles(failures: int, retry_delay_ms: u64)
    requires
        1 <= failures,
    ensures
        0 <= backoff_after(failures, retry_delay_ms) <= backoff_after(
            failures + 1,
            retry_delay_ms,
        ) <= MAX_BACKOFF_SECS,
        backoff_after(1, DEFAULT_RETRY_DELAY_MS) == 1,
        failures < 6 ==> backoff_after(failures + 1, DEFAULT_RETRY_DELAY_MS) == 2 * backoff_after(
            failures,
            DEFAULT_RETRY_DELAY_MS,
        ),
        failures >= 7 ==> backoff_after(failures, DEFAULT_RETRY_DELAY_MS) == MAX_BACKOFF_SECS,
{
    vstd::arithmetic::power2::lemma2_to64();
    lemma_backoff_grows(failures, failures + 1, retry_delay_ms);
    if failures >= 7 {
        lemma_backoff_grows(7, failures, DEFAULT_RETRY_DELAY_MS);
    }
}

/// The mirror can take another connection at `now`: it is not banned, the backoff
/// after its last failure has passed, and it has fewer connections than it may have.
pub open spec fn ready(m: MirrorState, now: u128, max_per_mirror: usize) -> bool {
    &&& !m.banned
    &&& m.last_failure matches Some(at) ==> m.backoff_secs == 0 || at + m.backoff_secs * 1000000000
        <= now
    &&& m.active_connections < max_per_mirror
}

/// Only the statuses that say a retry cannot help are fatal; a service that is
/// unavailable can be asked again at once, and after everything else it is left alone
/// for a while.
pub proof fn statuses_have_their_classes(status: u16)
    ensures
        class_of(status) == ErrorClass::Fatal <==> seq![
            400u16,
            401,
            403,
            404,
            405,
            410,
            451,
        ].contains(status),
        class_of(status) == ErrorClass::RetriableImmediate <==> status == 503,
{
    let fatal = seq![400u16, 401, 403, 404, 405, 410, 451];
    assert(fatal[0] == 400 && fatal[1] == 401 && fatal[2] == 403 && fatal[3] == 404 && fatal[4]
        == 405 && fatal[5] == 410 && fatal[6] == 451);
}

/// A mirror is available unless it is banned or its last failure lies less than its
/// backoff back.
pub proof fn a_backoff_ends_on_time(m: MirrorState, now: u128, max_per_mirror: usize)
    ensures
        m.last_failure is None ==> (m.available(now) <==> !m.banned),
        m.last_failure matches Some(at) ==> {
            &&& m.backoff_secs == 0 ==> (m.available(now) <==> !m.banned)
            &&& m.backoff_secs > 0 ==> (m.available(now) <==> !m.banned && at + m.backoff_secs
                * 1000000000 <= now)
            &&& m.cooling(now) <==> m.backoff_secs > 0 && now < at + m.backoff_secs * 1000000000
        },
        m.last_failure is None ==> !m.cooling(now),
        eligible(m, now, max_per_mirror) <==> ready(m, now, max_per_mirror),
{
    if let Some(at) = m.last_failure {
        let b = m.backoff_secs as int;
        let t = speed::span(at, now);
        assert(t / 1000000000 < b <==> t < b * 1000000000) by (nonlinear_arith)
            requires
                0 <= t,
        ;
    }
}

/// The fastest mirror that is ready is picked, of equally fast ones one with the
/// fewest connections, and of those the last; and one is picked whenever one is ready.
pub proof fn the_fastest_ready_mirror_is_picked(p: PoolView, now: u128)
    ensures
        pick_target(p, now) is None <==> (forall|j: int|
            0 <= j < p.mirrors.len() ==> !ready(#[trigger] p.mirrors[j], now, p.max_per_mirror)),
        pick_target(p, now) matches Some(i) ==> {
            let best = p.mirrors[i];
            &&& 0 <= i < p.mirrors.len()
            &&& ready(best, now, p.max_per_mirror)
            &&& forall|j: int|
                0 <= j < p.mirrors.len() && ready(#[trigger] p.mirrors[j], now, p.max_per_mirror)
                    ==> {
                    let other = p.mirrors[j];
                    ||| other.avg_speed_bps < best.avg_speed_bps
                    ||| other.avg_speed_bps == best.avg_speed_bps && other.active_connections
                        > best.active_connections
                    ||| other.avg_speed_bps == best.avg_speed_bps && other.active_connections
                        == best.active_connections && j <= i
                }
        },
{
    let keys = p.mirrors.map_values(|m: MirrorState| pick_key(m, now, p.max_per_mirror));
    select::last_max_is_best(keys);
    assert forall|j: int| 0 <= j < p.mirrors.len() implies keys[j] == pick_key(
        #[trigger] p.mirrors[j],
        now,
        p.max_per_mirror,
    ) && (keys[j] is Some <==> ready(p.mirrors[j], now, p.max_per_mirror)) by {
        a_backoff_ends_on_time(p.mirrors[j], now, p.max_per_mirror);
    }
    if pick_target(p, now) is None {
        assert forall|j: int| 0 <= j < p.mirrors.len() implies !ready(
            #[trigger] p.mirrors[j],
            now,
            p.max_per_mirror,
        ) by {
            assert(keys[j] is None);
        }
    } else {
        let i = pick_target(p, now)->0;
        assert(keys[i] == pick_key(p.mirrors[i], now, p.max_per_mirror));
        assert(ready(p.mirrors[i], now, p.max_per_mirror));
        assert forall|j: int|
            0 <= j < p.mirrors.len() && ready(
                #[trigger] p.mirrors[j],
                now,
                p.max_per_mirror,
            ) implies {
            let other = p.mirrors[j];
            let best = p.mirrors[i];
            ||| other.avg_speed_bps < best.avg_speed_bps
            ||| other.avg_speed_bps == best.avg_speed_bps && other.active_connections
                > best.active_connections
            ||| other.avg_speed_bps == best.avg_speed_bps && other.active_connections
                == best.active_connections && j <= i
        } by {
            assert(keys[j]->0 <= keys[i]->0);
            if j > i {
                assert(keys[j]->0 < keys[i]->0);
            }
        }
    }
}

/// An alternative is another mirror that is ready: the fastest after each of its
/// connections has taken a hundred thousand bytes per second off its speed; and there
/// is one whenever another mirror is ready.
pub proof fn an_alternative_is_another_ready_mirror(p: PoolView, current: Seq<char>, now: u128)
    ensures
        alternative_target(p, current, now) is None <==> (forall|j: int|
            0 <= j < p.mirrors.len() ==> (#[trigger] p.mirrors[j]).url@ == current || !ready(
                p.mirrors[j],
                now,
                p.max_per_mirror,
            )),
        alternative_target(p, current, now) matches Some(i) ==> {
            let best = p.mirrors[i];
            &&& 0 <= i < p.mirrors.len()
            &&& best.url@ != current
            &&& ready(best, now, p.max_per_mirror)
            &&& forall|j: int|
                0 <= j < p.mirrors.len() && (#[trigger] p.mirrors[j]).url@ != current && ready(
                    p.mirrors[j],
                    now,
                    p.max_per_mirror,
                ) ==> {
                    let other = p.mirrors[j];
                    ||| other.avg_speed_bps - other.active_connections * 100000 <= 0
                    ||| other.avg_speed_bps - other.active_connections * 100000
                        <= best.avg_speed_bps - best.active_connections * 100000
                }
        },
{
    let keys = p.mirrors.map_values(
        |m: MirrorState| alternative_key(m, current, now, p.max_per_mirror),
    );
    select::last_max_is_best(keys);
    assert forall|j: int| 0 <= j < p.mirrors.len() implies keys[j] == alternative_key(
        #[trigger] p.mirrors[j],
        current,
        now,
        p.max_per_mirror,
    ) && (keys[j] is Some <==> p.mirrors[j].url@ != current && ready(
        p.mirrors[j],
        now,
        p.max_per_mirror,
    )) by {
        a_backoff_ends_on_time(p.mirrors[j], now, p.max_per_mirror);
    }
    if alternative_target(p, current, now) is None {
        assert forall|j: int| 0 <= j < p.mirrors.len() implies (
        #[trigger] p.mirrors[j]).url@ == current || !ready(p.mirrors[j], now, p.max_per_mirror) by {
            assert(keys[j] is None);
        }
    } else {
        let i = alternative_target(p, current, now)->0;
        assert(keys[i] == alternative_key(p.mirrors[i], current, now, p.max_per_mirror));
        assert(p.mirrors[i].url@ != current && ready(p.mirrors[i], now, p.max_per_mirror));
        assert forall|j: int|
            0 <= j < p.mirrors.len() && (#[trigger] p.mirrors[j]).url@ != current && ready(
                p.mirrors[j],
                now,
                p.max_per_mirror,
            ) implies {
            let other = p.mirrors[j];
            let best = p.mirrors[i];
            ||| other.avg_speed_bps - other.active_connections * 100000 <= 0
            ||| other.avg_speed_bps - other.active_connections * 100000 <= best.avg_speed_bps
                - best.active_connections * 100000
        } by {
            assert(keys[j]->0 <= keys[i]->0);
        }
    }
}

/// A pick opens one connection to the mirror whose URL it returns, and changes
/// nothing else of any mirror.
pub proof fn a_pick_opens_one_connection(
    before: PoolView,
    target: Option<int>,
    after: PoolView,
    url: Option<String>,
)
    requires
        picked(before, target, after, url),
        target matches Some(i) ==> before.mirrors[i].active_connections < usize::MAX,
    ensures
        url is Some <==> target is Some,
        target is None ==> after == before,
        target matches Some(i) ==> {
            &&& url->0@ == before.mirrors[i].url@
            &&& after.max_per_mirror == before.max_per_mirror
            &&& after.max_failures == before.max_failures
            &&& after.retry_delay_ms == before.retry_delay_ms
            &&& after.mirrors.len() == before.mirrors.len()
            &&& after.mirrors[i].active_connections == before.mirrors[i].active_connections + 1
            &&& after.mirrors[i].url@ == before.mirrors[i].url@
            &&& after.mirrors[i].banned == before.mirrors[i].banned
            &&& after.mirrors[i].failures == before.mirrors[i].failures
            &&& after.mirrors[i].avg_speed_bps == before.mirrors[i].avg_speed_bps
            &&& after.mirrors[i].last_failure == before.mirrors[i].last_failure
            &&& after.mirrors[i].backoff_secs == before.mirrors[i].backoff_secs
            &&& forall|j: int|
                0 <= j < before.mirrors.len() && j != i ==> #[trigger] after.mirrors[j]
                    == before.mirrors[j]
        },
{
}

/// A success is told of one mirror: it gives a connection back, forgets its failures
/// and their backoff, and takes over the speed, the first one as it is; but a ban
/// stays. No other mirror changes.
pub proof fn a_success_clears_one_mirror(p: PoolView, url: Seq<char>, speed_bps: u64)
    ensures
        ({
            let after = after_success(p, url, speed_bps);
            &&& after.max_per_mirror == p.max_per_mirror
            &&& after.max_failures == p.max_failures
            &&& after.retry_delay_ms == p.retry_delay_ms
            &&& after.mirrors.len() == p.mirrors.len()
            &&& forall|j: int|
                0 <= j < p.mirrors.len() ==> {
                    let old_m = #[trigger] p.mirrors[j];
                    let new_m = after.mirrors[j];
                    let first = old_m.url@ == url && (forall|k: int|
                        0 <= k < j ==> (#[trigger] p.mirrors[k]).url@ != url);
                    &&& !first ==> new_m == old_m
                    &&& first ==> {
                        &&& new_m.url@ == old_m.url@
                        &&& new_m.banned == old_m.banned
                        &&& new_m.failures == 0 && new_m.backoff_secs == 0
                        &&& new_m.last_failure is None && new_m.last_error_class is None
                        &&& old_m.active_connections > 0 ==> new_m.active_connections + 1
                            == old_m.active_connections
                        &&& old_m.active_connections == 0 ==> new_m.active_connections == 0
                        &&& old_m.avg_speed_bps == 0 ==> new_m.avg_speed_bps == speed_bps
                        &&& old_m.avg_speed_bps > 0 ==> new_m.avg_speed_bps == average(
                            old_m.avg_speed_bps,
                            speed_bps,
                        )
                    }
                }
        }),
{
    mirror_at_is_first(p.mirrors, url);
}

/// A failure is told of one mirror: it gives a connection back and counts one failure
/// more. It is banned by a fatal failure, or when the failures in a row are as many as
/// may be, and otherwise only if it was before. After a failure that asks for backoff
/// it is left alone for the delay, doubled with each failure, in whole seconds and for
/// a minute at most; after one that does not, not at all. No other mirror changes.
pub proof fn a_failure_is_told_of_one_mirror(
    p: PoolView,
    url: Seq<char>,
    class: ErrorClass,
    now: u128,
)
    ensures
        ({
            let after = after_failure(p, url, class, now);
            &&& after.max_per_mirror == p.max_per_mirror
            &&& after.max_failures == p.max_failures
            &&& after.retry_delay_ms == p.retry_delay_ms
            &&& after.mirrors.len() == p.mirrors.len()
            &&& forall|j: int|
                0 <= j < p.mirrors.len() ==> {
                    let old_m = #[trigger] p.mirrors[j];
                    let new_m = after.mirrors[j];
                    let first = old_m.url@ == url && (forall|k: int|
                        0 <= k < j ==> (#[trigger] p.mirrors[k]).url@ != url);
                    &&& !first ==> new_m == old_m
                    &&& first ==> {
                        &&& new_m.url@ == old_m.url@
                        &&& new_m.avg_speed_bps == old_m.avg_speed_bps
                        &&& new_m.last_failure == Some(now)
                        &&& new_m.last_error_class == Some(class)
                        &&& old_m.failures < u32::MAX ==> new_m.failures == old_m.failures + 1
                        &&& old_m.active_connections > 0 ==> new_m.active_connections + 1
                            == old_m.active_connections
                        &&& old_m.active_connections == 0 ==> new_m.active_connections == 0
                        &&& new_m.banned <==> old_m.banned || class == ErrorClass::Fatal
                            || new_m.failures >= p.max_failures
                        &&& class == ErrorClass::RetriableImmediate ==> new_m.backoff_secs == 0
                        &&& class == ErrorClass::RetriableWithBackoff ==> {
                            let ms = p.retry_delay_ms * vstd::arithmetic::power2::pow2(
                                (new_m.failures - 1) as nat,
                            );
                            &&& new_m.backoff_secs <= 60
                            &&& new_m.backoff_secs < 60 ==> ms <= new_m.backoff_secs * 1000
                            &&& new_m.backoff_secs * 1000 < ms + 1000
                        }
                    }
                }
        }),
{
    mirror_at_is_first(p.mirrors, url);
    if let Some(i) = mirror_at(p.mirrors, url) {
        let n = speed::one_more(p.mirrors[i].failures) as int;
        lemma_backoff_grows(n, n, p.retry_delay_ms);
        vstd::arithmetic::power2::lemma_pow2_pos((n - 1) as nat);
    }
}

/// A release gives back one connection to one mirror, and changes nothing else.
pub proof fn a_release_gives_one_connection_back(p: PoolView, url: Seq<char>)
    ensures
        ({
            let after = after_release(p, url);
            &&& after == (PoolView { mirrors: after.mirrors, ..p })
            &&& after.mirrors.len() == p.mirrors.len()
            &&& forall|j: int|
                0 <= j < p.mirrors.len() ==> {
                    let old_m = #[trigger] p.mirrors[j];
                    let new_m = after.mirrors[j];
                    let first = old_m.url@ == url && (forall|k: int|
                        0 <= k < j ==> (#[trigger] p.mirrors[k]).url@ != url);
                    &&& new_m == (MirrorState {
                        active_connections: new_m.active_connections,
                        ..old_m
                    })
                    &&& !first ==> new_m == old_m
                    &&& first && old_m.active_connections > 0 ==> new_m.active_connections + 1
                        == old_m.active_connections
                    &&& first && old_m.active_connections == 0 ==> new_m == old_m
                }
        }),
{
    mirror_at_is_first(p.mirrors, url);
}

/// A new pool has a mirror for each URL, in their order; all are ready at any time, as
/// long as they may have a connection, and a mirror is banned by five failures in a
/// row.
pub proof fn a_new_pool_has_every_mirror(
    urls: Seq<String>,
    max_per_mirror: usize,
    retry_delay_ms: u64,
    now: u128,
)
    ensures
        ({
            let p = fresh_pool(urls, max_per_mirror, retry_delay_ms);
            &&& p.max_per_mirror == max_per_mirror
            &&& p.retry_delay_ms == retry_delay_ms
            &&& p.max_failures == 5
            &&& p.mirrors.len() == urls.len()
            &&& forall|i: int|
                0 <= i < urls.len() ==> {
                    let m = #[trigger] p.mirrors[i];
                    &&& m.url@ == urls[i]@
                    &&& m.failures == 0
                    &&& m.avg_speed_bps == 0
                    &&& m.active_connections == 0
                    &&& ready(m, now, max_per_mirror) <==> max_per_mirror > 0
                }
            &&& urls.len() > 0 ==> some_available(p, now) && !every_banned(p)
        }),
{
    let p = fresh_pool(urls, max_per_mirror, retry_delay_ms);
    if urls.len() > 0 {
        assert(p.mirrors[0].available(now));
    }
}

/// Some mirror is available exactly if one is neither banned nor in backoff; every
/// mirror is banned exactly if no mirror is not.
pub proof fn availability_is_that_of_a_mirror(p: PoolView, now: u128)
    ensures
        some_available(p, now) <==> exists|i: int|
            0 <= i < p.mirrors.len() && !(#[trigger] p.mirrors[i]).banned && (
            p.mirrors[i].last_failure is None || p.mirrors[i].backoff_secs == 0
                || p.mirrors[i].last_failure->0 + p.mirrors[i].backoff_secs * 1000000000 <= now),
        every_banned(p) <==> !(exists|i: int|
            0 <= i < p.mirrors.len() && !(#[trigger] p.mirrors[i]).banned),
        sum_connections(Seq::empty()) == 0,
        forall|m: MirrorState| #[trigger]
            sum_connections(p.mirrors.push(m)) == sum_connections(p.mirrors)
                + m.active_connections,
{
    assert forall|i: int| 0 <= i < p.mirrors.len() implies (#[trigger] p.mirrors[i].available(now)
        <==> !p.mirrors[i].banned && (p.mirrors[i].last_failure is None
        || p.mirrors[i].backoff_secs == 0 || p.mirrors[i].last_failure->0
        + p.mirrors[i].backoff_secs * 1000000000 <= now)) by {
        a_backoff_ends_on_time(p.mirrors[i], now, p.max_per_mirror);
    }
    assert forall|m: MirrorState| #[trigger]
        sum_connections(p.mirrors.push(m)) == sum_connections(p.mirrors) + m.active_connections by {
        assert(p.mirrors.push(m).drop_last() =~= p.mirrors);
    }
}

proof fn lemma_tenths(n: int)
    requires
        1 <= n <= 10,
    ensures
        10 * tenths(n) * double::LEAST <= n * double::unit() * (double::LEAST + 1),
        n * double::unit() * (double::LEAST - 1) <= 10 * tenths(n) * double::LEAST,
        double::LEAST <= tenths(n),
        0x1000_0000_0000_0000 < double::unit(),
{
    let u = double::unit();
    let e = double::LEAST as int;
    vstd::arithmetic::power2::lemma2_to64();
    vstd::arithmetic::power2::lemma2_to64_rest();
    vstd::arithmetic::power2::lemma_pow2_strictly_increases(60, 1074);
    double::short_numbers_stay(n, 1074);
    double::short_numbers_stay(10, 1074);
    double::short_numbers_stay(e, 0);
    assert(e * 1 == e);
    let t = tenths(n);
    assert(e * (10 * u) <= (n * u) * u && 0 < 10 * u) by (nonlinear_arith)
        requires
            1 <= n,
            10 * e <= u,
            0 < e,
    ;
    double::rounding_is_close((n * u) * u, 10 * u);
    double::rounding_takes_little((n * u) * u, 10 * u);
    double::rounding_stays_above((n * u) * u, 10 * u, e);
    assert(t * ((10 * u) * e) == (10 * t * e) * u && ((n * u) * u) * (e + 1) == (n * u * (e + 1))
        * u && ((n * u) * u) * (e - 1) == (n * u * (e - 1)) * u) by (nonlinear_arith);
    vstd::arithmetic::mul::lemma_mul_inequality_converse(10 * t * e, n * u * (e + 1), u);
    vstd::arithmetic::mul::lemma_mul_inequality_converse(n * u * (e - 1), 10 * t * e, u);
}

proof fn lemma_share(a: int, n: int)
    requires
        0 <= a <= 0x4000_0000_0000,
        1 <= n <= 10,
    ensures
        ({
            let p = double::times(double::of(a), tenths(n));
            let e = double::LEAST as int;
            let whole = n * a * double::unit();
            &&& 10 * p * (e * e) <= whole * ((e + 1) * (e + 1))
            &&& whole * ((e - 1) * (e - 1)) <= 10 * p * (e * e)
            &&& 0 <= p
            &&& 0 < a ==> e <= p
        }),
{
    let u = double::unit();
    let e = double::LEAST as int;
    let t = tenths(n);
    lemma_tenths(n);
    vstd::arithmetic::power2::lemma2_to64();
    double::short_numbers_stay(a, 1074);
    let p = double::times(double::of(a), t);
    if a == 0 {
        double::short_numbers_stay(0, 0);
        double::exact_quotients_stay(0, u, 0);
        assert((0 * u) * t == 0) by (nonlinear_arith);
        assert(n * 0 * u == 0) by (nonlinear_arith);
    } else {
        let m = (a * u) * t;
        assert(e * u <= m) by (nonlinear_arith)
            requires
                1 <= a,
                0 < u,
                0 < e <= t,
                m == (a * u) * t,
        ;
        double::short_numbers_stay(e, 0);
        assert(e * 1 == e);
        double::rounding_is_close(m, u);
        double::rounding_takes_little(m, u);
        double::rounding_stays_above(m, u, e);
        assert(p * (u * e) == (p * e) * u && m * (e + 1) == (a * t * (e + 1)) * u && m * (e - 1) == (
        a * t * (e - 1)) * u) by (nonlinear_arith)
            requires
                m == (a * u) * t,
        ;
        vstd::arithmetic::mul::lemma_mul_inequality_converse(p * e, a * t * (e + 1), u);
        vstd::arithmetic::mul::lemma_mul_inequality_converse(a * t * (e - 1), p * e, u);
        let tt = 10 * t * e;
        let hi = n * u * (e + 1);
        let lo = n * u * (e - 1);
        assert(10 * p * (e * e) == 10 * e * (p * e)) by (nonlinear_arith);
        assert(10 * e * (p * e) <= 10 * e * (a * t * (e + 1))) by (nonlinear_arith)
            requires
                p * e <= a * t * (e + 1),
                0 < e,
        ;
        assert(10 * e * (a * t * (e - 1)) <= 10 * e * (p * e)) by (nonlinear_arith)
            requires
                a * t * (e - 1) <= p * e,
                0 < e,
        ;
        assert(10 * e * (a * t * (e + 1)) == tt * (a * (e + 1)) && 10 * e * (a * t * (e - 1)) == tt
            * (a * (e - 1))) by (nonlinear_arith)
            requires
                tt == 10 * t * e,
        ;
        assert(tt * (a * (e + 1)) <= hi * (a * (e + 1)) && lo * (a * (e - 1)) <= tt * (a * (e - 1)))
            by (nonlinear_arith)
            requires
                lo <= tt <= hi,
                0 < a,
                1 < e,
        ;
        assert(hi * (a * (e + 1)) == n * a * u * ((e + 1) * (e + 1)) && lo * (a * (e - 1)) == n * a
            * u * ((e - 1) * (e - 1))) by (nonlinear_arith)
            requires
                hi == n * u * (e + 1),
                lo == n * u * (e - 1),
        ;
    }
}

/// A new speed weighs three tenths in a mirror's average, and the average so far seven;
/// no more than one byte per second is lost to rounding.
pub proof fn a_new_speed_weighs_three_tenths(avg: u64, speed_bps: u64)
    requires
        0 < avg <= 0x4000_0000_0000,
        speed_bps <= 0x4000_0000_0000,
    ensures
        10 * average(avg, speed_bps) <= 7 * avg + 3 * speed_bps <= 10 * average(avg, speed_bps)
            + 10,
{
    let u = double::unit();
    let e = double::LEAST as int;
    let total = 7 * avg + 3 * speed_bps;
    lemma_tenths(7);
    lemma_share(avg as int, 7);
    lemma_share(speed_bps as int, 3);
    let p = double::times(double::of(avg as int), tenths(7));
    let q = double::times(double::of(speed_bps as int), tenths(3));
    let s = p + q;
    let sum = double::plus(p, q);
    let upper = (e + 1) * (e + 1);
    let lower = (e - 1) * (e - 1);
    assert(10 * s * (e * e) <= total * u * upper && total * u * lower <= 10 * s * (e * e))
        by (nonlinear_arith)
        requires
            10 * p * (e * e) <= 7 * avg * u * upper,
            10 * q * (e * e) <= 3 * speed_bps * u * upper,
            7 * avg * u * lower <= 10 * p * (e * e),
            3 * speed_bps * u * lower <= 10 * q * (e * e),
            s == p + q,
            total == 7 * avg + 3 * speed_bps,
    ;
    double::rounding_is_close(s, 1);
    double::rounding_takes_little(s, 1);
    let w = sum / u;
    vstd::arithmetic::div_mod::lemma_fundamental_div_mod(sum, u);
    let cube = e * (e * e);
    assert(10 * sum * cube <= total * u * (upper * (e + 1))) by (nonlinear_arith)
        requires
            sum * e <= s * (e + 1),
            10 * s * (e * e) <= total * u * upper,
            cube == e * (e * e),
            0 < e,
    ;
    assert(total * u * (lower * (e - 1)) <= 10 * sum * cube) by (nonlinear_arith)
        requires
            s * (e - 1) <= sum * e,
            total * u * lower <= 10 * s * (e * e),
            cube == e * (e * e),
            1 < e,
    ;
    assert((10 * w * cube) * u <= (total * (upper * (e + 1))) * u) by (nonlinear_arith)
        requires
            u * w <= sum,
            10 * sum * cube <= total * u * (upper * (e + 1)),
            0 < cube,
    ;
    assert((total * (lower * (e - 1))) * u < (10 * (w + 1) * cube) * u) by (nonlinear_arith)
        requires
            sum < u * w + u,
            total * u * (lower * (e - 1)) <= 10 * sum * cube,
            0 < cube,
    ;
    vstd::arithmetic::mul::lemma_mul_inequality_converse(
        10 * w * cube,
        total * (upper * (e + 1)),
        u,
    );
    vstd::arithmetic::mul::lemma_mul_strict_inequality_converse(
        total * (lower * (e - 1)),
        10 * (w + 1) * cube,
        u,
    );
    assert(upper * (e + 1) <= cube + 4 * (e * e) && cube - 4 * (e * e) <= lower * (e - 1)
        && cube == e * (e * e) && 0 < e * e);
    assert(10 * w * cube < (total + 1) * cube && (total - 1) * cube < 10 * (w + 1) * cube)
        by (nonlinear_arith)
        requires
            10 * w * cube <= total * (upper * (e + 1)),
            total * (lower * (e - 1)) < 10 * (w + 1) * cube,
            upper * (e + 1) <= cube + 4 * (e * e),
            cube - 4 * (e * e) <= lower * (e - 1),
            cube == e * (e * e),
            0 <= total,
            4 * total < e,
            0 < e * e,
    ;
    vstd::arithmetic::mul::lemma_mul_strict_inequality_converse(10 * w, total + 1, cube);
    vstd::arithmetic::mul::lemma_mul_strict_inequality_converse(total - 1, 10 * (w + 1), cube);
}

/// A mirror that has not been used has not failed; and a fatal failure leaves the backoff
/// as it is, for the mirror is not asked again.
pub proof fn failures_are_noted_as_they_come(
    url: String,
    m: MirrorState,
    class: ErrorClass,
    now: u128,
    max_failures: u32,
    retry_delay_ms: u64,
)
    ensures
        fresh_mirror(url).last_failure is None,
        fresh_mirror(url).last_error_class is None,
        fresh_mirror(url).backoff_secs == 0,
        !fresh_mirror(url).banned,
        ({
            let after = failed(m, class, now, max_failures, retry_delay_ms);
            &&& after.last_failure == Some(now)
            &&& after.last_error_class == Some(class)
            &&& class is Fatal ==> after.banned && after.backoff_secs == m.backoff_secs
            &&& class is RetriableImmediate ==> after.backoff_secs == 0
            &&& m.banned ==> after.banned
            &&& after.url == m.url
            &&& after.avg_speed_bps == m.avg_speed_bps
        }),
{
}

} // verus!
