//! Runtime counters: request and socket counts, and per-stage latency
//! histograms with fixed bucket bounds.
//!
//! All counters live in one `PerfCounters` value that the server owns and
//! passes to every recording call. Counters wrap on overflow, as atomic adds do.
//! Nothing is recorded while profiling is disabled, except where a function
//! says otherwise.

use std::time::Duration;
use std::time::Instant;
use vstd::array::spec_array_fill_for_copy_type;
use vstd::array::spec_array_update;
use crate::numbers::{all_digits, digits_val, parse_u64_digits};
use vstd::prelude::*;

verus! {

pub const STAGE_LB_ACCEPT: usize = 0;

pub const STAGE_LB_HANDOFF: usize = 1;

pub const STAGE_API_RECV_FD: usize = 2;

pub const STAGE_API_SETSOCKOPT: usize = 3;

pub const STAGE_SPIN_READ: usize = 4;

pub const STAGE_SOCKET_RECV: usize = 5;

pub const STAGE_HTTP_PARSE: usize = 6;

pub const STAGE_VALIDATION: usize = 7;

pub const STAGE_PARSE_JSON: usize = 8;

pub const STAGE_PAYLOAD_CACHE_FILL: usize = 9;

pub const STAGE_FAST_PATH_LOOKUP: usize = 10;

pub const STAGE_DECISION_TREE: usize = 11;

pub const STAGE_RESPONSE_SELECT: usize = 12;

pub const STAGE_SEND_SYSCALL: usize = 13;

pub const STAGE_WRITE_COMPLETE: usize = 14;

pub const STAGE_SERVER_PROCESSING: usize = 15;

pub const STAGE_REQUEST_TOTAL: usize = 16;

pub const STAGE_EPOLL_WAIT: usize = 17;

pub const STAGE_EPOLL_DISPATCH: usize = 18;

// Older names still used by call sites.
pub const STAGE_CACHE_LOOKUP: usize = STAGE_FAST_PATH_LOOKUP;

pub const STAGE_CACHE_INSERT: usize = STAGE_PAYLOAD_CACHE_FILL;

pub const STAGE_SERIALIZE: usize = STAGE_RESPONSE_SELECT;

pub const STAGE_WRITE_RESPONSE: usize = STAGE_SEND_SYSCALL;

pub const STAGE_COUNT: usize = 19;

pub const HIST_BUCKET_COUNT: usize = 42;

/// Slots of the flattened per-stage histograms: stage `s`, bucket `b` is
/// slot `s * HIST_BUCKET_COUNT + b`.
pub const HIST_SLOTS: usize = 798;

/// Inclusive upper bound, in microseconds, of each histogram bucket.
pub const HIST_BUCKETS_US: [u64; 42] = [
    1, 2, 3, 4, 5, 7, 10, 15, 20, 25, 30, 40, 50, 60, 75, 100, 125, 150, 200, 250, 300, 400, 500,
    600, 750, 1_000, 1_250, 1_500, 2_000, 3_000, 5_000, 7_500, 10_000, 15_000, 20_000, 30_000,
    50_000, 75_000, 100_000, 250_000, 1_000_000, u64::MAX,
];

#[verifier::external_type_specification]
#[verifier::external_body]
pub struct ExInstant(Instant);

/// Reads the monotonic clock (`Instant::now`); nothing is known of the
/// reading.
#[verifier::external_body]
fn instant_now() -> Instant {
    Instant::now()
}

/// The time since `start` (`Instant::elapsed`); it depends on the clock, so
/// nothing is stated of it.
#[verifier::external_body]
fn instant_elapsed(start: &Instant) -> Duration {
    start.elapsed()
}

/// Whole microseconds of a duration (`Duration::as_micros`).
#[verifier::external_body]
fn duration_micros(d: &Duration) -> u128 {
    d.as_micros()
}

/// Microseconds since `start`, saturated to `u64::MAX`. The reading comes
/// from the clock, and every `u64` is a possible reading, so no clause is
/// stated of the result.
fn elapsed_us(start: &Instant) -> u64 {
    let micros = duration_micros(&instant_elapsed(start));
    if micros > u64::MAX as u128 {
        u64::MAX
    } else {
        micros as u64
    }
}

/// Every counter the server keeps.
pub struct PerfCounters {
    pub enabled: bool,
    pub alloc_profiling: bool,
    pub requests_total: u64,
    pub requests_success: u64,
    pub requests_error: u64,
    pub active_connections: u64,
    pub cache_hits: u64,
    pub cache_misses: u64,
    pub bytes_received: u64,
    pub bytes_sent: u64,
    pub webhook_queue_len: u64,
    pub webhook_dropped: u64,
    pub webhook_send_ok: u64,
    pub webhook_send_err: u64,
    pub lb_accepted: u64,
    pub lb_handoff_ok: u64,
    pub lb_handoff_err: u64,
    pub lb_upstream_api1: u64,
    pub lb_upstream_api2: u64,
    pub recv_fd_total: u64,
    pub spin_read_hit: u64,
    pub spin_read_miss: u64,
    pub spin_read_attempts: u64,
    pub epoll_read_fallback: u64,
    pub partial_writes: u64,
    pub write_eagain: u64,
    pub recv_calls: u64,
    pub send_calls: u64,
    pub epoll_wait_calls: u64,
    pub epoll_wait_timeouts: u64,
    pub epoll_wait_errors: u64,
    pub epoll_wait_events: u64,
    pub epoll_wait_max_events: u64,
    pub epoll_busy_poll_supported: bool,
    pub epoll_busy_poll_enabled: bool,
    pub epoll_busy_poll_usecs: u64,
    pub epoll_busy_poll_budget: u64,
    pub epoll_busy_poll_prefer: u64,
    pub epoll_busy_poll_set_errno: u64,
    pub epoll_busy_poll_get_errno: u64,
    pub alloc_calls: u64,
    pub dealloc_calls: u64,
    pub realloc_calls: u64,
    pub alloc_bytes: u64,
    pub realloc_bytes: u64,
    pub stage_sum_us: [u64; 19],
    pub stage_count_total: [u64; 19],
    pub stage_max_us: [u64; 19],
    pub stage_hist: [u64; 798],
}

/// `x + y` modulo 2^64.
pub open spec fn wadd(x: u64, y: u64) -> u64 {
    vstd::wrapping::u64_specs::wrapping_add(x, y)
}

/// The larger of two values.
pub open spec fn max_u64(a: u64, b: u64) -> u64 {
    if a < b {
        b
    } else {
        a
    }
}

/// The first bucket at or after `i` whose upper bound holds `us`.
pub open spec fn bucket_from(us: u64, i: int) -> int
    decreases 41 - i,
{
    if i >= 41 {
        41
    } else if us <= HIST_BUCKETS_US[i] {
        i
    } else {
        bucket_from(us, i + 1)
    }
}

/// The bucket a duration falls in: the first whose upper bound holds it.
pub open spec fn bucket_of(us: u64) -> int {
    bucket_from(us, 0)
}

/// Counters after one stage sample of `us` microseconds: sum, count and
/// maximum of the stage, and one more sample in its histogram bucket.
pub open spec fn with_stage(p: PerfCounters, stage: int, us: u64) -> PerfCounters {
    if !p.enabled || stage < 0 || stage >= 19 {
        p
    } else {
        let slot = stage * 42 + bucket_of(us);
        PerfCounters {
            stage_sum_us: spec_array_update(p.stage_sum_us, stage, wadd(p.stage_sum_us[stage], us)),
            stage_count_total: spec_array_update(
                p.stage_count_total,
                stage,
                wadd(p.stage_count_total[stage], 1),
            ),
            stage_max_us: spec_array_update(
                p.stage_max_us,
                stage,
                max_u64(p.stage_max_us[stage], us),
            ),
            stage_hist: spec_array_update(p.stage_hist, slot, wadd(p.stage_hist[slot], 1)),
            ..p
        }
    }
}

/// Counters after one finished request, before its total time is sampled.
pub open spec fn with_request(p: PerfCounters, success: bool) -> PerfCounters {
    if success {
        PerfCounters {
            requests_total: wadd(p.requests_total, 1),
            requests_success: wadd(p.requests_success, 1),
            ..p
        }
    } else {
        PerfCounters {
            requests_total: wadd(p.requests_total, 1),
            requests_error: wadd(p.requests_error, 1),
            ..p
        }
    }
}

/// Fresh counters, all zero; profiling as given.
pub fn new_counters(enabled: bool, alloc_profiling: bool) -> (p: PerfCounters)
    ensures
        p.enabled == enabled,
        p.alloc_profiling == alloc_profiling,
        p == zeroed(p),
        !p.epoll_busy_poll_supported,
        !p.epoll_busy_poll_enabled,
        p.epoll_busy_poll_usecs == 0,
        p.epoll_busy_poll_budget == 0,
        p.epoll_busy_poll_prefer == 0,
        p.epoll_busy_poll_set_errno == 0,
        p.epoll_busy_poll_get_errno == 0,
        p.webhook_queue_len == 0,
        p.webhook_dropped == 0,
        p.webhook_send_ok == 0,
        p.webhook_send_err == 0,
{
    let p = PerfCounters {
        enabled,
        alloc_profiling,
        requests_total: 0,
        requests_success: 0,
        requests_error: 0,
        active_connections: 0,
        cache_hits: 0,
        cache_misses: 0,
        bytes_received: 0,
        bytes_sent: 0,
        webhook_queue_len: 0,
        webhook_dropped: 0,
        webhook_send_ok: 0,
        webhook_send_err: 0,
        lb_accepted: 0,
        lb_handoff_ok: 0,
        lb_handoff_err: 0,
        lb_upstream_api1: 0,
        lb_upstream_api2: 0,
        recv_fd_total: 0,
        spin_read_hit: 0,
        spin_read_miss: 0,
        spin_read_attempts: 0,
        epoll_read_fallback: 0,
        partial_writes: 0,
        write_eagain: 0,
        recv_calls: 0,
        send_calls: 0,
        epoll_wait_calls: 0,
        epoll_wait_timeouts: 0,
        epoll_wait_errors: 0,
        epoll_wait_events: 0,
        epoll_wait_max_events: 0,
        epoll_busy_poll_supported: false,
        epoll_busy_poll_enabled: false,
        epoll_busy_poll_usecs: 0,
        epoll_busy_poll_budget: 0,
        epoll_busy_poll_prefer: 0,
        epoll_busy_poll_set_errno: 0,
        epoll_busy_poll_get_errno: 0,
        alloc_calls: 0,
        dealloc_calls: 0,
        realloc_calls: 0,
        alloc_bytes: 0,
        realloc_bytes: 0,
        stage_sum_us: [0u64; 19],
        stage_count_total: [0u64; 19],
        stage_max_us: [0u64; 19],
        stage_hist: [0u64; 798],
    };
    p
}

/// The counters that `reset` clears, set to zero; the profiling switches,
/// the busy-poll settings and the webhook counters kept.
pub open spec fn zeroed(p: PerfCounters) -> PerfCounters {
    PerfCounters {
        requests_total: 0,
        requests_success: 0,
        requests_error: 0,
        active_connections: 0,
        cache_hits: 0,
        cache_misses: 0,
        bytes_received: 0,
        bytes_sent: 0,
        lb_accepted: 0,
        lb_handoff_ok: 0,
        lb_handoff_err: 0,
        lb_upstream_api1: 0,
        lb_upstream_api2: 0,
        recv_fd_total: 0,
        spin_read_hit: 0,
        spin_read_miss: 0,
        spin_read_attempts: 0,
        epoll_read_fallback: 0,
        partial_writes: 0,
        write_eagain: 0,
        recv_calls: 0,
        send_calls: 0,
        epoll_wait_calls: 0,
        epoll_wait_timeouts: 0,
        epoll_wait_errors: 0,
        epoll_wait_events: 0,
        epoll_wait_max_events: 0,
        alloc_calls: 0,
        dealloc_calls: 0,
        realloc_calls: 0,
        alloc_bytes: 0,
        realloc_bytes: 0,
        stage_sum_us: spec_array_fill_for_copy_type(0u64),
        stage_count_total: spec_array_fill_for_copy_type(0u64),
        stage_max_us: spec_array_fill_for_copy_type(0u64),
        stage_hist: spec_array_fill_for_copy_type(0u64),
        ..p
    }
}

/// Whether profiling is on.
pub fn enabled(perf: &PerfCounters) -> (r: bool)
    ensures
        r == perf.enabled,
{
    perf.enabled
}

/// Clears every request, socket, epoll, allocation and stage counter.
pub fn reset(perf: &mut PerfCounters)
    ensures
        *final(perf) == zeroed(*old(perf)),
{
    perf.requests_total = 0;
    perf.requests_success = 0;
    perf.requests_error = 0;
    perf.active_connections = 0;
    perf.cache_hits = 0;
    perf.cache_misses = 0;
    perf.bytes_received = 0;
    perf.bytes_sent = 0;
    perf.lb_accepted = 0;
    perf.lb_handoff_ok = 0;
    perf.lb_handoff_err = 0;
    perf.lb_upstream_api1 = 0;
    perf.lb_upstream_api2 = 0;
    perf.recv_fd_total = 0;
    perf.spin_read_hit = 0;
    perf.spin_read_miss = 0;
    perf.spin_read_attempts = 0;
    perf.epoll_read_fallback = 0;
    perf.partial_writes = 0;
    perf.write_eagain = 0;
    perf.recv_calls = 0;
    perf.send_calls = 0;
    perf.epoll_wait_calls = 0;
    perf.epoll_wait_timeouts = 0;
    perf.epoll_wait_errors = 0;
    perf.epoll_wait_events = 0;
    perf.epoll_wait_max_events = 0;
    perf.alloc_calls = 0;
    perf.dealloc_calls = 0;
    perf.realloc_calls = 0;
    perf.alloc_bytes = 0;
    perf.realloc_bytes = 0;
    perf.stage_sum_us = [0u64; 19];
    perf.stage_count_total = [0u64; 19];
    perf.stage_max_us = [0u64; 19];
    perf.stage_hist = [0u64; 798];
}

/// A negative errno stored as zero.
pub open spec fn errno_u64(e: i32) -> u64 {
    if e < 0 {
        0
    } else {
        e as u64
    }
}

/// Records the outcome of configuring epoll busy polling.
pub fn set_epoll_busy_poll_result(
    perf: &mut PerfCounters,
    supported: bool,
    busy_poll_enabled: bool,
    usecs: u32,
    budget: u16,
    prefer: u8,
    set_errno: i32,
    get_errno: i32,
)
    ensures
        !old(perf).enabled ==> *final(perf) == *old(perf),
        old(perf).enabled ==> *final(perf) == (PerfCounters {
            epoll_busy_poll_supported: supported,
            epoll_busy_poll_enabled: busy_poll_enabled,
            epoll_busy_poll_usecs: usecs as u64,
            epoll_busy_poll_budget: budget as u64,
            epoll_busy_poll_prefer: prefer as u64,
            epoll_busy_poll_set_errno: errno_u64(set_errno),
            epoll_busy_poll_get_errno: errno_u64(get_errno),
            ..*old(perf)
        }),
{
    if !perf.enabled {
        return ;
    }
    perf.epoll_busy_poll_supported = supported;
    perf.epoll_busy_poll_enabled = busy_poll_enabled;
    perf.epoll_busy_poll_usecs = usecs as u64;
    perf.epoll_busy_poll_budget = budget as u64;
    perf.epoll_busy_poll_prefer = prefer as u64;
    perf.epoll_busy_poll_set_errno = if set_errno < 0 {
        0
    } else {
        set_errno as u64
    };
    perf.epoll_busy_poll_get_errno = if get_errno < 0 {
        0
    } else {
        get_errno as u64
    };
}

/// Raises `cell` to `value` when `value` is larger.
pub fn update_max(cell: &mut u64, value: u64)
    ensures
        *final(cell) == max_u64(*old(cell), value),
{
    if value > *cell {
        *cell = value;
    }
}

/// Counters after one `epoll_wait` that returned `nfds`, before its time is
/// sampled.
pub open spec fn with_epoll_wait(p: PerfCounters, nfds: i32) -> PerfCounters {
    let p1 = PerfCounters { epoll_wait_calls: wadd(p.epoll_wait_calls, 1), ..p };
    if nfds > 0 {
        PerfCounters {
            epoll_wait_events: wadd(p1.epoll_wait_events, nfds as u64),
            epoll_wait_max_events: max_u64(p1.epoll_wait_max_events, nfds as u64),
            ..p1
        }
    } else if nfds == 0 {
        PerfCounters { epoll_wait_timeouts: wadd(p1.epoll_wait_timeouts, 1), ..p1 }
    } else {
        PerfCounters { epoll_wait_errors: wadd(p1.epoll_wait_errors, 1), ..p1 }
    }
}

/// Records one `epoll_wait` call: its event count, or a timeout or an error,
/// and, when it was timed, its duration.
pub fn record_epoll_wait(perf: &mut PerfCounters, start: Option<Instant>, nfds: i32)
    ensures
        !old(perf).enabled ==> *final(perf) == *old(perf),
        old(perf).enabled && start.is_none() ==> *final(perf) == with_epoll_wait(
            *old(perf),
            nfds,
        ),
        old(perf).enabled && start.is_some() ==> exists|us: u64|
            *final(perf) == with_stage(with_epoll_wait(*old(perf), nfds), 17, us),
{
    if !perf.enabled {
        return ;
    }
    perf.epoll_wait_calls = perf.epoll_wait_calls.wrapping_add(1);
    if nfds > 0 {
        let events = nfds as u64;
        perf.epoll_wait_events = perf.epoll_wait_events.wrapping_add(events);
        update_max(&mut perf.epoll_wait_max_events, events);
    } else if nfds == 0 {
        perf.epoll_wait_timeouts = perf.epoll_wait_timeouts.wrapping_add(1);
    } else {
        perf.epoll_wait_errors = perf.epoll_wait_errors.wrapping_add(1);
    }
    assert(*perf == with_epoll_wait(*old(perf), nfds));
    record_stage(perf, STAGE_EPOLL_WAIT, start);
}

/// Records the time spent dispatching the events of one wakeup.
pub fn record_epoll_dispatch(perf: &mut PerfCounters, start: Option<Instant>)
    ensures
        start.is_none() ==> *final(perf) == *old(perf),
        start.is_some() ==> exists|us: u64| *final(perf) == with_stage(*old(perf), 18, us),
{
    record_stage(perf, STAGE_EPOLL_DISPATCH, start);
}

/// A start time for a stage, taken only while profiling is on.
pub fn stage_start(perf: &PerfCounters) -> (r: Option<Instant>)
    ensures
        r.is_some() == perf.enabled,
{
    if perf.enabled {
        Some(instant_now())
    } else {
        None
    }
}

/// Records the time since `start` for a stage; nothing when there is no start.
pub fn record_stage(perf: &mut PerfCounters, stage: usize, start: Option<Instant>)
    ensures
        start.is_none() ==> *final(perf) == *old(perf),
        start.is_some() ==> exists|us: u64|
            *final(perf) == with_stage(*old(perf), stage as int, us),
{
    match start {
        Some(s) => {
            let us = elapsed_us(&s);
            record_stage_us(perf, stage, us);
        },
        None => {},
    }
}

/// Records one sample of `us` microseconds for a stage.
pub fn record_stage_us(perf: &mut PerfCounters, stage: usize, us: u64)
    ensures
        *final(perf) == with_stage(*old(perf), stage as int, us),
{
    if !perf.enabled || stage >= STAGE_COUNT {
        return ;
    }
    perf.stage_sum_us[stage] = perf.stage_sum_us[stage].wrapping_add(us);
    perf.stage_count_total[stage] = perf.stage_count_total[stage].wrapping_add(1);
    let cur = perf.stage_max_us[stage];
    perf.stage_max_us[stage] = if us > cur {
        us
    } else {
        cur
    };
    record_stage_hist(perf, stage, us);
}

/// Counts one more sample in the histogram bucket of `us` for a stage.
pub fn record_stage_hist(perf: &mut PerfCounters, stage: usize, us: u64)
    requires
        stage < 19,
    ensures
        *final(perf) == (PerfCounters {
            stage_hist: spec_array_update(
                old(perf).stage_hist,
                stage * 42 + bucket_of(us),
                wadd(old(perf).stage_hist[stage * 42 + bucket_of(us)], 1),
            ),
            ..*old(perf)
        }),
{
    let mut idx: usize = 0;
    while idx < HIST_BUCKET_COUNT
        invariant
            idx <= 41,
            stage < 19,
            bucket_from(us, 0) == bucket_from(us, idx as int),
            *perf == *old(perf),
        decreases 42 - idx,
    {
        if us <= HIST_BUCKETS_US[idx] {
            let slot = stage * 42 + idx;
            perf.stage_hist[slot] = perf.stage_hist[slot].wrapping_add(1);
            return ;
        }
        idx = idx + 1;
    }
}

/// Records one finished request timed from `total_start`: counts it, as a
/// success or an error, and samples its total time. A request without a
/// start time is not counted.
pub fn record_request(perf: &mut PerfCounters, total_start: Option<Instant>, success: bool)
    ensures
        total_start.is_none() ==> *final(perf) == *old(perf),
        total_start.is_some() ==> exists|us: u64|
            *final(perf) == with_stage(with_request(*old(perf), success), 16, us),
{
    match total_start {
        Some(start) => {
            let us = elapsed_us(&start);
            perf.requests_total = perf.requests_total.wrapping_add(1);
            if success {
                perf.requests_success = perf.requests_success.wrapping_add(1);
            } else {
                perf.requests_error = perf.requests_error.wrapping_add(1);
            }
            assert(*perf == with_request(*old(perf), success));
            record_stage_us(perf, STAGE_REQUEST_TOTAL, us);
        },
        None => {},
    }
}

/// Records one finished request that took `us` microseconds.
pub fn record_request_us(perf: &mut PerfCounters, us: u64, success: bool)
    ensures
        !old(perf).enabled ==> *final(perf) == *old(perf),
        old(perf).enabled ==> *final(perf) == with_stage(with_request(*old(perf), success), 16, us),
{
    if !perf.enabled {
        return ;
    }
    perf.requests_total = perf.requests_total.wrapping_add(1);
    if success {
        perf.requests_success = perf.requests_success.wrapping_add(1);
    } else {
        perf.requests_error = perf.requests_error.wrapping_add(1);
    }
    record_stage_us(perf, STAGE_REQUEST_TOTAL, us);
}

/// Counts one more open connection.
pub fn connection_opened(perf: &mut PerfCounters)
    ensures
        !old(perf).enabled ==> *final(perf) == *old(perf),
        old(perf).enabled ==> *final(perf) == (PerfCounters {
            active_connections: wadd(old(perf).active_connections, 1),
            ..*old(perf)
        }),
{
    if perf.enabled {
        perf.active_connections = perf.active_connections.wrapping_add(1);
    }
}

/// Counts one connection fewer; the count never goes below zero.
pub fn connection_closed(perf: &mut PerfCounters)
    ensures
        !old(perf).enabled || old(perf).active_connections == 0 ==> *final(perf) == *old(perf),
        old(perf).enabled && old(perf).active_connections > 0 ==> *final(perf) == (PerfCounters {
            active_connections: (old(perf).active_connections - 1) as u64,
            ..*old(perf)
        }),
{
    if perf.enabled {
        match perf.active_connections.checked_sub(1) {
            Some(v) => {
                perf.active_connections = v;
            },
            None => {},
        }
    }
}

/// A connection counted as open; `release` counts it closed again.
pub struct ConnectionGuard;

impl ConnectionGuard {
    /// Counts the guarded connection as closed.
    pub fn release(self, perf: &mut PerfCounters)
        ensures
            !old(perf).enabled || old(perf).active_connections == 0 ==> *final(perf) == *old(
                perf,
            ),
            old(perf).enabled && old(perf).active_connections > 0 ==> *final(perf) == (
            PerfCounters { active_connections: (old(perf).active_connections - 1) as u64, ..*old(perf) }),
    {
        connection_closed(perf);
    }
}

/// Counts a new connection and hands back its guard, while profiling is on.
pub fn connection_guard(perf: &mut PerfCounters) -> (r: Option<ConnectionGuard>)
    ensures
        r.is_some() == old(perf).enabled,
        !old(perf).enabled ==> *final(perf) == *old(perf),
        old(perf).enabled ==> *final(perf) == (PerfCounters {
            active_connections: wadd(old(perf).active_connections, 1),
            ..*old(perf)
        }),
{
    if perf.enabled {
        connection_opened(perf);
        Some(ConnectionGuard)
    } else {
        None
    }
}

/// Adds `n` received bytes.
pub fn add_bytes_received(perf: &mut PerfCounters, n: usize)
    ensures
        !old(perf).enabled ==> *final(perf) == *old(perf),
        old(perf).enabled ==> *final(perf) == (PerfCounters {
            bytes_received: wadd(old(perf).bytes_received, n as u64),
            ..*old(perf)
        }),
{
    if perf.enabled {
        perf.bytes_received = perf.bytes_received.wrapping_add(n as u64);
    }
}

/// Adds `n` sent bytes.
pub fn add_bytes_sent(perf: &mut PerfCounters, n: usize)
    ensures
        !old(perf).enabled ==> *final(perf) == *old(perf),
        old(perf).enabled ==> *final(perf) == (PerfCounters {
            bytes_sent: wadd(old(perf).bytes_sent, n as u64),
            ..*old(perf)
        }),
{
    if perf.enabled {
        perf.bytes_sent = perf.bytes_sent.wrapping_add(n as u64);
    }
}

/// Counts a request answered by the fast path.
pub fn cache_hit(perf: &mut PerfCounters)
    ensures
        !old(perf).enabled ==> *final(perf) == *old(perf),
        old(perf).enabled ==> *final(perf) == (PerfCounters {
            cache_hits: wadd(old(perf).cache_hits, 1),
            ..*old(perf)
        }),
{
    if perf.enabled {
        perf.cache_hits = perf.cache_hits.wrapping_add(1);
    }
}

/// Counts a request that needed the full search.
pub fn cache_miss(perf: &mut PerfCounters)
    ensures
        !old(perf).enabled ==> *final(perf) == *old(perf),
        old(perf).enabled ==> *final(perf) == (PerfCounters {
            cache_misses: wadd(old(perf).cache_misses, 1),
            ..*old(perf)
        }),
{
    if perf.enabled {
        perf.cache_misses = perf.cache_misses.wrapping_add(1);
    }
}

/// Counts a connection accepted by the load balancer.
pub fn lb_accepted(perf: &mut PerfCounters)
    ensures
        !old(perf).enabled ==> *final(perf) == *old(perf),
        old(perf).enabled ==> *final(perf) == (PerfCounters {
            lb_accepted: wadd(old(perf).lb_accepted, 1),
            ..*old(perf)
        }),
{
    if perf.enabled {
        perf.lb_accepted = perf.lb_accepted.wrapping_add(1);
    }
}

/// Counts a hand-off to an upstream: a success to the first upstream or to
/// another one, or a failure.
pub fn lb_handoff(perf: &mut PerfCounters, ok: bool, upstream_idx: usize)
    ensures
        !old(perf).enabled ==> *final(perf) == *old(perf),
        old(perf).enabled && !ok ==> *final(perf) == (PerfCounters {
            lb_handoff_err: wadd(old(perf).lb_handoff_err, 1),
            ..*old(perf)
        }),
        old(perf).enabled && ok && upstream_idx == 0 ==> *final(perf) == (PerfCounters {
            lb_handoff_ok: wadd(old(perf).lb_handoff_ok, 1),
            lb_upstream_api1: wadd(old(perf).lb_upstream_api1, 1),
            ..*old(perf)
        }),
        old(perf).enabled && ok && upstream_idx != 0 ==> *final(perf) == (PerfCounters {
            lb_handoff_ok: wadd(old(perf).lb_handoff_ok, 1),
            lb_upstream_api2: wadd(old(perf).lb_upstream_api2, 1),
            ..*old(perf)
        }),
{
    if !perf.enabled {
        return ;
    }
    if ok {
        perf.lb_handoff_ok = perf.lb_handoff_ok.wrapping_add(1);
        if upstream_idx == 0 {
            perf.lb_upstream_api1 = perf.lb_upstream_api1.wrapping_add(1);
        } else {
            perf.lb_upstream_api2 = perf.lb_upstream_api2.wrapping_add(1);
        }
    } else {
        perf.lb_handoff_err = perf.lb_handoff_err.wrapping_add(1);
    }
}

/// Counts a descriptor received from the load balancer.
pub fn recv_fd_ok(perf: &mut PerfCounters)
    ensures
        !old(perf).enabled ==> *final(perf) == *old(perf),
        old(perf).enabled ==> *final(perf) == (PerfCounters {
            recv_fd_total: wadd(old(perf).recv_fd_total, 1),
            ..*old(perf)
        }),
{
    if perf.enabled {
        perf.recv_fd_total = perf.recv_fd_total.wrapping_add(1);
    }
}

/// Records a spin read: its attempts, and whether it found data.
pub fn spin_read_result(perf: &mut PerfCounters, hit: bool, attempts: u64)
    ensures
        !old(perf).enabled ==> *final(perf) == *old(perf),
        old(perf).enabled && hit ==> *final(perf) == (PerfCounters {
            spin_read_attempts: wadd(old(perf).spin_read_attempts, attempts),
            spin_read_hit: wadd(old(perf).spin_read_hit, 1),
            ..*old(perf)
        }),
        old(perf).enabled && !hit ==> *final(perf) == (PerfCounters {
            spin_read_attempts: wadd(old(perf).spin_read_attempts, attempts),
            spin_read_miss: wadd(old(perf).spin_read_miss, 1),
            ..*old(perf)
        }),
{
    if !perf.enabled {
        return ;
    }
    perf.spin_read_attempts = perf.spin_read_attempts.wrapping_add(attempts);
    if hit {
        perf.spin_read_hit = perf.spin_read_hit.wrapping_add(1);
    } else {
        perf.spin_read_miss = perf.spin_read_miss.wrapping_add(1);
    }
}

/// Counts a read that fell back to waiting on epoll.
pub fn epoll_read_fallback(perf: &mut PerfCounters)
    ensures
        !old(perf).enabled ==> *final(perf) == *old(perf),
        old(perf).enabled ==> *final(perf) == (PerfCounters {
            epoll_read_fallback: wadd(old(perf).epoll_read_fallback, 1),
            ..*old(perf)
        }),
{
    if perf.enabled {
        perf.epoll_read_fallback = perf.epoll_read_fallback.wrapping_add(1);
    }
}

/// Counts a `recv` call.
pub fn recv_call(perf: &mut PerfCounters)
    ensures
        !old(perf).enabled ==> *final(perf) == *old(perf),
        old(perf).enabled ==> *final(perf) == (PerfCounters {
            recv_calls: wadd(old(perf).recv_calls, 1),
            ..*old(perf)
        }),
{
    if perf.enabled {
        perf.recv_calls = perf.recv_calls.wrapping_add(1);
    }
}

/// Counts a `send` call.
pub fn send_call(perf: &mut PerfCounters)
    ensures
        !old(perf).enabled ==> *final(perf) == *old(perf),
        old(perf).enabled ==> *final(perf) == (PerfCounters {
            send_calls: wadd(old(perf).send_calls, 1),
            ..*old(perf)
        }),
{
    if perf.enabled {
        perf.send_calls = perf.send_calls.wrapping_add(1);
    }
}

/// Counts a write that sent only part of a response.
pub fn partial_write(perf: &mut PerfCounters)
    ensures
        !old(perf).enabled ==> *final(perf) == *old(perf),
        old(perf).enabled ==> *final(perf) == (PerfCounters {
            partial_writes: wadd(old(perf).partial_writes, 1),
            ..*old(perf)
        }),
{
    if perf.enabled {
        perf.partial_writes = perf.partial_writes.wrapping_add(1);
    }
}

/// Counts a write refused with `EAGAIN`.
pub fn write_eagain(perf: &mut PerfCounters)
    ensures
        !old(perf).enabled ==> *final(perf) == *old(perf),
        old(perf).enabled ==> *final(perf) == (PerfCounters {
            write_eagain: wadd(old(perf).write_eagain, 1),
            ..*old(perf)
        }),
{
    if perf.enabled {
        perf.write_eagain = perf.write_eagain.wrapping_add(1);
    }
}

/// An allocator wrapper whose calls are counted while allocation profiling
/// is on.
pub struct CountingAllocator<A>(pub A);

impl<A> CountingAllocator<A> {
    /// Counts an allocation of `size` bytes.
    pub fn count_alloc(&self, perf: &mut PerfCounters, size: usize)
        ensures
            !old(perf).alloc_profiling ==> *final(perf) == *old(perf),
            old(perf).alloc_profiling ==> *final(perf) == (PerfCounters {
                alloc_calls: wadd(old(perf).alloc_calls, 1),
                alloc_bytes: wadd(old(perf).alloc_bytes, size as u64),
                ..*old(perf)
            }),
    {
        if perf.alloc_profiling {
            perf.alloc_calls = perf.alloc_calls.wrapping_add(1);
            perf.alloc_bytes = perf.alloc_bytes.wrapping_add(size as u64);
        }
    }

    /// Counts a deallocation.
    pub fn count_dealloc(&self, perf: &mut PerfCounters)
        ensures
            !old(perf).alloc_profiling ==> *final(perf) == *old(perf),
            old(perf).alloc_profiling ==> *final(perf) == (PerfCounters {
                dealloc_calls: wadd(old(perf).dealloc_calls, 1),
                ..*old(perf)
            }),
    {
        if perf.alloc_profiling {
            perf.dealloc_calls = perf.dealloc_calls.wrapping_add(1);
        }
    }

    /// Counts a reallocation to `new_size` bytes.
    pub fn count_realloc(&self, perf: &mut PerfCounters, new_size: usize)
        ensures
            !old(perf).alloc_profiling ==> *final(perf) == *old(perf),
            old(perf).alloc_profiling ==> *final(perf) == (PerfCounters {
                realloc_calls: wadd(old(perf).realloc_calls, 1),
                realloc_bytes: wadd(old(perf).realloc_bytes, new_size as u64),
                ..*old(perf)
            }),
    {
        if perf.alloc_profiling {
            perf.realloc_calls = perf.realloc_calls.wrapping_add(1);
            perf.realloc_bytes = perf.realloc_bytes.wrapping_add(new_size as u64);
        }
    }
}

/// Sum of the first `n` buckets of a histogram.
pub open spec fn hist_prefix(h: Seq<u64>, n: int) -> int
    decreases n,
{
    if n <= 0 {
        0
    } else {
        hist_prefix(h, n - 1) + h[n - 1]
    }
}

/// The first bucket at or after `i` by which `target` samples have been seen.
pub open spec fn first_reaching(h: Seq<u64>, target: int, i: int) -> int
    decreases 42 - i,
{
    if i >= 42 {
        42
    } else if hist_prefix(h, i + 1) >= target {
        i
    } else {
        first_reaching(h, target, i + 1)
    }
}

/// The upper bound of the bucket holding the `permille`-th per mille sample
/// (rounded up), or 0 for an empty histogram.
pub open spec fn percentile_spec(h: Seq<u64>, permille: int) -> u64 {
    let total = hist_prefix(h, 42);
    if total == 0 {
        0
    } else {
        let target = (total * permille + 999) / 1000;
        let i = first_reaching(h, target, 0);
        if i < 42 {
            HIST_BUCKETS_US[i]
        } else {
            HIST_BUCKETS_US[41]
        }
    }
}

proof fn lemma_hist_prefix_bound(h: Seq<u64>, n: int)
    requires
        0 <= n <= h.len(),
    ensures
        0 <= hist_prefix(h, n) <= n * 0xffff_ffff_ffff_ffff,
    decreases n,
{
    if n > 0 {
        lemma_hist_prefix_bound(h, n - 1);
    }
}

proof fn lemma_hist_prefix_mono(h: Seq<u64>, a: int, b: int)
    requires
        0 <= a <= b <= h.len(),
    ensures
        hist_prefix(h, a) <= hist_prefix(h, b),
    decreases b - a,
{
    if a < b {
        lemma_hist_prefix_mono(h, a, b - 1);
    }
}

/// Upper bound of the bucket where the given per mille of the samples is
/// reached; 0 when the histogram is empty.
pub fn percentile_from_hist(hist: &[u64; 42], permille: u64) -> (r: u64)
    ensures
        r == percentile_spec(hist@, permille as int),
{
    let mut total: u128 = 0;
    let mut i: usize = 0;
    while i < 42
        invariant
            i <= 42,
            total == hist_prefix(hist@, i as int),
            total <= i * 0xffff_ffff_ffff_ffff,
        decreases 42 - i,
    {
        total = total + hist[i] as u128;
        i = i + 1;
    }
    if total == 0 {
        return 0;
    }
    if permille > 1000 {
        proof {
            assert forall|k: int| 0 < k <= 42 implies #[trigger] hist_prefix(hist@, k) < (total
                * permille + 999) / 1000 by {
                lemma_hist_prefix_mono(hist@, k, 42);
                assert(total * permille >= total * 1001) by (nonlinear_arith)
                    requires
                        permille > 1000,
                        total > 0,
                ;
            }
            lemma_first_reaching_none(hist@, (total * permille + 999) / 1000, 0);
        }
        return HIST_BUCKETS_US[41];
    }
    assert(total * permille <= 42 * 0xffff_ffff_ffff_ffff * 1000) by (nonlinear_arith)
        requires
            total <= 42 * 0xffff_ffff_ffff_ffff,
            permille <= 1000,
    ;
    let target: u128 = (total * permille as u128 + 999) / 1000;
    let mut seen: u128 = 0;
    let mut idx: usize = 0;
    while idx < 42
        invariant
            idx <= 42,
            seen == hist_prefix(hist@, idx as int),
            seen <= idx * 0xffff_ffff_ffff_ffff,
            target == (total * permille + 999) / 1000,
            total == hist_prefix(hist@, 42),
            total > 0,
            first_reaching(hist@, target as int, 0) == first_reaching(
                hist@,
                target as int,
                idx as int,
            ),
        decreases 42 - idx,
    {
        seen = seen + hist[idx] as u128;
        assert(seen == hist_prefix(hist@, idx + 1));
        if seen >= target {
            assert(first_reaching(hist@, target as int, idx as int) == idx);
            return HIST_BUCKETS_US[idx];
        }
        idx = idx + 1;
    }
    HIST_BUCKETS_US[41]
}

proof fn lemma_first_reaching_none(h: Seq<u64>, target: int, i: int)
    requires
        0 <= i <= 42,
        forall|k: int| i < k <= 42 ==> #[trigger] hist_prefix(h, k) < target,
    ensures
        first_reaching(h, target, i) == 42,
    decreases 42 - i,
{
    if i < 42 {
        lemma_first_reaching_none(h, target, i + 1);
    }
}

/// The last bucket that holds a sample, from the top.
pub open spec fn last_nonempty(h: Seq<u64>, n: int) -> int
    decreases n,
{
    if n <= 0 {
        -1
    } else if h[n - 1] > 0 {
        n - 1
    } else {
        last_nonempty(h, n - 1)
    }
}

/// Upper bound of the highest bucket that holds a sample; 0 when empty.
pub fn max_from_hist(hist: &[u64; 42]) -> (r: u64)
    ensures
        last_nonempty(hist@, 42) < 0 ==> r == 0,
        last_nonempty(hist@, 42) >= 0 ==> r == HIST_BUCKETS_US[last_nonempty(hist@, 42)],
{
    let mut idx: usize = 42;
    while idx > 0
        invariant
            idx <= 42,
            last_nonempty(hist@, 42) == last_nonempty(hist@, idx as int),
        decreases idx,
    {
        if hist[idx - 1] > 0 {
            return HIST_BUCKETS_US[idx - 1];
        }
        idx = idx - 1;
    }
    0
}

/// Integer mean; 0 when there are no samples.
pub fn avg(sum: u64, count: u64) -> (r: u64)
    ensures
        count == 0 ==> r == 0,
        count > 0 ==> r == sum / count,
{
    if count == 0 {
        0
    } else {
        sum / count
    }
}

/// Resident bytes per request served so far; 0 before the first request.
pub fn memory_per_request_bytes(rss_kb: u64, requests: u64) -> (r: u64)
    requires
        rss_kb * 1024 <= u64::MAX,
    ensures
        requests == 0 ==> r == 0,
        requests > 0 ==> r == (rss_kb * 1024) / (requests as int),
{
    if requests == 0 {
        0
    } else {
        (rss_kb * 1024) / requests
    }
}

/// The histogram of one stage, out of the flattened table.
pub open spec fn stage_hist_of(p: PerfCounters, stage: int) -> Seq<u64> {
    p.stage_hist@.subrange(stage * 42, stage * 42 + 42)
}

/// Copies the histogram of one stage.
pub fn stage_hist_copy(perf: &PerfCounters, stage: usize) -> (h: [u64; 42])
    requires
        stage < 19,
    ensures
        h@ == stage_hist_of(*perf, stage as int),
{
    let mut h = [0u64; 42];
    let mut b: usize = 0;
    while b < 42
        invariant
            stage < 19,
            b <= 42,
            forall|j: int| 0 <= j < b ==> h@[j] == perf.stage_hist@[stage * 42 + j],
        decreases 42 - b,
    {
        h[b] = perf.stage_hist[stage * 42 + b];
        b = b + 1;
    }
    assert(h@ =~= stage_hist_of(*perf, stage as int));
    h
}

/// A percentile of one stage's histogram since the last reset; 0 for an
/// unknown stage.
pub fn percentile_for_stage(perf: &PerfCounters, stage: usize, permille: u64) -> (r: u64)
    ensures
        stage >= 19 ==> r == 0,
        stage < 19 ==> r == percentile_spec(stage_hist_of(*perf, stage as int), permille as int),
{
    if stage >= STAGE_COUNT {
        return 0;
    }
    let h = stage_hist_copy(perf, stage);
    percentile_from_hist(&h, permille)
}

/// Counter values seen at the previous snapshot, from which the next one
/// computes its window.
pub struct SnapshotState {
    pub last_rss_kb: u64,
    pub prev_requests: u64,
    pub prev_success: u64,
    pub prev_error: u64,
    pub prev_stage_counts: [u64; 19],
    pub prev_stage_sums: [u64; 19],
    pub prev_stage_hist: [u64; 798],
    pub prev_alloc_calls: u64,
    pub prev_alloc_bytes: u64,
    pub prev_realloc_calls: u64,
    pub prev_realloc_bytes: u64,
    pub prev_epoll_wait_calls: u64,
    pub prev_epoll_wait_timeouts: u64,
    pub prev_epoll_wait_errors: u64,
    pub prev_epoll_wait_events: u64,
}

impl SnapshotState {
    /// A state with nothing seen yet and the given resident size.
    pub fn new(rss_kb: u64) -> (s: SnapshotState)
        ensures
            s.last_rss_kb == rss_kb,
            s.prev_requests == 0 && s.prev_success == 0 && s.prev_error == 0,
            forall|i: int| 0 <= i < 19 ==> s.prev_stage_counts[i] == 0 && s.prev_stage_sums[i] == 0,
            forall|i: int| 0 <= i < 798 ==> s.prev_stage_hist[i] == 0,
            s.prev_alloc_calls == 0 && s.prev_alloc_bytes == 0,
            s.prev_realloc_calls == 0 && s.prev_realloc_bytes == 0,
            s.prev_epoll_wait_calls == 0 && s.prev_epoll_wait_timeouts == 0,
            s.prev_epoll_wait_errors == 0 && s.prev_epoll_wait_events == 0,
    {
        SnapshotState {
            last_rss_kb: rss_kb,
            prev_requests: 0,
            prev_success: 0,
            prev_error: 0,
            prev_stage_counts: [0u64; 19],
            prev_stage_sums: [0u64; 19],
            prev_stage_hist: [0u64; 798],
            prev_alloc_calls: 0,
            prev_alloc_bytes: 0,
            prev_realloc_calls: 0,
            prev_realloc_bytes: 0,
            prev_epoll_wait_calls: 0,
            prev_epoll_wait_timeouts: 0,
            prev_epoll_wait_errors: 0,
            prev_epoll_wait_events: 0,
        }
    }
}

/// `a - b`, or 0 when `b` is larger.
pub open spec fn sat_sub(a: u64, b: u64) -> u64 {
    if a >= b {
        (a - b) as u64
    } else {
        0
    }
}

/// The figures of one stage over a snapshot.
pub struct StageStats {
    pub stage: usize,
    pub count: u64,
    pub total_us: u64,
    pub avg_us: u64,
    pub p50_us: u64,
    pub p95_us: u64,
    pub p99_us: u64,
    pub p999_us: u64,
    pub max_us: u64,
}

/// What a stage's figures are, from its count, sum, histogram and maximum.
pub open spec fn stage_stats_of(
    stage: int,
    count: u64,
    sum: u64,
    hist: Seq<u64>,
    max_us: u64,
    st: StageStats,
) -> bool {
    &&& st.stage == stage
    &&& st.count == count
    &&& st.total_us == sum
    &&& st.avg_us == (if count == 0 {
        0
    } else {
        sum / count
    })
    &&& st.p50_us == percentile_spec(hist, 500)
    &&& st.p95_us == percentile_spec(hist, 950)
    &&& st.p99_us == percentile_spec(hist, 990)
    &&& st.p999_us == percentile_spec(hist, 999)
    &&& st.max_us == max_us
}

/// The histogram of a stage since the previous snapshot, bucket by bucket.
pub open spec fn window_hist(p: PerfCounters, s: SnapshotState, stage: int) -> Seq<u64> {
    Seq::new(42, |b: int| sat_sub(p.stage_hist[stage * 42 + b], s.prev_stage_hist[stage * 42 + b]))
}

fn stage_window_hist(perf: &PerfCounters, state: &SnapshotState, stage: usize) -> (h: [u64; 42])
    requires
        stage < 19,
    ensures
        h@ == window_hist(*perf, *state, stage as int),
{
    let mut h = [0u64; 42];
    let mut b: usize = 0;
    while b < 42
        invariant
            stage < 19,
            b <= 42,
            forall|j: int|
                0 <= j < b ==> h@[j] == sat_sub(
                    perf.stage_hist[stage * 42 + j],
                    state.prev_stage_hist[stage * 42 + j],
                ),
        decreases 42 - b,
    {
        let slot = stage * 42 + b;
        h[b] = perf.stage_hist[slot].saturating_sub(state.prev_stage_hist[slot]);
        b = b + 1;
    }
    assert(h@ =~= window_hist(*perf, *state, stage as int));
    h
}

/// Figures for every stage: since the last reset, or, for a window, since the
/// previous snapshot, whose stage counters are then moved forward.
pub fn stage_stats(perf: &PerfCounters, window: bool, state: &mut SnapshotState) -> (r: Vec<
    StageStats,
>)
    ensures
        r.len() == 19,
        !window ==> *final(state) == *old(state),
        !window ==> forall|i: int|
            0 <= i < 19 ==> stage_stats_of(
                i,
                perf.stage_count_total[i],
                perf.stage_sum_us[i],
                stage_hist_of(*perf, i),
                perf.stage_max_us[i],
                #[trigger] r[i],
            ),
        window ==> forall|i: int|
            0 <= i < 19 ==> stage_stats_of(
                i,
                sat_sub(perf.stage_count_total[i], old(state).prev_stage_counts[i]),
                sat_sub(perf.stage_sum_us[i], old(state).prev_stage_sums[i]),
                window_hist(*perf, *old(state), i),
                max_of_hist(window_hist(*perf, *old(state), i)),
                #[trigger] r[i],
            ),
        window ==> *final(state) == (SnapshotState {
            prev_stage_counts: perf.stage_count_total,
            prev_stage_sums: perf.stage_sum_us,
            prev_stage_hist: perf.stage_hist,
            ..*old(state)
        }),
{
    let mut out: Vec<StageStats> = Vec::new();
    let ghost old_state = *state;
    let mut stage: usize = 0;
    while stage < 19
        invariant
            stage <= 19,
            out.len() == stage,
            !window ==> *state == old_state,
            window ==> *state == (SnapshotState {
                prev_stage_counts: state.prev_stage_counts,
                prev_stage_sums: state.prev_stage_sums,
                prev_stage_hist: state.prev_stage_hist,
                ..old_state
            }),
            window ==> forall|i: int|
                stage <= i < 19 ==> state.prev_stage_counts[i] == old_state.prev_stage_counts[i]
                    && state.prev_stage_sums[i] == old_state.prev_stage_sums[i],
            window ==> forall|i: int|
                0 <= i < stage ==> state.prev_stage_counts[i] == perf.stage_count_total[i]
                    && state.prev_stage_sums[i] == perf.stage_sum_us[i],
            window ==> forall|k: int|
                stage * 42 <= k < 798 ==> state.prev_stage_hist[k] == old_state.prev_stage_hist[k],
            window ==> forall|k: int|
                0 <= k < stage * 42 ==> state.prev_stage_hist[k] == perf.stage_hist[k],
            !window ==> forall|i: int|
                0 <= i < stage ==> stage_stats_of(
                    i,
                    perf.stage_count_total[i],
                    perf.stage_sum_us[i],
                    stage_hist_of(*perf, i),
                    perf.stage_max_us[i],
                    #[trigger] out@[i],
                ),
            window ==> forall|i: int|
                0 <= i < stage ==> stage_stats_of(
                    i,
                    sat_sub(perf.stage_count_total[i], old_state.prev_stage_counts[i]),
                    sat_sub(perf.stage_sum_us[i], old_state.prev_stage_sums[i]),
                    window_hist(*perf, old_state, i),
                    max_of_hist(window_hist(*perf, old_state, i)),
                    #[trigger] out@[i],
                ),
        decreases 19 - stage,
    {
        let count = perf.stage_count_total[stage];
        let sum = perf.stage_sum_us[stage];
        if window {
            assert(window_hist(*perf, *state, stage as int) =~= window_hist(
                *perf,
                old_state,
                stage as int,
            ));
            let h = stage_window_hist(perf, state, stage);
            let dc = count.saturating_sub(state.prev_stage_counts[stage]);
            let ds = sum.saturating_sub(state.prev_stage_sums[stage]);
            let mx = max_from_hist(&h);
            let st = StageStats {
                stage,
                count: dc,
                total_us: ds,
                avg_us: avg(ds, dc),
                p50_us: percentile_from_hist(&h, 500),
                p95_us: percentile_from_hist(&h, 950),
                p99_us: percentile_from_hist(&h, 990),
                p999_us: percentile_from_hist(&h, 999),
                max_us: mx,
            };
            state.prev_stage_counts[stage] = count;
            state.prev_stage_sums[stage] = sum;
            let ghost before = *state;
            let mut b: usize = 0;
            while b < 42
                invariant
                    stage < 19,
                    b <= 42,
                    *state == (SnapshotState { prev_stage_hist: state.prev_stage_hist, ..before }),
                    forall|k: int|
                        (stage + 1) * 42 <= k < 798 ==> state.prev_stage_hist[k]
                            == old_state.prev_stage_hist[k],
                    forall|k: int|
                        stage * 42 + b <= k < (stage + 1) * 42 ==> state.prev_stage_hist[k]
                            == old_state.prev_stage_hist[k],
                    forall|k: int|
                        0 <= k < stage * 42 + b ==> state.prev_stage_hist[k] == perf.stage_hist[k],
                decreases 42 - b,
            {
                state.prev_stage_hist[stage * 42 + b] = perf.stage_hist[stage * 42 + b];
                b = b + 1;
            }
            out.push(st);
        } else {
            let h = stage_hist_copy(perf, stage);
            let st = StageStats {
                stage,
                count,
                total_us: sum,
                avg_us: avg(sum, count),
                p50_us: percentile_from_hist(&h, 500),
                p95_us: percentile_from_hist(&h, 950),
                p99_us: percentile_from_hist(&h, 990),
                p999_us: percentile_from_hist(&h, 999),
                max_us: perf.stage_max_us[stage],
            };
            out.push(st);
        }
        stage = stage + 1;
    }
    proof {
        if window {
            assert(state.prev_stage_counts =~= perf.stage_count_total);
            assert(state.prev_stage_sums =~= perf.stage_sum_us);
            assert(state.prev_stage_hist =~= perf.stage_hist);
        }
    }
    out
}

/// Upper bound of the highest bucket holding a sample; 0 when empty.
pub open spec fn max_of_hist(h: Seq<u64>) -> u64 {
    if last_nonempty(h, 42) < 0 {
        0
    } else {
        HIST_BUCKETS_US[last_nonempty(h, 42)]
    }
}

/// The integer figures of one snapshot; rates and percentages are derived
/// from them by the reporter.
pub struct SnapshotCounts {
    pub requests: u64,
    pub requests_success: u64,
    pub requests_error: u64,
    pub window_requests: u64,
    pub window_success: u64,
    pub window_error: u64,
    pub rss_kb: u64,
    pub memory_growth_kb: u64,
    pub rss_per_request_bytes: u64,
    pub window_alloc_calls: u64,
    pub window_alloc_bytes: u64,
    pub window_realloc_calls: u64,
    pub window_realloc_bytes: u64,
    pub window_epoll_wait_calls: u64,
    pub window_epoll_wait_timeouts: u64,
    pub window_epoll_wait_errors: u64,
    pub window_epoll_wait_events: u64,
    pub events_per_wakeup: u64,
    pub window_events_per_wakeup: u64,
    pub stages_cumulative: Vec<StageStats>,
    pub stages_window: Vec<StageStats>,
}

/// Integer mean, 0 without samples.
pub open spec fn avg_spec(sum: u64, count: u64) -> u64 {
    if count == 0 {
        0
    } else {
        (sum / count) as u64
    }
}

/// Computes a snapshot from the counters and the previous snapshot, and moves
/// the previous-snapshot values forward to the current counters.
pub fn build_snapshot(perf: &PerfCounters, state: &mut SnapshotState, rss_kb: u64) -> (r:
    SnapshotCounts)
    requires
        rss_kb * 1024 <= u64::MAX,
    ensures
        r.requests == perf.requests_total,
        r.requests_success == perf.requests_success,
        r.requests_error == perf.requests_error,
        r.window_requests == sat_sub(perf.requests_total, old(state).prev_requests),
        r.window_success == sat_sub(perf.requests_success, old(state).prev_success),
        r.window_error == sat_sub(perf.requests_error, old(state).prev_error),
        r.rss_kb == rss_kb,
        r.memory_growth_kb == sat_sub(rss_kb, old(state).last_rss_kb),
        r.rss_per_request_bytes == (if perf.requests_total == 0 {
            0
        } else {
            (rss_kb * 1024) / (perf.requests_total as int)
        }),
        r.window_alloc_calls == sat_sub(perf.alloc_calls, old(state).prev_alloc_calls),
        r.window_alloc_bytes == sat_sub(perf.alloc_bytes, old(state).prev_alloc_bytes),
        r.window_realloc_calls == sat_sub(perf.realloc_calls, old(state).prev_realloc_calls),
        r.window_realloc_bytes == sat_sub(perf.realloc_bytes, old(state).prev_realloc_bytes),
        r.window_epoll_wait_calls == sat_sub(
            perf.epoll_wait_calls,
            old(state).prev_epoll_wait_calls,
        ),
        r.window_epoll_wait_timeouts == sat_sub(
            perf.epoll_wait_timeouts,
            old(state).prev_epoll_wait_timeouts,
        ),
        r.window_epoll_wait_errors == sat_sub(
            perf.epoll_wait_errors,
            old(state).prev_epoll_wait_errors,
        ),
        r.window_epoll_wait_events == sat_sub(
            perf.epoll_wait_events,
            old(state).prev_epoll_wait_events,
        ),
        r.events_per_wakeup == avg_spec(
            perf.epoll_wait_events,
            sat_sub(perf.epoll_wait_calls, perf.epoll_wait_timeouts),
        ),
        r.window_events_per_wakeup == avg_spec(
            r.window_epoll_wait_events,
            sat_sub(r.window_epoll_wait_calls, r.window_epoll_wait_timeouts),
        ),
        r.stages_cumulative.len() == 19,
        r.stages_window.len() == 19,
        forall|i: int|
            0 <= i < 19 ==> stage_stats_of(
                i,
                perf.stage_count_total[i],
                perf.stage_sum_us[i],
                stage_hist_of(*perf, i),
                perf.stage_max_us[i],
                #[trigger] r.stages_cumulative[i],
            ),
        forall|i: int|
            0 <= i < 19 ==> stage_stats_of(
                i,
                sat_sub(perf.stage_count_total[i], old(state).prev_stage_counts[i]),
                sat_sub(perf.stage_sum_us[i], old(state).prev_stage_sums[i]),
                window_hist(*perf, *old(state), i),
                max_of_hist(window_hist(*perf, *old(state), i)),
                #[trigger] r.stages_window[i],
            ),
        *final(state) == (SnapshotState {
            last_rss_kb: rss_kb,
            prev_requests: perf.requests_total,
            prev_success: perf.requests_success,
            prev_error: perf.requests_error,
            prev_stage_counts: perf.stage_count_total,
            prev_stage_sums: perf.stage_sum_us,
            prev_stage_hist: perf.stage_hist,
            prev_alloc_calls: perf.alloc_calls,
            prev_alloc_bytes: perf.alloc_bytes,
            prev_realloc_calls: perf.realloc_calls,
            prev_realloc_bytes: perf.realloc_bytes,
            prev_epoll_wait_calls: perf.epoll_wait_calls,
            prev_epoll_wait_timeouts: perf.epoll_wait_timeouts,
            prev_epoll_wait_errors: perf.epoll_wait_errors,
            prev_epoll_wait_events: perf.epoll_wait_events,
        }),
{
    let window_requests = perf.requests_total.saturating_sub(state.prev_requests);
    let window_success = perf.requests_success.saturating_sub(state.prev_success);
    let window_error = perf.requests_error.saturating_sub(state.prev_error);
    state.prev_requests = perf.requests_total;
    state.prev_success = perf.requests_success;
    state.prev_error = perf.requests_error;
    let memory_growth_kb = rss_kb.saturating_sub(state.last_rss_kb);
    state.last_rss_kb = rss_kb;
    let stages_cumulative = stage_stats(perf, false, state);
    let stages_window = stage_stats(perf, true, state);
    let window_alloc_calls = perf.alloc_calls.saturating_sub(state.prev_alloc_calls);
    let window_alloc_bytes = perf.alloc_bytes.saturating_sub(state.prev_alloc_bytes);
    let window_realloc_calls = perf.realloc_calls.saturating_sub(state.prev_realloc_calls);
    let window_realloc_bytes = perf.realloc_bytes.saturating_sub(state.prev_realloc_bytes);
    state.prev_alloc_calls = perf.alloc_calls;
    state.prev_alloc_bytes = perf.alloc_bytes;
    state.prev_realloc_calls = perf.realloc_calls;
    state.prev_realloc_bytes = perf.realloc_bytes;
    let window_epoll_wait_calls = perf.epoll_wait_calls.saturating_sub(
        state.prev_epoll_wait_calls,
    );
    let window_epoll_wait_timeouts = perf.epoll_wait_timeouts.saturating_sub(
        state.prev_epoll_wait_timeouts,
    );
    let window_epoll_wait_errors = perf.epoll_wait_errors.saturating_sub(
        state.prev_epoll_wait_errors,
    );
    let window_epoll_wait_events = perf.epoll_wait_events.saturating_sub(
        state.prev_epoll_wait_events,
    );
    state.prev_epoll_wait_calls = perf.epoll_wait_calls;
    state.prev_epoll_wait_timeouts = perf.epoll_wait_timeouts;
    state.prev_epoll_wait_errors = perf.epoll_wait_errors;
    state.prev_epoll_wait_events = perf.epoll_wait_events;
    let events_per_wakeup = avg(
        perf.epoll_wait_events,
        perf.epoll_wait_calls.saturating_sub(perf.epoll_wait_timeouts),
    );
    let window_events_per_wakeup = avg(
        window_epoll_wait_events,
        window_epoll_wait_calls.saturating_sub(window_epoll_wait_timeouts),
    );
    SnapshotCounts {
        requests: perf.requests_total,
        requests_success: perf.requests_success,
        requests_error: perf.requests_error,
        window_requests,
        window_success,
        window_error,
        rss_kb,
        memory_growth_kb,
        rss_per_request_bytes: memory_per_request_bytes(rss_kb, perf.requests_total),
        window_alloc_calls,
        window_alloc_bytes,
        window_realloc_calls,
        window_realloc_bytes,
        window_epoll_wait_calls,
        window_epoll_wait_timeouts,
        window_epoll_wait_errors,
        window_epoll_wait_events,
        events_per_wakeup,
        window_events_per_wakeup,
        stages_cumulative,
        stages_window,
    }
}

/// ASCII whitespace as `split_whitespace` sees it in `/proc` text.
pub open spec fn is_ws(c: u8) -> bool {
    c == 32 || (9 <= c && c <= 13)
}

/// Index of the first non-whitespace byte at or after `i`.
pub open spec fn skip_ws_from(s: Seq<u8>, i: int) -> int
    decreases s.len() - i,
{
    if i >= s.len() {
        s.len() as int
    } else if is_ws(s[i]) {
        skip_ws_from(s, i + 1)
    } else {
        i
    }
}

/// Index of the first whitespace byte at or after `i`.
pub open spec fn token_end(s: Seq<u8>, i: int) -> int
    decreases s.len() - i,
{
    if i >= s.len() {
        s.len() as int
    } else if is_ws(s[i]) {
        i
    } else {
        token_end(s, i + 1)
    }
}

/// The first whitespace-separated word of `s` read as an unsigned number
/// (an optional `+`, then decimal digits, at most `u64::MAX`); 0 when it is
/// missing or is not such a number.
pub open spec fn parse_kb_spec(s: Seq<u8>) -> u64 {
    let a = skip_ws_from(s, 0);
    let b = token_end(s, a);
    let d = if a < b && s[a] == 43 {
        a + 1
    } else {
        a
    };
    let digits = s.subrange(d, b);
    if d < b && all_digits(digits) && digits_val(digits) <= u64::MAX {
        digits_val(digits) as u64
    } else {
        0
    }
}

/// The number at the start of a `/proc/self/status` value such as
/// `  123456 kB`.
pub fn parse_kb(s: &[u8]) -> (r: u64)
    ensures
        r == parse_kb_spec(s@),
{
    let n = s.len();
    let mut a: usize = 0;
    while a < n && (s[a] == 32 || (9 <= s[a] && s[a] <= 13))
        invariant
            a <= n == s@.len(),
            skip_ws_from(s@, 0) == skip_ws_from(s@, a as int),
        decreases n - a,
    {
        a = a + 1;
    }
    let mut b: usize = a;
    while b < n && !(s[b] == 32 || (9 <= s[b] && s[b] <= 13))
        invariant
            a <= b <= n == s@.len(),
            token_end(s@, a as int) == token_end(s@, b as int),
        decreases n - b,
    {
        b = b + 1;
    }
    let d: usize = if a < b && s[a] == 43 {
        a + 1
    } else {
        a
    };
    if d >= b {
        return 0;
    }
    match parse_u64_digits(s, d, b) {
        Some(v) => v,
        None => 0,
    }
}

/// The latency bottlenecks a snapshot reports: the request p99 above
/// `limit_us`, and the write p99 above half of a nonzero request p99.
pub fn latency_bottlenecks(request_p99: u64, write_p99: u64, limit_us: u64) -> (r: (bool, bool))
    ensures
        r.0 == (request_p99 > limit_us),
        r.1 == (write_p99 > request_p99 / 2 && request_p99 > 0),
{
    (request_p99 > limit_us, write_p99 > request_p99 / 2 && request_p99 > 0)
}

} // verus!
