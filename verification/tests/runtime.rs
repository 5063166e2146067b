use fraud_detector::balancer::{failover_order, pick_upstream};
use fraud_detector::config::{LbConfig, ServerConfig, API1_SOCKET, API2_SOCKET, INDEX_PATH};
use fraud_detector::perf::{
    add_bytes_sent, avg, build_snapshot, cache_hit, connection_closed, connection_guard,
    enabled, lb_handoff, max_from_hist, memory_per_request_bytes, new_counters, parse_kb,
    percentile_for_stage, percentile_from_hist, record_epoll_wait, record_request_us,
    record_stage_us, reset, set_epoll_busy_poll_result, spin_read_result, stage_stats,
    update_max, SnapshotState, STAGE_HTTP_PARSE, STAGE_REQUEST_TOTAL,
};
use fraud_detector::tools::extract_request_raw;

#[test]
fn stage_samples_land_in_their_bucket() {
    let mut p = new_counters(true, false);
    record_stage_us(&mut p, STAGE_HTTP_PARSE, 6);
    record_stage_us(&mut p, STAGE_HTTP_PARSE, 120);
    assert_eq!(p.stage_count_total[STAGE_HTTP_PARSE], 2);
    assert_eq!(p.stage_sum_us[STAGE_HTTP_PARSE], 126);
    assert_eq!(p.stage_max_us[STAGE_HTTP_PARSE], 120);
    assert_eq!(p.stage_hist[STAGE_HTTP_PARSE * 42 + 5], 1); // 6us -> bucket "7"
    assert_eq!(p.stage_hist[STAGE_HTTP_PARSE * 42 + 16], 1); // 120us -> bucket "125"
    record_stage_us(&mut p, 99, 5);
    assert_eq!(p.stage_count_total.iter().sum::<u64>(), 2);
    assert_eq!(percentile_for_stage(&p, STAGE_HTTP_PARSE, 500), 7);
    assert_eq!(percentile_for_stage(&p, STAGE_HTTP_PARSE, 990), 125);
    assert_eq!(percentile_for_stage(&p, 99, 500), 0);
}

#[test]
fn disabled_counters_stay_put() {
    let mut p = new_counters(false, false);
    record_stage_us(&mut p, STAGE_HTTP_PARSE, 6);
    cache_hit(&mut p);
    record_request_us(&mut p, 10, true);
    assert!(!enabled(&p));
    assert_eq!(p.cache_hits, 0);
    assert_eq!(p.requests_total, 0);
    assert_eq!(p.stage_count_total[STAGE_HTTP_PARSE], 0);
    assert!(connection_guard(&mut p).is_none());
}

#[test]
fn requests_and_reset() {
    let mut p = new_counters(true, false);
    record_request_us(&mut p, 40, true);
    record_request_us(&mut p, 40, false);
    assert_eq!(p.requests_total, 2);
    assert_eq!(p.requests_success, 1);
    assert_eq!(p.requests_error, 1);
    assert_eq!(p.stage_count_total[STAGE_REQUEST_TOTAL], 2);
    add_bytes_sent(&mut p, 33);
    lb_handoff(&mut p, true, 0);
    lb_handoff(&mut p, true, 1);
    lb_handoff(&mut p, false, 1);
    assert_eq!((p.lb_handoff_ok, p.lb_upstream_api1, p.lb_upstream_api2, p.lb_handoff_err), (2, 1, 1, 1));
    spin_read_result(&mut p, false, 7);
    assert_eq!((p.spin_read_attempts, p.spin_read_miss), (7, 1));
    set_epoll_busy_poll_result(&mut p, true, true, 50, 8, 1, -5, 3);
    assert_eq!((p.epoll_busy_poll_set_errno, p.epoll_busy_poll_get_errno), (0, 3));
    reset(&mut p);
    assert_eq!(p.requests_total, 0);
    assert_eq!(p.bytes_sent, 0);
    assert_eq!(p.stage_count_total[STAGE_REQUEST_TOTAL], 0);
    assert!(p.enabled);
    assert_eq!(p.epoll_busy_poll_usecs, 50);
}

#[test]
fn connections_never_go_negative() {
    let mut p = new_counters(true, false);
    connection_closed(&mut p);
    assert_eq!(p.active_connections, 0);
    let g = connection_guard(&mut p).unwrap();
    assert_eq!(p.active_connections, 1);
    g.release(&mut p);
    assert_eq!(p.active_connections, 0);
}

#[test]
fn epoll_wait_outcomes() {
    let mut p = new_counters(true, false);
    record_epoll_wait(&mut p, None, 3);
    record_epoll_wait(&mut p, None, 0);
    record_epoll_wait(&mut p, None, -1);
    record_epoll_wait(&mut p, None, 2);
    assert_eq!(p.epoll_wait_calls, 4);
    assert_eq!(p.epoll_wait_events, 5);
    assert_eq!(p.epoll_wait_max_events, 3);
    assert_eq!(p.epoll_wait_timeouts, 1);
    assert_eq!(p.epoll_wait_errors, 1);
}

#[test]
fn histogram_percentiles() {
    let mut h = [0u64; 42];
    assert_eq!(percentile_from_hist(&h, 500), 0);
    assert_eq!(max_from_hist(&h), 0);
    h[0] = 90;
    h[10] = 10;
    assert_eq!(percentile_from_hist(&h, 500), 1);
    assert_eq!(percentile_from_hist(&h, 900), 1);
    assert_eq!(percentile_from_hist(&h, 901), 30);
    assert_eq!(percentile_from_hist(&h, 2000), u64::MAX);
    assert_eq!(max_from_hist(&h), 30);
    assert_eq!(avg(10, 0), 0);
    assert_eq!(avg(10, 3), 3);
    assert_eq!(memory_per_request_bytes(100, 0), 0);
    assert_eq!(memory_per_request_bytes(100, 4), 25600);
    let mut m = 5u64;
    update_max(&mut m, 3);
    assert_eq!(m, 5);
    update_max(&mut m, 9);
    assert_eq!(m, 9);
}

#[test]
fn snapshot_windows() {
    let mut p = new_counters(true, false);
    let mut s = SnapshotState::new(1000);
    record_request_us(&mut p, 8, true);
    let first = build_snapshot(&p, &mut s, 1500);
    assert_eq!(first.window_requests, 1);
    assert_eq!(first.memory_growth_kb, 500);
    assert_eq!(first.stages_window[STAGE_REQUEST_TOTAL].count, 1);
    record_request_us(&mut p, 8, false);
    let second = build_snapshot(&p, &mut s, 1400);
    assert_eq!(second.requests, 2);
    assert_eq!(second.window_requests, 1);
    assert_eq!(second.window_error, 1);
    assert_eq!(second.memory_growth_kb, 0);
    assert_eq!(second.stages_window[STAGE_REQUEST_TOTAL].count, 1);
    assert_eq!(second.stages_window[STAGE_REQUEST_TOTAL].max_us, 10);
    assert_eq!(second.stages_cumulative[STAGE_REQUEST_TOTAL].count, 2);
    let cumulative = stage_stats(&p, false, &mut s);
    assert_eq!(cumulative[STAGE_REQUEST_TOTAL].avg_us, 8);
}

#[test]
fn proc_status_values() {
    assert_eq!(parse_kb(b"   123456 kB"), 123456);
    assert_eq!(parse_kb(b"\t+42"), 42);
    assert_eq!(parse_kb(b""), 0);
    assert_eq!(parse_kb(b" kB"), 0);
    assert_eq!(parse_kb(b" 99999999999999999999 kB"), 0);
}

#[test]
fn round_robin_and_failover() {
    assert_eq!(pick_upstream(5, 4), (1, 6));
    assert_eq!(pick_upstream(u32::MAX, 4), (3, 0));
    assert_eq!(failover_order(2, 4), vec![2, 3, 0, 1]);
    assert_eq!(failover_order(0, 1), vec![0]);
}

#[test]
fn fixed_configuration() {
    let lb = LbConfig::fixed();
    assert_eq!(lb.port, 9999);
    assert_eq!(lb.upstreams, vec![API1_SOCKET, API2_SOCKET, API1_SOCKET, API2_SOCKET]);
    let s = ServerConfig::with_ctrl_sock("/tmp/x.sock".to_string());
    assert_eq!(s.index_path(), INDEX_PATH);
    assert_eq!(s.health_port, 8080);
}

#[test]
fn request_object_is_cut_out() {
    let entry = br#"{"request": {"a": {"b": 1}}, "expected": 2}"#;
    assert_eq!(extract_request_raw(entry), Some(&br#"{"a": {"b": 1}}"#[..]));
    assert_eq!(extract_request_raw(br#"{"request": {"a": 1"#), None);
    assert_eq!(extract_request_raw(br#"{"x": 1}"#), None);
}
