use rude_core::engine::mirror::{ErrorClass, MirrorPool, MirrorState};

const SECOND: u128 = 1_000_000_000;

fn pool(urls: &[&str], max: usize) -> MirrorPool {
    MirrorPool::new(urls.iter().map(|u| u.to_string()).collect(), max)
}

#[test]
fn statuses_are_classified() {
    for status in [400, 401, 403, 404, 405, 410, 451] {
        assert_eq!(ErrorClass::from_status(status), ErrorClass::Fatal);
    }
    assert_eq!(ErrorClass::from_status(503), ErrorClass::RetriableImmediate);
    for status in [429, 500, 502, 504, 418, 302] {
        assert_eq!(ErrorClass::from_status(status), ErrorClass::RetriableWithBackoff);
    }
    assert_eq!(ErrorClass::from_connection_error(), ErrorClass::RetriableWithBackoff);
}

#[test]
fn picks_the_fastest_then_the_least_busy() {
    let mut p = pool(&["http://a/", "http://b/", "http://c/"], 4);
    assert_eq!(p.pick_at(0).unwrap(), "http://c/");
    p.report_success("http://c/", 100);
    assert_eq!(p.pick_at(0).unwrap(), "http://c/");
    p.report_success("http://b/", 500);
    assert_eq!(p.pick_at(0).unwrap(), "http://b/");
    // the average moves by three tenths
    p.report_success("http://b/", 100);
    assert_eq!(p.snapshot()[1].avg_speed_bps, 380);
    p.report_success("http://a/", 380);
    assert_eq!(p.pick_at(0).unwrap(), "http://b/");
    assert_eq!(p.pick_at(0).unwrap(), "http://a/");
    assert_eq!(p.total_connections(), 3);
}

#[test]
fn the_connection_limit_holds() {
    let mut p = pool(&["http://a/"], 2);
    assert!(p.pick().is_some());
    assert!(p.pick().is_some());
    assert!(p.pick().is_none());
    p.release("http://a/");
    assert!(p.pick().is_some());
    p.release("http://unknown/");
    assert_eq!(p.total_connections(), 2);
}

#[test]
fn backoff_doubles_and_then_bans() {
    let mut p = pool(&["http://a/"], 8);
    let mut seen = Vec::new();
    for i in 0..5u128 {
        p.report_failure_at("http://a/", ErrorClass::RetriableWithBackoff, i * 100 * SECOND);
        seen.push(p.snapshot()[0].backoff_secs);
    }
    assert_eq!(seen, vec![1, 2, 4, 8, 16]);
    assert!(p.snapshot()[0].banned);
    assert!(!p.has_available_at(1_000_000 * SECOND));
}

#[test]
fn backoff_is_capped() {
    let mut p = pool(&["http://a/"], 8);
    for _ in 0..9 {
        p.report_failure_at("http://a/", ErrorClass::RetriableWithBackoff, 0);
    }
    assert_eq!(p.snapshot()[0].backoff_secs, 60);
    assert_eq!(p.snapshot()[0].failures, 9);
}

#[test]
fn a_mirror_in_backoff_is_left_alone() {
    let mut p = pool(&["http://a/"], 8);
    p.report_failure_at("http://a/", ErrorClass::RetriableWithBackoff, 10 * SECOND);
    p.report_failure_at("http://a/", ErrorClass::RetriableWithBackoff, 10 * SECOND);
    assert!(p.pick_at(11 * SECOND).is_none());
    assert!(!p.has_available_at(11 * SECOND));
    let m = &p.snapshot()[0];
    assert_eq!(m.cooldown_remaining_secs(11 * SECOND), 1);
    assert_eq!(m.cooldown_remaining_secs(12 * SECOND), 0);
    assert!(m.is_available(12 * SECOND));
    assert_eq!(p.pick_at(12 * SECOND).unwrap(), "http://a/");
}

#[test]
fn fatal_errors_ban_at_once() {
    let mut p = pool(&["http://a/", "http://b/"], 8);
    p.report_failure_with_status("http://b/", 404);
    assert!(p.snapshot()[1].banned);
    assert_eq!(p.snapshot()[1].last_error_class, Some(ErrorClass::Fatal));
    assert_eq!(p.pick().unwrap(), "http://a/");
    p.report_failure("http://a/");
    assert_eq!(p.snapshot()[0].last_error_class, Some(ErrorClass::RetriableWithBackoff));
    p.report_failure_with_class("http://a/", ErrorClass::RetriableImmediate);
    assert_eq!(p.snapshot()[0].backoff_secs, 0);
    assert!(p.has_available());
}

#[test]
fn success_clears_failures() {
    let mut p = pool(&["http://a/"], 8);
    p.report_failure("http://a/");
    p.report_success("http://a/", 1000);
    let m = &p.snapshot()[0];
    assert_eq!((m.failures, m.backoff_secs, m.last_failure), (0, 0, None));
    assert_eq!(m.last_error_class, None);
    assert_eq!(m.avg_speed_bps, 1000);
}

#[test]
fn alternatives_differ_from_the_current_mirror() {
    let mut p = pool(&["http://a/", "http://b/", "http://c/"], 8);
    p.report_success("http://a/", 9_000_000);
    p.report_success("http://b/", 500_000);
    p.report_success("http://c/", 450_000);
    assert_eq!(p.pick_alternative_at("http://a/", 0).unwrap(), "http://b/");
    // one connection costs 100000: the other one is ahead now
    assert_eq!(p.pick_alternative("http://a/").unwrap(), "http://c/");
    let mut alone = pool(&["http://a/"], 8);
    assert!(alone.pick_alternative("http://a/").is_none());
}

#[test]
fn a_new_mirror_is_available() {
    let m = MirrorState::new("http://a/".to_string());
    assert!(m.is_available(0));
    assert_eq!(m.cooldown_remaining_secs(0), 0);
    assert_eq!(m.clone().url, "http://a/");
}

#[test]
fn a_release_undoes_a_pick() {
    let mut p = pool(&["http://a/", "http://b/"], 8);
    p.report_success("http://a/", 10);
    let url = p.pick_at(0).unwrap();
    assert_eq!(p.snapshot()[0].active_connections, 1);
    p.release(&url);
    let after: Vec<(u64, usize)> =
        p.snapshot().iter().map(|m| (m.avg_speed_bps, m.active_connections)).collect();
    assert_eq!(after, vec![(10, 0), (0, 0)]);
}

#[test]
fn the_retry_delay_is_the_first_backoff() {
    let urls = vec!["http://a/".to_string()];
    let mut p = MirrorPool::with_retry_delay(urls, 8, 2500);
    let mut seen = Vec::new();
    for _ in 0..7 {
        p.report_failure_at("http://a/", ErrorClass::RetriableWithBackoff, 0);
        seen.push(p.snapshot()[0].backoff_secs);
    }
    // whole seconds, rounded up, and a minute at most
    assert_eq!(seen, vec![3, 5, 10, 20, 40, 60, 60]);
    let mut now = MirrorPool::with_retry_delay(vec!["http://a/".to_string()], 8, 0);
    now.report_failure_at("http://a/", ErrorClass::RetriableWithBackoff, 0);
    assert!(now.can_pick_at(0));
}

#[test]
fn pools_tell_whether_a_pick_would_succeed() {
    let mut p = pool(&["http://a/", "http://b/"], 1);
    assert!(p.can_pick_at(0) && !p.all_banned());
    p.pick_at(0).unwrap();
    p.pick_at(0).unwrap();
    assert!(!p.can_pick_at(0));
    p.report_failure_with_status("http://a/", 404);
    assert!(!p.all_banned());
    p.report_failure_with_status("http://b/", 404);
    assert!(p.all_banned() && !p.can_pick_at(1_000_000 * SECOND));
}

#[test]
fn average_speeds_are_rounded_as_doubles() {
    for before in [1u64, 3, 10, 333, 1_000_001, 0x20_0000_0000_0003, u64::MAX] {
        for speed in [0u64, 1, 3, 10, 777, 9_999_999, u64::MAX] {
            let mut p = pool(&["http://a/"], 4);
            p.report_success("http://a/", before);
            p.report_success("http://a/", speed);
            assert_eq!(
                p.snapshot()[0].avg_speed_bps,
                ((before as f64 * 0.7) + (speed as f64 * 0.3)) as u64
            );
        }
    }
    // seven and three tenths of three are a little less than three
    let mut p = pool(&["http://a/"], 4);
    p.report_success("http://a/", 3);
    p.report_success("http://a/", 3);
    assert_eq!(p.snapshot()[0].avg_speed_bps, 2);
}
