use find9::tracker::{Call, Endpoint, ResponseTracker, MAX_ACTIVE_CALLS, STALLED_TIME};
use find9::throttle::SpamThrottle;

#[test]
fn sixth_rapid_lookup_is_dropped_until_decay() {
    let mut throttle = SpamThrottle::new(5);
    let ip: u128 = 0xffff_c0a8_0001;
    for _ in 0..5 {
        assert!(!throttle.add_and_test(ip));
    }
    assert!(throttle.add_and_test(ip));
    throttle.decay();
    assert!(!throttle.add_and_test(ip));
}

#[test]
fn throttle_counts_each_address_apart() {
    let mut throttle = SpamThrottle::new(1);
    assert!(!throttle.add_and_test(1));
    assert!(throttle.add_and_test(1));
    assert!(!throttle.add_and_test(2));
    assert!(throttle.test(1));
    assert!(throttle.test(2));
    assert!(!throttle.test(3));
    throttle.decay();
    throttle.decay();
    assert!(!throttle.test(1));
    assert_eq!(throttle.get_threshold(), 1);
}

fn endpoint(port: u16) -> Endpoint {
    Endpoint { ip: 0xffff_0a00_0001, port }
}

#[test]
fn call_stalls_after_threshold() {
    let call = Call::new(endpoint(53), 1_000);
    assert!(!call.is_stalled(1_000 + STALLED_TIME));
    assert!(call.is_stalled(1_001 + STALLED_TIME));
    assert!(!call.is_stalled(10));
    let mut c = call;
    c.set_sent_time(5);
    assert_eq!(c.get_sent_time(), 5);
    assert_eq!(c.get_address(), endpoint(53));
}

#[test]
fn tracker_polls_and_evicts() {
    let mut tracker = ResponseTracker::new();
    tracker.add(7, Call::new(endpoint(1000), 0));
    tracker.add(8, Call::new(endpoint(1001), 50_000));
    assert!(tracker.contains(7));
    assert_eq!(tracker.get(8), Some(Call::new(endpoint(1001), 50_000)));
    tracker.remove_stalled(70_000);
    assert!(!tracker.contains(7));
    assert!(tracker.contains(8));
    assert_eq!(tracker.poll(8), Some(Call::new(endpoint(1001), 50_000)));
    assert_eq!(tracker.poll(8), None);
    assert_eq!(tracker.len(), 0);
    assert!(tracker.has_capacity());
    assert_eq!(tracker.remove(9), None);
}

#[test]
fn tracker_budget() {
    let mut tracker = ResponseTracker::new();
    for id in 0..MAX_ACTIVE_CALLS as u16 {
        tracker.add(id, Call::new(endpoint(id), 0));
    }
    assert!(!tracker.has_capacity());
    tracker.add(3, Call::new(endpoint(9), 1));
    assert_eq!(tracker.len(), MAX_ACTIVE_CALLS);
    assert_eq!(tracker.get(3), Some(Call::new(endpoint(9), 1)));
}
