use fleet_coordinator::model::{
    liveness, liveness_timeout_for, AgentStatus, CoordinatorError, DEFAULT_COMMAND_TIMEOUT_MS,
    DEFAULT_LIVENESS_TIMEOUT_MS, DEFAULT_POLL_INTERVAL_MS,
};
use fleet_coordinator::registry::SessionRegistry;
use fleet_coordinator::text::text_precedes;

#[test]
fn liveness_compares_elapsed_time_with_timeout() {
    assert_eq!(liveness(1_000, 1_000, 1), AgentStatus::Online);
    assert_eq!(liveness(1_000, 1_000, 0), AgentStatus::Offline);
    assert_eq!(liveness(1_000, 30_999, 30_000), AgentStatus::Online);
    assert_eq!(liveness(1_000, 31_000, 30_000), AgentStatus::Offline);
    // A query from before the last contact never finds the agent offline.
    assert_eq!(liveness(1_000, 0, 1), AgentStatus::Online);
}

#[test]
fn liveness_does_not_overflow_at_the_ends_of_time() {
    // The longest span there is equals the longest timeout there is: not less.
    assert_eq!(liveness(i64::MIN, i64::MAX, u64::MAX), AgentStatus::Offline);
    assert_eq!(liveness(i64::MIN, i64::MAX - 1, u64::MAX), AgentStatus::Online);
    assert_eq!(liveness(i64::MIN + 1, i64::MAX, u64::MAX), AgentStatus::Online);
    assert_eq!(liveness(i64::MAX, i64::MIN, 0), AgentStatus::Online);
    assert_eq!(liveness(i64::MIN, i64::MAX, 0), AgentStatus::Offline);
}

#[test]
fn liveness_timeout_is_three_poll_intervals() {
    assert_eq!(liveness_timeout_for(5_000), Some(15_000));
    assert_eq!(liveness_timeout_for(0), Some(0));
    assert_eq!(liveness_timeout_for(u64::MAX / 3), Some(u64::MAX));
    assert_eq!(liveness_timeout_for(u64::MAX / 3 + 1), None);
    assert_eq!(liveness_timeout_for(DEFAULT_POLL_INTERVAL_MS), Some(DEFAULT_LIVENESS_TIMEOUT_MS));
    assert_eq!(DEFAULT_COMMAND_TIMEOUT_MS, 60_000);
}

#[test]
fn text_order_is_lexicographic_by_code_point() {
    assert!(text_precedes("", "a"));
    assert!(!text_precedes("", ""));
    assert!(!text_precedes("a", ""));
    assert!(text_precedes("a", "b"));
    assert!(!text_precedes("b", "a"));
    assert!(text_precedes("ab", "abc"));
    assert!(!text_precedes("abc", "ab"));
    assert!(!text_precedes("abc", "abc"));
    assert!(text_precedes("Zeta", "alpha"));
    assert!(text_precedes("host-10", "host-9"));
    assert!(text_precedes("z", "\u{e9}"));
    assert!(text_precedes("\u{e9}", "\u{1f600}"));
}

#[test]
fn text_order_agrees_with_str_order() {
    let words = ["", "a", "A", "ab", "abc", "b", "host-1", "host-10", "host-2", "\u{e9}t\u{e9}", "\u{4e2d}"];
    for x in words {
        for y in words {
            assert_eq!(text_precedes(x, y), x < y);
        }
    }
}

#[test]
fn registry_starts_empty() {
    let r = SessionRegistry::new(30_000);
    assert_eq!(r.len(), 0);
    assert_eq!(r.liveness_timeout(), 30_000);
    assert!(!r.contains(1));
    assert_eq!(r.list(0), vec![]);
    assert_eq!(r.get(1), Err(CoordinatorError::NotFound));
    assert_eq!(r.session(1, 0), Err(CoordinatorError::NotFound));
}

#[test]
fn register_stores_the_record_as_given() {
    let mut r = SessionRegistry::new(30_000);
    let id = r.register(42, "web-1".to_string(), "Debian 12".to_string(), 5_000);
    assert_eq!(id, 42);
    assert!(r.contains(42));
    assert_eq!(r.len(), 1);
    let agent = r.get(42).unwrap();
    assert_eq!(agent.id, 42);
    assert_eq!(agent.hostname, "web-1");
    assert_eq!(agent.os_info, "Debian 12");
    assert_eq!(agent.last_seen, 5_000);
}

#[test]
fn register_moves_past_taken_identifiers() {
    let mut r = SessionRegistry::new(30_000);
    assert_eq!(r.register(10, "a".to_string(), "x".to_string(), 0), 10);
    assert_eq!(r.register(11, "b".to_string(), "x".to_string(), 0), 11);
    assert_eq!(r.register(10, "c".to_string(), "x".to_string(), 0), 12);
    assert_eq!(r.register(10, "d".to_string(), "x".to_string(), 0), 13);
    assert_eq!(r.register(9, "e".to_string(), "x".to_string(), 0), 9);
    assert_eq!(r.get(12).unwrap().hostname, "c");
    assert_eq!(r.get(10).unwrap().hostname, "a");
}

#[test]
fn register_wraps_around_the_end_of_the_range() {
    let mut r = SessionRegistry::new(30_000);
    assert_eq!(r.register(u128::MAX, "a".to_string(), "x".to_string(), 0), u128::MAX);
    assert_eq!(r.register(u128::MAX, "b".to_string(), "x".to_string(), 0), 0);
    assert_eq!(r.register(u128::MAX, "c".to_string(), "x".to_string(), 0), 1);
    assert_eq!(r.register(u128::MAX - 1, "d".to_string(), "x".to_string(), 0), u128::MAX - 1);
    assert_eq!(r.register(u128::MAX - 1, "e".to_string(), "x".to_string(), 0), 2);
}

#[test]
fn touch_updates_last_seen_only() {
    let mut r = SessionRegistry::new(30_000);
    let a = r.register(1, "a".to_string(), "x".to_string(), 100);
    let b = r.register(2, "b".to_string(), "y".to_string(), 200);
    assert_eq!(r.touch(a, 900), Ok(()));
    let seen = r.get(a).unwrap();
    assert_eq!(seen.last_seen, 900);
    assert_eq!(seen.hostname, "a");
    assert_eq!(seen.os_info, "x");
    assert_eq!(r.get(b).unwrap().last_seen, 200);
    // Time is taken as given, also when it runs backwards.
    assert_eq!(r.touch(a, 50), Ok(()));
    assert_eq!(r.get(a).unwrap().last_seen, 50);
}

#[test]
fn touch_of_unknown_agent_is_not_found() {
    let mut r = SessionRegistry::new(30_000);
    let a = r.register(1, "a".to_string(), "x".to_string(), 100);
    assert_eq!(r.touch(a + 1, 900), Err(CoordinatorError::NotFound));
    assert_eq!(r.get(a).unwrap().last_seen, 100);
    assert_eq!(r.len(), 1);
}

#[test]
fn list_orders_by_hostname_then_identifier() {
    let mut r = SessionRegistry::new(30_000);
    r.register(50, "delta".to_string(), "x".to_string(), 0);
    r.register(40, "alpha".to_string(), "x".to_string(), 0);
    r.register(30, "charlie".to_string(), "x".to_string(), 0);
    r.register(20, "alpha".to_string(), "x".to_string(), 0);
    r.register(60, "bravo".to_string(), "x".to_string(), 0);
    r.register(10, "delta".to_string(), "x".to_string(), 0);
    r.register(70, "Alpha".to_string(), "x".to_string(), 0);
    r.register(80, "alpha".to_string(), "x".to_string(), 0);
    let listing = r.list(0);
    let shown: Vec<(String, u128)> =
        listing.iter().map(|s| (s.agent.hostname.clone(), s.agent.id)).collect();
    assert_eq!(
        shown,
        vec![
            ("Alpha".to_string(), 70),
            ("alpha".to_string(), 20),
            ("alpha".to_string(), 40),
            ("alpha".to_string(), 80),
            ("bravo".to_string(), 60),
            ("charlie".to_string(), 30),
            ("delta".to_string(), 10),
            ("delta".to_string(), 50),
        ]
    );
}

#[test]
fn list_keeps_its_order_after_contacts() {
    let mut r = SessionRegistry::new(30_000);
    r.register(3, "c".to_string(), "x".to_string(), 0);
    r.register(1, "a".to_string(), "x".to_string(), 0);
    r.register(2, "b".to_string(), "x".to_string(), 0);
    r.touch(3, 10_000).unwrap();
    r.touch(1, 40_000).unwrap();
    let listing = r.list(40_000);
    let shown: Vec<(u128, i64, AgentStatus)> =
        listing.iter().map(|s| (s.agent.id, s.agent.last_seen, s.status)).collect();
    assert_eq!(
        shown,
        vec![
            (1, 40_000, AgentStatus::Online),
            (2, 0, AgentStatus::Offline),
            (3, 10_000, AgentStatus::Offline),
        ]
    );
}

#[test]
fn session_shows_status_at_the_time_of_the_query() {
    let mut r = SessionRegistry::new(15_000);
    let a = r.register(1, "a".to_string(), "x".to_string(), 1_000);
    let early = r.session(a, 15_999).unwrap();
    assert_eq!(early.status, AgentStatus::Online);
    assert_eq!(early.agent, r.get(a).unwrap());
    assert_eq!(r.session(a, 16_000).unwrap().status, AgentStatus::Offline);
}
