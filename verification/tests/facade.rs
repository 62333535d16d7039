use fleet_coordinator::coordinator::Coordinator;
use fleet_coordinator::ident::allocate_in;
use fleet_coordinator::model::{
    AgentStatus, CommandResult, CommandState, CoordinatorError, Screenshot,
};
use std::collections::HashMap;

fn result(output: &str) -> CommandResult {
    CommandResult { output: output.to_string(), error: None, exit_code: 0 }
}

#[test]
fn new_coordinator_is_empty() {
    let mut c = Coordinator::with_defaults();
    assert_eq!(c.list_agents(0), vec![]);
    assert_eq!(c.get_agent(1), Err(CoordinatorError::NotFound));
    assert_eq!(c.get_session(1, 0), Err(CoordinatorError::NotFound));
    assert_eq!(c.ping(1, 0), Err(CoordinatorError::NotFound));
    assert_eq!(c.poll(1, 0), Err(CoordinatorError::NotFound));
    assert_eq!(c.upload_screenshot(1, vec![1], 0), Err(CoordinatorError::NotFound));
    assert_eq!(c.list_screenshots(1), Err(CoordinatorError::NotFound));
    assert_eq!(c.list_command_history(1, 0), Err(CoordinatorError::NotFound));
    assert_eq!(c.cancel_command(1), Err(CoordinatorError::NotFound));
    assert_eq!(c.get_command(1), Err(CoordinatorError::NotFound));
    assert_eq!(c.sweep_timeouts(0), 0);
}

#[test]
fn default_timeouts_are_fifteen_and_sixty_seconds() {
    let mut c = Coordinator::with_defaults();
    let a = c.register(1, "a".to_string(), "x".to_string(), 0);
    assert_eq!(c.get_session(a, 14_999).unwrap().status, AgentStatus::Online);
    assert_eq!(c.get_session(a, 15_000).unwrap().status, AgentStatus::Offline);
    let id = c.submit_command(a, 1, "x".to_string(), 0).unwrap();
    c.poll(a, 0).unwrap();
    assert_eq!(c.sweep_timeouts(60_000), 0);
    assert_eq!(c.sweep_timeouts(60_001), 1);
    assert_eq!(c.get_command(id).unwrap().state, CommandState::TimedOut);
}

#[test]
fn new_agent_has_nothing_queued_or_stored() {
    let mut c = Coordinator::new(30_000, 60_000);
    let a = c.register(9, "a".to_string(), "x".to_string(), 77);
    assert_eq!(c.list_screenshots(a), Ok(vec![]));
    assert_eq!(c.list_command_history(a, 78), Ok(vec![]));
    assert_eq!(c.poll(a, 79), Ok(vec![]));
    assert_eq!(c.get_agent(a).unwrap().last_seen, 79);
}

#[test]
fn poll_counts_as_contact() {
    let mut c = Coordinator::new(30_000, 60_000);
    let a = c.register(9, "a".to_string(), "x".to_string(), 0);
    assert_eq!(c.get_session(a, 40_000).unwrap().status, AgentStatus::Offline);
    c.poll(a, 40_000).unwrap();
    assert_eq!(c.get_agent(a).unwrap().last_seen, 40_000);
    assert_eq!(c.get_session(a, 40_000).unwrap().status, AgentStatus::Online);
}

#[test]
fn result_counts_as_contact_of_the_owner() {
    let mut c = Coordinator::new(30_000, 60_000);
    let a = c.register(1, "a".to_string(), "x".to_string(), 0);
    let b = c.register(2, "b".to_string(), "x".to_string(), 0);
    let id = c.submit_command(a, 5, "x".to_string(), 1).unwrap();
    c.poll(a, 2).unwrap();
    c.report_result(id, result("ok"), 500).unwrap();
    assert_eq!(c.get_agent(a).unwrap().last_seen, 500);
    assert_eq!(c.get_agent(b).unwrap().last_seen, 0);
}

#[test]
fn refused_result_is_no_contact() {
    let mut c = Coordinator::new(30_000, 60_000);
    let a = c.register(1, "a".to_string(), "x".to_string(), 0);
    let id = c.submit_command(a, 5, "x".to_string(), 1).unwrap();
    assert_eq!(c.report_result(id, result("early"), 500), Err(CoordinatorError::InvalidState));
    assert_eq!(c.get_agent(a).unwrap().last_seen, 0);
    assert_eq!(c.get_command(id).unwrap().state, CommandState::Queued);
    assert_eq!(c.list_command_history(a, 501), Ok(vec![]));
}

#[test]
fn submission_is_no_contact() {
    let mut c = Coordinator::new(30_000, 60_000);
    let a = c.register(1, "a".to_string(), "x".to_string(), 0);
    c.submit_command(a, 5, "x".to_string(), 100_000).unwrap();
    assert_eq!(c.get_agent(a).unwrap().last_seen, 0);
    assert_eq!(c.get_session(a, 100_000).unwrap().status, AgentStatus::Offline);
}

#[test]
fn command_for_offline_agent_is_accepted_and_times_out_once_dispatched() {
    let mut c = Coordinator::new(30_000, 60_000);
    let a = c.register(1, "a".to_string(), "x".to_string(), 0);
    assert_eq!(c.get_session(a, 1_000_000).unwrap().status, AgentStatus::Offline);
    let id = c.submit_command(a, 5, "x".to_string(), 1_000_000).unwrap();
    // A queued command never times out: only dispatch starts the clock.
    assert_eq!(c.sweep_timeouts(9_000_000), 0);
    assert_eq!(c.get_command(id).unwrap().state, CommandState::Queued);
    c.poll(a, 9_000_000).unwrap();
    assert_eq!(c.sweep_timeouts(9_060_001), 1);
    let history = c.list_command_history(a, 9_060_002).unwrap();
    assert_eq!(history.len(), 1);
    assert_eq!(history[0].state, CommandState::TimedOut);
}

#[test]
fn uploaded_screenshots_are_listed_in_order() {
    let mut c = Coordinator::new(30_000, 60_000);
    let a = c.register(1, "a".to_string(), "x".to_string(), 0);
    assert_eq!(c.upload_screenshot(a, vec![1, 2, 3], 10), Ok(()));
    assert_eq!(c.upload_screenshot(a, vec![4], 20), Ok(()));
    assert_eq!(
        c.list_screenshots(a),
        Ok(vec![
            Screenshot { agent_id: a, captured_at: 10, image_data: vec![1, 2, 3] },
            Screenshot { agent_id: a, captured_at: 20, image_data: vec![4] },
        ])
    );
    assert_eq!(c.get_agent(a).unwrap().last_seen, 20);
}

#[test]
fn history_is_in_order_of_resolution() {
    let mut c = Coordinator::new(30_000, 60_000);
    let a = c.register(1, "a".to_string(), "x".to_string(), 0);
    let first = c.submit_command(a, 10, "one".to_string(), 1).unwrap();
    let second = c.submit_command(a, 20, "two".to_string(), 2).unwrap();
    let third = c.submit_command(a, 30, "three".to_string(), 3).unwrap();
    c.poll(a, 4).unwrap();
    c.report_result(third, result("3"), 5).unwrap();
    c.report_result(first, result("1"), 6).unwrap();
    let history = c.list_command_history(a, 60_005).unwrap();
    let shown: Vec<(u128, CommandState)> = history.iter().map(|r| (r.id, r.state)).collect();
    assert_eq!(
        shown,
        vec![
            (third, CommandState::Completed),
            (first, CommandState::Completed),
            (second, CommandState::TimedOut),
        ]
    );
    // Reading again adds nothing.
    assert_eq!(c.list_command_history(a, 900_000), Ok(history));
}

#[test]
fn history_read_sweeps_for_every_agent() {
    let mut c = Coordinator::new(30_000, 60_000);
    let a = c.register(1, "a".to_string(), "x".to_string(), 0);
    let b = c.register(2, "b".to_string(), "x".to_string(), 0);
    let of_b = c.submit_command(b, 10, "x".to_string(), 0).unwrap();
    c.poll(b, 0).unwrap();
    assert_eq!(c.list_command_history(a, 70_000), Ok(vec![]));
    assert_eq!(c.get_command(of_b).unwrap().state, CommandState::TimedOut);
    // A read for an unknown agent is refused and sweeps nothing.
    let late = c.submit_command(b, 11, "y".to_string(), 80_000).unwrap();
    c.poll(b, 80_000).unwrap();
    assert_eq!(c.list_command_history(999, 900_000), Err(CoordinatorError::NotFound));
    assert_eq!(c.get_command(late).unwrap().state, CommandState::Dispatched);
}

#[test]
fn cancelled_command_is_never_dispatched() {
    let mut c = Coordinator::new(30_000, 60_000);
    let a = c.register(1, "a".to_string(), "x".to_string(), 0);
    let id = c.submit_command(a, 10, "x".to_string(), 0).unwrap();
    assert_eq!(c.cancel_command(id), Ok(()));
    assert_eq!(c.poll(a, 1), Ok(vec![]));
    assert_eq!(c.get_command(id), Err(CoordinatorError::NotFound));
    assert_eq!(c.report_result(id, result("x"), 2), Err(CoordinatorError::NotFound));
    assert_eq!(c.list_command_history(a, 1_000_000), Ok(vec![]));
}

#[test]
fn agent_and_command_identifiers_are_allocated_apart() {
    let mut c = Coordinator::new(30_000, 60_000);
    let a = c.register(5, "a".to_string(), "x".to_string(), 0);
    assert_eq!(a, 5);
    assert_eq!(c.submit_command(a, 5, "x".to_string(), 0), Ok(5));
    assert_eq!(c.submit_command(a, 5, "y".to_string(), 0), Ok(6));
    assert_eq!(c.register(5, "b".to_string(), "x".to_string(), 0), 6);
}

#[test]
fn allocation_takes_the_first_free_identifier() {
    let mut taken: HashMap<u128, ()> = HashMap::new();
    assert_eq!(allocate_in(&taken, 0), 0);
    assert_eq!(allocate_in(&taken, u128::MAX), u128::MAX);
    for k in [3u128, 4, 5, 7, u128::MAX, 0] {
        taken.insert(k, ());
    }
    assert_eq!(allocate_in(&taken, 2), 2);
    assert_eq!(allocate_in(&taken, 3), 6);
    assert_eq!(allocate_in(&taken, 5), 6);
    assert_eq!(allocate_in(&taken, 7), 8);
    assert_eq!(allocate_in(&taken, u128::MAX), 1);
    assert_eq!(allocate_in(&taken, u128::MAX - 1), u128::MAX - 1);
}

#[test]
fn register_now_draws_a_random_version_four_identifier() {
    let mut c = Coordinator::new(30_000, 60_000);
    let a = c.register_now("a".to_string(), "x".to_string());
    let b = c.register_now("b".to_string(), "x".to_string());
    assert_ne!(a, b);
    for id in [a, b] {
        assert_eq!((id >> 76) & 0xf, 4);
        assert_eq!((id >> 62) & 0x3, 2);
    }
    assert!(c.get_agent(a).is_ok());
    assert_eq!(c.list_agents_now().len(), 2);
}

#[test]
fn operations_that_read_the_clock_use_the_present() {
    // 2020-01-01T00:00:00Z, in milliseconds.
    let long_ago: i64 = 1_577_836_800_000;
    let mut c = Coordinator::new(30_000, 60_000);
    let a = c.register_now("a".to_string(), "x".to_string());
    let registered = c.get_agent(a).unwrap().last_seen;
    assert!(registered > long_ago);
    assert_eq!(c.list_agents_now()[0].status, AgentStatus::Online);

    let id = c.submit_command_now(a, "date".to_string()).unwrap();
    assert_eq!((id >> 76) & 0xf, 4);
    assert!(c.get_command(id).unwrap().submitted_at >= registered);
    assert_eq!(c.ping_now(a), Ok(()));
    let handed = c.poll_now(a).unwrap();
    assert_eq!(handed.len(), 1);
    assert_eq!(handed[0].id, id);
    assert_eq!(handed[0].text, "date");
    assert!(c.get_command(id).unwrap().dispatched_at.unwrap() >= registered);
    assert_eq!(c.sweep_timeouts_now(), 0);
    assert_eq!(c.report_result_now(id, result("today")), Ok(()));
    assert_eq!(c.upload_screenshot_now(a, vec![1, 2]), Ok(()));
    let history = c.list_command_history_now(a).unwrap();
    assert_eq!(history.len(), 1);
    assert_eq!(history[0].state, CommandState::Completed);
    assert!(history[0].resolved_at.unwrap() >= registered);
    let shots = c.list_screenshots(a).unwrap();
    assert_eq!(shots.len(), 1);
    assert!(shots[0].captured_at >= registered);

    assert_eq!(c.ping_now(a + 1), Err(CoordinatorError::NotFound));
    assert_eq!(c.poll_now(a + 1), Err(CoordinatorError::NotFound));
    assert_eq!(
        c.submit_command_now(a + 1, "x".to_string()),
        Err(CoordinatorError::NotFound)
    );
    assert_eq!(c.report_result_now(id + 1, result("x")), Err(CoordinatorError::NotFound));
    assert_eq!(c.upload_screenshot_now(a + 1, vec![]), Err(CoordinatorError::NotFound));
    assert_eq!(c.list_command_history_now(a + 1), Err(CoordinatorError::NotFound));
}
