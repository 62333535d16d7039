use fleet_coordinator::coordinator::Coordinator;
use fleet_coordinator::model::{
    AgentStatus, CommandResult, CommandState, CoordinatorError, PendingCommand,
};

const T: i64 = 1_700_000_000_000;

fn coordinator() -> Coordinator {
    Coordinator::new(30_000, 60_000)
}

fn ok_result(output: &str) -> CommandResult {
    CommandResult { output: output.to_string(), error: None, exit_code: 0 }
}

#[test]
fn poll_dispatches_once_and_result_reaches_history() {
    let mut c = coordinator();
    let a = c.register(1, "alpha".to_string(), "Linux 6.1".to_string(), T);
    assert_eq!(c.poll(a, T + 1), Ok(vec![]));

    let c1 = c.submit_command(a, 100, "echo hi".to_string(), T + 2).unwrap();
    assert_eq!(
        c.poll(a, T + 3),
        Ok(vec![PendingCommand { id: c1, text: "echo hi".to_string() }])
    );
    assert_eq!(c.poll(a, T + 4), Ok(vec![]));

    assert_eq!(c.report_result(c1, ok_result("hi\n"), T + 5), Ok(()));
    let history = c.list_command_history(a, T + 6).unwrap();
    assert_eq!(history.len(), 1);
    assert_eq!(history[0].id, c1);
    assert_eq!(history[0].agent_id, a);
    assert_eq!(history[0].text, "echo hi");
    assert_eq!(history[0].state, CommandState::Completed);
    assert_eq!(history[0].submitted_at, T + 2);
    assert_eq!(history[0].dispatched_at, Some(T + 3));
    assert_eq!(history[0].resolved_at, Some(T + 5));
    assert_eq!(history[0].result, Some(ok_result("hi\n")));
}

#[test]
fn result_for_unknown_command_is_not_found() {
    let mut c = coordinator();
    let a = c.register(1, "alpha".to_string(), "Linux".to_string(), T);
    assert_eq!(c.report_result(4242, ok_result("x"), T + 1), Err(CoordinatorError::NotFound));
    assert_eq!(c.list_command_history(a, T + 2), Ok(vec![]));
    assert_eq!(c.get_agent(a).unwrap().last_seen, T);
}

#[test]
fn submit_for_unknown_agent_creates_nothing() {
    let mut c = coordinator();
    let a = c.register(1, "alpha".to_string(), "Linux".to_string(), T);
    assert_eq!(
        c.submit_command(a + 1, 100, "echo hi".to_string(), T + 1),
        Err(CoordinatorError::NotFound)
    );
    assert_eq!(c.get_command(100), Err(CoordinatorError::NotFound));
    assert_eq!(c.poll(a, T + 2), Ok(vec![]));
    // The identifier that the refused submission would have taken is still free.
    assert_eq!(c.submit_command(a, 100, "echo hi".to_string(), T + 3), Ok(100));
}

#[test]
fn unanswered_command_times_out_in_history() {
    let mut c = coordinator();
    let a = c.register(1, "alpha".to_string(), "Linux".to_string(), T - 10);
    let c1 = c.submit_command(a, 100, "sleep 1000".to_string(), T - 5).unwrap();
    assert_eq!(c.poll(a, T).unwrap().len(), 1);

    // Exactly at the timeout the command is not yet overdue.
    assert_eq!(c.list_command_history(a, T + 60_000), Ok(vec![]));
    assert_eq!(c.get_command(c1).unwrap().state, CommandState::Dispatched);

    let history = c.list_command_history(a, T + 61_000).unwrap();
    assert_eq!(history.len(), 1);
    assert_eq!(history[0].id, c1);
    assert_eq!(history[0].state, CommandState::TimedOut);
    assert_eq!(history[0].resolved_at, Some(T + 61_000));
    let result = history[0].result.clone().unwrap();
    assert_eq!(result.exit_code, -1);
    assert_eq!(result.error, Some("timed out".to_string()));
    assert_eq!(result.output, "");
    assert_eq!(c.get_command(c1).unwrap(), history[0]);
}

#[test]
fn agent_goes_offline_and_comes_back_with_a_ping() {
    let mut c = coordinator();
    let a = c.register(1, "alpha".to_string(), "Linux".to_string(), T - 100_000);
    assert_eq!(c.ping(a, T), Ok(()));

    assert_eq!(c.get_session(a, T + 1_000).unwrap().status, AgentStatus::Online);
    assert_eq!(c.list_agents(T + 1_000)[0].status, AgentStatus::Online);
    assert_eq!(c.get_session(a, T + 31_000).unwrap().status, AgentStatus::Offline);
    assert_eq!(c.list_agents(T + 31_000)[0].status, AgentStatus::Offline);

    assert_eq!(c.ping(a, T + 31_000), Ok(()));
    assert_eq!(c.get_session(a, T + 31_000).unwrap().status, AgentStatus::Online);
    assert_eq!(c.list_agents(T + 31_000)[0].status, AgentStatus::Online);
}

#[test]
fn registrations_return_distinct_identifiers() {
    let mut c = coordinator();
    let mut ids = Vec::new();
    // The same candidate every time: each registration has to move on.
    for i in 0..20 {
        ids.push(c.register(7, format!("host-{}", i % 3), "Linux".to_string(), T + i));
    }
    for i in 0..ids.len() {
        for j in 0..i {
            assert_ne!(ids[i], ids[j]);
        }
    }
    assert_eq!(ids, (7u128..27).collect::<Vec<u128>>());
    assert_eq!(c.list_agents(T).len(), 20);
}

#[test]
fn poll_returns_commands_in_submission_order() {
    let mut c = coordinator();
    let a = c.register(1, "alpha".to_string(), "Linux".to_string(), T);
    let first = c.submit_command(a, 900, "first".to_string(), T + 1).unwrap();
    let second = c.submit_command(a, 100, "second".to_string(), T + 2).unwrap();
    let third = c.submit_command(a, 500, "third".to_string(), T + 3).unwrap();
    let handed = c.poll(a, T + 4).unwrap();
    assert_eq!(
        handed,
        vec![
            PendingCommand { id: first, text: "first".to_string() },
            PendingCommand { id: second, text: "second".to_string() },
            PendingCommand { id: third, text: "third".to_string() },
        ]
    );
}

#[test]
fn second_result_for_a_command_is_ignored() {
    let mut c = coordinator();
    let a = c.register(1, "alpha".to_string(), "Linux".to_string(), T);
    let c1 = c.submit_command(a, 100, "whoami".to_string(), T + 1).unwrap();
    c.poll(a, T + 2).unwrap();
    assert_eq!(c.report_result(c1, ok_result("root\n"), T + 3), Ok(()));
    let other = CommandResult {
        output: "nobody\n".to_string(),
        error: Some("late".to_string()),
        exit_code: 3,
    };
    assert_eq!(c.report_result(c1, other, T + 4), Ok(()));

    let stored = c.get_command(c1).unwrap();
    assert_eq!(stored.state, CommandState::Completed);
    assert_eq!(stored.result, Some(ok_result("root\n")));
    assert_eq!(stored.resolved_at, Some(T + 3));
    let history = c.list_command_history(a, T + 5).unwrap();
    assert_eq!(history, vec![stored]);
    // The repeated report still counts as a contact.
    assert_eq!(c.get_agent(a).unwrap().last_seen, T + 4);
}

#[test]
fn status_flips_exactly_at_the_liveness_timeout() {
    let mut c = coordinator();
    let a = c.register(1, "alpha".to_string(), "Linux".to_string(), T);
    assert_eq!(c.get_session(a, T - 5).unwrap().status, AgentStatus::Online);
    assert_eq!(c.get_session(a, T).unwrap().status, AgentStatus::Online);
    assert_eq!(c.get_session(a, T + 29_999).unwrap().status, AgentStatus::Online);
    assert_eq!(c.get_session(a, T + 30_000).unwrap().status, AgentStatus::Offline);
    assert_eq!(c.get_session(a, T + 30_001).unwrap().status, AgentStatus::Offline);
    // Asking changes nothing.
    assert_eq!(c.get_agent(a).unwrap().last_seen, T);
}

#[test]
fn timed_out_command_stays_timed_out() {
    let mut c = coordinator();
    let a = c.register(1, "alpha".to_string(), "Linux".to_string(), T);
    let c1 = c.submit_command(a, 100, "hang".to_string(), T).unwrap();
    c.poll(a, T).unwrap();
    assert_eq!(c.sweep_timeouts(T + 60_001), 1);
    let timed_out = c.get_command(c1).unwrap();
    assert_eq!(timed_out.state, CommandState::TimedOut);

    // A second sweep, a late result, a poll and a cancellation leave it alone.
    assert_eq!(c.sweep_timeouts(T + 500_000), 0);
    assert_eq!(c.report_result(c1, ok_result("late"), T + 500_001), Ok(()));
    assert_eq!(c.poll(a, T + 500_002), Ok(vec![]));
    assert_eq!(c.cancel_command(c1), Err(CoordinatorError::InvalidState));
    assert_eq!(c.get_command(c1).unwrap(), timed_out);
    assert_eq!(c.list_command_history(a, T + 900_000), Ok(vec![timed_out]));
}

#[test]
fn work_for_one_agent_leaves_the_other_alone() {
    let mut c = coordinator();
    let x = c.register(1, "xray".to_string(), "Linux".to_string(), T);
    let y = c.register(2, "yankee".to_string(), "Linux".to_string(), T);
    let y1 = c.submit_command(y, 50, "uptime".to_string(), T + 1).unwrap();
    let y2 = c.submit_command(y, 51, "df".to_string(), T + 2).unwrap();
    c.poll(y, T + 3).unwrap();
    c.report_result(y1, ok_result("up"), T + 4).unwrap();
    let y3 = c.submit_command(y, 52, "ls".to_string(), T + 5).unwrap();
    let history_of_y = c.list_command_history(y, T + 6).unwrap();
    assert_eq!(history_of_y.len(), 1);

    let x1 = c.submit_command(x, 60, "id".to_string(), T + 7).unwrap();
    assert_eq!(c.poll(x, T + 8).unwrap().len(), 1);
    assert_eq!(c.report_result(x1, ok_result("uid=0"), T + 9), Ok(()));

    assert_eq!(c.list_command_history(y, T + 10), Ok(history_of_y));
    assert_eq!(c.get_command(y2).unwrap().state, CommandState::Dispatched);
    assert_eq!(c.get_agent(y).unwrap().last_seen, T + 4);
    assert_eq!(
        c.poll(y, T + 11),
        Ok(vec![PendingCommand { id: y3, text: "ls".to_string() }])
    );
}
