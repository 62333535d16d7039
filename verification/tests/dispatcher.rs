use fleet_coordinator::dispatcher::CommandDispatcher;
use fleet_coordinator::model::{
    Command, CommandResult, CommandState, CoordinatorError, PendingCommand,
};

fn result(output: &str, code: i32) -> CommandResult {
    CommandResult { output: output.to_string(), error: None, exit_code: code }
}

fn dispatcher_with(agents: &[u128]) -> CommandDispatcher {
    let mut d = CommandDispatcher::new(60_000);
    for a in agents {
        d.open_queue(*a);
    }
    d
}

#[test]
fn dispatcher_starts_without_agents() {
    let mut d = CommandDispatcher::new(1_234);
    assert_eq!(d.command_timeout(), 1_234);
    assert!(!d.knows_agent(1));
    assert_eq!(d.poll(1, 0), Err(CoordinatorError::NotFound));
    assert_eq!(d.submit(1, 5, "x".to_string(), 0), Err(CoordinatorError::NotFound));
    assert_eq!(d.command(5), Err(CoordinatorError::NotFound));
    assert_eq!(d.owner(5), Err(CoordinatorError::NotFound));
    assert_eq!(d.sweep(i64::MAX), vec![]);
}

#[test]
fn open_queue_twice_keeps_what_is_queued() {
    let mut d = dispatcher_with(&[1]);
    let id = d.submit(1, 5, "x".to_string(), 0).unwrap();
    d.open_queue(1);
    assert_eq!(d.poll(1, 1), Ok(vec![PendingCommand { id, text: "x".to_string() }]));
}

#[test]
fn submit_creates_a_queued_command() {
    let mut d = dispatcher_with(&[1]);
    let id = d.submit(1, 77, "uname -a".to_string(), 500).unwrap();
    assert_eq!(id, 77);
    assert_eq!(d.owner(id), Ok(1));
    assert_eq!(
        d.command(id),
        Ok(Command {
            id: 77,
            agent_id: 1,
            text: "uname -a".to_string(),
            state: CommandState::Queued,
            submitted_at: 500,
            dispatched_at: None,
            resolved_at: None,
            result: None,
        })
    );
}

#[test]
fn submit_moves_past_taken_command_identifiers() {
    let mut d = dispatcher_with(&[1, 2]);
    assert_eq!(d.submit(1, 7, "a".to_string(), 0), Ok(7));
    assert_eq!(d.submit(2, 7, "b".to_string(), 0), Ok(8));
    assert_eq!(d.submit(1, 7, "c".to_string(), 0), Ok(9));
    assert_eq!(d.submit(1, u128::MAX, "d".to_string(), 0), Ok(u128::MAX));
    assert_eq!(d.submit(1, u128::MAX, "e".to_string(), 0), Ok(0));
    // An identifier freed by a cancellation can be taken again.
    assert_eq!(d.cancel(8), Ok(()));
    assert_eq!(d.submit(2, 7, "f".to_string(), 0), Ok(8));
}

#[test]
fn poll_marks_commands_dispatched() {
    let mut d = dispatcher_with(&[1]);
    let a = d.submit(1, 10, "a".to_string(), 100).unwrap();
    let b = d.submit(1, 20, "b".to_string(), 200).unwrap();
    let handed = d.poll(1, 300).unwrap();
    assert_eq!(
        handed,
        vec![
            PendingCommand { id: a, text: "a".to_string() },
            PendingCommand { id: b, text: "b".to_string() },
        ]
    );
    for id in [a, b] {
        let c = d.command(id).unwrap();
        assert_eq!(c.state, CommandState::Dispatched);
        assert_eq!(c.dispatched_at, Some(300));
        assert_eq!(c.resolved_at, None);
        assert_eq!(c.result, None);
    }
    assert_eq!(d.command(a).unwrap().submitted_at, 100);
    assert_eq!(d.poll(1, 301), Ok(vec![]));
}

#[test]
fn poll_hands_out_only_the_own_queue() {
    let mut d = dispatcher_with(&[1, 2]);
    let a = d.submit(1, 10, "for one".to_string(), 0).unwrap();
    let b = d.submit(2, 20, "for two".to_string(), 0).unwrap();
    assert_eq!(d.poll(2, 5), Ok(vec![PendingCommand { id: b, text: "for two".to_string() }]));
    assert_eq!(d.command(a).unwrap().state, CommandState::Queued);
    assert_eq!(d.poll(1, 6), Ok(vec![PendingCommand { id: a, text: "for one".to_string() }]));
}

#[test]
fn resolve_completes_a_dispatched_command() {
    let mut d = dispatcher_with(&[1]);
    let id = d.submit(1, 10, "a".to_string(), 100).unwrap();
    d.poll(1, 200).unwrap();
    let reported = CommandResult {
        output: "out".to_string(),
        error: Some("warn".to_string()),
        exit_code: 2,
    };
    let record = d.resolve(id, reported.clone(), 300).unwrap().unwrap();
    assert_eq!(record.state, CommandState::Completed);
    assert_eq!(record.result, Some(reported));
    assert_eq!(record.resolved_at, Some(300));
    assert_eq!(record.dispatched_at, Some(200));
    assert_eq!(record.submitted_at, 100);
    assert_eq!(d.command(id), Ok(record));
}

#[test]
fn resolve_of_queued_command_is_invalid_state() {
    let mut d = dispatcher_with(&[1]);
    let id = d.submit(1, 10, "a".to_string(), 100).unwrap();
    assert_eq!(d.resolve(id, result("x", 0), 150), Err(CoordinatorError::InvalidState));
    let c = d.command(id).unwrap();
    assert_eq!(c.state, CommandState::Queued);
    assert_eq!(c.result, None);
    // It is still handed out by the next poll.
    assert_eq!(d.poll(1, 200).unwrap().len(), 1);
}

#[test]
fn resolve_of_unknown_command_is_not_found() {
    let mut d = dispatcher_with(&[1]);
    assert_eq!(d.resolve(10, result("x", 0), 150), Err(CoordinatorError::NotFound));
}

#[test]
fn resolve_twice_keeps_the_first_result() {
    let mut d = dispatcher_with(&[1]);
    let id = d.submit(1, 10, "a".to_string(), 100).unwrap();
    d.poll(1, 200).unwrap();
    assert!(d.resolve(id, result("first", 0), 300).unwrap().is_some());
    assert_eq!(d.resolve(id, result("second", 1), 400), Ok(None));
    let c = d.command(id).unwrap();
    assert_eq!(c.result, Some(result("first", 0)));
    assert_eq!(c.resolved_at, Some(300));
}

#[test]
fn resolve_after_timeout_is_ignored() {
    let mut d = dispatcher_with(&[1]);
    let id = d.submit(1, 10, "a".to_string(), 0).unwrap();
    d.poll(1, 0).unwrap();
    assert_eq!(d.sweep(60_001).len(), 1);
    assert_eq!(d.resolve(id, result("late", 0), 60_002), Ok(None));
    let c = d.command(id).unwrap();
    assert_eq!(c.state, CommandState::TimedOut);
    assert_eq!(c.result, Some(CommandResult::timed_out()));
}

#[test]
fn late_result_before_any_sweep_still_completes() {
    let mut d = dispatcher_with(&[1]);
    let id = d.submit(1, 10, "a".to_string(), 0).unwrap();
    d.poll(1, 0).unwrap();
    assert!(d.resolve(id, result("slow", 0), 999_999).unwrap().is_some());
    assert_eq!(d.sweep(1_000_000), vec![]);
    assert_eq!(d.command(id).unwrap().state, CommandState::Completed);
}

#[test]
fn sweep_times_out_only_overdue_dispatched_commands() {
    let mut d = dispatcher_with(&[1, 2]);
    let old = d.submit(1, 10, "old".to_string(), 0).unwrap();
    d.poll(1, 1_000).unwrap();
    let young = d.submit(2, 20, "young".to_string(), 0).unwrap();
    d.poll(2, 30_000).unwrap();
    let queued = d.submit(1, 30, "queued".to_string(), 0).unwrap();
    let done = d.submit(2, 40, "done".to_string(), 0).unwrap();
    d.poll(2, 2_000).unwrap();
    d.resolve(done, result("ok", 0), 2_500).unwrap();

    // 61 000 is exactly the timeout after the dispatch of `old`: not yet overdue.
    assert_eq!(d.sweep(61_000), vec![]);
    let expired = d.sweep(61_001);
    assert_eq!(expired.len(), 1);
    assert_eq!(expired[0].id, old);
    assert_eq!(expired[0].state, CommandState::TimedOut);
    assert_eq!(expired[0].resolved_at, Some(61_001));
    assert_eq!(expired[0].dispatched_at, Some(1_000));
    assert_eq!(
        expired[0].result,
        Some(CommandResult {
            output: String::new(),
            error: Some("timed out".to_string()),
            exit_code: -1,
        })
    );
    assert_eq!(d.command(old), Ok(expired[0].clone()));
    assert_eq!(d.command(young).unwrap().state, CommandState::Dispatched);
    assert_eq!(d.command(queued).unwrap().state, CommandState::Queued);
    assert_eq!(d.command(done).unwrap().state, CommandState::Completed);
}

#[test]
fn sweep_returns_records_in_dispatch_order() {
    let mut d = dispatcher_with(&[1, 2, 3]);
    let c3 = d.submit(3, 300, "c".to_string(), 0).unwrap();
    let c1 = d.submit(1, 100, "a".to_string(), 0).unwrap();
    let c2 = d.submit(2, 200, "b".to_string(), 0).unwrap();
    let c1b = d.submit(1, 101, "a2".to_string(), 0).unwrap();
    d.poll(2, 50).unwrap();
    d.poll(1, 10).unwrap();
    d.poll(3, 30).unwrap();
    let expired = d.sweep(1_000_000);
    let ids: Vec<u128> = expired.iter().map(|c| c.id).collect();
    assert_eq!(ids, vec![c2, c1, c1b, c3]);
    assert_eq!(d.sweep(2_000_000), vec![]);
}

#[test]
fn sweep_keeps_the_rest_in_flight() {
    let mut d = dispatcher_with(&[1]);
    let a = d.submit(1, 1, "a".to_string(), 0).unwrap();
    d.poll(1, 0).unwrap();
    let b = d.submit(1, 2, "b".to_string(), 0).unwrap();
    d.poll(1, 50_000).unwrap();
    let c = d.submit(1, 3, "c".to_string(), 0).unwrap();
    d.poll(1, 10_000).unwrap();
    let first: Vec<u128> = d.sweep(70_001).iter().map(|x| x.id).collect();
    assert_eq!(first, vec![a, c]);
    assert!(d.resolve(b, result("ok", 0), 70_002).unwrap().is_some());
    assert_eq!(d.sweep(i64::MAX), vec![]);
}

#[test]
fn cancel_removes_a_queued_command() {
    let mut d = dispatcher_with(&[1]);
    let a = d.submit(1, 1, "a".to_string(), 0).unwrap();
    let b = d.submit(1, 2, "b".to_string(), 0).unwrap();
    let c = d.submit(1, 3, "c".to_string(), 0).unwrap();
    assert_eq!(d.cancel(b), Ok(()));
    assert_eq!(d.command(b), Err(CoordinatorError::NotFound));
    assert_eq!(d.cancel(b), Err(CoordinatorError::NotFound));
    assert_eq!(
        d.poll(1, 10),
        Ok(vec![
            PendingCommand { id: a, text: "a".to_string() },
            PendingCommand { id: c, text: "c".to_string() },
        ])
    );
}

#[test]
fn cancel_after_dispatch_is_invalid_state() {
    let mut d = dispatcher_with(&[1]);
    let a = d.submit(1, 1, "a".to_string(), 0).unwrap();
    d.poll(1, 10).unwrap();
    assert_eq!(d.cancel(a), Err(CoordinatorError::InvalidState));
    assert_eq!(d.command(a).unwrap().state, CommandState::Dispatched);
    d.resolve(a, result("ok", 0), 20).unwrap();
    assert_eq!(d.cancel(a), Err(CoordinatorError::InvalidState));
    assert_eq!(d.command(a).unwrap().state, CommandState::Completed);
}

#[test]
fn cancel_of_unknown_command_is_not_found() {
    let mut d = dispatcher_with(&[1]);
    assert_eq!(d.cancel(1), Err(CoordinatorError::NotFound));
}

#[test]
fn overdue_is_strictly_after_the_timeout() {
    let base = Command {
        id: 1,
        agent_id: 1,
        text: "x".to_string(),
        state: CommandState::Dispatched,
        submitted_at: 0,
        dispatched_at: Some(100),
        resolved_at: None,
        result: None,
    };
    assert!(!base.is_overdue(100, 0));
    assert!(base.is_overdue(101, 0));
    assert!(!base.is_overdue(160, 60));
    assert!(base.is_overdue(161, 60));
    assert!(!base.is_overdue(i64::MAX, u64::MAX));
    let queued = Command { state: CommandState::Queued, dispatched_at: None, ..base.clone() };
    assert!(!queued.is_overdue(i64::MAX, 0));
    let done = Command { state: CommandState::Completed, ..base.clone() };
    assert!(!done.is_overdue(i64::MAX, 0));
    let far = Command { dispatched_at: Some(i64::MIN), ..base };
    assert!(far.is_overdue(i64::MAX, u64::MAX - 1));
    assert!(!far.is_overdue(i64::MAX, u64::MAX));
}
