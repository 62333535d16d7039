use fleet_coordinator::model::{
    Command, CommandResult, CommandState, CoordinatorError, Screenshot,
};
use fleet_coordinator::store::ArtifactStore;

fn record(id: u128, agent: u128, at: i64) -> Command {
    Command {
        id,
        agent_id: agent,
        text: format!("cmd-{}", id),
        state: CommandState::Completed,
        submitted_at: at - 2,
        dispatched_at: Some(at - 1),
        resolved_at: Some(at),
        result: Some(CommandResult { output: "ok".to_string(), error: None, exit_code: 0 }),
    }
}

#[test]
fn store_starts_without_agents() {
    let mut s = ArtifactStore::new();
    assert!(!s.knows(1));
    assert_eq!(s.list_screenshots(1), Err(CoordinatorError::NotFound));
    assert_eq!(s.list_command_history(1), Err(CoordinatorError::NotFound));
    assert_eq!(s.append_screenshot(1, vec![1, 2], 0), Err(CoordinatorError::NotFound));
    assert_eq!(s.record(record(1, 1, 10)), Err(CoordinatorError::NotFound));
}

#[test]
fn known_agent_without_entries_lists_nothing() {
    let mut s = ArtifactStore::new();
    s.open(1);
    assert!(s.knows(1));
    assert_eq!(s.list_screenshots(1), Ok(vec![]));
    assert_eq!(s.list_command_history(1), Ok(vec![]));
}

#[test]
fn screenshots_are_listed_oldest_first() {
    let mut s = ArtifactStore::new();
    s.open(1);
    s.open(2);
    assert_eq!(s.append_screenshot(1, vec![0xff, 0xd8], 300), Ok(()));
    assert_eq!(s.append_screenshot(2, vec![9], 310), Ok(()));
    assert_eq!(s.append_screenshot(1, vec![], 100), Ok(()));
    assert_eq!(s.append_screenshot(1, vec![1, 2, 3], 200), Ok(()));
    assert_eq!(
        s.list_screenshots(1),
        Ok(vec![
            Screenshot { agent_id: 1, captured_at: 300, image_data: vec![0xff, 0xd8] },
            Screenshot { agent_id: 1, captured_at: 100, image_data: vec![] },
            Screenshot { agent_id: 1, captured_at: 200, image_data: vec![1, 2, 3] },
        ])
    );
    assert_eq!(
        s.list_screenshots(2),
        Ok(vec![Screenshot { agent_id: 2, captured_at: 310, image_data: vec![9] }])
    );
}

#[test]
fn open_again_keeps_entries() {
    let mut s = ArtifactStore::new();
    s.open(1);
    s.append_screenshot(1, vec![7], 1).unwrap();
    s.record(record(5, 1, 10)).unwrap();
    s.open(1);
    assert_eq!(s.list_screenshots(1).unwrap().len(), 1);
    assert_eq!(s.list_command_history(1), Ok(vec![record(5, 1, 10)]));
}

#[test]
fn records_go_to_the_history_of_their_agent() {
    let mut s = ArtifactStore::new();
    s.open(1);
    s.open(2);
    assert_eq!(s.record(record(10, 1, 100)), Ok(()));
    assert_eq!(s.record(record(20, 2, 50)), Ok(()));
    assert_eq!(s.record(record(11, 1, 10)), Ok(()));
    assert_eq!(s.list_command_history(1), Ok(vec![record(10, 1, 100), record(11, 1, 10)]));
    assert_eq!(s.list_command_history(2), Ok(vec![record(20, 2, 50)]));
}

#[test]
fn record_all_appends_in_order_and_skips_unknown_agents() {
    let mut s = ArtifactStore::new();
    s.open(1);
    s.open(2);
    s.record(record(1, 1, 5)).unwrap();
    let batch =
        vec![record(2, 2, 6), record(3, 1, 7), record(4, 9, 8), record(5, 1, 9), record(6, 2, 10)];
    s.record_all(&batch);
    assert_eq!(
        s.list_command_history(1),
        Ok(vec![record(1, 1, 5), record(3, 1, 7), record(5, 1, 9)])
    );
    assert_eq!(s.list_command_history(2), Ok(vec![record(2, 2, 6), record(6, 2, 10)]));
    assert!(!s.knows(9));
    s.record_all(&vec![]);
    assert_eq!(s.list_command_history(2).unwrap().len(), 2);
}

#[test]
fn copies_are_equal_to_what_they_copy() {
    let shot = Screenshot { agent_id: 3, captured_at: 9, image_data: vec![1, 2, 3, 255] };
    assert_eq!(shot.duplicate(), shot);
    let full = record(1, 2, 3);
    assert_eq!(full.duplicate(), full);
    let bare = Command { result: None, resolved_at: None, state: CommandState::Dispatched, ..full };
    assert_eq!(bare.duplicate(), bare);
    let failed = CommandResult {
        output: String::new(),
        error: Some("boom".to_string()),
        exit_code: -7,
    };
    assert_eq!(failed.duplicate(), failed);
    assert_eq!(
        CommandResult::timed_out(),
        CommandResult { output: String::new(), error: Some("timed out".to_string()), exit_code: -1 }
    );
}
