//! The records the coordinator keeps and hands out, and their mathematical views.

use vstd::prelude::*;
use vstd::string::*;

verus! {

/// Identifies an agent. Assigned at registration, never reused.
pub type AgentId = u128;

/// Identifies a command. Assigned at submission, never reused.
pub type CommandId = u128;

/// A point in time: milliseconds since the Unix epoch.
pub type Timestamp = i64;

/// The interval, in milliseconds, at which agents are expected to poll.
pub const DEFAULT_POLL_INTERVAL_MS: u64 = 5_000;

/// The default liveness timeout: three poll intervals.
pub const DEFAULT_LIVENESS_TIMEOUT_MS: u64 = 15_000;

/// The default time a dispatched command may stay unanswered.
pub const DEFAULT_COMMAND_TIMEOUT_MS: u64 = 60_000;

/// Why an operation was refused.
#[derive(Clone, Copy, Debug, PartialEq, Eq, Structural)]
pub enum CoordinatorError {
    /// The agent or command that the request names does not exist.
    NotFound,
    /// The command is not in a state in which the operation is allowed.
    InvalidState,
}

/// Whether an agent has been heard from recently. Never stored: it is derived
/// from the time of the last contact each time it is asked for.
#[derive(Clone, Copy, Debug, PartialEq, Eq, Structural)]
pub enum AgentStatus {
    Online,
    Offline,
}

/// The status, at time `now`, of an agent last heard from at `last_seen`:
/// online while less than `liveness_timeout` has passed since.
pub open spec fn status_at(last_seen: int, now: int, liveness_timeout: int) -> AgentStatus {
    if now - last_seen < liveness_timeout {
        AgentStatus::Online
    } else {
        AgentStatus::Offline
    }
}

/// Derives the status of an agent from the time of its last contact.
pub fn liveness(last_seen: Timestamp, now: Timestamp, liveness_timeout_ms: u64) -> (status:
    AgentStatus)
    ensures
        status == status_at(last_seen as int, now as int, liveness_timeout_ms as int),
{
    let elapsed: i128 = now as i128 - last_seen as i128;
    if elapsed < liveness_timeout_ms as i128 {
        AgentStatus::Online
    } else {
        AgentStatus::Offline
    }
}

/// The liveness timeout that goes with a poll interval: three times the
/// interval, or nothing where that does not fit the type.
pub fn liveness_timeout_for(poll_interval_ms: u64) -> (timeout: Option<u64>)
    ensures
        timeout == if 3 * poll_interval_ms <= u64::MAX {
            Some((3 * poll_interval_ms) as u64)
        } else {
            None
        },
{
    poll_interval_ms.checked_mul(3)
}

/// The order of a listing: the first host name comes before the second, or
/// they are the same and the first identifier is the smaller.
pub open spec fn listing_key_precedes(
    hostname: Seq<char>,
    id: AgentId,
    other_hostname: Seq<char>,
    other_id: AgentId,
) -> bool {
    crate::text::precedes(hostname, other_hostname) || (hostname == other_hostname && id
        < other_id)
}

/// A remote node as the registry knows it.
#[derive(Clone, Debug, PartialEq, Eq)]
pub struct Agent {
    pub id: AgentId,
    pub hostname: String,
    pub os_info: String,
    pub last_seen: Timestamp,
}

/// What an `Agent` stands for.
pub struct AgentView {
    pub id: AgentId,
    pub hostname: Seq<char>,
    pub os_info: Seq<char>,
    pub last_seen: Timestamp,
}

impl View for Agent {
    type V = AgentView;

    open spec fn view(&self) -> AgentView {
        AgentView {
            id: self.id,
            hostname: self.hostname@,
            os_info: self.os_info@,
            last_seen: self.last_seen,
        }
    }
}

impl AgentView {
    /// The same agent, heard from at `now`.
    pub open spec fn seen_at(self, now: Timestamp) -> AgentView {
        AgentView { last_seen: now, ..self }
    }

    /// The agent's status at `now` under the given liveness timeout.
    pub open spec fn status(self, now: Timestamp, liveness_timeout: u64) -> AgentStatus {
        status_at(self.last_seen as int, now as int, liveness_timeout as int)
    }

    /// This agent is listed before `other`: by host name, then by identifier.
    pub open spec fn listed_before(self, other: AgentView) -> bool {
        listing_key_precedes(self.hostname, self.id, other.hostname, other.id)
    }
}

impl Agent {
    /// A copy of the record.
    pub fn duplicate(&self) -> (copy: Agent)
        ensures
            copy == *self,
    {
        Agent {
            id: self.id,
            hostname: self.hostname.clone(),
            os_info: self.os_info.clone(),
            last_seen: self.last_seen,
        }
    }
}

/// An agent together with its status at the time of the query.
#[derive(Clone, Debug, PartialEq, Eq)]
pub struct Session {
    pub agent: Agent,
    pub status: AgentStatus,
}

/// What a `Session` stands for.
pub struct SessionView {
    pub agent: AgentView,
    pub status: AgentStatus,
}

impl View for Session {
    type V = SessionView;

    open spec fn view(&self) -> SessionView {
        SessionView { agent: self.agent@, status: self.status }
    }
}

impl AgentView {
    /// The session that a query at `now` shows for this agent.
    pub open spec fn session(self, now: Timestamp, liveness_timeout: u64) -> SessionView {
        SessionView { agent: self, status: self.status(now, liveness_timeout) }
    }
}

/// Where a command stands in its life.
#[derive(Clone, Copy, Debug, PartialEq, Eq, Structural)]
pub enum CommandState {
    /// Submitted, not yet handed to the agent.
    Queued,
    /// Handed to the agent by a poll; no result yet.
    Dispatched,
    /// The agent reported a result.
    Completed,
    /// Could not be run. A terminal state like `Completed`; none of the
    /// coordinator's operations puts a command into it.
    Failed,
    /// No result came within the command timeout.
    TimedOut,
}

impl CommandState {
    /// The state is one that a command never leaves.
    pub open spec fn is_terminal(self) -> bool {
        self is Completed || self is Failed || self is TimedOut
    }
}

/// What an agent reports after running a command.
#[derive(Clone, Debug, PartialEq, Eq)]
pub struct CommandResult {
    pub output: String,
    pub error: Option<String>,
    pub exit_code: i32,
}

/// What a `CommandResult` stands for.
pub struct CommandResultView {
    pub output: Seq<char>,
    pub error: Option<Seq<char>>,
    pub exit_code: i32,
}

/// The view of an optional text.
pub open spec fn text_view(text: Option<String>) -> Option<Seq<char>> {
    match text {
        Some(t) => Some(t@),
        None => None,
    }
}

impl View for CommandResult {
    type V = CommandResultView;

    open spec fn view(&self) -> CommandResultView {
        CommandResultView {
            output: self.output@,
            error: text_view(self.error),
            exit_code: self.exit_code,
        }
    }
}

/// The result recorded for a command that timed out: no output, the error
/// text "timed out" and exit code -1.
pub open spec fn timed_out_result() -> CommandResultView {
    CommandResultView { output: Seq::empty(), error: Some("timed out"@), exit_code: -1i32 }
}

impl CommandResult {
    /// A copy of the result.
    pub fn duplicate(&self) -> (copy: CommandResult)
        ensures
            copy == *self,
    {
        let error = match &self.error {
            Some(text) => Some(text.clone()),
            None => None,
        };
        CommandResult { output: self.output.clone(), error, exit_code: self.exit_code }
    }

    /// The result recorded for a command that timed out.
    pub fn timed_out() -> (result: CommandResult)
        ensures
            result@ == timed_out_result(),
    {
        CommandResult {
            output: String::new(),
            error: Some(String::from_str("timed out")),
            exit_code: -1,
        }
    }
}

/// One unit of work for one agent.
#[derive(Clone, Debug, PartialEq, Eq)]
pub struct Command {
    pub id: CommandId,
    pub agent_id: AgentId,
    pub text: String,
    pub state: CommandState,
    pub submitted_at: Timestamp,
    pub dispatched_at: Option<Timestamp>,
    pub resolved_at: Option<Timestamp>,
    pub result: Option<CommandResult>,
}

/// What a `Command` stands for.
pub struct CommandView {
    pub id: CommandId,
    pub agent_id: AgentId,
    pub text: Seq<char>,
    pub state: CommandState,
    pub submitted_at: Timestamp,
    pub dispatched_at: Option<Timestamp>,
    pub resolved_at: Option<Timestamp>,
    pub result: Option<CommandResultView>,
}

/// The view of an optional result.
pub open spec fn result_view(result: Option<CommandResult>) -> Option<CommandResultView> {
    match result {
        Some(r) => Some(r@),
        None => None,
    }
}

impl View for Command {
    type V = CommandView;

    open spec fn view(&self) -> CommandView {
        CommandView {
            id: self.id,
            agent_id: self.agent_id,
            text: self.text@,
            state: self.state,
            submitted_at: self.submitted_at,
            dispatched_at: self.dispatched_at,
            resolved_at: self.resolved_at,
            result: result_view(self.result),
        }
    }
}

impl CommandView {
    /// A command as submission creates it.
    pub open spec fn queued(id: CommandId, agent_id: AgentId, text: Seq<char>, now: Timestamp)
        -> CommandView {
        CommandView {
            id,
            agent_id,
            text,
            state: CommandState::Queued,
            submitted_at: now,
            dispatched_at: None,
            resolved_at: None,
            result: None,
        }
    }

    /// The command after a poll at `now` handed it to its agent.
    pub open spec fn dispatched(self, now: Timestamp) -> CommandView {
        CommandView { state: CommandState::Dispatched, dispatched_at: Some(now), ..self }
    }

    /// The command after its agent reported `result` at `now`.
    pub open spec fn completed(self, result: CommandResultView, now: Timestamp) -> CommandView {
        CommandView {
            state: CommandState::Completed,
            resolved_at: Some(now),
            result: Some(result),
            ..self
        }
    }

    /// The command after it was found, at `now`, to have timed out.
    pub open spec fn timed_out(self, now: Timestamp) -> CommandView {
        CommandView {
            state: CommandState::TimedOut,
            resolved_at: Some(now),
            result: Some(timed_out_result()),
            ..self
        }
    }

    /// The command was dispatched and more than `command_timeout` has passed
    /// since without a result.
    pub open spec fn is_overdue(self, now: Timestamp, command_timeout: u64) -> bool {
        &&& self.state is Dispatched
        &&& self.dispatched_at matches Some(at)
        &&& now - at > command_timeout
    }

    /// The fields that go with the state are set, and no others.
    pub open spec fn is_consistent(self) -> bool {
        match self.state {
            CommandState::Queued => self.dispatched_at is None && self.resolved_at is None
                && self.result is None,
            CommandState::Dispatched => self.dispatched_at is Some && self.resolved_at is None
                && self.result is None,
            _ => self.dispatched_at is Some && self.resolved_at is Some && self.result is Some,
        }
    }

    /// What a poll hands to the agent for this command.
    pub open spec fn pending(self) -> PendingCommandView {
        PendingCommandView { id: self.id, text: self.text }
    }
}

impl Command {
    /// A copy of the record.
    pub fn duplicate(&self) -> (copy: Command)
        ensures
            copy == *self,
    {
        let result = match &self.result {
            Some(r) => Some(r.duplicate()),
            None => None,
        };
        Command {
            id: self.id,
            agent_id: self.agent_id,
            text: self.text.clone(),
            state: self.state,
            submitted_at: self.submitted_at,
            dispatched_at: self.dispatched_at,
            resolved_at: self.resolved_at,
            result,
        }
    }

    /// Decides whether the command was dispatched more than `command_timeout_ms` ago.
    pub fn is_overdue(&self, now: Timestamp, command_timeout_ms: u64) -> (overdue: bool)
        ensures
            overdue == self@.is_overdue(now, command_timeout_ms),
    {
        match (self.state, self.dispatched_at) {
            (CommandState::Dispatched, Some(at)) => now as i128 - at as i128
                > command_timeout_ms as i128,
            _ => false,
        }
    }
}

/// What an agent receives for a command it is to run.
#[derive(Clone, Debug, PartialEq, Eq)]
pub struct PendingCommand {
    pub id: CommandId,
    pub text: String,
}

/// What a `PendingCommand` stands for.
pub struct PendingCommandView {
    pub id: CommandId,
    pub text: Seq<char>,
}

impl View for PendingCommand {
    type V = PendingCommandView;

    open spec fn view(&self) -> PendingCommandView {
        PendingCommandView { id: self.id, text: self.text@ }
    }
}

/// An image captured on an agent.
#[derive(Clone, Debug, PartialEq, Eq)]
pub struct Screenshot {
    pub agent_id: AgentId,
    pub captured_at: Timestamp,
    pub image_data: Vec<u8>,
}

/// What a `Screenshot` stands for.
pub struct ScreenshotView {
    pub agent_id: AgentId,
    pub captured_at: Timestamp,
    pub image_data: Seq<u8>,
}

impl View for Screenshot {
    type V = ScreenshotView;

    open spec fn view(&self) -> ScreenshotView {
        ScreenshotView {
            agent_id: self.agent_id,
            captured_at: self.captured_at,
            image_data: self.image_data@,
        }
    }
}

impl Screenshot {
    /// A copy of the screenshot.
    pub fn duplicate(&self) -> (copy: Screenshot)
        ensures
            copy@ == self@,
    {
        Screenshot {
            agent_id: self.agent_id,
            captured_at: self.captured_at,
            image_data: self.image_data.clone(),
        }
    }
}

/// The views of the items of a sequence, in order.
pub open spec fn views<T: View>(items: Seq<T>) -> Seq<T::V> {
    items.map_values(|item: T| item@)
}

} // verus!
