//! The coordinator as a state machine over mathematical values: the three
//! components side by side, and what each operation of the two protocols, the
//! agents' and the operators', makes of them.

use crate::ident::identifier_space;
use crate::lifecycle::{
    lemma_cancel_inv, lemma_filter_no_duplicates, lemma_open_queue_inv, lemma_poll_inv,
    lemma_resolve_inv, lemma_submit_inv, lemma_sweep_inv, overdue_in, DispatcherView,
};
use crate::model::{
    AgentId, CommandId, CommandResultView, CommandView, CoordinatorError, PendingCommandView,
    Timestamp,
};
use crate::registry::RegistryView;
use crate::store::{
    lemma_append_screenshot_inv, lemma_open_inv, lemma_record_all, lemma_record_inv, StoreView,
};
use vstd::prelude::*;

verus! {

/// What a coordinator stands for.
pub struct CoordinatorView {
    pub registry: RegistryView,
    pub dispatcher: DispatcherView,
    pub store: StoreView,
}

impl CoordinatorView {
    /// A coordinator without agents.
    pub open spec fn empty(liveness_timeout: u64, command_timeout: u64) -> CoordinatorView {
        CoordinatorView {
            registry: RegistryView { agents: Map::empty(), liveness_timeout },
            dispatcher: DispatcherView::empty(command_timeout),
            store: StoreView::empty(),
        }
    }

    /// An agent with this identifier is registered.
    pub open spec fn knows_agent(self, agent: AgentId) -> bool {
        self.registry.knows(agent)
    }

    /// The queued commands of `agent`, oldest first; empty for an unknown agent.
    pub open spec fn queue(self, agent: AgentId) -> Seq<CommandId> {
        if self.dispatcher.knows_agent(agent) {
            self.dispatcher.queues[agent]
        } else {
            Seq::empty()
        }
    }

    /// The records of the commands resolved for `agent`, in the order of their
    /// resolution; empty for an unknown agent.
    pub open spec fn history(self, agent: AgentId) -> Seq<CommandView> {
        if self.store.knows(agent) {
            self.store.history[agent]
        } else {
            Seq::empty()
        }
    }

    /// The three components know the same agents.
    pub open spec fn same_agents(self) -> bool {
        forall|agent: AgentId| #[trigger]
            self.registry.knows(agent) == self.dispatcher.knows_agent(agent) && self.registry.knows(
                agent,
            ) == self.store.knows(agent)
    }

    /// Every record in a history is the record of a resolved command as the
    /// dispatcher holds it.
    pub open spec fn history_is_settled(self) -> bool {
        forall|agent: AgentId, i: int|
            #![trigger self.store.history[agent][i]]
            self.store.history.contains_key(agent) && 0 <= i < self.store.history[agent].len() ==> {
                let record = self.store.history[agent][i];
                &&& self.dispatcher.commands.contains_key(record.id)
                &&& self.dispatcher.commands[record.id] == record
                &&& record.state.is_terminal()
            }
    }

    /// No command has two records in a history.
    pub open spec fn history_is_single(self) -> bool {
        forall|agent: AgentId, i: int, j: int|
            #![trigger self.store.history[agent][i], self.store.history[agent][j]]
            self.store.history.contains_key(agent) && 0 <= i < j < self.store.history[agent].len()
                ==> self.store.history[agent][i].id != self.store.history[agent][j].id
    }

    /// Command `id` has a record in the history of its agent.
    pub open spec fn is_recorded(self, id: CommandId) -> bool {
        let records = self.store.history[self.dispatcher.commands[id].agent_id];
        exists|i: int| 0 <= i < records.len() && (#[trigger] records[i]).id == id
    }

    /// Every resolved command has a record in the history of its agent.
    pub open spec fn history_is_complete(self) -> bool {
        forall|id: CommandId| #[trigger]
            self.dispatcher.commands.contains_key(id) && self.dispatcher.commands[id].state
                .is_terminal() ==> self.is_recorded(id)
    }

    /// The components are valid and know the same agents, and the histories
    /// hold one record for each resolved command and nothing else.
    pub open spec fn inv(self) -> bool {
        &&& self.registry.inv()
        &&& self.dispatcher.inv()
        &&& self.store.inv()
        &&& self.same_agents()
        &&& self.history_is_settled()
        &&& self.history_is_single()
        &&& self.history_is_complete()
    }

    /// Identifiers are left for `count` more agents and `count` more commands.
    pub open spec fn has_room_for(self, count: nat) -> bool {
        &&& self.registry.agents.dom().len() + count <= identifier_space()
        &&& self.dispatcher.commands.dom().len() + count <= identifier_space()
    }

    /// Identifiers are left for another agent and another command.
    pub open spec fn has_room(self) -> bool {
        self.has_room_for(1)
    }

    /// The identifier that a registration starting from `candidate` assigns.
    pub open spec fn next_agent_id(self, candidate: u128) -> AgentId {
        self.registry.next_id(candidate)
    }

    /// The coordinator after a registration at `now`: the new agent is known
    /// to all three components, with nothing queued and nothing stored.
    pub open spec fn register(
        self,
        candidate: u128,
        hostname: Seq<char>,
        os_info: Seq<char>,
        now: Timestamp,
    ) -> CoordinatorView {
        let id = self.next_agent_id(candidate);
        CoordinatorView {
            registry: self.registry.register(candidate, hostname, os_info, now),
            dispatcher: self.dispatcher.open_queue(id),
            store: self.store.open(id),
        }
    }

    /// The answer to a request that names an agent and does no more than find it.
    pub open spec fn found(self, agent: AgentId) -> Result<(), CoordinatorError> {
        if self.knows_agent(agent) {
            Ok(())
        } else {
            Err(CoordinatorError::NotFound)
        }
    }

    /// The coordinator after a ping of `agent` at `now`.
    pub open spec fn ping(self, agent: AgentId, now: Timestamp) -> CoordinatorView {
        CoordinatorView { registry: self.registry.touch(agent, now), ..self }
    }

    /// The coordinator after a poll of `agent` at `now`: the agent was heard
    /// from, and its queued commands are dispatched.
    pub open spec fn poll(self, agent: AgentId, now: Timestamp) -> CoordinatorView {
        CoordinatorView {
            registry: self.registry.touch(agent, now),
            dispatcher: self.dispatcher.poll(agent, now),
            ..self
        }
    }

    /// What a poll of `agent` returns.
    pub open spec fn polled(self, agent: AgentId) -> Result<
        Seq<PendingCommandView>,
        CoordinatorError,
    > {
        if self.knows_agent(agent) {
            Ok(self.dispatcher.pending(agent))
        } else {
            Err(CoordinatorError::NotFound)
        }
    }

    /// How a report of a result for command `id` is answered.
    pub open spec fn reported(self, id: CommandId) -> Result<(), CoordinatorError> {
        if !self.dispatcher.knows(id) {
            Err(CoordinatorError::NotFound)
        } else if self.dispatcher.commands[id].state is Queued {
            Err(CoordinatorError::InvalidState)
        } else {
            Ok(())
        }
    }

    /// The coordinator after a report of `result` for command `id` at `now`.
    ///
    /// A command in flight is completed and recorded in the history of its
    /// agent. A report for a command that is already resolved changes neither
    /// the command nor the history. In both cases the agent was heard from. A
    /// refused report changes nothing.
    pub open spec fn report_result(self, id: CommandId, result: CommandResultView, now: Timestamp)
        -> CoordinatorView {
        match self.dispatcher.resolution(id, result, now) {
            Ok(Some(record)) => CoordinatorView {
                registry: self.registry.touch(record.agent_id, now),
                dispatcher: self.dispatcher.resolve(id, result, now),
                store: self.store.record(record),
            },
            Ok(None) => CoordinatorView {
                registry: self.registry.touch(self.dispatcher.commands[id].agent_id, now),
                ..self
            },
            Err(_) => self,
        }
    }

    /// The coordinator after `agent` sent a screenshot at `now`.
    pub open spec fn upload_screenshot(self, agent: AgentId, image_data: Seq<u8>, now: Timestamp)
        -> CoordinatorView {
        CoordinatorView {
            registry: self.registry.touch(agent, now),
            store: self.store.append_screenshot(agent, image_data, now),
            ..self
        }
    }

    /// The identifier that a submission starting from `candidate` assigns.
    pub open spec fn next_command_id(self, candidate: u128) -> CommandId {
        self.dispatcher.next_id(candidate)
    }

    /// How the submission of a command for `agent` is answered.
    pub open spec fn submitted(self, agent: AgentId, candidate: u128) -> Result<
        CommandId,
        CoordinatorError,
    > {
        if self.knows_agent(agent) {
            Ok(self.next_command_id(candidate))
        } else {
            Err(CoordinatorError::NotFound)
        }
    }

    /// The coordinator after the submission of `text` for `agent` at `now`.
    pub open spec fn submit_command(
        self,
        agent: AgentId,
        candidate: u128,
        text: Seq<char>,
        now: Timestamp,
    ) -> CoordinatorView {
        CoordinatorView { dispatcher: self.dispatcher.submit(agent, candidate, text, now), ..self }
    }

    /// The coordinator after a request to cancel command `id`.
    pub open spec fn cancel_command(self, id: CommandId) -> CoordinatorView {
        CoordinatorView { dispatcher: self.dispatcher.cancel(id), ..self }
    }

    /// The coordinator after a sweep at `now`: every overdue command is timed
    /// out and recorded in the history of its agent, in the order of dispatch.
    pub open spec fn sweep(self, now: Timestamp) -> CoordinatorView {
        CoordinatorView {
            dispatcher: self.dispatcher.sweep(now),
            store: self.store.record_all(self.dispatcher.expired(now)),
            ..self
        }
    }

    /// The coordinator after the history of `agent` was read at `now`: the
    /// read sweeps first, unless the agent is unknown.
    pub open spec fn read_history(self, agent: AgentId, now: Timestamp) -> CoordinatorView {
        if self.knows_agent(agent) {
            self.sweep(now)
        } else {
            self
        }
    }

    /// What a read of the history of `agent` at `now` returns.
    pub open spec fn history_read(self, agent: AgentId, now: Timestamp) -> Result<
        Seq<CommandView>,
        CoordinatorError,
    > {
        if self.knows_agent(agent) {
            Ok(self.sweep(now).store.history[agent])
        } else {
            Err(CoordinatorError::NotFound)
        }
    }
}

/// A registration keeps the coordinator valid, and assigns an identifier that
/// no agent had.
pub proof fn lemma_register_inv(
    s: CoordinatorView,
    candidate: u128,
    hostname: Seq<char>,
    os_info: Seq<char>,
    now: Timestamp,
)
    requires
        s.inv(),
        s.has_room(),
    ensures
        s.register(candidate, hostname, os_info, now).inv(),
        !s.knows_agent(s.next_agent_id(candidate)),
        s.register(candidate, hostname, os_info, now).knows_agent(s.next_agent_id(candidate)),
{
    let t = s.register(candidate, hostname, os_info, now);
    let id = s.next_agent_id(candidate);
    crate::ident::lemma_allocate_fresh(s.registry.agents.dom(), candidate);
    lemma_open_queue_inv(s.dispatcher, id);
    lemma_open_inv(s.store, id);
    assert(s.registry.knows(id) == s.dispatcher.knows_agent(id) && s.registry.knows(id)
        == s.store.knows(id));
    assert forall|agent: AgentId| #[trigger]
        t.registry.knows(agent) == t.dispatcher.knows_agent(agent) && t.registry.knows(agent)
            == t.store.knows(agent) by {
        assert(s.registry.knows(agent) == s.dispatcher.knows_agent(agent) && s.registry.knows(agent)
            == s.store.knows(agent));
    }
    assert forall|agent: AgentId, i: int|
        #![trigger t.store.history[agent][i]]
        t.store.history.contains_key(agent) && 0 <= i < t.store.history[agent].len() implies {
        let record = t.store.history[agent][i];
        &&& t.dispatcher.commands.contains_key(record.id)
        &&& t.dispatcher.commands[record.id] == record
        &&& record.state.is_terminal()
    } by {
        let record = s.store.history[agent][i];
        assert(s.dispatcher.commands.contains_key(record.id));
    }
    assert forall|agent: AgentId, i: int, j: int|
        #![trigger t.store.history[agent][i], t.store.history[agent][j]]
        t.store.history.contains_key(agent) && 0 <= i < j < t.store.history[agent].len() implies t.store.history[agent][i].id
        != t.store.history[agent][j].id by {
        assert(s.store.history[agent][i].id != s.store.history[agent][j].id);
    }
    assert forall|c: CommandId| #[trigger]
        t.dispatcher.commands.contains_key(c) && t.dispatcher.commands[c].state
            .is_terminal() implies t.is_recorded(c) by {
        lemma_recorded_agent(s, c);
        assert(s.is_recorded(c));
    }
}

/// The agent of a command is known to the store.
pub proof fn lemma_recorded_agent(s: CoordinatorView, id: CommandId)
    requires
        s.inv(),
        s.dispatcher.knows(id),
    ensures
        s.store.knows(s.dispatcher.commands[id].agent_id),
        s.registry.knows(s.dispatcher.commands[id].agent_id),
{
    let agent = s.dispatcher.commands[id].agent_id;
    assert(s.dispatcher.commands.contains_key(id));
    assert(s.registry.knows(agent) == s.dispatcher.knows_agent(agent) && s.registry.knows(agent)
        == s.store.knows(agent));
}

/// A contact of an agent keeps the coordinator valid.
pub proof fn lemma_touch_inv(s: CoordinatorView, agent: AgentId, now: Timestamp)
    requires
        s.inv(),
    ensures
        (CoordinatorView { registry: s.registry.touch(agent, now), ..s }).inv(),
{
    let t = CoordinatorView { registry: s.registry.touch(agent, now), ..s };
    assert(t.registry.agents.dom() =~= s.registry.agents.dom());
    assert forall|a: AgentId| #[trigger] t.registry.agents.contains_key(a) implies t.registry.agents[a].id
        == a by {
        assert(s.registry.agents.contains_key(a));
    }
    assert forall|a: AgentId| #[trigger]
        t.registry.knows(a) == t.dispatcher.knows_agent(a) && t.registry.knows(a) == t.store.knows(
            a,
        ) by {
        assert(s.registry.knows(a) == s.dispatcher.knows_agent(a) && s.registry.knows(a)
            == s.store.knows(a));
    }
    assert forall|c: CommandId| #[trigger]
        t.dispatcher.commands.contains_key(c) && t.dispatcher.commands[c].state
            .is_terminal() implies t.is_recorded(c) by {
        assert(s.is_recorded(c));
    }
}

/// A poll keeps the coordinator valid.
pub proof fn lemma_poll_keeps_inv(s: CoordinatorView, agent: AgentId, now: Timestamp)
    requires
        s.inv(),
    ensures
        s.poll(agent, now).inv(),
{
    lemma_touch_inv(s, agent, now);
    let m = CoordinatorView { registry: s.registry.touch(agent, now), ..s };
    let t = s.poll(agent, now);
    lemma_poll_inv(s.dispatcher, agent, now);
    assert forall|a: AgentId| #[trigger]
        t.registry.knows(a) == t.dispatcher.knows_agent(a) && t.registry.knows(a) == t.store.knows(
            a,
        ) by {
        assert(m.registry.knows(a) == m.dispatcher.knows_agent(a) && m.registry.knows(a)
            == m.store.knows(a));
    }
    if s.dispatcher.knows_agent(agent) {
        let queue = s.dispatcher.queues[agent];
        assert forall|c: CommandId| queue.contains(c) implies s.dispatcher.queued_for(agent, c) by {
            let i = choose|i: int| 0 <= i < queue.len() && queue[i] == c;
            assert(s.dispatcher.queued_for(agent, s.dispatcher.queues[agent][i]));
        }
        assert forall|a: AgentId, i: int|
            #![trigger t.store.history[a][i]]
            t.store.history.contains_key(a) && 0 <= i < t.store.history[a].len() implies {
            let record = t.store.history[a][i];
            &&& t.dispatcher.commands.contains_key(record.id)
            &&& t.dispatcher.commands[record.id] == record
            &&& record.state.is_terminal()
        } by {
            let record = s.store.history[a][i];
            assert(s.dispatcher.commands.contains_key(record.id));
        }
        assert forall|c: CommandId| #[trigger]
            t.dispatcher.commands.contains_key(c) && t.dispatcher.commands[c].state
                .is_terminal() implies t.is_recorded(c) by {
            assert(s.dispatcher.commands.contains_key(c));
            assert(s.is_recorded(c));
        }
    }
}

/// A reported result keeps the coordinator valid.
pub proof fn lemma_report_result_inv(
    s: CoordinatorView,
    id: CommandId,
    result: CommandResultView,
    now: Timestamp,
)
    requires
        s.inv(),
    ensures
        s.report_result(id, result, now).inv(),
{
    let t = s.report_result(id, result, now);
    match s.dispatcher.resolution(id, result, now) {
        Ok(Some(record)) => {
            let agent = record.agent_id;
            lemma_recorded_agent(s, id);
            lemma_touch_inv(s, agent, now);
            lemma_resolve_inv(s.dispatcher, id, result, now);
            lemma_record_inv(s.store, record);
            let m = CoordinatorView { registry: s.registry.touch(agent, now), ..s };
            assert forall|a: AgentId| #[trigger]
                t.registry.knows(a) == t.dispatcher.knows_agent(a) && t.registry.knows(a)
                    == t.store.knows(a) by {
                assert(m.registry.knows(a) == m.dispatcher.knows_agent(a) && m.registry.knows(a)
                    == m.store.knows(a));
            }
            assert forall|a: AgentId, i: int|
                #![trigger t.store.history[a][i]]
                t.store.history.contains_key(a) && 0 <= i < t.store.history[a].len() implies {
                let r = t.store.history[a][i];
                &&& t.dispatcher.commands.contains_key(r.id)
                &&& t.dispatcher.commands[r.id] == r
                &&& r.state.is_terminal()
            } by {
                if a == agent && i == s.store.history[a].len() {
                } else {
                    let r = s.store.history[a][i];
                    assert(s.dispatcher.commands.contains_key(r.id));
                }
            }
            assert forall|a: AgentId, i: int, j: int|
                #![trigger t.store.history[a][i], t.store.history[a][j]]
                t.store.history.contains_key(a) && 0 <= i < j < t.store.history[a].len() implies t.store.history[a][i].id
                != t.store.history[a][j].id by {
                if a == agent && j == s.store.history[a].len() {
                    let r = s.store.history[a][i];
                    assert(s.dispatcher.commands.contains_key(r.id));
                } else {
                    assert(s.store.history[a][i].id != s.store.history[a][j].id);
                }
            }
            assert forall|c: CommandId| #[trigger]
                t.dispatcher.commands.contains_key(c) && t.dispatcher.commands[c].state
                    .is_terminal() implies t.is_recorded(c) by {
                assert(s.dispatcher.commands.contains_key(c));
                let records = t.store.history[t.dispatcher.commands[c].agent_id];
                if c == id {
                    assert(records[records.len() - 1].id == id);
                } else {
                    assert(s.is_recorded(c));
                    let before = s.store.history[s.dispatcher.commands[c].agent_id];
                    let i = choose|i: int| 0 <= i < before.len() && (#[trigger] before[i]).id == c;
                    assert(records[i].id == c);
                }
            }
        },
        Ok(None) => {
            lemma_touch_inv(s, s.dispatcher.commands[id].agent_id, now);
        },
        Err(_) => {},
    }
}

/// A screenshot keeps the coordinator valid.
pub proof fn lemma_upload_screenshot_inv(
    s: CoordinatorView,
    agent: AgentId,
    image_data: Seq<u8>,
    now: Timestamp,
)
    requires
        s.inv(),
    ensures
        s.upload_screenshot(agent, image_data, now).inv(),
{
    lemma_touch_inv(s, agent, now);
    lemma_append_screenshot_inv(s.store, agent, image_data, now);
    let m = CoordinatorView { registry: s.registry.touch(agent, now), ..s };
    let t = s.upload_screenshot(agent, image_data, now);
    assert forall|a: AgentId| #[trigger]
        t.registry.knows(a) == t.dispatcher.knows_agent(a) && t.registry.knows(a) == t.store.knows(
            a,
        ) by {
        assert(m.registry.knows(a) == m.dispatcher.knows_agent(a) && m.registry.knows(a)
            == m.store.knows(a));
    }
    assert forall|a: AgentId, i: int|
        #![trigger t.store.history[a][i]]
        t.store.history.contains_key(a) && 0 <= i < t.store.history[a].len() implies {
        let record = t.store.history[a][i];
        &&& t.dispatcher.commands.contains_key(record.id)
        &&& t.dispatcher.commands[record.id] == record
        &&& record.state.is_terminal()
    } by {
        let record = s.store.history[a][i];
        assert(s.dispatcher.commands.contains_key(record.id));
    }
    assert forall|a: AgentId, i: int, j: int|
        #![trigger t.store.history[a][i], t.store.history[a][j]]
        t.store.history.contains_key(a) && 0 <= i < j < t.store.history[a].len() implies t.store.history[a][i].id
        != t.store.history[a][j].id by {
        assert(s.store.history[a][i].id != s.store.history[a][j].id);
    }
    assert forall|c: CommandId| #[trigger]
        t.dispatcher.commands.contains_key(c) && t.dispatcher.commands[c].state
            .is_terminal() implies t.is_recorded(c) by {
        assert(s.is_recorded(c));
    }
}

/// A submission keeps the coordinator valid.
pub proof fn lemma_submit_command_inv(
    s: CoordinatorView,
    agent: AgentId,
    candidate: u128,
    text: Seq<char>,
    now: Timestamp,
)
    requires
        s.inv(),
        s.has_room(),
    ensures
        s.submit_command(agent, candidate, text, now).inv(),
        s.knows_agent(agent) ==> !s.dispatcher.knows(s.next_command_id(candidate)),
{
    let t = s.submit_command(agent, candidate, text, now);
    lemma_submit_inv(s.dispatcher, agent, candidate, text, now);
    assert(s.registry.knows(agent) == s.dispatcher.knows_agent(agent) && s.registry.knows(agent)
        == s.store.knows(agent));
    assert forall|a: AgentId| #[trigger]
        t.registry.knows(a) == t.dispatcher.knows_agent(a) && t.registry.knows(a) == t.store.knows(
            a,
        ) by {
        assert(s.registry.knows(a) == s.dispatcher.knows_agent(a) && s.registry.knows(a)
            == s.store.knows(a));
    }
    assert forall|a: AgentId, i: int|
        #![trigger t.store.history[a][i]]
        t.store.history.contains_key(a) && 0 <= i < t.store.history[a].len() implies {
        let record = t.store.history[a][i];
        &&& t.dispatcher.commands.contains_key(record.id)
        &&& t.dispatcher.commands[record.id] == record
        &&& record.state.is_terminal()
    } by {
        let record = s.store.history[a][i];
        assert(s.dispatcher.commands.contains_key(record.id));
    }
    assert forall|c: CommandId| #[trigger]
        t.dispatcher.commands.contains_key(c) && t.dispatcher.commands[c].state
            .is_terminal() implies t.is_recorded(c) by {
        assert(s.dispatcher.commands.contains_key(c));
        assert(s.is_recorded(c));
    }
}

/// A cancellation keeps the coordinator valid.
pub proof fn lemma_cancel_command_inv(s: CoordinatorView, id: CommandId)
    requires
        s.inv(),
    ensures
        s.cancel_command(id).inv(),
{
    let t = s.cancel_command(id);
    lemma_cancel_inv(s.dispatcher, id);
    assert forall|a: AgentId| #[trigger]
        t.registry.knows(a) == t.dispatcher.knows_agent(a) && t.registry.knows(a) == t.store.knows(
            a,
        ) by {
        assert(s.registry.knows(a) == s.dispatcher.knows_agent(a) && s.registry.knows(a)
            == s.store.knows(a));
        if s.dispatcher.knows(id) {
            assert(s.dispatcher.commands.contains_key(id));
        }
    }
    assert forall|a: AgentId, i: int|
        #![trigger t.store.history[a][i]]
        t.store.history.contains_key(a) && 0 <= i < t.store.history[a].len() implies {
        let record = t.store.history[a][i];
        &&& t.dispatcher.commands.contains_key(record.id)
        &&& t.dispatcher.commands[record.id] == record
        &&& record.state.is_terminal()
    } by {
        let record = s.store.history[a][i];
        assert(s.dispatcher.commands.contains_key(record.id));
    }
    assert forall|c: CommandId| #[trigger]
        t.dispatcher.commands.contains_key(c) && t.dispatcher.commands[c].state
            .is_terminal() implies t.is_recorded(c) by {
        assert(s.dispatcher.commands.contains_key(c));
        assert(s.is_recorded(c));
    }
}

/// What a sweep finds overdue: commands in flight, each once, and the record
/// at each position is that of the overdue command at that position.
pub proof fn lemma_expired(s: DispatcherView, now: Timestamp)
    requires
        s.inv(),
    ensures
        s.overdue(now).no_duplicates(),
        s.expired(now).len() == s.overdue(now).len(),
        forall|i: int|
            0 <= i < s.overdue(now).len() ==> {
                let id = #[trigger] s.overdue(now)[i];
                &&& s.is_in_flight(id)
                &&& s.commands[id].is_overdue(now, s.command_timeout)
                &&& s.expired(now)[i] == s.commands[id].timed_out(now)
                &&& s.expired(now)[i].id == id
            },
        forall|id: CommandId|
            s.knows(id) && s.commands[id].is_overdue(now, s.command_timeout)
                ==> #[trigger] s.overdue(now).contains(id),
{
    broadcast use vstd::seq_lib::group_filter_ensures;

    let late = overdue_in(s.commands, now, s.command_timeout);
    lemma_filter_no_duplicates(s.in_flight, late);
    assert forall|i: int| 0 <= i < s.overdue(now).len() implies {
        let id = #[trigger] s.overdue(now)[i];
        &&& s.is_in_flight(id)
        &&& s.commands[id].is_overdue(now, s.command_timeout)
        &&& s.expired(now)[i] == s.commands[id].timed_out(now)
        &&& s.expired(now)[i].id == id
    } by {
        let id = s.overdue(now)[i];
        assert(late(id));
        s.in_flight.lemma_filter_contains_rev(late, id);
        let j = choose|j: int| 0 <= j < s.in_flight.len() && s.in_flight[j] == id;
        assert(s.is_in_flight(s.in_flight[j]));
        assert(s.commands.contains_key(id));
    }
    assert forall|id: CommandId|
        s.knows(id) && s.commands[id].is_overdue(now, s.command_timeout) implies #[trigger] s.overdue(
        now,
    ).contains(id) by {
        assert(s.commands.contains_key(id));
        let j = choose|j: int| 0 <= j < s.in_flight.len() && s.in_flight[j] == id;
        assert(late(s.in_flight[j]));
    }
}

/// A sweep keeps the coordinator valid.
pub proof fn lemma_sweep_keeps_inv(s: CoordinatorView, now: Timestamp)
    requires
        s.inv(),
    ensures
        s.sweep(now).inv(),
{
    let t = s.sweep(now);
    let late = s.dispatcher.overdue(now);
    let expired = s.dispatcher.expired(now);
    lemma_sweep_inv(s.dispatcher, now);
    lemma_record_all(s.store, expired);
    lemma_expired(s.dispatcher, now);
    assert forall|a: AgentId| #[trigger]
        t.registry.knows(a) == t.dispatcher.knows_agent(a) && t.registry.knows(a) == t.store.knows(
            a,
        ) by {
        assert(s.registry.knows(a) == s.dispatcher.knows_agent(a) && s.registry.knows(a)
            == s.store.knows(a));
    }
    assert forall|a: AgentId, i: int|
        #![trigger t.store.history[a][i]]
        t.store.history.contains_key(a) && 0 <= i < t.store.history[a].len() implies {
        let record = t.store.history[a][i];
        &&& t.dispatcher.commands.contains_key(record.id)
        &&& t.dispatcher.commands[record.id] == record
        &&& record.state.is_terminal()
    } by {
        assert(s.store.knows(a));
        let before = s.store.history[a];
        let after = t.store.history[a];
        if i < before.len() {
            assert(after.subrange(0, before.len() as int)[i] == after[i]);
            let record = s.store.history[a][i];
            assert(s.dispatcher.commands.contains_key(record.id));
        } else {
            assert(expired.contains(after[i]));
            let k = choose|k: int| 0 <= k < expired.len() && expired[k] == after[i];
            let id = late[k];
            assert(s.dispatcher.is_in_flight(id));
        }
    }
    assert forall|a: AgentId, i: int, j: int|
        #![trigger t.store.history[a][i], t.store.history[a][j]]
        t.store.history.contains_key(a) && 0 <= i < j < t.store.history[a].len() implies t.store.history[a][i].id
        != t.store.history[a][j].id by {
        assert(s.store.knows(a));
        let before = s.store.history[a];
        let after = t.store.history[a];
        if i < before.len() {
            assert(after.subrange(0, before.len() as int)[i] == after[i]);
            let first = s.store.history[a][i];
            assert(s.dispatcher.commands.contains_key(first.id));
            if j < before.len() {
                assert(after.subrange(0, before.len() as int)[j] == after[j]);
                assert(s.store.history[a][i].id != s.store.history[a][j].id);
            } else {
                assert(expired.contains(after[j]));
                let k = choose|k: int| 0 <= k < expired.len() && expired[k] == after[j];
                assert(s.dispatcher.is_in_flight(late[k]));
            }
        } else {
            let (x, y) = choose|x: int, y: int|
                0 <= x < y < expired.len() && expired[x] == #[trigger] after[i] && expired[y]
                    == #[trigger] after[j];
            assert(late[x] != late[y]);
            assert(s.dispatcher.is_in_flight(late[x]));
            assert(s.dispatcher.is_in_flight(late[y]));
        }
    }
    assert forall|c: CommandId| #[trigger]
        t.dispatcher.commands.contains_key(c) && t.dispatcher.commands[c].state
            .is_terminal() implies t.is_recorded(c) by {
        assert(s.dispatcher.commands.contains_key(c));
        lemma_recorded_agent(s, c);
        let agent = s.dispatcher.commands[c].agent_id;
        let before = s.store.history[agent];
        let after = t.store.history[agent];
        assert(s.store.knows(agent));
        if s.dispatcher.commands[c].is_overdue(now, s.dispatcher.command_timeout) {
            assert(late.contains(c));
            let k = choose|k: int| 0 <= k < late.len() && late[k] == c;
            assert(s.dispatcher.is_in_flight(late[k]));
            assert(expired[k].agent_id == agent);
            let j = choose|j: int| before.len() <= j < after.len() && after[j] == expired[k];
            assert(after[j].id == c);
        } else {
            assert(s.is_recorded(c));
            let i = choose|i: int| 0 <= i < before.len() && (#[trigger] before[i]).id == c;
            assert(after.subrange(0, before.len() as int)[i] == after[i]);
            assert(after[i].id == c);
        }
    }
}

/// Reading a history keeps the coordinator valid.
pub proof fn lemma_read_history_inv(s: CoordinatorView, agent: AgentId, now: Timestamp)
    requires
        s.inv(),
    ensures
        s.read_history(agent, now).inv(),
{
    lemma_sweep_keeps_inv(s, now);
}

} // verus!
