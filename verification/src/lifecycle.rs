//! The life of commands, as a state machine over mathematical values.
//!
//! A command is queued at submission, dispatched by the next poll of its
//! agent, and then either completed by the agent's result or timed out by a
//! sweep. A queued command can still be cancelled, which removes it.

use crate::ident::{allocate, identifier_space};
use crate::model::{
    AgentId, CommandId, CommandResultView, CommandView, CoordinatorError, PendingCommandView,
    Timestamp,
};
use vstd::prelude::*;

verus! {

/// What a dispatcher stands for.
pub struct DispatcherView {
    /// Every command that was submitted and not cancelled, by identifier.
    pub commands: Map<CommandId, CommandView>,
    /// For each agent, its queued commands in the order of their submission.
    pub queues: Map<AgentId, Seq<CommandId>>,
    /// The dispatched commands that have no result yet, in the order of their dispatch.
    pub in_flight: Seq<CommandId>,
    /// How long, in milliseconds, a dispatched command may stay unanswered.
    pub command_timeout: u64,
}

/// `ids` without `id`, which occurs in it at most once.
pub open spec fn without(ids: Seq<CommandId>, id: CommandId) -> Seq<CommandId> {
    if ids.contains(id) {
        ids.remove(ids.index_of(id))
    } else {
        ids
    }
}

/// What `without` leaves of a sequence in which nothing occurs twice.
pub proof fn lemma_without(ids: Seq<CommandId>, id: CommandId)
    requires
        ids.no_duplicates(),
    ensures
        without(ids, id).no_duplicates(),
        forall|other: CommandId|
            without(ids, id).contains(other) <==> ids.contains(other) && other != id,
        forall|i: int| 0 <= i < ids.len() && ids[i] == id ==> without(ids, id) == ids.remove(i),
{
    if ids.contains(id) {
        let at = ids.index_of(id);
        let rest = ids.remove(at);
        assert forall|other: CommandId| rest.contains(other) <==> ids.contains(other) && other
            != id by {
            if rest.contains(other) {
                let i = choose|i: int| 0 <= i < rest.len() && rest[i] == other;
                if i < at {
                    assert(ids[i] == other);
                } else {
                    assert(ids[i + 1] == other);
                }
            }
            if ids.contains(other) && other != id {
                let i = choose|i: int| 0 <= i < ids.len() && ids[i] == other;
                if i < at {
                    assert(rest[i] == other);
                } else {
                    assert(rest[i - 1] == other);
                }
            }
        }
        assert forall|i: int, j: int| 0 <= i < rest.len() && 0 <= j < rest.len() && i
            != j implies rest[i] != rest[j] by {
            let a = if i < at { i } else { i + 1 };
            let b = if j < at { j } else { j + 1 };
            assert(rest[i] == ids[a] && rest[j] == ids[b]);
        }
    } else {
        assert forall|other: CommandId| ids.contains(other) implies other != id by {}
    }
}

/// The test by which a sweep at `now` picks the commands that have timed out.
pub open spec fn overdue_in(
    commands: Map<CommandId, CommandView>,
    now: Timestamp,
    command_timeout: u64,
) -> spec_fn(CommandId) -> bool {
    |id: CommandId| commands[id].is_overdue(now, command_timeout)
}

/// The test by which a sweep at `now` picks the commands that stay in flight.
pub open spec fn punctual_in(
    commands: Map<CommandId, CommandView>,
    now: Timestamp,
    command_timeout: u64,
) -> spec_fn(CommandId) -> bool {
    |id: CommandId| !commands[id].is_overdue(now, command_timeout)
}

impl DispatcherView {
    /// A dispatcher that knows no agent and holds no command.
    pub open spec fn empty(command_timeout: u64) -> DispatcherView {
        DispatcherView {
            commands: Map::empty(),
            queues: Map::empty(),
            in_flight: Seq::empty(),
            command_timeout,
        }
    }

    /// The agent has a queue here.
    pub open spec fn knows_agent(self, agent: AgentId) -> bool {
        self.queues.contains_key(agent)
    }

    /// A command with this identifier exists.
    pub open spec fn knows(self, id: CommandId) -> bool {
        self.commands.contains_key(id)
    }

    /// The command exists, is queued, and belongs to `agent`.
    pub open spec fn queued_for(self, agent: AgentId, id: CommandId) -> bool {
        &&& self.commands.contains_key(id)
        &&& self.commands[id].state is Queued
        &&& self.commands[id].agent_id == agent
    }

    /// The command exists and is dispatched.
    pub open spec fn is_in_flight(self, id: CommandId) -> bool {
        self.commands.contains_key(id) && self.commands[id].state is Dispatched
    }

    /// The queues hold exactly the queued commands, each once and with its own
    /// agent; the commands in flight are exactly the dispatched ones, each
    /// once; every command belongs to a known agent, carries the fields that
    /// go with its state, and is in a state that an operation leads to.
    pub open spec fn inv(self) -> bool {
        &&& self.commands.dom().finite()
        &&& forall|id: CommandId| #[trigger]
            self.commands.contains_key(id) ==> {
                &&& self.commands[id].id == id
                &&& self.commands[id].is_consistent()
                &&& !(self.commands[id].state is Failed)
                &&& self.queues.contains_key(self.commands[id].agent_id)
                &&& self.commands[id].state is Queued ==> self.queues[self.commands[id].agent_id]
                    .contains(id)
                &&& self.commands[id].state is Dispatched ==> self.in_flight.contains(id)
            }
        &&& forall|agent: AgentId, i: int|
            #![trigger self.queues[agent][i]]
            self.queues.contains_key(agent) && 0 <= i < self.queues[agent].len()
                ==> self.queued_for(agent, self.queues[agent][i])
        &&& forall|agent: AgentId| #[trigger]
            self.queues.contains_key(agent) ==> self.queues[agent].no_duplicates()
        &&& forall|i: int|
            0 <= i < self.in_flight.len() ==> self.is_in_flight(#[trigger] self.in_flight[i])
        &&& self.in_flight.no_duplicates()
    }

    /// Some command identifier is still free.
    pub open spec fn has_room(self) -> bool {
        self.commands.dom().len() < identifier_space()
    }

    /// The dispatcher after it was told of agent `agent`: the agent has a
    /// queue, empty if it had none before.
    pub open spec fn open_queue(self, agent: AgentId) -> DispatcherView {
        if self.knows_agent(agent) {
            self
        } else {
            DispatcherView { queues: self.queues.insert(agent, Seq::empty()), ..self }
        }
    }

    /// The identifier that a submission starting from `candidate` assigns.
    pub open spec fn next_id(self, candidate: u128) -> CommandId {
        allocate(self.commands.dom(), candidate)
    }

    /// The dispatcher after the submission of `text` for `agent` at `now`;
    /// unchanged if the agent is unknown.
    pub open spec fn submit(self, agent: AgentId, candidate: u128, text: Seq<char>, now: Timestamp)
        -> DispatcherView {
        if self.knows_agent(agent) {
            let id = self.next_id(candidate);
            DispatcherView {
                commands: self.commands.insert(id, CommandView::queued(id, agent, text, now)),
                queues: self.queues.insert(agent, self.queues[agent].push(id)),
                ..self
            }
        } else {
            self
        }
    }

    /// What a poll of `agent` returns: its queued commands, oldest first.
    pub open spec fn pending(self, agent: AgentId) -> Seq<PendingCommandView> {
        if self.knows_agent(agent) {
            self.queues[agent].map_values(|id: CommandId| self.commands[id].pending())
        } else {
            Seq::empty()
        }
    }

    /// The dispatcher after a poll of `agent` at `now`: every command of its
    /// queue is dispatched and in flight, behind those that already were.
    pub open spec fn poll(self, agent: AgentId, now: Timestamp) -> DispatcherView {
        if self.knows_agent(agent) {
            let queue = self.queues[agent];
            DispatcherView {
                commands: Map::new(
                    |id: CommandId| self.commands.contains_key(id),
                    |id: CommandId|
                        if queue.contains(id) {
                            self.commands[id].dispatched(now)
                        } else {
                            self.commands[id]
                        },
                ),
                queues: self.queues.insert(agent, Seq::empty()),
                in_flight: self.in_flight + queue,
                ..self
            }
        } else {
            self
        }
    }

    /// How a report of `result` for command `id` at `now` is answered: with the
    /// completed record if the command was in flight, with nothing if it was
    /// resolved before, and with an error otherwise.
    pub open spec fn resolution(self, id: CommandId, result: CommandResultView, now: Timestamp)
        -> Result<Option<CommandView>, CoordinatorError> {
        if !self.knows(id) {
            Err(CoordinatorError::NotFound)
        } else if self.commands[id].state is Queued {
            Err(CoordinatorError::InvalidState)
        } else if self.commands[id].state is Dispatched {
            Ok(Some(self.commands[id].completed(result, now)))
        } else {
            Ok(None)
        }
    }

    /// The dispatcher after a report of `result` for command `id` at `now`:
    /// a command in flight is completed, anything else leaves it unchanged.
    pub open spec fn resolve(self, id: CommandId, result: CommandResultView, now: Timestamp)
        -> DispatcherView {
        if self.is_in_flight(id) {
            DispatcherView {
                commands: self.commands.insert(id, self.commands[id].completed(result, now)),
                in_flight: without(self.in_flight, id),
                ..self
            }
        } else {
            self
        }
    }

    /// The commands that a sweep at `now` finds timed out, in the order of their dispatch.
    pub open spec fn overdue(self, now: Timestamp) -> Seq<CommandId> {
        self.in_flight.filter(overdue_in(self.commands, now, self.command_timeout))
    }

    /// The records of the commands that a sweep at `now` times out.
    pub open spec fn expired(self, now: Timestamp) -> Seq<CommandView> {
        self.overdue(now).map_values(|id: CommandId| self.commands[id].timed_out(now))
    }

    /// The dispatcher after a sweep at `now`: every overdue command is timed
    /// out and no longer in flight.
    pub open spec fn sweep(self, now: Timestamp) -> DispatcherView {
        DispatcherView {
            commands: Map::new(
                |id: CommandId| self.commands.contains_key(id),
                |id: CommandId|
                    if self.commands[id].is_overdue(now, self.command_timeout) {
                        self.commands[id].timed_out(now)
                    } else {
                        self.commands[id]
                    },
            ),
            in_flight: self.in_flight.filter(
                punctual_in(self.commands, now, self.command_timeout),
            ),
            ..self
        }
    }

    /// How a request to cancel command `id` is answered.
    pub open spec fn cancellation(self, id: CommandId) -> Result<(), CoordinatorError> {
        if !self.knows(id) {
            Err(CoordinatorError::NotFound)
        } else if self.commands[id].state is Queued {
            Ok(())
        } else {
            Err(CoordinatorError::InvalidState)
        }
    }

    /// The dispatcher after a request to cancel command `id`: a queued command
    /// is removed, anything else leaves it unchanged.
    pub open spec fn cancel(self, id: CommandId) -> DispatcherView {
        if self.knows(id) && self.commands[id].state is Queued {
            let agent = self.commands[id].agent_id;
            DispatcherView {
                commands: self.commands.remove(id),
                queues: self.queues.insert(agent, without(self.queues[agent], id)),
                ..self
            }
        } else {
            self
        }
    }
}

/// Telling the dispatcher of an agent keeps it valid.
pub proof fn lemma_open_queue_inv(s: DispatcherView, agent: AgentId)
    requires
        s.inv(),
    ensures
        s.open_queue(agent).inv(),
{
    let t = s.open_queue(agent);
    if !s.knows_agent(agent) {
        assert forall|id: CommandId| #[trigger] t.commands.contains_key(id) implies {
            &&& t.queues.contains_key(t.commands[id].agent_id)
            &&& t.commands[id].state is Queued ==> t.queues[t.commands[id].agent_id].contains(id)
        } by {
            assert(s.queues.contains_key(s.commands[id].agent_id));
        }
        assert forall|a: AgentId, i: int|
            #![trigger t.queues[a][i]]
            t.queues.contains_key(a) && 0 <= i < t.queues[a].len() implies t.queued_for(
            a,
            t.queues[a][i],
        ) by {
            assert(s.queued_for(a, s.queues[a][i]));
        }
    }
}

/// A submission keeps the dispatcher valid.
pub proof fn lemma_submit_inv(
    s: DispatcherView,
    agent: AgentId,
    candidate: u128,
    text: Seq<char>,
    now: Timestamp,
)
    requires
        s.inv(),
        s.has_room(),
    ensures
        s.submit(agent, candidate, text, now).inv(),
        s.knows_agent(agent) ==> !s.knows(s.next_id(candidate)),
{
    let t = s.submit(agent, candidate, text, now);
    crate::ident::lemma_allocate_fresh(s.commands.dom(), candidate);
    if s.knows_agent(agent) {
        let id = s.next_id(candidate);
        assert forall|other: CommandId| #[trigger] t.commands.contains_key(other) implies {
            &&& t.commands[other].id == other
            &&& t.commands[other].is_consistent()
            &&& !(t.commands[other].state is Failed)
            &&& t.queues.contains_key(t.commands[other].agent_id)
            &&& t.commands[other].state is Queued ==> t.queues[t.commands[other].agent_id]
                .contains(other)
            &&& t.commands[other].state is Dispatched ==> t.in_flight.contains(other)
        } by {
            if other == id {
                assert(t.queues[agent][s.queues[agent].len() as int] == id);
            } else {
                assert(s.commands.contains_key(other));
                if s.commands[other].state is Queued && s.commands[other].agent_id == agent {
                    let i = choose|i: int|
                        0 <= i < s.queues[agent].len() && s.queues[agent][i] == other;
                    assert(t.queues[agent][i] == other);
                }
            }
        }
        assert forall|a: AgentId, i: int|
            #![trigger t.queues[a][i]]
            t.queues.contains_key(a) && 0 <= i < t.queues[a].len() implies t.queued_for(
            a,
            t.queues[a][i],
        ) by {
            if a == agent && i == s.queues[agent].len() {
            } else {
                assert(s.queued_for(a, s.queues[a][i]));
            }
        }
        assert forall|a: AgentId| #[trigger] t.queues.contains_key(a) implies t.queues[a]
            .no_duplicates() by {
            if a == agent {
                assert forall|i: int, j: int|
                    0 <= i < t.queues[a].len() && 0 <= j < t.queues[a].len() && i
                        != j implies t.queues[a][i] != t.queues[a][j] by {
                    if i < s.queues[a].len() {
                        assert(s.queued_for(a, s.queues[a][i]));
                    }
                    if j < s.queues[a].len() {
                        assert(s.queued_for(a, s.queues[a][j]));
                    }
                }
            } else {
                assert(s.queues[a].no_duplicates());
            }
        }
        assert forall|i: int| 0 <= i < t.in_flight.len() implies t.is_in_flight(
            #[trigger] t.in_flight[i],
        ) by {
            assert(s.is_in_flight(s.in_flight[i]));
        }
    }
}

/// A poll keeps the dispatcher valid.
pub proof fn lemma_poll_inv(s: DispatcherView, agent: AgentId, now: Timestamp)
    requires
        s.inv(),
    ensures
        s.poll(agent, now).inv(),
{
    let t = s.poll(agent, now);
    if s.knows_agent(agent) {
        let queue = s.queues[agent];
        assert(t.commands.dom() =~= s.commands.dom());
        assert forall|id: CommandId| queue.contains(id) implies s.queued_for(agent, id) by {
            let i = choose|i: int| 0 <= i < queue.len() && queue[i] == id;
            assert(s.queued_for(agent, s.queues[agent][i]));
        }
        assert forall|other: CommandId| #[trigger] t.commands.contains_key(other) implies {
            &&& t.commands[other].id == other
            &&& t.commands[other].is_consistent()
            &&& !(t.commands[other].state is Failed)
            &&& t.queues.contains_key(t.commands[other].agent_id)
            &&& t.commands[other].state is Queued ==> t.queues[t.commands[other].agent_id]
                .contains(other)
            &&& t.commands[other].state is Dispatched ==> t.in_flight.contains(other)
        } by {
            assert(s.commands.contains_key(other));
            if queue.contains(other) {
                let i = choose|i: int| 0 <= i < queue.len() && queue[i] == other;
                assert(t.in_flight[s.in_flight.len() + i] == other);
            } else if s.commands[other].state is Dispatched {
                let i = choose|i: int| 0 <= i < s.in_flight.len() && s.in_flight[i] == other;
                assert(t.in_flight[i] == other);
            }
        }
        assert forall|a: AgentId, i: int|
            #![trigger t.queues[a][i]]
            t.queues.contains_key(a) && 0 <= i < t.queues[a].len() implies t.queued_for(
            a,
            t.queues[a][i],
        ) by {
            assert(s.queued_for(a, s.queues[a][i]));
        }
        assert forall|a: AgentId| #[trigger] t.queues.contains_key(a) implies t.queues[a]
            .no_duplicates() by {
            if a != agent {
                assert(s.queues[a].no_duplicates());
            }
        }
        assert forall|i: int| 0 <= i < t.in_flight.len() implies t.is_in_flight(
            #[trigger] t.in_flight[i],
        ) by {
            if i < s.in_flight.len() {
                assert(s.is_in_flight(s.in_flight[i]));
            } else {
                assert(queue.contains(queue[i - s.in_flight.len()]));
            }
        }
        assert forall|i: int, j: int|
            0 <= i < t.in_flight.len() && 0 <= j < t.in_flight.len() && i
                != j implies t.in_flight[i] != t.in_flight[j] by {
            if i < s.in_flight.len() {
                assert(s.is_in_flight(s.in_flight[i]));
            } else {
                assert(queue.contains(queue[i - s.in_flight.len()]));
            }
            if j < s.in_flight.len() {
                assert(s.is_in_flight(s.in_flight[j]));
            } else {
                assert(queue.contains(queue[j - s.in_flight.len()]));
            }
        }
    }
}

/// A reported result keeps the dispatcher valid.
pub proof fn lemma_resolve_inv(
    s: DispatcherView,
    id: CommandId,
    result: CommandResultView,
    now: Timestamp,
)
    requires
        s.inv(),
    ensures
        s.resolve(id, result, now).inv(),
{
    let t = s.resolve(id, result, now);
    if s.is_in_flight(id) {
        lemma_without(s.in_flight, id);
        assert(t.commands.dom() =~= s.commands.dom());
        assert forall|other: CommandId| #[trigger] t.commands.contains_key(other) implies {
            &&& t.commands[other].id == other
            &&& t.commands[other].is_consistent()
            &&& !(t.commands[other].state is Failed)
            &&& t.queues.contains_key(t.commands[other].agent_id)
            &&& t.commands[other].state is Queued ==> t.queues[t.commands[other].agent_id]
                .contains(other)
            &&& t.commands[other].state is Dispatched ==> t.in_flight.contains(other)
        } by {
            assert(s.commands.contains_key(other));
        }
        assert forall|a: AgentId, i: int|
            #![trigger t.queues[a][i]]
            t.queues.contains_key(a) && 0 <= i < t.queues[a].len() implies t.queued_for(
            a,
            t.queues[a][i],
        ) by {
            assert(s.queued_for(a, s.queues[a][i]));
        }
        assert forall|i: int| 0 <= i < t.in_flight.len() implies t.is_in_flight(
            #[trigger] t.in_flight[i],
        ) by {
            assert(t.in_flight.contains(t.in_flight[i]));
            let j = choose|j: int| 0 <= j < s.in_flight.len() && s.in_flight[j] == t.in_flight[i];
            assert(s.is_in_flight(s.in_flight[j]));
        }
    }
}

/// A sweep keeps the dispatcher valid.
pub proof fn lemma_sweep_inv(s: DispatcherView, now: Timestamp)
    requires
        s.inv(),
    ensures
        s.sweep(now).inv(),
{
    let t = s.sweep(now);
    broadcast use vstd::seq_lib::group_filter_ensures;

    let keep = punctual_in(s.commands, now, s.command_timeout);
    assert(t.commands.dom() =~= s.commands.dom());
    assert forall|other: CommandId| #[trigger] t.commands.contains_key(other) implies {
        &&& t.commands[other].id == other
        &&& t.commands[other].is_consistent()
        &&& !(t.commands[other].state is Failed)
        &&& t.queues.contains_key(t.commands[other].agent_id)
        &&& t.commands[other].state is Queued ==> t.queues[t.commands[other].agent_id].contains(
            other,
        )
        &&& t.commands[other].state is Dispatched ==> t.in_flight.contains(other)
    } by {
        assert(s.commands.contains_key(other));
        if t.commands[other].state is Dispatched {
            let i = choose|i: int| 0 <= i < s.in_flight.len() && s.in_flight[i] == other;
            assert(keep(s.in_flight[i]));
        }
    }
    assert forall|a: AgentId, i: int|
        #![trigger t.queues[a][i]]
        t.queues.contains_key(a) && 0 <= i < t.queues[a].len() implies t.queued_for(
        a,
        t.queues[a][i],
    ) by {
        assert(s.queued_for(a, s.queues[a][i]));
    }
    assert forall|i: int| 0 <= i < t.in_flight.len() implies t.is_in_flight(
        #[trigger] t.in_flight[i],
    ) by {
        assert(keep(t.in_flight[i]));
        s.in_flight.lemma_filter_contains_rev(keep, t.in_flight[i]);
        let j = choose|j: int| 0 <= j < s.in_flight.len() && s.in_flight[j] == t.in_flight[i];
        assert(s.is_in_flight(s.in_flight[j]));
    }
    lemma_filter_no_duplicates(s.in_flight, keep);
}

/// Filtering a sequence in which nothing occurs twice leaves such a sequence.
pub proof fn lemma_filter_no_duplicates(ids: Seq<CommandId>, keep: spec_fn(CommandId) -> bool)
    requires
        ids.no_duplicates(),
    ensures
        ids.filter(keep).no_duplicates(),
    decreases ids.len(),
{
    reveal(Seq::filter);
    if ids.len() > 0 {
        let front = ids.drop_last();
        lemma_filter_no_duplicates(front, keep);
        if keep(ids.last()) {
            let kept = front.filter(keep);
            assert forall|i: int| 0 <= i < kept.len() implies kept[i] != ids.last() by {
                front.lemma_filter_contains_rev(keep, kept[i]);
                let j = choose|j: int| 0 <= j < front.len() && front[j] == kept[i];
                assert(ids[j] == kept[i]);
            }
        }
    }
}

/// A cancellation keeps the dispatcher valid.
pub proof fn lemma_cancel_inv(s: DispatcherView, id: CommandId)
    requires
        s.inv(),
    ensures
        s.cancel(id).inv(),
{
    let t = s.cancel(id);
    if s.knows(id) && s.commands[id].state is Queued {
        let agent = s.commands[id].agent_id;
        lemma_without(s.queues[agent], id);
        assert forall|other: CommandId| #[trigger] t.commands.contains_key(other) implies {
            &&& t.commands[other].id == other
            &&& t.commands[other].is_consistent()
            &&& !(t.commands[other].state is Failed)
            &&& t.queues.contains_key(t.commands[other].agent_id)
            &&& t.commands[other].state is Queued ==> t.queues[t.commands[other].agent_id]
                .contains(other)
            &&& t.commands[other].state is Dispatched ==> t.in_flight.contains(other)
        } by {
            assert(s.commands.contains_key(other));
        }
        assert forall|a: AgentId, i: int|
            #![trigger t.queues[a][i]]
            t.queues.contains_key(a) && 0 <= i < t.queues[a].len() implies t.queued_for(
            a,
            t.queues[a][i],
        ) by {
            if a == agent {
                assert(t.queues[a].contains(t.queues[a][i]));
                let j = choose|j: int|
                    0 <= j < s.queues[a].len() && s.queues[a][j] == t.queues[a][i];
                assert(s.queued_for(a, s.queues[a][j]));
            } else {
                assert(s.queued_for(a, s.queues[a][i]));
            }
        }
        assert forall|a: AgentId| #[trigger] t.queues.contains_key(a) implies t.queues[a]
            .no_duplicates() by {
            if a != agent {
                assert(s.queues[a].no_duplicates());
            }
        }
        assert forall|i: int| 0 <= i < t.in_flight.len() implies t.is_in_flight(
            #[trigger] t.in_flight[i],
        ) by {
            assert(s.is_in_flight(s.in_flight[i]));
        }
    }
}

} // verus!
