//! The command dispatcher: the queues of the agents and the life of each command.

use crate::ident::allocate_in;
use crate::lifecycle::{
    lemma_cancel_inv, lemma_open_queue_inv, lemma_poll_inv, lemma_resolve_inv, lemma_submit_inv,
    lemma_sweep_inv, lemma_without, overdue_in, punctual_in, DispatcherView,
};
use crate::model::{
    views, AgentId, Command, CommandId, CommandResult, CommandState, CommandView,
    CoordinatorError, PendingCommand, Timestamp,
};
use std::collections::HashMap;
use vstd::prelude::*;
use vstd::std_specs::hash::*;

verus! {

/// The view of what a report of a result is answered with.
pub open spec fn resolution_view(outcome: Result<Option<Command>, CoordinatorError>) -> Result<
    Option<CommandView>,
    CoordinatorError,
> {
    match outcome {
        Ok(Some(record)) => Ok(Some(record@)),
        Ok(None) => Ok(None),
        Err(e) => Err(e),
    }
}

/// How a filter treats the item at position `at`, given what it made of the
/// items before it.
pub proof fn lemma_filter_step(ids: Seq<CommandId>, at: int, keep: spec_fn(CommandId) -> bool)
    requires
        0 <= at < ids.len(),
    ensures
        ids.take(at + 1).filter(keep) == if keep(ids[at]) {
            ids.take(at).filter(keep).push(ids[at])
        } else {
            ids.take(at).filter(keep)
        },
{
    reveal(Seq::filter);
    assert(ids.take(at + 1).drop_last() =~= ids.take(at));
}

/// The command dispatcher.
pub struct CommandDispatcher {
    commands: HashMap<u128, Command>,
    queues: HashMap<u128, Vec<u128>>,
    in_flight: Vec<u128>,
    command_timeout_ms: u64,
}

impl View for CommandDispatcher {
    type V = DispatcherView;

    closed spec fn view(&self) -> DispatcherView {
        DispatcherView {
            commands: Map::new(
                |id: CommandId| self.commands@.contains_key(id),
                |id: CommandId| self.commands@[id]@,
            ),
            queues: Map::new(
                |agent: AgentId| self.queues@.contains_key(agent),
                |agent: AgentId| self.queues@[agent]@,
            ),
            in_flight: self.in_flight@,
            command_timeout: self.command_timeout_ms,
        }
    }
}

impl CommandDispatcher {
    /// The dispatcher stands for a valid model.
    pub open spec fn wf(&self) -> bool {
        self@.inv()
    }

    /// A dispatcher always has room for another command.
    pub proof fn lemma_has_room(&self)
        ensures
            self@.has_room(),
            self@.commands.dom().len() <= usize::MAX,
    {
        broadcast use group_hash_axioms;

        assert(self@.commands.dom() =~= self.commands@.dom());
        assert(self.commands@.dom().len() == spec_hash_map_len(&self.commands));
    }

    /// A dispatcher that knows no agent and holds no command.
    pub fn new(command_timeout_ms: u64) -> (dispatcher: CommandDispatcher)
        ensures
            dispatcher.wf(),
            dispatcher@ == DispatcherView::empty(command_timeout_ms),
    {
        let dispatcher = CommandDispatcher {
            commands: HashMap::new(),
            queues: HashMap::new(),
            in_flight: Vec::new(),
            command_timeout_ms,
        };
        proof {
            let empty = DispatcherView::empty(command_timeout_ms);
            assert(dispatcher@.commands =~= empty.commands);
            assert(dispatcher@.queues =~= empty.queues);
            assert(dispatcher@.in_flight =~= empty.in_flight);
        }
        dispatcher
    }

    /// The command timeout, in milliseconds.
    pub fn command_timeout(&self) -> (timeout: u64)
        ensures
            timeout == self@.command_timeout,
    {
        self.command_timeout_ms
    }

    /// Whether the agent has a queue here.
    pub fn knows_agent(&self, agent: AgentId) -> (known: bool)
        ensures
            known == self@.knows_agent(agent),
    {
        broadcast use group_hash_axioms;

        self.queues.contains_key(&agent)
    }

    /// A copy of the record of command `id`.
    pub fn command(&self, id: CommandId) -> (outcome: Result<Command, CoordinatorError>)
        ensures
            match outcome {
                Ok(command) => self@.knows(id) && command@ == self@.commands[id],
                Err(e) => !self@.knows(id) && e == CoordinatorError::NotFound,
            },
    {
        broadcast use group_hash_axioms;

        match self.commands.get(&id) {
            Some(command) => Ok(command.duplicate()),
            None => Err(CoordinatorError::NotFound),
        }
    }

    /// The agent that command `id` belongs to.
    pub fn owner(&self, id: CommandId) -> (outcome: Result<AgentId, CoordinatorError>)
        ensures
            outcome == if self@.knows(id) {
                Ok::<AgentId, CoordinatorError>(self@.commands[id].agent_id)
            } else {
                Err(CoordinatorError::NotFound)
            },
    {
        broadcast use group_hash_axioms;

        match self.commands.get(&id) {
            Some(command) => Ok(command.agent_id),
            None => Err(CoordinatorError::NotFound),
        }
    }

    /// Gives agent `agent` a queue, empty, unless it has one.
    pub fn open_queue(&mut self, agent: AgentId)
        requires
            old(self).wf(),
        ensures
            final(self).wf(),
            final(self)@ == old(self)@.open_queue(agent),
    {
        broadcast use group_hash_axioms;

        if !self.queues.contains_key(&agent) {
            self.queues.insert(agent, Vec::new());
            assert(self@.queues =~= old(self)@.open_queue(agent).queues);
        }
        proof {
            lemma_open_queue_inv(old(self)@, agent);
        }
    }

    /// Queues a new command with the given text for `agent`, under the first
    /// free identifier from `candidate` on, and returns that identifier.
    pub fn submit(&mut self, agent: AgentId, candidate: u128, text: String, now: Timestamp) -> (outcome:
        Result<CommandId, CoordinatorError>)
        requires
            old(self).wf(),
        ensures
            final(self).wf(),
            final(self)@ == old(self)@.submit(agent, candidate, text@, now),
            outcome == if old(self)@.knows_agent(agent) {
                Ok::<CommandId, CoordinatorError>(old(self)@.next_id(candidate))
            } else {
                Err(CoordinatorError::NotFound)
            },
            old(self)@.knows_agent(agent) ==> !old(self)@.knows(old(self)@.next_id(candidate)),
    {
        broadcast use group_hash_axioms;

        let ghost before = self@;
        proof {
            self.lemma_has_room();
            lemma_submit_inv(before, agent, candidate, text@, now);
            assert(before.commands.dom() =~= self.commands@.dom());
        }
        match self.queues.remove(&agent) {
            Some(queue) => {
                let mut queue = queue;
                let id = allocate_in(&self.commands, candidate);
                queue.push(id);
                self.queues.insert(agent, queue);
                self.commands.insert(
                    id,
                    Command {
                        id,
                        agent_id: agent,
                        text,
                        state: CommandState::Queued,
                        submitted_at: now,
                        dispatched_at: None,
                        resolved_at: None,
                        result: None,
                    },
                );
                proof {
                    let after = before.submit(agent, candidate, text@, now);
                    assert(self@.commands =~= after.commands);
                    assert(self@.queues =~= after.queues);
                }
                Ok(id)
            },
            None => {
                proof {
                    assert(self.queues@ =~= old(self).queues@);
                    assert(self@.queues =~= before.queues);
                }
                Err(CoordinatorError::NotFound)
            },
        }
    }

    /// Hands the queued commands of `agent` out, oldest first, and marks each
    /// as dispatched at `now`.
    pub fn poll(&mut self, agent: AgentId, now: Timestamp) -> (outcome: Result<
        Vec<PendingCommand>,
        CoordinatorError,
    >)
        requires
            old(self).wf(),
        ensures
            final(self).wf(),
            final(self)@ == old(self)@.poll(agent, now),
            match outcome {
                Ok(handed) => old(self)@.knows_agent(agent) && views(handed@) == old(self)@.pending(
                    agent,
                ),
                Err(e) => !old(self)@.knows_agent(agent) && e == CoordinatorError::NotFound,
            },
    {
        broadcast use group_hash_axioms;

        let ghost before = self@;
        proof {
            lemma_poll_inv(before, agent, now);
        }
        let queue = match self.queues.remove(&agent) {
            Some(queue) => queue,
            None => {
                proof {
                    assert(self.queues@ =~= old(self).queues@);
                    assert(self@.queues =~= before.queues);
                }
                return Err(CoordinatorError::NotFound);
            },
        };
        self.queues.insert(agent, Vec::new());
        let ghost queues = self.queues@;
        let mut handed: Vec<PendingCommand> = Vec::new();
        let mut at: usize = 0;
        while at < queue.len()
            invariant
                before.inv(),
                before.knows_agent(agent),
                queue@ == before.queues[agent],
                at <= queue@.len(),
                self.queues@ == queues,
                self.command_timeout_ms == before.command_timeout,
                self.in_flight@ == before.in_flight + queue@.take(at as int),
                forall|id: CommandId|
                    self.commands@.contains_key(id) <==> #[trigger] before.commands.contains_key(
                        id,
                    ),
                forall|id: CommandId| #[trigger]
                    before.commands.contains_key(id) ==> self.commands@[id]@ == if exists|i: int|
                        0 <= i < at && queue@[i] == id {
                        before.commands[id].dispatched(now)
                    } else {
                        before.commands[id]
                    },
                handed@.len() == at,
                forall|i: int|
                    0 <= i < at ==> (#[trigger] handed@[i])@ == before.commands[queue@[i]].pending(),
            decreases queue@.len() - at,
        {
            let id = queue[at];
            proof {
                assert(before.queued_for(agent, before.queues[agent][at as int]));
                assert(!exists|i: int| 0 <= i < at && queue@[i] == id);
            }
            match self.commands.remove(&id) {
                Some(command) => {
                    handed.push(PendingCommand { id, text: command.text.clone() });
                    self.commands.insert(
                        id,
                        Command {
                            id: command.id,
                            agent_id: command.agent_id,
                            text: command.text,
                            state: CommandState::Dispatched,
                            submitted_at: command.submitted_at,
                            dispatched_at: Some(now),
                            resolved_at: command.resolved_at,
                            result: command.result,
                        },
                    );
                    self.in_flight.push(id);
                },
                None => {
                    assert(false);
                },
            }
            proof {
                assert(queue@.take(at + 1) =~= queue@.take(at as int).push(id));
                assert forall|other: CommandId| #[trigger]
                    before.commands.contains_key(other) implies self.commands@[other]@
                    == if exists|i: int| 0 <= i < at + 1 && queue@[i] == other {
                    before.commands[other].dispatched(now)
                } else {
                    before.commands[other]
                } by {
                    if other == id {
                        assert(queue@[at as int] == other);
                    } else if exists|i: int| 0 <= i < at + 1 && queue@[i] == other {
                        let i = choose|i: int| 0 <= i < at + 1 && queue@[i] == other;
                        assert(0 <= i < at && queue@[i] == other);
                    }
                }
            }
            at = at + 1;
        }
        proof {
            let after = before.poll(agent, now);
            assert(queue@.take(at as int) =~= queue@);
            assert forall|id: CommandId| #[trigger]
                before.commands.contains_key(id) implies self@.commands[id]
                == after.commands[id] by {
                if queue@.contains(id) {
                    let i = choose|i: int| 0 <= i < queue@.len() && queue@[i] == id;
                    assert(0 <= i < at && queue@[i] == id);
                }
            }
            assert(self@.commands =~= after.commands);
            assert(self@.queues =~= after.queues);
            assert(views(handed@) =~= before.pending(agent));
        }
        Ok(handed)
    }

    /// Records the result that an agent reports for command `id`.
    ///
    /// A command in flight is completed, and its record is returned for the
    /// history. A report for a command that was resolved before, by a result
    /// or by a timeout, is accepted and ignored. A report for a command that
    /// was never dispatched is an error.
    pub fn resolve(&mut self, id: CommandId, result: CommandResult, now: Timestamp) -> (outcome:
        Result<Option<Command>, CoordinatorError>)
        requires
            old(self).wf(),
        ensures
            final(self).wf(),
            final(self)@ == old(self)@.resolve(id, result@, now),
            resolution_view(outcome) == old(self)@.resolution(id, result@, now),
    {
        broadcast use group_hash_axioms;

        let ghost before = self@;
        proof {
            lemma_resolve_inv(before, id, result@, now);
        }
        let state = match self.commands.get(&id) {
            Some(command) => command.state,
            None => {
                return Err(CoordinatorError::NotFound);
            },
        };
        match state {
            CommandState::Queued => Err(CoordinatorError::InvalidState),
            CommandState::Dispatched => {
                let record = match self.commands.remove(&id) {
                    Some(command) => Command {
                        id: command.id,
                        agent_id: command.agent_id,
                        text: command.text,
                        state: CommandState::Completed,
                        submitted_at: command.submitted_at,
                        dispatched_at: command.dispatched_at,
                        resolved_at: Some(now),
                        result: Some(result),
                    },
                    None => {
                        assert(false);
                        return Err(CoordinatorError::NotFound);
                    },
                };
                let copy = record.duplicate();
                self.commands.insert(id, record);
                let at = position_of(&self.in_flight, id);
                proof {
                    assert(before.in_flight.contains(id));
                    lemma_without(before.in_flight, id);
                }
                if at < self.in_flight.len() {
                    self.in_flight.remove(at);
                }
                proof {
                    let after = before.resolve(id, result@, now);
                    assert(self@.commands =~= after.commands);
                    assert(self@.queues =~= after.queues);
                }
                Ok(Some(copy))
            },
            _ => Ok(None),
        }
    }

    /// Times out every command that was dispatched more than the command
    /// timeout before `now`, and returns their records, in the order of their
    /// dispatch, for the history.
    pub fn sweep(&mut self, now: Timestamp) -> (expired: Vec<Command>)
        requires
            old(self).wf(),
        ensures
            final(self).wf(),
            final(self)@ == old(self)@.sweep(now),
            views(expired@) == old(self)@.expired(now),
    {
        broadcast use group_hash_axioms;

        let ghost before = self@;
        let ghost late = overdue_in(before.commands, now, before.command_timeout);
        let ghost keep = punctual_in(before.commands, now, before.command_timeout);
        proof {
            lemma_sweep_inv(before, now);
        }
        let mut kept: Vec<u128> = Vec::new();
        let mut expired: Vec<Command> = Vec::new();
        let mut at: usize = 0;
        while at < self.in_flight.len()
            invariant
                before.inv(),
                late == overdue_in(before.commands, now, before.command_timeout),
                keep == punctual_in(before.commands, now, before.command_timeout),
                self.in_flight@ == before.in_flight,
                self.command_timeout_ms == before.command_timeout,
                self@.queues == before.queues,
                at <= self.in_flight@.len(),
                forall|id: CommandId|
                    self.commands@.contains_key(id) <==> #[trigger] before.commands.contains_key(
                        id,
                    ),
                forall|id: CommandId| #[trigger]
                    before.commands.contains_key(id) ==> self.commands@[id]@ == if (exists|i: int|
                        0 <= i < at && before.in_flight[i] == id) && late(id) {
                        before.commands[id].timed_out(now)
                    } else {
                        before.commands[id]
                    },
                kept@ == before.in_flight.take(at as int).filter(keep),
                expired@.len() == before.in_flight.take(at as int).filter(late).len(),
                forall|i: int|
                    0 <= i < expired@.len() ==> (#[trigger] expired@[i])@
                        == before.commands[before.in_flight.take(at as int).filter(late)[i]].timed_out(
                        now,
                    ),
            decreases self.in_flight@.len() - at,
        {
            let id = self.in_flight[at];
            proof {
                assert(before.is_in_flight(before.in_flight[at as int]));
                assert(!exists|i: int| 0 <= i < at && before.in_flight[i] == id);
                lemma_filter_step(before.in_flight, at as int, keep);
                lemma_filter_step(before.in_flight, at as int, late);
            }
            let overdue = match self.commands.get(&id) {
                Some(command) => command.is_overdue(now, self.command_timeout_ms),
                None => false,
            };
            if overdue {
                match self.commands.remove(&id) {
                    Some(command) => {
                        let record = Command {
                            id: command.id,
                            agent_id: command.agent_id,
                            text: command.text,
                            state: CommandState::TimedOut,
                            submitted_at: command.submitted_at,
                            dispatched_at: command.dispatched_at,
                            resolved_at: Some(now),
                            result: Some(CommandResult::timed_out()),
                        };
                        expired.push(record.duplicate());
                        self.commands.insert(id, record);
                    },
                    None => {
                        assert(false);
                    },
                }
            } else {
                kept.push(id);
            }
            proof {
                assert(self@.queues =~= before.queues);
                assert forall|other: CommandId| #[trigger]
                    before.commands.contains_key(other) implies self.commands@[other]@
                    == if (exists|i: int| 0 <= i < at + 1 && before.in_flight[i] == other) && late(
                    other,
                ) {
                    before.commands[other].timed_out(now)
                } else {
                    before.commands[other]
                } by {
                    if other == id {
                        assert(before.in_flight[at as int] == other);
                    } else if exists|i: int| 0 <= i < at + 1 && before.in_flight[i] == other {
                        let i = choose|i: int| 0 <= i < at + 1 && before.in_flight[i] == other;
                        assert(0 <= i < at && before.in_flight[i] == other);
                    }
                }
            }
            at = at + 1;
        }
        self.in_flight = kept;
        proof {
            let after = before.sweep(now);
            assert(before.in_flight.take(at as int) =~= before.in_flight);
            assert forall|id: CommandId| #[trigger]
                before.commands.contains_key(id) implies self@.commands[id]
                == after.commands[id] by {
                if late(id) {
                    assert(before.in_flight.contains(id));
                    let i = choose|i: int| 0 <= i < before.in_flight.len() && before.in_flight[i]
                        == id;
                    assert(0 <= i < at && before.in_flight[i] == id);
                }
            }
            assert(self@.commands =~= after.commands);
            assert(self@.queues =~= after.queues);
            assert(views(expired@) =~= before.expired(now));
        }
        expired
    }

    /// Removes command `id`, which must still be queued.
    pub fn cancel(&mut self, id: CommandId) -> (outcome: Result<(), CoordinatorError>)
        requires
            old(self).wf(),
        ensures
            final(self).wf(),
            final(self)@ == old(self)@.cancel(id),
            outcome == old(self)@.cancellation(id),
    {
        broadcast use group_hash_axioms;

        let ghost before = self@;
        proof {
            lemma_cancel_inv(before, id);
        }
        let (state, agent) = match self.commands.get(&id) {
            Some(command) => (command.state, command.agent_id),
            None => {
                return Err(CoordinatorError::NotFound);
            },
        };
        match state {
            CommandState::Queued => {
                self.commands.remove(&id);
                match self.queues.remove(&agent) {
                    Some(queue) => {
                        let mut queue = queue;
                        let at = position_of(&queue, id);
                        proof {
                            assert(before.queues[agent].contains(id));
                            lemma_without(before.queues[agent], id);
                        }
                        if at < queue.len() {
                            queue.remove(at);
                        }
                        self.queues.insert(agent, queue);
                    },
                    None => {
                        assert(false);
                    },
                }
                proof {
                    let after = before.cancel(id);
                    assert(self@.commands =~= after.commands);
                    assert(self@.queues =~= after.queues);
                }
                Ok(())
            },
            _ => Err(CoordinatorError::InvalidState),
        }
    }
}

/// The first position at which `id` stands in `ids`, or their number if it
/// stands nowhere.
fn position_of(ids: &Vec<u128>, id: u128) -> (at: usize)
    ensures
        at <= ids@.len(),
        at < ids@.len() ==> ids@[at as int] == id,
        forall|i: int| 0 <= i < at ==> ids@[i] != id,
{
    let mut at: usize = 0;
    while at < ids.len() && ids[at] != id
        invariant
            at <= ids@.len(),
            forall|i: int| 0 <= i < at ==> ids@[i] != id,
        decreases ids@.len() - at,
    {
        at = at + 1;
    }
    at
}

} // verus!
