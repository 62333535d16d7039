//! The coordinator: the registry, the dispatcher and the store behind the two
//! protocols, the agents' and the operators'.
//!
//! An operation that depends on the time of the call, or assigns a new
//! identifier, exists in two forms. The plain one takes the time, and the
//! candidate for the identifier, as arguments, and its contract gives the
//! next state and the answer exactly. The one whose name ends in `_now` reads
//! the clock and draws the candidate itself, and then does what the plain one
//! does; its contract says that some time and some candidate lead from the
//! state before to the state after.

use crate::clock::current_time;
use crate::dispatcher::CommandDispatcher;
use crate::ident::{is_random_uuid, random_candidate};
use crate::model::{
    views, Agent, AgentId, Command, CommandId, CommandResult, CoordinatorError, PendingCommand,
    Screenshot, Session, Timestamp, DEFAULT_COMMAND_TIMEOUT_MS, DEFAULT_LIVENESS_TIMEOUT_MS,
};
use crate::protocol::{
    lemma_cancel_command_inv, lemma_poll_keeps_inv, lemma_recorded_agent, lemma_register_inv,
    lemma_report_result_inv, lemma_submit_command_inv, lemma_sweep_keeps_inv, lemma_touch_inv,
    lemma_upload_screenshot_inv, CoordinatorView,
};
use crate::registry::SessionRegistry;
use crate::store::ArtifactStore;
use vstd::prelude::*;

verus! {

/// The view of an answer that is a list of records, or an error.
pub open spec fn listed<T: View>(outcome: Result<Vec<T>, CoordinatorError>) -> Result<
    Seq<T::V>,
    CoordinatorError,
> {
    match outcome {
        Ok(items) => Ok(views(items@)),
        Err(e) => Err(e),
    }
}

/// The coordinator.
pub struct Coordinator {
    registry: SessionRegistry,
    dispatcher: CommandDispatcher,
    store: ArtifactStore,
}

impl View for Coordinator {
    type V = CoordinatorView;

    closed spec fn view(&self) -> CoordinatorView {
        CoordinatorView {
            registry: self.registry@,
            dispatcher: self.dispatcher@,
            store: self.store@,
        }
    }
}

impl Coordinator {
    /// The components are well formed and fit each other.
    pub closed spec fn wf(&self) -> bool {
        &&& self.registry.wf()
        &&& self.dispatcher.wf()
        &&& self.store.wf()
        &&& self@.inv()
    }

    /// A well-formed coordinator stands for a valid model, and what fits in
    /// memory leaves identifiers for more operations than a 64-bit counter
    /// can count.
    pub proof fn lemma_wf(&self)
        requires
            self.wf(),
        ensures
            self@.inv(),
            self@.has_room(),
            self@.has_room_for(u64::MAX as nat),
    {
        self.registry.lemma_wf();
        self.dispatcher.lemma_has_room();
    }

    /// A coordinator without agents, with the given timeouts in milliseconds.
    pub fn new(liveness_timeout_ms: u64, command_timeout_ms: u64) -> (coordinator: Coordinator)
        ensures
            coordinator.wf(),
            coordinator@ == CoordinatorView::empty(liveness_timeout_ms, command_timeout_ms),
    {
        let coordinator = Coordinator {
            registry: SessionRegistry::new(liveness_timeout_ms),
            dispatcher: CommandDispatcher::new(command_timeout_ms),
            store: ArtifactStore::new(),
        };
        proof {
            coordinator.registry.lemma_wf();
        }
        coordinator
    }

    /// A coordinator without agents, with the default timeouts.
    pub fn with_defaults() -> (coordinator: Coordinator)
        ensures
            coordinator.wf(),
            coordinator@ == CoordinatorView::empty(
                DEFAULT_LIVENESS_TIMEOUT_MS,
                DEFAULT_COMMAND_TIMEOUT_MS,
            ),
    {
        Coordinator::new(DEFAULT_LIVENESS_TIMEOUT_MS, DEFAULT_COMMAND_TIMEOUT_MS)
    }

    /// Registers a new agent, last seen at `now`, under the first free
    /// identifier from `candidate` on, and returns that identifier. The
    /// identifier is one that no agent had.
    pub fn register(
        &mut self,
        candidate: u128,
        hostname: String,
        os_info: String,
        now: Timestamp,
    ) -> (id: AgentId)
        requires
            old(self).wf(),
        ensures
            final(self).wf(),
            final(self)@ == old(self)@.register(candidate, hostname@, os_info@, now),
            id == old(self)@.next_agent_id(candidate),
            !old(self)@.knows_agent(id),
            final(self)@.knows_agent(id),
    {
        proof {
            self.lemma_wf();
            lemma_register_inv(self@, candidate, hostname@, os_info@, now);
        }
        let id = self.registry.register(candidate, hostname, os_info, now);
        self.dispatcher.open_queue(id);
        self.store.open(id);
        id
    }

    /// Records that `agent` made contact at `now`.
    pub fn ping(&mut self, agent: AgentId, now: Timestamp) -> (outcome: Result<
        (),
        CoordinatorError,
    >)
        requires
            old(self).wf(),
        ensures
            final(self).wf(),
            final(self)@ == old(self)@.ping(agent, now),
            outcome == old(self)@.found(agent),
    {
        proof {
            lemma_touch_inv(self@, agent, now);
        }
        self.registry.touch(agent, now)
    }

    /// Hands the queued commands of `agent` out, oldest first, marks each as
    /// dispatched at `now`, and records the contact.
    pub fn poll(&mut self, agent: AgentId, now: Timestamp) -> (outcome: Result<
        Vec<PendingCommand>,
        CoordinatorError,
    >)
        requires
            old(self).wf(),
        ensures
            final(self).wf(),
            final(self)@ == old(self)@.poll(agent, now),
            listed(outcome) == old(self)@.polled(agent),
    {
        proof {
            lemma_poll_keeps_inv(self@, agent, now);
            assert(self@.registry.knows(agent) == self@.dispatcher.knows_agent(agent));
        }
        match self.registry.touch(agent, now) {
            Ok(()) => self.dispatcher.poll(agent, now),
            Err(e) => Err(e),
        }
    }

    /// Takes the result that an agent reports for command `id` at `now`.
    ///
    /// The result of a command in flight completes it and goes into the
    /// history of its agent. A report for a command that is already resolved,
    /// by an earlier result or by a timeout, is accepted and changes neither
    /// the command nor the history. Either way the agent was heard from. A
    /// report for a command that is still queued is refused.
    pub fn report_result(&mut self, id: CommandId, result: CommandResult, now: Timestamp) -> (outcome:
        Result<(), CoordinatorError>)
        requires
            old(self).wf(),
        ensures
            final(self).wf(),
            final(self)@ == old(self)@.report_result(id, result@, now),
            outcome == old(self)@.reported(id),
    {
        proof {
            lemma_report_result_inv(self@, id, result@, now);
            if self@.dispatcher.knows(id) {
                lemma_recorded_agent(self@, id);
            }
        }
        let agent = match self.dispatcher.owner(id) {
            Ok(agent) => agent,
            Err(e) => {
                return Err(e);
            },
        };
        match self.dispatcher.resolve(id, result, now) {
            Ok(Some(record)) => {
                let _ = self.registry.touch(agent, now);
                let _ = self.store.record(record);
                Ok(())
            },
            Ok(None) => {
                let _ = self.registry.touch(agent, now);
                Ok(())
            },
            Err(e) => Err(e),
        }
    }

    /// Stores a screenshot that `agent` sent, captured at `now`, and records
    /// the contact.
    pub fn upload_screenshot(&mut self, agent: AgentId, image_data: Vec<u8>, now: Timestamp) -> (outcome:
        Result<(), CoordinatorError>)
        requires
            old(self).wf(),
        ensures
            final(self).wf(),
            final(self)@ == old(self)@.upload_screenshot(agent, image_data@, now),
            outcome == old(self)@.found(agent),
    {
        proof {
            lemma_upload_screenshot_inv(self@, agent, image_data@, now);
            assert(self@.registry.knows(agent) == self@.store.knows(agent));
        }
        match self.registry.touch(agent, now) {
            Ok(()) => self.store.append_screenshot(agent, image_data, now),
            Err(e) => Err(e),
        }
    }

    /// Every registered agent with its status at `now`, ordered by host name
    /// and then by identifier.
    pub fn list_agents(&self, now: Timestamp) -> (listing: Vec<Session>)
        requires
            self.wf(),
        ensures
            self@.registry.lists(now, views(listing@)),
    {
        self.registry.list(now)
    }

    /// A copy of the record of `agent`.
    pub fn get_agent(&self, agent: AgentId) -> (outcome: Result<Agent, CoordinatorError>)
        ensures
            match outcome {
                Ok(record) => self@.knows_agent(agent) && record@ == self@.registry.agents[agent],
                Err(e) => !self@.knows_agent(agent) && e == CoordinatorError::NotFound,
            },
    {
        self.registry.get(agent)
    }

    /// The session of `agent` as a query at `now` shows it.
    pub fn get_session(&self, agent: AgentId, now: Timestamp) -> (outcome: Result<
        Session,
        CoordinatorError,
    >)
        ensures
            match outcome {
                Ok(session) => self@.knows_agent(agent) && session@
                    == self@.registry.agents[agent].session(now, self@.registry.liveness_timeout),
                Err(e) => !self@.knows_agent(agent) && e == CoordinatorError::NotFound,
            },
    {
        self.registry.session(agent, now)
    }

    /// Queues a command with the given text for `agent`, under the first free
    /// identifier from `candidate` on, and returns that identifier at once.
    pub fn submit_command(
        &mut self,
        agent: AgentId,
        candidate: u128,
        text: String,
        now: Timestamp,
    ) -> (outcome: Result<CommandId, CoordinatorError>)
        requires
            old(self).wf(),
        ensures
            final(self).wf(),
            final(self)@ == old(self)@.submit_command(agent, candidate, text@, now),
            outcome == old(self)@.submitted(agent, candidate),
            old(self)@.knows_agent(agent) ==> !old(self)@.dispatcher.knows(
                old(self)@.next_command_id(candidate),
            ),
    {
        proof {
            self.lemma_wf();
            lemma_submit_command_inv(self@, agent, candidate, text@, now);
            assert(self@.registry.knows(agent) == self@.dispatcher.knows_agent(agent));
        }
        self.dispatcher.submit(agent, candidate, text, now)
    }

    /// Removes command `id`, which must still be queued.
    pub fn cancel_command(&mut self, id: CommandId) -> (outcome: Result<(), CoordinatorError>)
        requires
            old(self).wf(),
        ensures
            final(self).wf(),
            final(self)@ == old(self)@.cancel_command(id),
            outcome == old(self)@.dispatcher.cancellation(id),
    {
        proof {
            lemma_cancel_command_inv(self@, id);
        }
        self.dispatcher.cancel(id)
    }

    /// A copy of the record of command `id` as the dispatcher holds it.
    pub fn get_command(&self, id: CommandId) -> (outcome: Result<Command, CoordinatorError>)
        ensures
            match outcome {
                Ok(command) => self@.dispatcher.knows(id) && command@
                    == self@.dispatcher.commands[id],
                Err(e) => !self@.dispatcher.knows(id) && e == CoordinatorError::NotFound,
            },
    {
        self.dispatcher.command(id)
    }

    /// Times out every command that was dispatched more than the command
    /// timeout before `now`, records each in the history of its agent, and
    /// returns their number.
    pub fn sweep_timeouts(&mut self, now: Timestamp) -> (count: usize)
        requires
            old(self).wf(),
        ensures
            final(self).wf(),
            final(self)@ == old(self)@.sweep(now),
            count == old(self)@.dispatcher.overdue(now).len(),
    {
        proof {
            lemma_sweep_keeps_inv(self@, now);
        }
        let expired = self.dispatcher.sweep(now);
        self.store.record_all(&expired);
        expired.len()
    }

    /// The records of the commands resolved for `agent`, in the order of
    /// their resolution, after a sweep at `now`.
    pub fn list_command_history(&mut self, agent: AgentId, now: Timestamp) -> (outcome: Result<
        Vec<Command>,
        CoordinatorError,
    >)
        requires
            old(self).wf(),
        ensures
            final(self).wf(),
            final(self)@ == old(self)@.read_history(agent, now),
            listed(outcome) == old(self)@.history_read(agent, now),
    {
        if !self.registry.contains(agent) {
            return Err(CoordinatorError::NotFound);
        }
        let _ = self.sweep_timeouts(now);
        proof {
            assert(self@.registry.knows(agent) == self@.store.knows(agent)) by {
                self.lemma_wf();
            }
        }
        self.store.list_command_history(agent)
    }

    /// The screenshots of `agent`, oldest first.
    pub fn list_screenshots(&self, agent: AgentId) -> (outcome: Result<
        Vec<Screenshot>,
        CoordinatorError,
    >)
        requires
            self.wf(),
        ensures
            listed(outcome) == if self@.knows_agent(agent) {
                Ok::<_, CoordinatorError>(self@.store.screenshots[agent])
            } else {
                Err(CoordinatorError::NotFound)
            },
    {
        proof {
            assert(self@.registry.knows(agent) == self@.store.knows(agent)) by {
                self.lemma_wf();
            }
        }
        self.store.list_screenshots(agent)
    }

    /// Registers a new agent, seen now, under an identifier drawn at random.
    /// The identifier is one that no agent had.
    pub fn register_now(&mut self, hostname: String, os_info: String) -> (id: AgentId)
        requires
            old(self).wf(),
        ensures
            final(self).wf(),
            !old(self)@.knows_agent(id),
            final(self)@.knows_agent(id),
            exists|candidate: u128, now: Timestamp|
                {
                    &&& is_random_uuid(candidate)
                    &&& id == old(self)@.next_agent_id(candidate)
                    &&& final(self)@ == #[trigger] old(self)@.register(
                        candidate,
                        hostname@,
                        os_info@,
                        now,
                    )
                },
    {
        let candidate = random_candidate();
        let now = current_time();
        self.register(candidate, hostname, os_info, now)
    }

    /// Records that `agent` made contact now.
    pub fn ping_now(&mut self, agent: AgentId) -> (outcome: Result<(), CoordinatorError>)
        requires
            old(self).wf(),
        ensures
            final(self).wf(),
            outcome == old(self)@.found(agent),
            exists|now: Timestamp| final(self)@ == #[trigger] old(self)@.ping(agent, now),
    {
        let now = current_time();
        self.ping(agent, now)
    }

    /// Hands the queued commands of `agent` out, oldest first, and marks each
    /// as dispatched now.
    pub fn poll_now(&mut self, agent: AgentId) -> (outcome: Result<
        Vec<PendingCommand>,
        CoordinatorError,
    >)
        requires
            old(self).wf(),
        ensures
            final(self).wf(),
            listed(outcome) == old(self)@.polled(agent),
            exists|now: Timestamp| final(self)@ == #[trigger] old(self)@.poll(agent, now),
    {
        let now = current_time();
        self.poll(agent, now)
    }

    /// Takes the result that an agent reports now for command `id`.
    pub fn report_result_now(&mut self, id: CommandId, result: CommandResult) -> (outcome: Result<
        (),
        CoordinatorError,
    >)
        requires
            old(self).wf(),
        ensures
            final(self).wf(),
            outcome == old(self)@.reported(id),
            exists|now: Timestamp|
                final(self)@ == #[trigger] old(self)@.report_result(id, result@, now),
    {
        let now = current_time();
        self.report_result(id, result, now)
    }

    /// Stores a screenshot that `agent` sends now.
    pub fn upload_screenshot_now(&mut self, agent: AgentId, image_data: Vec<u8>) -> (outcome:
        Result<(), CoordinatorError>)
        requires
            old(self).wf(),
        ensures
            final(self).wf(),
            outcome == old(self)@.found(agent),
            exists|now: Timestamp|
                final(self)@ == #[trigger] old(self)@.upload_screenshot(agent, image_data@, now),
    {
        let now = current_time();
        self.upload_screenshot(agent, image_data, now)
    }

    /// Every registered agent with its status now.
    pub fn list_agents_now(&self) -> (listing: Vec<Session>)
        requires
            self.wf(),
        ensures
            exists|now: Timestamp| #[trigger] self@.registry.lists(now, views(listing@)),
    {
        let now = current_time();
        self.list_agents(now)
    }

    /// Queues a command with the given text for `agent`, submitted now, under
    /// an identifier drawn at random.
    pub fn submit_command_now(&mut self, agent: AgentId, text: String) -> (outcome: Result<
        CommandId,
        CoordinatorError,
    >)
        requires
            old(self).wf(),
        ensures
            final(self).wf(),
            exists|candidate: u128, now: Timestamp|
                {
                    &&& is_random_uuid(candidate)
                    &&& outcome == old(self)@.submitted(agent, candidate)
                    &&& final(self)@ == #[trigger] old(self)@.submit_command(
                        agent,
                        candidate,
                        text@,
                        now,
                    )
                },
    {
        let candidate = random_candidate();
        let now = current_time();
        self.submit_command(agent, candidate, text, now)
    }

    /// Times out every command that was dispatched more than the command
    /// timeout ago, and returns their number.
    pub fn sweep_timeouts_now(&mut self) -> (count: usize)
        requires
            old(self).wf(),
        ensures
            final(self).wf(),
            exists|now: Timestamp|
                {
                    &&& final(self)@ == #[trigger] old(self)@.sweep(now)
                    &&& count == old(self)@.dispatcher.overdue(now).len()
                },
    {
        let now = current_time();
        self.sweep_timeouts(now)
    }

    /// The records of the commands resolved for `agent`, after a sweep now.
    pub fn list_command_history_now(&mut self, agent: AgentId) -> (outcome: Result<
        Vec<Command>,
        CoordinatorError,
    >)
        requires
            old(self).wf(),
        ensures
            final(self).wf(),
            exists|now: Timestamp|
                {
                    &&& final(self)@ == #[trigger] old(self)@.read_history(agent, now)
                    &&& listed(outcome) == old(self)@.history_read(agent, now)
                },
    {
        let now = current_time();
        self.list_command_history(agent, now)
    }
}

} // verus!
