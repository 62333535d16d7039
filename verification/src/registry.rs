//! The session registry: which agents exist and when each was last heard from.

use crate::ident::{allocate, allocate_in, identifier_space};
use crate::model::{
    listing_key_precedes, liveness, views, Agent, AgentId, AgentView, CoordinatorError, Session,
    SessionView, Timestamp,
};
use crate::text::{
    lemma_precedes_asymmetric, lemma_precedes_irreflexive, lemma_precedes_total,
    lemma_precedes_transitive, precedes, text_precedes,
};
use std::collections::HashMap;
use vstd::prelude::*;
use vstd::std_specs::hash::*;

verus! {

/// What a registry stands for: the agents by identifier, and the liveness timeout.
pub struct RegistryView {
    pub agents: Map<AgentId, AgentView>,
    pub liveness_timeout: u64,
}

impl RegistryView {
    /// An agent with this identifier is registered.
    pub open spec fn knows(self, id: AgentId) -> bool {
        self.agents.contains_key(id)
    }

    /// Finitely many agents are registered, each under its own identifier.
    pub open spec fn inv(self) -> bool {
        &&& self.agents.dom().finite()
        &&& forall|id: AgentId| #[trigger]
            self.agents.contains_key(id) ==> self.agents[id].id == id
    }

    /// Some identifier is still free.
    pub open spec fn has_room(self) -> bool {
        self.agents.dom().len() < identifier_space()
    }

    /// The identifier that a registration starting from `candidate` assigns.
    pub open spec fn next_id(self, candidate: u128) -> AgentId {
        allocate(self.agents.dom(), candidate)
    }

    /// The registry after a registration at `now`.
    pub open spec fn register(
        self,
        candidate: u128,
        hostname: Seq<char>,
        os_info: Seq<char>,
        now: Timestamp,
    ) -> RegistryView {
        let id = self.next_id(candidate);
        RegistryView {
            agents: self.agents.insert(id, AgentView { id, hostname, os_info, last_seen: now }),
            ..self
        }
    }

    /// The registry after agent `id` made contact at `now`; unchanged if there
    /// is no such agent.
    pub open spec fn touch(self, id: AgentId, now: Timestamp) -> RegistryView {
        if self.knows(id) {
            RegistryView { agents: self.agents.insert(id, self.agents[id].seen_at(now)), ..self }
        } else {
            self
        }
    }

    /// `listing` is what a query at `now` shows: every registered agent once,
    /// with its status at `now`, ordered by host name and then by identifier.
    pub open spec fn lists(self, now: Timestamp, listing: Seq<SessionView>) -> bool {
        &&& forall|i: int|
            0 <= i < listing.len() ==> {
                &&& self.knows((#[trigger] listing[i]).agent.id)
                &&& listing[i] == self.agents[listing[i].agent.id].session(
                    now,
                    self.liveness_timeout,
                )
            }
        &&& forall|id: AgentId| #[trigger]
            self.knows(id) ==> exists|i: int|
                0 <= i < listing.len() && (#[trigger] listing[i]).agent.id == id
        &&& forall|i: int, j: int|
            0 <= i < j < listing.len() ==> (#[trigger] listing[i]).agent.listed_before(
                (#[trigger] listing[j]).agent,
            )
    }
}

/// Of two agents with different identifiers one is listed before the other.
pub proof fn lemma_listed_total(a: AgentView, b: AgentView)
    requires
        a.id != b.id,
    ensures
        a.listed_before(b) || b.listed_before(a),
{
    if a.hostname != b.hostname {
        lemma_precedes_total(a.hostname, b.hostname);
    }
}

/// The listing order is transitive.
pub proof fn lemma_listed_transitive(a: AgentView, b: AgentView, c: AgentView)
    requires
        a.listed_before(b),
        b.listed_before(c),
    ensures
        a.listed_before(c),
{
    if precedes(a.hostname, b.hostname) && precedes(b.hostname, c.hostname) {
        lemma_precedes_transitive(a.hostname, b.hostname, c.hostname);
    }
}

/// No agent is listed before itself, nor two agents before each other.
pub proof fn lemma_listed_asymmetric(a: AgentView, b: AgentView)
    requires
        a.listed_before(b),
    ensures
        !b.listed_before(a),
        a.id != b.id || a.hostname != b.hostname,
{
    lemma_precedes_irreflexive(a.hostname);
    if precedes(a.hostname, b.hostname) {
        lemma_precedes_asymmetric(a.hostname, b.hostname);
    }
}

/// Decides whether an agent with the given host name and identifier is listed
/// before `other`.
fn goes_before(hostname: &String, id: AgentId, other: &Agent) -> (before: bool)
    ensures
        before == listing_key_precedes(hostname@, id, other.hostname@, other.id),
{
    text_precedes(hostname.as_str(), other.hostname.as_str()) || (*hostname == other.hostname
        && id < other.id)
}

/// The session registry.
pub struct SessionRegistry {
    agents: HashMap<u128, Agent>,
    order: Vec<u128>,
    liveness_timeout_ms: u64,
}

impl View for SessionRegistry {
    type V = RegistryView;

    closed spec fn view(&self) -> RegistryView {
        RegistryView {
            agents: Map::new(
                |id: AgentId| self.agents@.contains_key(id),
                |id: AgentId| self.agents@[id]@,
            ),
            liveness_timeout: self.liveness_timeout_ms,
        }
    }
}

impl SessionRegistry {
    /// The records are filed under their own identifiers, and `order` holds
    /// every identifier once, in listing order.
    pub closed spec fn wf(&self) -> bool {
        &&& forall|id: AgentId| #[trigger]
            self.agents@.contains_key(id) ==> self.agents@[id].id == id
        &&& forall|i: int|
            0 <= i < self.order@.len() ==> self.agents@.contains_key(#[trigger] self.order@[i])
        &&& forall|id: AgentId| #[trigger]
            self.agents@.contains_key(id) ==> self.order@.contains(id)
        &&& forall|i: int, j: int|
            0 <= i < j < self.order@.len() ==> self.agents@[#[trigger] self.order@[i]]@.listed_before(
                self.agents@[#[trigger] self.order@[j]]@,
            )
    }

    /// A well-formed registry stands for a valid model with room for more agents.
    pub proof fn lemma_wf(&self)
        requires
            self.wf(),
        ensures
            self@.inv(),
            self@.has_room(),
            self@.agents.dom().len() <= usize::MAX,
    {
        broadcast use group_hash_axioms;

        assert(self@.agents.dom() =~= self.agents@.dom());
        assert(self.agents@.dom().len() == spec_hash_map_len(&self.agents));
    }

    /// An empty registry with the given liveness timeout.
    pub fn new(liveness_timeout_ms: u64) -> (registry: SessionRegistry)
        ensures
            registry.wf(),
            registry@ == (RegistryView { agents: Map::empty(), liveness_timeout: liveness_timeout_ms }),
    {
        let registry = SessionRegistry {
            agents: HashMap::new(),
            order: Vec::new(),
            liveness_timeout_ms,
        };
        assert(registry@.agents =~= Map::empty());
        registry
    }

    /// The liveness timeout, in milliseconds.
    pub fn liveness_timeout(&self) -> (timeout: u64)
        ensures
            timeout == self@.liveness_timeout,
    {
        self.liveness_timeout_ms
    }

    /// Whether an agent with this identifier is registered.
    pub fn contains(&self, id: AgentId) -> (known: bool)
        ensures
            known == self@.knows(id),
    {
        broadcast use group_hash_axioms;

        self.agents.contains_key(&id)
    }

    /// The number of registered agents.
    pub fn len(&self) -> (count: usize)
        requires
            self.wf(),
        ensures
            count == self@.agents.dom().len(),
    {
        broadcast use group_hash_axioms;

        assert(self@.agents.dom() =~= self.agents@.dom());
        self.agents.len()
    }

    /// Registers a new agent, last seen at `now`, under the first free
    /// identifier from `candidate` on, and returns that identifier.
    pub fn register(
        &mut self,
        candidate: u128,
        hostname: String,
        os_info: String,
        now: Timestamp,
    ) -> (id: AgentId)
        requires
            old(self).wf(),
        ensures
            final(self).wf(),
            id == old(self)@.next_id(candidate),
            !old(self)@.knows(id),
            final(self)@ == old(self)@.register(candidate, hostname@, os_info@, now),
    {
        broadcast use group_hash_axioms;

        assert(self@.agents.dom() =~= self.agents@.dom());
        let id = allocate_in(&self.agents, candidate);
        let ghost fresh = AgentView { id, hostname: hostname@, os_info: os_info@, last_seen: now };
        let mut at: usize = 0;
        while at < self.order.len()
            invariant
                *self == *old(self),
                self.wf(),
                !self.agents@.contains_key(id),
                at <= self.order@.len(),
                fresh == (AgentView { id, hostname: hostname@, os_info: os_info@, last_seen: now }),
                forall|i: int|
                    0 <= i < at ==> self.agents@[#[trigger] self.order@[i]]@.listed_before(fresh),
            ensures
                at <= self.order@.len(),
                at < self.order@.len() ==> fresh.listed_before(self.agents@[self.order@[at as int]]@),
            decreases self.order@.len() - at,
        {
            let key = self.order[at];
            let stop = match self.agents.get(&key) {
                Some(other) => goes_before(&hostname, id, other),
                None => true,
            };
            if stop {
                break;
            }
            proof {
                lemma_listed_total(self.agents@[key]@, fresh);
            }
            at = at + 1;
        }
        let ghost before = *self;
        self.order.insert(at, id);
        self.agents.insert(id, Agent { id, hostname, os_info, last_seen: now });
        proof {
            assert(self@.agents =~= before@.register(candidate, fresh.hostname, fresh.os_info, now)
                .agents);
            assert forall|i: int| 0 <= i < self.order@.len() implies self.agents@.contains_key(
                #[trigger] self.order@[i],
            ) by {
                if i < at {
                    assert(self.order@[i] == before.order@[i]);
                } else if i > at {
                    assert(self.order@[i] == before.order@[i - 1]);
                }
            }
            assert forall|known: AgentId| #[trigger]
                self.agents@.contains_key(known) implies self.order@.contains(known) by {
                if known == id {
                    assert(self.order@[at as int] == id);
                } else {
                    let i = choose|i: int| 0 <= i < before.order@.len() && before.order@[i] == known;
                    if i < at {
                        assert(self.order@[i] == known);
                    } else {
                        assert(self.order@[i + 1] == known);
                    }
                }
            }
            assert forall|i: int, j: int| 0 <= i < j < self.order@.len() implies self.agents@[#[trigger] self.order@[i]]@.listed_before(
                self.agents@[#[trigger] self.order@[j]]@,
            ) by {
                let a = if i < at { i } else { i - 1 };
                let b = if j < at { j } else { j - 1 };
                if i != at {
                    assert(self.order@[i] == before.order@[a]);
                    assert(self.agents@[self.order@[i]] == before.agents@[before.order@[a]]);
                }
                if j != at {
                    assert(self.order@[j] == before.order@[b]);
                    assert(self.agents@[self.order@[j]] == before.agents@[before.order@[b]]);
                }
                if j == at {
                    assert(self.agents@[self.order@[j]]@ == fresh);
                } else if i == at {
                    assert(self.agents@[self.order@[i]]@ == fresh);
                    if b > at {
                        lemma_listed_transitive(
                            fresh,
                            before.agents@[before.order@[at as int]]@,
                            before.agents@[before.order@[b]]@,
                        );
                    }
                }
            }
        }
        id
    }

    /// Records that agent `id` made contact at `now`.
    pub fn touch(&mut self, id: AgentId, now: Timestamp) -> (outcome: Result<(), CoordinatorError>)
        requires
            old(self).wf(),
        ensures
            final(self).wf(),
            final(self)@ == old(self)@.touch(id, now),
            outcome == if old(self)@.knows(id) {
                Ok::<(), CoordinatorError>(())
            } else {
                Err(CoordinatorError::NotFound)
            },
    {
        broadcast use group_hash_axioms;

        let ghost before = *self;
        match self.agents.remove(&id) {
            Some(agent) => {
                let seen = Agent {
                    id: agent.id,
                    hostname: agent.hostname,
                    os_info: agent.os_info,
                    last_seen: now,
                };
                self.agents.insert(id, seen);
                proof {
                    assert(self@.agents =~= before@.touch(id, now).agents);
                    assert forall|i: int, j: int|
                        0 <= i < j < self.order@.len() implies self.agents@[#[trigger] self.order@[i]]@.listed_before(
                        self.agents@[#[trigger] self.order@[j]]@,
                    ) by {
                        assert(before.agents@[before.order@[i]]@.listed_before(
                            before.agents@[before.order@[j]]@,
                        ));
                    }
                }
                Ok(())
            },
            None => {
                proof {
                    assert(self.agents@ =~= before.agents@);
                    assert(self@.agents =~= before@.agents);
                }
                Err(CoordinatorError::NotFound)
            },
        }
    }

    /// A copy of the record of agent `id`.
    pub fn get(&self, id: AgentId) -> (outcome: Result<Agent, CoordinatorError>)
        ensures
            match outcome {
                Ok(agent) => self@.knows(id) && agent@ == self@.agents[id],
                Err(e) => !self@.knows(id) && e == CoordinatorError::NotFound,
            },
    {
        broadcast use group_hash_axioms;

        match self.agents.get(&id) {
            Some(agent) => Ok(agent.duplicate()),
            None => Err(CoordinatorError::NotFound),
        }
    }

    /// The session of agent `id` as a query at `now` shows it.
    pub fn session(&self, id: AgentId, now: Timestamp) -> (outcome: Result<
        Session,
        CoordinatorError,
    >)
        ensures
            match outcome {
                Ok(session) => self@.knows(id) && session@ == self@.agents[id].session(
                    now,
                    self@.liveness_timeout,
                ),
                Err(e) => !self@.knows(id) && e == CoordinatorError::NotFound,
            },
    {
        broadcast use group_hash_axioms;

        match self.agents.get(&id) {
            Some(agent) => {
                let status = liveness(agent.last_seen, now, self.liveness_timeout_ms);
                Ok(Session { agent: agent.duplicate(), status })
            },
            None => Err(CoordinatorError::NotFound),
        }
    }

    /// Every registered agent with its status at `now`, ordered by host name
    /// and then by identifier.
    pub fn list(&self, now: Timestamp) -> (listing: Vec<Session>)
        requires
            self.wf(),
        ensures
            self@.lists(now, views(listing@)),
    {
        broadcast use group_hash_axioms;

        let mut listing: Vec<Session> = Vec::new();
        let mut at: usize = 0;
        while at < self.order.len()
            invariant
                self.wf(),
                at <= self.order@.len(),
                listing@.len() == at,
                forall|i: int|
                    0 <= i < at ==> (#[trigger] listing@[i])@ == self.agents@[self.order@[i]]@.session(
                        now,
                        self.liveness_timeout_ms,
                    ),
            decreases self.order@.len() - at,
        {
            let key = self.order[at];
            match self.agents.get(&key) {
                Some(agent) => {
                    let status = liveness(agent.last_seen, now, self.liveness_timeout_ms);
                    listing.push(Session { agent: agent.duplicate(), status });
                },
                None => {
                    assert(false);
                },
            }
            at = at + 1;
        }
        proof {
            let shown = views(listing@);
            assert forall|i: int| 0 <= i < shown.len() implies {
                &&& self@.knows((#[trigger] shown[i]).agent.id)
                &&& shown[i] == self@.agents[shown[i].agent.id].session(
                    now,
                    self@.liveness_timeout,
                )
            } by {
                assert(shown[i] == listing@[i]@);
                assert(self.agents@.contains_key(self.order@[i]));
            }
            assert forall|id: AgentId| #[trigger] self@.knows(id) implies exists|i: int|
                0 <= i < shown.len() && (#[trigger] shown[i]).agent.id == id by {
                assert(self.order@.contains(id));
                let i = choose|i: int| 0 <= i < self.order@.len() && self.order@[i] == id;
                assert(shown[i] == listing@[i]@);
                assert(self.agents@.contains_key(self.order@[i]));
            }
            assert forall|i: int, j: int| 0 <= i < j < shown.len() implies (#[trigger] shown[i])
                .agent.listed_before((#[trigger] shown[j]).agent) by {
                assert(shown[i] == listing@[i]@);
                assert(shown[j] == listing@[j]@);
                assert(self.agents@[self.order@[i]]@.listed_before(self.agents@[self.order@[j]]@));
            }
        }
        listing
    }
}

} // verus!
