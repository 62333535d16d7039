//! The result and artifact store: for each agent, the screenshots it sent and
//! the commands that were resolved for it, both append-only.

use crate::model::{
    views, AgentId, Command, CommandView, CoordinatorError, Screenshot, ScreenshotView, Timestamp,
};
use std::collections::HashMap;
use vstd::prelude::*;
use vstd::std_specs::hash::*;

verus! {

/// What a store stands for.
pub struct StoreView {
    /// For each agent, its screenshots, oldest first.
    pub screenshots: Map<AgentId, Seq<ScreenshotView>>,
    /// For each agent, the records of its resolved commands, in the order of
    /// their resolution.
    pub history: Map<AgentId, Seq<CommandView>>,
}

impl StoreView {
    /// A store that knows no agent.
    pub open spec fn empty() -> StoreView {
        StoreView { screenshots: Map::empty(), history: Map::empty() }
    }

    /// The store keeps entries for this agent.
    pub open spec fn knows(self, agent: AgentId) -> bool {
        self.history.contains_key(agent)
    }

    /// An agent has both kinds of entries or none, and every entry is filed
    /// under the agent it belongs to.
    pub open spec fn inv(self) -> bool {
        &&& forall|agent: AgentId|
            self.screenshots.contains_key(agent) <==> #[trigger] self.history.contains_key(agent)
        &&& forall|agent: AgentId, i: int|
            #![trigger self.screenshots[agent][i]]
            self.screenshots.contains_key(agent) && 0 <= i < self.screenshots[agent].len()
                ==> self.screenshots[agent][i].agent_id == agent
        &&& forall|agent: AgentId, i: int|
            #![trigger self.history[agent][i]]
            self.history.contains_key(agent) && 0 <= i < self.history[agent].len()
                ==> self.history[agent][i].agent_id == agent
    }

    /// The store after it was told of agent `agent`: the agent has entries,
    /// empty if it had none before.
    pub open spec fn open(self, agent: AgentId) -> StoreView {
        if self.knows(agent) {
            self
        } else {
            StoreView {
                screenshots: self.screenshots.insert(agent, Seq::empty()),
                history: self.history.insert(agent, Seq::empty()),
            }
        }
    }

    /// The store after `agent` sent a screenshot at `now`; unchanged if the
    /// agent is unknown.
    pub open spec fn append_screenshot(self, agent: AgentId, image_data: Seq<u8>, now: Timestamp)
        -> StoreView {
        if self.knows(agent) {
            let shot = ScreenshotView { agent_id: agent, captured_at: now, image_data };
            StoreView {
                screenshots: self.screenshots.insert(agent, self.screenshots[agent].push(shot)),
                ..self
            }
        } else {
            self
        }
    }

    /// The store after the record of a resolved command was added to the
    /// history of its agent; unchanged if the agent is unknown.
    pub open spec fn record(self, command: CommandView) -> StoreView {
        if self.knows(command.agent_id) {
            StoreView {
                history: self.history.insert(
                    command.agent_id,
                    self.history[command.agent_id].push(command),
                ),
                ..self
            }
        } else {
            self
        }
    }

    /// The store after the records were added, one after the other.
    pub open spec fn record_all(self, commands: Seq<CommandView>) -> StoreView
        decreases commands.len(),
    {
        if commands.len() == 0 {
            self
        } else {
            self.record_all(commands.drop_last()).record(commands.last())
        }
    }
}

/// Telling the store of an agent keeps it valid.
pub proof fn lemma_open_inv(s: StoreView, agent: AgentId)
    requires
        s.inv(),
    ensures
        s.open(agent).inv(),
{
    let t = s.open(agent);
    assert forall|a: AgentId| t.screenshots.contains_key(a) <==> #[trigger] t.history.contains_key(
        a,
    ) by {
        assert(s.screenshots.contains_key(a) <==> s.history.contains_key(a));
    }
}

/// A screenshot keeps the store valid.
pub proof fn lemma_append_screenshot_inv(
    s: StoreView,
    agent: AgentId,
    image_data: Seq<u8>,
    now: Timestamp,
)
    requires
        s.inv(),
    ensures
        s.append_screenshot(agent, image_data, now).inv(),
{
    let t = s.append_screenshot(agent, image_data, now);
    assert(s.screenshots.contains_key(agent) <==> s.history.contains_key(agent));
    assert forall|a: AgentId| t.screenshots.contains_key(a) <==> #[trigger] t.history.contains_key(
        a,
    ) by {
        assert(s.screenshots.contains_key(a) <==> s.history.contains_key(a));
    }
    assert forall|a: AgentId, i: int|
        #![trigger t.screenshots[a][i]]
        t.screenshots.contains_key(a) && 0 <= i < t.screenshots[a].len() implies t.screenshots[a][i].agent_id
        == a by {
        if i < s.screenshots[a].len() {
            assert(s.screenshots[a][i].agent_id == a);
        }
    }
}

/// A record keeps the store valid, and changes the history of its agent alone.
pub proof fn lemma_record_inv(s: StoreView, command: CommandView)
    requires
        s.inv(),
    ensures
        s.record(command).inv(),
        s.record(command).screenshots == s.screenshots,
        forall|agent: AgentId| s.record(command).knows(agent) == s.knows(agent),
        forall|agent: AgentId|
            agent != command.agent_id ==> s.record(command).history[agent] == s.history[agent],
{
    let t = s.record(command);
    assert forall|a: AgentId| t.screenshots.contains_key(a) <==> #[trigger] t.history.contains_key(
        a,
    ) by {
        assert(s.screenshots.contains_key(a) <==> s.history.contains_key(a));
    }
    assert forall|a: AgentId, i: int|
        #![trigger t.history[a][i]]
        t.history.contains_key(a) && 0 <= i < t.history[a].len() implies t.history[a][i].agent_id
        == a by {
        if i < s.history[a].len() {
            assert(s.history[a][i].agent_id == a);
        }
    }
}

/// What adding records one after the other does to the history of an agent:
/// it keeps what was there and appends the records of that agent, and no
/// others, in their order.
pub proof fn lemma_record_all(s: StoreView, commands: Seq<CommandView>)
    requires
        s.inv(),
    ensures
        s.record_all(commands).inv(),
        s.record_all(commands).screenshots == s.screenshots,
        forall|agent: AgentId| s.record_all(commands).knows(agent) == s.knows(agent),
        forall|agent: AgentId| #[trigger]
            s.knows(agent) ==> {
                let before = s.history[agent];
                let after = s.record_all(commands).history[agent];
                &&& before.len() <= after.len()
                &&& after.subrange(0, before.len() as int) == before
                &&& forall|i: int|
                    before.len() <= i < after.len() ==> commands.contains(#[trigger] after[i])
                &&& forall|i: int|
                    0 <= i < commands.len() && (#[trigger] commands[i]).agent_id == agent
                        ==> exists|j: int|
                        before.len() <= j < after.len() && after[j] == commands[i]
                &&& forall|i: int, j: int|
                    before.len() <= i < j < after.len() ==> exists|a: int, b: int|
                        0 <= a < b < commands.len() && commands[a] == #[trigger] after[i]
                            && commands[b] == #[trigger] after[j]
            },
    decreases commands.len(),
{
    if commands.len() > 0 {
        let front = commands.drop_last();
        let last = commands.last();
        let mid = s.record_all(front);
        lemma_record_all(s, front);
        lemma_record_inv(mid, last);
        let t = s.record_all(commands);
        assert forall|agent: AgentId| #[trigger] s.knows(agent) implies {
            let before = s.history[agent];
            let after = t.history[agent];
            &&& before.len() <= after.len()
            &&& after.subrange(0, before.len() as int) == before
            &&& forall|i: int|
                before.len() <= i < after.len() ==> commands.contains(#[trigger] after[i])
            &&& forall|i: int|
                0 <= i < commands.len() && (#[trigger] commands[i]).agent_id == agent
                    ==> exists|j: int| before.len() <= j < after.len() && after[j] == commands[i]
            &&& forall|i: int, j: int|
                before.len() <= i < j < after.len() ==> exists|a: int, b: int|
                    0 <= a < b < commands.len() && commands[a] == #[trigger] after[i] && commands[b]
                        == #[trigger] after[j]
        } by {
            let before = s.history[agent];
            let middle = mid.history[agent];
            let after = t.history[agent];
            assert(mid.knows(agent));
            assert(middle.subrange(0, before.len() as int) == before);
            assert(after.subrange(0, before.len() as int) =~= middle.subrange(
                0,
                before.len() as int,
            ));
            assert forall|i: int| before.len() <= i < after.len() implies commands.contains(
                #[trigger] after[i],
            ) by {
                if i < middle.len() {
                    assert(front.contains(middle[i]));
                    let k = choose|k: int| 0 <= k < front.len() && front[k] == middle[i];
                    assert(commands[k] == after[i]);
                } else {
                    assert(commands[commands.len() - 1] == after[i]);
                }
            }
            assert forall|i: int|
                0 <= i < commands.len() && (#[trigger] commands[i]).agent_id
                    == agent implies exists|j: int|
                before.len() <= j < after.len() && after[j] == commands[i] by {
                if i < front.len() {
                    assert(front[i] == commands[i]);
                    let j = choose|j: int|
                        before.len() <= j < middle.len() && middle[j] == front[i];
                    assert(after[j] == commands[i]);
                } else {
                    assert(after[after.len() - 1] == commands[i]);
                }
            }
            assert forall|i: int, j: int| before.len() <= i < j < after.len() implies exists|
                a: int,
                b: int,
            |
                0 <= a < b < commands.len() && commands[a] == #[trigger] after[i] && commands[b]
                    == #[trigger] after[j] by {
                if j < middle.len() {
                    let (a, b) = choose|a: int, b: int|
                        0 <= a < b < front.len() && front[a] == #[trigger] middle[i] && front[b]
                            == #[trigger] middle[j];
                    assert(commands[a] == after[i] && commands[b] == after[j]);
                } else {
                    assert(front.contains(middle[i]));
                    let a = choose|a: int| 0 <= a < front.len() && front[a] == middle[i];
                    assert(commands[a] == after[i] && commands[commands.len() - 1] == after[j]);
                }
            }
        }
    } else {
        assert forall|agent: AgentId| #[trigger] s.knows(agent) implies s.history[agent].subrange(
            0,
            s.history[agent].len() as int,
        ) == s.history[agent] by {
            assert(s.history[agent].subrange(0, s.history[agent].len() as int)
                =~= s.history[agent]);
        }
    }
}

/// The result and artifact store.
pub struct ArtifactStore {
    screenshots: HashMap<u128, Vec<Screenshot>>,
    history: HashMap<u128, Vec<Command>>,
}

impl View for ArtifactStore {
    type V = StoreView;

    closed spec fn view(&self) -> StoreView {
        StoreView {
            screenshots: Map::new(
                |agent: AgentId| self.screenshots@.contains_key(agent),
                |agent: AgentId| views(self.screenshots@[agent]@),
            ),
            history: Map::new(
                |agent: AgentId| self.history@.contains_key(agent),
                |agent: AgentId| views(self.history@[agent]@),
            ),
        }
    }
}

impl ArtifactStore {
    /// The store stands for a valid model.
    pub open spec fn wf(&self) -> bool {
        self@.inv()
    }

    /// A store that knows no agent.
    pub fn new() -> (store: ArtifactStore)
        ensures
            store.wf(),
            store@ == StoreView::empty(),
    {
        let store = ArtifactStore { screenshots: HashMap::new(), history: HashMap::new() };
        proof {
            assert(store@.screenshots =~= StoreView::empty().screenshots);
            assert(store@.history =~= StoreView::empty().history);
        }
        store
    }

    /// Whether the store keeps entries for this agent.
    pub fn knows(&self, agent: AgentId) -> (known: bool)
        ensures
            known == self@.knows(agent),
    {
        broadcast use group_hash_axioms;

        self.history.contains_key(&agent)
    }

    /// Opens entries for agent `agent`, empty, unless it has some.
    pub fn open(&mut self, agent: AgentId)
        requires
            old(self).wf(),
        ensures
            final(self).wf(),
            final(self)@ == old(self)@.open(agent),
    {
        broadcast use group_hash_axioms;

        if !self.history.contains_key(&agent) {
            self.history.insert(agent, Vec::new());
            self.screenshots.insert(agent, Vec::new());
            proof {
                let after = old(self)@.open(agent);
                assert(views(Seq::<Command>::empty()) =~= Seq::<CommandView>::empty());
                assert(views(Seq::<Screenshot>::empty()) =~= Seq::<ScreenshotView>::empty());
                assert(self@.history =~= after.history);
                assert(old(self)@.screenshots.contains_key(agent) <==> old(self)@.history.contains_key(
                    agent,
                ));
                assert(self@.screenshots =~= after.screenshots);
            }
        }
        proof {
            lemma_open_inv(old(self)@, agent);
        }
    }

    /// Appends a screenshot that `agent` sent, captured at `now`.
    pub fn append_screenshot(&mut self, agent: AgentId, image_data: Vec<u8>, now: Timestamp) -> (outcome:
        Result<(), CoordinatorError>)
        requires
            old(self).wf(),
        ensures
            final(self).wf(),
            final(self)@ == old(self)@.append_screenshot(agent, image_data@, now),
            outcome == if old(self)@.knows(agent) {
                Ok::<(), CoordinatorError>(())
            } else {
                Err(CoordinatorError::NotFound)
            },
    {
        broadcast use group_hash_axioms;

        let ghost before = self@;
        proof {
            lemma_append_screenshot_inv(before, agent, image_data@, now);
            assert(before.screenshots.contains_key(agent) <==> before.history.contains_key(agent));
        }
        match self.screenshots.remove(&agent) {
            Some(shots) => {
                let mut shots = shots;
                let ghost earlier = shots@;
                let shot = Screenshot { agent_id: agent, captured_at: now, image_data };
                shots.push(shot);
                self.screenshots.insert(agent, shots);
                proof {
                    let after = before.append_screenshot(agent, image_data@, now);
                    assert(views(earlier.push(shot)) =~= views(earlier).push(shot@));
                    assert(self@.screenshots =~= after.screenshots);
                }
                Ok(())
            },
            None => {
                proof {
                    assert(self.screenshots@ =~= old(self).screenshots@);
                    assert(self@.screenshots =~= before.screenshots);
                }
                Err(CoordinatorError::NotFound)
            },
        }
    }

    /// The screenshots of `agent`, oldest first.
    pub fn list_screenshots(&self, agent: AgentId) -> (outcome: Result<
        Vec<Screenshot>,
        CoordinatorError,
    >)
        requires
            self.wf(),
        ensures
            match outcome {
                Ok(shots) => self@.knows(agent) && views(shots@) == self@.screenshots[agent],
                Err(e) => !self@.knows(agent) && e == CoordinatorError::NotFound,
            },
    {
        broadcast use group_hash_axioms;

        assert(self@.screenshots.contains_key(agent) <==> self@.history.contains_key(agent));
        match self.screenshots.get(&agent) {
            Some(shots) => {
                let mut copies: Vec<Screenshot> = Vec::new();
                let mut at: usize = 0;
                while at < shots.len()
                    invariant
                        at <= shots@.len(),
                        copies@.len() == at,
                        forall|i: int| 0 <= i < at ==> (#[trigger] copies@[i])@ == shots@[i]@,
                    decreases shots@.len() - at,
                {
                    copies.push(shots[at].duplicate());
                    at = at + 1;
                }
                assert(views(copies@) =~= views(shots@));
                Ok(copies)
            },
            None => Err(CoordinatorError::NotFound),
        }
    }

    /// Appends the record of a resolved command to the history of its agent.
    pub fn record(&mut self, command: Command) -> (outcome: Result<(), CoordinatorError>)
        requires
            old(self).wf(),
        ensures
            final(self).wf(),
            final(self)@ == old(self)@.record(command@),
            outcome == if old(self)@.knows(command.agent_id) {
                Ok::<(), CoordinatorError>(())
            } else {
                Err(CoordinatorError::NotFound)
            },
    {
        broadcast use group_hash_axioms;

        let ghost before = self@;
        let agent = command.agent_id;
        proof {
            lemma_record_inv(before, command@);
        }
        match self.history.remove(&agent) {
            Some(records) => {
                let mut records = records;
                let ghost earlier = records@;
                records.push(command);
                self.history.insert(agent, records);
                proof {
                    let after = before.record(command@);
                    assert(views(earlier.push(command)) =~= views(earlier).push(command@));
                    assert(self@.history =~= after.history);
                }
                Ok(())
            },
            None => {
                proof {
                    assert(self.history@ =~= old(self).history@);
                    assert(self@.history =~= before.history);
                }
                Err(CoordinatorError::NotFound)
            },
        }
    }

    /// Appends the records, one after the other, each to the history of its agent.
    pub fn record_all(&mut self, commands: &Vec<Command>)
        requires
            old(self).wf(),
        ensures
            final(self).wf(),
            final(self)@ == old(self)@.record_all(views(commands@)),
    {
        let ghost before = self@;
        let ghost all = views(commands@);
        let mut at: usize = 0;
        while at < commands.len()
            invariant
                self.wf(),
                all == views(commands@),
                at <= commands@.len(),
                self@ == before.record_all(all.take(at as int)),
            decreases commands@.len() - at,
        {
            proof {
                assert(all.take(at + 1).drop_last() =~= all.take(at as int));
                assert(all.take(at + 1).last() == commands@[at as int]@);
            }
            let _ = self.record(commands[at].duplicate());
            at = at + 1;
        }
        proof {
            assert(all.take(at as int) =~= all);
        }
    }

    /// The records of the commands resolved for `agent`, in the order of
    /// their resolution.
    pub fn list_command_history(&self, agent: AgentId) -> (outcome: Result<
        Vec<Command>,
        CoordinatorError,
    >)
        ensures
            match outcome {
                Ok(records) => self@.knows(agent) && views(records@) == self@.history[agent],
                Err(e) => !self@.knows(agent) && e == CoordinatorError::NotFound,
            },
    {
        broadcast use group_hash_axioms;

        match self.history.get(&agent) {
            Some(records) => {
                let mut copies: Vec<Command> = Vec::new();
                let mut at: usize = 0;
                while at < records.len()
                    invariant
                        at <= records@.len(),
                        copies@.len() == at,
                        forall|i: int| 0 <= i < at ==> (#[trigger] copies@[i])@ == records@[i]@,
                    decreases records@.len() - at,
                {
                    copies.push(records[at].duplicate());
                    at = at + 1;
                }
                assert(views(copies@) =~= views(records@));
                Ok(copies)
            },
            None => Err(CoordinatorError::NotFound),
        }
    }
}

} // verus!
