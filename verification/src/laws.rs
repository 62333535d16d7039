//! What holds of every coordinator, proved over the state machine that the
//! contracts of the operations are stated in.

use crate::model::{
    AgentId, AgentStatus, CommandId, CommandResultView, SessionView, Timestamp,
};
use crate::registry::{lemma_listed_asymmetric, RegistryView};
use crate::protocol::{
    lemma_cancel_command_inv, lemma_poll_keeps_inv, lemma_read_history_inv,
    lemma_recorded_agent, lemma_register_inv, lemma_report_result_inv, lemma_submit_command_inv,
    lemma_sweep_keeps_inv, lemma_touch_inv, lemma_upload_screenshot_inv, CoordinatorView,
};
use crate::store::lemma_record_all;
use vstd::prelude::*;

verus! {

/// One call of an operation that can change the coordinator, with its arguments.
pub enum Event {
    Register { candidate: u128, hostname: Seq<char>, os_info: Seq<char>, now: Timestamp },
    Ping { agent: AgentId, now: Timestamp },
    Poll { agent: AgentId, now: Timestamp },
    ReportResult { id: CommandId, result: CommandResultView, now: Timestamp },
    UploadScreenshot { agent: AgentId, image_data: Seq<u8>, now: Timestamp },
    SubmitCommand { agent: AgentId, candidate: u128, text: Seq<char>, now: Timestamp },
    CancelCommand { id: CommandId },
    Sweep { now: Timestamp },
    ReadHistory { agent: AgentId, now: Timestamp },
}

/// The coordinator after one event.
pub open spec fn step(s: CoordinatorView, event: Event) -> CoordinatorView {
    match event {
        Event::Register { candidate, hostname, os_info, now } => s.register(
            candidate,
            hostname,
            os_info,
            now,
        ),
        Event::Ping { agent, now } => s.ping(agent, now),
        Event::Poll { agent, now } => s.poll(agent, now),
        Event::ReportResult { id, result, now } => s.report_result(id, result, now),
        Event::UploadScreenshot { agent, image_data, now } => s.upload_screenshot(
            agent,
            image_data,
            now,
        ),
        Event::SubmitCommand { agent, candidate, text, now } => s.submit_command(
            agent,
            candidate,
            text,
            now,
        ),
        Event::CancelCommand { id } => s.cancel_command(id),
        Event::Sweep { now } => s.sweep(now),
        Event::ReadHistory { agent, now } => s.read_history(agent, now),
    }
}

/// The coordinator after a sequence of events, the first event first.
pub open spec fn run(s: CoordinatorView, events: Seq<Event>) -> CoordinatorView
    decreases events.len(),
{
    if events.len() == 0 {
        s
    } else {
        step(run(s, events.drop_last()), events.last())
    }
}

/// Every operation keeps the coordinator valid, and takes at most one agent
/// identifier and one command identifier.
pub proof fn law_step_keeps_valid(s: CoordinatorView, event: Event, count: nat)
    requires
        s.inv(),
        s.has_room_for(count),
        count > 0,
    ensures
        step(s, event).inv(),
        step(s, event).has_room_for((count - 1) as nat),
{
    let t = step(s, event);
    match event {
        Event::Register { candidate, hostname, os_info, now } => {
            lemma_register_inv(s, candidate, hostname, os_info, now);
        },
        Event::Ping { agent, now } => {
            lemma_touch_inv(s, agent, now);
            assert(t.registry.agents.dom() =~= s.registry.agents.dom());
        },
        Event::Poll { agent, now } => {
            lemma_poll_keeps_inv(s, agent, now);
            assert(t.registry.agents.dom() =~= s.registry.agents.dom());
            assert(t.dispatcher.commands.dom() =~= s.dispatcher.commands.dom());
        },
        Event::ReportResult { id, result, now } => {
            lemma_report_result_inv(s, id, result, now);
            assert(t.registry.agents.dom() =~= s.registry.agents.dom());
            assert(t.dispatcher.commands.dom() =~= s.dispatcher.commands.dom());
        },
        Event::UploadScreenshot { agent, image_data, now } => {
            lemma_upload_screenshot_inv(s, agent, image_data, now);
            assert(t.registry.agents.dom() =~= s.registry.agents.dom());
        },
        Event::SubmitCommand { agent, candidate, text, now } => {
            lemma_submit_command_inv(s, agent, candidate, text, now);
        },
        Event::CancelCommand { id } => {
            lemma_cancel_command_inv(s, id);
        },
        Event::Sweep { now } => {
            lemma_sweep_keeps_inv(s, now);
            assert(t.dispatcher.commands.dom() =~= s.dispatcher.commands.dom());
        },
        Event::ReadHistory { agent, now } => {
            lemma_read_history_inv(s, agent, now);
            assert(t.dispatcher.commands.dom() =~= s.dispatcher.commands.dom());
        },
    }
}

/// Every sequence of operations keeps the coordinator valid, as long as
/// identifiers are left for each of them.
pub proof fn law_run_keeps_valid(s: CoordinatorView, events: Seq<Event>, count: nat)
    requires
        s.inv(),
        s.has_room_for(count),
        events.len() <= count,
    ensures
        run(s, events).inv(),
        run(s, events).has_room_for((count - events.len()) as nat),
    decreases events.len(),
{
    if events.len() > 0 {
        law_run_keeps_valid(s, events.drop_last(), count);
        law_step_keeps_valid(
            run(s, events.drop_last()),
            events.last(),
            (count - events.len() + 1) as nat,
        );
    }
}

/// No operation removes an agent.
pub proof fn law_agents_stay(s: CoordinatorView, event: Event, agent: AgentId)
    requires
        s.knows_agent(agent),
    ensures
        step(s, event).knows_agent(agent),
{
}

/// No sequence of operations removes an agent.
pub proof fn law_agents_stay_throughout(s: CoordinatorView, events: Seq<Event>, agent: AgentId)
    requires
        s.knows_agent(agent),
    ensures
        run(s, events).knows_agent(agent),
    decreases events.len(),
{
    if events.len() > 0 {
        law_agents_stay_throughout(s, events.drop_last(), agent);
        law_agents_stay(run(s, events.drop_last()), events.last(), agent);
    }
}

/// The identifier that the registration at position `at` of `events` returns.
pub open spec fn registered_at(s: CoordinatorView, events: Seq<Event>, at: int) -> AgentId {
    run(s, events.take(at)).next_agent_id(events[at]->Register_candidate)
}

/// Registration uniqueness: in any sequence of operations on a valid
/// coordinator, two registrations return different identifiers, whatever
/// happens before, between and after them.
pub proof fn law_registered_identifiers_distinct(
    s: CoordinatorView,
    events: Seq<Event>,
    first: int,
    second: int,
)
    requires
        s.inv(),
        s.has_room_for(events.len()),
        0 <= first < second < events.len(),
        events[first] is Register,
        events[second] is Register,
    ensures
        registered_at(s, events, first) != registered_at(s, events, second),
        !s.knows_agent(registered_at(s, events, first)),
{
    let id = registered_at(s, events, first);
    let before_first = run(s, events.take(first));
    let after_first = run(s, events.take(first + 1));
    let before_second = run(s, events.take(second));
    law_run_keeps_valid(s, events.take(first), events.len());
    law_run_keeps_valid(s, events.take(second), events.len());
    assert(events.take(first + 1).drop_last() =~= events.take(first));
    assert(events.take(first + 1).last() == events[first]);
    let e = events[first];
    lemma_register_inv(
        before_first,
        e->Register_candidate,
        e->Register_hostname,
        e->Register_os_info,
        e->Register_now,
    );
    assert(after_first.knows_agent(id));
    // Whatever follows the first registration keeps its agent.
    let between = events.subrange(first + 1, second);
    lemma_run_split(s, events.take(second), first + 1);
    assert(events.take(second).take(first + 1) =~= events.take(first + 1));
    assert(events.take(second).skip(first + 1) =~= between);
    law_agents_stay_throughout(after_first, between, id);
    let f = events[second];
    lemma_register_inv(
        before_second,
        f->Register_candidate,
        f->Register_hostname,
        f->Register_os_info,
        f->Register_now,
    );
    if s.knows_agent(id) {
        law_agents_stay_throughout(s, events.take(first), id);
    }
}

/// Running a sequence of events is running its first part and then the rest.
pub proof fn lemma_run_split(s: CoordinatorView, events: Seq<Event>, at: int)
    requires
        0 <= at <= events.len(),
    ensures
        run(s, events) == run(run(s, events.take(at)), events.skip(at)),
    decreases events.len(),
{
    if at == events.len() {
        assert(events.take(at) =~= events);
        assert(events.skip(at) =~= Seq::<Event>::empty());
    } else {
        let front = events.drop_last();
        lemma_run_split(s, front, at);
        assert(front.take(at) =~= events.take(at));
        assert(events.skip(at).drop_last() =~= front.skip(at));
        assert(events.skip(at).last() == events.last());
    }
}

/// Command `first` stands before command `second` in the queue of `agent`.
pub open spec fn queued_in_order(
    s: CoordinatorView,
    agent: AgentId,
    first: CommandId,
    second: CommandId,
) -> bool {
    exists|i: int, j: int|
        0 <= i < j < s.queue(agent).len() && #[trigger] s.queue(agent)[i] == first
            && #[trigger] s.queue(agent)[j] == second
}

/// The operation neither polls `agent` nor cancels one of the two commands.
pub open spec fn keeps_queued(event: Event, agent: AgentId, first: CommandId, second: CommandId)
    -> bool {
    match event {
        Event::Poll { agent: polled, .. } => polled != agent,
        Event::CancelCommand { id } => id != first && id != second,
        _ => true,
    }
}

/// A command submitted for an agent goes behind every command that is queued
/// for that agent.
pub proof fn law_submission_goes_last(
    s: CoordinatorView,
    agent: AgentId,
    earlier: CommandId,
    candidate: u128,
    text: Seq<char>,
    now: Timestamp,
)
    requires
        s.inv(),
        s.has_room_for(1),
        s.queue(agent).contains(earlier),
    ensures
        s.submitted(agent, candidate) == Ok::<CommandId, crate::model::CoordinatorError>(
            s.next_command_id(candidate),
        ),
        s.next_command_id(candidate) != earlier,
        queued_in_order(
            s.submit_command(agent, candidate, text, now),
            agent,
            earlier,
            s.next_command_id(candidate),
        ),
{
    let t = s.submit_command(agent, candidate, text, now);
    let id = s.next_command_id(candidate);
    lemma_submit_command_inv(s, agent, candidate, text, now);
    assert(s.registry.knows(agent) == s.dispatcher.knows_agent(agent));
    let i = choose|i: int| 0 <= i < s.queue(agent).len() && s.queue(agent)[i] == earlier;
    assert(s.dispatcher.queued_for(agent, s.dispatcher.queues[agent][i]));
    let j = s.queue(agent).len() as int;
    assert(t.queue(agent)[i] == earlier && t.queue(agent)[j] == id);
}

/// Two queued commands keep their order through every operation that leaves
/// both in the queue.
pub proof fn law_queue_order_kept(
    s: CoordinatorView,
    event: Event,
    agent: AgentId,
    first: CommandId,
    second: CommandId,
)
    requires
        s.inv(),
        s.has_room_for(1),
        queued_in_order(s, agent, first, second),
        keeps_queued(event, agent, first, second),
    ensures
        queued_in_order(step(s, event), agent, first, second),
{
    let t = step(s, event);
    let queue = s.queue(agent);
    let (i, j) = choose|i: int, j: int|
        0 <= i < j < queue.len() && #[trigger] queue[i] == first && #[trigger] queue[j] == second;
    assert(s.dispatcher.knows_agent(agent));
    match event {
        Event::Register { candidate, hostname, os_info, now } => {
            assert(t.queue(agent)[i] == first && t.queue(agent)[j] == second);
        },
        Event::SubmitCommand { agent: target, candidate, text, now } => {
            assert(t.queue(agent)[i] == first && t.queue(agent)[j] == second);
        },
        Event::CancelCommand { id } => {
            if s.dispatcher.knows(id) && s.dispatcher.commands[id].state is Queued
                && s.dispatcher.commands[id].agent_id == agent {
                crate::lifecycle::lemma_without(queue, id);
                assert(queue.contains(id));
                let at = queue.index_of(id);
                assert(t.queue(agent) == queue.remove(at));
                let a = if i < at { i } else { i - 1 };
                let b = if j < at { j } else { j - 1 };
                assert(t.queue(agent)[a] == first && t.queue(agent)[b] == second);
            } else {
                assert(t.queue(agent)[i] == first && t.queue(agent)[j] == second);
            }
        },
        _ => {
            assert(t.queue(agent)[i] == first && t.queue(agent)[j] == second);
        },
    }
}

/// A poll hands out two queued commands in the order in which they stand in
/// the queue.
pub proof fn law_poll_keeps_queue_order(
    s: CoordinatorView,
    agent: AgentId,
    first: CommandId,
    second: CommandId,
)
    requires
        s.inv(),
        queued_in_order(s, agent, first, second),
    ensures
        s.polled(agent) is Ok,
        exists|i: int, j: int|
            0 <= i < j < s.polled(agent)->Ok_0.len() && (#[trigger] s.polled(agent)->Ok_0[i]).id
                == first && (#[trigger] s.polled(agent)->Ok_0[j]).id == second,
{
    let queue = s.queue(agent);
    let (i, j) = choose|i: int, j: int|
        0 <= i < j < queue.len() && #[trigger] queue[i] == first && #[trigger] queue[j] == second;
    assert(s.registry.knows(agent) == s.dispatcher.knows_agent(agent));
    let handed = s.polled(agent)->Ok_0;
    assert(s.dispatcher.queued_for(agent, s.dispatcher.queues[agent][i]));
    assert(s.dispatcher.queued_for(agent, s.dispatcher.queues[agent][j]));
    assert(s.dispatcher.commands.contains_key(first));
    assert(s.dispatcher.commands.contains_key(second));
    assert(handed[i].id == first && handed[j].id == second);
}

/// First in, first out, per agent: if command A and then command B are
/// submitted for an agent, and no poll of that agent and no cancellation of
/// either comes before the next poll, then that poll returns A before B,
/// whatever else happens in between.
pub proof fn law_first_in_first_out(
    s: CoordinatorView,
    events: Seq<Event>,
    agent: AgentId,
    first: int,
    second: int,
)
    requires
        s.inv(),
        s.has_room_for(events.len()),
        0 <= first < second < events.len(),
        events[first] is SubmitCommand,
        events[first]->SubmitCommand_agent == agent,
        events[second] is SubmitCommand,
        events[second]->SubmitCommand_agent == agent,
        run(s, events.take(first)).knows_agent(agent),
        forall|k: int|
            first < k < events.len() ==> keeps_queued(
                #[trigger] events[k],
                agent,
                submitted_at(s, events, first),
                submitted_at(s, events, second),
            ),
    ensures
        submitted_at(s, events, first) != submitted_at(s, events, second),
        run(s, events).polled(agent) is Ok,
        exists|i: int, j: int|
            0 <= i < j < run(s, events).polled(agent)->Ok_0.len() && (#[trigger] run(
                s,
                events,
            ).polled(agent)->Ok_0[i]).id == submitted_at(s, events, first) && (#[trigger] run(
                s,
                events,
            ).polled(agent)->Ok_0[j]).id == submitted_at(s, events, second),
{
    let a = submitted_at(s, events, first);
    let b = submitted_at(s, events, second);
    lemma_stays_queued(s, events, agent, first, second, a);
    lemma_run_prefix(s, events, second);
    law_run_keeps_valid(s, events.take(second), events.len());
    let before_second = run(s, events.take(second));
    let e = events[second];
    law_submission_goes_last(
        before_second,
        agent,
        a,
        e->SubmitCommand_candidate,
        e->SubmitCommand_text,
        e->SubmitCommand_now,
    );
    lemma_stay_in_order(s, events, agent, second + 1, events.len() as int, a, b);
    assert(events.take(events.len() as int) =~= events);
    law_run_keeps_valid(s, events, events.len());
    law_poll_keeps_queue_order(run(s, events), agent, a, b);
}

/// The identifier that the submission at position `at` of `events` returns.
pub open spec fn submitted_at(s: CoordinatorView, events: Seq<Event>, at: int) -> CommandId {
    run(s, events.take(at)).next_command_id(events[at]->SubmitCommand_candidate)
}

/// The state after the first `at + 1` events is the state after the first
/// `at` events and then the event at position `at`.
pub proof fn lemma_run_prefix(s: CoordinatorView, events: Seq<Event>, at: int)
    requires
        0 <= at < events.len(),
    ensures
        run(s, events.take(at + 1)) == step(run(s, events.take(at)), events[at]),
{
    assert(events.take(at + 1).drop_last() =~= events.take(at));
    assert(events.take(at + 1).last() == events[at]);
}

/// A command submitted at position `first` is still queued before the event
/// at position `until`, if nothing in between polls its agent or cancels it.
proof fn lemma_stays_queued(
    s: CoordinatorView,
    events: Seq<Event>,
    agent: AgentId,
    first: int,
    until: int,
    id: CommandId,
)
    requires
        s.inv(),
        s.has_room_for(events.len()),
        0 <= first < until <= events.len(),
        events[first] is SubmitCommand,
        events[first]->SubmitCommand_agent == agent,
        run(s, events.take(first)).knows_agent(agent),
        id == submitted_at(s, events, first),
        forall|k: int|
            first < k < until ==> match #[trigger] events[k] {
                Event::Poll { agent: polled, .. } => polled != agent,
                Event::CancelCommand { id: cancelled } => cancelled != id,
                _ => true,
            },
    ensures
        run(s, events.take(until)).queue(agent).contains(id),
    decreases until - first,
{
    law_run_keeps_valid(s, events.take(until - 1), events.len());
    lemma_run_prefix(s, events, until - 1);
    let before = run(s, events.take(until - 1));
    let after = run(s, events.take(until));
    if until == first + 1 {
        let e = events[first];
        lemma_submit_command_inv(
            before,
            agent,
            e->SubmitCommand_candidate,
            e->SubmitCommand_text,
            e->SubmitCommand_now,
        );
        assert(before.registry.knows(agent) == before.dispatcher.knows_agent(agent));
        assert(after.queue(agent)[before.queue(agent).len() as int] == id);
    } else {
        lemma_stays_queued(s, events, agent, first, until - 1, id);
        let queue = before.queue(agent);
        let i = choose|i: int| 0 <= i < queue.len() && queue[i] == id;
        assert(before.dispatcher.knows_agent(agent));
        match events[until - 1] {
            Event::CancelCommand { id: cancelled } => {
                if before.dispatcher.knows(cancelled) && before.dispatcher.commands[cancelled].state is Queued
                    && before.dispatcher.commands[cancelled].agent_id == agent {
                    crate::lifecycle::lemma_without(queue, cancelled);
                } else {
                    assert(after.queue(agent)[i] == id);
                }
            },
            _ => {
                assert(after.queue(agent)[i] == id);
            },
        }
    }
}

/// Two commands that stand in order in a queue before the event at position
/// `from` still do before the event at position `until`, if nothing in
/// between polls their agent or cancels one of them.
proof fn lemma_stay_in_order(
    s: CoordinatorView,
    events: Seq<Event>,
    agent: AgentId,
    from: int,
    until: int,
    first: CommandId,
    second: CommandId,
)
    requires
        s.inv(),
        s.has_room_for(events.len()),
        0 <= from <= until <= events.len(),
        queued_in_order(run(s, events.take(from)), agent, first, second),
        forall|k: int| from <= k < until ==> keeps_queued(#[trigger] events[k], agent, first, second),
    ensures
        queued_in_order(run(s, events.take(until)), agent, first, second),
    decreases until - from,
{
    if from < until {
        lemma_stay_in_order(s, events, agent, from, until - 1, first, second);
        law_run_keeps_valid(s, events.take(until - 1), events.len());
        lemma_run_prefix(s, events, until - 1);
        law_queue_order_kept(run(s, events.take(until - 1)), events[until - 1], agent, first, second);
    }
}

/// At most one resolution: once a command in flight has a result, a second
/// report for it, whatever it holds, is accepted and leaves the command, its
/// stored result and every history as the first report left them.
pub proof fn law_second_result_is_ignored(
    s: CoordinatorView,
    id: CommandId,
    first: CommandResultView,
    first_at: Timestamp,
    second: CommandResultView,
    second_at: Timestamp,
)
    requires
        s.inv(),
        s.dispatcher.is_in_flight(id),
    ensures
        ({
            let once = s.report_result(id, first, first_at);
            let twice = once.report_result(id, second, second_at);
            &&& s.reported(id) is Ok
            &&& once.reported(id) is Ok
            &&& once.dispatcher.commands[id].state is Completed
            &&& once.dispatcher.commands[id].result == Some(first)
            &&& once.dispatcher.commands[id].resolved_at == Some(first_at)
            &&& twice.dispatcher == once.dispatcher
            &&& twice.store == once.store
        }),
{
}

/// Liveness is derived: an agent last seen at `T` shows as online to every
/// query before `T` plus the liveness timeout, and as offline to every query
/// at or after it.
pub proof fn law_liveness_is_derived(
    agent: crate::model::AgentView,
    now: Timestamp,
    liveness_timeout: u64,
)
    ensures
        now < agent.last_seen + liveness_timeout ==> agent.status(now, liveness_timeout)
            == AgentStatus::Online,
        now >= agent.last_seen + liveness_timeout ==> agent.status(now, liveness_timeout)
            == AgentStatus::Offline,
{
}

/// A contact at `seen` is all it takes to change what later queries show: the
/// session of the agent at `now` is online exactly if `now` is before `seen`
/// plus the liveness timeout.
pub proof fn law_contact_renews_liveness(
    s: CoordinatorView,
    agent: AgentId,
    seen: Timestamp,
    now: Timestamp,
)
    requires
        s.knows_agent(agent),
    ensures
        ({
            let t = s.ping(agent, seen);
            let session = t.registry.agents[agent].session(now, t.registry.liveness_timeout);
            &&& t.registry.liveness_timeout == s.registry.liveness_timeout
            &&& session.agent == s.registry.agents[agent].seen_at(seen)
            &&& session.status == if now < seen + s.registry.liveness_timeout {
                AgentStatus::Online
            } else {
                AgentStatus::Offline
            }
        }),
{
}

/// A sweep times out every overdue command: afterwards the command is timed
/// out, with the error text "timed out" and exit code -1 for a result, and
/// the history of its agent holds that record, once.
pub proof fn law_overdue_command_times_out(s: CoordinatorView, id: CommandId, now: Timestamp)
    requires
        s.inv(),
        s.dispatcher.knows(id),
        s.dispatcher.commands[id].is_overdue(now, s.dispatcher.command_timeout),
    ensures
        ({
            let t = s.sweep(now);
            let record = t.dispatcher.commands[id];
            let records = t.history(record.agent_id);
            &&& t.dispatcher.knows(id)
            &&& record == s.dispatcher.commands[id].timed_out(now)
            &&& record.state is TimedOut
            &&& record.result == Some(crate::model::timed_out_result())
            &&& record.result->0.exit_code == -1
            &&& exists|i: int|
                0 <= i < records.len() && #[trigger] records[i] == record && forall|j: int|
                    0 <= j < records.len() && (#[trigger] records[j]).id == id ==> j == i
        }),
{
    let t = s.sweep(now);
    lemma_sweep_keeps_inv(s, now);
    law_resolved_once(t, id);
}

/// Every resolved command has exactly one record in the history of its agent,
/// and that record is the command as the dispatcher holds it.
pub proof fn law_resolved_once(s: CoordinatorView, id: CommandId)
    requires
        s.inv(),
        s.dispatcher.knows(id),
        s.dispatcher.commands[id].state.is_terminal(),
    ensures
        ({
            let record = s.dispatcher.commands[id];
            let records = s.history(record.agent_id);
            exists|i: int|
                0 <= i < records.len() && #[trigger] records[i] == record && forall|j: int|
                    0 <= j < records.len() && (#[trigger] records[j]).id == id ==> j == i
        }),
{
    let record = s.dispatcher.commands[id];
    let agent = record.agent_id;
    lemma_recorded_agent(s, id);
    assert(s.dispatcher.commands.contains_key(id));
    assert(s.is_recorded(id));
    let records = s.store.history[agent];
    let i = choose|i: int| 0 <= i < records.len() && (#[trigger] records[i]).id == id;
    assert(s.store.history[agent][i] == record);
    assert forall|j: int| 0 <= j < records.len() && (#[trigger] records[j]).id == id implies j
        == i by {
        if j < i {
            assert(s.store.history[agent][j].id != s.store.history[agent][i].id);
        } else if i < j {
            assert(s.store.history[agent][i].id != s.store.history[agent][j].id);
        }
    }
    assert(s.history(agent) == records);
    assert(0 <= i < records.len() && records[i] == record && forall|j: int|
        0 <= j < records.len() && (#[trigger] records[j]).id == id ==> j == i);
}

/// Resolved is final: no operation changes a command that is completed or
/// timed out, nor removes it.
pub proof fn law_resolved_is_final(s: CoordinatorView, event: Event, id: CommandId)
    requires
        s.inv(),
        s.has_room_for(1),
        s.dispatcher.knows(id),
        s.dispatcher.commands[id].state.is_terminal(),
    ensures
        step(s, event).dispatcher.knows(id),
        step(s, event).dispatcher.commands[id] == s.dispatcher.commands[id],
{
    assert(s.dispatcher.commands.contains_key(id));
    match event {
        Event::SubmitCommand { agent, candidate, text, now } => {
            lemma_submit_command_inv(s, agent, candidate, text, now);
            assert(s.registry.knows(agent) == s.dispatcher.knows_agent(agent));
        },
        Event::Poll { agent, now } => {
            if s.dispatcher.knows_agent(agent) && s.dispatcher.queues[agent].contains(id) {
                let queue = s.dispatcher.queues[agent];
                let i = choose|i: int| 0 <= i < queue.len() && queue[i] == id;
                assert(s.dispatcher.queued_for(agent, s.dispatcher.queues[agent][i]));
            }
        },
        _ => {},
    }
}

/// Timeout terminality: a command that has timed out stays timed out, with
/// the same record, through every sequence of operations, and its agent's
/// history holds that record exactly once at the end.
pub proof fn law_timed_out_is_terminal(s: CoordinatorView, events: Seq<Event>, id: CommandId)
    requires
        s.inv(),
        s.has_room_for(events.len()),
        s.dispatcher.knows(id),
        s.dispatcher.commands[id].state is TimedOut,
    ensures
        ({
            let t = run(s, events);
            let record = s.dispatcher.commands[id];
            let records = t.history(record.agent_id);
            &&& t.dispatcher.knows(id)
            &&& t.dispatcher.commands[id] == record
            &&& exists|i: int|
                0 <= i < records.len() && #[trigger] records[i] == record && forall|j: int|
                    0 <= j < records.len() && (#[trigger] records[j]).id == id ==> j == i
        }),
{
    law_resolved_throughout(s, events, id);
    law_run_keeps_valid(s, events, events.len());
    law_resolved_once(run(s, events), id);
}

/// Resolved is final through every sequence of operations.
pub proof fn law_resolved_throughout(s: CoordinatorView, events: Seq<Event>, id: CommandId)
    requires
        s.inv(),
        s.has_room_for(events.len()),
        s.dispatcher.knows(id),
        s.dispatcher.commands[id].state.is_terminal(),
    ensures
        run(s, events).dispatcher.knows(id),
        run(s, events).dispatcher.commands[id] == s.dispatcher.commands[id],
    decreases events.len(),
{
    if events.len() > 0 {
        law_resolved_throughout(s, events.drop_last(), id);
        law_run_keeps_valid(s, events.drop_last(), events.len());
        law_resolved_is_final(run(s, events.drop_last()), events.last(), id);
    }
}

/// The operation is one for a single agent, and that agent is not `other`.
pub open spec fn concerns_another(s: CoordinatorView, event: Event, other: AgentId) -> bool {
    match event {
        Event::Register { candidate, .. } => s.next_agent_id(candidate) != other,
        Event::Ping { agent, .. } => agent != other,
        Event::Poll { agent, .. } => agent != other,
        Event::ReportResult { id, .. } => s.dispatcher.knows(id)
            ==> s.dispatcher.commands[id].agent_id != other,
        Event::UploadScreenshot { agent, .. } => agent != other,
        Event::SubmitCommand { agent, .. } => agent != other,
        Event::CancelCommand { id } => s.dispatcher.knows(id)
            ==> s.dispatcher.commands[id].agent_id != other,
        Event::Sweep { .. } => false,
        Event::ReadHistory { .. } => false,
    }
}

/// Isolation across agents: submitting, polling or resolving commands for one
/// agent changes neither the queue nor the history of another, and nor does
/// any other operation that is for one agent. The other agent's record and
/// screenshots stay as they are, too.
pub proof fn law_agents_are_isolated(s: CoordinatorView, event: Event, other: AgentId)
    requires
        s.inv(),
        s.has_room_for(1),
        s.knows_agent(other),
        concerns_another(s, event, other),
    ensures
        step(s, event).queue(other) == s.queue(other),
        step(s, event).history(other) == s.history(other),
        step(s, event).registry.agents[other] == s.registry.agents[other],
        step(s, event).store.screenshots[other] == s.store.screenshots[other],
{
    assert(s.registry.knows(other) == s.dispatcher.knows_agent(other) && s.registry.knows(other)
        == s.store.knows(other));
    assert(s.store.screenshots.contains_key(other) <==> s.store.history.contains_key(other));
    match event {
        Event::Register { candidate, hostname, os_info, now } => {
            lemma_register_inv(s, candidate, hostname, os_info, now);
        },
        Event::CancelCommand { id } => {
            if s.dispatcher.knows(id) {
                assert(s.dispatcher.commands.contains_key(id));
            }
        },
        _ => {},
    }
}

/// The histories and the screenshots are append-only: every operation leaves
/// what an agent's history and screenshot list held at the front of what
/// they hold afterwards.
pub proof fn law_store_is_append_only(s: CoordinatorView, event: Event, agent: AgentId)
    requires
        s.inv(),
        s.has_room_for(1),
        s.knows_agent(agent),
    ensures
        s.history(agent).len() <= step(s, event).history(agent).len(),
        step(s, event).history(agent).subrange(0, s.history(agent).len() as int) == s.history(
            agent,
        ),
        s.store.screenshots[agent].len() <= step(s, event).store.screenshots[agent].len(),
        step(s, event).store.screenshots[agent].subrange(
            0,
            s.store.screenshots[agent].len() as int,
        ) == s.store.screenshots[agent],
{
    let t = step(s, event);
    assert(s.registry.knows(agent) == s.dispatcher.knows_agent(agent) && s.registry.knows(agent)
        == s.store.knows(agent));
    assert(s.store.screenshots.contains_key(agent) <==> s.store.history.contains_key(agent));
    match event {
        Event::Register { candidate, hostname, os_info, now } => {
            lemma_register_inv(s, candidate, hostname, os_info, now);
        },
        Event::Sweep { now } => {
            lemma_record_all(s.store, s.dispatcher.expired(now));
        },
        Event::ReadHistory { agent: read, now } => {
            lemma_record_all(s.store, s.dispatcher.expired(now));
        },
        _ => {},
    }
    assert(t.history(agent).subrange(0, s.history(agent).len() as int) =~= s.history(agent));
    assert(t.store.screenshots[agent].subrange(0, s.store.screenshots[agent].len() as int)
        =~= s.store.screenshots[agent]);
}

/// A command stands in one queue at most, the queue of its own agent, and
/// there only once and only while it is queued.
pub proof fn law_queued_in_one_place(s: CoordinatorView, agent: AgentId, at: int)
    requires
        s.inv(),
        0 <= at < s.queue(agent).len(),
    ensures
        ({
            let id = s.queue(agent)[at];
            &&& s.dispatcher.knows(id)
            &&& s.dispatcher.commands[id].state is Queued
            &&& s.dispatcher.commands[id].agent_id == agent
            &&& forall|other: AgentId, i: int|
                0 <= i < s.queue(other).len() && #[trigger] s.queue(other)[i] == id ==> other
                    == agent && i == at
        }),
{
    let id = s.queue(agent)[at];
    assert(s.dispatcher.queued_for(agent, s.dispatcher.queues[agent][at]));
    assert forall|other: AgentId, i: int|
        0 <= i < s.queue(other).len() && #[trigger] s.queue(other)[i] == id implies other == agent
        && i == at by {
        assert(s.dispatcher.queued_for(other, s.dispatcher.queues[other][i]));
        assert(s.dispatcher.queues[agent].no_duplicates());
    }
}

/// Every command is queued, dispatched, completed or timed out: no operation
/// leads to another state.
pub proof fn law_states_are_reached(s: CoordinatorView, id: CommandId)
    requires
        s.inv(),
        s.dispatcher.knows(id),
    ensures
        ({
            let state = s.dispatcher.commands[id].state;
            state is Queued || state is Dispatched || state is Completed || state is TimedOut
        }),
{
    assert(s.dispatcher.commands.contains_key(id));
}

/// The sessions stand in listing order.
pub open spec fn in_listing_order(sessions: Seq<SessionView>) -> bool {
    forall|i: int, j: int|
        0 <= i < j < sessions.len() ==> (#[trigger] sessions[i]).agent.listed_before(
            (#[trigger] sessions[j]).agent,
        )
}

/// Every session of the first sequence stands in the second.
pub open spec fn all_among(sessions: Seq<SessionView>, others: Seq<SessionView>) -> bool {
    forall|i: int| 0 <= i < sessions.len() ==> others.contains(#[trigger] sessions[i])
}

/// Two sequences in listing order that hold the same sessions are the same sequence.
pub proof fn lemma_listing_order_is_unique(a: Seq<SessionView>, b: Seq<SessionView>)
    requires
        in_listing_order(a),
        in_listing_order(b),
        all_among(a, b),
        all_among(b, a),
    ensures
        a == b,
    decreases a.len(),
{
    if a.len() == 0 {
        if b.len() > 0 {
            assert(a.contains(b[0]));
        }
        assert(a =~= b);
    } else {
        let last = a.len() - 1;
        assert(b.contains(a[last]));
        let end = b.len() - 1;
        let j = choose|j: int| 0 <= j < b.len() && b[j] == a[last];
        assert(a.contains(b[end]));
        let k = choose|k: int| 0 <= k < a.len() && a[k] == b[end];
        if j < end {
            // Then the last of `b` comes after the last of `a`, which is the last of all.
            assert(b[j].agent.listed_before(b[end].agent));
            lemma_listed_asymmetric(b[j].agent, b[end].agent);
            if k < last {
                assert(a[k].agent.listed_before(a[last].agent));
            }
        }
        assert(a[last] == b[end]);
        let front_a = a.drop_last();
        let front_b = b.drop_last();
        assert forall|i: int| 0 <= i < front_a.len() implies front_b.contains(
            #[trigger] front_a[i],
        ) by {
            assert(b.contains(a[i]));
            let m = choose|m: int| 0 <= m < b.len() && b[m] == a[i];
            assert(a[i].agent.listed_before(a[last].agent));
            lemma_listed_asymmetric(a[i].agent, a[last].agent);
            assert(front_b[m] == a[i]);
        }
        assert forall|i: int| 0 <= i < front_b.len() implies front_a.contains(
            #[trigger] front_b[i],
        ) by {
            assert(a.contains(b[i]));
            let m = choose|m: int| 0 <= m < a.len() && a[m] == b[i];
            assert(b[i].agent.listed_before(b[end].agent));
            lemma_listed_asymmetric(b[i].agent, b[end].agent);
            assert(front_a[m] == b[i]);
        }
        assert forall|i: int, j: int| 0 <= i < j < front_a.len() implies (#[trigger] front_a[i])
            .agent.listed_before((#[trigger] front_a[j]).agent) by {
            assert(a[i].agent.listed_before(a[j].agent));
        }
        assert forall|i: int, j: int| 0 <= i < j < front_b.len() implies (#[trigger] front_b[i])
            .agent.listed_before((#[trigger] front_b[j]).agent) by {
            assert(b[i].agent.listed_before(b[j].agent));
        }
        lemma_listing_order_is_unique(front_a, front_b);
        assert(a =~= front_a.push(a[last]));
        assert(b =~= front_b.push(b[end]));
    }
}

/// A listing is determined: whatever shows every registered agent once, with
/// its status at `now`, ordered by host name and then by identifier, is the
/// same sequence.
pub proof fn law_listing_is_determined(
    registry: RegistryView,
    now: Timestamp,
    a: Seq<SessionView>,
    b: Seq<SessionView>,
)
    requires
        registry.lists(now, a),
        registry.lists(now, b),
    ensures
        a == b,
{
    assert forall|i: int| 0 <= i < a.len() implies b.contains(#[trigger] a[i]) by {
        let id = a[i].agent.id;
        assert(registry.knows(id));
        let j = choose|j: int| 0 <= j < b.len() && (#[trigger] b[j]).agent.id == id;
        assert(b[j] == a[i]);
    }
    assert forall|i: int| 0 <= i < b.len() implies a.contains(#[trigger] b[i]) by {
        let id = b[i].agent.id;
        assert(registry.knows(id));
        let j = choose|j: int| 0 <= j < a.len() && (#[trigger] a[j]).agent.id == id;
        assert(a[j] == b[i]);
    }
    lemma_listing_order_is_unique(a, b);
}

} // verus!
