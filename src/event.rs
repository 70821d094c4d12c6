//! Consensus events with their durable ids, and the ordered log they are kept in.
use vstd::prelude::*;

use crate::consensus::{
    actions_view, all_yes, broadcast, decision_actions, is_fresh, settle, tally_outcome, has_voted, lemma_decision_unanimous, recorded_votes,
    step_spec, tally_complete, Action, ActionView, ConsensusProcess, Event, EventView,
    MessageView, Outcome, PhaseView, ProcessView, Vote,
};

verus! {

/// A consensus event, by algorithm.
#[derive(Debug)]
pub enum ConsensusEvent {
    TwoPhaseCommit(Event),
}

/// A consensus event together with the id that orders it in its log.
#[derive(Debug)]
pub enum IdentifiedConsensusEvent {
    Scabbard2pcConsensusEvent(i64, Event),
}

impl IdentifiedConsensusEvent {
    pub open spec fn id_spec(&self) -> i64 {
        match self {
            IdentifiedConsensusEvent::Scabbard2pcConsensusEvent(id, _) => *id,
        }
    }

    pub open spec fn event_spec(&self) -> EventView {
        match self {
            IdentifiedConsensusEvent::Scabbard2pcConsensusEvent(_, e) => e@,
        }
    }

    /// Splits the event from its id.
    pub fn deconstruct(self) -> (r: (i64, ConsensusEvent))
        ensures
            r.0 == self.id_spec(),
            r.1 matches ConsensusEvent::TwoPhaseCommit(e) && e@ == self.event_spec(),
    {
        match self {
            IdentifiedConsensusEvent::Scabbard2pcConsensusEvent(id, event) => (
                id,
                ConsensusEvent::TwoPhaseCommit(event),
            ),
        }
    }
}

/// A copy of an event.
pub fn copy_event(e: &Event) -> (r: Event)
    ensures
        r@ == e@,
{
    match e {
        Event::Start(p) => Event::Start(p.copy()),
        Event::Deliver { from, message } => Event::Deliver { from: *from, message: message.copy() },
        Event::Alarm => Event::Alarm,
    }
}

/// The state and the actions, in order, of a process in state `s` that takes `events` one
/// after another, its store's root being `root` throughout.
pub open spec fn run(s: ProcessView, events: Seq<EventView>, root: Seq<u8>) -> (ProcessView, Seq<ActionView>)
    decreases events.len(),
{
    if events.len() == 0 {
        (s, Seq::empty())
    } else {
        let (s1, a1) = run(s, events.drop_last(), root);
        let (s2, a2) = step_spec(s1, events.last(), root);
        (s2, a1 + a2)
    }
}

/// The votes on proposal `id` that a coordinator records from `events`, in order: the
/// first vote of each participant, delivered by that participant.
pub open spec fn first_votes(participants: Seq<u64>, id: u64, events: Seq<EventView>) -> Seq<Vote>
    decreases events.len(),
{
    if events.len() == 0 {
        Seq::empty()
    } else {
        let prev = first_votes(participants, id, events.drop_last());
        match events.last() {
            EventView::Deliver(from, MessageView::Vote(v)) => if v.proposal_id == id && v.voter_id
                == from && participants.contains(from) && !has_voted(prev, from) {
                prev.push(v)
            } else {
                prev
            },
            _ => prev,
        }
    }
}

pub open spec fn has_notify(acts: Seq<ActionView>) -> bool {
    exists|i: int| 0 <= i < acts.len() && #[trigger] acts[i] is Notify
}

proof fn lemma_decision_notifies(s: ProcessView, p: crate::consensus::ProposalView, o: Outcome)
    ensures
        has_notify(decision_actions(s.participants, p, o)),
{
    let acts = decision_actions(s.participants, p, o);
    assert(acts[acts.len() - 1] is Notify);
}

/// Until a coordinator waiting on a proposal decides, it holds exactly the first votes of
/// the events it has taken, and nothing else about it changes.
pub proof fn lemma_awaiting_holds_first_votes(s: ProcessView, events: Seq<EventView>, root: Seq<u8>)
    requires
        s.phase matches PhaseView::AwaitingVotes(_, votes) && votes.len() == 0,
        !has_notify(run(s, events, root).1),
    ensures
        run(s, events, root).0 == (ProcessView {
            phase: PhaseView::AwaitingVotes(
                s.phase->AwaitingVotes_0,
                first_votes(s.participants, s.phase->AwaitingVotes_0.id, events),
            ),
            ..s
        }),
    decreases events.len(),
{
    let p = s.phase->AwaitingVotes_0;
    if events.len() == 0 {
        assert(s.phase->AwaitingVotes_1 =~= Seq::<Vote>::empty());
        assert(s.phase == PhaseView::AwaitingVotes(p, Seq::<Vote>::empty()));
    } else {
        let (t1, a1) = run(s, events.drop_last(), root);
        let (t2, a2) = step_spec(t1, events.last(), root);
        assert(run(s, events, root).1 == a1 + a2);
        assert(!has_notify(a1)) by {
            if has_notify(a1) {
                let i = choose|i: int| 0 <= i < a1.len() && #[trigger] a1[i] is Notify;
                assert((a1 + a2)[i] == a1[i]);
            }
        }
        assert(!has_notify(a2)) by {
            if has_notify(a2) {
                let i = choose|i: int| 0 <= i < a2.len() && #[trigger] a2[i] is Notify;
                assert((a1 + a2)[a1.len() + i] == a2[i]);
            }
        }
        lemma_awaiting_holds_first_votes(s, events.drop_last(), root);
        let votes = first_votes(s.participants, p.id, events.drop_last());
        match events.last() {
            EventView::Deliver(from, MessageView::Vote(v)) => {
                if v.proposal_id == p.id && v.voter_id == from && s.participants.contains(from)
                    && !has_voted(votes, from) {
                    if tally_complete(s.participants, votes.push(v)) {
                        lemma_decision_notifies(t1, p, crate::consensus::tally_outcome(votes.push(v)));
                    }
                }
            },
            EventView::Alarm => {
                lemma_decision_notifies(t1, p, Outcome::Abort);
            },
            _ => {},
        }
    }
}

/// The first decision of a coordinator on a proposal, over any sequence of events, is
/// Commit exactly when it comes on a vote and every participant's first vote is in and is
/// Yes. Any No among them, or an alarm before every participant has voted, gives Abort.
pub proof fn lemma_first_decision_unanimous(s: ProcessView, events: Seq<EventView>, root: Seq<u8>, k: int, i: int)
    requires
        s.phase matches PhaseView::AwaitingVotes(_, votes) && votes.len() == 0,
        0 <= k < events.len(),
        !has_notify(run(s, events.take(k), root).1),
        0 <= i < step_spec(run(s, events.take(k), root).0, events[k], root).1.len(),
        step_spec(run(s, events.take(k), root).0, events[k], root).1[i] is Notify,
    ensures
        ({
            let d = step_spec(run(s, events.take(k), root).0, events[k], root).1[i]->Notify_0;
            let votes = first_votes(s.participants, s.phase->AwaitingVotes_0.id, events.take(k + 1));
            &&& d.proposal_id == s.phase->AwaitingVotes_0.id
            &&& (d.outcome == Outcome::Commit <==> !(events[k] is Alarm) && tally_complete(
                s.participants,
                votes,
            ) && all_yes(votes))
        }),
{
    let p = s.phase->AwaitingVotes_0;
    lemma_awaiting_holds_first_votes(s, events.take(k), root);
    let t = run(s, events.take(k), root).0;
    assert(events.take(k + 1).drop_last() =~= events.take(k));
    assert(events.take(k + 1).last() == events[k]);
    assert(recorded_votes(t, events[k]) == first_votes(s.participants, p.id, events.take(k + 1)));
    lemma_decision_unanimous(t, events[k], root, i);
}

/// Every commit and every decision in `acts` is on a proposal later than `pid`.
pub open spec fn all_after(acts: Seq<ActionView>, pid: u64) -> bool {
    forall|i: int|
        0 <= i < acts.len() ==> ((#[trigger] acts[i]) is ApplyCommit ==> acts[i]->ApplyCommit_0.id
            > pid) && (acts[i] is Notify ==> acts[i]->Notify_0.proposal_id > pid)
}

/// The process has settled proposal `pid`: everything it holds or may still take up is later.
pub open spec fn past(s: ProcessView, pid: u64) -> bool {
    &&& s.last_proposal_id is Some
    &&& s.last_proposal_id.unwrap() >= pid
    &&& match s.phase {
        PhaseView::Idle => true,
        PhaseView::AwaitingVotes(p, _) => p.id > pid,
        PhaseView::VoteRequested(p, _) => p.id > pid,
    }
}

proof fn lemma_decision_after(participants: Seq<u64>, p: crate::consensus::ProposalView, o: Outcome, pid: u64)
    requires
        p.id > pid,
    ensures
        all_after(decision_actions(participants, p, o), pid),
{
    let d = crate::consensus::Decision { proposal_id: p.id, outcome: o };
    let b = broadcast(participants, MessageView::Decision(d));
    let acts = decision_actions(participants, p, o);
    assert forall|i: int| 0 <= i < acts.len() implies ((#[trigger] acts[i]) is ApplyCommit
        ==> acts[i]->ApplyCommit_0.id > pid) && (acts[i] is Notify ==> acts[i]->Notify_0.proposal_id
        > pid) by {
        if i < participants.len() {
            assert(acts[i] == b[i]);
        }
    }
}

proof fn lemma_step_after(s: ProcessView, e: EventView, root: Seq<u8>, pid: u64)
    requires
        past(s, pid),
    ensures
        past(step_spec(s, e, root).0, pid),
        all_after(step_spec(s, e, root).1, pid),
{
    let acts = step_spec(s, e, root).1;
    match s.phase {
        PhaseView::Idle => {
            match e {
                EventView::Start(p) => {
                    if p.coordinator == s.service_id && is_fresh(s.last_proposal_id, p.id) {
                        let b = broadcast(s.participants, MessageView::VoteRequest(p));
                        let s1 = ProcessView { last_proposal_id: Some(p.id), ..s };
                        let rest = settle(s1, p, Seq::empty()).1;
                        if tally_complete(s.participants, Seq::<Vote>::empty()) {
                            lemma_decision_after(s.participants, p, tally_outcome(Seq::<Vote>::empty()), pid);
                        }
                        assert(acts == b + rest);
                        assert forall|i: int| 0 <= i < acts.len() implies ((#[trigger] acts[i]) is ApplyCommit
                            ==> acts[i]->ApplyCommit_0.id > pid) && (acts[i] is Notify
                            ==> acts[i]->Notify_0.proposal_id > pid) by {
                            if i < b.len() {
                                assert(acts[i] == b[i]);
                            } else {
                                assert(acts[i] == rest[i - b.len()]);
                            }
                        }
                    }
                },
                _ => {},
            }
        },
        PhaseView::AwaitingVotes(p, votes) => {
            lemma_decision_after(s.participants, p, Outcome::Abort, pid);
            match e {
                EventView::Deliver(from, MessageView::Vote(v)) => {
                    lemma_decision_after(s.participants, p, tally_outcome(votes.push(v)), pid);
                },
                _ => {},
            }
        },
        PhaseView::VoteRequested(p, yes) => {},
    }
}

/// Once a process has settled proposal `pid` (as a coordinator has, right after deciding
/// it), no later events make it commit or decide that proposal again: an Abort stays an
/// Abort, and its batch is never applied.
pub proof fn lemma_settled_stays_settled(s: ProcessView, events: Seq<EventView>, root: Seq<u8>, pid: u64)
    requires
        past(s, pid),
    ensures
        past(run(s, events, root).0, pid),
        all_after(run(s, events, root).1, pid),
    decreases events.len(),
{
    if events.len() > 0 {
        lemma_settled_stays_settled(s, events.drop_last(), root, pid);
        let (s1, a1) = run(s, events.drop_last(), root);
        lemma_step_after(s1, events.last(), root, pid);
        let a2 = step_spec(s1, events.last(), root).1;
        let acts = a1 + a2;
        assert forall|i: int| 0 <= i < acts.len() implies ((#[trigger] acts[i]) is ApplyCommit
            ==> acts[i]->ApplyCommit_0.id > pid) && (acts[i] is Notify
            ==> acts[i]->Notify_0.proposal_id > pid) by {
            if i < a1.len() {
                assert(acts[i] == a1[i]);
            } else {
                assert(acts[i] == a2[i - a1.len()]);
            }
        }
    }
}

/// A coordinator that decides a proposal is left settled on it.
pub proof fn lemma_decision_settles(s: ProcessView, e: EventView, root: Seq<u8>)
    requires
        s.phase is AwaitingVotes,
        s.last_proposal_id == Some(s.phase->AwaitingVotes_0.id),
        step_spec(s, e, root).0.phase is Idle,
    ensures
        past(step_spec(s, e, root).0, s.phase->AwaitingVotes_0.id),
{
}

/// The append-only log of one circuit-service's consensus events. Ids start at `first_id`
/// and go up by one with each event: they have no gaps.
pub struct EventLog {
    first_id: i64,
    events: Vec<Event>,
}

impl EventLog {
    pub closed spec fn first_id(&self) -> i64 {
        self.first_id
    }

    /// The logged events, the one with id `first_id() + i` at index `i`.
    pub closed spec fn events(&self) -> Seq<EventView> {
        Seq::new(self.events@.len(), |i: int| self.events@[i]@)
    }

    pub open spec fn next_id(&self) -> int {
        self.first_id() + self.events().len()
    }

    pub closed spec fn wf(&self) -> bool {
        self.first_id + self.events@.len() <= i64::MAX
    }

    /// How many logged events come before id `from`.
    pub open spec fn skip_for(&self, from: i64) -> int {
        if from <= self.first_id() {
            0
        } else if from >= self.next_id() {
            self.events().len() as int
        } else {
            from - self.first_id()
        }
    }

    fn start_index(&self, from: i64) -> (r: usize)
        requires
            self.wf(),
        ensures
            r == self.skip_for(from),
            r <= self.events@.len(),
    {
        let n = self.events.len();
        let f = self.first_id as i128;
        let x = from as i128;
        if x <= f {
            0
        } else if x - f >= n as i128 {
            n
        } else {
            (x - f) as usize
        }
    }

    /// An empty log whose first event will get id `first_id`.
    pub fn new(first_id: i64) -> (r: Self)
        ensures
            r.wf(),
            r.first_id() == first_id,
            r.events() == Seq::<EventView>::empty(),
    {
        let r = EventLog { first_id, events: Vec::new() };
        assert(r.events() =~= Seq::<EventView>::empty());
        r
    }

    /// Appends `event` and returns its id, or hands the event back when the ids are used up.
    pub fn append(&mut self, event: Event) -> (r: Result<i64, Event>)
        requires
            old(self).wf(),
        ensures
            final(self).wf(),
            final(self).first_id() == old(self).first_id(),
            old(self).next_id() < i64::MAX ==> r == Ok::<i64, Event>(old(self).next_id() as i64)
                && final(self).events() == old(self).events().push(event@),
            old(self).next_id() == i64::MAX ==> r is Err && final(self).events() == old(
                self,
            ).events(),
    {
        let n = self.events.len();
        if self.first_id as i128 + n as i128 >= i64::MAX as i128 {
            return Err(event);
        }
        let id = (self.first_id as i128 + n as i128) as i64;
        let ghost before = self.events();
        let ghost ev = event@;
        self.events.push(event);
        assert(self.events() =~= before.push(ev));
        Ok(id)
    }

    /// The events with id `from` and later, in order, each with its id.
    pub fn read_from(&self, from: i64) -> (r: Vec<IdentifiedConsensusEvent>)
        requires
            self.wf(),
        ensures
            r@.len() == self.events().len() - self.skip_for(from),
            forall|i: int|
                0 <= i < r@.len() ==> #[trigger] r@[i].id_spec() == self.first_id() + self.skip_for(
                    from,
                ) + i && r@[i].event_spec() == self.events()[self.skip_for(from) + i],
    {
        let n = self.events.len();
        let start = self.start_index(from);
        let mut out: Vec<IdentifiedConsensusEvent> = Vec::new();
        let mut i: usize = start;
        while i < n
            invariant
                start <= i <= n,
                n == self.events@.len(),
                self.wf(),
                out@.len() == i - start,
                forall|j: int|
                    0 <= j < out@.len() ==> #[trigger] out@[j].id_spec() == self.first_id + start + j
                        && out@[j].event_spec() == self.events()[start + j],
            decreases n - i,
        {
            let id = (self.first_id as i128 + i as i128) as i64;
            let ghost prev = out@;
            let ev = copy_event(&self.events[i]);
            assert(ev@ == self.events()[i as int]);
            out.push(IdentifiedConsensusEvent::Scabbard2pcConsensusEvent(id, ev));
            proof {
                assert(out@[prev.len() as int].id_spec() == id);
                assert forall|j: int| 0 <= j < out@.len() implies #[trigger] out@[j].id_spec()
                    == self.first_id + start + j && out@[j].event_spec() == self.events()[start + j] by {
                    if j < prev.len() {
                        assert(out@[j] == prev[j]);
                    } else {
                        assert(j == i - start);
                    }
                }
            }
            i = i + 1;
        }
        out
    }

    /// Rebuilds a process's state by feeding it the logged events from id `from` on, in
    /// order; returns all the actions they produce. The same log and starting state always
    /// give the same state and actions.
    pub fn replay(&self, process: &mut ConsensusProcess, from: i64, current_root: &Vec<u8>) -> (r: Vec<Action>)
        requires
            self.wf(),
        ensures
            (final(process)@, actions_view(r@)) == run(
                old(process)@,
                self.events().skip(self.skip_for(from)),
                current_root@,
            ),
    {
        let n = self.events.len();
        let start = self.start_index(from);
        let ghost evs = self.events().skip(start as int);
        let mut out: Vec<Action> = Vec::new();
        let mut i: usize = start;
        assert(evs.take(0) =~= Seq::<EventView>::empty());
        assert(actions_view(out@) =~= Seq::<ActionView>::empty());
        while i < n
            invariant
                start <= i <= n,
                n == self.events@.len(),
                evs == self.events().skip(start as int),
                (process@, actions_view(out@)) == run(old(process)@, evs.take(i - start), current_root@),
            decreases n - i,
        {
            let ghost before = actions_view(out@);
            let acts = process.step(copy_event(&self.events[i]), current_root);
            let ghost stepped = actions_view(acts@);
            let mut acts = acts;
            out.append(&mut acts);
            i = i + 1;
            proof {
                let t = evs.take(i - start);
                assert(t.drop_last() =~= evs.take(i - 1 - start));
                assert(t.last() == self.events()[i - 1]);
                assert(actions_view(out@) =~= before + stepped);
            }
        }
        assert(evs.take(n - start) =~= evs);
        out
    }
}

} // verus!
