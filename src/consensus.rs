//! The two-phase-commit state machine of one circuit-service.
//!
//! A process is a pure transition function from its state and one event to its next state
//! and the actions to perform; it does no I/O of its own.
use vstd::prelude::*;

use crate::entries::{change_views, ChangeView, StateChange};
use crate::keys::{bytes_equal, copy_bytes};

verus! {

/// A candidate batch of state changes, built on the snapshot named `base_root`.
#[derive(Debug)]
pub struct Proposal {
    pub proposal_id: u64,
    pub coordinator_id: u64,
    pub base_root: Vec<u8>,
    pub changes: Vec<StateChange>,
}

pub struct ProposalView {
    pub id: u64,
    pub coordinator: u64,
    pub base_root: Seq<u8>,
    pub changes: Seq<ChangeView>,
}

impl View for Proposal {
    type V = ProposalView;

    open spec fn view(&self) -> ProposalView {
        ProposalView {
            id: self.proposal_id,
            coordinator: self.coordinator_id,
            base_root: self.base_root@,
            changes: change_views(self.changes@),
        }
    }
}

/// A copy of one change.
pub fn copy_change(c: &StateChange) -> (r: StateChange)
    ensures
        r.key_spec() == c.key_spec(),
        r.value_spec() == c.value_spec(),
{
    match c {
        StateChange::Put { key, value } => StateChange::Put {
            key: copy_bytes(key),
            value: copy_bytes(value),
        },
        StateChange::Delete { key } => StateChange::Delete { key: copy_bytes(key) },
    }
}

impl Proposal {
    /// A copy of the proposal.
    pub fn copy(&self) -> (r: Proposal)
        ensures
            r@ == self@,
    {
        let mut changes: Vec<StateChange> = Vec::new();
        let mut i: usize = 0;
        while i < self.changes.len()
            invariant
                i <= self.changes@.len(),
                changes@.len() == i,
                forall|j: int|
                    0 <= j < i ==> #[trigger] changes@[j].key_spec() == self.changes@[j].key_spec()
                        && changes@[j].value_spec() == self.changes@[j].value_spec(),
            decreases self.changes@.len() - i,
        {
            changes.push(copy_change(&self.changes[i]));
            i = i + 1;
        }
        let r = Proposal {
            proposal_id: self.proposal_id,
            coordinator_id: self.coordinator_id,
            base_root: copy_bytes(&self.base_root),
            changes,
        };
        assert(r@.changes =~= self@.changes);
        r
    }
}

/// The result of a proposal.
#[derive(Debug, Clone, Copy, PartialEq, Eq, Structural)]
pub enum Outcome {
    Commit,
    Abort,
}

/// A participant's answer to a vote request.
#[derive(Debug, Clone, Copy, PartialEq, Eq, Structural)]
pub struct Vote {
    pub proposal_id: u64,
    pub voter_id: u64,
    pub yes: bool,
}

/// The coordinator's decision on a proposal.
#[derive(Debug, Clone, Copy, PartialEq, Eq, Structural)]
pub struct Decision {
    pub proposal_id: u64,
    pub outcome: Outcome,
}

/// What one process sends another.
#[derive(Debug)]
pub enum Message {
    VoteRequest(Proposal),
    Vote(Vote),
    Decision(Decision),
}

pub enum MessageView {
    VoteRequest(ProposalView),
    Vote(Vote),
    Decision(Decision),
}

impl View for Message {
    type V = MessageView;

    open spec fn view(&self) -> MessageView {
        match self {
            Message::VoteRequest(p) => MessageView::VoteRequest(p@),
            Message::Vote(v) => MessageView::Vote(*v),
            Message::Decision(d) => MessageView::Decision(*d),
        }
    }
}

impl Message {
    /// A copy of the message.
    pub fn copy(&self) -> (r: Message)
        ensures
            r@ == self@,
    {
        match self {
            Message::VoteRequest(p) => Message::VoteRequest(p.copy()),
            Message::Vote(v) => Message::Vote(*v),
            Message::Decision(d) => Message::Decision(*d),
        }
    }
}

/// One input of the two-phase-commit process.
#[derive(Debug)]
pub enum Event {
    /// The application asks this process, as coordinator, to run a proposal.
    Start(Proposal),
    /// A message arrived from the service `from`.
    Deliver { from: u64, message: Message },
    /// The bounded wait for votes or for a decision has elapsed.
    Alarm,
}

pub enum EventView {
    Start(ProposalView),
    Deliver(u64, MessageView),
    Alarm,
}

impl View for Event {
    type V = EventView;

    open spec fn view(&self) -> EventView {
        match self {
            Event::Start(p) => EventView::Start(p@),
            Event::Deliver { from, message } => EventView::Deliver(*from, message@),
            Event::Alarm => EventView::Alarm,
        }
    }
}

/// A side effect the process asks for.
#[derive(Debug)]
pub enum Action {
    SendMessage { to: u64, message: Message },
    ApplyCommit(Proposal),
    Notify(Decision),
}

pub enum ActionView {
    SendMessage(u64, MessageView),
    ApplyCommit(ProposalView),
    Notify(Decision),
}

impl View for Action {
    type V = ActionView;

    open spec fn view(&self) -> ActionView {
        match self {
            Action::SendMessage { to, message } => ActionView::SendMessage(*to, message@),
            Action::ApplyCommit(p) => ActionView::ApplyCommit(p@),
            Action::Notify(d) => ActionView::Notify(*d),
        }
    }
}

pub open spec fn actions_view(v: Seq<Action>) -> Seq<ActionView> {
    Seq::new(v.len(), |i: int| v[i]@)
}

/// Where the process stands on the one proposal it may have outstanding.
#[derive(Debug)]
pub enum Phase {
    Idle,
    /// Coordinator: the vote requests are out; `votes` holds the votes recorded so far.
    AwaitingVotes { proposal: Proposal, votes: Vec<Vote> },
    /// Participant: this process voted `yes` (or not) and awaits the decision.
    VoteRequested { proposal: Proposal, yes: bool },
}

pub enum PhaseView {
    Idle,
    AwaitingVotes(ProposalView, Seq<Vote>),
    VoteRequested(ProposalView, bool),
}

impl View for Phase {
    type V = PhaseView;

    open spec fn view(&self) -> PhaseView {
        match self {
            Phase::Idle => PhaseView::Idle,
            Phase::AwaitingVotes { proposal, votes } => PhaseView::AwaitingVotes(
                proposal@,
                votes@,
            ),
            Phase::VoteRequested { proposal, yes } => PhaseView::VoteRequested(proposal@, *yes),
        }
    }
}

/// The two-phase-commit process of one circuit-service.
pub struct ConsensusProcess {
    service_id: u64,
    participants: Vec<u64>,
    phase: Phase,
    last_proposal_id: Option<u64>,
}

pub struct ProcessView {
    pub service_id: u64,
    pub participants: Seq<u64>,
    pub phase: PhaseView,
    pub last_proposal_id: Option<u64>,
}

impl View for ConsensusProcess {
    type V = ProcessView;

    closed spec fn view(&self) -> ProcessView {
        ProcessView {
            service_id: self.service_id,
            participants: self.participants@,
            phase: self.phase@,
            last_proposal_id: self.last_proposal_id,
        }
    }
}

/// A proposal id later than every one seen so far.
pub open spec fn is_fresh(last: Option<u64>, id: u64) -> bool {
    last is None || id > last.unwrap()
}

pub open spec fn has_voted(votes: Seq<Vote>, voter: u64) -> bool {
    exists|i: int| 0 <= i < votes.len() && #[trigger] votes[i].voter_id == voter
}

/// Every participant has a recorded vote.
pub open spec fn tally_complete(participants: Seq<u64>, votes: Seq<Vote>) -> bool {
    forall|i: int| 0 <= i < participants.len() ==> has_voted(votes, #[trigger] participants[i])
}

pub open spec fn all_yes(votes: Seq<Vote>) -> bool {
    forall|i: int| 0 <= i < votes.len() ==> #[trigger] votes[i].yes
}

/// The outcome of a complete tally: Commit when every vote is Yes.
pub open spec fn tally_outcome(votes: Seq<Vote>) -> Outcome {
    if all_yes(votes) {
        Outcome::Commit
    } else {
        Outcome::Abort
    }
}

pub open spec fn broadcast(participants: Seq<u64>, m: MessageView) -> Seq<ActionView> {
    Seq::new(participants.len(), |i: int| ActionView::SendMessage(participants[i], m))
}

/// What the coordinator does on deciding: tell every participant, apply the batch on
/// Commit, and report the decision.
pub open spec fn decision_actions(participants: Seq<u64>, p: ProposalView, outcome: Outcome) -> Seq<ActionView> {
    let d = Decision { proposal_id: p.id, outcome };
    broadcast(participants, MessageView::Decision(d)) + (if outcome == Outcome::Commit {
        seq![ActionView::ApplyCommit(p)]
    } else {
        Seq::empty()
    }) + seq![ActionView::Notify(d)]
}

/// The coordinator has `votes` for `p`: decide if the tally is complete, else keep waiting.
pub open spec fn settle(s: ProcessView, p: ProposalView, votes: Seq<Vote>) -> (ProcessView, Seq<ActionView>) {
    if tally_complete(s.participants, votes) {
        (
            ProcessView { phase: PhaseView::Idle, ..s },
            decision_actions(s.participants, p, tally_outcome(votes)),
        )
    } else {
        (ProcessView { phase: PhaseView::AwaitingVotes(p, votes), ..s }, Seq::empty())
    }
}

/// The next state and the actions of a process in state `s` on event `e`, when its store's
/// current root is `root`. Events that do not fit the state change nothing.
pub open spec fn step_spec(s: ProcessView, e: EventView, root: Seq<u8>) -> (ProcessView, Seq<ActionView>) {
    let unchanged = (s, Seq::<ActionView>::empty());
    match s.phase {
        PhaseView::Idle => match e {
            EventView::Start(p) => if p.coordinator == s.service_id && is_fresh(
                s.last_proposal_id,
                p.id,
            ) {
                let s1 = ProcessView { last_proposal_id: Some(p.id), ..s };
                let (s2, acts) = settle(s1, p, Seq::empty());
                (s2, broadcast(s.participants, MessageView::VoteRequest(p)) + acts)
            } else {
                unchanged
            },
            EventView::Deliver(from, MessageView::VoteRequest(p)) => if p.coordinator == from
                && from != s.service_id && is_fresh(s.last_proposal_id, p.id) {
                let yes = p.base_root == root;
                (
                    ProcessView {
                        phase: PhaseView::VoteRequested(p, yes),
                        last_proposal_id: Some(p.id),
                        ..s
                    },
                    seq![
                        ActionView::SendMessage(
                            from,
                            MessageView::Vote(
                                Vote { proposal_id: p.id, voter_id: s.service_id, yes },
                            ),
                        ),
                    ],
                )
            } else {
                unchanged
            },
            _ => unchanged,
        },
        PhaseView::AwaitingVotes(p, votes) => match e {
            EventView::Deliver(from, MessageView::Vote(v)) => if v.proposal_id == p.id
                && v.voter_id == from && s.participants.contains(from) && !has_voted(votes, from) {
                settle(s, p, votes.push(v))
            } else {
                unchanged
            },
            EventView::Alarm => (
                ProcessView { phase: PhaseView::Idle, ..s },
                decision_actions(s.participants, p, Outcome::Abort),
            ),
            _ => unchanged,
        },
        PhaseView::VoteRequested(p, yes) => match e {
            EventView::Deliver(from, MessageView::Decision(d)) => if d.proposal_id == p.id && from
                == p.coordinator {
                (
                    ProcessView { phase: PhaseView::Idle, ..s },
                    (if d.outcome == Outcome::Commit {
                        seq![ActionView::ApplyCommit(p)]
                    } else {
                        Seq::empty()
                    }) + seq![ActionView::Notify(d)],
                )
            } else {
                unchanged
            },
            EventView::Alarm => (
                ProcessView { phase: PhaseView::Idle, ..s },
                seq![
                    ActionView::Notify(Decision { proposal_id: p.id, outcome: Outcome::Abort }),
                ],
            ),
            _ => unchanged,
        },
    }
}

/// The votes a coordinator holds once it has taken `e` into account.
pub open spec fn recorded_votes(s: ProcessView, e: EventView) -> Seq<Vote> {
    match s.phase {
        PhaseView::AwaitingVotes(p, votes) => match e {
            EventView::Deliver(from, MessageView::Vote(v)) => if v.proposal_id == p.id && v.voter_id
                == from && s.participants.contains(from) && !has_voted(votes, from) {
                votes.push(v)
            } else {
                votes
            },
            _ => votes,
        },
        _ => Seq::empty(),
    }
}

/// Each participant has at most one vote, and only participants have votes.
pub open spec fn votes_wf(participants: Seq<u64>, votes: Seq<Vote>) -> bool {
    &&& forall|i: int| 0 <= i < votes.len() ==> participants.contains(#[trigger] votes[i].voter_id)
    &&& forall|i: int, j: int|
        0 <= i < j < votes.len() ==> #[trigger] votes[i].voter_id != #[trigger] votes[j].voter_id
}

/// Recording a vote keeps one vote per participant.
pub proof fn lemma_recorded_votes_wf(s: ProcessView, e: EventView)
    requires
        s.phase matches PhaseView::AwaitingVotes(_, votes) && votes_wf(s.participants, votes),
    ensures
        votes_wf(s.participants, recorded_votes(s, e)),
{
    let votes = s.phase->AwaitingVotes_1;
    let r = recorded_votes(s, e);
    if r.len() > votes.len() {
        assert forall|i: int, j: int| 0 <= i < j < r.len() implies #[trigger] r[i].voter_id
            != #[trigger] r[j].voter_id by {
            if j == r.len() - 1 {
                assert(r[i] == votes[i]);
            } else {
                assert(r[i] == votes[i] && r[j] == votes[j]);
            }
        }
        assert forall|i: int| 0 <= i < r.len() implies s.participants.contains(
            #[trigger] r[i].voter_id,
        ) by {
            if i < votes.len() {
                assert(r[i] == votes[i]);
            }
        }
    }
}

/// A coordinator's decision is Commit exactly when, with the event taken into account, every
/// participant has voted and every vote is Yes. A single No, or an alarm before the tally
/// is complete, gives Abort.
pub proof fn lemma_decision_unanimous(s: ProcessView, e: EventView, root: Seq<u8>, i: int)
    requires
        s.phase is AwaitingVotes,
        0 <= i < step_spec(s, e, root).1.len(),
        step_spec(s, e, root).1[i] is Notify,
    ensures
        ({
            let d = step_spec(s, e, root).1[i]->Notify_0;
            let votes = recorded_votes(s, e);
            &&& d.proposal_id == s.phase->AwaitingVotes_0.id
            &&& (d.outcome == Outcome::Commit <==> !(e is Alarm) && tally_complete(
                s.participants,
                votes,
            ) && all_yes(votes))
        }),
{
    let p = s.phase->AwaitingVotes_0;
    let votes = recorded_votes(s, e);
    let acts = step_spec(s, e, root).1;
    let n = s.participants.len();
    match e {
        EventView::Alarm => {
            let d = Decision { proposal_id: p.id, outcome: Outcome::Abort };
            assert(acts == decision_actions(s.participants, p, Outcome::Abort));
            assert(i >= n ==> acts[i] == ActionView::Notify(d));
            if i < n {
                assert(acts[i] == broadcast(s.participants, MessageView::Decision(d))[i]);
            }
        },
        _ => {
            if tally_complete(s.participants, votes) && acts.len() > 0 {
                let o = tally_outcome(votes);
                let d = Decision { proposal_id: p.id, outcome: o };
                assert(acts == decision_actions(s.participants, p, o));
                if i < n {
                    assert(acts[i] == broadcast(s.participants, MessageView::Decision(d))[i]);
                } else if i < acts.len() - 1 {
                    assert(o == Outcome::Commit);
                    assert(acts[i] == ActionView::ApplyCommit(p));
                }
            }
        },
    }
}

/// A vote delivered to an idle process, such as a late vote on a proposal already
/// decided, is ignored: the process stays as it is and asks for nothing.
pub proof fn lemma_stale_vote_ignored(s: ProcessView, from: u64, v: Vote, root: Seq<u8>)
    requires
        s.phase is Idle,
    ensures
        step_spec(s, EventView::Deliver(from, MessageView::Vote(v)), root) == (s, Seq::<ActionView>::empty()),
{
}

/// A second vote from the same participant on the same proposal is ignored.
pub proof fn lemma_duplicate_vote_ignored(s: ProcessView, from: u64, v: Vote, root: Seq<u8>)
    requires
        s.phase matches PhaseView::AwaitingVotes(_, votes) && has_voted(votes, from),
    ensures
        step_spec(s, EventView::Deliver(from, MessageView::Vote(v)), root) == (s, Seq::<ActionView>::empty()),
{
}

/// A proposal whose id is not later than the last one seen is rejected, whether it comes as
/// a start or as a vote request.
pub proof fn lemma_stale_proposal_rejected(s: ProcessView, p: ProposalView, from: u64, root: Seq<u8>)
    requires
        s.phase is Idle,
        !is_fresh(s.last_proposal_id, p.id),
    ensures
        step_spec(s, EventView::Start(p), root) == (s, Seq::<ActionView>::empty()),
        step_spec(s, EventView::Deliver(from, MessageView::VoteRequest(p)), root) == (
            s,
            Seq::<ActionView>::empty(),
        ),
{
}

proof fn lemma_decision_commit_at(participants: Seq<u64>, p: ProposalView, o: Outcome)
    ensures
        forall|i: int|
            0 <= i < decision_actions(participants, p, o).len() && (#[trigger] decision_actions(
                participants,
                p,
                o,
            )[i]) is ApplyCommit ==> i == participants.len(),
{
    let d = Decision { proposal_id: p.id, outcome: o };
    let b = broadcast(participants, MessageView::Decision(d));
    let acts = decision_actions(participants, p, o);
    assert forall|i: int| 0 <= i < acts.len() && (#[trigger] acts[i]) is ApplyCommit implies i
        == participants.len() by {
        if i < participants.len() {
            assert(acts[i] == b[i]);
        } else if i > participants.len() {
            assert(i == acts.len() - 1);
        }
    }
}

/// A step asks for at most one commit.
pub proof fn lemma_step_single_commit(s: ProcessView, e: EventView, root: Seq<u8>)
    ensures
        forall|c: int, j: int|
            0 <= c < step_spec(s, e, root).1.len() && 0 <= j < step_spec(s, e, root).1.len() && (
            #[trigger] step_spec(s, e, root).1[c]) is ApplyCommit && (#[trigger] step_spec(
                s,
                e,
                root,
            ).1[j]) is ApplyCommit ==> c == j,
{
    let acts = step_spec(s, e, root).1;
    let n = s.participants.len();
    match s.phase {
        PhaseView::Idle => {
            match e {
                EventView::Start(p) => {
                    let b = broadcast(s.participants, MessageView::VoteRequest(p));
                    let s1 = ProcessView { last_proposal_id: Some(p.id), ..s };
                    let rest = settle(s1, p, Seq::empty()).1;
                    if tally_complete(s.participants, Seq::<Vote>::empty()) {
                        lemma_decision_commit_at(s.participants, p, tally_outcome(Seq::<Vote>::empty()));
                    }
                    assert forall|c: int| 0 <= c < acts.len() && (#[trigger] acts[c]) is ApplyCommit
                        implies c == n + n by {
                        if p.coordinator == s.service_id && is_fresh(s.last_proposal_id, p.id) {
                            assert(acts == b + rest);
                            if c < n {
                                assert(acts[c] == b[c]);
                            } else {
                                assert(acts[c] == rest[c - n]);
                            }
                        }
                    }
                },
                _ => {},
            }
        },
        PhaseView::AwaitingVotes(p, votes) => {
            lemma_decision_commit_at(s.participants, p, Outcome::Abort);
            match e {
                EventView::Deliver(from, MessageView::Vote(v)) => {
                    lemma_decision_commit_at(s.participants, p, tally_outcome(votes.push(v)));
                },
                _ => {},
            }
        },
        PhaseView::VoteRequested(p, yes) => {
            assert forall|c: int| 0 <= c < acts.len() && (#[trigger] acts[c]) is ApplyCommit implies c
                == 0 by {
                if c > 0 {
                    assert(c == acts.len() - 1);
                }
            }
        },
    }
}

fn contains_id(ids: &Vec<u64>, id: u64) -> (r: bool)
    ensures
        r == ids@.contains(id),
{
    let mut i: usize = 0;
    while i < ids.len()
        invariant
            i <= ids@.len(),
            forall|j: int| 0 <= j < i ==> ids@[j] != id,
        decreases ids@.len() - i,
    {
        if ids[i] == id {
            assert(ids@[i as int] == id);
            return true;
        }
        i = i + 1;
    }
    false
}

fn voted(votes: &Vec<Vote>, voter: u64) -> (r: bool)
    ensures
        r == has_voted(votes@, voter),
{
    let mut i: usize = 0;
    while i < votes.len()
        invariant
            i <= votes@.len(),
            forall|j: int| 0 <= j < i ==> votes@[j].voter_id != voter,
        decreases votes@.len() - i,
    {
        if votes[i].voter_id == voter {
            assert(votes@[i as int].voter_id == voter);
            return true;
        }
        i = i + 1;
    }
    false
}

fn is_complete(participants: &Vec<u64>, votes: &Vec<Vote>) -> (r: bool)
    ensures
        r == tally_complete(participants@, votes@),
{
    let mut i: usize = 0;
    while i < participants.len()
        invariant
            i <= participants@.len(),
            forall|j: int| 0 <= j < i ==> has_voted(votes@, #[trigger] participants@[j]),
        decreases participants@.len() - i,
    {
        if !voted(votes, participants[i]) {
            return false;
        }
        i = i + 1;
    }
    true
}

fn outcome_of(votes: &Vec<Vote>) -> (r: Outcome)
    ensures
        r == tally_outcome(votes@),
{
    let mut i: usize = 0;
    while i < votes.len()
        invariant
            i <= votes@.len(),
            forall|j: int| 0 <= j < i ==> #[trigger] votes@[j].yes,
        decreases votes@.len() - i,
    {
        if !votes[i].yes {
            return Outcome::Abort;
        }
        i = i + 1;
    }
    Outcome::Commit
}

/// Appends to `out` one `SendMessage` of a copy of `m` to each participant.
fn push_broadcast(out: &mut Vec<Action>, participants: &Vec<u64>, m: &Message)
    ensures
        actions_view(final(out)@) == actions_view(old(out)@) + broadcast(participants@, m@),
{
    let ghost start = actions_view(out@);
    let mut i: usize = 0;
    while i < participants.len()
        invariant
            i <= participants@.len(),
            actions_view(out@) == start + broadcast(participants@, m@).take(i as int),
        decreases participants@.len() - i,
    {
        let ghost prev = actions_view(out@);
        out.push(Action::SendMessage { to: participants[i], message: m.copy() });
        i = i + 1;
        assert(actions_view(out@) =~= prev.push(ActionView::SendMessage(participants@[i - 1], m@)));
        assert(broadcast(participants@, m@).take(i as int) =~= broadcast(participants@, m@).take(
            i - 1,
        ).push(ActionView::SendMessage(participants@[i - 1], m@)));
    }
    assert(broadcast(participants@, m@).take(participants@.len() as int) =~= broadcast(
        participants@,
        m@,
    ));
}

impl ConsensusProcess {
    /// A process for service `service_id`, idle, that has seen no proposal; as coordinator
    /// it asks `participants` for their votes.
    pub fn new(service_id: u64, participants: Vec<u64>) -> (r: Self)
        ensures
            r@ == (ProcessView {
                service_id,
                participants: participants@,
                phase: PhaseView::Idle,
                last_proposal_id: None,
            }),
    {
        ConsensusProcess { service_id, participants, phase: Phase::Idle, last_proposal_id: None }
    }

    pub fn service_id(&self) -> (r: u64)
        ensures
            r == self@.service_id,
    {
        self.service_id
    }

    /// Whether no proposal is outstanding.
    pub fn is_idle(&self) -> (r: bool)
        ensures
            r == (self@.phase is Idle),
    {
        match &self.phase {
            Phase::Idle => true,
            _ => false,
        }
    }

    /// The id of the latest proposal this process took up.
    pub fn last_proposal_id(&self) -> (r: Option<u64>)
        ensures
            r == self@.last_proposal_id,
    {
        self.last_proposal_id
    }

    /// The decision's actions, appended to `out`.
    fn push_decision(&self, out: &mut Vec<Action>, p: Proposal, outcome: Outcome)
        ensures
            actions_view(final(out)@) == actions_view(old(out)@) + decision_actions(
                self@.participants,
                p@,
                outcome,
            ),
    {
        let d = Decision { proposal_id: p.proposal_id, outcome };
        push_broadcast(out, &self.participants, &Message::Decision(d));
        let ghost mid = actions_view(out@);
        if outcome == Outcome::Commit {
            out.push(Action::ApplyCommit(p));
        }
        let ghost mid2 = actions_view(out@);
        out.push(Action::Notify(d));
        proof {
            let extra = if outcome == Outcome::Commit {
                seq![ActionView::ApplyCommit(p@)]
            } else {
                Seq::empty()
            };
            assert(mid2 =~= mid + extra);
            assert(actions_view(out@) =~= mid2.push(ActionView::Notify(d)));
            assert(actions_view(out@) =~= actions_view(old(out)@) + decision_actions(
                self@.participants,
                p@,
                outcome,
            ));
        }
    }

    /// Records `votes` for `p` as coordinator: decides if the tally is complete.
    fn settle(&mut self, out: &mut Vec<Action>, p: Proposal, votes: Vec<Vote>)
        requires
            old(self).phase is Idle,
        ensures
            final(self)@ == settle(old(self)@, p@, votes@).0,
            actions_view(final(out)@) == actions_view(old(out)@) + settle(old(self)@, p@, votes@).1,
    {
        let ghost start = actions_view(out@);
        if is_complete(&self.participants, &votes) {
            let outcome = outcome_of(&votes);
            self.push_decision(out, p, outcome);
        } else {
            self.phase = Phase::AwaitingVotes { proposal: p, votes };
            assert(actions_view(out@) =~= start + Seq::<ActionView>::empty());
        }
    }

    /// Takes one event: moves to the next state and returns the actions to perform, in
    /// order. `current_root` is the root of this service's store, against which a vote
    /// request is checked.
    pub fn step(&mut self, event: Event, current_root: &Vec<u8>) -> (actions: Vec<Action>)
        ensures
            (final(self)@, actions_view(actions@)) == step_spec(old(self)@, event@, current_root@),
    {
        let mut phase = Phase::Idle;
        core::mem::swap(&mut self.phase, &mut phase);
        let ghost s0 = ProcessView { phase: phase@, ..self@ };
        assert(s0 == old(self)@);
        let mut out: Vec<Action> = Vec::new();
        match phase {
            Phase::Idle => match event {
                Event::Start(p) => {
                    let fresh = match self.last_proposal_id {
                        None => true,
                        Some(last) => p.proposal_id > last,
                    };
                    if p.coordinator_id == self.service_id && fresh {
                        self.last_proposal_id = Some(p.proposal_id);
                        push_broadcast(&mut out, &self.participants, &Message::VoteRequest(p.copy()));
                        self.settle(&mut out, p, Vec::new());
                    }
                },
                Event::Deliver { from, message: Message::VoteRequest(p) } => {
                    let fresh = match self.last_proposal_id {
                        None => true,
                        Some(last) => p.proposal_id > last,
                    };
                    if p.coordinator_id == from && from != self.service_id && fresh {
                        let yes = bytes_equal(&p.base_root, current_root);
                        let v = Vote { proposal_id: p.proposal_id, voter_id: self.service_id, yes };
                        self.last_proposal_id = Some(p.proposal_id);
                        self.phase = Phase::VoteRequested { proposal: p, yes };
                        out.push(Action::SendMessage { to: from, message: Message::Vote(v) });
                        assert(actions_view(out@) =~= seq![
                            ActionView::SendMessage(from, MessageView::Vote(v)),
                        ]);
                    }
                },
                _ => {},
            },
            Phase::AwaitingVotes { proposal, votes } => match event {
                Event::Deliver { from, message: Message::Vote(v) } => {
                    if v.proposal_id == proposal.proposal_id && v.voter_id == from && contains_id(
                        &self.participants,
                        from,
                    ) && !voted(&votes, from) {
                        let mut votes = votes;
                        votes.push(v);
                        self.settle(&mut out, proposal, votes);
                        assert(actions_view(out@) =~= Seq::<ActionView>::empty() + actions_view(out@));
                    } else {
                        self.phase = Phase::AwaitingVotes { proposal, votes };
                    }
                },
                Event::Alarm => {
                    self.push_decision(&mut out, proposal, Outcome::Abort);
                    assert(actions_view(out@) =~= decision_actions(
                        self@.participants,
                        s0.phase->AwaitingVotes_0,
                        Outcome::Abort,
                    ));
                },
                _ => {
                    self.phase = Phase::AwaitingVotes { proposal, votes };
                },
            },
            Phase::VoteRequested { proposal, yes } => match event {
                Event::Deliver { from, message: Message::Decision(d) } => {
                    if d.proposal_id == proposal.proposal_id && from == proposal.coordinator_id {
                        let ghost pv = proposal@;
                        if d.outcome == Outcome::Commit {
                            out.push(Action::ApplyCommit(proposal));
                        }
                        let ghost mid = actions_view(out@);
                        out.push(Action::Notify(d));
                        assert(actions_view(out@) =~= mid.push(ActionView::Notify(d)));
                        assert(actions_view(out@) =~= (if d.outcome == Outcome::Commit {
                            seq![ActionView::ApplyCommit(pv)]
                        } else {
                            Seq::empty()
                        }) + seq![ActionView::Notify(d)]);
                    } else {
                        self.phase = Phase::VoteRequested { proposal, yes };
                    }
                },
                Event::Alarm => {
                    let d = Decision { proposal_id: proposal.proposal_id, outcome: Outcome::Abort };
                    out.push(Action::Notify(d));
                    assert(actions_view(out@) =~= seq![ActionView::Notify(d)]);
                },
                _ => {
                    self.phase = Phase::VoteRequested { proposal, yes };
                },
            },
        }
        proof {
            if actions_view(out@).len() == 0 {
                assert(actions_view(out@) =~= Seq::<ActionView>::empty());
            }
        }
        out
    }
}

} // verus!
