use std::cell::RefCell;

use circuit_consensus::consensus::{
    Action, ConsensusProcess, Decision, Event, Message, Outcome, Proposal, Vote,
};
use circuit_consensus::entries::StateChange;
use circuit_consensus::event::{ConsensusEvent, EventLog, IdentifiedConsensusEvent};
use circuit_consensus::merkle::MerkleState;
use circuit_consensus::runner::{
    apply_commit, handle_event, IntoMessageSender, MessageConverter, MessageSender, SendError,
};

const COORD: u64 = 1;

fn proposal(id: u64, base_root: &[u8]) -> Proposal {
    Proposal {
        proposal_id: id,
        coordinator_id: COORD,
        base_root: base_root.to_vec(),
        changes: vec![StateChange::Put { key: b"k".to_vec(), value: b"v".to_vec() }],
    }
}

fn vote(from: u64, id: u64, yes: bool) -> Event {
    Event::Deliver { from, message: Message::Vote(Vote { proposal_id: id, voter_id: from, yes }) }
}

fn notified(actions: &[Action]) -> Vec<Decision> {
    actions
        .iter()
        .filter_map(|a| match a {
            Action::Notify(d) => Some(*d),
            _ => None,
        })
        .collect()
}

fn coordinator() -> ConsensusProcess {
    ConsensusProcess::new(COORD, vec![2, 3, 4])
}

#[test]
fn start_sends_a_vote_request_to_each_participant() {
    let mut c = coordinator();
    let acts = c.step(Event::Start(proposal(1, b"root")), &b"root".to_vec());
    let targets: Vec<u64> = acts
        .iter()
        .map(|a| match a {
            Action::SendMessage { to, message: Message::VoteRequest(p) } => {
                assert_eq!(p.proposal_id, 1);
                *to
            }
            other => panic!("unexpected action {:?}", other),
        })
        .collect();
    assert_eq!(targets, vec![2, 3, 4]);
    assert!(!c.is_idle());
    assert_eq!(c.last_proposal_id(), Some(1));
}

#[test]
fn all_yes_commits() {
    let mut c = coordinator();
    let root = b"root".to_vec();
    c.step(Event::Start(proposal(1, &root)), &root);
    assert!(c.step(vote(2, 1, true), &root).is_empty());
    assert!(c.step(vote(3, 1, true), &root).is_empty());
    let acts = c.step(vote(4, 1, true), &root);
    assert_eq!(notified(&acts), vec![Decision { proposal_id: 1, outcome: Outcome::Commit }]);
    assert!(acts.iter().any(|a| matches!(a, Action::ApplyCommit(p) if p.proposal_id == 1)));
    let decisions_sent = acts
        .iter()
        .filter(|a| matches!(a, Action::SendMessage { message: Message::Decision(_), .. }))
        .count();
    assert_eq!(decisions_sent, 3);
    assert!(c.is_idle());
}

#[test]
fn one_no_aborts() {
    let mut c = coordinator();
    let root = b"root".to_vec();
    c.step(Event::Start(proposal(1, &root)), &root);
    c.step(vote(2, 1, true), &root);
    c.step(vote(3, 1, false), &root);
    let acts = c.step(vote(4, 1, true), &root);
    assert_eq!(notified(&acts), vec![Decision { proposal_id: 1, outcome: Outcome::Abort }]);
    assert!(!acts.iter().any(|a| matches!(a, Action::ApplyCommit(_))));
    assert!(c.is_idle());
}

#[test]
fn alarm_before_full_tally_aborts() {
    let mut c = coordinator();
    let root = b"root".to_vec();
    c.step(Event::Start(proposal(1, &root)), &root);
    c.step(vote(2, 1, true), &root);
    c.step(vote(3, 1, true), &root);
    let acts = c.step(Event::Alarm, &root);
    assert_eq!(notified(&acts), vec![Decision { proposal_id: 1, outcome: Outcome::Abort }]);
    assert!(!acts.iter().any(|a| matches!(a, Action::ApplyCommit(_))));
    assert!(c.is_idle());
}

#[test]
fn duplicate_and_foreign_votes_are_ignored() {
    let mut c = coordinator();
    let root = b"root".to_vec();
    c.step(Event::Start(proposal(1, &root)), &root);
    c.step(vote(2, 1, true), &root);
    // the same voter again, now saying No: ignored
    assert!(c.step(vote(2, 1, false), &root).is_empty());
    // a voter that is not a participant
    assert!(c.step(vote(9, 1, false), &root).is_empty());
    // a vote on another proposal
    assert!(c.step(vote(3, 7, false), &root).is_empty());
    c.step(vote(3, 1, true), &root);
    let acts = c.step(vote(4, 1, true), &root);
    assert_eq!(notified(&acts), vec![Decision { proposal_id: 1, outcome: Outcome::Commit }]);
}

#[test]
fn vote_for_decided_proposal_is_ignored() {
    let mut c = coordinator();
    let root = b"root".to_vec();
    c.step(Event::Start(proposal(1, &root)), &root);
    c.step(vote(2, 1, true), &root);
    c.step(vote(3, 1, true), &root);
    c.step(vote(4, 1, true), &root);
    assert!(c.is_idle());
    let acts = c.step(vote(2, 1, false), &root);
    assert!(acts.is_empty());
    assert!(c.is_idle());
    assert_eq!(c.last_proposal_id(), Some(1));
}

#[test]
fn stale_proposal_is_rejected() {
    let mut c = coordinator();
    let root = b"root".to_vec();
    c.step(Event::Start(proposal(5, &root)), &root);
    c.step(Event::Alarm, &root);
    assert!(c.step(Event::Start(proposal(5, &root)), &root).is_empty());
    assert!(c.step(Event::Start(proposal(3, &root)), &root).is_empty());
    assert!(c.is_idle());
    assert!(!c.step(Event::Start(proposal(6, &root)), &root).is_empty());
}

#[test]
fn start_is_refused_by_a_non_coordinator() {
    let mut p = ConsensusProcess::new(2, vec![]);
    assert!(p.step(Event::Start(proposal(1, b"r")), &b"r".to_vec()).is_empty());
    assert!(p.is_idle());
}

#[test]
fn coordinator_without_participants_commits_at_once() {
    let mut c = ConsensusProcess::new(COORD, vec![]);
    let acts = c.step(Event::Start(proposal(1, b"r")), &b"r".to_vec());
    assert_eq!(notified(&acts), vec![Decision { proposal_id: 1, outcome: Outcome::Commit }]);
    assert!(c.is_idle());
}

#[test]
fn participant_votes_on_its_root() {
    let mut p = ConsensusProcess::new(2, vec![]);
    let root = b"root".to_vec();
    let req = Event::Deliver { from: COORD, message: Message::VoteRequest(proposal(1, &root)) };
    let acts = p.step(req, &root);
    match &acts[..] {
        [Action::SendMessage { to, message: Message::Vote(v) }] => {
            assert_eq!(*to, COORD);
            assert_eq!(*v, Vote { proposal_id: 1, voter_id: 2, yes: true });
        }
        other => panic!("unexpected actions {:?}", other),
    }
    // a stale base root gets a No
    let mut q = ConsensusProcess::new(3, vec![]);
    let req = Event::Deliver { from: COORD, message: Message::VoteRequest(proposal(1, b"old")) };
    let acts = q.step(req, &root);
    match &acts[..] {
        [Action::SendMessage { message: Message::Vote(v), .. }] => assert!(!v.yes),
        other => panic!("unexpected actions {:?}", other),
    }
}

#[test]
fn participant_applies_the_decision() {
    let mut p = ConsensusProcess::new(2, vec![]);
    let root = b"root".to_vec();
    p.step(Event::Deliver { from: COORD, message: Message::VoteRequest(proposal(1, &root)) }, &root);
    // a decision from someone other than the coordinator is ignored
    let d = Decision { proposal_id: 1, outcome: Outcome::Commit };
    assert!(p.step(Event::Deliver { from: 9, message: Message::Decision(d) }, &root).is_empty());
    let acts = p.step(Event::Deliver { from: COORD, message: Message::Decision(d) }, &root);
    assert_eq!(acts.len(), 2);
    assert!(matches!(&acts[0], Action::ApplyCommit(q) if q.proposal_id == 1));
    assert_eq!(notified(&acts), vec![d]);
    assert!(p.is_idle());
}

#[test]
fn participant_alarm_aborts_locally() {
    let mut p = ConsensusProcess::new(2, vec![]);
    let root = b"root".to_vec();
    p.step(Event::Deliver { from: COORD, message: Message::VoteRequest(proposal(4, &root)) }, &root);
    let acts = p.step(Event::Alarm, &root);
    assert_eq!(notified(&acts), vec![Decision { proposal_id: 4, outcome: Outcome::Abort }]);
    assert!(p.is_idle());
}

#[test]
fn event_log_ids_are_gapless() {
    let mut log = EventLog::new(10);
    assert_eq!(log.append(Event::Alarm).ok(), Some(10));
    assert_eq!(log.append(vote(2, 1, true)).ok(), Some(11));
    assert_eq!(log.append(Event::Alarm).ok(), Some(12));
    let ids: Vec<i64> = log
        .read_from(11)
        .into_iter()
        .map(|e| match e {
            IdentifiedConsensusEvent::Scabbard2pcConsensusEvent(id, _) => id,
        })
        .collect();
    assert_eq!(ids, vec![11, 12]);
    assert_eq!(log.read_from(0).len(), 3);
    assert_eq!(log.read_from(13).len(), 0);
}

#[test]
fn event_log_is_full_at_the_last_id() {
    let mut log = EventLog::new(i64::MAX - 1);
    assert_eq!(log.append(Event::Alarm).ok(), Some(i64::MAX - 1));
    assert!(log.append(Event::Alarm).is_err());
}

#[test]
fn deconstruct_splits_id_and_event() {
    let e = IdentifiedConsensusEvent::Scabbard2pcConsensusEvent(42, Event::Alarm);
    let (id, ev) = e.deconstruct();
    assert_eq!(id, 42);
    assert!(matches!(ev, ConsensusEvent::TwoPhaseCommit(Event::Alarm)));
}

#[test]
fn replay_is_deterministic() {
    let root = b"root".to_vec();
    let mut log = EventLog::new(1);
    log.append(Event::Start(proposal(1, &root))).unwrap();
    log.append(vote(2, 1, true)).unwrap();
    log.append(vote(3, 1, true)).unwrap();
    log.append(vote(4, 1, false)).unwrap();
    let mut a = coordinator();
    let mut b = coordinator();
    let acts_a = log.replay(&mut a, 1, &root);
    let acts_b = log.replay(&mut b, 1, &root);
    assert_eq!(format!("{:?}", acts_a), format!("{:?}", acts_b));
    assert_eq!(notified(&acts_a), vec![Decision { proposal_id: 1, outcome: Outcome::Abort }]);
    assert!(a.is_idle() && b.is_idle());
}

struct Recorder {
    sent: RefCell<Vec<(u64, String)>>,
}

impl MessageSender<Message> for Recorder {
    fn send(&self, to_service: u64, message: Message) -> Result<(), SendError> {
        self.sent.borrow_mut().push((to_service, format!("{:?}", message)));
        Ok(())
    }
}

impl MessageSender<String> for Recorder {
    fn send(&self, to_service: u64, message: String) -> Result<(), SendError> {
        self.sent.borrow_mut().push((to_service, message));
        Ok(())
    }
}

struct Describe;

impl MessageConverter<Message, String> for Describe {
    fn to_right(&self, left: Message) -> Result<String, SendError> {
        match left {
            Message::Vote(v) => Ok(format!("vote {} {}", v.proposal_id, v.yes)),
            _ => Err(SendError::Conversion),
        }
    }
}

#[test]
fn into_message_sender_converts() {
    let rec = Recorder { sent: RefCell::new(vec![]) };
    let sender = IntoMessageSender::new(&rec, &Describe);
    let msg = Message::Vote(Vote { proposal_id: 3, voter_id: 2, yes: true });
    assert_eq!(MessageSender::<Message>::send(&sender, 1, msg), Ok(()));
    let bad = Message::Decision(Decision { proposal_id: 3, outcome: Outcome::Abort });
    assert_eq!(MessageSender::<Message>::send(&sender, 1, bad), Err(SendError::Conversion));
    assert_eq!(rec.sent.borrow().clone(), vec![(1, "vote 3 true".to_string())]);
}

#[test]
fn runner_applies_commit_and_reports() {
    let mut store = MerkleState::new();
    let root = store.get_state_root();
    let mut c = ConsensusProcess::new(COORD, vec![2]);
    let rec = Recorder { sent: RefCell::new(vec![]) };
    let d = handle_event(&mut c, &mut store, &rec, Event::Start(proposal(1, &root)));
    assert!(d.is_empty());
    assert_eq!(rec.sent.borrow().len(), 1);
    let d = handle_event(&mut c, &mut store, &rec, vote(2, 1, true));
    assert_eq!(d, vec![Decision { proposal_id: 1, outcome: Outcome::Commit }]);
    assert_ne!(store.get_state_root(), root);
    assert_eq!(
        store.filter_iter(&store.get_state_root(), None).unwrap(),
        vec![(b"k".to_vec(), b"v".to_vec())]
    );
    // the old root was pruned
    assert!(store.filter_iter(&root, None).is_err());
}

#[test]
fn apply_commit_is_idempotent() {
    let mut store = MerkleState::new();
    let root = store.get_state_root();
    let p = proposal(1, &root);
    assert!(apply_commit(&mut store, &p));
    let after = store.get_state_root();
    assert!(!apply_commit(&mut store, &p));
    assert_eq!(store.get_state_root(), after);
}
