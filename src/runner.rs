//! Carrying out the actions of a consensus process: messages go to a sender, commits go to
//! the state store, and decisions go back to the application.
use vstd::prelude::*;

use crate::consensus::{
    actions_view, lemma_step_single_commit, step_spec, Action, ActionView, ConsensusProcess,
    Decision, Event, Message, Proposal,
};
use crate::entries::{applies, applies_views, lemma_applies_views};
use crate::keys::bytes_equal;
use crate::merkle::{state_root, MerkleState};
use crate::migrate::write_and_prune_with_cleanup;

verus! {

/// Why a message could not be delivered.
#[derive(Debug, Clone, Copy, PartialEq, Eq, Structural)]
pub enum SendError {
    /// The transport could not take the message.
    Transport,
    /// The message has no form on the wire.
    Conversion,
}

/// Sends messages of type `M` between services of the same circuit.
pub trait MessageSender<M> {
    /// Sending `message` to `to_service` may have returned `r`. An implementation that
    /// promises nothing keeps this default.
    open spec fn sent(&self, to_service: u64, message: M, r: Result<(), SendError>) -> bool {
        true
    }

    /// Sends `message` to the service `to_service`.
    fn send(&self, to_service: u64, message: M) -> (r: Result<(), SendError>)
        ensures
            self.sent(to_service, message, r),
    ;
}

/// Turns messages of type `L` into messages of type `R`.
pub trait MessageConverter<L, R> {
    /// Converting `left` may have returned `r`. An implementation that promises nothing
    /// keeps this default.
    open spec fn converts(&self, left: L, r: Result<R, SendError>) -> bool {
        true
    }

    fn to_right(&self, left: L) -> (r: Result<R, SendError>)
        ensures
            self.converts(left, r),
    ;
}

/// A sender of `L` messages that converts each one and hands it to a sender of `R` messages.
pub struct IntoMessageSender<'s, 'c, L, R, S, C> {
    inner: &'s S,
    converter: &'c C,
    _messages: core::marker::PhantomData<(L, R)>,
}

impl<'s, 'c, L, R, S, C> IntoMessageSender<'s, 'c, L, R, S, C> {
    pub fn new(inner: &'s S, converter: &'c C) -> (r: Self)
        ensures
            r.inner() == inner,
            r.converter() == converter,
    {
        IntoMessageSender { inner, converter, _messages: core::marker::PhantomData }
    }

    pub closed spec fn inner(&self) -> &'s S {
        self.inner
    }

    pub closed spec fn converter(&self) -> &'c C {
        self.converter
    }
}

impl<'s, 'c, L, R, S: MessageSender<R>, C: MessageConverter<L, R>> MessageSender<L> for IntoMessageSender<
    's,
    'c,
    L,
    R,
    S,
    C,
> {
    /// The message was converted; a conversion error is returned as it is, with nothing
    /// sent, and a converted message went to the same service through the inner sender.
    open spec fn sent(&self, to_service: u64, message: L, r: Result<(), SendError>) -> bool {
        exists|c: Result<R, SendError>|
            #[trigger] self.converter().converts(message, c) && match c {
                Ok(right) => self.inner().sent(to_service, right, r),
                Err(e) => r == Err::<(), SendError>(e),
            }
    }

    fn send(&self, to_service: u64, message: L) -> (r: Result<(), SendError>) {
        let c = self.converter.to_right(message);
        let ghost cv = c;
        let r = match c {
            Ok(right) => self.inner.send(to_service, right),
            Err(e) => Err(e),
        };
        assert(self.converter().converts(message, cv));
        r
    }
}

/// The decisions reported by `acts`, in order.
pub open spec fn notifications(acts: Seq<ActionView>) -> Seq<Decision>
    decreases acts.len(),
{
    if acts.len() == 0 {
        Seq::empty()
    } else {
        let rest = notifications(acts.drop_last());
        match acts.last() {
            ActionView::Notify(d) => rest.push(d),
            _ => rest,
        }
    }
}

/// If `a` sends a message, a copy of that message was handed to `sender` for its target.
pub open spec fn handed_to<S: MessageSender<Message>>(sender: S, a: Action) -> bool {
    match a {
        Action::SendMessage { to, message } => exists|m: Message, r: Result<(), SendError>|
            m@ == message@ && #[trigger] sender.sent(to, m, r),
        _ => true,
    }
}

/// Some action of `acts` applies a commit.
pub open spec fn has_commit(acts: Seq<ActionView>) -> bool {
    exists|i: int| 0 <= i < acts.len() && #[trigger] acts[i] is ApplyCommit
}

/// `c` is the one action of `actions` that applies a commit.
pub open spec fn only_commit(actions: Seq<Action>, c: int) -> bool {
    &&& 0 <= c < actions.len()
    &&& actions[c] is ApplyCommit
    &&& forall|j: int| 0 <= j < actions.len() && j != c ==> !(#[trigger] actions[j] is ApplyCommit)
}

/// What applying `p` did to a store that was `before` and is now `after`.
pub open spec fn commit_outcome(before: MerkleState, p: Proposal, after: MerkleState) -> bool {
    &&& p.base_root@ == before.head() ==> applies(before.current(), p.changes@, after.current())
        && after.head() == state_root(after.current())
    &&& p.base_root@ != before.head() ==> after.live() == before.live() && after.head()
        == before.head() && after.reclaimable() == before.reclaimable()
}

/// Applies a committed proposal to the store. When the store's head is the proposal's base,
/// commits the batch, prunes the base and reclaims it, and returns `true`. Otherwise the batch
/// was applied already or no longer fits, and nothing changes.
pub fn apply_commit(store: &mut MerkleState, proposal: &Proposal) -> (r: bool)
    requires
        old(store).wf(),
    ensures
        final(store).wf(),
        r == (proposal.base_root@ == old(store).head()),
        r ==> applies(old(store).current(), proposal.changes@, final(store).current())
            && final(store).head() == state_root(final(store).current()),
        !r ==> final(store).live() == old(store).live() && final(store).head() == old(store).head()
            && final(store).reclaimable() == old(store).reclaimable(),
{
    let head = store.get_state_root();
    if !bytes_equal(&head, &proposal.base_root) {
        return false;
    }
    proof {
        store.lemma_wf();
    }
    match write_and_prune_with_cleanup(store, &head, &proposal.changes) {
        Ok(_) => {
            proof {
                store.lemma_wf();
            }
            true
        },
        Err(_) => {
            assert(false);
            false
        },
    }
}

/// Performs `actions` in order: sends each message (delivery is only ever observed through
/// later events, so a failed send is not retried here), applies each commit to the store,
/// and returns the decisions to report to the application.
pub fn run_actions<S: MessageSender<Message>>(
    store: &mut MerkleState,
    sender: &S,
    actions: &Vec<Action>,
) -> (r: Vec<Decision>)
    requires
        old(store).wf(),
    ensures
        final(store).wf(),
        r@ == notifications(actions_view(actions@)),
        forall|i: int| 0 <= i < actions@.len() ==> handed_to(*sender, #[trigger] actions@[i]),
        !has_commit(actions_view(actions@)) ==> final(store).live() == old(store).live()
            && final(store).head() == old(store).head() && final(store).reclaimable() == old(
            store,
        ).reclaimable(),
        forall|c: int|
            #[trigger] only_commit(actions@, c) ==> commit_outcome(
                *old(store),
                actions@[c]->ApplyCommit_0,
                *final(store),
            ),
{
    let ghost acts = actions_view(actions@);
    let mut out: Vec<Decision> = Vec::new();
    let mut i: usize = 0;
    while i < actions.len()
        invariant
            store.wf(),
            i <= actions@.len(),
            acts == actions_view(actions@),
            out@ == notifications(acts.take(i as int)),
            forall|j: int| 0 <= j < i ==> handed_to(*sender, #[trigger] actions@[j]),
            !has_commit(acts.take(i as int)) ==> store.live() == old(store).live() && store.head()
                == old(store).head() && store.reclaimable() == old(store).reclaimable(),
            forall|c: int|
                #[trigger] only_commit(actions@, c) && c < i ==> commit_outcome(
                    *old(store),
                    actions@[c]->ApplyCommit_0,
                    *store,
                ),
        decreases actions@.len() - i,
    {
        let ghost before = acts.take(i as int);
        match &actions[i] {
            Action::SendMessage { to, message } => {
                let m = message.copy();
                let ghost mv = m;
                let sr = sender.send(*to, m);
                assert(mv@ == message@ && sender.sent(*to, mv, sr));
            },
            Action::ApplyCommit(p) => {
                apply_commit(store, p);
            },
            Action::Notify(d) => {
                out.push(*d);
            },
        }
        i = i + 1;
        proof {
            assert forall|c: int| #[trigger] only_commit(actions@, c) && c < i implies commit_outcome(
                *old(store),
                actions@[c]->ApplyCommit_0,
                *store,
            ) by {
                if c == i - 1 {
                    assert forall|j: int| 0 <= j < before.len() implies !(#[trigger] before[j] is ApplyCommit) by {
                        assert(actions@[j]@ == before[j]);
                        assert(!(actions@[j] is ApplyCommit));
                    }
                } else {
                    assert(!(actions@[i - 1] is ApplyCommit));
                }
            }
            let now = acts.take(i as int);
            assert(now.drop_last() =~= before);
            assert(now.last() == acts[i - 1]);
            if !has_commit(now) {
                assert forall|j: int| 0 <= j < before.len() implies !(#[trigger] before[j] is ApplyCommit) by {
                    assert(now[j] == before[j]);
                }
                assert(!(now[i - 1] is ApplyCommit));
            }
        }
    }
    assert(acts.take(acts.len() as int) =~= acts);
    out
}

/// Hands one event to the process, checked against the store's current root, then performs
/// the actions it produces; returns the decisions to report. A commit it asks for is applied
/// to the store when the store's head is the proposal's base.
pub fn handle_event<S: MessageSender<Message>>(
    process: &mut ConsensusProcess,
    store: &mut MerkleState,
    sender: &S,
    event: Event,
) -> (r: Vec<Decision>)
    requires
        old(store).wf(),
    ensures
        final(store).wf(),
        final(process)@ == step_spec(old(process)@, event@, old(store).head()).0,
        r@ == notifications(step_spec(old(process)@, event@, old(store).head()).1),
        ({
            let acts = step_spec(old(process)@, event@, old(store).head()).1;
            &&& !has_commit(acts) ==> final(store).live() == old(store).live() && final(store).head()
                == old(store).head() && final(store).reclaimable() == old(store).reclaimable()
            &&& forall|c: int|
                0 <= c < acts.len() && (#[trigger] acts[c]) is ApplyCommit ==> {
                    let p = acts[c]->ApplyCommit_0;
                    &&& p.base_root == old(store).head() ==> applies_views(
                        old(store).current(),
                        p.changes,
                        final(store).current(),
                    ) && final(store).head() == state_root(final(store).current())
                    &&& p.base_root != old(store).head() ==> final(store).live() == old(
                        store,
                    ).live() && final(store).head() == old(store).head() && final(store).reclaimable()
                        == old(store).reclaimable()
                }
        }),
{
    let ghost s0 = *store;
    let root = store.get_state_root();
    let ghost e = event@;
    let ghost p0 = process@;
    let actions = process.step(event, &root);
    let r = run_actions(store, sender, &actions);
    proof {
        let acts = step_spec(p0, e, s0.head()).1;
        lemma_step_single_commit(p0, e, s0.head());
        assert forall|c: int| 0 <= c < acts.len() && (#[trigger] acts[c]) is ApplyCommit implies {
            let p = acts[c]->ApplyCommit_0;
            &&& p.base_root == s0.head() ==> applies_views(s0.current(), p.changes, store.current())
                && store.head() == state_root(store.current())
            &&& p.base_root != s0.head() ==> store.live() == s0.live() && store.head() == s0.head()
                && store.reclaimable() == s0.reclaimable()
        } by {
            assert(actions@[c]@ == acts[c]);
            assert(actions@[c] is ApplyCommit);
            assert forall|j: int| 0 <= j < actions@.len() && j != c implies !(#[trigger] actions@[j] is ApplyCommit) by {
                assert(actions@[j]@ == acts[j]);
            }
            assert(only_commit(actions@, c));
            let q = actions@[c]->ApplyCommit_0;
            assert(q@ == acts[c]->ApplyCommit_0);
            if q.base_root@ == s0.head() {
                lemma_applies_views(s0.current(), q.changes@, store.current());
            }
        }
    }
    r
}

} // verus!
