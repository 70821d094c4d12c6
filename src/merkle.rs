//! A content-addressed state store: every snapshot is named by the SHA-512 digest of its
//! canonical encoding, so equal contents always get the same root.
use vstd::prelude::*;

use crate::entries::{
    apply_changes, applies, copy_entry, entries_view, lemma_sorted_unique, lookup, sorted,
    EntryView, StateChange,
};
use crate::keys::{bytes_equal, copy_bytes, has_prefix, starts_with};

verus! {

/// The SHA-512 digest of a byte string.
pub uninterp spec fn sha512_digest(data: Seq<u8>) -> Seq<u8>;

/// Relies on `sha2::Sha512::digest`: the 64-byte SHA-512 digest of the input, which depends
/// on the input bytes alone.
#[verifier::external_body]
fn sha512(data: &Vec<u8>) -> (r: Vec<u8>)
    ensures
        r@ == sha512_digest(data@),
        r@.len() == 64,
{
    <sha2::Sha512 as sha2::Digest>::digest(data.as_slice()).to_vec()
}

/// A length written as eight big-endian bytes.
pub open spec fn u64_be(n: u64) -> Seq<u8> {
    seq![
        (n >> 56u64) as u8,
        (n >> 48u64) as u8,
        (n >> 40u64) as u8,
        (n >> 32u64) as u8,
        (n >> 24u64) as u8,
        (n >> 16u64) as u8,
        (n >> 8u64) as u8,
        n as u8,
    ]
}

/// One entry, as its key and value each preceded by its length.
pub open spec fn encode_entry(e: EntryView) -> Seq<u8> {
    u64_be(e.0.len() as u64) + e.0 + u64_be(e.1.len() as u64) + e.1
}

/// The canonical encoding of a sorted snapshot: its entries one after another.
pub open spec fn encode_entries(s: Seq<EntryView>) -> Seq<u8>
    decreases s.len(),
{
    if s.len() == 0 {
        Seq::empty()
    } else {
        encode_entries(s.drop_last()) + encode_entry(s.last())
    }
}

/// The root that names a snapshot.
pub open spec fn state_root(s: Seq<EntryView>) -> Seq<u8> {
    sha512_digest(encode_entries(s))
}

fn push_u64(out: &mut Vec<u8>, n: u64)
    ensures
        final(out)@ == old(out)@ + u64_be(n),
{
    out.push((n >> 56u64) as u8);
    out.push((n >> 48u64) as u8);
    out.push((n >> 40u64) as u8);
    out.push((n >> 32u64) as u8);
    out.push((n >> 24u64) as u8);
    out.push((n >> 16u64) as u8);
    out.push((n >> 8u64) as u8);
    out.push(n as u8);
    assert(final(out)@ =~= old(out)@ + u64_be(n));
}

fn push_bytes(out: &mut Vec<u8>, b: &Vec<u8>)
    ensures
        final(out)@ == old(out)@ + b@,
{
    let ghost start = out@;
    let mut i: usize = 0;
    while i < b.len()
        invariant
            i <= b@.len(),
            out@ == start + b@.subrange(0, i as int),
        decreases b@.len() - i,
    {
        out.push(b[i]);
        i = i + 1;
        assert(out@ =~= start + b@.subrange(0, i as int));
    }
    assert(b@.subrange(0, b@.len() as int) =~= b@);
}

/// The canonical encoding of a list of entries.
fn encode(s: &Vec<(Vec<u8>, Vec<u8>)>) -> (r: Vec<u8>)
    ensures
        r@ == encode_entries(entries_view(s@)),
{
    let mut out: Vec<u8> = Vec::new();
    let mut i: usize = 0;
    while i < s.len()
        invariant
            i <= s@.len(),
            out@ == encode_entries(entries_view(s@).take(i as int)),
        decreases s@.len() - i,
    {
        let ghost before = entries_view(s@).take(i as int);
        push_u64(&mut out, s[i].0.len() as u64);
        push_bytes(&mut out, &s[i].0);
        push_u64(&mut out, s[i].1.len() as u64);
        push_bytes(&mut out, &s[i].1);
        i = i + 1;
        proof {
            let now = entries_view(s@).take(i as int);
            assert(now.drop_last() =~= before);
            assert(now.last() == (s@[i - 1].0@, s@[i - 1].1@));
            assert(out@ =~= encode_entries(before) + encode_entry(now.last()));
        }
    }
    assert(entries_view(s@).take(s@.len() as int) =~= entries_view(s@));
    out
}

/// The root of a list of entries.
pub fn compute_root(s: &Vec<(Vec<u8>, Vec<u8>)>) -> (r: Vec<u8>)
    ensures
        r@ == state_root(entries_view(s@)),
{
    let bytes = encode(s);
    sha512(&bytes)
}

/// The entries of `s` whose key starts with `prefix`, in order; all of them for `None`.
pub open spec fn filter_prefix(s: Seq<EntryView>, prefix: Option<Seq<u8>>) -> Seq<EntryView>
    decreases s.len(),
{
    if s.len() == 0 {
        Seq::empty()
    } else {
        let rest = filter_prefix(s.drop_last(), prefix);
        if prefix is None || has_prefix(s.last().0, prefix.unwrap()) {
            rest.push(s.last())
        } else {
            rest
        }
    }
}

/// The roots named in a list.
pub open spec fn root_set(roots: Seq<Vec<u8>>) -> Set<Seq<u8>> {
    Set::new(|r: Seq<u8>| exists|i: int| 0 <= i < roots.len() && #[trigger] roots[i]@ == r)
}

/// The snapshots that pruning `roots` takes out of use: all named ones but the head.
pub open spec fn prune_targets(live: Map<Seq<u8>, Seq<EntryView>>, head: Seq<u8>, roots: Set<Seq<u8>>) -> Set<Seq<u8>> {
    roots.intersect(live.dom()).remove(head)
}

/// A store failure.
#[derive(Debug, Clone, Copy, PartialEq, Eq, Structural)]
pub enum StoreError {
    /// The root named is not a retained snapshot of this store.
    UnknownRoot,
}

struct Tree {
    root: Vec<u8>,
    entries: Vec<(Vec<u8>, Vec<u8>)>,
}

/// An in-memory state store for one circuit-service.
///
/// Its observable state: the retained snapshots by root (`live`), the current root (`head`,
/// always retained), and the roots of pruned snapshots whose storage is not yet reclaimed.
pub struct MerkleState {
    trees: Vec<Tree>,
    head: usize,
    pending: Vec<Tree>,
    live: Ghost<Map<Seq<u8>, Seq<EntryView>>>,
}

impl MerkleState {
    pub closed spec fn live(&self) -> Map<Seq<u8>, Seq<EntryView>> {
        self.live@
    }

    pub closed spec fn head(&self) -> Seq<u8> {
        self.trees@[self.head as int].root@
    }

    pub closed spec fn reclaimable(&self) -> Set<Seq<u8>> {
        Set::new(
            |r: Seq<u8>|
                exists|j: int| 0 <= j < self.pending@.len() && #[trigger] self.pending@[j].root@ == r,
        )
    }

    /// The contents of the current snapshot.
    pub open spec fn current(&self) -> Seq<EntryView> {
        self.live()[self.head()]
    }

    pub closed spec fn wf(&self) -> bool {
        &&& self.head < self.trees@.len()
        &&& forall|i: int|
            0 <= i < self.trees@.len() ==> {
                let t = #[trigger] self.trees@[i];
                &&& sorted(entries_view(t.entries@))
                &&& t.root@ == state_root(entries_view(t.entries@))
                &&& self.live@.contains_key(t.root@)
                &&& self.live@[t.root@] == entries_view(t.entries@)
            }
        &&& forall|r: Seq<u8>|
            #[trigger] self.live@.contains_key(r) ==> exists|i: int|
                0 <= i < self.trees@.len() && #[trigger] self.trees@[i].root@ == r
        &&& forall|i: int, j: int|
            0 <= i < j < self.trees@.len() ==> #[trigger] self.trees@[i].root@
                != #[trigger] self.trees@[j].root@
    }

    /// Facts that hold of every well-formed store.
    pub proof fn lemma_wf(&self)
        requires
            self.wf(),
        ensures
            self.live().contains_key(self.head()),
            self.head() == state_root(self.current()),
            forall|r: Seq<u8>| #[trigger]
                self.live().contains_key(r) ==> sorted(self.live()[r]) && r == state_root(
                    self.live()[r],
                ),
    {
        let t = self.trees@[self.head as int];
        assert forall|r: Seq<u8>| #[trigger] self.live().contains_key(r) implies sorted(
            self.live()[r],
        ) && r == state_root(self.live()[r]) by {
            let i = choose|i: int| 0 <= i < self.trees@.len() && #[trigger] self.trees@[i].root@ == r;
            assert(self.trees@[i].root@ == r);
        }
    }

    /// A store that holds only the empty snapshot.
    pub fn new() -> (s: Self)
        ensures
            s.wf(),
            s.head() == state_root(Seq::empty()),
            s.live() == Map::<Seq<u8>, Seq<EntryView>>::empty().insert(
                state_root(Seq::empty()),
                Seq::<EntryView>::empty(),
            ),
            s.reclaimable() == Set::<Seq<u8>>::empty(),
    {
        let entries: Vec<(Vec<u8>, Vec<u8>)> = Vec::new();
        assert(entries_view(entries@) =~= Seq::<EntryView>::empty());
        let root = compute_root(&entries);
        let ghost live = Map::<Seq<u8>, Seq<EntryView>>::empty().insert(root@, Seq::<EntryView>::empty());
        let mut trees: Vec<Tree> = Vec::new();
        trees.push(Tree { root, entries });
        let s = MerkleState { trees, head: 0, pending: Vec::new(), live: Ghost(live) };
        assert(s.trees@[0].root@ == root@);
        assert forall|r: Seq<u8>| #[trigger] s.live@.contains_key(r) implies exists|i: int|
            0 <= i < s.trees@.len() && #[trigger] s.trees@[i].root@ == r by {
            assert(s.trees@[0].root@ == r);
        }
        assert(s.wf());
        assert(s.reclaimable() =~= Set::<Seq<u8>>::empty());
        s
    }

    /// The index of the retained snapshot named `root`, if it is one.
    fn find(&self, root: &Vec<u8>) -> (r: Option<usize>)
        requires
            self.wf(),
        ensures
            r matches Some(i) ==> i < self.trees@.len() && self.trees@[i as int].root@ == root@,
            r is None <==> !self.live().contains_key(root@),
    {
        let mut i: usize = 0;
        while i < self.trees.len()
            invariant
                self.wf(),
                i <= self.trees@.len(),
                forall|j: int| 0 <= j < i ==> #[trigger] self.trees@[j].root@ != root@,
            decreases self.trees@.len() - i,
        {
            if bytes_equal(&self.trees[i].root, root) {
                assert(self.trees@[i as int].root@ == root@);
                return Some(i);
            }
            i = i + 1;
        }
        proof {
            if self.live().contains_key(root@) {
                let r = root@;
                assert(self.live@.contains_key(r));
            }
        }
        None
    }

    /// The current root.
    pub fn get_state_root(&self) -> (r: Vec<u8>)
        requires
            self.wf(),
        ensures
            r@ == self.head(),
    {
        copy_bytes(&self.trees[self.head].root)
    }

    /// Whether the store holds any state: its current snapshot is not empty.
    pub fn has_tree(&self) -> (r: bool)
        requires
            self.wf(),
        ensures
            r == (self.current().len() > 0),
    {
        proof {
            self.lemma_wf();
        }
        self.trees[self.head].entries.len() > 0
    }

    /// Applies `changes` to the snapshot named `base_root`; the snapshot that results is
    /// retained, becomes the head, and its root is returned.
    pub fn commit(&mut self, base_root: &Vec<u8>, changes: &Vec<StateChange>) -> (r: Result<
        Vec<u8>,
        StoreError,
    >)
        requires
            old(self).wf(),
        ensures
            final(self).wf(),
            final(self).reclaimable() == old(self).reclaimable(),
            !old(self).live().contains_key(base_root@) ==> r == Err::<Vec<u8>, StoreError>(
                StoreError::UnknownRoot,
            ) && final(self).live() == old(self).live() && final(self).head() == old(self).head(),
            old(self).live().contains_key(base_root@) ==> r is Ok,
            r matches Ok(root) ==> {
                &&& applies(old(self).live()[base_root@], changes@, final(self).live()[root@])
                &&& root@ == state_root(final(self).live()[root@])
                &&& final(self).live() == old(self).live().insert(root@, final(self).live()[root@])
                &&& final(self).head() == root@
            },
    {
        let base = match self.find(base_root) {
            Some(i) => i,
            None => return Err(StoreError::UnknownRoot),
        };
        proof {
            self.lemma_wf();
        }
        let entries = apply_changes(&self.trees[base].entries, changes);
        let root = compute_root(&entries);
        let ghost ev = entries_view(entries@);
        let ghost old_self = *self;
        let tree = Tree { root: copy_bytes(&root), entries };
        match self.find(&root) {
            Some(j) => {
                self.trees.set(j, tree);
                self.head = j;
            },
            None => {
                self.trees.push(tree);
                self.head = self.trees.len() - 1;
            },
        }
        self.live = Ghost(self.live@.insert(root@, ev));
        proof {
            let n = self.trees@.len();
            assert(self.trees@[self.head as int].root@ == root@);
            assert forall|i: int| 0 <= i < n && i != self.head implies #[trigger] self.trees@[i]
                == old_self.trees@[i] by {}
            assert forall|r: Seq<u8>| #[trigger] self.live@.contains_key(r) implies exists|i: int|
                0 <= i < self.trees@.len() && #[trigger] self.trees@[i].root@ == r by {
                if r != root@ {
                    let i = choose|i: int|
                        0 <= i < old_self.trees@.len() && #[trigger] old_self.trees@[i].root@ == r;
                    assert(self.trees@[i] == old_self.trees@[i]);
                } else {
                    assert(self.trees@[self.head as int].root@ == r);
                }
            }
            assert(self.wf());
            assert(self.live@[root@] == ev);
        }
        Ok(root)
    }

    /// Takes the named snapshots out of use, all but the head, and keeps their storage
    /// until `remove_pruned_entries`. Unknown or already pruned roots are passed over.
    pub fn prune(&mut self, roots: &Vec<Vec<u8>>)
        requires
            old(self).wf(),
        ensures
            final(self).wf(),
            final(self).head() == old(self).head(),
            final(self).live() == old(self).live().remove_keys(
                prune_targets(old(self).live(), old(self).head(), root_set(roots@)),
            ),
            final(self).reclaimable() == old(self).reclaimable().union(
                prune_targets(old(self).live(), old(self).head(), root_set(roots@)),
            ),
    {
        let ghost l0 = self.live@;
        let ghost c0 = self.reclaimable();
        let ghost h = self.head();
        let mut k: usize = 0;
        while k < roots.len()
            invariant
                self.wf(),
                k <= roots@.len(),
                self.head() == h,
                self.live() == l0.remove_keys(prune_targets(l0, h, root_set(roots@.take(k as int)))),
                self.reclaimable() == c0.union(prune_targets(l0, h, root_set(roots@.take(k as int)))),
            decreases roots@.len() - k,
        {
            let ghost before = *self;
            proof {
                assert(root_set(roots@.take(k + 1)) =~= root_set(roots@.take(k as int)).insert(
                    roots@[k as int]@,
                )) by {
                    assert forall|r: Seq<u8>| #[trigger] root_set(roots@.take(k + 1)).contains(r)
                        implies root_set(roots@.take(k as int)).insert(roots@[k as int]@).contains(
                        r,
                    ) by {
                        let i = choose|i: int|
                            0 <= i < roots@.take(k + 1).len() && #[trigger] roots@.take(k + 1)[i]@
                                == r;
                        if i < k {
                            assert(roots@.take(k as int)[i] == roots@.take(k + 1)[i]);
                        }
                    }
                    assert forall|r: Seq<u8>| #[trigger] root_set(roots@.take(k as int)).insert(
                        roots@[k as int]@,
                    ).contains(r) implies root_set(roots@.take(k + 1)).contains(r) by {
                        if r == roots@[k as int]@ {
                            assert(roots@.take(k + 1)[k as int]@ == r);
                        } else {
                            let i = choose|i: int|
                                0 <= i < roots@.take(k as int).len()
                                    && #[trigger] roots@.take(k as int)[i]@ == r;
                            assert(roots@.take(k + 1)[i] == roots@.take(k as int)[i]);
                        }
                    }
                }
            }
            match self.find(&roots[k]) {
                Some(i) => {
                    if i != self.head {
                        let t = self.trees.remove(i);
                        if i < self.head {
                            self.head = self.head - 1;
                        }
                        self.pending.push(t);
                        let ghost r = roots@[k as int]@;
                        self.live = Ghost(self.live@.remove(r));
                        proof {
                            let n = before.trees@.len();
                            assert forall|j: int| 0 <= j < self.trees@.len() implies #[trigger] self.trees@[j]
                                == before.trees@[if j < i { j } else { j + 1 }] by {}
                            assert forall|q: Seq<u8>| #[trigger] self.live@.contains_key(q) implies exists|j: int|
                                0 <= j < self.trees@.len() && #[trigger] self.trees@[j].root@ == q by {
                                let j = choose|j: int|
                                    0 <= j < before.trees@.len() && #[trigger] before.trees@[j].root@ == q;
                                assert(j != i);
                                if j < i {
                                    assert(self.trees@[j] == before.trees@[j]);
                                } else {
                                    assert(self.trees@[j - 1] == before.trees@[j]);
                                }
                            }
                            assert forall|a: int, b: int| 0 <= a < b < self.trees@.len() implies #[trigger] self.trees@[a].root@
                                != #[trigger] self.trees@[b].root@ by {
                                let a2 = if a < i { a } else { a + 1 };
                                let b2 = if b < i { b } else { b + 1 };
                                assert(self.trees@[a] == before.trees@[a2]);
                                assert(self.trees@[b] == before.trees@[b2]);
                            }
                            assert forall|j: int| 0 <= j < self.trees@.len() implies {
                                let t = #[trigger] self.trees@[j];
                                &&& self.live@.contains_key(t.root@)
                                &&& self.live@[t.root@] == entries_view(t.entries@)
                            } by {
                                let j2 = if j < i { j } else { j + 1 };
                                assert(self.trees@[j] == before.trees@[j2]);
                                assert(before.trees@[j2].root@ != before.trees@[i as int].root@);
                            }
                            assert(self.wf());
                            assert(self.reclaimable() =~= before.reclaimable().insert(r)) by {
                                assert forall|q: Seq<u8>| #[trigger] self.reclaimable().contains(q)
                                    implies before.reclaimable().insert(r).contains(q) by {
                                    let j = choose|j: int| 0 <= j < self.pending@.len() && #[trigger] self.pending@[j].root@ == q;
                                    if j < before.pending@.len() {
                                        assert(self.pending@[j] == before.pending@[j]);
                                    }
                                }
                                assert forall|q: Seq<u8>| #[trigger] before.reclaimable().insert(r).contains(q)
                                    implies self.reclaimable().contains(q) by {
                                    if q == r {
                                        assert(self.pending@[before.pending@.len() as int].root@ == q);
                                    } else {
                                        let j = choose|j: int| 0 <= j < before.pending@.len() && #[trigger] before.pending@[j].root@ == q;
                                        assert(self.pending@[j] == before.pending@[j]);
                                    }
                                }
                            }
                        }
                    }
                },
                None => {},
            }
            k = k + 1;
            proof {
                let ts = prune_targets(l0, h, root_set(roots@.take(k as int)));
                assert(self.live() =~= l0.remove_keys(ts));
                assert(self.reclaimable() =~= c0.union(ts));
            }
        }
        assert(roots@.take(roots@.len() as int) =~= roots@);
    }

    /// Frees the storage of every pruned snapshot.
    pub fn remove_pruned_entries(&mut self)
        requires
            old(self).wf(),
        ensures
            final(self).wf(),
            final(self).head() == old(self).head(),
            final(self).live() == old(self).live(),
            final(self).reclaimable() == Set::<Seq<u8>>::empty(),
    {
        let ghost before = *self;
        self.pending = Vec::new();
        assert(self.trees@ == before.trees@);
        assert(forall|i: int| 0 <= i < self.trees@.len() ==> #[trigger] self.trees@[i] == before.trees@[i]);
        assert(self.reclaimable() =~= Set::<Seq<u8>>::empty());
    }

    /// The entries of the snapshot named `root` whose key starts with `prefix` (all of them
    /// for `None`), in key order.
    pub fn filter_iter(&self, root: &Vec<u8>, prefix: Option<&Vec<u8>>) -> (r: Result<
        Vec<(Vec<u8>, Vec<u8>)>,
        StoreError,
    >)
        requires
            self.wf(),
        ensures
            !self.live().contains_key(root@) ==> r == Err::<Vec<(Vec<u8>, Vec<u8>)>, StoreError>(
                StoreError::UnknownRoot,
            ),
            self.live().contains_key(root@) ==> r is Ok,
            r matches Ok(v) ==> entries_view(v@) == filter_prefix(
                self.live()[root@],
                match prefix {
                    Some(p) => Some(p@),
                    None => None,
                },
            ),
    {
        let i = match self.find(root) {
            Some(i) => i,
            None => return Err(StoreError::UnknownRoot),
        };
        let s = &self.trees[i].entries;
        let ghost p = match prefix {
            Some(p) => Some(p@),
            None => None::<Seq<u8>>,
        };
        let mut out: Vec<(Vec<u8>, Vec<u8>)> = Vec::new();
        let mut j: usize = 0;
        while j < s.len()
            invariant
                j <= s@.len(),
                p == match prefix {
                    Some(p) => Some(p@),
                    None => None::<Seq<u8>>,
                },
                entries_view(out@) == filter_prefix(entries_view(s@).take(j as int), p),
            decreases s@.len() - j,
        {
            let ghost before = entries_view(s@).take(j as int);
            let keep = match prefix {
                Some(pre) => starts_with(&s[j].0, pre),
                None => true,
            };
            let ghost prev = entries_view(out@);
            assert(keep == (p is None || has_prefix(s@[j as int].0@, p.unwrap())));
            if keep {
                out.push(copy_entry(&s[j]));
                assert(entries_view(out@) =~= prev.push((s@[j as int].0@, s@[j as int].1@)));
            }
            j = j + 1;
            proof {
                let now = entries_view(s@).take(j as int);
                assert(now.drop_last() =~= before);
                assert(now.last() == (s@[j - 1].0@, s@[j - 1].1@));
            }
        }
        assert(entries_view(s@).take(s@.len() as int) =~= entries_view(s@));
        Ok(out)
    }

    /// Removes all state: the store holds only the empty snapshot afterwards.
    pub fn delete_tree(&mut self)
        ensures
            final(self).wf(),
            final(self).head() == state_root(Seq::empty()),
            final(self).live() == Map::<Seq<u8>, Seq<EntryView>>::empty().insert(
                state_root(Seq::empty()),
                Seq::<EntryView>::empty(),
            ),
            final(self).reclaimable() == Set::<Seq<u8>>::empty(),
    {
        *self = MerkleState::new();
    }
}

/// Committing an empty batch onto a retained snapshot gives back that snapshot, under its
/// own root.
pub proof fn lemma_empty_commit_keeps_root(store: MerkleState, base: Seq<u8>, after: Seq<EntryView>)
    requires
        store.wf(),
        store.live().contains_key(base),
        applies(store.live()[base], Seq::empty(), after),
    ensures
        after == store.live()[base],
        state_root(after) == base,
{
    store.lemma_wf();
    assert forall|k: Seq<u8>| #[trigger] lookup(after, k) == lookup(store.live()[base], k) by {}
    lemma_sorted_unique(after, store.live()[base]);
}

/// Pruning the same roots a second time changes nothing: no snapshot is retained or
/// released that the first pruning did not already settle.
pub proof fn lemma_prune_idempotent(
    live: Map<Seq<u8>, Seq<EntryView>>,
    reclaimable: Set<Seq<u8>>,
    head: Seq<u8>,
    roots: Set<Seq<u8>>,
)
    ensures
        ({
            let t1 = prune_targets(live, head, roots);
            let live1 = live.remove_keys(t1);
            let t2 = prune_targets(live1, head, roots);
            &&& live1.remove_keys(t2) == live1
            &&& reclaimable.union(t1).union(t2) == reclaimable.union(t1)
        }),
{
    let t1 = prune_targets(live, head, roots);
    let live1 = live.remove_keys(t1);
    let t2 = prune_targets(live1, head, roots);
    assert(t2 =~= Set::<Seq<u8>>::empty());
    assert(live1.remove_keys(t2) =~= live1);
    assert(reclaimable.union(t1).union(t2) =~= reclaimable.union(t1));
}

} // verus!
