//! Moving the current state of one circuit-service from one store to another.
use vstd::prelude::*;

use crate::entries::{
    applies, changes_lookup, entries_view, lemma_sorted_unique, lookup, sorted, EntryView,
    StateChange,
};
use crate::keys::copy_bytes;
use crate::merkle::{compute_root, filter_prefix, prune_targets, root_set, state_root, MerkleState, StoreError};

verus! {

/// How many entries one commit of a migration carries.
pub const CHUNK_SIZE: usize = 1000;

/// Why a migration failed.
#[derive(Debug, Clone, Copy, PartialEq, Eq, Structural)]
pub enum MigrationError {
    /// A store operation failed.
    Storage(StoreError),
    /// The migrated state does not have the expected root.
    HashMismatch,
    /// The destination already holds state and no override was given.
    Conflict,
    /// No root is recorded for the service's current state.
    MissingCommitHash,
}

/// `after` holds what `entries` hold, and what `start` holds under every other key.
pub open spec fn overlays(start: Seq<EntryView>, entries: Seq<EntryView>, after: Seq<EntryView>) -> bool {
    &&& sorted(after)
    &&& forall|k: Seq<u8>| #[trigger] lookup(after, k) == if lookup(entries, k) is Some {
        lookup(entries, k)
    } else {
        lookup(start, k)
    }
}

/// `cs` puts the entries of `f`, one change per entry, in order.
pub open spec fn puts_of(cs: Seq<StateChange>, f: Seq<EntryView>) -> bool {
    &&& cs.len() == f.len()
    &&& forall|i: int|
        0 <= i < cs.len() ==> #[trigger] cs[i].key_spec() == f[i].0 && cs[i].value_spec() == Some(
            f[i].1,
        )
}

/// A lookup in a concatenation finds the later list's entry first.
pub proof fn lemma_lookup_concat(x: Seq<EntryView>, y: Seq<EntryView>, k: Seq<u8>)
    ensures
        lookup(x + y, k) == if lookup(y, k) is Some {
            lookup(y, k)
        } else {
            lookup(x, k)
        },
    decreases y.len(),
{
    if y.len() == 0 {
        assert(x + y =~= x);
    } else {
        assert((x + y).drop_last() =~= x + y.drop_last());
        assert((x + y).last() == y.last());
        lemma_lookup_concat(x, y.drop_last(), k);
    }
}

proof fn lemma_puts_lookup(cs: Seq<StateChange>, f: Seq<EntryView>, k: Seq<u8>, p: Option<Seq<u8>>)
    requires
        puts_of(cs, f),
    ensures
        changes_lookup(cs, k, p) == if lookup(f, k) is Some {
            lookup(f, k)
        } else {
            p
        },
    decreases cs.len(),
{
    if cs.len() > 0 {
        let n = cs.len() - 1;
        assert(cs[n].key_spec() == f[n].0);
        assert(puts_of(cs.drop_last(), f.drop_last())) by {
            assert forall|i: int| 0 <= i < cs.drop_last().len() implies #[trigger] cs.drop_last()[i].key_spec()
                == f.drop_last()[i].0 && cs.drop_last()[i].value_spec() == Some(f.drop_last()[i].1) by {
                assert(cs.drop_last()[i] == cs[i]);
            }
        }
        lemma_puts_lookup(cs.drop_last(), f.drop_last(), k, p);
    }
}

/// Commits `changes` onto `state_id`, then prunes `state_id` and reclaims its storage: only the
/// new snapshot is kept.
pub fn write_and_prune_with_cleanup(
    store: &mut MerkleState,
    state_id: &Vec<u8>,
    changes: &Vec<StateChange>,
) -> (r: Result<Vec<u8>, StoreError>)
    requires
        old(store).wf(),
    ensures
        final(store).wf(),
        final(store).reclaimable() == Set::<Seq<u8>>::empty() || r is Err,
        r is Err ==> final(store).reclaimable() == old(store).reclaimable(),
        !old(store).live().contains_key(state_id@) ==> r == Err::<Vec<u8>, StoreError>(
            StoreError::UnknownRoot,
        ) && final(store).live() == old(store).live() && final(store).head() == old(store).head(),
        old(store).live().contains_key(state_id@) ==> r is Ok,
        r matches Ok(root) ==> {
            let mid = old(store).live().insert(root@, final(store).current());
            &&& applies(old(store).live()[state_id@], changes@, final(store).current())
            &&& final(store).head() == root@
            &&& final(store).live() == mid.remove_keys(prune_targets(mid, root@, set![state_id@]))
        },
{
    let next = match store.commit(state_id, changes) {
        Ok(root) => root,
        Err(e) => return Err(e),
    };
    let ghost mid = store.live();
    let mut roots: Vec<Vec<u8>> = Vec::new();
    roots.push(copy_bytes(state_id));
    assert(root_set(roots@) =~= set![state_id@]) by {
        assert(roots@[0]@ == state_id@);
    }
    store.prune(&roots);
    store.remove_pruned_entries();
    proof {
        store.lemma_wf();
        assert(store.live().contains_key(next@));
    }
    Ok(next)
}

/// Every snapshot `after` retains is its head, or one `before` retained other than its head:
/// the roots in between are gone.
pub open spec fn keeps_only_final(
    before: Map<Seq<u8>, Seq<EntryView>>,
    before_head: Seq<u8>,
    after: Map<Seq<u8>, Seq<EntryView>>,
    after_head: Seq<u8>,
) -> bool {
    forall|q: Seq<u8>|
        #[trigger] after.contains_key(q) ==> q == after_head || (before.contains_key(q) && q
            != before_head)
}

proof fn lemma_keeps_only_final_step(
    base: Map<Seq<u8>, Seq<EntryView>>,
    base_head: Seq<u8>,
    prev: Map<Seq<u8>, Seq<EntryView>>,
    prev_head: Seq<u8>,
    root: Seq<u8>,
    cur: Seq<EntryView>,
    fin: Map<Seq<u8>, Seq<EntryView>>,
)
    requires
        keeps_only_final(base, base_head, prev, prev_head),
        fin == prev.insert(root, cur).remove_keys(
            prune_targets(prev.insert(root, cur), root, set![prev_head]),
        ),
    ensures
        keeps_only_final(base, base_head, fin, root),
{
    let mid = prev.insert(root, cur);
    assert forall|q: Seq<u8>| #[trigger] fin.contains_key(q) implies q == root || (base.contains_key(
        q,
    ) && q != base_head) by {
        assert(mid.contains_key(q));
        assert(!prune_targets(mid, root, set![prev_head]).contains(q));
        if q != root {
            assert(prev.contains_key(q));
            assert(q != prev_head);
        }
    }
}

/// Commits `entries` onto the destination's current state in batches of `chunk_size`, keeping
/// only the final snapshot, and checks that its root is `expected_root`.
pub fn copy_entries_chunked(
    entries: &Vec<(Vec<u8>, Vec<u8>)>,
    expected_root: &Vec<u8>,
    dest: &mut MerkleState,
    chunk_size: usize,
) -> (r: Result<(), MigrationError>)
    requires
        old(dest).wf(),
        chunk_size > 0,
    ensures
        final(dest).wf(),
        overlays(old(dest).current(), entries_view(entries@), final(dest).current()),
        final(dest).head() == state_root(final(dest).current()),
        keeps_only_final(old(dest).live(), old(dest).head(), final(dest).live(), final(dest).head()),
        r is Ok <==> final(dest).head() == expected_root@,
        r is Err ==> r == Err::<(), MigrationError>(MigrationError::HashMismatch),
{
    let ghost start = dest.current();
    let ghost d0 = dest.live();
    let ghost h0 = dest.head();
    let ghost ev = entries_view(entries@);
    proof {
        dest.lemma_wf();
        assert forall|k: Seq<u8>| #[trigger] lookup(start, k) == if lookup(ev.take(0), k) is Some {
            lookup(ev.take(0), k)
        } else {
            lookup(start, k)
        } by {}
    }
    let mut last = dest.get_state_root();
    let mut batch: Vec<StateChange> = Vec::new();
    let ghost mut a: int = 0;
    let mut i: usize = 0;
    while i < entries.len()
        invariant
            dest.wf(),
            0 <= a <= i <= entries@.len(),
            ev == entries_view(entries@),
            i - a < chunk_size,
            last@ == dest.head(),
            puts_of(batch@, ev.subrange(a, i as int)),
            overlays(start, ev.take(a), dest.current()),
            keeps_only_final(d0, h0, dest.live(), dest.head()),
        decreases entries@.len() - i,
    {
        let change = StateChange::Put {
            key: copy_bytes(&entries[i].0),
            value: copy_bytes(&entries[i].1),
        };
        assert(change.key_spec() == ev[i as int].0 && change.value_spec() == Some(ev[i as int].1));
        let ghost old_batch = batch@;
        batch.push(change);
        i = i + 1;
        proof {
            assert forall|j: int| 0 <= j < batch@.len() implies #[trigger] batch@[j].key_spec()
                == ev.subrange(a, i as int)[j].0 && batch@[j].value_spec() == Some(
                ev.subrange(a, i as int)[j].1,
            ) by {
                if j < batch@.len() - 1 {
                    assert(batch@[j] == old_batch[j]);
                    assert(old_batch[j].key_spec() == ev.subrange(a, i - 1)[j].0);
                    assert(ev.subrange(a, i as int)[j] == ev.subrange(a, i - 1)[j]);
                } else {
                    assert(batch@[j] == change);
                }
            }
        }
        if batch.len() == chunk_size {
            let ghost cur = dest.current();
            let ghost prev_live = dest.live();
            let ghost prev_head = dest.head();
            proof {
                dest.lemma_wf();
            }
            let next = match write_and_prune_with_cleanup(dest, &last, &batch) {
                Ok(root) => root,
                Err(_) => {
                    assert(false);
                    return Err(MigrationError::HashMismatch);
                },
            };
            proof {
                lemma_keeps_only_final_step(d0, h0, prev_live, prev_head, next@, dest.current(), dest.live());
                let seg = ev.subrange(a, i as int);
                assert(ev.take(i as int) =~= ev.take(a) + seg);
                assert forall|k: Seq<u8>| #[trigger] lookup(dest.current(), k) == if lookup(
                    ev.take(i as int),
                    k,
                ) is Some {
                    lookup(ev.take(i as int), k)
                } else {
                    lookup(start, k)
                } by {
                    lemma_puts_lookup(batch@, seg, k, lookup(cur, k));
                    lemma_lookup_concat(ev.take(a), seg, k);
                }
                a = i as int;
            }
            last = next;
            batch = Vec::new();
            assert(puts_of(batch@, ev.subrange(a, i as int)));
        }
    }
    let ghost cur = dest.current();
    let ghost prev_live = dest.live();
    let ghost prev_head = dest.head();
    proof {
        dest.lemma_wf();
    }
    let next = match write_and_prune_with_cleanup(dest, &last, &batch) {
        Ok(root) => root,
        Err(_) => {
            assert(false);
            return Err(MigrationError::HashMismatch);
        },
    };
    proof {
        lemma_keeps_only_final_step(d0, h0, prev_live, prev_head, next@, dest.current(), dest.live());
        let seg = ev.subrange(a, i as int);
        assert(ev.take(i as int) =~= ev.take(a) + seg);
        assert(ev.take(i as int) =~= ev);
        assert forall|k: Seq<u8>| #[trigger] lookup(dest.current(), k) == if lookup(ev, k) is Some {
            lookup(ev, k)
        } else {
            lookup(start, k)
        } by {
            lemma_puts_lookup(batch@, seg, k, lookup(cur, k));
            lemma_lookup_concat(ev.take(a), seg, k);
        }
        dest.lemma_wf();
    }
    if crate::keys::bytes_equal(&next, expected_root) {
        Ok(())
    } else {
        Err(MigrationError::HashMismatch)
    }
}

/// Commits `entries` onto the destination in batches of `CHUNK_SIZE` and checks the root.
pub fn copy_entries(
    entries: &Vec<(Vec<u8>, Vec<u8>)>,
    expected_root: &Vec<u8>,
    dest: &mut MerkleState,
) -> (r: Result<(), MigrationError>)
    requires
        old(dest).wf(),
    ensures
        final(dest).wf(),
        overlays(old(dest).current(), entries_view(entries@), final(dest).current()),
        final(dest).head() == state_root(final(dest).current()),
        keeps_only_final(old(dest).live(), old(dest).head(), final(dest).live(), final(dest).head()),
        r is Ok <==> final(dest).head() == expected_root@,
        r is Err ==> r == Err::<(), MigrationError>(MigrationError::HashMismatch),
{
    copy_entries_chunked(entries, expected_root, dest, CHUNK_SIZE)
}

proof fn lemma_filter_all(s: Seq<EntryView>)
    ensures
        filter_prefix(s, None) == s,
    decreases s.len(),
{
    if s.len() > 0 {
        lemma_filter_all(s.drop_last());
        assert(s.drop_last().push(s.last()) =~= s);
    }
}

/// Overlaying sorted entries on an empty state gives exactly those entries.
proof fn lemma_overlay_on_empty(start: Seq<EntryView>, entries: Seq<EntryView>, after: Seq<EntryView>)
    requires
        start.len() == 0,
        sorted(entries),
        overlays(start, entries, after),
    ensures
        after == entries,
{
    assert forall|k: Seq<u8>| #[trigger] lookup(after, k) == lookup(entries, k) by {}
    lemma_sorted_unique(after, entries);
}

/// The state a migration leaves does not depend on how its entries were split into
/// batches: two results that overlay the same entries on the same state are the same
/// snapshot, with the same root.
pub proof fn lemma_chunking_transparent(
    start: Seq<EntryView>,
    entries: Seq<EntryView>,
    a: Seq<EntryView>,
    b: Seq<EntryView>,
)
    requires
        overlays(start, entries, a),
        overlays(start, entries, b),
    ensures
        a == b,
        state_root(a) == state_root(b),
{
    assert forall|k: Seq<u8>| #[trigger] lookup(a, k) == lookup(b, k) by {}
    lemma_sorted_unique(a, b);
}

/// Copies the snapshot named `expected_root` in `source` onto the destination's current
/// state and checks the root that results. Into an empty destination the copy is exact.
pub fn copy_state(
    source: &MerkleState,
    expected_root: &Vec<u8>,
    dest: &mut MerkleState,
) -> (r: Result<(), MigrationError>)
    requires
        source.wf(),
        old(dest).wf(),
    ensures
        final(dest).wf(),
        !source.live().contains_key(expected_root@) ==> r == Err::<(), MigrationError>(
            MigrationError::Storage(StoreError::UnknownRoot),
        ) && final(dest).live() == old(dest).live() && final(dest).head() == old(dest).head()
            && final(dest).reclaimable() == old(dest).reclaimable(),
        source.live().contains_key(expected_root@) ==> {
            &&& overlays(
                old(dest).current(),
                source.live()[expected_root@],
                final(dest).current(),
            )
            &&& (r is Ok <==> final(dest).head() == expected_root@)
            &&& (r is Err ==> r == Err::<(), MigrationError>(MigrationError::HashMismatch))
            &&& keeps_only_final(
                old(dest).live(),
                old(dest).head(),
                final(dest).live(),
                final(dest).head(),
            )
        },
        source.live().contains_key(expected_root@) && old(dest).current().len() == 0 ==> {
            &&& r is Ok
            &&& final(dest).current() == source.live()[expected_root@]
            &&& final(dest).head() == expected_root@
        },
{
    let entries = match source.filter_iter(expected_root, None) {
        Ok(v) => v,
        Err(e) => return Err(MigrationError::Storage(e)),
    };
    proof {
        lemma_filter_all(source.live()[expected_root@]);
        source.lemma_wf();
    }
    let ghost start = dest.current();
    let r = copy_entries(&entries, expected_root, dest);
    proof {
        if start.len() == 0 {
            lemma_overlay_on_empty(start, entries_view(entries@), dest.current());
        }
    }
    r
}

/// Copies `entries` onto the destination and checks that the result has root
/// `expected_root`; then deletes the source on success, or the destination on failure.
pub fn move_entries(
    entries: &Vec<(Vec<u8>, Vec<u8>)>,
    expected_root: &Vec<u8>,
    source: &mut MerkleState,
    dest: &mut MerkleState,
) -> (r: Result<(), MigrationError>)
    requires
        old(source).wf(),
        old(dest).wf(),
    ensures
        final(source).wf(),
        final(dest).wf(),
        r is Err ==> r == Err::<(), MigrationError>(MigrationError::HashMismatch),
        old(dest).current().len() == 0 && sorted(entries_view(entries@)) && state_root(
            entries_view(entries@),
        ) == expected_root@ ==> r is Ok,
        r is Ok ==> {
            &&& overlays(old(dest).current(), entries_view(entries@), final(dest).current())
            &&& final(dest).head() == expected_root@
            &&& keeps_only_final(old(dest).live(), old(dest).head(), final(dest).live(), final(dest).head())
            &&& final(source).current().len() == 0
            &&& final(source).live().dom() == set![final(source).head()]
        },
        r is Err ==> {
            &&& final(dest).current().len() == 0
            &&& final(dest).live().dom() == set![final(dest).head()]
            &&& final(source).live() == old(source).live()
            &&& final(source).head() == old(source).head()
            &&& final(source).reclaimable() == old(source).reclaimable()
        },
{
    let ghost start = dest.current();
    let r = copy_entries(entries, expected_root, dest);
    proof {
        if start.len() == 0 && sorted(entries_view(entries@)) {
            lemma_overlay_on_empty(start, entries_view(entries@), dest.current());
        }
    }
    match r {
        Ok(()) => source.delete_tree(),
        Err(_) => dest.delete_tree(),
    }
    proof {
        assert(Map::<Seq<u8>, Seq<EntryView>>::empty().insert(state_root(Seq::empty()), Seq::<EntryView>::empty()).dom()
            =~= set![state_root(Seq::<EntryView>::empty())]);
    }
    r
}

/// What a migration of the snapshot named `root` from `src` to `dst` leaves (`src2`, `dst2`)
/// and returns (`r`).
pub open spec fn migration_outcome(
    src: MerkleState,
    dst: MerkleState,
    root: Seq<u8>,
    force: bool,
    dry_run: bool,
    src2: MerkleState,
    dst2: MerkleState,
    r: Result<(), MigrationError>,
) -> bool {
    let refused = !force && dst.current().len() > 0;
    let known = src.live().contains_key(root);
    &&& src2.wf()
    &&& dst2.wf()
    &&& refused ==> r == Err::<(), MigrationError>(MigrationError::Conflict)
    &&& refused || dry_run || r is Err ==> {
        &&& src2.live() == src.live()
        &&& src2.head() == src.head()
        &&& src2.reclaimable() == src.reclaimable()
    }
    &&& refused || dry_run ==> {
        &&& dst2.live() == dst.live()
        &&& dst2.head() == dst.head()
        &&& dst2.reclaimable() == dst.reclaimable()
    }
    &&& !refused && !known ==> r == Err::<(), MigrationError>(
        MigrationError::Storage(StoreError::UnknownRoot),
    )
    &&& !refused && dry_run ==> (r is Ok <==> known)
    &&& !refused && !dry_run && known ==> {
        &&& (r is Err ==> r == Err::<(), MigrationError>(MigrationError::HashMismatch))
        &&& (r is Err ==> dst2.current().len() == 0 && dst2.live().dom() == set![dst2.head()])
        &&& (r is Ok ==> {
            &&& overlays(dst.current(), src.live()[root], dst2.current())
            &&& dst2.head() == root
            &&& keeps_only_final(dst.live(), dst.head(), dst2.live(), dst2.head())
            &&& src2.current().len() == 0
            &&& src2.live().dom() == set![src2.head()]
        })
    }
    &&& dst.current().len() == 0 && !dry_run && known ==> {
        &&& r is Ok
        &&& dst2.current() == src.live()[root]
        &&& dst2.head() == root
    }
}

/// Moves the snapshot named `expected_root` from `source` to `dest`.
///
/// Without `force` a destination that already holds state is refused before anything is
/// done. A dry run reads the snapshot and checks its root, and changes neither store.
/// Otherwise the snapshot is copied in batches; on success the source is deleted, on
/// failure the destination is.
pub fn migrate(
    source: &mut MerkleState,
    expected_root: &Vec<u8>,
    dest: &mut MerkleState,
    force: bool,
    dry_run: bool,
) -> (r: Result<(), MigrationError>)
    requires
        old(source).wf(),
        old(dest).wf(),
    ensures
        migration_outcome(
            *old(source),
            *old(dest),
            expected_root@,
            force,
            dry_run,
            *final(source),
            *final(dest),
            r,
        ),
{
    if !force && dest.has_tree() {
        return Err(MigrationError::Conflict);
    }
    let entries = match source.filter_iter(expected_root, None) {
        Ok(v) => v,
        Err(e) => return Err(MigrationError::Storage(e)),
    };
    proof {
        lemma_filter_all(source.live()[expected_root@]);
        source.lemma_wf();
        dest.lemma_wf();
    }
    if dry_run {
        let root = compute_root(&entries);
        if crate::keys::bytes_equal(&root, expected_root) {
            return Ok(());
        } else {
            return Err(MigrationError::HashMismatch);
        }
    }
    let ghost start = dest.current();
    let r = move_entries(&entries, expected_root, source, dest);
    proof {
        if start.len() == 0 && r is Ok {
            lemma_overlay_on_empty(start, entries_view(entries@), dest.current());
        }
    }
    r
}

/// One circuit-service whose state is to move: its ids, the root its state is at (if one is
/// recorded), and the stores it moves between.
pub struct ServiceMigration {
    pub circuit_id: String,
    pub service_id: String,
    pub commit_hash: Option<Vec<u8>>,
    pub source: MerkleState,
    pub dest: MerkleState,
}

/// The service's migration under these settings left `after` and returned `r`.
pub open spec fn service_outcome(
    before: ServiceMigration,
    force: bool,
    dry_run: bool,
    after: ServiceMigration,
    r: Result<(), MigrationError>,
) -> bool {
    &&& after.circuit_id == before.circuit_id
    &&& after.service_id == before.service_id
    &&& after.commit_hash == before.commit_hash
    &&& match before.commit_hash {
        None => r == Err::<(), MigrationError>(MigrationError::MissingCommitHash)
            && after.source == before.source && after.dest == before.dest,
        Some(hash) => migration_outcome(
            before.source,
            before.dest,
            hash@,
            force,
            dry_run,
            after.source,
            after.dest,
            r,
        ),
    }
}

/// The state migration command, with its override and dry-run settings.
pub struct StateMigrateAction {
    pub force: bool,
    pub dry_run: bool,
}

impl StateMigrateAction {
    /// Migrates the services one after another and stops at the first failure. Returns the
    /// services in their order, those after a failure untouched, and the failure if any.
    pub fn run(&self, services: Vec<ServiceMigration>) -> (r: (
        Vec<ServiceMigration>,
        Result<(), MigrationError>,
    ))
        requires
            forall|i: int|
                0 <= i < services@.len() ==> (#[trigger] services@[i]).source.wf()
                    && services@[i].dest.wf(),
        ensures
            r.0@.len() == services@.len(),
            r.1 is Ok ==> forall|i: int|
                0 <= i < services@.len() ==> service_outcome(
                    #[trigger] services@[i],
                    self.force,
                    self.dry_run,
                    r.0@[i],
                    Ok(()),
                ),
            r.1 is Err ==> exists|k: int|
                0 <= k < services@.len() && (forall|i: int|
                    0 <= i < k ==> service_outcome(
                        #[trigger] services@[i],
                        self.force,
                        self.dry_run,
                        r.0@[i],
                        Ok(()),
                    )) && service_outcome(services@[k], self.force, self.dry_run, r.0@[k], r.1)
                    && (forall|i: int| k < i < services@.len() ==> #[trigger] r.0@[i] == services@[i]),
    {
        let ghost orig = services@;
        let n = services.len();
        let mut rest = services;
        let mut stack: Vec<ServiceMigration> = Vec::new();
        while rest.len() > 0
            invariant
                rest@.len() + stack@.len() == n,
                n == orig.len(),
                rest@ == orig.take(rest@.len() as int),
                forall|j: int| 0 <= j < stack@.len() ==> #[trigger] stack@[j] == orig[n - 1 - j],
            decreases rest@.len(),
        {
            let svc = rest.pop().unwrap();
            stack.push(svc);
            assert(rest@ =~= orig.take(rest@.len() as int));
        }
        let mut done: Vec<ServiceMigration> = Vec::new();
        let mut result: Result<(), MigrationError> = Ok(());
        let ghost mut failed_at: int = -1;
        while stack.len() > 0
            invariant
                done@.len() + stack@.len() == n,
                n == orig.len(),
                forall|i: int|
                    0 <= i < n ==> (#[trigger] orig[i]).source.wf() && orig[i].dest.wf(),
                forall|j: int| 0 <= j < stack@.len() ==> #[trigger] stack@[j] == orig[n - 1 - j],
                result is Ok ==> failed_at == -1 && forall|i: int|
                    0 <= i < done@.len() ==> service_outcome(
                        #[trigger] orig[i],
                        self.force,
                        self.dry_run,
                        done@[i],
                        Ok(()),
                    ),
                result is Err ==> 0 <= failed_at < done@.len() && (forall|i: int|
                    0 <= i < failed_at ==> service_outcome(
                        #[trigger] orig[i],
                        self.force,
                        self.dry_run,
                        done@[i],
                        Ok(()),
                    )) && service_outcome(orig[failed_at], self.force, self.dry_run, done@[failed_at], result)
                    && (forall|i: int| failed_at < i < done@.len() ==> #[trigger] done@[i] == orig[i]),
            decreases stack@.len(),
        {
            let ghost k = done@.len() as int;
            let mut svc = stack.pop().unwrap();
            assert(svc == orig[k]);
            let ghost prev = done@;
            if result.is_ok() {
                let r = match &svc.commit_hash {
                    Some(hash) => migrate(&mut svc.source, hash, &mut svc.dest, self.force, self.dry_run),
                    None => Err(MigrationError::MissingCommitHash),
                };
                if r.is_err() {
                    proof {
                        failed_at = k;
                    }
                }
                result = r;
            }
            done.push(svc);
            proof {
                assert forall|i: int| 0 <= i < k implies #[trigger] done@[i] == prev[i] by {}
            }
        }
        (done, result)
    }
}

} // verus!
