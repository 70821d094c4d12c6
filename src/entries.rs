//! Sorted key/value lists (the contents of one state snapshot) and batches of changes on them.
use vstd::prelude::*;

use crate::keys::{
    bytes_equal, copy_bytes, key_less, key_lt, lemma_key_lt_irreflexive, lemma_key_lt_total,
    lemma_key_lt_transitive,
};

verus! {

/// One key/value pair of a snapshot, in its mathematical form.
pub type EntryView = (Seq<u8>, Seq<u8>);

/// One change to the state: put a value under a key, or remove a key.
#[derive(Debug)]
pub enum StateChange {
    Put { key: Vec<u8>, value: Vec<u8> },
    Delete { key: Vec<u8> },
}

impl StateChange {
    pub open spec fn key_spec(&self) -> Seq<u8> {
        match self {
            StateChange::Put { key, .. } => key@,
            StateChange::Delete { key } => key@,
        }
    }

    /// What the change leaves under its key: the value set, or nothing.
    pub open spec fn value_spec(&self) -> Option<Seq<u8>> {
        match self {
            StateChange::Put { value, .. } => Some(value@),
            StateChange::Delete { .. } => None,
        }
    }
}

/// A change in its mathematical form: the key, and what is left under it.
pub type ChangeView = (Seq<u8>, Option<Seq<u8>>);

pub open spec fn change_views(cs: Seq<StateChange>) -> Seq<ChangeView> {
    Seq::new(cs.len(), |i: int| (cs[i].key_spec(), cs[i].value_spec()))
}

/// The mathematical form of a list of entries.
pub open spec fn entries_view(v: Seq<(Vec<u8>, Vec<u8>)>) -> Seq<EntryView> {
    Seq::new(v.len(), |i: int| (v[i].0@, v[i].1@))
}

/// Keys strictly increase along the list, so each key occurs at most once.
pub open spec fn sorted(s: Seq<EntryView>) -> bool {
    forall|i: int, j: int| 0 <= i < j < s.len() ==> key_lt(#[trigger] s[i].0, #[trigger] s[j].0)
}

/// The value stored under `k`, if any (the last entry with that key).
pub open spec fn lookup(s: Seq<EntryView>, k: Seq<u8>) -> Option<Seq<u8>>
    decreases s.len(),
{
    if s.len() == 0 {
        None
    } else if s.last().0 == k {
        Some(s.last().1)
    } else {
        lookup(s.drop_last(), k)
    }
}

/// The value under `k` after applying `changes` in order to a state that held `prior`
/// under it: the last change on `k` wins.
pub open spec fn changes_lookup(
    changes: Seq<StateChange>,
    k: Seq<u8>,
    prior: Option<Seq<u8>>,
) -> Option<Seq<u8>>
    decreases changes.len(),
{
    if changes.len() == 0 {
        prior
    } else if changes.last().key_spec() == k {
        changes.last().value_spec()
    } else {
        changes_lookup(changes.drop_last(), k, prior)
    }
}

/// `after` is `before` with `changes` applied.
pub open spec fn applies(before: Seq<EntryView>, changes: Seq<StateChange>, after: Seq<EntryView>) -> bool {
    &&& sorted(after)
    &&& forall|k: Seq<u8>| #[trigger] lookup(after, k) == changes_lookup(changes, k, lookup(before, k))
}

pub proof fn lemma_lookup_absent(s: Seq<EntryView>, k: Seq<u8>)
    requires
        forall|j: int| 0 <= j < s.len() ==> #[trigger] s[j].0 != k,
    ensures
        lookup(s, k) is None,
    decreases s.len(),
{
    if s.len() > 0 {
        let t = s.drop_last();
        assert(s.last() == s[s.len() - 1]);
        assert forall|j: int| 0 <= j < t.len() implies #[trigger] t[j].0 != k by {
            assert(t[j] == s[j]);
        }
        lemma_lookup_absent(t, k);
    }
}

proof fn lemma_sorted_drop_last(s: Seq<EntryView>)
    requires
        sorted(s),
        s.len() > 0,
    ensures
        sorted(s.drop_last()),
{
    let t = s.drop_last();
    assert forall|i: int, j: int| 0 <= i < j < t.len() implies key_lt(
        #[trigger] t[i].0,
        #[trigger] t[j].0,
    ) by {
        assert(t[i] == s[i] && t[j] == s[j]);
    }
}

pub proof fn lemma_lookup_at(s: Seq<EntryView>, i: int)
    requires
        sorted(s),
        0 <= i < s.len(),
    ensures
        lookup(s, s[i].0) == Some(s[i].1),
    decreases s.len(),
{
    if i < s.len() - 1 {
        let t = s.drop_last();
        assert(key_lt(s[i].0, s[s.len() - 1].0));
        lemma_key_lt_irreflexive(s[i].0);
        lemma_sorted_drop_last(s);
        assert(t[i] == s[i]);
        lemma_lookup_at(t, i);
    }
}

proof fn lemma_lookup_tail(s: Seq<EntryView>, k: Seq<u8>)
    requires
        sorted(s),
        s.len() > 0,
    ensures
        k == s[0].0 ==> lookup(s.drop_first(), k) is None,
        k != s[0].0 ==> lookup(s.drop_first(), k) == lookup(s, k),
{
    let t = s.drop_first();
    assert(sorted(t)) by {
        assert forall|i: int, j: int| 0 <= i < j < t.len() implies key_lt(
            #[trigger] t[i].0,
            #[trigger] t[j].0,
        ) by {
            assert(t[i] == s[i + 1] && t[j] == s[j + 1]);
        }
    }
    if exists|i: int| 0 <= i < t.len() && #[trigger] t[i].0 == k {
        let i = choose|i: int| 0 <= i < t.len() && #[trigger] t[i].0 == k;
        assert(t[i] == s[i + 1]);
        lemma_lookup_at(t, i);
        lemma_lookup_at(s, i + 1);
        if k == s[0].0 {
            assert(key_lt(s[0].0, s[i + 1].0));
            lemma_key_lt_irreflexive(k);
        }
    } else {
        lemma_lookup_absent(t, k);
        if k != s[0].0 {
            assert forall|j: int| 0 <= j < s.len() implies #[trigger] s[j].0 != k by {
                if j > 0 {
                    assert(t[j - 1] == s[j]);
                }
            }
            lemma_lookup_absent(s, k);
        }
    }
}

/// Two sorted lists that hold the same value under every key are the same list.
pub proof fn lemma_sorted_unique(a: Seq<EntryView>, b: Seq<EntryView>)
    requires
        sorted(a),
        sorted(b),
        forall|k: Seq<u8>| #[trigger] lookup(a, k) == lookup(b, k),
    ensures
        a == b,
    decreases a.len(),
{
    if a.len() == 0 || b.len() == 0 {
        if b.len() > 0 {
            lemma_lookup_at(b, 0);
            assert(lookup(a, b[0].0) == lookup(b, b[0].0));
        }
        if a.len() > 0 {
            lemma_lookup_at(a, 0);
            assert(lookup(a, a[0].0) == lookup(b, a[0].0));
        }
        assert(a =~= b);
    } else {
        let ka = a[0].0;
        let kb = b[0].0;
        lemma_lookup_at(a, 0);
        lemma_lookup_at(b, 0);
        assert(lookup(a, ka) == lookup(b, ka));
        assert(lookup(a, kb) == lookup(b, kb));
        if ka != kb {
            lemma_key_lt_total(ka, kb);
            if key_lt(ka, kb) {
                assert forall|j: int| 0 <= j < b.len() implies #[trigger] b[j].0 != ka by {
                    if j > 0 {
                        assert(key_lt(b[0].0, b[j].0));
                        lemma_key_lt_transitive(ka, kb, b[j].0);
                        lemma_key_lt_irreflexive(ka);
                    } else {
                        lemma_key_lt_irreflexive(ka);
                    }
                }
                lemma_lookup_absent(b, ka);
            } else {
                assert forall|j: int| 0 <= j < a.len() implies #[trigger] a[j].0 != kb by {
                    if j > 0 {
                        assert(key_lt(a[0].0, a[j].0));
                        lemma_key_lt_transitive(kb, ka, a[j].0);
                        lemma_key_lt_irreflexive(kb);
                    } else {
                        lemma_key_lt_irreflexive(kb);
                    }
                }
                lemma_lookup_absent(a, kb);
            }
        }
        let a2 = a.drop_first();
        let b2 = b.drop_first();
        assert forall|k: Seq<u8>| #[trigger] lookup(a2, k) == lookup(b2, k) by {
            lemma_lookup_tail(a, k);
            lemma_lookup_tail(b, k);
            assert(lookup(a, k) == lookup(b, k));
        }
        assert(sorted(a2)) by {
            assert forall|i: int, j: int| 0 <= i < j < a2.len() implies key_lt(
                #[trigger] a2[i].0,
                #[trigger] a2[j].0,
            ) by {
                assert(a2[i] == a[i + 1] && a2[j] == a[j + 1]);
            }
        }
        assert(sorted(b2)) by {
            assert forall|i: int, j: int| 0 <= i < j < b2.len() implies key_lt(
                #[trigger] b2[i].0,
                #[trigger] b2[j].0,
            ) by {
                assert(b2[i] == b[i + 1] && b2[j] == b[j + 1]);
            }
        }
        lemma_sorted_unique(a2, b2);
        assert(a =~= seq![a[0]] + a2);
        assert(b =~= seq![b[0]] + b2);
    }
}

/// Replacing the entries at `p..q` by one entry for `k` keeps the list sorted and changes
/// the value under `k` alone.
proof fn lemma_splice(s: Seq<EntryView>, p: int, q: int, k: Seq<u8>, v: Seq<u8>)
    requires
        sorted(s),
        0 <= p <= q <= s.len(),
        q == p || (q == p + 1 && s[p].0 == k),
        forall|i: int| 0 <= i < p ==> key_lt(#[trigger] s[i].0, k),
        forall|i: int| q <= i < s.len() ==> key_lt(k, #[trigger] s[i].0),
    ensures
        sorted(s.take(p) + seq![(k, v)] + s.skip(q)),
        forall|x: Seq<u8>|
            #[trigger] lookup(s.take(p) + seq![(k, v)] + s.skip(q), x) == if x == k {
                Some(v)
            } else {
                lookup(s, x)
            },
{
    let t = s.take(p) + seq![(k, v)] + s.skip(q);
    assert(t.len() == p + 1 + s.len() - q);
    assert forall|i: int| 0 <= i < t.len() implies #[trigger] t[i] == if i < p {
        s[i]
    } else if i == p {
        (k, v)
    } else {
        s[i - p - 1 + q]
    } by {}
    assert forall|i: int, j: int| 0 <= i < j < t.len() implies key_lt(
        #[trigger] t[i].0,
        #[trigger] t[j].0,
    ) by {
        if i < p && j > p {
            assert(key_lt(s[i].0, s[j - p - 1 + q].0));
        }
    }
    assert forall|x: Seq<u8>| #[trigger] lookup(t, x) == if x == k {
        Some(v)
    } else {
        lookup(s, x)
    } by {
        if x == k {
            lemma_lookup_at(t, p);
        } else if exists|i: int| 0 <= i < s.len() && #[trigger] s[i].0 == x {
            let i = choose|i: int| 0 <= i < s.len() && #[trigger] s[i].0 == x;
            lemma_lookup_at(s, i);
            if i < p {
                lemma_lookup_at(t, i);
            } else {
                assert(i >= q);
                assert(t[i - q + p + 1] == s[i]);
                lemma_lookup_at(t, i - q + p + 1);
            }
        } else {
            assert forall|j: int| 0 <= j < t.len() implies #[trigger] t[j].0 != x by {
                if j < p {
                    assert(t[j] == s[j]);
                } else if j > p {
                    assert(t[j] == s[j - p - 1 + q]);
                }
            }
            lemma_lookup_absent(t, x);
            lemma_lookup_absent(s, x);
        }
    }
}

/// Removing the entry at `p` keeps the list sorted and leaves nothing under its key.
proof fn lemma_remove_at(s: Seq<EntryView>, p: int)
    requires
        sorted(s),
        0 <= p < s.len(),
    ensures
        sorted(s.take(p) + s.skip(p + 1)),
        forall|x: Seq<u8>|
            #[trigger] lookup(s.take(p) + s.skip(p + 1), x) == if x == s[p].0 {
                None
            } else {
                lookup(s, x)
            },
{
    let t = s.take(p) + s.skip(p + 1);
    let k = s[p].0;
    assert forall|i: int| 0 <= i < t.len() implies #[trigger] t[i] == if i < p {
        s[i]
    } else {
        s[i + 1]
    } by {}
    assert forall|i: int, j: int| 0 <= i < j < t.len() implies key_lt(
        #[trigger] t[i].0,
        #[trigger] t[j].0,
    ) by {
        if i < p && j >= p {
            assert(key_lt(s[i].0, s[j + 1].0));
        } else if i >= p {
            assert(key_lt(s[i + 1].0, s[j + 1].0));
        }
    }
    assert forall|x: Seq<u8>| #[trigger] lookup(t, x) == if x == k {
        None
    } else {
        lookup(s, x)
    } by {
        if x == k {
            assert forall|j: int| 0 <= j < t.len() implies #[trigger] t[j].0 != x by {
                if j < p {
                    assert(key_lt(s[j].0, s[p].0));
                } else {
                    assert(key_lt(s[p].0, s[j + 1].0));
                }
                lemma_key_lt_irreflexive(k);
            }
            lemma_lookup_absent(t, x);
        } else if exists|i: int| 0 <= i < s.len() && #[trigger] s[i].0 == x {
            let i = choose|i: int| 0 <= i < s.len() && #[trigger] s[i].0 == x;
            lemma_lookup_at(s, i);
            if i < p {
                lemma_lookup_at(t, i);
            } else {
                assert(t[i - 1] == s[i]);
                lemma_lookup_at(t, i - 1);
            }
        } else {
            assert forall|j: int| 0 <= j < t.len() implies #[trigger] t[j].0 != x by {
                if j < p {
                    assert(t[j] == s[j]);
                } else {
                    assert(t[j] == s[j + 1]);
                }
            }
            lemma_lookup_absent(t, x);
            lemma_lookup_absent(s, x);
        }
    }
}

/// A copy of one entry.
pub fn copy_entry(e: &(Vec<u8>, Vec<u8>)) -> (r: (Vec<u8>, Vec<u8>))
    ensures
        r.0@ == e.0@,
        r.1@ == e.1@,
{
    (copy_bytes(&e.0), copy_bytes(&e.1))
}

/// Appends copies of `src[from..to]` to `out`.
fn push_range(out: &mut Vec<(Vec<u8>, Vec<u8>)>, src: &Vec<(Vec<u8>, Vec<u8>)>, from: usize, to: usize)
    requires
        from <= to <= src@.len(),
    ensures
        entries_view(final(out)@) == entries_view(old(out)@) + entries_view(src@).subrange(
            from as int,
            to as int,
        ),
{
    let ghost start = entries_view(out@);
    let mut i: usize = from;
    while i < to
        invariant
            from <= i <= to <= src@.len(),
            entries_view(out@) == start + entries_view(src@).subrange(from as int, i as int),
        decreases to - i,
    {
        let e = copy_entry(&src[i]);
        let ghost prev = entries_view(out@);
        out.push(e);
        assert(entries_view(out@) =~= prev.push((src@[i as int].0@, src@[i as int].1@)));
        assert(entries_view(src@).subrange(from as int, i + 1) =~= entries_view(src@).subrange(
            from as int,
            i as int,
        ).push((src@[i as int].0@, src@[i as int].1@)));
        i = i + 1;
    }
}

/// The position of the first entry whose key does not sort before `k`, and whether that
/// entry's key is `k`.
fn find_position(s: &Vec<(Vec<u8>, Vec<u8>)>, k: &Vec<u8>) -> (r: (usize, bool))
    requires
        sorted(entries_view(s@)),
    ensures
        r.0 <= s@.len(),
        forall|i: int| 0 <= i < r.0 ==> key_lt(#[trigger] entries_view(s@)[i].0, k@),
        r.1 == (r.0 < s@.len() && entries_view(s@)[r.0 as int].0 == k@),
        forall|i: int|
            r.0 + (if r.1 { 1int } else { 0int }) <= i < s@.len() ==> key_lt(
                k@,
                #[trigger] entries_view(s@)[i].0,
            ),
{
    let ghost v = entries_view(s@);
    let mut i: usize = 0;
    while i < s.len() && key_less(&s[i].0, k)
        invariant
            i <= s@.len(),
            v == entries_view(s@),
            forall|j: int| 0 <= j < i ==> key_lt(#[trigger] v[j].0, k@),
        decreases s@.len() - i,
    {
        i = i + 1;
    }
    let found = i < s.len() && bytes_equal(&s[i].0, k);
    proof {
        if i < s.len() {
            let ki = v[i as int].0;
            if !found {
                lemma_key_lt_total(ki, k@);
            }
            assert forall|j: int|
                i + (if found { 1int } else { 0int }) <= j < s@.len() implies key_lt(
                k@,
                #[trigger] v[j].0,
            ) by {
                if j > i {
                    assert(key_lt(v[i as int].0, v[j].0));
                    if !found {
                        lemma_key_lt_transitive(k@, ki, v[j].0);
                    }
                }
            }
        }
    }
    (i, found)
}

/// The entries with `k` set to `v`.
pub fn set_entry(s: &Vec<(Vec<u8>, Vec<u8>)>, k: &Vec<u8>, v: &Vec<u8>) -> (r: Vec<(Vec<u8>, Vec<u8>)>)
    requires
        sorted(entries_view(s@)),
    ensures
        sorted(entries_view(r@)),
        forall|x: Seq<u8>| #[trigger] lookup(entries_view(r@), x) == if x == k@ {
            Some(v@)
        } else {
            lookup(entries_view(s@), x)
        },
{
    let (p, found) = find_position(s, k);
    let n = s.len();
    let q: usize = if found { p + 1 } else { p };
    let mut r: Vec<(Vec<u8>, Vec<u8>)> = Vec::new();
    push_range(&mut r, s, 0, p);
    r.push((copy_bytes(k), copy_bytes(v)));
    push_range(&mut r, s, q, s.len());
    proof {
        let sv = entries_view(s@);
        lemma_splice(sv, p as int, q as int, k@, v@);
        assert(entries_view(r@) =~= sv.take(p as int) + seq![(k@, v@)] + sv.skip(q as int));
    }
    r
}

/// The entries without `k`.
pub fn delete_entry(s: &Vec<(Vec<u8>, Vec<u8>)>, k: &Vec<u8>) -> (r: Vec<(Vec<u8>, Vec<u8>)>)
    requires
        sorted(entries_view(s@)),
    ensures
        sorted(entries_view(r@)),
        forall|x: Seq<u8>| #[trigger] lookup(entries_view(r@), x) == if x == k@ {
            None
        } else {
            lookup(entries_view(s@), x)
        },
{
    let (p, found) = find_position(s, k);
    let n = s.len();
    let mut r: Vec<(Vec<u8>, Vec<u8>)> = Vec::new();
    if found {
        push_range(&mut r, s, 0, p);
        push_range(&mut r, s, p + 1, s.len());
        proof {
            let sv = entries_view(s@);
            lemma_remove_at(sv, p as int);
            assert(entries_view(r@) =~= sv.take(p as int) + sv.skip(p + 1));
        }
    } else {
        push_range(&mut r, s, 0, s.len());
        proof {
            let sv = entries_view(s@);
            assert(entries_view(r@) =~= sv);
            assert forall|x: Seq<u8>| #[trigger] lookup(entries_view(r@), x) == if x == k@ {
                None
            } else {
                lookup(sv, x)
            } by {
                if x == k@ {
                    assert forall|j: int| 0 <= j < sv.len() implies #[trigger] sv[j].0 != x by {
                        lemma_key_lt_irreflexive(k@);
                    }
                    lemma_lookup_absent(sv, x);
                }
            }
        }
    }
    r
}

/// The entries with `changes` applied in order.
pub fn apply_changes(s: &Vec<(Vec<u8>, Vec<u8>)>, changes: &Vec<StateChange>) -> (r: Vec<(Vec<u8>, Vec<u8>)>)
    requires
        sorted(entries_view(s@)),
    ensures
        applies(entries_view(s@), changes@, entries_view(r@)),
{
    let mut cur: Vec<(Vec<u8>, Vec<u8>)> = Vec::new();
    push_range(&mut cur, s, 0, s.len());
    assert(entries_view(cur@) =~= entries_view(s@));
    let mut i: usize = 0;
    while i < changes.len()
        invariant
            i <= changes@.len(),
            sorted(entries_view(cur@)),
            forall|k: Seq<u8>| #[trigger] lookup(entries_view(cur@), k) == changes_lookup(
                changes@.take(i as int),
                k,
                lookup(entries_view(s@), k),
            ),
        decreases changes@.len() - i,
    {
        let ghost prev = entries_view(cur@);
        let next = match &changes[i] {
            StateChange::Put { key, value } => set_entry(&cur, key, value),
            StateChange::Delete { key } => delete_entry(&cur, key),
        };
        cur = next;
        i = i + 1;
        proof {
            let t = changes@.take(i as int);
            assert(t.drop_last() =~= changes@.take(i - 1));
            assert(t.last() == changes@[i - 1]);
            assert forall|k: Seq<u8>| #[trigger] lookup(entries_view(cur@), k) == changes_lookup(
                t,
                k,
                lookup(entries_view(s@), k),
            ) by {
                assert(lookup(prev, k) == changes_lookup(
                    changes@.take(i - 1),
                    k,
                    lookup(entries_view(s@), k),
                ));
            }
        }
    }
    assert(changes@.take(changes@.len() as int) =~= changes@);
    cur
}

/// Some change of the batch is on `k`.
pub open spec fn touches(changes: Seq<StateChange>, k: Seq<u8>) -> bool {
    exists|i: int| 0 <= i < changes.len() && #[trigger] changes[i].key_spec() == k
}

proof fn lemma_touched_ignores_prior(changes: Seq<StateChange>, k: Seq<u8>, p: Option<Seq<u8>>)
    requires
        touches(changes, k),
    ensures
        changes_lookup(changes, k, p) == changes_lookup(changes, k, None),
    decreases changes.len(),
{
    if changes.last().key_spec() != k {
        let i = choose|i: int| 0 <= i < changes.len() && #[trigger] changes[i].key_spec() == k;
        assert(changes.drop_last()[i] == changes[i]);
        lemma_touched_ignores_prior(changes.drop_last(), k, p);
    }
}

/// After a batch is applied, a key that the batch touches holds what the batch's last
/// change on it left, whatever it held before: the value of the last put, or nothing when
/// that change is a delete.
pub proof fn lemma_batch_round_trip(
    before: Seq<EntryView>,
    changes: Seq<StateChange>,
    after: Seq<EntryView>,
    k: Seq<u8>,
)
    requires
        applies(before, changes, after),
        touches(changes, k),
    ensures
        lookup(after, k) == changes_lookup(changes, k, None),
{
    lemma_touched_ignores_prior(changes, k, lookup(before, k));
}

/// The value under `k` after the changes `cvs`, in their mathematical form, on a state that
/// held `prior` under it.
pub open spec fn view_lookup(cvs: Seq<ChangeView>, k: Seq<u8>, prior: Option<Seq<u8>>) -> Option<Seq<u8>>
    decreases cvs.len(),
{
    if cvs.len() == 0 {
        prior
    } else if cvs.last().0 == k {
        cvs.last().1
    } else {
        view_lookup(cvs.drop_last(), k, prior)
    }
}

/// `after` is `before` with the changes `cvs` applied.
pub open spec fn applies_views(before: Seq<EntryView>, cvs: Seq<ChangeView>, after: Seq<EntryView>) -> bool {
    &&& sorted(after)
    &&& forall|k: Seq<u8>| #[trigger] lookup(after, k) == view_lookup(cvs, k, lookup(before, k))
}

proof fn lemma_view_lookup(cs: Seq<StateChange>, k: Seq<u8>, p: Option<Seq<u8>>)
    ensures
        changes_lookup(cs, k, p) == view_lookup(change_views(cs), k, p),
    decreases cs.len(),
{
    if cs.len() > 0 {
        assert(change_views(cs).drop_last() =~= change_views(cs.drop_last()));
        lemma_view_lookup(cs.drop_last(), k, p);
    }
}

/// A batch and its mathematical form have the same effect.
pub proof fn lemma_applies_views(before: Seq<EntryView>, cs: Seq<StateChange>, after: Seq<EntryView>)
    requires
        applies(before, cs, after),
    ensures
        applies_views(before, change_views(cs), after),
{
    assert forall|k: Seq<u8>| #[trigger] lookup(after, k) == view_lookup(
        change_views(cs),
        k,
        lookup(before, k),
    ) by {
        lemma_view_lookup(cs, k, lookup(before, k));
    }
}

} // verus!
