//! Byte-string keys: their lexicographic order and the comparisons on them.
use vstd::prelude::*;

verus! {

/// Lexicographic order on byte strings; a proper prefix comes first.
pub open spec fn key_lt(a: Seq<u8>, b: Seq<u8>) -> bool
    decreases a.len(),
{
    if a.len() == 0 {
        b.len() > 0
    } else if b.len() == 0 {
        false
    } else if a[0] != b[0] {
        a[0] < b[0]
    } else {
        key_lt(a.drop_first(), b.drop_first())
    }
}

pub proof fn lemma_key_lt_irreflexive(a: Seq<u8>)
    ensures
        !key_lt(a, a),
    decreases a.len(),
{
    if a.len() > 0 {
        lemma_key_lt_irreflexive(a.drop_first());
    }
}

pub proof fn lemma_key_lt_transitive(a: Seq<u8>, b: Seq<u8>, c: Seq<u8>)
    requires
        key_lt(a, b),
        key_lt(b, c),
    ensures
        key_lt(a, c),
    decreases a.len(),
{
    if a.len() > 0 && b.len() > 0 && c.len() > 0 && a[0] == b[0] && b[0] == c[0] {
        lemma_key_lt_transitive(a.drop_first(), b.drop_first(), c.drop_first());
    }
}

pub proof fn lemma_key_lt_total(a: Seq<u8>, b: Seq<u8>)
    ensures
        a != b ==> key_lt(a, b) || key_lt(b, a),
    decreases a.len(),
{
    if a.len() > 0 && b.len() > 0 && a[0] == b[0] {
        lemma_key_lt_total(a.drop_first(), b.drop_first());
        if a.drop_first() == b.drop_first() {
            assert(a =~= seq![a[0]] + a.drop_first());
            assert(b =~= seq![b[0]] + b.drop_first());
        }
    } else if a.len() == 0 && b.len() == 0 {
        assert(a =~= b);
    }
}

/// Whether `p` is a prefix of `k`.
pub open spec fn has_prefix(k: Seq<u8>, p: Seq<u8>) -> bool {
    p.len() <= k.len() && k.subrange(0, p.len() as int) == p
}

/// Compares two byte strings for equality.
pub fn bytes_equal(a: &Vec<u8>, b: &Vec<u8>) -> (r: bool)
    ensures
        r == (a@ == b@),
{
    if a.len() != b.len() {
        return false;
    }
    let mut i: usize = 0;
    while i < a.len()
        invariant
            a@.len() == b@.len(),
            i <= a@.len(),
            forall|j: int| 0 <= j < i ==> a@[j] == b@[j],
        decreases a@.len() - i,
    {
        if a[i] != b[i] {
            return false;
        }
        i = i + 1;
    }
    assert(a@ =~= b@);
    true
}

/// Whether `a` sorts strictly before `b`.
pub fn key_less(a: &Vec<u8>, b: &Vec<u8>) -> (r: bool)
    ensures
        r == key_lt(a@, b@),
{
    let mut i: usize = 0;
    assert(a@.subrange(0, a@.len() as int) =~= a@);
    assert(b@.subrange(0, b@.len() as int) =~= b@);
    while i < a.len() && i < b.len()
        invariant
            i <= a@.len(),
            i <= b@.len(),
            key_lt(a@, b@) == key_lt(
                a@.subrange(i as int, a@.len() as int),
                b@.subrange(i as int, b@.len() as int),
            ),
        decreases a@.len() - i,
    {
        let ghost sa = a@.subrange(i as int, a@.len() as int);
        let ghost sb = b@.subrange(i as int, b@.len() as int);
        assert(sa.drop_first() =~= a@.subrange(i + 1, a@.len() as int));
        assert(sb.drop_first() =~= b@.subrange(i + 1, b@.len() as int));
        if a[i] != b[i] {
            return a[i] < b[i];
        }
        i = i + 1;
    }
    a.len() < b.len()
}

/// Whether `p` is a prefix of `k`.
pub fn starts_with(k: &Vec<u8>, p: &Vec<u8>) -> (r: bool)
    ensures
        r == has_prefix(k@, p@),
{
    if p.len() > k.len() {
        return false;
    }
    let mut i: usize = 0;
    while i < p.len()
        invariant
            p@.len() <= k@.len(),
            i <= p@.len(),
            forall|j: int| 0 <= j < i ==> k@[j] == p@[j],
        decreases p@.len() - i,
    {
        if k[i] != p[i] {
            assert(k@.subrange(0, p@.len() as int)[i as int] != p@[i as int]);
            return false;
        }
        i = i + 1;
    }
    assert(k@.subrange(0, p@.len() as int) =~= p@);
    true
}

/// A copy of a byte string.
pub fn copy_bytes(b: &Vec<u8>) -> (r: Vec<u8>)
    ensures
        r@ == b@,
{
    let mut r: Vec<u8> = Vec::new();
    let mut i: usize = 0;
    while i < b.len()
        invariant
            i <= b@.len(),
            r@ == b@.subrange(0, i as int),
        decreases b@.len() - i,
    {
        r.push(b[i]);
        i = i + 1;
        assert(r@ =~= b@.subrange(0, i as int));
    }
    assert(b@.subrange(0, b@.len() as int) =~= b@);
    r
}

} // verus!
