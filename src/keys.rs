//! Byte-string keys, their lexicographic order, and key ranges whose empty
//! end key stands for "unbounded".
use vstd::prelude::*;

verus! {

/// Lexicographic order on byte strings: a proper prefix is smaller.
pub open spec fn key_lt(a: Seq<u8>, b: Seq<u8>) -> bool
    decreases a.len(),
{
    if b.len() == 0 {
        false
    } else if a.len() == 0 {
        true
    } else if a[0] != b[0] {
        a[0] < b[0]
    } else {
        key_lt(a.drop_first(), b.drop_first())
    }
}

/// An end key bounds a range unless it is empty.
pub open spec fn unbounded(end: Seq<u8>) -> bool {
    end.len() == 0
}

/// Key `k` lies in `[start, end)`, where an empty `end` is unbounded.
pub open spec fn in_range(start: Seq<u8>, end: Seq<u8>, k: Seq<u8>) -> bool {
    !key_lt(k, start) && (unbounded(end) || key_lt(k, end))
}

/// A range holds at least one key: `start < end`, or `end` is unbounded.
pub open spec fn range_nonempty(start: Seq<u8>, end: Seq<u8>) -> bool {
    unbounded(end) || key_lt(start, end)
}

pub proof fn lemma_key_lt_irreflexive(a: Seq<u8>)
    ensures
        !key_lt(a, a),
    decreases a.len(),
{
    if a.len() > 0 {
        lemma_key_lt_irreflexive(a.drop_first());
    }
}

pub proof fn lemma_key_lt_total(a: Seq<u8>, b: Seq<u8>)
    ensures
        a == b || key_lt(a, b) || key_lt(b, a),
        !(key_lt(a, b) && key_lt(b, a)),
    decreases a.len(),
{
    if a.len() > 0 && b.len() > 0 && a[0] == b[0] {
        lemma_key_lt_total(a.drop_first(), b.drop_first());
        if a.drop_first() == b.drop_first() {
            assert(a =~= seq![a[0]] + a.drop_first());
            assert(b =~= seq![b[0]] + b.drop_first());
        }
    } else if a.len() == 0 && b.len() == 0 {
        assert(a =~= b);
    }
}

pub proof fn lemma_key_lt_transitive(a: Seq<u8>, b: Seq<u8>, c: Seq<u8>)
    requires
        key_lt(a, b),
        key_lt(b, c),
    ensures
        key_lt(a, c),
    decreases a.len(),
{
    if a.len() > 0 && a[0] == b[0] && b[0] == c[0] {
        lemma_key_lt_transitive(a.drop_first(), b.drop_first(), c.drop_first());
    }
}

/// The order facts used throughout, for any three keys.
pub proof fn lemma_key_order(a: Seq<u8>, b: Seq<u8>, c: Seq<u8>)
    ensures
        !key_lt(a, a) && !key_lt(b, b) && !key_lt(c, c),
        a == b || key_lt(a, b) || key_lt(b, a),
        b == c || key_lt(b, c) || key_lt(c, b),
        a == c || key_lt(a, c) || key_lt(c, a),
        !(key_lt(a, b) && key_lt(b, a)),
        !(key_lt(b, c) && key_lt(c, b)),
        !(key_lt(a, c) && key_lt(c, a)),
        key_lt(a, b) && key_lt(b, c) ==> key_lt(a, c),
        key_lt(a, c) && key_lt(c, b) ==> key_lt(a, b),
        key_lt(b, a) && key_lt(a, c) ==> key_lt(b, c),
        key_lt(b, c) && key_lt(c, a) ==> key_lt(b, a),
        key_lt(c, a) && key_lt(a, b) ==> key_lt(c, b),
        key_lt(c, b) && key_lt(b, a) ==> key_lt(c, a),
{
    lemma_key_lt_irreflexive(a);
    lemma_key_lt_irreflexive(b);
    lemma_key_lt_irreflexive(c);
    lemma_key_lt_total(a, b);
    lemma_key_lt_total(b, c);
    lemma_key_lt_total(a, c);
    if key_lt(a, b) && key_lt(b, c) {
        lemma_key_lt_transitive(a, b, c);
    }
    if key_lt(a, c) && key_lt(c, b) {
        lemma_key_lt_transitive(a, c, b);
    }
    if key_lt(b, a) && key_lt(a, c) {
        lemma_key_lt_transitive(b, a, c);
    }
    if key_lt(b, c) && key_lt(c, a) {
        lemma_key_lt_transitive(b, c, a);
    }
    if key_lt(c, a) && key_lt(a, b) {
        lemma_key_lt_transitive(c, a, b);
    }
    if key_lt(c, b) && key_lt(b, a) {
        lemma_key_lt_transitive(c, b, a);
    }
}

/// Whether `a` sorts strictly before `b`.
pub fn key_less(a: &Vec<u8>, b: &Vec<u8>) -> (r: bool)
    ensures
        r == key_lt(a@, b@),
{
    let mut i: usize = 0;
    assert(a@.skip(0) =~= a@);
    assert(b@.skip(0) =~= b@);
    while i < a.len() && i < b.len() && a[i] == b[i]
        invariant
            i <= a.len(),
            i <= b.len(),
            key_lt(a@, b@) == key_lt(a@.skip(i as int), b@.skip(i as int)),
        decreases a.len() - i,
    {
        assert(a@.skip(i as int).drop_first() =~= a@.skip(i + 1));
        assert(b@.skip(i as int).drop_first() =~= b@.skip(i + 1));
        i = i + 1;
    }
    if i == b.len() {
        false
    } else if i == a.len() {
        true
    } else {
        a[i] < b[i]
    }
}

/// Whether two keys are equal.
pub fn key_equal(a: &Vec<u8>, b: &Vec<u8>) -> (r: bool)
    ensures
        r == (a@ == b@),
{
    if a.len() != b.len() {
        return false;
    }
    let mut i: usize = 0;
    while i < a.len()
        invariant
            i <= a.len(),
            a.len() == b.len(),
            a@.take(i as int) == b@.take(i as int),
        decreases a.len() - i,
    {
        if a[i] != b[i] {
            return false;
        }
        assert(a@.take(i + 1) =~= a@.take(i as int).push(a[i as int]));
        assert(b@.take(i + 1) =~= b@.take(i as int).push(b[i as int]));
        i = i + 1;
    }
    assert(a@ =~= a@.take(i as int));
    assert(b@ =~= b@.take(i as int));
    true
}

/// A fresh copy of a key.
pub fn copy_key(a: &Vec<u8>) -> (r: Vec<u8>)
    ensures
        r@ == a@,
{
    let mut r: Vec<u8> = Vec::new();
    let mut i: usize = 0;
    while i < a.len()
        invariant
            i <= a.len(),
            r@ == a@.take(i as int),
        decreases a.len() - i,
    {
        r.push(a[i]);
        assert(a@.take(i + 1) =~= a@.take(i as int).push(a[i as int]));
        i = i + 1;
    }
    assert(a@ =~= a@.take(i as int));
    r
}

} // verus!
