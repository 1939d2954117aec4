//! Key ranges and the removal of one range from a set of disjoint ranges.
use crate::keys::{
    copy_key, in_range, key_less, key_lt, lemma_key_order, range_nonempty, unbounded,
};
use vstd::prelude::*;

verus! {

/// The keys `[start_key, end_key)`; an empty `end_key` is unbounded.
pub struct KeyRange {
    pub start_key: Vec<u8>,
    pub end_key: Vec<u8>,
}

impl KeyRange {
    pub fn new(start_key: Vec<u8>, end_key: Vec<u8>) -> (r: Self)
        ensures
            r.start_key@ == start_key@,
            r.end_key@ == end_key@,
    {
        KeyRange { start_key, end_key }
    }

    pub open spec fn contains(&self, k: Seq<u8>) -> bool {
        in_range(self.start_key@, self.end_key@, k)
    }

    pub open spec fn wf(&self) -> bool {
        range_nonempty(self.start_key@, self.end_key@)
    }
}

/// The ranges `[s1, e1)` and `[s2, e2)` share a key (both being non-empty).
pub open spec fn spans_overlap(s1: Seq<u8>, e1: Seq<u8>, s2: Seq<u8>, e2: Seq<u8>) -> bool {
    (unbounded(e1) || key_lt(s2, e1)) && (unbounded(e2) || key_lt(s1, e2))
}

/// Some range of `rs` holds `k`.
pub open spec fn covered(rs: Seq<KeyRange>, k: Seq<u8>) -> bool {
    exists|p: int| 0 <= p < rs.len() && #[trigger] rs[p].contains(k)
}

/// Every range of `rs` is non-empty and no key lies in two of them.
pub open spec fn disjoint_ranges(rs: Seq<KeyRange>) -> bool {
    &&& forall|p: int| 0 <= p < rs.len() ==> (#[trigger] rs[p]).wf()
    &&& forall|p: int, q: int, k: Seq<u8>|
        0 <= p < rs.len() && 0 <= q < rs.len() && p != q && #[trigger] rs[p].contains(k)
            ==> !#[trigger] rs[q].contains(k)
}

/// Ranges that do not overlap share no key; ranges that do share their
/// larger start key.
pub proof fn lemma_overlap_shares_key(s1: Seq<u8>, e1: Seq<u8>, s2: Seq<u8>, e2: Seq<u8>)
    requires
        range_nonempty(s1, e1),
        range_nonempty(s2, e2),
    ensures
        spans_overlap(s1, e1, s2, e2) <==> (exists|k: Seq<u8>|
            in_range(s1, e1, k) && #[trigger] in_range(s2, e2, k)),
{
    lemma_key_order(s1, s2, e1);
    lemma_key_order(s2, s1, e2);
    lemma_key_order(s1, e1, s2);
    lemma_key_order(s2, e2, s1);
    if spans_overlap(s1, e1, s2, e2) {
        if key_lt(s1, s2) {
            assert(in_range(s1, e1, s2) && in_range(s2, e2, s2));
        } else {
            assert(in_range(s1, e1, s1) && in_range(s2, e2, s1));
        }
    } else {
        assert forall|k: Seq<u8>| in_range(s1, e1, k) implies !#[trigger] in_range(s2, e2, k) by {
            lemma_key_order(k, e1, s2);
            lemma_key_order(k, e2, s1);
            lemma_key_order(k, s1, e2);
            lemma_key_order(k, s2, e1);
        }
    }
}

/// Whether `[s1, e1)` and `[s2, e2)` overlap.
pub fn ranges_overlap(s1: &Vec<u8>, e1: &Vec<u8>, s2: &Vec<u8>, e2: &Vec<u8>) -> (r: bool)
    ensures
        r == spans_overlap(s1@, e1@, s2@, e2@),
{
    (e1.len() == 0 || key_less(s2, e1)) && (e2.len() == 0 || key_less(s1, e2))
}

/// Appends to `out` the keys of `p` that `[es, ee)` does not hold, as at
/// most two non-empty ranges.
fn cut_one(p: &KeyRange, es: &Vec<u8>, ee: &Vec<u8>, out: &mut Vec<KeyRange>)
    requires
        p.wf(),
        range_nonempty(es@, ee@),
    ensures
        old(out)@.len() <= final(out)@.len(),
        final(out)@.subrange(0, old(out)@.len() as int) == old(out)@,
        forall|q: int|
            old(out)@.len() <= q < final(out)@.len() ==> (#[trigger] final(out)@[q]).wf(),
        forall|q: int, k: Seq<u8>|
            old(out)@.len() <= q < final(out)@.len() && #[trigger] final(out)@[q].contains(k)
                ==> p.contains(k),
        forall|q1: int, q2: int, k: Seq<u8>|
            old(out)@.len() <= q1 < final(out)@.len() && old(out)@.len() <= q2
                < final(out)@.len() && q1 != q2 && #[trigger] final(out)@[q1].contains(k)
                ==> !#[trigger] final(out)@[q2].contains(k),
        forall|k: Seq<u8>|
            (p.contains(k) && !in_range(es@, ee@, k)) <==> (exists|q: int|
                old(out)@.len() <= q < final(out)@.len() && #[trigger] final(out)@[q].contains(k)),
{
    let ghost n0 = out@.len();
    let ps = &p.start_key;
    let pe = &p.end_key;
    if !ranges_overlap(ps, pe, es, ee) {
        proof {
            lemma_overlap_shares_key(ps@, pe@, es@, ee@);
        }
        out.push(KeyRange { start_key: copy_key(ps), end_key: copy_key(pe) });
        assert(out@[n0 as int] == out@.last());
        assert forall|k: Seq<u8>|
            (p.contains(k) && !in_range(es@, ee@, k)) <==> (exists|q: int|
                n0 <= q < out@.len() && #[trigger] out@[q].contains(k)) by {
            if p.contains(k) {
                assert(out@[n0 as int].contains(k));
            }
        }
        return ;
    }
    let left = key_less(ps, es);
    if left {
        out.push(KeyRange { start_key: copy_key(ps), end_key: copy_key(es) });
    }
    let n1 = out.len();
    let right = ee.len() != 0 && (pe.len() == 0 || key_less(ee, pe));
    if right {
        out.push(KeyRange { start_key: copy_key(ee), end_key: copy_key(pe) });
    }
    assert(out@.subrange(0, n0 as int) =~= old(out)@);
    proof {
        lemma_key_order(ps@, es@, pe@);
        lemma_key_order(es@, ee@, pe@);
        lemma_key_order(ps@, ee@, pe@);
        lemma_key_order(ps@, es@, ee@);
    }
    assert forall|k: Seq<u8>|
        (p.contains(k) && !in_range(es@, ee@, k)) <==> (exists|q: int|
            n0 <= q < out@.len() && #[trigger] out@[q].contains(k)) by {
        lemma_key_order(k, ps@, es@);
        lemma_key_order(k, es@, pe@);
        lemma_key_order(k, ee@, pe@);
        lemma_key_order(k, ps@, ee@);
        lemma_key_order(ps@, k, es@);
        lemma_key_order(ee@, k, pe@);
        lemma_key_order(ps@, k, ee@);
        lemma_key_order(es@, k, ee@);
        if p.contains(k) && !in_range(es@, ee@, k) {
            if key_lt(k, es@) {
                assert(out@[n0 as int].contains(k));
            } else {
                assert(out@[n1 as int].contains(k));
            }
        }
    }
    assert forall|q1: int, q2: int, k: Seq<u8>|
        n0 <= q1 < out@.len() && n0 <= q2 < out@.len() && q1 != q2 && #[trigger] out@[q1].contains(k)
            implies !#[trigger] out@[q2].contains(k) by {
        lemma_key_order(k, es@, ee@);
    }
    assert forall|q: int, k: Seq<u8>|
        n0 <= q < out@.len() && #[trigger] out@[q].contains(k) implies p.contains(k) by {
        lemma_key_order(k, es@, pe@);
        lemma_key_order(k, ee@, pe@);
        lemma_key_order(ps@, ee@, k);
        lemma_key_order(ps@, k, ee@);
    }
}

/// The keys of `pieces` that `[es, ee)` does not hold, as disjoint ranges.
pub fn cut_out(pieces: &Vec<KeyRange>, es: &Vec<u8>, ee: &Vec<u8>) -> (r: Vec<KeyRange>)
    requires
        disjoint_ranges(pieces@),
        range_nonempty(es@, ee@),
    ensures
        disjoint_ranges(r@),
        forall|k: Seq<u8>| covered(r@, k) <==> covered(pieces@, k) && !in_range(es@, ee@, k),
{
    let mut out: Vec<KeyRange> = Vec::new();
    let mut i: usize = 0;
    while i < pieces.len()
        invariant
            i <= pieces.len(),
            disjoint_ranges(pieces@),
            range_nonempty(es@, ee@),
            disjoint_ranges(out@),
            forall|q: int, k: Seq<u8>|
                0 <= q < out@.len() && #[trigger] out@[q].contains(k) ==> covered(
                    pieces@.subrange(0, i as int),
                    k,
                ),
            forall|k: Seq<u8>|
                covered(out@, k) <==> covered(pieces@.subrange(0, i as int), k) && !in_range(
                    es@,
                    ee@,
                    k,
                ),
        decreases pieces.len() - i,
    {
        let ghost before = out@;
        cut_one(&pieces[i], es, ee, &mut out);
        let ghost n0 = before.len();
        assert forall|q: int, k: Seq<u8>|
            0 <= q < out@.len() && #[trigger] out@[q].contains(k) implies covered(
                pieces@.subrange(0, i + 1),
                k,
            ) by {
            if q < n0 {
                assert(before[q] == out@[q]);
                let p = choose|p: int| 0 <= p < i && #[trigger] pieces@.subrange(0, i as int)[p].contains(k);
                assert(pieces@.subrange(0, i + 1)[p] == pieces@.subrange(0, i as int)[p]);
            } else {
                assert(pieces@.subrange(0, i + 1)[i as int] == pieces@[i as int]);
            }
        }
        assert forall|q1: int, q2: int, k: Seq<u8>|
            0 <= q1 < out@.len() && 0 <= q2 < out@.len() && q1 != q2 && #[trigger] out@[q1].contains(k)
                implies !#[trigger] out@[q2].contains(k) by {
            if q1 < n0 && q2 < n0 {
                assert(before[q1] == out@[q1] && before[q2] == out@[q2]);
            } else if q1 >= n0 && q2 >= n0 {
            } else {
                // one piece comes from pieces[i], the other from an earlier piece
                let (qa, qb) = if q1 < n0 { (q1, q2) } else { (q2, q1) };
                assert(before[qa] == out@[qa]);
                if out@[qa].contains(k) && out@[qb].contains(k) {
                    let p = choose|p: int| 0 <= p < i && #[trigger] pieces@.subrange(0, i as int)[p].contains(k);
                    assert(pieces@.subrange(0, i as int)[p] == pieces@[p]);
                    assert(pieces@[i as int].contains(k));
                }
            }
        }
        assert forall|q: int| 0 <= q < out@.len() implies (#[trigger] out@[q]).wf() by {
            if q < n0 {
                assert(before[q] == out@[q]);
            }
        }
        assert forall|k: Seq<u8>|
            covered(out@, k) <==> covered(pieces@.subrange(0, i + 1), k) && !in_range(es@, ee@, k) by {
            if covered(out@, k) {
                let q = choose|q: int| 0 <= q < out@.len() && #[trigger] out@[q].contains(k);
                if q < n0 {
                    assert(before[q] == out@[q]);
                    assert(covered(before, k));
                } else {
                    assert(pieces@.subrange(0, i + 1)[i as int] == pieces@[i as int]);
                }
            }
            if covered(pieces@.subrange(0, i + 1), k) && !in_range(es@, ee@, k) {
                let p = choose|p: int| 0 <= p < i + 1 && #[trigger] pieces@.subrange(0, i + 1)[p].contains(k);
                if p < i {
                    assert(pieces@.subrange(0, i as int)[p] == pieces@.subrange(0, i + 1)[p]);
                    assert(covered(before, k));
                    let q = choose|q: int| 0 <= q < before.len() && #[trigger] before[q].contains(k);
                    assert(before[q] == out@[q]);
                } else {
                    assert(pieces@.subrange(0, i + 1)[p] == pieces@[i as int]);
                }
            }
        }
        i = i + 1;
    }
    assert(pieces@.subrange(0, i as int) =~= pieces@);
    out
}

} // verus!
