//! The recovery plan: reconciling region reports into disjoint actions.
//!
//! Reports are folded in by descending epoch version, ties going to the
//! earlier report. Once a report has been folded in, the decided ranges cover
//! exactly the union of the ranges of the reports folded so far and of the
//! ranges of regions with a valid leader. So the part of a report that is
//! still open when its turn comes is its range minus the ranges of every
//! report that outranks it and of every valid-leader range: its share.
//! A report whose range meets none of those is kept as it is; otherwise the
//! pieces of its share become new regions on the store that reported it.
use crate::keys::{copy_key, in_range};
use crate::ranges::{
    covered, cut_out, disjoint_ranges, lemma_overlap_shares_key, ranges_overlap, spans_overlap,
    KeyRange,
};
use crate::region::{RecoverAction, RegionState, ReportedRegion};
use vstd::prelude::*;

verus! {

/// Key `k` lies in the range of report `r`.
pub open spec fn report_has(r: ReportedRegion, k: Seq<u8>) -> bool {
    in_range(r.state.start_key@, r.state.end_key@, k)
}

/// Key `k` lies in the range of action `a`.
pub open spec fn action_has(a: RecoverAction, k: Seq<u8>) -> bool {
    in_range(a.state.start_key@, a.state.end_key@, k)
}

/// Every report has a non-empty range.
pub open spec fn reports_wf(reports: Seq<ReportedRegion>) -> bool {
    forall|i: int| 0 <= i < reports.len() ==> (#[trigger] reports[i]).state.wf()
}

/// Every range is non-empty.
pub open spec fn ranges_wf(rs: Seq<KeyRange>) -> bool {
    forall|v: int| 0 <= v < rs.len() ==> (#[trigger] rs[v]).wf()
}

/// Report `j` is folded in before report `i`: it has a higher epoch version,
/// or the same version and an earlier place in the input.
pub open spec fn outranks(reports: Seq<ReportedRegion>, j: int, i: int) -> bool {
    reports[j].state.version > reports[i].state.version || (reports[j].state.version
        == reports[i].state.version && j < i)
}

/// Some report holds `k`.
pub open spec fn reported(reports: Seq<ReportedRegion>, k: Seq<u8>) -> bool {
    exists|i: int| 0 <= i < reports.len() && #[trigger] report_has(reports[i], k)
}

/// A report that outranks report `i` holds `k`.
pub open spec fn claimed_above(reports: Seq<ReportedRegion>, i: int, k: Seq<u8>) -> bool {
    exists|j: int|
        0 <= j < reports.len() && outranks(reports, j, i) && #[trigger] report_has(reports[j], k)
}

/// Key `k` falls to report `i`: it holds `k`, no valid-leader range does and
/// no report that outranks it does.
pub open spec fn share(
    reports: Seq<ReportedRegion>,
    valid: Seq<KeyRange>,
    i: int,
    k: Seq<u8>,
) -> bool {
    report_has(reports[i], k) && !covered(valid, k) && !claimed_above(reports, i, k)
}

/// Report `i` overlaps no valid-leader range and no report that outranks it,
/// so it is kept as it is.
pub open spec fn untouched(reports: Seq<ReportedRegion>, valid: Seq<KeyRange>, i: int) -> bool {
    let s = reports[i].state.start_key@;
    let e = reports[i].state.end_key@;
    &&& forall|v: int|
        0 <= v < valid.len() ==> !spans_overlap(
            s,
            e,
            (#[trigger] valid[v]).start_key@,
            valid[v].end_key@,
        )
    &&& forall|j: int|
        0 <= j < reports.len() && outranks(reports, j, i) ==> !spans_overlap(
            s,
            e,
            (#[trigger] reports[j]).state.start_key@,
            reports[j].state.end_key@,
        )
}

/// Every action has a non-empty range and no key lies in two actions.
pub open spec fn plan_disjoint(plan: Seq<RecoverAction>) -> bool {
    &&& forall|a: int| 0 <= a < plan.len() ==> (#[trigger] plan[a]).state.wf()
    &&& forall|a: int, b: int, k: Seq<u8>|
        0 <= a < plan.len() && 0 <= b < plan.len() && a != b && #[trigger] action_has(plan[a], k)
            ==> !#[trigger] action_has(plan[b], k)
}

/// Some action of the plan holds `k`.
pub open spec fn planned(plan: Seq<RecoverAction>, k: Seq<u8>) -> bool {
    exists|a: int| 0 <= a < plan.len() && #[trigger] action_has(plan[a], k)
}

/// The share of report `i` as disjoint ranges, and whether anything cut
/// into its range.
fn share_pieces(reports: &Vec<ReportedRegion>, valid: &Vec<KeyRange>, i: usize) -> (r: (
    Vec<KeyRange>,
    bool,
))
    requires
        reports_wf(reports@),
        ranges_wf(valid@),
        i < reports.len(),
    ensures
        disjoint_ranges(r.0@),
        forall|k: Seq<u8>| covered(r.0@, k) <==> share(reports@, valid@, i as int, k),
        r.1 == !untouched(reports@, valid@, i as int),
{
    let ri = &reports[i].state;
    let mut pieces: Vec<KeyRange> = Vec::new();
    pieces.push(KeyRange { start_key: copy_key(&ri.start_key), end_key: copy_key(&ri.end_key) });
    assert(reports@[i as int].state.wf());
    assert forall|k: Seq<u8>| covered(pieces@, k) <==> report_has(reports@[i as int], k) by {
        if report_has(reports@[i as int], k) {
            assert(pieces@[0].contains(k));
        }
    }
    let mut touched = false;
    let mut v: usize = 0;
    while v < valid.len()
        invariant
            reports_wf(reports@),
            ranges_wf(valid@),
            i < reports.len(),
            ri == reports@[i as int].state,
            v <= valid.len(),
            disjoint_ranges(pieces@),
            forall|k: Seq<u8>|
                covered(pieces@, k) <==> report_has(reports@[i as int], k) && !(exists|w: int|
                    0 <= w < v && #[trigger] valid@[w].contains(k)),
            touched <==> exists|w: int|
                0 <= w < v && #[trigger] spans_overlap(
                    ri.start_key@,
                    ri.end_key@,
                    valid@[w].start_key@,
                    valid@[w].end_key@,
                ),
        decreases valid.len() - v,
    {
        let vr = &valid[v];
        let ghost prev = pieces@;
        assert(valid@[v as int].wf());
        let next = cut_out(&pieces, &vr.start_key, &vr.end_key);
        let o = ranges_overlap(&ri.start_key, &ri.end_key, &vr.start_key, &vr.end_key);
        touched = touched || o;
        pieces = next;
        assert forall|k: Seq<u8>|
            covered(pieces@, k) <==> report_has(reports@[i as int], k) && !(exists|w: int|
                0 <= w < v + 1 && #[trigger] valid@[w].contains(k)) by {
            assert(covered(pieces@, k) == (covered(prev, k) && !valid@[v as int].contains(k)));
            if exists|w: int| 0 <= w < v + 1 && #[trigger] valid@[w].contains(k) {
                let w = choose|w: int| 0 <= w < v + 1 && #[trigger] valid@[w].contains(k);
                if w < v {
                } else {
                    assert(valid@[w] == valid@[v as int]);
                }
            }
        }
        v = v + 1;
    }
    let vi = ri.version;
    let mut j: usize = 0;
    while j < reports.len()
        invariant
            reports_wf(reports@),
            ranges_wf(valid@),
            i < reports.len(),
            ri == reports@[i as int].state,
            vi == ri.version,
            j <= reports.len(),
            disjoint_ranges(pieces@),
            forall|k: Seq<u8>|
                covered(pieces@, k) <==> report_has(reports@[i as int], k) && !covered(valid@, k)
                    && !(exists|w: int|
                    0 <= w < j && outranks(reports@, w, i as int) && #[trigger] report_has(
                        reports@[w],
                        k,
                    )),
            touched <==> (exists|w: int|
                0 <= w < valid.len() && #[trigger] spans_overlap(
                    ri.start_key@,
                    ri.end_key@,
                    valid@[w].start_key@,
                    valid@[w].end_key@,
                )) || (exists|w: int|
                0 <= w < j && outranks(reports@, w, i as int) && #[trigger] spans_overlap(
                    ri.start_key@,
                    ri.end_key@,
                    reports@[w].state.start_key@,
                    reports@[w].state.end_key@,
                )),
        decreases reports.len() - j,
    {
        let rj = &reports[j].state;
        let ghost prev = pieces@;
        if rj.version > vi || (rj.version == vi && j < i) {
            assert(reports@[j as int].state.wf());
            let next = cut_out(&pieces, &rj.start_key, &rj.end_key);
            let o = ranges_overlap(&ri.start_key, &ri.end_key, &rj.start_key, &rj.end_key);
            touched = touched || o;
            pieces = next;
        }
        assert forall|k: Seq<u8>|
            covered(pieces@, k) <==> report_has(reports@[i as int], k) && !covered(valid@, k) && !(
            exists|w: int|
                0 <= w < j + 1 && outranks(reports@, w, i as int) && #[trigger] report_has(
                    reports@[w],
                    k,
                )) by {
            if outranks(reports@, j as int, i as int) {
                assert(covered(pieces@, k) == (covered(prev, k) && !report_has(
                    reports@[j as int],
                    k,
                )));
            } else {
                assert(pieces@ == prev);
            }
            if exists|w: int|
                0 <= w < j + 1 && outranks(reports@, w, i as int) && #[trigger] report_has(
                    reports@[w],
                    k,
                ) {
                let w = choose|w: int|
                    0 <= w < j + 1 && outranks(reports@, w, i as int) && #[trigger] report_has(
                        reports@[w],
                        k,
                    );
                if w < j {
                } else {
                    assert(reports@[w] == reports@[j as int]);
                }
            }
        }
        j = j + 1;
    }
    proof {
        let s = ri.start_key@;
        let e = ri.end_key@;
        if touched {
            if exists|w: int|
                0 <= w < valid.len() && #[trigger] spans_overlap(
                    s,
                    e,
                    valid@[w].start_key@,
                    valid@[w].end_key@,
                ) {
                let w = choose|w: int|
                    0 <= w < valid.len() && #[trigger] spans_overlap(
                        s,
                        e,
                        valid@[w].start_key@,
                        valid@[w].end_key@,
                    );
                assert(!spans_overlap(s, e, valid@[w].start_key@, valid@[w].end_key@) ==> false);
            }
        }
    }
    (pieces, touched)
}

/// Action `act` keeps report `r` as it is.
pub open spec fn keeps(act: RecoverAction, r: ReportedRegion) -> bool {
    act.create_on is None && act.state@ == r.state@
}

/// Action `act` creates a new empty region on the store of report `i`,
/// over keys that fall to that report, which was cut into.
pub open spec fn fills(
    reports: Seq<ReportedRegion>,
    valid: Seq<KeyRange>,
    act: RecoverAction,
    i: int,
) -> bool {
    &&& act.create_on == Some(reports[i].store_id)
    &&& act.state.id == 0
    &&& act.state.version == 0
    &&& !untouched(reports, valid, i)
    &&& forall|k: Seq<u8>| #[trigger] action_has(act, k) ==> share(reports, valid, i, k)
}

/// Among the first `m` reports that hold `k`, one is outranked by no other
/// of them that holds `k`.
pub proof fn lemma_top_claim(reports: Seq<ReportedRegion>, k: Seq<u8>, m: int)
    requires
        0 <= m <= reports.len(),
        exists|i: int| 0 <= i < m && #[trigger] report_has(reports[i], k),
    ensures
        exists|t: int|
            0 <= t < m && report_has(reports[t], k) && forall|j: int|
                0 <= j < m && #[trigger] outranks(reports, j, t) ==> !report_has(reports[j], k),
    decreases m,
{
    let last = m - 1;
    if exists|i: int| 0 <= i < last && #[trigger] report_has(reports[i], k) {
        lemma_top_claim(reports, k, last);
        let t = choose|t: int|
            0 <= t < last && report_has(reports[t], k) && forall|j: int|
                0 <= j < last && #[trigger] outranks(reports, j, t) ==> !report_has(reports[j], k);
        if report_has(reports[last], k) && outranks(reports, last, t) {
            assert forall|j: int|
                0 <= j < m && #[trigger] outranks(reports, j, last) implies !report_has(
                    reports[j],
                    k,
                ) by {
                assert(outranks(reports, j, t));
            }
        } else {
            assert forall|j: int|
                0 <= j < m && #[trigger] outranks(reports, j, t) implies !report_has(
                    reports[j],
                    k,
                ) by {}
        }
    } else {
        assert forall|j: int|
            0 <= j < m && #[trigger] outranks(reports, j, last) implies !report_has(
                reports[j],
                k,
            ) by {}
    }
}

/// A key falls to at most one report.
pub proof fn lemma_share_exclusive(
    reports: Seq<ReportedRegion>,
    valid: Seq<KeyRange>,
    i: int,
    j: int,
    k: Seq<u8>,
)
    requires
        0 <= i < reports.len(),
        0 <= j < reports.len(),
        i != j,
    ensures
        !(share(reports, valid, i, k) && share(reports, valid, j, k)),
{
    if share(reports, valid, i, k) && share(reports, valid, j, k) {
        if outranks(reports, j, i) {
            assert(claimed_above(reports, i, k));
        } else {
            assert(outranks(reports, i, j));
            assert(claimed_above(reports, j, k));
        }
    }
}

/// A report that nothing cut into keeps every key of its range.
proof fn lemma_untouched_share(
    reports: Seq<ReportedRegion>,
    valid: Seq<KeyRange>,
    i: int,
    k: Seq<u8>,
)
    requires
        reports_wf(reports),
        ranges_wf(valid),
        0 <= i < reports.len(),
        untouched(reports, valid, i),
        report_has(reports[i], k),
    ensures
        share(reports, valid, i, k),
{
    let s = reports[i].state.start_key@;
    let e = reports[i].state.end_key@;
    assert(reports[i].state.wf());
    if covered(valid, k) {
        let v = choose|v: int| 0 <= v < valid.len() && #[trigger] valid[v].contains(k);
        assert(valid[v].wf());
        lemma_overlap_shares_key(s, e, valid[v].start_key@, valid[v].end_key@);
    }
    if claimed_above(reports, i, k) {
        let j = choose|j: int|
            0 <= j < reports.len() && outranks(reports, j, i) && #[trigger] report_has(
                reports[j],
                k,
            );
        assert(reports[j].state.wf());
        lemma_overlap_shares_key(s, e, reports[j].state.start_key@, reports[j].state.end_key@);
    }
}

/// Appends one action creating an empty region on `store_id` for each range
/// of `pieces`, in order.
fn push_creates(plan: &mut Vec<RecoverAction>, pieces: &Vec<KeyRange>, store_id: u64)
    ensures
        final(plan)@.len() == old(plan)@.len() + pieces@.len(),
        forall|a: int| 0 <= a < old(plan)@.len() ==> #[trigger] final(plan)@[a] == old(plan)@[a],
        forall|p: int|
            0 <= p < pieces@.len() ==> {
                let act = #[trigger] final(plan)@[old(plan)@.len() + p];
                &&& act.create_on == Some(store_id)
                &&& act.state.id == 0
                &&& act.state.version == 0
                &&& act.state.start_key@ == pieces@[p].start_key@
                &&& act.state.end_key@ == pieces@[p].end_key@
            },
{
    let ghost n0 = plan@.len();
    let mut p: usize = 0;
    while p < pieces.len()
        invariant
            p <= pieces.len(),
            plan@.len() == n0 + p,
            n0 == old(plan)@.len(),
            forall|a: int| 0 <= a < n0 ==> #[trigger] plan@[a] == old(plan)@[a],
            forall|q: int|
                0 <= q < p ==> {
                    let act = #[trigger] plan@[n0 + q];
                    &&& act.create_on == Some(store_id)
                    &&& act.state.id == 0
                    &&& act.state.version == 0
                    &&& act.state.start_key@ == pieces@[q].start_key@
                    &&& act.state.end_key@ == pieces@[q].end_key@
                },
        decreases pieces.len() - p,
    {
        let piece = &pieces[p];
        let state = RegionState {
            id: 0,
            start_key: copy_key(&piece.start_key),
            end_key: copy_key(&piece.end_key),
            version: 0,
        };
        plan.push(RecoverAction::create(state, store_id));
        assert forall|q: int| 0 <= q < p + 1 implies {
            let act = #[trigger] plan@[n0 + q];
            &&& act.create_on == Some(store_id)
            &&& act.state.id == 0
            &&& act.state.version == 0
            &&& act.state.start_key@ == pieces@[q].start_key@
            &&& act.state.end_key@ == pieces@[q].end_key@
        } by {}
        p = p + 1;
    }
}

/// `plan` is a recovery plan for `reports` given the valid-leader ranges
/// `valid`: its actions are non-empty and disjoint, and together they hold
/// exactly the reported keys that no valid-leader range holds. A report that
/// overlaps no valid-leader range and no report that outranks it is kept as
/// it is, and only such reports are kept. Every other action creates an
/// empty region, on the store of the report whose share it fills.
pub open spec fn is_recovery_plan(
    reports: Seq<ReportedRegion>,
    valid: Seq<KeyRange>,
    plan: Seq<RecoverAction>,
) -> bool {
    &&& plan_disjoint(plan)
    &&& forall|k: Seq<u8>| planned(plan, k) <==> reported(reports, k) && !covered(valid, k)
    &&& forall|i: int|
        0 <= i < reports.len() && untouched(reports, valid, i) ==> exists|a: int|
            0 <= a < plan.len() && #[trigger] keeps(plan[a], reports[i])
    &&& forall|a: int|
        0 <= a < plan.len() && (#[trigger] plan[a]).create_on is None ==> exists|i: int|
            0 <= i < reports.len() && untouched(reports, valid, i) && keeps(plan[a], reports[i])
    &&& forall|a: int|
        0 <= a < plan.len() && (#[trigger] plan[a]).create_on is Some ==> exists|i: int|
            0 <= i < reports.len() && fills(reports, valid, plan[a], i)
}

/// The plan holds the shares of the first `i` reports, as stated by
/// `compute_recovery_plan`.
pub open spec fn plan_inv(
    plan: Seq<RecoverAction>,
    rs: Seq<ReportedRegion>,
    vs: Seq<KeyRange>,
    i: int,
) -> bool {
    &&& reports_wf(rs)
    &&& ranges_wf(vs)
    &&& 0 <= i <= rs.len()
    &&& plan_disjoint(plan)
    &&& forall|k: Seq<u8>|
        planned(plan, k) <==> exists|i2: int| 0 <= i2 < i && #[trigger] share(rs, vs, i2, k)
    &&& forall|i2: int|
        0 <= i2 < i && untouched(rs, vs, i2) ==> exists|a: int|
            0 <= a < plan.len() && #[trigger] keeps(plan[a], rs[i2])
    &&& forall|a: int|
        0 <= a < plan.len() && (#[trigger] plan[a]).create_on is None ==> exists|i2: int|
            0 <= i2 < i && untouched(rs, vs, i2) && keeps(plan[a], rs[i2])
    &&& forall|a: int|
        0 <= a < plan.len() && (#[trigger] plan[a]).create_on is Some ==> exists|i2: int|
            0 <= i2 < i && fills(rs, vs, plan[a], i2)
}

/// Folds in report `i`, which nothing cut into: it is kept.
#[verifier::rlimit(40)]
fn fold_keep(plan: &mut Vec<RecoverAction>, reports: &Vec<ReportedRegion>, valid_ranges: &Vec<KeyRange>, i: usize)
    requires
        plan_inv(old(plan)@, reports@, valid_ranges@, i as int),
        i < reports.len(),
        untouched(reports@, valid_ranges@, i as int),
    ensures
        plan_inv(final(plan)@, reports@, valid_ranges@, i + 1),
{
    let ghost rs = reports@;
    let ghost vs = valid_ranges@;
    let ghost before = plan@;
        plan.push(RecoverAction::keep(reports[i].state.copy()));
        let ghost n0 = before.len();
        assert(keeps(plan@[n0 as int], rs[i as int]));
        assert forall|k: Seq<u8>| #[trigger]
            action_has(plan@[n0 as int], k) implies share(rs, vs, i as int, k) by {
            lemma_untouched_share(rs, vs, i as int, k);
        }
        assert(plan@[n0 as int].state.wf()) by {
            assert(rs[i as int].state.wf());
        }
        assert forall|a: int, b: int, k: Seq<u8>|
            0 <= a < plan@.len() && 0 <= b < plan@.len() && a != b && #[trigger] action_has(
                plan@[a],
                k,
            ) implies !#[trigger] action_has(plan@[b], k) by {
            if a < n0 && b < n0 {
                assert(plan@[a] == before[a] && plan@[b] == before[b]);
            } else if action_has(plan@[a], k) && action_has(plan@[b], k) {
                let old_a = if a < n0 { a } else { b };
                assert(plan@[old_a] == before[old_a]);
                assert(planned(before, k));
                let i2 = choose|i2: int| 0 <= i2 < i && #[trigger] share(rs, vs, i2, k);
                lemma_share_exclusive(rs, vs, i as int, i2, k);
            }
        }
        assert forall|k: Seq<u8>|
            planned(plan@, k) <==> exists|i2: int|
                0 <= i2 < i + 1 && #[trigger] share(rs, vs, i2, k) by {
            if planned(plan@, k) {
                let a = choose|a: int| 0 <= a < plan@.len() && #[trigger] action_has(plan@[a], k);
                if a < n0 {
                    assert(plan@[a] == before[a]);
                    assert(planned(before, k));
                }
            }
            if exists|i2: int| 0 <= i2 < i + 1 && #[trigger] share(rs, vs, i2, k) {
                let i2 = choose|i2: int| 0 <= i2 < i + 1 && #[trigger] share(rs, vs, i2, k);
                if i2 < i {
                    assert(planned(before, k));
                    let a = choose|a: int| 0 <= a < before.len() && #[trigger] action_has(before[a], k);
                    assert(plan@[a] == before[a]);
                } else {
                    assert(action_has(plan@[n0 as int], k));
                }
            }
        }
        assert forall|i2: int|
            0 <= i2 < i + 1 && untouched(rs, vs, i2) implies exists|a: int|
                0 <= a < plan@.len() && #[trigger] keeps(plan@[a], rs[i2]) by {
            if i2 < i {
                let a = choose|a: int| 0 <= a < before.len() && #[trigger] keeps(before[a], rs[i2]);
                assert(plan@[a] == before[a]);
            }
        }
        assert forall|a: int|
            0 <= a < plan@.len() && (#[trigger] plan@[a]).create_on is None implies exists|i2: int|
                0 <= i2 < i + 1 && untouched(rs, vs, i2) && keeps(plan@[a], rs[i2]) by {
            if a < n0 {
                assert(plan@[a] == before[a]);
            }
        }
        assert forall|a: int|
            0 <= a < plan@.len() && (#[trigger] plan@[a]).create_on is Some implies exists|i2: int|
                0 <= i2 < i + 1 && fills(rs, vs, plan@[a], i2) by {
            assert(plan@[a] == before[a]);
        }
}

/// Folds in report `i`, which was cut into: each piece of its share becomes
/// a new region on its store.
fn fold_create(
    plan: &mut Vec<RecoverAction>,
    reports: &Vec<ReportedRegion>,
    valid_ranges: &Vec<KeyRange>,
    i: usize,
    pieces: &Vec<KeyRange>,
)
    requires
        plan_inv(old(plan)@, reports@, valid_ranges@, i as int),
        i < reports.len(),
        !untouched(reports@, valid_ranges@, i as int),
        disjoint_ranges(pieces@),
        forall|k: Seq<u8>| covered(pieces@, k) <==> share(reports@, valid_ranges@, i as int, k),
    ensures
        plan_inv(final(plan)@, reports@, valid_ranges@, i + 1),
{
    let ghost rs = reports@;
    let ghost vs = valid_ranges@;
    let ghost before = plan@;
        push_creates(plan, pieces, reports[i].store_id);
        let ghost n0 = before.len();
        assert forall|a: int| n0 <= a < plan@.len() implies fills(rs, vs, #[trigger] plan@[a], i as int)
            by {
            let p = a - n0;
            assert(plan@[n0 + p] == plan@[a]);
            assert forall|k: Seq<u8>| #[trigger] action_has(plan@[a], k) implies share(rs, vs, i as int, k) by {
                assert(pieces@[p].contains(k));
                assert(covered(pieces@, k));
            }
        }
        assert forall|a: int| 0 <= a < plan@.len() implies (#[trigger] plan@[a]).state.wf() by {
            if a < n0 {
                assert(plan@[a] == before[a]);
            } else {
                let p = a - n0;
                assert(plan@[n0 + p] == plan@[a]);
                assert(pieces@[p].wf());
            }
        }
        assert forall|a: int, b: int, k: Seq<u8>|
            0 <= a < plan@.len() && 0 <= b < plan@.len() && a != b && #[trigger] action_has(
                plan@[a],
                k,
            ) implies !#[trigger] action_has(plan@[b], k) by {
            if a < n0 && b < n0 {
                assert(plan@[a] == before[a] && plan@[b] == before[b]);
            } else if a >= n0 && b >= n0 {
                let pa = a - n0;
                let pb = b - n0;
                assert(plan@[n0 + pa] == plan@[a]);
                assert(plan@[n0 + pb] == plan@[b]);
                if action_has(plan@[a], k) && action_has(plan@[b], k) {
                    assert(pieces@[pa].contains(k));
                    assert(pieces@[pb].contains(k));
                }
            } else if action_has(plan@[a], k) && action_has(plan@[b], k) {
                let (old_a, new_a) = if a < n0 { (a, b) } else { (b, a) };
                assert(plan@[old_a] == before[old_a]);
                assert(planned(before, k));
                let i2 = choose|i2: int| 0 <= i2 < i && #[trigger] share(rs, vs, i2, k);
                assert(fills(rs, vs, plan@[new_a], i as int));
                lemma_share_exclusive(rs, vs, i as int, i2, k);
            }
        }
        assert forall|k: Seq<u8>|
            planned(plan@, k) <==> exists|i2: int|
                0 <= i2 < i + 1 && #[trigger] share(rs, vs, i2, k) by {
            if planned(plan@, k) {
                let a = choose|a: int| 0 <= a < plan@.len() && #[trigger] action_has(plan@[a], k);
                if a < n0 {
                    assert(plan@[a] == before[a]);
                    assert(planned(before, k));
                } else {
                    assert(fills(rs, vs, plan@[a], i as int));
                }
            }
            if exists|i2: int| 0 <= i2 < i + 1 && #[trigger] share(rs, vs, i2, k) {
                let i2 = choose|i2: int| 0 <= i2 < i + 1 && #[trigger] share(rs, vs, i2, k);
                if i2 < i {
                    assert(planned(before, k));
                    let a = choose|a: int| 0 <= a < before.len() && #[trigger] action_has(before[a], k);
                    assert(plan@[a] == before[a]);
                } else {
                    assert(covered(pieces@, k));
                    let p = choose|p: int| 0 <= p < pieces@.len() && #[trigger] pieces@[p].contains(k);
                    assert(action_has(plan@[n0 + p], k));
                }
            }
        }
        assert forall|i2: int|
            0 <= i2 < i + 1 && untouched(rs, vs, i2) implies exists|a: int|
                0 <= a < plan@.len() && #[trigger] keeps(plan@[a], rs[i2]) by {
            if i2 < i {
                let a = choose|a: int| 0 <= a < before.len() && #[trigger] keeps(before[a], rs[i2]);
                assert(plan@[a] == before[a]);
            }
        }
        assert forall|a: int|
            0 <= a < plan@.len() && (#[trigger] plan@[a]).create_on is None implies exists|i2: int|
                0 <= i2 < i + 1 && untouched(rs, vs, i2) && keeps(plan@[a], rs[i2]) by {
            if a < n0 {
                assert(plan@[a] == before[a]);
            } else {
                assert(fills(rs, vs, plan@[a], i as int));
            }
        }
        assert forall|a: int|
            0 <= a < plan@.len() && (#[trigger] plan@[a]).create_on is Some implies exists|i2: int|
                0 <= i2 < i + 1 && fills(rs, vs, plan@[a], i2) by {
            if a < n0 {
                assert(plan@[a] == before[a]);
            } else {
                assert(fills(rs, vs, plan@[a], i as int));
            }
        }
    }

/// The recovery plan for `reports`, given the ranges of regions that have a
/// valid leader.
pub fn compute_recovery_plan(reports: &Vec<ReportedRegion>, valid_ranges: &Vec<KeyRange>) -> (plan:
    Vec<RecoverAction>)
    requires
        reports_wf(reports@),
        ranges_wf(valid_ranges@),
    ensures
        is_recovery_plan(reports@, valid_ranges@, plan@),
{
    let ghost rs = reports@;
    let ghost vs = valid_ranges@;
    let mut plan: Vec<RecoverAction> = Vec::new();
    let mut i: usize = 0;
    while i < reports.len()
        invariant
            rs == reports@,
            vs == valid_ranges@,
            i <= reports.len(),
            plan_inv(plan@, rs, vs, i as int),
        decreases reports.len() - i,
    {
        let (pieces, touched) = share_pieces(reports, valid_ranges, i);
        if !touched {
            fold_keep(&mut plan, reports, valid_ranges, i);
        } else {
            fold_create(&mut plan, reports, valid_ranges, i, &pieces);
        }
        i = i + 1;
    }
    assert forall|k: Seq<u8>|
        planned(plan@, k) <==> reported(rs, k) && !covered(vs, k) by {
        if reported(rs, k) && !covered(vs, k) {
            lemma_top_claim(rs, k, rs.len() as int);
            let t = choose|t: int|
                0 <= t < rs.len() && report_has(rs[t], k) && forall|j: int|
                    0 <= j < rs.len() && #[trigger] outranks(rs, j, t) ==> !report_has(rs[j], k);
            assert(share(rs, vs, t, k));
        }
        if planned(plan@, k) {
            let i2 = choose|i2: int| 0 <= i2 < rs.len() && #[trigger] share(rs, vs, i2, k);
            assert(report_has(rs[i2], k));
        }
    }
    plan
}

/// Whether the region `region_id` has a valid leader. No region is known to
/// have one, so every reported region takes part in the plan.
pub fn region_has_valid_leader(region_id: u64) -> (r: bool)
    ensures
        !r,
{
    false
}

/// The recovery plan for the regions the stores reported: regions with a
/// valid leader are left out, and the rest are reconciled.
pub fn get_recover_strategy(region_states: Vec<ReportedRegion>) -> (plan: Vec<RecoverAction>)
    requires
        reports_wf(region_states@),
    ensures
        is_recovery_plan(region_states@, Seq::<KeyRange>::empty(), plan@),
{
    let ghost all = region_states@;
    let mut rest = region_states;
    let mut candidates: Vec<ReportedRegion> = Vec::new();
    let mut valid_ranges: Vec<KeyRange> = Vec::new();
    while rest.len() > 0
        invariant
            candidates@ + rest@ == all,
            valid_ranges@.len() == 0,
        decreases rest.len(),
    {
        let ghost before = rest@;
        let r = rest.remove(0);
        if region_has_valid_leader(r.state.id) {
            valid_ranges.push(
                KeyRange { start_key: copy_key(&r.state.start_key), end_key: copy_key(&r.state.end_key) },
            );
        } else {
            candidates.push(r);
        }
        assert(candidates@ + rest@ =~= all) by {
            assert(before =~= seq![before[0]] + rest@);
        }
    }
    assert(candidates@ =~= all);
    assert(valid_ranges@ =~= Seq::<KeyRange>::empty());
    compute_recovery_plan(&candidates, &valid_ranges)
}

} // verus!
