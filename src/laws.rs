//! Properties of every recovery plan, proved from `is_recovery_plan`.
use crate::plan::{
    action_has, claimed_above, fills, is_recovery_plan, keeps, outranks, planned, report_has,
    share, untouched,
};
use crate::ranges::{spans_overlap, KeyRange};
use crate::region::{RecoverAction, ReportedRegion};
use vstd::prelude::*;

verus! {

/// No action of a plan holds a key of a valid-leader range.
pub proof fn lemma_valid_ranges_excluded(
    reports: Seq<ReportedRegion>,
    valid: Seq<KeyRange>,
    plan: Seq<RecoverAction>,
    a: int,
    v: int,
    k: Seq<u8>,
)
    requires
        is_recovery_plan(reports, valid, plan),
        0 <= a < plan.len(),
        0 <= v < valid.len(),
    ensures
        !(action_has(plan[a], k) && valid[v].contains(k)),
{
    if action_has(plan[a], k) {
        assert(planned(plan, k));
    }
}

/// Of two overlapping reports, the one with the higher epoch version is kept
/// as it is when no valid-leader range and no report that outranks it
/// overlaps it; the other is cut into, and what it fills lies outside the
/// range of the first.
pub proof fn lemma_higher_version_wins(
    reports: Seq<ReportedRegion>,
    valid: Seq<KeyRange>,
    plan: Seq<RecoverAction>,
    i: int,
    j: int,
)
    requires
        is_recovery_plan(reports, valid, plan),
        0 <= i < reports.len(),
        0 <= j < reports.len(),
        spans_overlap(
            reports[i].state.start_key@,
            reports[i].state.end_key@,
            reports[j].state.start_key@,
            reports[j].state.end_key@,
        ),
        reports[i].state.version > reports[j].state.version,
        untouched(reports, valid, i),
    ensures
        exists|a: int| 0 <= a < plan.len() && #[trigger] keeps(plan[a], reports[i]),
        !untouched(reports, valid, j),
        forall|a: int, k: Seq<u8>|
            0 <= a < plan.len() && fills(reports, valid, plan[a], j) && #[trigger] action_has(
                plan[a],
                k,
            ) ==> !report_has(reports[i], k),
{
    assert(outranks(reports, i, j));
    assert forall|a: int, k: Seq<u8>|
        0 <= a < plan.len() && fills(reports, valid, plan[a], j) && #[trigger] action_has(
            plan[a],
            k,
        ) implies !report_has(reports[i], k) by {
        assert(share(reports, valid, j, k));
        if report_has(reports[i], k) {
            assert(claimed_above(reports, j, k));
        }
    }
}

/// No two reports overlap.
#[verifier::opaque]
pub open spec fn reports_pairwise_disjoint(reports: Seq<ReportedRegion>) -> bool {
    forall|i: int, j: int|
        0 <= i < reports.len() && 0 <= j < reports.len() && i != j ==> !spans_overlap(
            (#[trigger] reports[i]).state.start_key@,
            reports[i].state.end_key@,
            (#[trigger] reports[j]).state.start_key@,
            reports[j].state.end_key@,
        )
}

/// Reports whose ranges are pairwise disjoint, with no valid-leader range,
/// are none of them cut into, so a recovery plan keeps each as it is.
pub proof fn lemma_disjoint_reports_untouched(reports: Seq<ReportedRegion>, valid: Seq<KeyRange>)
    requires
        valid.len() == 0,
        reports_pairwise_disjoint(reports),
    ensures
        forall|i: int| 0 <= i < reports.len() ==> #[trigger] untouched(reports, valid, i),
{
    reveal(reports_pairwise_disjoint);
    assert forall|i: int| 0 <= i < reports.len() implies #[trigger] untouched(reports, valid, i) by {
        assert forall|j: int|
            0 <= j < reports.len() && outranks(reports, j, i) implies !spans_overlap(
                reports[i].state.start_key@,
                reports[i].state.end_key@,
                (#[trigger] reports[j]).state.start_key@,
                reports[j].state.end_key@,
            ) by {}
    }
}

} // verus!
