use recovery_plan::plan::{compute_recovery_plan, get_recover_strategy, region_has_valid_leader};
use recovery_plan::ranges::KeyRange;
use recovery_plan::region::{RecoverAction, RegionState, ReportedRegion};

type Row = (Vec<u8>, Vec<u8>, u64, u64, Option<u64>);

fn report(id: u64, start: &[u8], end: &[u8], version: u64, store: u64) -> ReportedRegion {
    ReportedRegion::new(RegionState::new(id, start.to_vec(), end.to_vec(), version), store)
}

fn rows(plan: &[RecoverAction]) -> Vec<Row> {
    let mut r: Vec<Row> = plan
        .iter()
        .map(|a| {
            (
                a.state.start_key.clone(),
                a.state.end_key.clone(),
                a.state.id,
                a.state.version,
                a.create_on,
            )
        })
        .collect();
    r.sort();
    r
}

fn keep(id: u64, start: &[u8], end: &[u8], version: u64) -> Row {
    (start.to_vec(), end.to_vec(), id, version, None)
}

fn create(start: &[u8], end: &[u8], store: u64) -> Row {
    (start.to_vec(), end.to_vec(), 0, 0, Some(store))
}

#[test]
fn single_report_is_kept() {
    let plan = get_recover_strategy(vec![report(7, b"a", b"c", 5, 1)]);
    assert_eq!(rows(&plan), vec![keep(7, b"a", b"c", 5)]);
}

#[test]
fn empty_input_gives_empty_plan() {
    let plan = get_recover_strategy(Vec::new());
    assert!(plan.is_empty());
}

#[test]
fn full_overlap_keeps_higher_version_only() {
    let plan = get_recover_strategy(vec![report(1, b"a", b"c", 5, 1), report(2, b"a", b"c", 3, 2)]);
    assert_eq!(rows(&plan), vec![keep(1, b"a", b"c", 5)]);
}

#[test]
fn lower_version_fills_gaps_around_higher() {
    let plan = get_recover_strategy(vec![report(1, b"b", b"c", 5, 1), report(2, b"a", b"d", 3, 2)]);
    assert_eq!(
        rows(&plan),
        vec![create(b"a", b"b", 2), keep(1, b"b", b"c", 5), create(b"c", b"d", 2)]
    );
}

#[test]
fn higher_version_wins_whatever_the_input_order() {
    let plan = get_recover_strategy(vec![report(2, b"a", b"d", 3, 2), report(1, b"b", b"c", 5, 1)]);
    assert_eq!(
        rows(&plan),
        vec![create(b"a", b"b", 2), keep(1, b"b", b"c", 5), create(b"c", b"d", 2)]
    );
}

#[test]
fn disjoint_reports_are_all_kept() {
    let plan = get_recover_strategy(vec![
        report(3, b"m", b"", 2, 3),
        report(1, b"", b"f", 9, 1),
        report(2, b"f", b"m", 4, 2),
    ]);
    assert_eq!(
        rows(&plan),
        vec![keep(1, b"", b"f", 9), keep(2, b"f", b"m", 4), keep(3, b"m", b"", 2)]
    );
}

#[test]
fn partial_overlap_trims_lower_version() {
    let plan = get_recover_strategy(vec![report(1, b"a", b"c", 5, 1), report(2, b"b", b"e", 3, 2)]);
    assert_eq!(rows(&plan), vec![keep(1, b"a", b"c", 5), create(b"c", b"e", 2)]);
}

#[test]
fn unbounded_ranges_are_reconciled() {
    let plan = get_recover_strategy(vec![report(2, b"a", b"", 3, 2), report(1, b"k", b"", 8, 1)]);
    assert_eq!(rows(&plan), vec![create(b"a", b"k", 2), keep(1, b"k", b"", 8)]);
}

#[test]
fn lower_version_inside_higher_contributes_nothing() {
    let plan = get_recover_strategy(vec![report(1, b"a", b"z", 6, 1), report(2, b"c", b"d", 2, 2)]);
    assert_eq!(rows(&plan), vec![keep(1, b"a", b"z", 6)]);
}

#[test]
fn equal_versions_go_to_the_earlier_report() {
    let plan = get_recover_strategy(vec![report(1, b"a", b"c", 4, 1), report(2, b"b", b"d", 4, 2)]);
    assert_eq!(rows(&plan), vec![keep(1, b"a", b"c", 4), create(b"c", b"d", 2)]);
}

#[test]
fn prefix_key_sorts_first() {
    let plan = get_recover_strategy(vec![report(1, b"ab", b"b", 5, 1), report(2, b"a", b"b", 1, 2)]);
    assert_eq!(rows(&plan), vec![create(b"a", b"ab", 2), keep(1, b"ab", b"b", 5)]);
}

#[test]
fn three_reports_fill_between_two_kept() {
    let plan = get_recover_strategy(vec![
        report(3, b"a", b"z", 1, 3),
        report(1, b"c", b"f", 9, 1),
        report(2, b"m", b"p", 7, 2),
    ]);
    assert_eq!(
        rows(&plan),
        vec![
            create(b"a", b"c", 3),
            keep(1, b"c", b"f", 9),
            create(b"f", b"m", 3),
            keep(2, b"m", b"p", 7),
            create(b"p", b"z", 3),
        ]
    );
}

#[test]
fn valid_leader_range_clips_a_report() {
    let valid = vec![KeyRange::new(b"b".to_vec(), b"c".to_vec())];
    let plan = compute_recovery_plan(&vec![report(1, b"a", b"d", 5, 1)], &valid);
    assert_eq!(rows(&plan), vec![create(b"a", b"b", 1), create(b"c", b"d", 1)]);
}

#[test]
fn valid_leader_range_drops_a_covered_report() {
    let valid = vec![KeyRange::new(b"a".to_vec(), b"".to_vec())];
    let plan = compute_recovery_plan(
        &vec![report(1, b"b", b"d", 5, 1), report(2, b"a", b"c", 2, 2)],
        &valid,
    );
    assert!(plan.is_empty());
}

#[test]
fn valid_leader_range_clips_a_create() {
    let valid = vec![KeyRange::new(b"a".to_vec(), b"b".to_vec())];
    let plan = compute_recovery_plan(
        &vec![report(1, b"c", b"d", 5, 1), report(2, b"a", b"e", 2, 2)],
        &valid,
    );
    assert_eq!(
        rows(&plan),
        vec![create(b"b", b"c", 2), keep(1, b"c", b"d", 5), create(b"d", b"e", 2)]
    );
}

#[test]
fn valid_leader_range_away_from_reports_changes_nothing() {
    let valid = vec![KeyRange::new(b"x".to_vec(), b"y".to_vec())];
    let plan = compute_recovery_plan(&vec![report(1, b"a", b"c", 5, 1)], &valid);
    assert_eq!(rows(&plan), vec![keep(1, b"a", b"c", 5)]);
}

#[test]
fn no_region_has_a_valid_leader() {
    assert!(!region_has_valid_leader(1));
    assert!(!region_has_valid_leader(0));
}

#[test]
fn action_constructors_set_the_target() {
    let k = RecoverAction::keep(RegionState::new(4, b"a".to_vec(), b"b".to_vec(), 2));
    assert_eq!(k.create_on, None);
    let c = RecoverAction::create(RegionState::new(0, b"a".to_vec(), b"b".to_vec(), 0), 9);
    assert_eq!(c.create_on, Some(9));
    assert_eq!(c.state.start_key, b"a".to_vec());
}
