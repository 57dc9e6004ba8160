use philis::coverage::RuleFamilyCoverage;
use philis::drc::ViolationKind;

const FAMILIES: usize = 14;

#[test]
fn record_check_updates_checked_and_violations() {
    let mut cov = RuleFamilyCoverage::default();
    cov.record_check(ViolationKind::Spacing, false);
    cov.record_check(ViolationKind::Spacing, true);
    cov.record_check(ViolationKind::Width, true);

    assert_eq!(cov.checked_count(ViolationKind::Spacing), 2);
    assert_eq!(cov.violation_count(ViolationKind::Spacing), 1);
    assert_eq!(cov.checked_count(ViolationKind::Width), 1);
    assert_eq!(cov.violation_count(ViolationKind::Width), 1);
    assert_eq!(cov.total_checked(), 3);
    assert_eq!(cov.total_violations(), 2);
}

#[test]
fn unchecked_families_excludes_checked_kinds() {
    let mut cov = RuleFamilyCoverage::default();
    cov.record_check(ViolationKind::Spacing, false);
    cov.record_check(ViolationKind::Width, false);

    let unchecked = cov.unchecked_families();
    assert_eq!(unchecked.len(), FAMILIES - 2);
    assert!(!unchecked.contains(&ViolationKind::Spacing));
    assert!(!unchecked.contains(&ViolationKind::Width));
    assert!(unchecked.contains(&ViolationKind::Overlap));
}

#[test]
fn empty_coverage_has_all_families_unchecked() {
    let cov = RuleFamilyCoverage::default();
    assert_eq!(cov.unchecked_families().len(), FAMILIES);
    assert_eq!(cov.total_checked(), 0);
    assert_eq!(cov.total_violations(), 0);
}

#[test]
fn unchecked_families_keep_declaration_order() {
    let mut cov = RuleFamilyCoverage::new();
    for k in [ViolationKind::Overlap, ViolationKind::Width, ViolationKind::ImplantSpacing] {
        cov.record_check(k, false);
    }
    let unchecked = cov.unchecked_families();
    assert_eq!(unchecked[0], ViolationKind::Spacing);
    assert_eq!(unchecked[1], ViolationKind::Enclosure);
    assert_eq!(*unchecked.last().unwrap(), ViolationKind::WellEnclosure);
}
