use terrace_helm::diff::chart_of;

#[test]
fn a_chart_is_read_from_the_path_the_contract_sits_at() {
    assert_eq!(
        chart_of("charts/tankovault/contracts/api.json").as_deref(),
        Some("tankovault")
    );
    assert_eq!(chart_of("api.json").as_deref(), None);
}

#[test]
fn only_the_third_segment_from_the_end_names_the_chart() {
    assert_eq!(chart_of("contracts/api.json").as_deref(), None);
    assert_eq!(chart_of("c/contracts/api.json").as_deref(), Some("c"));
    assert_eq!(chart_of("/contracts/api.json").as_deref(), Some(""));
    assert_eq!(chart_of("a/b/c/d/e.json").as_deref(), Some("c"));
}

use terrace_helm::diff::{observed_bump, Change, ChartDiff, ContractDiff, Diffed, Severity};
use terrace_helm::report::Report;

fn chart(old: Option<&str>, new: Option<&str>, impact: Severity) -> ChartDiff {
    let contracts = if impact == Severity::Nothing {
        Vec::new()
    } else {
        vec![ContractDiff {
            name: "app".to_owned(),
            changes: vec![Change {
                severity: impact,
                subject: "app".to_owned(),
                message: "the contract was added".to_owned(),
            }],
        }]
    };
    ChartDiff {
        chart: "c".to_owned(),
        contracts,
        old_version: old.map(str::to_owned),
        new_version: new.map(str::to_owned),
    }
}

#[test]
fn the_bump_already_in_the_branch_is_what_decides_whether_it_is_enough() {
    let unmoved = chart(Some("1.0.0"), Some("1.0.0"), Severity::Minor);
    assert_eq!(unmoved.satisfied(), Some(false));

    let moved = chart(Some("1.0.0"), Some("1.1.0"), Severity::Minor);
    assert_eq!(moved.satisfied(), Some(true));

    let arrived = chart(None, Some("1.0.0"), Severity::Minor);
    assert_eq!(arrived.satisfied(), None);
}

#[test]
fn a_chart_with_nothing_to_report_is_always_satisfied() {
    assert_eq!(
        chart(Some("1.0.0"), Some("1.0.0"), Severity::Nothing).satisfied(),
        Some(true)
    );
}

#[test]
fn the_drivers_are_the_findings_that_set_the_impact() {
    let held = chart(Some("1.0.0"), Some("1.0.0"), Severity::Minor);
    let drivers = held.drivers();
    assert_eq!(drivers.len(), 1);
    assert_eq!(drivers[0].severity, held.impact());
}

#[test]
fn the_impact_is_the_largest_change_and_only_those_drive_it() {
    let mut held = chart(Some("1.0.0"), Some("2.0.0"), Severity::Patch);
    held.contracts.push(ContractDiff {
        name: "worker".to_owned(),
        changes: vec![
            Change { severity: Severity::Major, subject: "a".to_owned(), message: "removed".to_owned() },
            Change { severity: Severity::Minor, subject: "b".to_owned(), message: "added".to_owned() },
        ],
    });
    assert_eq!(held.impact(), Severity::Major);
    let drivers = held.drivers();
    assert_eq!(drivers.len(), 1);
    assert_eq!(drivers[0].subject, "a");
    assert_eq!(held.satisfied(), Some(true));
    let diffed = Diffed { charts: vec![held, chart(None, None, Severity::Nothing)], report: Report::new() };
    assert_eq!(diffed.impact(), Severity::Major);
    assert!(diffed.changed());
    let quiet = Diffed { charts: vec![chart(None, None, Severity::Nothing)], report: Report::new() };
    assert!(!quiet.changed());
}

#[test]
fn a_bump_is_read_off_the_first_part_that_moved() {
    assert_eq!(observed_bump(Some("1.2.3"), Some("1.2.4")), Some(Severity::Patch));
    assert_eq!(observed_bump(Some("1.2.3"), Some("1.3.0")), Some(Severity::Minor));
    assert_eq!(observed_bump(Some("1.2.3"), Some("2.0.0")), Some(Severity::Major));
    assert_eq!(observed_bump(Some("1.2.3"), Some("1.2.3")), Some(Severity::Nothing));
    assert_eq!(observed_bump(Some("1.2"), Some("1.2.3")), None);
    assert_eq!(observed_bump(Some("1.x.3"), Some("1.2.3")), None);
    assert_eq!(observed_bump(Some("1.2.3"), None), None);
}
