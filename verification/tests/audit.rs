use license_audit::aggregate::GlobalState;
use license_audit::audit::{audit_entries, audit_platform};
use license_audit::classify::{PlatformReport, PlatformSummary};
use license_audit::frequency::LicenseCount;
use license_audit::record::CandidateEntry;
use license_audit::snapshot::Snapshot;

fn text(s: &str) -> String {
    s.to_string()
}

fn entry(name: &str, timestamp: i64, license: &str) -> CandidateEntry {
    CandidateEntry { name: text(name), timestamp, license: text(license) }
}

fn line(license: &str, count: u64) -> LicenseCount {
    LicenseCount { license: text(license), count }
}

fn summary(platform: &str, valid_count: u32, invalid_count: u32) -> PlatformSummary {
    PlatformSummary { platform: text(platform), valid_count, invalid_count }
}

fn linux() -> PlatformReport {
    audit_entries(
        text("linux-64"),
        &vec![
            entry("a", 1, "MIT"),
            entry("b", 1, "Apache-2.0 OR MIT"),
            entry("c", 1, "who knows"),
            entry("a", 2, "MIT"),
            entry("d", 5, "MIT"),
        ],
    )
}

fn osx() -> PlatformReport {
    audit_entries(
        text("osx-64"),
        &vec![entry("a", 1, "MIT"), entry("e", 1, "???"), entry("f", 1, "also not")],
    )
}

fn noarch() -> PlatformReport {
    audit_platform(text("noarch"), &Snapshot::Unavailable)
}

#[test]
fn the_later_entry_of_a_package_decides_its_license() {
    let snapshot = Snapshot::from_text(
        r#"{
            "packages": {
                "pkg-a-1.tar.bz2": {"name": "pkg-a", "timestamp": 100, "license": "MIT"},
                "pkg-a-2.tar.bz2": {"name": "pkg-a", "timestamp": 200, "license": "not-a-license"}
            },
            "packages.conda": {}
        }"#,
    );
    let report = audit_platform(text("linux-64"), &snapshot);
    assert_eq!(*report.summary(), summary("linux-64", 0, 1));
    assert_eq!(report.table().lines(), vec![line("INVALID", 1)]);
}

#[test]
fn the_later_entry_decides_whatever_the_order_and_the_form_of_the_timestamp() {
    let snapshot = Snapshot::from_text(
        r#"{
            "packages": {
                "1": {"name": "pkg-a", "timestamp": "200", "license": "not-a-license"}
            },
            "packages.conda": {
                "2": {"name": "pkg-a", "timestamp": 100, "license": "MIT"},
                "3": {"name": "pkg-a", "timestamp": 200, "license": "MIT"}
            }
        }"#,
    );
    let report = audit_platform(text("linux-64"), &snapshot);
    assert_eq!(*report.summary(), summary("linux-64", 0, 1));
    assert_eq!(report.table().lines(), vec![line("INVALID", 1)]);
}

#[test]
fn every_kept_entry_is_counted_once() {
    let report = linux();
    assert_eq!(*report.summary(), summary("linux-64", 3, 1));
    assert_eq!(report.table().total(), 4);
    let sorted = report.table().sorted();
    assert_eq!(sorted.len(), 3);
    assert_eq!(sorted[0], line("MIT", 2));
    assert!(sorted.contains(&line("Apache-2.0 OR MIT", 1)));
    assert!(sorted.contains(&line("INVALID", 1)));
}

#[test]
fn a_null_license_affects_no_count() {
    let without = Snapshot::from_text(
        r#"{"packages": {"1": {"name": "a", "license": "MIT", "timestamp": 1}}, "packages.conda": {}}"#,
    );
    let with = Snapshot::from_text(
        r#"{"packages": {"1": {"name": "a", "license": "MIT", "timestamp": 1},
                          "2": {"name": "a", "license": null, "timestamp": 5},
                          "3": {"name": "b", "license": null, "timestamp": 5}},
            "packages.conda": {}}"#,
    );
    let with = audit_platform(text("p"), &with);
    let without = audit_platform(text("p"), &without);
    assert_eq!(with.summary(), without.summary());
    assert_eq!(*with.summary(), summary("p", 1, 0));
    assert_eq!(with.table().lines(), vec![line("MIT", 1)]);
    assert_eq!(without.table().lines(), vec![line("MIT", 1)]);
}

#[test]
fn a_platform_without_a_snapshot_counts_nothing() {
    let report = noarch();
    assert_eq!(*report.summary(), summary("noarch", 0, 0));
    assert_eq!(report.table().total(), 0);
    let unreadable = audit_platform(text("win-64"), &Snapshot::from_compressed(b"garbage"));
    assert_eq!(*unreadable.summary(), summary("win-64", 0, 0));
}

#[test]
fn a_new_state_holds_nothing() {
    let state = GlobalState::new();
    assert!(state.summaries().is_empty());
    assert_eq!(state.table().total(), 0);
    assert!(state.sorted_counts().is_empty());
}

#[test]
fn merge_keeps_the_summaries_in_the_order_of_the_reports() {
    let state = GlobalState::merge(&vec![linux(), noarch(), osx()]);
    assert_eq!(
        *state.summaries(),
        vec![summary("linux-64", 3, 1), summary("noarch", 0, 0), summary("osx-64", 1, 2)]
    );
}

#[test]
fn merge_adds_the_tables_of_all_platforms() {
    let state = GlobalState::merge(&vec![linux(), noarch(), osx()]);
    assert_eq!(state.table().count(&text("MIT")), 3);
    assert_eq!(state.table().count(&text("INVALID")), 3);
    assert_eq!(state.table().count(&text("Apache-2.0 OR MIT")), 1);
    let sorted = state.sorted_counts();
    assert_eq!(sorted.len(), 3);
    assert!(sorted[..2].contains(&line("MIT", 3)));
    assert!(sorted[..2].contains(&line("INVALID", 3)));
    assert_eq!(sorted[2], line("Apache-2.0 OR MIT", 1));
}

#[test]
fn the_total_of_the_table_is_the_number_of_classified_entries() {
    let state = GlobalState::merge(&vec![linux(), noarch(), osx()]);
    let classified: u64 = state
        .summaries()
        .iter()
        .map(|s| u64::from(s.valid_count) + u64::from(s.invalid_count))
        .sum();
    assert_eq!(classified, 7);
    assert_eq!(state.table().total(), classified);
}

#[test]
fn merging_in_another_order_gives_the_same_counts() {
    let forward = GlobalState::merge(&vec![linux(), noarch(), osx()]);
    let backward = GlobalState::merge(&vec![osx(), noarch(), linux()]);
    for license in ["MIT", "INVALID", "Apache-2.0 OR MIT", "ISC"] {
        assert_eq!(forward.table().count(&text(license)), backward.table().count(&text(license)));
    }
    assert_eq!(forward.table().total(), backward.table().total());
}

#[test]
fn absorb_takes_in_one_report_at_a_time() {
    let mut state = GlobalState::new();
    state.absorb(&osx());
    assert_eq!(*state.summaries(), vec![summary("osx-64", 1, 2)]);
    assert_eq!(state.table().total(), 3);
    state.absorb(&linux());
    assert_eq!(*state.summaries(), vec![summary("osx-64", 1, 2), summary("linux-64", 3, 1)]);
    assert_eq!(state.table().total(), 7);
    assert_eq!(state.table().count(&text("MIT")), 3);
}

#[test]
fn merge_of_no_reports_is_the_new_state() {
    let state = GlobalState::merge(&Vec::new());
    assert!(state.summaries().is_empty());
    assert_eq!(state.table().total(), 0);
}
