use license_audit::classify::{
    classify, classify_entries, summarize, Classification, PlatformSummary,
};
use license_audit::frequency::LicenseCount;
use license_audit::record::CandidateEntry;

fn text(s: &str) -> String {
    s.to_string()
}

#[test]
fn valid_expressions_are_valid() {
    for license in [
        "MIT",
        "Apache-2.0 OR MIT",
        "(GPL-2.0-only WITH Classpath-exception-2.0)",
        "BSD-3-Clause AND (MIT OR Apache-2.0)",
        "LicenseRef-proprietary",
    ] {
        assert_eq!(classify(license), Classification::Valid(text(license)), "{license}");
    }
}

#[test]
fn invalid_expressions_are_invalid() {
    for license in [
        "",
        "not-a-license!!",
        "(MIT OR Apache-2.0",
        "MIT OR Apache-2.0)",
        "not-a-license",
        "MIT OR",
        "MIT Apache-2.0",
        "   ",
    ] {
        assert_eq!(classify(license), Classification::Invalid, "{license:?}");
    }
}

#[test]
fn a_valid_expression_is_written_back_as_it_was_given() {
    assert_eq!(classify("  MIT   OR  Apache-2.0 "), Classification::Valid(text("  MIT   OR  Apache-2.0 ")));
    assert_eq!(classify("MIT or Apache-2.0"), Classification::Valid(text("MIT or Apache-2.0")));
}

#[test]
fn the_key_of_an_invalid_license_is_the_sentinel() {
    assert_eq!(Classification::Invalid.key(), "INVALID");
    assert_eq!(classify("not-a-license").key(), "INVALID");
    assert!(!classify("not-a-license").is_valid());
}

#[test]
fn the_key_of_a_valid_license_is_its_text() {
    assert_eq!(Classification::Valid(text("MIT")).key(), "MIT");
    assert_eq!(classify("Apache-2.0 OR MIT").key(), "Apache-2.0 OR MIT");
    assert!(classify("Apache-2.0 OR MIT").is_valid());
}

#[test]
fn classification_of_parsed_follows_the_parse_result() {
    assert_eq!(Classification::of_parsed(Some(text("MIT"))), Classification::Valid(text("MIT")));
    assert_eq!(Classification::of_parsed(None), Classification::Invalid);
}

#[test]
fn classify_entries_keeps_the_order_of_the_entries() {
    let entries = vec![
        CandidateEntry { name: text("a"), timestamp: 1, license: text("MIT") },
        CandidateEntry { name: text("b"), timestamp: 2, license: text("nonsense") },
        CandidateEntry { name: text("c"), timestamp: 3, license: text("ISC") },
    ];
    assert_eq!(
        classify_entries(&entries),
        vec![
            Classification::Valid(text("MIT")),
            Classification::Invalid,
            Classification::Valid(text("ISC")),
        ]
    );
}

#[test]
fn summarize_counts_each_classification_once() {
    let found = vec![
        Classification::Valid(text("MIT")),
        Classification::Invalid,
        Classification::Valid(text("ISC")),
        Classification::Valid(text("MIT")),
        Classification::Invalid,
        Classification::Invalid,
    ];
    let report = summarize(text("linux-64"), &found);
    assert_eq!(
        *report.summary(),
        PlatformSummary { platform: text("linux-64"), valid_count: 3, invalid_count: 3 }
    );
    assert_eq!(report.table().total(), 6);
    assert_eq!(report.table().count(&text("MIT")), 2);
    assert_eq!(report.table().count(&text("ISC")), 1);
    assert_eq!(report.table().count(&text("INVALID")), 3);
    assert_eq!(
        report.table().sorted(),
        vec![
            LicenseCount { license: text("INVALID"), count: 3 },
            LicenseCount { license: text("MIT"), count: 2 },
            LicenseCount { license: text("ISC"), count: 1 },
        ]
    );
    assert_eq!(report.table().distinct(), 3);
}

#[test]
fn summarize_of_nothing_counts_nothing() {
    let (summary, table) = summarize(text("noarch"), &Vec::new()).into_parts();
    assert_eq!(summary, PlatformSummary { platform: text("noarch"), valid_count: 0, invalid_count: 0 });
    assert_eq!(table.total(), 0);
    assert_eq!(table.distinct(), 0);
}
