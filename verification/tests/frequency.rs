use license_audit::frequency::{FrequencyTable, LicenseCount};

fn key(text: &str) -> String {
    text.to_string()
}

fn line(license: &str, count: u64) -> LicenseCount {
    LicenseCount { license: license.to_string(), count }
}

/// The lines in the order of their keys, for comparisons that do not depend on
/// the order in which a table lists them.
fn by_key(mut lines: Vec<LicenseCount>) -> Vec<LicenseCount> {
    lines.sort_by(|a, b| a.license.cmp(&b.license));
    lines
}

#[test]
fn new_table_counts_nothing() {
    let table = FrequencyTable::new();
    assert_eq!(table.total(), 0);
    assert_eq!(table.distinct(), 0);
    assert_eq!(table.count(&key("MIT")), 0);
    assert!(table.lines().is_empty());
    assert!(table.sorted().is_empty());
}

#[test]
fn record_starts_a_count_at_one_and_raises_it_by_one() {
    let mut table = FrequencyTable::new();
    table.record(key("MIT"));
    assert_eq!(table.count(&key("MIT")), 1);
    table.record(key("MIT"));
    table.record(key("INVALID"));
    assert_eq!(table.count(&key("MIT")), 2);
    assert_eq!(table.count(&key("INVALID")), 1);
    assert_eq!(table.count(&key("Apache-2.0")), 0);
    assert_eq!(table.total(), 3);
    assert_eq!(table.distinct(), 2);
}

#[test]
fn record_many_adds_the_given_number() {
    let mut table = FrequencyTable::new();
    table.record_many(key("MIT"), 5);
    table.record_many(key("MIT"), 7);
    table.record_many(key("BSD-3-Clause"), 0);
    assert_eq!(table.count(&key("MIT")), 12);
    assert_eq!(table.count(&key("BSD-3-Clause")), 0);
    assert_eq!(table.distinct(), 1);
    assert_eq!(table.total(), 12);
}

#[test]
fn lines_hold_one_line_for_each_key() {
    let mut table = FrequencyTable::new();
    table.record(key("b"));
    table.record(key("a"));
    table.record(key("b"));
    table.record(key("c"));
    assert_eq!(by_key(table.lines()), vec![line("a", 1), line("b", 2), line("c", 1)]);
    assert_eq!(table.distinct(), 3);
}

#[test]
fn merge_adds_counts_key_by_key() {
    let mut left = FrequencyTable::new();
    left.record_many(key("MIT"), 2);
    left.record_many(key("INVALID"), 1);
    let mut right = FrequencyTable::new();
    right.record_many(key("INVALID"), 4);
    right.record_many(key("Apache-2.0"), 3);
    left.merge(&right);
    assert_eq!(left.count(&key("MIT")), 2);
    assert_eq!(left.count(&key("INVALID")), 5);
    assert_eq!(left.count(&key("Apache-2.0")), 3);
    assert_eq!(left.total(), 10);
    assert_eq!(right.total(), 7);
}

#[test]
fn merge_with_an_empty_table_changes_nothing() {
    let mut table = FrequencyTable::new();
    table.record_many(key("MIT"), 2);
    table.merge(&FrequencyTable::new());
    assert_eq!(table.lines(), vec![line("MIT", 2)]);
    let mut empty = FrequencyTable::new();
    empty.merge(&table);
    assert_eq!(empty.lines(), vec![line("MIT", 2)]);
}

#[test]
fn merge_gives_the_same_counts_in_either_order() {
    let mut a = FrequencyTable::new();
    a.record_many(key("MIT"), 2);
    a.record_many(key("INVALID"), 1);
    let mut b = FrequencyTable::new();
    b.record_many(key("INVALID"), 4);
    b.record_many(key("Apache-2.0"), 3);

    let mut ab = FrequencyTable::new();
    ab.merge(&a);
    ab.merge(&b);
    let mut ba = FrequencyTable::new();
    ba.merge(&b);
    ba.merge(&a);
    for license in ["MIT", "INVALID", "Apache-2.0", "other"] {
        assert_eq!(ab.count(&key(license)), ba.count(&key(license)));
    }
    assert_eq!(ab.total(), ba.total());
    assert_eq!(by_key(ab.lines()), by_key(ba.lines()));
}

#[test]
fn sorted_puts_the_largest_count_first() {
    let mut table = FrequencyTable::new();
    table.record_many(key("rare"), 1);
    table.record_many(key("common"), 9);
    table.record_many(key("middling"), 4);
    assert_eq!(table.sorted(), vec![line("common", 9), line("middling", 4), line("rare", 1)]);
    assert_eq!(
        by_key(table.lines()),
        vec![line("common", 9), line("middling", 4), line("rare", 1)]
    );
}

#[test]
fn sorted_lists_equal_counts_side_by_side() {
    let mut table = FrequencyTable::new();
    table.record_many(key("x"), 2);
    table.record_many(key("y"), 5);
    table.record_many(key("z"), 2);
    table.record_many(key("w"), 5);
    let sorted = table.sorted();
    let counts: Vec<u64> = sorted.iter().map(|l| l.count).collect();
    assert_eq!(counts, vec![5, 5, 2, 2]);
    assert_eq!(by_key(sorted), vec![line("w", 5), line("x", 2), line("y", 5), line("z", 2)]);
}

#[test]
fn counts_reach_the_top_of_the_range() {
    let mut table = FrequencyTable::new();
    table.record_many(key("MIT"), u64::MAX - 1);
    table.record(key("MIT"));
    assert_eq!(table.count(&key("MIT")), u64::MAX);
    assert_eq!(table.total(), u64::MAX);
}

#[test]
fn duplicate_copies_a_line() {
    let original = line("MIT", 3);
    assert_eq!(original.duplicate(), original);
}
