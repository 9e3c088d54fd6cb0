use license_audit::dedup::dedup;
use license_audit::record::CandidateEntry;

fn entry(name: &str, timestamp: i64, license: &str) -> CandidateEntry {
    CandidateEntry { name: name.to_string(), timestamp, license: license.to_string() }
}

#[test]
fn no_records_give_no_entries() {
    assert!(dedup(&Vec::new()).is_empty());
}

#[test]
fn records_of_different_names_all_stay() {
    let records = vec![entry("a", 1, "MIT"), entry("b", 1, "MIT"), entry("c", 0, "x")];
    assert_eq!(dedup(&records), records);
}

#[test]
fn the_greatest_timestamp_of_a_name_stays() {
    let records = vec![
        entry("pkg", 100, "old"),
        entry("pkg", 300, "newest"),
        entry("pkg", 200, "newer"),
    ];
    assert_eq!(dedup(&records), vec![entry("pkg", 300, "newest")]);
}

#[test]
fn a_later_record_with_an_earlier_timestamp_does_not_displace() {
    let records = vec![entry("pkg", 200, "kept"), entry("pkg", 100, "dropped")];
    assert_eq!(dedup(&records), vec![entry("pkg", 200, "kept")]);
}

#[test]
fn of_equal_timestamps_the_first_record_stays() {
    let records = vec![
        entry("pkg", 5, "first"),
        entry("pkg", 5, "second"),
        entry("pkg", 4, "older"),
        entry("pkg", 5, "third"),
    ];
    assert_eq!(dedup(&records), vec![entry("pkg", 5, "first")]);
}

#[test]
fn entries_stand_in_the_order_in_which_names_first_occur() {
    let records = vec![
        entry("b", 1, "b1"),
        entry("a", 1, "a1"),
        entry("b", 2, "b2"),
        entry("c", 7, "c7"),
        entry("a", 3, "a3"),
        entry("a", 2, "a2"),
    ];
    assert_eq!(
        dedup(&records),
        vec![entry("b", 2, "b2"), entry("a", 3, "a3"), entry("c", 7, "c7")]
    );
}

#[test]
fn negative_timestamps_are_compared_by_value() {
    let records = vec![entry("pkg", -5, "earlier"), entry("pkg", -2, "later")];
    assert_eq!(dedup(&records), vec![entry("pkg", -2, "later")]);
    let records = vec![entry("pkg", i64::MIN, "min"), entry("pkg", i64::MAX, "max")];
    assert_eq!(dedup(&records), vec![entry("pkg", i64::MAX, "max")]);
}

#[test]
fn one_entry_per_name_with_the_greatest_timestamp() {
    let mut records = Vec::new();
    for round in 0..7i64 {
        for package in 0..5i64 {
            let timestamp = (round * 37 + package * 11) % 23;
            records.push(entry(&format!("pkg-{package}"), timestamp, &format!("l{round}")));
        }
    }
    let kept = dedup(&records);
    assert_eq!(kept.len(), 5);
    for package in 0..5i64 {
        let name = format!("pkg-{package}");
        let greatest =
            records.iter().filter(|r| r.name == name).map(|r| r.timestamp).max().unwrap();
        let survivors: Vec<&CandidateEntry> = kept.iter().filter(|k| k.name == name).collect();
        assert_eq!(survivors.len(), 1);
        assert_eq!(survivors[0].timestamp, greatest);
        let first = records.iter().find(|r| r.name == name && r.timestamp == greatest).unwrap();
        assert_eq!(survivors[0], first);
    }
}

#[test]
fn duplicate_copies_an_entry() {
    let original = entry("pkg", 9, "MIT");
    assert_eq!(original.duplicate(), original);
}
