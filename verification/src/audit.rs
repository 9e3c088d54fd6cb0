//! The audit of one platform: from its snapshot to its report.
//!
//! The entries of the snapshot are extracted, reduced to the latest entry of
//! each package, and classified; the report counts the valid and the invalid
//! licenses and how often each key occurs.

use crate::classify::{
    classify_entries, keys_of, license_key, spdx_accepts, summarize, valid_among, Classification,
    PlatformReport,
};
use crate::dedup::{dedup, deduped};
use crate::record::{views, Candidate, CandidateEntry};
use crate::snapshot::Snapshot;
use vstd::prelude::*;

verus! {

/// The keys under which a run of entries is counted, in their order.
pub open spec fn license_keys(entries: Seq<Candidate>) -> Seq<Seq<char>> {
    Seq::new(entries.len(), |i: int| license_key(entries[i].license))
}

/// How many of a run of entries carry a valid license expression.
pub open spec fn accepted_among(entries: Seq<Candidate>) -> nat
    decreases entries.len(),
{
    if entries.len() == 0 {
        0
    } else {
        accepted_among(entries.drop_last()) + if spdx_accepts(entries.last().license) {
            1nat
        } else {
            0nat
        }
    }
}

/// Classifications that agree with the entries one by one count as many valid
/// licenses as the entries carry.
proof fn valid_among_agrees(found: Seq<Classification>, entries: Seq<Candidate>)
    requires
        found.len() == entries.len(),
        forall|i: int|
            0 <= i < entries.len() ==> ((#[trigger] found[i]) is Valid <==> spdx_accepts(
                entries[i].license,
            )),
    ensures
        valid_among(found) == accepted_among(entries),
    decreases found.len(),
{
    if found.len() > 0 {
        assert(found.last() == found[found.len() - 1]);
        assert(entries.last() == entries[entries.len() - 1]);
        assert forall|i: int| 0 <= i < entries.drop_last().len() implies ((
        #[trigger] found.drop_last()[i]) is Valid <==> spdx_accepts(
            entries.drop_last()[i].license,
        )) by {
            assert(found.drop_last()[i] == found[i]);
            assert(entries.drop_last()[i] == entries[i]);
        }
        valid_among_agrees(found.drop_last(), entries.drop_last());
    }
}

/// Audits the entries of one platform: keeps the latest entry of each package,
/// classifies its license, and counts.
pub fn audit_entries(platform: String, entries: &Vec<CandidateEntry>) -> (report: PlatformReport)
    requires
        entries@.len() <= u32::MAX,
    ensures
        report.wf(),
        report.spec_summary().platform@ == platform@,
        report.spec_summary().valid_count == accepted_among(deduped(views(entries@))),
        report.classified() == deduped(views(entries@)).len(),
        report.spec_table()@ == license_keys(deduped(views(entries@))).to_multiset(),
{
    let kept = dedup(entries);
    let found = classify_entries(&kept);
    proof {
        let survivors = views(kept@);
        assert forall|i: int| 0 <= i < survivors.len() implies ((#[trigger] found@[i]) is Valid
            <==> spdx_accepts(survivors[i].license)) by {
            assert(survivors[i].license == kept@[i].license@);
        }
        valid_among_agrees(found@, survivors);
        assert(keys_of(found@) =~= license_keys(survivors)) by {
            assert forall|i: int| 0 <= i < survivors.len() implies keys_of(found@)[i]
                == license_keys(survivors)[i] by {
                assert(found@[i].spec_key() == license_key(kept@[i].license@));
            }
        }
    }
    summarize(platform, &found)
}

/// Audits one platform from its snapshot. A platform without a snapshot gives
/// a report that counts nothing.
pub fn audit_platform(platform: String, snapshot: &Snapshot) -> (report: PlatformReport)
    requires
        snapshot.spec_records().len() <= u32::MAX,
    ensures
        report.wf(),
        report.spec_summary().platform@ == platform@,
        report.spec_summary().valid_count == accepted_among(deduped(snapshot.spec_records())),
        report.classified() == deduped(snapshot.spec_records()).len(),
        report.spec_table()@ == license_keys(deduped(snapshot.spec_records())).to_multiset(),
{
    let entries = snapshot.records();
    audit_entries(platform, &entries)
}

} // verus!
