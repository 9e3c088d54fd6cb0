//! Aggregation: the reports of all platforms, merged into one state.
//!
//! The state keeps the summary of every platform, in the order in which the
//! reports came in, and one frequency table that holds the sum of all their
//! tables. The sum does not depend on the order of the reports.

use crate::classify::{PlatformReport, PlatformSummary};
use crate::frequency::{lists, descending, FrequencyTable, LicenseCount};
use vstd::multiset::*;
use vstd::prelude::*;
use vstd::seq_lib::*;

verus! {

broadcast use group_multiset_axioms;

/// The sum of a run of tables.
pub open spec fn merged(tables: Seq<Multiset<Seq<char>>>) -> Multiset<Seq<char>>
    decreases tables.len(),
{
    if tables.len() == 0 {
        Multiset::empty()
    } else {
        merged(tables.drop_last()).add(tables.last())
    }
}

/// How many entries a run of summaries counts in all, valid and invalid.
pub open spec fn total_classified(summaries: Seq<PlatformSummary>) -> nat
    decreases summaries.len(),
{
    if summaries.len() == 0 {
        0
    } else {
        total_classified(summaries.drop_last()) + summaries.last().valid_count as nat
            + summaries.last().invalid_count as nat
    }
}

/// The summaries of a run of reports, in their order.
pub open spec fn summaries_of(reports: Seq<PlatformReport>) -> Seq<PlatformSummary> {
    Seq::new(reports.len(), |i: int| reports[i].spec_summary())
}

/// The tables of a run of reports, in their order.
pub open spec fn tables_of(reports: Seq<PlatformReport>) -> Seq<Multiset<Seq<char>>> {
    Seq::new(reports.len(), |i: int| reports[i].spec_table()@)
}

/// A run with one more table sums to the sum of the shorter run plus the new
/// table, wherever the table is put.
pub proof fn merged_insert(tables: Seq<Multiset<Seq<char>>>, at: int, table: Multiset<Seq<char>>)
    requires
        0 <= at <= tables.len(),
    ensures
        merged(tables.insert(at, table)) =~= merged(tables).add(table),
    decreases tables.len(),
{
    let longer = tables.insert(at, table);
    if at == tables.len() {
        assert(longer.drop_last() =~= tables);
    } else {
        assert(longer.last() == tables.last());
        assert(longer.drop_last() =~= tables.drop_last().insert(at, table));
        merged_insert(tables.drop_last(), at, table);
    }
}

/// Merging is commutative: two runs that hold the same tables, in whatever
/// order, sum to the same table.
pub proof fn merge_order_is_irrelevant(
    a: Seq<Multiset<Seq<char>>>,
    b: Seq<Multiset<Seq<char>>>,
)
    requires
        a.to_multiset() == b.to_multiset(),
    ensures
        merged(a) == merged(b),
    decreases a.len(),
{
    to_multiset_len(a);
    to_multiset_len(b);
    if a.len() > 0 {
        let last = a.last();
        let front = a.drop_last();
        assert(front.push(last) =~= a);
        to_multiset_build(front, last);
        a.to_multiset_ensures();
        b.to_multiset_ensures();
        assert(a[a.len() - 1] == last);
        assert(a.contains(last));
        assert(a.to_multiset().count(last) > 0);
        assert(b.to_multiset().count(last) > 0);
        assert(b.contains(last));
        let at = choose|at: int| 0 <= at < b.len() && b[at] == last;
        let rest = b.remove(at);
        to_multiset_remove(b, at);
        assert(front.to_multiset() =~= rest.to_multiset());
        merge_order_is_irrelevant(front, rest);
        assert(rest.insert(at, last) =~= b);
        merged_insert(rest, at, last);
        assert(merged(a) =~= merged(b));
    } else {
        assert(b.len() == 0);
    }
}

/// The sum of all tables holds as many keys as the summaries count entries,
/// where each table holds as many keys as its summary counts.
pub proof fn merged_total(reports: Seq<PlatformReport>)
    requires
        forall|i: int| 0 <= i < reports.len() ==> (#[trigger] reports[i]).wf(),
    ensures
        merged(tables_of(reports)).len() == total_classified(summaries_of(reports)),
        merged(tables_of(reports)).len() <= reports.len() * u32::MAX,
    decreases reports.len(),
{
    if reports.len() > 0 {
        let front = reports.drop_last();
        assert forall|i: int| 0 <= i < front.len() implies (#[trigger] front[i]).wf() by {
            assert(front[i] == reports[i]);
        }
        merged_total(front);
        reports.last().counts_agree();
        assert(tables_of(reports).drop_last() =~= tables_of(front));
        assert(summaries_of(reports).drop_last() =~= summaries_of(front));
        assert(tables_of(reports).last() == reports.last().spec_table()@);
        assert(summaries_of(reports).last() == reports.last().spec_summary());
    }
}

/// The summaries of all platforms that have reported, and their merged
/// frequency table.
pub struct GlobalState {
    summaries: Vec<PlatformSummary>,
    table: FrequencyTable,
}

impl GlobalState {
    /// The summaries of the platforms, in the order in which they reported.
    pub closed spec fn spec_summaries(&self) -> Seq<PlatformSummary> {
        self.summaries@
    }

    /// The merged frequency table.
    pub closed spec fn spec_table(&self) -> FrequencyTable {
        self.table
    }

    /// The table holds as many keys as the summaries count entries, and every
    /// summary counts at most `u32::MAX` entries.
    pub closed spec fn wf(&self) -> bool {
        &&& self.table.wf()
        &&& self.table@.len() == total_classified(self.summaries@)
        &&& self.table@.len() <= self.summaries@.len() * u32::MAX
    }

    /// In a well-formed state the total of the table is the number of entries
    /// that the summaries count, valid and invalid together.
    pub proof fn totals_agree(&self)
        requires
            self.wf(),
        ensures
            self.spec_table().wf(),
            self.spec_table()@.len() == total_classified(self.spec_summaries()),
    {
    }

    /// The state before any platform has reported.
    pub fn new() -> (state: GlobalState)
        ensures
            state.wf(),
            state.spec_summaries() == Seq::<PlatformSummary>::empty(),
            state.spec_table()@ == Multiset::<Seq<char>>::empty(),
    {
        GlobalState { summaries: Vec::new(), table: FrequencyTable::new() }
    }

    /// Takes in the report of one platform: its summary goes to the end of the
    /// summaries, and its counts are added to the table.
    pub fn absorb(&mut self, report: &PlatformReport)
        requires
            old(self).wf(),
            report.wf(),
            old(self).spec_summaries().len() <= u32::MAX,
        ensures
            final(self).wf(),
            final(self).spec_summaries() == old(self).spec_summaries().push(report.spec_summary()),
            final(self).spec_table()@ == old(self).spec_table()@.add(report.spec_table()@),
    {
        proof {
            report.counts_agree();
            assert(self.summaries@.push(report.spec_summary()).drop_last() =~= self.summaries@);
        }
        let summary = report.summary();
        let copy = PlatformSummary {
            platform: summary.platform.clone(),
            valid_count: summary.valid_count,
            invalid_count: summary.invalid_count,
        };
        self.summaries.push(copy);
        self.table.merge(report.table());
    }

    /// Merges the reports of all platforms into one state.
    pub fn merge(reports: &Vec<PlatformReport>) -> (state: GlobalState)
        requires
            forall|i: int| 0 <= i < reports@.len() ==> (#[trigger] reports@[i]).wf(),
            reports@.len() <= u32::MAX,
        ensures
            state.wf(),
            state.spec_summaries() == summaries_of(reports@),
            state.spec_table()@ == merged(tables_of(reports@)),
            state.spec_table()@.len() == total_classified(state.spec_summaries()),
    {
        let mut state = GlobalState::new();
        let mut i: usize = 0;
        proof {
            assert(summaries_of(reports@.take(0)) =~= Seq::<PlatformSummary>::empty());
            assert(tables_of(reports@.take(0)) =~= Seq::<Multiset<Seq<char>>>::empty());
        }
        while i < reports.len()
            invariant
                i <= reports@.len(),
                reports@.len() <= u32::MAX,
                forall|j: int| 0 <= j < reports@.len() ==> (#[trigger] reports@[j]).wf(),
                state.wf(),
                state.spec_summaries() == summaries_of(reports@.take(i as int)),
                state.spec_table()@ == merged(tables_of(reports@.take(i as int))),
            decreases reports@.len() - i,
        {
            proof {
                let more = reports@.take(i + 1);
                assert(summaries_of(more) =~= summaries_of(reports@.take(i as int)).push(
                    reports@[i as int].spec_summary(),
                ));
                assert(tables_of(more).drop_last() =~= tables_of(reports@.take(i as int)));
                assert(tables_of(more).last() == reports@[i as int].spec_table()@);
            }
            state.absorb(&reports[i]);
            i = i + 1;
        }
        proof {
            assert(reports@.take(i as int) =~= reports@);
        }
        state
    }

    /// The summaries of the platforms, in the order in which they reported.
    pub fn summaries(&self) -> (summaries: &Vec<PlatformSummary>)
        ensures
            summaries@ == self.spec_summaries(),
    {
        &self.summaries
    }

    /// The merged frequency table.
    pub fn table(&self) -> (table: &FrequencyTable)
        ensures
            *table == self.spec_table(),
            self.wf() ==> table.wf(),
    {
        &self.table
    }

    /// The lines of the merged table, with the largest count first.
    pub fn sorted_counts(&self) -> (listing: Vec<LicenseCount>)
        requires
            self.wf(),
        ensures
            lists(listing@, self.spec_table()@),
            descending(listing@),
    {
        self.table.sorted()
    }
}

} // verus!
