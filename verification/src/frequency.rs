//! Frequency tables: how often each classification key was seen.
//!
//! A table stands for a multiset of keys. Recording a key inserts it once,
//! merging two tables adds the multisets, and the count of a key is its
//! multiplicity. A table is listed line by line, one line per key; the order
//! of the lines is not part of what the table stands for.

use vstd::multiset::*;
use vstd::prelude::*;

verus! {

broadcast use group_multiset_axioms;

/// One line of a frequency table: a key and how often it was seen.
#[derive(Debug, Clone, PartialEq, Eq)]
pub struct LicenseCount {
    pub license: String,
    pub count: u64,
}

impl LicenseCount {
    /// A copy of this line.
    pub fn duplicate(&self) -> (r: LicenseCount)
        ensures
            r.license@ == self.license@,
            r.count == self.count,
    {
        LicenseCount { license: self.license.clone(), count: self.count }
    }
}

/// The multiset that holds `key` exactly `n` times.
pub open spec fn copies(key: Seq<char>, n: nat) -> Multiset<Seq<char>>
    decreases n,
{
    if n == 0 {
        Multiset::empty()
    } else {
        copies(key, (n - 1) as nat).insert(key)
    }
}

/// The multiset that a list of lines stands for: each key as often as its
/// lines say together.
pub open spec fn tally(lines: Seq<LicenseCount>) -> Multiset<Seq<char>>
    decreases lines.len(),
{
    if lines.len() == 0 {
        Multiset::empty()
    } else {
        tally(lines.drop_last()).add(copies(lines.last().license@, lines.last().count as nat))
    }
}

/// No two lines have the same key.
pub open spec fn distinct_keys(lines: Seq<LicenseCount>) -> bool {
    forall|i: int, j: int|
        0 <= i < j < lines.len() ==> (#[trigger] lines[i]).license@ != (#[trigger] lines[j]).license@
}

/// Every line counts at least one occurrence.
pub open spec fn positive_counts(lines: Seq<LicenseCount>) -> bool {
    forall|i: int| 0 <= i < lines.len() ==> (#[trigger] lines[i]).count > 0
}

/// The counts do not grow from the front to the back.
pub open spec fn descending(lines: Seq<LicenseCount>) -> bool {
    forall|i: int, j: int|
        0 <= i <= j < lines.len() ==> (#[trigger] lines[i]).count >= (#[trigger] lines[j]).count
}

/// `lines` lists `table`: one line for each key that occurs in the table, with
/// the number of its occurrences, and no other line.
pub open spec fn lists(lines: Seq<LicenseCount>, table: Multiset<Seq<char>>) -> bool {
    &&& distinct_keys(lines)
    &&& forall|i: int|
        0 <= i < lines.len() ==> (#[trigger] lines[i]).count > 0 && lines[i].count == table.count(
            lines[i].license@,
        )
    &&& forall|key: Seq<char>|
        table.count(key) > 0 ==> exists|i: int|
            0 <= i < lines.len() && (#[trigger] lines[i]).license@ == key
}

/// `copies(key, n)` holds `key` exactly `n` times and nothing else.
pub proof fn copies_counts(key: Seq<char>, n: nat)
    ensures
        copies(key, n).len() == n,
        copies(key, n).count(key) == n,
        forall|other: Seq<char>| other != key ==> copies(key, n).count(other) == 0,
    decreases n,
{
    if n > 0 {
        copies_counts(key, (n - 1) as nat);
        lemma_insert_len(copies(key, (n - 1) as nat), key);
    }
}

/// A list with one more line stands for the multiset of the shorter list plus
/// the copies of the new line, wherever the line is put.
pub proof fn tally_insert(lines: Seq<LicenseCount>, at: int, line: LicenseCount)
    requires
        0 <= at <= lines.len(),
    ensures
        tally(lines.insert(at, line)) =~= tally(lines).add(
            copies(line.license@, line.count as nat),
        ),
    decreases lines.len(),
{
    let longer = lines.insert(at, line);
    if at == lines.len() {
        assert(longer.drop_last() =~= lines);
    } else {
        assert(longer.last() == lines.last());
        assert(longer.drop_last() =~= lines.drop_last().insert(at, line));
        tally_insert(lines.drop_last(), at, line);
    }
}

/// Raising the count of one line by `more` adds `more` copies of its key.
pub proof fn tally_raise(lines: Seq<LicenseCount>, at: int, line: LicenseCount, more: nat)
    requires
        0 <= at < lines.len(),
        line.license@ == lines[at].license@,
        line.count == lines[at].count + more,
    ensures
        tally(lines.update(at, line)) =~= tally(lines).add(copies(line.license@, more)),
    decreases lines.len(),
{
    let raised = lines.update(at, line);
    if at == lines.len() - 1 {
        assert(raised.drop_last() =~= lines.drop_last());
        copies_counts(line.license@, lines[at].count as nat);
        copies_counts(line.license@, more);
        copies_counts(line.license@, line.count as nat);
        assert(copies(line.license@, line.count as nat) =~= copies(
            line.license@,
            lines[at].count as nat,
        ).add(copies(line.license@, more)));
    } else {
        assert(raised.last() == lines.last());
        assert(raised.drop_last() =~= lines.drop_last().update(at, line));
        tally_raise(lines.drop_last(), at, line, more);
    }
}

/// A key that no line has does not occur in the multiset.
pub proof fn tally_absent(lines: Seq<LicenseCount>, key: Seq<char>)
    requires
        forall|i: int| 0 <= i < lines.len() ==> (#[trigger] lines[i]).license@ != key,
    ensures
        tally(lines).count(key) == 0,
    decreases lines.len(),
{
    if lines.len() > 0 {
        assert(lines.last() == lines[lines.len() - 1]);
        assert forall|i: int| 0 <= i < lines.drop_last().len() implies (#[trigger] lines.drop_last()[i]).license@
            != key by {
            assert(lines.drop_last()[i] == lines[i]);
        }
        tally_absent(lines.drop_last(), key);
        copies_counts(lines.last().license@, lines.last().count as nat);
    }
}

/// Where no key stands twice, a key occurs as often as its one line says.
pub proof fn tally_present(lines: Seq<LicenseCount>, at: int)
    requires
        distinct_keys(lines),
        0 <= at < lines.len(),
    ensures
        tally(lines).count(lines[at].license@) == lines[at].count,
    decreases lines.len(),
{
    let key = lines[at].license@;
    let front = lines.drop_last();
    assert(lines.last() == lines[lines.len() - 1]);
    copies_counts(lines.last().license@, lines.last().count as nat);
    if at == lines.len() - 1 {
        assert forall|i: int| 0 <= i < front.len() implies (#[trigger] front[i]).license@ != key by {
            assert(front[i] == lines[i]);
        }
        tally_absent(front, key);
    } else {
        assert(front[at] == lines[at]);
        assert(distinct_keys(front)) by {
            assert forall|i: int, j: int| 0 <= i < j < front.len() implies (#[trigger] front[i]).license@
                != (#[trigger] front[j]).license@ by {
                assert(front[i] == lines[i]);
                assert(front[j] == lines[j]);
            }
        }
        tally_present(front, at);
    }
}

/// A list of lines with distinct keys and positive counts lists the multiset
/// it stands for.
pub proof fn tally_is_listed(lines: Seq<LicenseCount>)
    requires
        distinct_keys(lines),
        positive_counts(lines),
    ensures
        lists(lines, tally(lines)),
{
    assert forall|i: int| 0 <= i < lines.len() implies (#[trigger] lines[i]).count > 0
        && lines[i].count == tally(lines).count(lines[i].license@) by {
        tally_present(lines, i);
    }
    assert forall|key: Seq<char>| tally(lines).count(key) > 0 implies exists|i: int|
        0 <= i < lines.len() && (#[trigger] lines[i]).license@ == key by {
        if forall|i: int| 0 <= i < lines.len() ==> (#[trigger] lines[i]).license@ != key {
            tally_absent(lines, key);
        }
    }
}

/// A multiset has one listing only, up to the order of its lines: whatever
/// lists it stands for it.
pub proof fn listing_stands_for_table(lines: Seq<LicenseCount>, table: Multiset<Seq<char>>)
    requires
        lists(lines, table),
    ensures
        tally(lines) == table,
{
    assert forall|key: Seq<char>| tally(lines).count(key) == table.count(key) by {
        if exists|i: int| 0 <= i < lines.len() && (#[trigger] lines[i]).license@ == key {
            let i = choose|i: int| 0 <= i < lines.len() && (#[trigger] lines[i]).license@ == key;
            tally_present(lines, i);
        } else {
            tally_absent(lines, key);
        }
    }
    assert(tally(lines) =~= table);
}

/// A listing has as many lines as its table holds different keys.
pub proof fn listing_length(lines: Seq<LicenseCount>, table: Multiset<Seq<char>>)
    requires
        lists(lines, table),
    ensures
        lines.len() == table.dom().len(),
    decreases lines.len(),
{
    axiom_multiset_always_finite(table);
    if lines.len() == 0 {
        assert(table.dom() =~= Set::<Seq<char>>::empty());
    } else {
        let last = lines.last();
        let key = last.license@;
        let front = lines.drop_last();
        let rest = table.sub(copies(key, last.count as nat));
        copies_counts(key, last.count as nat);
        assert(lines[lines.len() - 1] == last);
        assert forall|i: int| 0 <= i < front.len() implies (#[trigger] front[i]).license@
            != key by {
            assert(front[i] == lines[i]);
        }
        assert(lists(front, rest)) by {
            assert forall|i: int, j: int| 0 <= i < j < front.len() implies (#[trigger] front[i]).license@
                != (#[trigger] front[j]).license@ by {
                assert(front[i] == lines[i]);
                assert(front[j] == lines[j]);
            }
            assert forall|i: int| 0 <= i < front.len() implies (#[trigger] front[i]).count > 0
                && front[i].count == rest.count(front[i].license@) by {
                assert(front[i] == lines[i]);
            }
            assert forall|k: Seq<char>| rest.count(k) > 0 implies exists|i: int|
                0 <= i < front.len() && (#[trigger] front[i]).license@ == k by {
                let i = choose|i: int| 0 <= i < lines.len() && (#[trigger] lines[i]).license@ == k;
                assert(front[i] == lines[i]);
            }
        }
        listing_length(front, rest);
        axiom_multiset_always_finite(rest);
        assert(table.dom() =~= rest.dom().insert(key));
        assert(!rest.dom().contains(key));
    }
}

/// The first lines of a list stand for no more than the whole list.
pub proof fn tally_front(lines: Seq<LicenseCount>, n: int)
    requires
        0 <= n <= lines.len(),
    ensures
        tally(lines.take(n)).len() <= tally(lines).len(),
        n < lines.len() ==> tally(lines.take(n + 1)) == tally(lines.take(n)).add(
            copies(lines[n].license@, lines[n].count as nat),
        ),
    decreases lines.len() - n,
{
    if n < lines.len() {
        assert(lines.take(n + 1).drop_last() =~= lines.take(n));
        assert(lines.take(n + 1).last() == lines[n]);
        copies_counts(lines[n].license@, lines[n].count as nat);
        tally_front(lines, n + 1);
    } else {
        assert(lines.take(n) =~= lines);
    }
}

/// A frequency table: for each key, how often it was recorded.
pub struct FrequencyTable {
    lines: Vec<LicenseCount>,
}

impl View for FrequencyTable {
    type V = Multiset<Seq<char>>;

    closed spec fn view(&self) -> Multiset<Seq<char>> {
        tally(self.lines@)
    }
}

impl FrequencyTable {
    /// The table keeps one line per key, each with a positive count, and its
    /// total fits in a `u64`.
    pub closed spec fn wf(&self) -> bool {
        &&& distinct_keys(self.lines@)
        &&& positive_counts(self.lines@)
        &&& tally(self.lines@).len() <= u64::MAX
    }

    /// The empty table.
    pub fn new() -> (table: FrequencyTable)
        ensures
            table.wf(),
            table@ == Multiset::<Seq<char>>::empty(),
    {
        FrequencyTable { lines: Vec::new() }
    }

    /// The place of the line with `key`, if there is one.
    fn find(&self, key: &String) -> (r: Option<usize>)
        ensures
            match r {
                Some(i) => i < self.lines@.len() && self.lines@[i as int].license@ == key@,
                None => forall|i: int|
                    0 <= i < self.lines@.len() ==> (#[trigger] self.lines@[i]).license@ != key@,
            },
    {
        let mut i: usize = 0;
        while i < self.lines.len()
            invariant
                i <= self.lines@.len(),
                forall|j: int| 0 <= j < i ==> (#[trigger] self.lines@[j]).license@ != key@,
            decreases self.lines@.len() - i,
        {
            if self.lines[i].license == *key {
                return Some(i);
            }
            i = i + 1;
        }
        None
    }

    /// How often `key` was recorded.
    pub fn count(&self, key: &String) -> (n: u64)
        requires
            self.wf(),
        ensures
            n == self@.count(key@),
    {
        match self.find(key) {
            Some(i) => {
                proof {
                    tally_present(self.lines@, i as int);
                }
                self.lines[i].count
            },
            None => {
                proof {
                    tally_absent(self.lines@, key@);
                }
                0
            },
        }
    }

    /// How many keys were recorded in all, each as often as it was recorded.
    pub fn total(&self) -> (n: u64)
        requires
            self.wf(),
        ensures
            n == self@.len(),
    {
        let mut sum: u64 = 0;
        let mut i: usize = 0;
        while i < self.lines.len()
            invariant
                i <= self.lines@.len(),
                sum == tally(self.lines@.take(i as int)).len(),
                tally(self.lines@).len() <= u64::MAX,
            decreases self.lines@.len() - i,
        {
            proof {
                tally_front(self.lines@, i as int);
                tally_front(self.lines@, i + 1);
                copies_counts(self.lines@[i as int].license@, self.lines@[i as int].count as nat);
            }
            sum = sum + self.lines[i].count;
            i = i + 1;
        }
        proof {
            assert(self.lines@.take(i as int) =~= self.lines@);
        }
        sum
    }

    /// How many different keys were recorded.
    pub fn distinct(&self) -> (n: usize)
        requires
            self.wf(),
        ensures
            n == self@.dom().len(),
    {
        proof {
            tally_is_listed(self.lines@);
            listing_length(self.lines@, self@);
        }
        self.lines.len()
    }

    /// Records `key` another `times` times.
    pub fn record_many(&mut self, key: String, times: u64)
        requires
            old(self).wf(),
            old(self)@.len() + times <= u64::MAX,
        ensures
            final(self).wf(),
            final(self)@ == old(self)@.add(copies(key@, times as nat)),
    {
        proof {
            copies_counts(key@, times as nat);
        }
        if times == 0 {
            proof {
                assert(self@.add(copies(key@, 0)) =~= self@);
            }
            return ;
        }
        match self.find(&key) {
            Some(i) => {
                let ghost before = self.lines@;
                proof {
                    tally_present(before, i as int);
                    axiom_count_le_len(tally(before), key@);
                }
                let raised = LicenseCount { license: key, count: self.lines[i].count + times };
                proof {
                    tally_raise(before, i as int, raised, times as nat);
                }
                self.lines.set(i, raised);
                proof {
                    let after = self.lines@;
                    assert(after == before.update(i as int, raised));
                    assert forall|a: int, b: int| 0 <= a < b < after.len() implies (#[trigger] after[a]).license@
                        != (#[trigger] after[b]).license@ by {
                        assert(after[a].license@ == before[a].license@);
                        assert(after[b].license@ == before[b].license@);
                    }
                    assert forall|a: int| 0 <= a < after.len() implies (#[trigger] after[a]).count
                        > 0 by {
                        if a != i {
                            assert(after[a] == before[a]);
                        }
                    }
                }
            },
            None => {
                let ghost before = self.lines@;
                let line = LicenseCount { license: key, count: times };
                proof {
                    tally_insert(before, before.len() as int, line);
                    assert(before.insert(before.len() as int, line) =~= before.push(line));
                }
                self.lines.push(line);
                proof {
                    let after = self.lines@;
                    assert forall|a: int, b: int| 0 <= a < b < after.len() implies (#[trigger] after[a]).license@
                        != (#[trigger] after[b]).license@ by {
                        assert(after[a] == before[a]);
                        if b < before.len() {
                            assert(after[b] == before[b]);
                        }
                    }
                    assert forall|a: int| 0 <= a < after.len() implies (#[trigger] after[a]).count
                        > 0 by {
                        if a < before.len() {
                            assert(after[a] == before[a]);
                        }
                    }
                }
            },
        }
    }

    /// Records `key` once: its count grows by one, or starts at one.
    pub fn record(&mut self, key: String)
        requires
            old(self).wf(),
            old(self)@.len() < u64::MAX,
        ensures
            final(self).wf(),
            final(self)@ == old(self)@.insert(key@),
    {
        proof {
            assert(copies(key@, 1) =~= Multiset::singleton(key@)) by {
                copies_counts(key@, 1);
                assert(copies(key@, 0) =~= Multiset::<Seq<char>>::empty());
            }
        }
        self.record_many(key, 1);
    }

    /// Adds every count of `other` to this table.
    pub fn merge(&mut self, other: &FrequencyTable)
        requires
            old(self).wf(),
            other.wf(),
            old(self)@.len() + other@.len() <= u64::MAX,
        ensures
            final(self).wf(),
            final(self)@ == old(self)@.add(other@),
    {
        let mut i: usize = 0;
        proof {
            assert(other.lines@.take(0) =~= Seq::<LicenseCount>::empty());
            assert(self@.add(Multiset::empty()) =~= self@);
        }
        while i < other.lines.len()
            invariant
                i <= other.lines@.len(),
                self.wf(),
                other.wf(),
                old(self)@.len() + other@.len() <= u64::MAX,
                self@ == old(self)@.add(tally(other.lines@.take(i as int))),
            decreases other.lines@.len() - i,
        {
            let ghost done = tally(other.lines@.take(i as int));
            let ghost step = copies(other.lines@[i as int].license@, other.lines@[i as int].count as nat);
            proof {
                tally_front(other.lines@, i as int);
                tally_front(other.lines@, i + 1);
                copies_counts(other.lines@[i as int].license@, other.lines@[i as int].count as nat);
                assert(old(self)@.add(done).add(step) =~= old(self)@.add(done.add(step)));
            }
            let key = other.lines[i].license.clone();
            self.record_many(key, other.lines[i].count);
            i = i + 1;
        }
        proof {
            assert(other.lines@.take(i as int) =~= other.lines@);
        }
    }

    /// The lines of the table, one for each key, in no particular order.
    pub fn lines(&self) -> (listing: Vec<LicenseCount>)
        requires
            self.wf(),
        ensures
            lists(listing@, self@),
    {
        let mut listing: Vec<LicenseCount> = Vec::new();
        let mut i: usize = 0;
        while i < self.lines.len()
            invariant
                i <= self.lines@.len(),
                listing@.len() == i,
                forall|j: int|
                    0 <= j < i ==> (#[trigger] listing@[j]).license@ == self.lines@[j].license@
                        && listing@[j].count == self.lines@[j].count,
            decreases self.lines@.len() - i,
        {
            listing.push(self.lines[i].duplicate());
            i = i + 1;
        }
        proof {
            tally_is_listed(self.lines@);
            let ours = self.lines@;
            let theirs = listing@;
            assert forall|a: int, b: int| 0 <= a < b < theirs.len() implies (#[trigger] theirs[a]).license@
                != (#[trigger] theirs[b]).license@ by {
                assert(ours[a].license@ != ours[b].license@);
            }
            assert forall|a: int| 0 <= a < theirs.len() implies (#[trigger] theirs[a]).count > 0
                && theirs[a].count == self@.count(theirs[a].license@) by {
                assert(ours[a].count > 0);
            }
            assert forall|key: Seq<char>| self@.count(key) > 0 implies exists|a: int|
                0 <= a < theirs.len() && (#[trigger] theirs[a]).license@ == key by {
                let a = choose|a: int| 0 <= a < ours.len() && (#[trigger] ours[a]).license@ == key;
                assert(theirs[a].license@ == key);
            }
        }
        listing
    }

    /// The lines of the table, one for each key, with the largest count first.
    /// Lines with the same count come in no particular order.
    pub fn sorted(&self) -> (listing: Vec<LicenseCount>)
        requires
            self.wf(),
        ensures
            lists(listing@, self@),
            descending(listing@),
    {
        let mut listing: Vec<LicenseCount> = Vec::new();
        let mut i: usize = 0;
        proof {
            assert(self.lines@.take(0) =~= Seq::<LicenseCount>::empty());
        }
        while i < self.lines.len()
            invariant
                i <= self.lines@.len(),
                self.wf(),
                listing@.len() == i,
                distinct_keys(listing@),
                positive_counts(listing@),
                descending(listing@),
                tally(listing@) == tally(self.lines@.take(i as int)),
            decreases self.lines@.len() - i,
        {
            let line = self.lines[i].duplicate();
            let mut at: usize = 0;
            while at < listing.len() && listing[at].count >= line.count
                invariant
                    at <= listing@.len(),
                    forall|j: int| 0 <= j < at ==> (#[trigger] listing@[j]).count >= line.count,
                decreases listing@.len() - at,
            {
                at = at + 1;
            }
            let ghost before = listing@;
            proof {
                tally_insert(before, at as int, line);
                tally_front(self.lines@, i as int);
                // The key of the new line is not yet listed.
                assert forall|j: int| 0 <= j < i implies (#[trigger] self.lines@.take(i as int)[j]).license@
                    != line.license@ by {
                    assert(self.lines@.take(i as int)[j] == self.lines@[j]);
                    assert(self.lines@[j].license@ != self.lines@[i as int].license@);
                }
                tally_absent(self.lines@.take(i as int), line.license@);
                assert forall|j: int| 0 <= j < before.len() implies (#[trigger] before[j]).license@
                    != line.license@ by {
                    if before[j].license@ == line.license@ {
                        tally_present(before, j);
                    }
                }
            }
            listing.insert(at, line);
            proof {
                let after = listing@;
                assert(after == before.insert(at as int, line));
                assert forall|a: int| 0 <= a < after.len() implies (#[trigger] after[a]).count
                    > 0 by {
                    if a < at {
                        assert(after[a] == before[a]);
                    } else if a > at {
                        assert(after[a] == before[a - 1]);
                    }
                }
                assert forall|a: int, b: int| 0 <= a < b < after.len() implies (#[trigger] after[a]).license@
                    != (#[trigger] after[b]).license@ by {
                    let pa = if a < at { a } else { a - 1 };
                    let pb = if b < at { b } else { b - 1 };
                    if a != at {
                        assert(after[a] == before[pa]);
                    }
                    if b != at {
                        assert(after[b] == before[pb]);
                    }
                }
                assert forall|a: int, b: int| 0 <= a <= b < after.len() implies (#[trigger] after[a]).count
                    >= (#[trigger] after[b]).count by {
                    let pa = if a < at { a } else { a - 1 };
                    let pb = if b < at { b } else { b - 1 };
                    if a != at {
                        assert(after[a] == before[pa]);
                    }
                    if b != at {
                        assert(after[b] == before[pb]);
                    }
                    if a < at && b > at {
                        assert(before[pa].count >= before[pb].count);
                    }
                    if a == at && b > at {
                        assert(before[at as int].count >= before[pb].count);
                    }
                }
            }
            i = i + 1;
        }
        proof {
            assert(self.lines@.take(i as int) =~= self.lines@);
            tally_is_listed(listing@);
        }
        listing
    }
}

} // verus!
