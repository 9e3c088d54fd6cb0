//! Deduplication: of the records that share a name, only the latest stays.
//!
//! The latest record of a name is the one with the greatest timestamp. Where
//! several records of a name carry that timestamp, the first of them in the
//! order of the input stays.

use crate::record::{views, Candidate, CandidateEntry};
use vstd::hash_map::*;
use vstd::prelude::*;

verus! {

/// The record at `k` does not displace the record at `j`: it has another
/// name, or an earlier timestamp, or the same timestamp and no earlier place.
pub open spec fn yields_to(records: Seq<Candidate>, k: int, j: int) -> bool {
    records[k].name == records[j].name ==> records[k].timestamp < records[j].timestamp || (
    records[k].timestamp == records[j].timestamp && j <= k)
}

/// The record at `j` is the latest of its name: the first among the records of
/// that name with the greatest timestamp.
pub open spec fn is_latest(records: Seq<Candidate>, j: int) -> bool {
    &&& 0 <= j < records.len()
    &&& forall|k: int| 0 <= k < records.len() ==> #[trigger] yields_to(records, k, j)
}

/// The place at which `name` first occurs in `records`, if it occurs.
pub open spec fn first_index(records: Seq<Candidate>, name: Seq<char>) -> Option<int>
    decreases records.len(),
{
    if records.len() == 0 {
        None
    } else {
        match first_index(records.drop_last(), name) {
            Some(i) => Some(i),
            None => if records.last().name == name {
                Some(records.len() - 1)
            } else {
                None
            },
        }
    }
}

/// No two entries have the same name.
pub open spec fn distinct_names(entries: Seq<Candidate>) -> bool {
    forall|p: int, q: int|
        0 <= p < q < entries.len() ==> (#[trigger] entries[p]).name != (#[trigger] entries[q]).name
}

/// `kept` is what deduplication leaves of `records`.
pub open spec fn is_dedup_of(kept: Seq<Candidate>, records: Seq<Candidate>) -> bool {
    // One entry per name.
    &&& distinct_names(kept)
    // Each kept entry is the latest record of its name.
    &&& forall|p: int|
        0 <= p < kept.len() ==> exists|j: int|
            is_latest(records, j) && #[trigger] records[j] == #[trigger] kept[p]
    // Every name of a record is kept.
    &&& forall|j: int|
        0 <= j < records.len() ==> exists|p: int|
            0 <= p < kept.len() && (#[trigger] kept[p]).name == (#[trigger] records[j]).name
    // The entries stand in the order in which their names first occur.
    &&& forall|p: int, q: int|
        0 <= p < q < kept.len() ==> first_index(records, (#[trigger] kept[p]).name)->0
            < first_index(records, (#[trigger] kept[q]).name)->0
}

/// What deduplication leaves of `records`. It goes through the records in
/// their order and keeps one entry per name: a record of a new name is kept
/// at the end, and a record of a kept name takes the place of the kept entry
/// where its timestamp is greater.
pub open spec fn deduped(records: Seq<Candidate>) -> Seq<Candidate>
    decreases records.len(),
{
    if records.len() == 0 {
        Seq::empty()
    } else {
        let kept = deduped(records.drop_last());
        let next = records.last();
        match first_index(kept, next.name) {
            Some(p) => if next.timestamp > kept[p].timestamp {
                kept.update(p, next)
            } else {
                kept
            },
            None => kept.push(next),
        }
    }
}

/// `first_index` gives the first place of the name, and `None` only where the
/// name does not occur.
pub proof fn first_index_is_first(records: Seq<Candidate>, name: Seq<char>)
    ensures
        match first_index(records, name) {
            Some(i) => 0 <= i < records.len() && records[i].name == name && forall|j: int|
                0 <= j < i ==> (#[trigger] records[j]).name != name,
            None => forall|j: int| 0 <= j < records.len() ==> (#[trigger] records[j]).name != name,
        },
    decreases records.len(),
{
    if records.len() > 0 {
        let front = records.drop_last();
        first_index_is_first(front, name);
        match first_index(front, name) {
            Some(i) => {
                assert(records[i] == front[i]);
                assert forall|j: int| 0 <= j < i implies (#[trigger] records[j]).name != name by {
                    assert(front[j] == records[j]);
                }
            },
            None => {
                assert forall|j: int| 0 <= j < records.len() - 1 implies (#[trigger] records[j]).name
                    != name by {
                    assert(front[j] == records[j]);
                }
            },
        }
    }
}

/// Of the records that share a name, deduplication keeps exactly one, and its
/// timestamp is the greatest among them.
pub proof fn dedup_keeps_one_latest_per_name(
    kept: Seq<Candidate>,
    records: Seq<Candidate>,
    j: int,
)
    requires
        is_dedup_of(kept, records),
        0 <= j < records.len(),
    ensures
        exists|p: int|
            {
                &&& 0 <= p < kept.len()
                &&& (#[trigger] kept[p]).name == records[j].name
                &&& kept[p].timestamp >= records[j].timestamp
                &&& forall|q: int|
                    0 <= q < kept.len() && (#[trigger] kept[q]).name == records[j].name ==> q == p
            },
{
    let p = choose|p: int| 0 <= p < kept.len() && (#[trigger] kept[p]).name == records[j].name;
    let w = choose|w: int| is_latest(records, w) && #[trigger] records[w] == #[trigger] kept[p];
    assert(yields_to(records, j, w));
    assert forall|q: int| 0 <= q < kept.len() && (#[trigger] kept[q]).name
        == records[j].name implies q == p by {
        if q < p {
            assert(kept[q].name != kept[p].name);
        } else if p < q {
            assert(kept[p].name != kept[q].name);
        }
    }
}

/// What one more record does to the latest records of the names seen so far.
proof fn latest_after_push(seen: Seq<Candidate>, next: Candidate, j: int)
    requires
        is_latest(seen, j),
    ensures
        seen[j].name != next.name || next.timestamp <= seen[j].timestamp ==> is_latest(
            seen.push(next),
            j,
        ),
        seen[j].name == next.name && next.timestamp > seen[j].timestamp ==> is_latest(
            seen.push(next),
            seen.len() as int,
        ),
{
    let more = seen.push(next);
    let last = seen.len() as int;
    if seen[j].name != next.name || next.timestamp <= seen[j].timestamp {
        assert forall|k: int| 0 <= k < more.len() implies #[trigger] yields_to(more, k, j) by {
            if k < last {
                assert(yields_to(seen, k, j));
            }
        }
    } else {
        assert forall|k: int| 0 <= k < more.len() implies #[trigger] yields_to(more, k, last) by {
            if k < last {
                assert(yields_to(seen, k, j));
            }
        }
    }
}

/// A record whose name was not seen before is the latest of its name.
proof fn latest_of_new_name(seen: Seq<Candidate>, next: Candidate)
    requires
        forall|k: int| 0 <= k < seen.len() ==> (#[trigger] seen[k]).name != next.name,
    ensures
        is_latest(seen.push(next), seen.len() as int),
{
    let more = seen.push(next);
    assert forall|k: int| 0 <= k < more.len() implies #[trigger] yields_to(
        more,
        k,
        seen.len() as int,
    ) by {
        if k < seen.len() {
            assert(seen[k].name != next.name);
        }
    }
}

/// The place of a name depends on the names alone.
proof fn first_index_by_names(a: Seq<Candidate>, b: Seq<Candidate>, name: Seq<char>)
    requires
        a.len() == b.len(),
        forall|i: int| 0 <= i < a.len() ==> (#[trigger] a[i]).name == b[i].name,
    ensures
        first_index(a, name) == first_index(b, name),
    decreases a.len(),
{
    if a.len() > 0 {
        assert(a.last().name == b.last().name);
        assert forall|i: int| 0 <= i < a.drop_last().len() implies (#[trigger] a.drop_last()[i]).name
            == b.drop_last()[i].name by {
            assert(a.drop_last()[i] == a[i]);
            assert(b.drop_last()[i] == b[i]);
        }
        first_index_by_names(a.drop_last(), b.drop_last(), name);
    }
}

/// What the entries kept so far have to do with the records seen so far. It
/// says what `is_dedup_of` says, with the place of a name in `kept` taken
/// from `first_index`.
spec fn tracks(kept: Seq<Candidate>, seen: Seq<Candidate>) -> bool {
    // One entry per name.
    &&& forall|p: int|
        0 <= p < kept.len() ==> first_index(kept, (#[trigger] kept[p]).name) == Some(p)
    // Every name seen so far is kept.
    &&& forall|j: int| 0 <= j < seen.len() ==> first_index(kept, (#[trigger] seen[j]).name) is Some
    // Each kept entry is the latest of its name among the records seen.
    &&& forall|p: int| 0 <= p < kept.len() ==> #[trigger] kept_is_latest(kept, seen, p)
    // The kept names stand in the order of their first occurrence.
    &&& forall|p: int| 0 <= p < kept.len() ==> 0 <= #[trigger] seen_at(kept, seen, p) < seen.len()
    &&& forall|p: int, q: int|
        0 <= p < q < kept.len() ==> #[trigger] seen_at(kept, seen, p) < #[trigger] seen_at(
            kept,
            seen,
            q,
        )
}

/// The entry at `p` is the latest record of its name.
spec fn kept_is_latest(kept: Seq<Candidate>, seen: Seq<Candidate>, p: int) -> bool {
    exists|j: int| is_latest(seen, j) && #[trigger] seen[j] == kept[p]
}

/// Where the name of the entry at `p` first occurs among the records, and -1
/// where it does not occur.
spec fn seen_at(kept: Seq<Candidate>, seen: Seq<Candidate>, p: int) -> int {
    match first_index(seen, kept[p].name) {
        Some(i) => i,
        None => -1,
    }
}

/// What `first_index` gives after one more record.
proof fn first_index_after_push(records: Seq<Candidate>, next: Candidate, name: Seq<char>)
    ensures
        first_index(records.push(next), name) == match first_index(records, name) {
            Some(i) => Some(i),
            None => if next.name == name {
                Some(records.len() as int)
            } else {
                None
            },
        },
{
    assert(records.push(next).drop_last() =~= records);
}

/// A record of a name that is kept already takes the place of the kept entry
/// where it is newer, and changes nothing where it is not.
proof fn tracks_known_name(kept: Seq<Candidate>, seen: Seq<Candidate>, next: Candidate, p: int)
    requires
        tracks(kept, seen),
        first_index(kept, next.name) == Some(p),
    ensures
        tracks(
            if next.timestamp > kept[p].timestamp {
                kept.update(p, next)
            } else {
                kept
            },
            seen.push(next),
        ),
{
    let newer = next.timestamp > kept[p].timestamp;
    let after = if newer {
        kept.update(p, next)
    } else {
        kept
    };
    let more = seen.push(next);
    first_index_is_first(kept, next.name);
    assert(kept[p].name == next.name);
    assert forall|q: int| 0 <= q < after.len() implies (#[trigger] after[q]).name
        == kept[q].name by {}
    assert forall|name: Seq<char>| first_index(after, name) == first_index(kept, name) by {
        first_index_by_names(after, kept, name);
    }
    assert forall|q: int| 0 <= q < after.len() implies first_index(
        after,
        (#[trigger] after[q]).name,
    ) == Some(q) by {
        assert(first_index(kept, kept[q].name) == Some(q));
    }
    assert forall|j: int| 0 <= j < more.len() implies first_index(
        after,
        (#[trigger] more[j]).name,
    ) is Some by {
        if j < seen.len() {
            assert(more[j] == seen[j]);
            assert(first_index(kept, seen[j].name) is Some);
        }
    }
    assert forall|q: int| 0 <= q < after.len() implies #[trigger] kept_is_latest(
        after,
        more,
        q,
    ) by {
        assert(kept_is_latest(kept, seen, q));
        let j = choose|j: int| is_latest(seen, j) && #[trigger] seen[j] == kept[q];
        latest_after_push(seen, next, j);
        if q == p && newer {
            let last = seen.len() as int;
            assert(is_latest(more, last) && more[last] == after[q]);
        } else {
            if q != p {
                assert(first_index(kept, kept[q].name) == Some(q));
                assert(kept[q].name != next.name);
            }
            assert(more[j] == seen[j]);
            assert(is_latest(more, j) && more[j] == after[q]);
        }
    }
    assert forall|q: int| 0 <= q < after.len() implies #[trigger] seen_at(after, more, q)
        == seen_at(kept, seen, q) by {
        assert(0 <= seen_at(kept, seen, q));
        first_index_after_push(seen, next, kept[q].name);
    }
}

/// A record of a name that is not kept yet is kept at the end.
proof fn tracks_new_name(kept: Seq<Candidate>, seen: Seq<Candidate>, next: Candidate)
    requires
        tracks(kept, seen),
        first_index(kept, next.name) is None,
    ensures
        tracks(kept.push(next), seen.push(next)),
{
    let after = kept.push(next);
    let more = seen.push(next);
    let last = kept.len() as int;
    let end = seen.len() as int;
    first_index_is_first(kept, next.name);
    assert forall|k: int| 0 <= k < seen.len() implies (#[trigger] seen[k]).name != next.name by {
        assert(first_index(kept, seen[k].name) is Some);
    }
    latest_of_new_name(seen, next);
    first_index_is_first(seen, next.name);
    assert forall|q: int| 0 <= q < after.len() implies first_index(
        after,
        (#[trigger] after[q]).name,
    ) == Some(q) by {
        first_index_after_push(kept, next, after[q].name);
        if q < last {
            assert(after[q] == kept[q]);
            assert(first_index(kept, kept[q].name) == Some(q));
        }
    }
    assert forall|j: int| 0 <= j < more.len() implies first_index(
        after,
        (#[trigger] more[j]).name,
    ) is Some by {
        first_index_after_push(kept, next, more[j].name);
        if j < seen.len() {
            assert(more[j] == seen[j]);
            assert(first_index(kept, seen[j].name) is Some);
        }
    }
    assert forall|q: int| 0 <= q < after.len() implies #[trigger] kept_is_latest(
        after,
        more,
        q,
    ) by {
        if q < last {
            assert(kept_is_latest(kept, seen, q));
            let j = choose|j: int| is_latest(seen, j) && #[trigger] seen[j] == kept[q];
            assert(first_index(kept, kept[q].name) == Some(q));
            assert(kept[q].name != next.name);
            latest_after_push(seen, next, j);
            assert(more[j] == seen[j]);
            assert(is_latest(more, j) && more[j] == after[q]);
        } else {
            assert(is_latest(more, end) && more[end] == after[q]);
        }
    }
    assert forall|q: int| 0 <= q < after.len() implies (#[trigger] seen_at(after, more, q)) == (
    if q < last {
        seen_at(kept, seen, q)
    } else {
        end
    }) by {
        first_index_after_push(seen, next, after[q].name);
        if q < last {
            assert(after[q] == kept[q]);
            assert(0 <= seen_at(kept, seen, q));
        }
    }
    assert forall|q: int| 0 <= q < last implies #[trigger] seen_at(kept, seen, q) < end by {}
}

/// Entries that track the records are what deduplication leaves of them.
proof fn tracks_is_dedup(kept: Seq<Candidate>, records: Seq<Candidate>)
    requires
        tracks(kept, records),
    ensures
        is_dedup_of(kept, records),
{
    assert forall|p: int, q: int| 0 <= p < q < kept.len() implies (#[trigger] kept[p]).name
        != (#[trigger] kept[q]).name by {
        assert(first_index(kept, kept[p].name) == Some(p));
        assert(first_index(kept, kept[q].name) == Some(q));
    }
    assert forall|p: int| 0 <= p < kept.len() implies exists|j: int|
        is_latest(records, j) && #[trigger] records[j] == #[trigger] kept[p] by {
        assert(kept_is_latest(kept, records, p));
        let j = choose|j: int| is_latest(records, j) && #[trigger] records[j] == kept[p];
        assert(is_latest(records, j) && records[j] == kept[p]);
    }
    assert forall|j: int| 0 <= j < records.len() implies exists|p: int|
        0 <= p < kept.len() && (#[trigger] kept[p]).name == (#[trigger] records[j]).name by {
        assert(first_index(kept, records[j].name) is Some);
        first_index_is_first(kept, records[j].name);
        let p = first_index(kept, records[j].name)->0;
        assert(kept[p].name == records[j].name);
    }
    assert forall|p: int, q: int| 0 <= p < q < kept.len() implies first_index(
        records,
        (#[trigger] kept[p]).name,
    )->0 < first_index(records, (#[trigger] kept[q]).name)->0 by {
        assert(seen_at(kept, records, p) < seen_at(kept, records, q));
        assert(0 <= seen_at(kept, records, p));
        assert(0 <= seen_at(kept, records, q));
    }
}

/// The entries that deduplication leaves track the records.
proof fn deduped_tracks(records: Seq<Candidate>)
    ensures
        tracks(deduped(records), records),
        deduped(records).len() <= records.len(),
    decreases records.len(),
{
    if records.len() > 0 {
        let seen = records.drop_last();
        let next = records.last();
        let kept = deduped(seen);
        deduped_tracks(seen);
        assert(seen.push(next) =~= records);
        first_index_is_first(kept, next.name);
        match first_index(kept, next.name) {
            Some(p) => {
                tracks_known_name(kept, seen, next, p);
                assert(deduped(records).len() == kept.len());
            },
            None => {
                tracks_new_name(kept, seen, next);
                assert(deduped(records).len() == kept.len() + 1);
            },
        }
    }
}

/// What deduplication leaves: one entry per name, each the latest record of
/// its name, in the order in which the names first occur; and no more entries
/// than there were records.
pub proof fn deduped_is_dedup(records: Seq<Candidate>)
    ensures
        is_dedup_of(deduped(records), records),
        deduped(records).len() <= records.len(),
{
    deduped_tracks(records);
    tracks_is_dedup(deduped(records), records);
}

/// Reduces `records` to one entry per name: the latest record of that name.
/// The entries come out in the order in which their names first occur.
pub fn dedup(records: &Vec<CandidateEntry>) -> (kept: Vec<CandidateEntry>)
    ensures
        views(kept@) == deduped(views(records@)),
        is_dedup_of(views(kept@), views(records@)),
        kept@.len() <= records@.len(),
{
    let ghost all = views(records@);
    let mut kept: Vec<CandidateEntry> = Vec::new();
    let mut places: StringHashMap<usize> = StringHashMap::new();
    let mut i: usize = 0;
    proof {
        assert(all.take(0) =~= Seq::<Candidate>::empty());
        assert(views(kept@) =~= Seq::<Candidate>::empty());
    }
    while i < records.len()
        invariant
            i <= records@.len(),
            all == views(records@),
            views(kept@) == deduped(all.take(i as int)),
            // `places` knows the place of every kept name, and nothing else.
            forall|name: Seq<char>| #[trigger]
                places@.contains_key(name) <==> first_index(views(kept@), name) is Some,
            forall|name: Seq<char>| #[trigger]
                places@.contains_key(name) ==> places@[name] == first_index(views(kept@), name)->0,
        decreases records@.len() - i,
    {
        let record = &records[i];
        let ghost seen = all.take(i as int);
        let ghost next = all[i as int];
        let ghost before = views(kept@);
        proof {
            assert(next == record@);
            assert(all.take(i + 1).drop_last() =~= seen);
            assert(all.take(i + 1).last() == next);
            first_index_is_first(before, next.name);
        }
        let place: Option<usize> = match places.get(record.name.as_str()) {
            Some(p) => Some(*p),
            None => None,
        };
        match place {
            Some(p) => {
                assert(before[p as int] == kept@[p as int]@);
                if record.timestamp > kept[p].timestamp {
                    kept.set(p, record.duplicate());
                    proof {
                        let after = views(kept@);
                        assert(after =~= before.update(p as int, next));
                        assert forall|name: Seq<char>| first_index(after, name) == first_index(
                            before,
                            name,
                        ) by {
                            first_index_by_names(after, before, name);
                        }
                    }
                }
            },
            None => {
                places.insert(record.name.clone(), kept.len());
                kept.push(record.duplicate());
                proof {
                    let after = views(kept@);
                    assert(after =~= before.push(next));
                    assert(after.drop_last() =~= before);
                }
            },
        }
        i = i + 1;
    }
    proof {
        assert(all.take(i as int) =~= all);
        deduped_is_dedup(all);
    }
    kept
}

} // verus!
