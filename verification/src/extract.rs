//! Record extraction: from the metadata tree of a snapshot to candidate entries.
//!
//! A snapshot lists its packages in two objects, under the keys `packages` and
//! `packages.conda`. Each member of either object describes one package. A
//! member becomes a candidate entry when its `name` and its `license` are text
//! and its `timestamp` encodes an instant, as a number or as text. Any other
//! member is passed over: one whose license is null or missing, one whose name
//! or license is no text, one without a timestamp that can be read. Where
//! either of the two objects is missing, the snapshot gives no entries at all.

use crate::record::{views, Candidate, CandidateEntry};
use crate::timestamp::{decimal_text, instant_of_text, parse_instant, text_and_number_agree};
use crate::tree::MetadataTree;
use vstd::prelude::*;

verus! {

/// The instant that a timestamp node encodes, if it encodes one.
pub open spec fn instant_of(node: MetadataTree) -> Option<i64> {
    match node {
        MetadataTree::Text(text) => instant_of_text(text@),
        MetadataTree::Number(value) => value,
        _ => None,
    }
}

/// The candidate entry that a member of a package object gives, if it gives one.
pub open spec fn candidate_of(entry: MetadataTree) -> Option<Candidate> {
    match (
        entry.spec_field("license"@),
        entry.spec_field("name"@),
        instant_of(entry.spec_field("timestamp"@)),
    ) {
        (MetadataTree::Text(license), MetadataTree::Text(name), Some(timestamp)) => Some(
            Candidate { name: name@, timestamp, license: license@ },
        ),
        _ => None,
    }
}

/// The candidate entries that the members of a package object give, in the
/// order of the members.
pub open spec fn candidates_in(members: Seq<(String, MetadataTree)>) -> Seq<Candidate>
    decreases members.len(),
{
    if members.len() == 0 {
        Seq::empty()
    } else {
        let front = candidates_in(members.drop_last());
        match candidate_of(members.last().1) {
            Some(candidate) => front.push(candidate),
            None => front,
        }
    }
}

/// The members of the package object under `key`, if there is such an object.
pub open spec fn package_object(tree: MetadataTree, key: Seq<char>) -> Option<
    Seq<(String, MetadataTree)>,
> {
    match tree.spec_field(key) {
        MetadataTree::Object(members) => Some(members@),
        _ => None,
    }
}

/// The candidate entries of a snapshot: those of `packages`, then those of
/// `packages.conda`; none where either object is missing.
pub open spec fn records_of(tree: MetadataTree) -> Seq<Candidate> {
    match (package_object(tree, "packages"@), package_object(tree, "packages.conda"@)) {
        (Some(legacy), Some(current)) => candidates_in(legacy) + candidates_in(current),
        _ => Seq::empty(),
    }
}

/// A timestamp given as text and one given as a number encode the same
/// instant where the text is the decimal numeral of the number.
pub proof fn timestamp_forms_agree(text: MetadataTree, number: MetadataTree, instant: i64)
    requires
        text matches MetadataTree::Text(numeral) && numeral@ == decimal_text(instant as int),
        number == MetadataTree::Number(Some(instant)),
    ensures
        instant_of(text) == Some(instant),
        instant_of(text) == instant_of(number),
{
    text_and_number_agree(instant);
}

/// A member whose license is null or missing is excluded: the entries of its
/// object are the same with it and without it, wherever it stands.
pub proof fn null_license_is_excluded(
    members: Seq<(String, MetadataTree)>,
    at: int,
    member: (String, MetadataTree),
)
    requires
        0 <= at <= members.len(),
        member.1.spec_field("license"@) is Null,
    ensures
        candidate_of(member.1) is None,
        candidates_in(members.insert(at, member)) == candidates_in(members),
    decreases members.len(),
{
    let longer = members.insert(at, member);
    if at == members.len() {
        assert(longer.drop_last() =~= members);
    } else {
        assert(longer.last() == members.last());
        assert(longer.drop_last() =~= members.drop_last().insert(at, member));
        null_license_is_excluded(members.drop_last(), at, member);
    }
}

/// Reads a timestamp node: the instant it encodes, if it encodes one.
pub fn read_instant(node: &MetadataTree) -> (r: Option<i64>)
    ensures
        r == instant_of(*node),
{
    match node {
        MetadataTree::Text(text) => parse_instant(text.as_str()),
        MetadataTree::Number(value) => *value,
        _ => None,
    }
}

/// The text under `key` in `entry`, where text stands there.
fn text_field<'a>(entry: &'a MetadataTree, key: &str) -> (r: Option<&'a String>)
    ensures
        match r {
            Some(text) => entry.spec_field(key@) == MetadataTree::Text(*text),
            None => !(entry.spec_field(key@) is Text),
        },
{
    match entry.field(key) {
        Some(node) => match node {
            MetadataTree::Text(text) => Some(text),
            _ => None,
        },
        None => None,
    }
}

/// Reads one member of a package object: the candidate entry it gives, if it
/// gives one.
pub fn read_candidate(entry: &MetadataTree) -> (r: Option<CandidateEntry>)
    ensures
        match r {
            Some(candidate) => candidate_of(*entry) == Some(candidate@),
            None => candidate_of(*entry) is None,
        },
{
    let license = match text_field(entry, "license") {
        Some(text) => text,
        None => {
            return None;
        },
    };
    let name = match text_field(entry, "name") {
        Some(text) => text,
        None => {
            return None;
        },
    };
    let timestamp: i64 = match entry.field("timestamp") {
        Some(node) => match read_instant(node) {
            Some(instant) => instant,
            None => {
                return None;
            },
        },
        None => {
            return None;
        },
    };
    Some(CandidateEntry { name: name.clone(), timestamp, license: license.clone() })
}

/// The members of the package object under `key`, if there is such an object.
fn package_members<'a>(tree: &'a MetadataTree, key: &str) -> (r: Option<
    &'a Vec<(String, MetadataTree)>,
>)
    ensures
        match r {
            Some(members) => package_object(*tree, key@) == Some(members@),
            None => package_object(*tree, key@) is None,
        },
{
    match tree.field(key) {
        Some(node) => match node {
            MetadataTree::Object(members) => Some(members),
            _ => None,
        },
        None => None,
    }
}

/// Appends to `entries` the candidate entries that `members` give.
fn read_members(members: &Vec<(String, MetadataTree)>, entries: &mut Vec<CandidateEntry>)
    ensures
        views(final(entries)@) == views(old(entries)@) + candidates_in(members@),
{
    let ghost start = views(entries@);
    let mut i: usize = 0;
    proof {
        assert(members@.take(0) =~= Seq::<(String, MetadataTree)>::empty());
        assert(start + Seq::<Candidate>::empty() =~= start);
    }
    while i < members.len()
        invariant
            i <= members@.len(),
            views(entries@) == start + candidates_in(members@.take(i as int)),
        decreases members@.len() - i,
    {
        let ghost before = views(entries@);
        proof {
            assert(members@.take(i + 1).drop_last() =~= members@.take(i as int));
            assert(members@.take(i + 1).last() == members@[i as int]);
        }
        match read_candidate(&members[i].1) {
            Some(candidate) => {
                let ghost added = candidate@;
                entries.push(candidate);
                proof {
                    assert(views(entries@) =~= before.push(added));
                    assert(before.push(added) =~= start + candidates_in(members@.take(i + 1)));
                }
            },
            None => {},
        }
        i = i + 1;
    }
    proof {
        assert(members@.take(i as int) =~= members@);
    }
}

/// The candidate entries of a snapshot, in the order in which it lists them.
pub fn extract(tree: &MetadataTree) -> (entries: Vec<CandidateEntry>)
    ensures
        views(entries@) == records_of(*tree),
{
    let mut entries: Vec<CandidateEntry> = Vec::new();
    let legacy = match package_members(tree, "packages") {
        Some(members) => members,
        None => {
            proof {
                assert(views(entries@) =~= Seq::<Candidate>::empty());
            }
            return entries;
        },
    };
    let current = match package_members(tree, "packages.conda") {
        Some(members) => members,
        None => {
            proof {
                assert(views(entries@) =~= Seq::<Candidate>::empty());
            }
            return entries;
        },
    };
    proof {
        assert(views(entries@) =~= Seq::<Candidate>::empty());
    }
    read_members(legacy, &mut entries);
    read_members(current, &mut entries);
    proof {
        assert(Seq::<Candidate>::empty() + candidates_in(legacy@) =~= candidates_in(legacy@));
    }
    entries
}

} // verus!
