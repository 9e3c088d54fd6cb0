//! License classification: is the license field of an entry a valid license
//! expression, and under which key is it counted?
//!
//! A license text is valid when it parses as an SPDX license expression:
//! license identifiers joined by `AND`, `OR` and `WITH`, with an optional `+`
//! behind an identifier, and parentheses. A valid text is counted under the
//! text that the parsed expression is written back as, an invalid one under
//! the key `INVALID`.

use crate::frequency::FrequencyTable;
use crate::record::CandidateEntry;
use vstd::multiset::*;
use vstd::prelude::*;
use vstd::seq_lib::*;

verus! {

broadcast use group_multiset_axioms;

/// Whether `text` is a valid SPDX license expression.
pub uninterp spec fn spdx_accepts(text: Seq<char>) -> bool;

/// Parses `text` with `spdx::Expression::parse` and writes the expression back
/// with its `Display`. The text gives `Some` exactly when the parser accepts
/// it; whether it does depends on the text alone. An accepted expression keeps
/// the text it was parsed from and is written back as that text.
#[verifier::external_body]
fn parse_expression(text: &str) -> (r: Option<String>)
    ensures
        r is Some <==> spdx_accepts(text@),
        r matches Some(written) ==> written@ == text@,
{
    match spdx::Expression::parse(text) {
        Ok(expression) => Some(expression.to_string()),
        Err(_) => None,
    }
}

/// What classification finds of one license text.
#[derive(Debug, Clone, PartialEq, Eq)]
pub enum Classification {
    /// A valid license expression, with the text it is written back as.
    Valid(String),
    Invalid,
}

impl Classification {
    /// The key under which the license is counted.
    pub open spec fn spec_key(self) -> Seq<char> {
        match self {
            Classification::Valid(written) => written@,
            Classification::Invalid => "INVALID"@,
        }
    }

    /// The key under which the license is counted: the text of a valid
    /// expression, `INVALID` for an invalid one.
    pub fn key(&self) -> (key: String)
        ensures
            key@ == self.spec_key(),
    {
        match self {
            Classification::Valid(written) => written.clone(),
            Classification::Invalid => "INVALID".to_owned(),
        }
    }

    /// Whether the license is a valid expression.
    pub fn is_valid(&self) -> (valid: bool)
        ensures
            valid == (self is Valid),
    {
        match self {
            Classification::Valid(_) => true,
            Classification::Invalid => false,
        }
    }

    /// The classification that a parse result stands for: `Valid` with the
    /// written expression, `Invalid` where there is none.
    pub fn of_parsed(parsed: Option<String>) -> (r: Classification)
        ensures
            match parsed {
                Some(written) => r == Classification::Valid(written),
                None => r == Classification::Invalid,
            },
    {
        match parsed {
            Some(written) => Classification::Valid(written),
            None => Classification::Invalid,
        }
    }
}

/// The key under which a license text is counted.
pub open spec fn license_key(text: Seq<char>) -> Seq<char> {
    if spdx_accepts(text) {
        text
    } else {
        "INVALID"@
    }
}

/// Classifies one license text.
pub fn classify(text: &str) -> (r: Classification)
    ensures
        r is Valid <==> spdx_accepts(text@),
        r matches Classification::Valid(written) ==> written@ == text@,
        r.spec_key() == license_key(text@),
{
    Classification::of_parsed(parse_expression(text))
}

/// Classifies the license of every entry, in the order of the entries.
pub fn classify_entries(entries: &Vec<CandidateEntry>) -> (found: Vec<Classification>)
    ensures
        found@.len() == entries@.len(),
        forall|i: int|
            0 <= i < entries@.len() ==> ((#[trigger] found@[i]) is Valid <==> spdx_accepts(
                entries@[i].license@,
            )) && found@[i].spec_key() == license_key(entries@[i].license@),
{
    let mut found: Vec<Classification> = Vec::new();
    let mut i: usize = 0;
    while i < entries.len()
        invariant
            i <= entries@.len(),
            found@.len() == i,
            forall|j: int|
                0 <= j < i ==> ((#[trigger] found@[j]) is Valid <==> spdx_accepts(
                    entries@[j].license@,
                )) && found@[j].spec_key() == license_key(entries@[j].license@),
        decreases entries@.len() - i,
    {
        found.push(classify(entries[i].license.as_str()));
        i = i + 1;
    }
    found
}

/// How many entries of one platform carry a valid license expression, and how
/// many do not.
#[derive(Debug, Clone, PartialEq, Eq)]
pub struct PlatformSummary {
    pub platform: String,
    pub valid_count: u32,
    pub invalid_count: u32,
}

/// The keys of a run of classifications, in their order.
pub open spec fn keys_of(found: Seq<Classification>) -> Seq<Seq<char>> {
    Seq::new(found.len(), |i: int| found[i].spec_key())
}

/// How many of a run of classifications are valid.
pub open spec fn valid_among(found: Seq<Classification>) -> nat
    decreases found.len(),
{
    if found.len() == 0 {
        0
    } else {
        valid_among(found.drop_last()) + if found.last() is Valid {
            1nat
        } else {
            0nat
        }
    }
}

/// What the classification of one platform's entries comes to: its counts of
/// valid and invalid licenses, and its frequency table.
pub struct PlatformReport {
    summary: PlatformSummary,
    table: FrequencyTable,
}

impl PlatformReport {
    /// The counts of the platform.
    pub closed spec fn spec_summary(&self) -> PlatformSummary {
        self.summary
    }

    /// The frequency table of the platform.
    pub closed spec fn spec_table(&self) -> FrequencyTable {
        self.table
    }

    /// How many entries were classified.
    pub open spec fn classified(&self) -> nat {
        (self.spec_summary().valid_count + self.spec_summary().invalid_count) as nat
    }

    /// Every classified entry was counted once as valid or invalid and once in
    /// the table, and no more than `u32::MAX` entries were classified.
    pub closed spec fn wf(&self) -> bool {
        &&& self.table.wf()
        &&& self.table@.len() == self.summary.valid_count + self.summary.invalid_count
        &&& self.summary.valid_count + self.summary.invalid_count <= u32::MAX
    }

    /// What a well-formed report holds: as many keys in its table as it
    /// classified entries.
    pub proof fn counts_agree(&self)
        requires
            self.wf(),
        ensures
            self.spec_table().wf(),
            self.spec_table()@.len() == self.classified(),
            self.classified() <= u32::MAX,
    {
    }

    /// The counts of the platform.
    pub fn summary(&self) -> (summary: &PlatformSummary)
        ensures
            *summary == self.spec_summary(),
    {
        &self.summary
    }

    /// The frequency table of the platform.
    pub fn table(&self) -> (table: &FrequencyTable)
        ensures
            *table == self.spec_table(),
            self.wf() ==> table.wf(),
    {
        &self.table
    }

    /// The counts and the frequency table of the platform.
    pub fn into_parts(self) -> (parts: (PlatformSummary, FrequencyTable))
        ensures
            parts.0 == self.spec_summary(),
            parts.1 == self.spec_table(),
            self.wf() ==> parts.1.wf(),
    {
        (self.summary, self.table)
    }
}

/// Counts the classifications of one platform: how many are valid, how many
/// invalid, and how often each key occurs.
pub fn summarize(platform: String, found: &Vec<Classification>) -> (report: PlatformReport)
    requires
        found@.len() <= u32::MAX,
    ensures
        report.wf(),
        report.spec_summary().platform@ == platform@,
        report.spec_summary().valid_count == valid_among(found@),
        report.spec_summary().valid_count + report.spec_summary().invalid_count == found@.len(),
        report.spec_table()@ == keys_of(found@).to_multiset(),
{
    let mut table = FrequencyTable::new();
    let mut valid: u32 = 0;
    let mut invalid: u32 = 0;
    let mut i: usize = 0;
    proof {
        assert(found@.take(0) =~= Seq::<Classification>::empty());
        assert(keys_of(found@.take(0)) =~= Seq::<Seq<char>>::empty());
        assert(Seq::<Seq<char>>::empty().to_multiset() =~= Multiset::<Seq<char>>::empty()) by {
            to_multiset_len(Seq::<Seq<char>>::empty());
        }
    }
    while i < found.len()
        invariant
            i <= found@.len(),
            found@.len() <= u32::MAX,
            table.wf(),
            valid == valid_among(found@.take(i as int)),
            valid + invalid == i,
            table@ == keys_of(found@.take(i as int)).to_multiset(),
        decreases found@.len() - i,
    {
        proof {
            let seen = found@.take(i as int);
            let more = found@.take(i + 1);
            assert(more.drop_last() =~= seen);
            assert(more.last() == found@[i as int]);
            assert(keys_of(more) =~= keys_of(seen).push(found@[i as int].spec_key()));
            to_multiset_build(keys_of(seen), found@[i as int].spec_key());
            to_multiset_len(keys_of(seen));
        }
        if found[i].is_valid() {
            valid = valid + 1;
        } else {
            invalid = invalid + 1;
        }
        table.record(found[i].key());
        i = i + 1;
    }
    proof {
        assert(found@.take(i as int) =~= found@);
        to_multiset_len(keys_of(found@));
    }
    PlatformReport {
        summary: PlatformSummary { platform, valid_count: valid, invalid_count: invalid },
        table,
    }
}

} // verus!
