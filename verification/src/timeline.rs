//! Chronological skill-rating timeline for one person.
//!
//! The store keeps one rating snapshot per match a person played, under a
//! fixed club scope. The timeline is those snapshots in ascending match
//! order, prefixed with a synthetic baseline entry (match id 0, the fixed
//! baseline date, the prior rating), so that a person with no matches still
//! has one renderable point.
//!
//! Rating mean and uncertainty are computed upstream and only replayed here;
//! the library carries them as opaque 64-bit encodings (IEEE 754 bit
//! patterns) and never computes on them, so a replay is bit-identical.
use vstd::prelude::*;

verus! {

/// The club scope the timeline is built under; not parameterized.
pub const TIMELINE_CLUB_ID: i64 = 1;

/// Bit pattern of the baseline rating mean, 25.0.
pub const SEED_MU_BITS: u64 = 0x4039000000000000;

/// Bit pattern of the baseline rating uncertainty, 25.0 / 3.0.
pub const SEED_SIGMA_BITS: u64 = 0x4020aaaaaaaaaaab;

/// A calendar date in the system's reference calendar.
#[derive(Clone, Copy, Debug, PartialEq, Eq, Structural)]
pub struct Date {
    pub year: i32,
    pub month: u8,
    pub day: u8,
}

/// A time of day.
#[derive(Clone, Copy, Debug, PartialEq, Eq, Structural)]
pub struct Time {
    pub hour: u8,
    pub minute: u8,
    pub second: u8,
}

/// A date combined with a time of day.
#[derive(Clone, Copy, Debug, PartialEq, Eq, Structural)]
pub struct DateTime {
    pub date: Date,
    pub time: Time,
}

/// One stored rating observation: the person's rating after one match,
/// under the timeline's club scope, as handed over by the store.
#[derive(Clone, Copy, Debug, PartialEq, Eq, Structural)]
pub struct RatingSnapshotRow {
    pub match_id: i64,
    pub date: Date,
    pub start_time: Time,
    pub mu_bits: u64,
    pub sigma_bits: u64,
    pub winner: bool,
}

/// One timeline entry: a snapshot with its combined date-time.
#[derive(Clone, Copy, Debug, PartialEq, Eq, Structural)]
pub struct RankHistoryEntry {
    pub match_id: i64,
    pub date: Date,
    pub start_time: Time,
    pub datetime: DateTime,
    pub winner: bool,
    pub mu_bits: u64,
    pub sigma_bits: u64,
}

/// A person's full timeline.
#[derive(Clone, Debug, PartialEq)]
pub struct RankHistory {
    pub person_id: i64,
    pub history: Vec<RankHistoryEntry>,
}

/// The baseline date, the first day of the reference year.
pub open spec fn seed_date() -> Date {
    Date { year: 2025, month: 1, day: 1 }
}

/// The synthetic baseline entry: match id 0, midnight of the baseline date,
/// the prior rating, no win.
pub open spec fn seed_entry_spec() -> RankHistoryEntry {
    RankHistoryEntry {
        match_id: 0,
        date: seed_date(),
        start_time: Time { hour: 0, minute: 0, second: 0 },
        datetime: DateTime {
            date: seed_date(),
            time: Time { hour: 0, minute: 0, second: 0 },
        },
        winner: false,
        mu_bits: SEED_MU_BITS,
        sigma_bits: SEED_SIGMA_BITS,
    }
}

/// The timeline entry a stored snapshot maps to: the same fields, with the
/// date and start time also combined into one date-time.
pub open spec fn entry_of_spec(row: RatingSnapshotRow) -> RankHistoryEntry {
    RankHistoryEntry {
        match_id: row.match_id,
        date: row.date,
        start_time: row.start_time,
        datetime: DateTime { date: row.date, time: row.start_time },
        winner: row.winner,
        mu_bits: row.mu_bits,
        sigma_bits: row.sigma_bits,
    }
}

/// Snapshot rows sorted ascending by match id, as the store hands them out.
pub open spec fn sorted_by_match_id(rows: Seq<RatingSnapshotRow>) -> bool {
    forall|i: int, j: int| 0 <= i <= j < rows.len() ==> rows[i].match_id <= rows[j].match_id
}

/// Builds the synthetic baseline entry.
pub fn seed_entry() -> (r: RankHistoryEntry)
    ensures
        r == seed_entry_spec(),
{
    let date = Date { year: 2025, month: 1, day: 1 };
    let time = Time { hour: 0, minute: 0, second: 0 };
    RankHistoryEntry {
        match_id: 0,
        date,
        start_time: time,
        datetime: DateTime { date, time },
        winner: false,
        mu_bits: SEED_MU_BITS,
        sigma_bits: SEED_SIGMA_BITS,
    }
}

/// Builds the timeline for a person from their stored snapshot rows: the
/// baseline entry first, then every row in the order given, each with its
/// combined date-time. A person with no rows gets exactly the baseline.
pub fn build_timeline(person_id: i64, rows: &Vec<RatingSnapshotRow>) -> (r: RankHistory)
    requires
        sorted_by_match_id(rows@),
    ensures
        r.person_id == person_id,
        r.history@.len() == rows@.len() + 1,
        r.history@[0] == seed_entry_spec(),
        forall|i: int| 0 <= i < rows@.len() ==> r.history@[i + 1] == entry_of_spec(rows@[i]),
        forall|i: int, j: int|
            1 <= i <= j < r.history@.len() ==> r.history@[i].match_id <= r.history@[j].match_id,
{
    let mut history: Vec<RankHistoryEntry> = Vec::new();
    history.push(seed_entry());
    let mut i: usize = 0;
    while i < rows.len()
        invariant
            i <= rows@.len(),
            history@.len() == i + 1,
            history@[0] == seed_entry_spec(),
            forall|k: int| 0 <= k < i ==> history@[k + 1] == entry_of_spec(rows@[k]),
        decreases rows@.len() - i,
    {
        let row = rows[i];
        history.push(RankHistoryEntry {
            match_id: row.match_id,
            date: row.date,
            start_time: row.start_time,
            datetime: DateTime { date: row.date, time: row.start_time },
            winner: row.winner,
            mu_bits: row.mu_bits,
            sigma_bits: row.sigma_bits,
        });
        i = i + 1;
    }
    proof {
        assert forall|a: int, b: int|
            1 <= a <= b < history@.len() implies history@[a].match_id
            <= history@[b].match_id by {
            assert(history@[a] == entry_of_spec(rows@[a - 1]));
            assert(history@[b] == entry_of_spec(rows@[b - 1]));
        }
    }
    RankHistory { person_id, history }
}

/// The timeline always has at least the baseline entry, the baseline is
/// first with match id 0, and a person with no stored rows gets exactly the
/// one baseline entry.
pub proof fn lemma_timeline_seeded(r: RankHistory, rows: Seq<RatingSnapshotRow>)
    requires
        r.history@.len() == rows.len() + 1,
        r.history@[0] == seed_entry_spec(),
    ensures
        r.history@.len() >= 1,
        r.history@[0].match_id == 0,
        rows.len() == 0 ==> r.history@ =~= seq![seed_entry_spec()],
{
}

} // verus!
