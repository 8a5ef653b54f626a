//! Error kinds of the service and the opaque player-summary lookup.
//!
//! Relationship and timeline queries never fail on missing history; only the
//! player-summary lookup, which expects a singular precomputed row, reports
//! a missing row as not found. A data-access failure of the store is an
//! internal error.
use vstd::prelude::*;

verus! {

/// What a failed operation reports at the service boundary.
#[derive(Clone, Copy, Debug, PartialEq, Eq, Structural)]
pub enum AppError {
    /// A singular resource had no matching row.
    NotFound,
    /// The underlying store could not be queried.
    Internal,
}

impl AppError {
    /// The HTTP status code the boundary maps the error to.
    pub fn status_code(&self) -> (r: u16)
        ensures
            *self is NotFound ==> r == 404,
            *self is Internal ==> r == 500,
    {
        match self {
            AppError::NotFound => 404,
            AppError::Internal => 500,
        }
    }
}

/// The precomputed player summary as the store hands it over. The average
/// point differential is computed upstream; the library carries it as an
/// opaque 64-bit encoding (an IEEE 754 bit pattern) and never computes on it.
#[derive(Clone, Copy, Debug, PartialEq, Eq, Structural)]
pub struct PlayerSummaryRow {
    pub person_id: i64,
    pub average_points_difference_bits: u64,
    pub total_matches: i64,
    pub wins: i64,
}

/// The player summary as exposed to callers.
#[derive(Clone, Copy, Debug, PartialEq, Eq, Structural)]
pub struct PlayerStats {
    pub player_id: i64,
    pub average_points_difference_bits: u64,
    pub total_matches: i64,
    pub wins: i64,
}

/// Turns the optional summary row into the boundary result: the mapped
/// summary when the row exists, not found when it does not.
pub fn player_stats_response(row: Option<PlayerSummaryRow>) -> (r: Result<PlayerStats, AppError>)
    ensures
        row is Some ==> r is Ok && r.unwrap() == (PlayerStats {
            player_id: row.unwrap().person_id,
            average_points_difference_bits: row.unwrap().average_points_difference_bits,
            total_matches: row.unwrap().total_matches,
            wins: row.unwrap().wins,
        }),
        row is None ==> r == Result::<PlayerStats, AppError>::Err(AppError::NotFound),
{
    match row {
        Some(s) => Ok(
            PlayerStats {
                player_id: s.person_id,
                average_points_difference_bits: s.average_points_difference_bits,
                total_matches: s.total_matches,
                wins: s.wins,
            },
        ),
        None => Err(AppError::NotFound),
    }
}

} // verus!
