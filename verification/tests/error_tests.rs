use club_ranking::error::{player_stats_response, AppError, PlayerStats, PlayerSummaryRow};

#[test]
fn not_found_maps_to_404() {
    assert_eq!(AppError::NotFound.status_code(), 404);
}

#[test]
fn internal_maps_to_500() {
    assert_eq!(AppError::Internal.status_code(), 500);
}

#[test]
fn missing_summary_is_not_found() {
    assert_eq!(player_stats_response(None), Err(AppError::NotFound));
}

#[test]
fn present_summary_is_mapped_field_for_field() {
    let row = PlayerSummaryRow {
        person_id: 12,
        average_points_difference_bits: 3.25f64.to_bits(),
        total_matches: 40,
        wins: 23,
    };
    let r = player_stats_response(Some(row));
    assert_eq!(
        r,
        Ok(PlayerStats {
            player_id: 12,
            average_points_difference_bits: 3.25f64.to_bits(),
            total_matches: 40,
            wins: 23,
        })
    );
    assert_eq!(f64::from_bits(r.unwrap().average_points_difference_bits), 3.25);
}
