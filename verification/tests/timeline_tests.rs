use club_ranking::timeline::{
    build_timeline, seed_entry, Date, DateTime, RatingSnapshotRow, Time, SEED_MU_BITS,
    SEED_SIGMA_BITS, TIMELINE_CLUB_ID,
};

#[test]
fn seed_encodes_the_prior_rating() {
    assert_eq!(f64::from_bits(SEED_MU_BITS), 25.0);
    assert_eq!(f64::from_bits(SEED_SIGMA_BITS), 25.0 / 3.0);
    assert_eq!(TIMELINE_CLUB_ID, 1);
}

#[test]
fn timeline_of_person_with_no_matches_is_the_seed_alone() {
    let r = build_timeline(42, &vec![]);
    assert_eq!(r.person_id, 42);
    assert_eq!(r.history.len(), 1);
    let e = &r.history[0];
    assert_eq!(e.match_id, 0);
    assert_eq!(e.date, Date { year: 2025, month: 1, day: 1 });
    assert_eq!(e.start_time, Time { hour: 0, minute: 0, second: 0 });
    assert_eq!(e.mu_bits, SEED_MU_BITS);
    assert_eq!(e.sigma_bits, SEED_SIGMA_BITS);
    assert!(!e.winner);
}

#[test]
fn seed_entry_matches_the_constants() {
    let e = seed_entry();
    assert_eq!(e.match_id, 0);
    assert_eq!(f64::from_bits(e.mu_bits), 25.0);
    assert_eq!(f64::from_bits(e.sigma_bits), 25.0 / 3.0);
    assert_eq!(e.datetime, DateTime { date: e.date, time: e.start_time });
}

#[test]
fn timeline_keeps_rows_in_match_order_after_the_seed() {
    let rows = vec![
        RatingSnapshotRow {
            match_id: 3,
            date: Date { year: 2025, month: 2, day: 1 },
            start_time: Time { hour: 18, minute: 30, second: 0 },
            mu_bits: 26.5f64.to_bits(),
            sigma_bits: 7.9f64.to_bits(),
            winner: true,
        },
        RatingSnapshotRow {
            match_id: 8,
            date: Date { year: 2025, month: 2, day: 8 },
            start_time: Time { hour: 19, minute: 0, second: 0 },
            mu_bits: 25.9f64.to_bits(),
            sigma_bits: 7.5f64.to_bits(),
            winner: false,
        },
    ];
    let r = build_timeline(7, &rows);
    assert_eq!(r.person_id, 7);
    assert_eq!(r.history.len(), 3);
    assert_eq!(r.history[0].match_id, 0);
    assert_eq!(r.history[1].match_id, 3);
    assert_eq!(r.history[2].match_id, 8);
    // every entry combines its date and start time
    for e in &r.history {
        assert_eq!(e.datetime, DateTime { date: e.date, time: e.start_time });
    }
    // the stored values are replayed bit for bit
    assert_eq!(f64::from_bits(r.history[1].mu_bits), 26.5);
    assert_eq!(f64::from_bits(r.history[2].sigma_bits), 7.5);
    assert!(r.history[1].winner);
    assert!(!r.history[2].winner);
}

#[test]
fn timeline_is_identical_on_repeated_calls() {
    let rows = vec![RatingSnapshotRow {
        match_id: 5,
        date: Date { year: 2025, month: 3, day: 2 },
        start_time: Time { hour: 9, minute: 15, second: 30 },
        mu_bits: 24.25f64.to_bits(),
        sigma_bits: 8.0f64.to_bits(),
        winner: true,
    }];
    let a = build_timeline(9, &rows);
    let b = build_timeline(9, &rows);
    assert_eq!(a, b);
}
