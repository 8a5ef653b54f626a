use club_ranking::opponent::compute_opponent_stats;
use club_ranking::partner::compute_partner_stats;
use club_ranking::rows::{
    Dataset, MatchRow, PersonRow, PlayerRow, ResultRow, SessionRow, TeamMemberRow,
};
use club_ranking::timeline::build_timeline;

fn person(id: i64, name: &str) -> PersonRow {
    PersonRow { id, name: String::from(name) }
}

/// One shared-team match with Bob (won) and one opposing match with Cara
/// (lost), both in club 1.
fn minimal_dataset() -> Dataset {
    Dataset {
        persons: vec![person(1, "Alice"), person(2, "Bob"), person(3, "Cara")],
        players: vec![
            PlayerRow { id: 10, person_id: 1 },
            PlayerRow { id: 11, person_id: 2 },
            PlayerRow { id: 12, person_id: 3 },
        ],
        team_members: vec![
            TeamMemberRow { team_id: 100, player_id: 10 },
            TeamMemberRow { team_id: 100, player_id: 11 },
            TeamMemberRow { team_id: 102, player_id: 10 },
            TeamMemberRow { team_id: 103, player_id: 12 },
        ],
        sessions: vec![SessionRow { id: 500, club_id: Some(1) }],
        matches: vec![MatchRow { id: 1000, session_id: 500 }, MatchRow {
            id: 1001,
            session_id: 500,
        }],
        results: vec![
            ResultRow { team_id: 100, match_id: 1000, winner: true },
            ResultRow { team_id: 101, match_id: 1000, winner: false },
            ResultRow { team_id: 102, match_id: 1001, winner: false },
            ResultRow { team_id: 103, match_id: 1001, winner: true },
        ],
    }
}

/// A richer dataset: a second shared match in a session without a club, a
/// partner with fewer matches, and a match of another club.
fn club_dataset() -> Dataset {
    Dataset {
        persons: vec![
            person(1, "Alice"),
            person(2, "Bob"),
            person(3, "Cara"),
            person(4, "Dana"),
            person(6, "Fay"),
        ],
        players: vec![
            PlayerRow { id: 10, person_id: 1 },
            PlayerRow { id: 11, person_id: 2 },
            PlayerRow { id: 12, person_id: 3 },
            PlayerRow { id: 16, person_id: 6 },
        ],
        team_members: vec![
            TeamMemberRow { team_id: 100, player_id: 10 },
            TeamMemberRow { team_id: 100, player_id: 11 },
            TeamMemberRow { team_id: 102, player_id: 10 },
            TeamMemberRow { team_id: 102, player_id: 16 },
            TeamMemberRow { team_id: 103, player_id: 12 },
            TeamMemberRow { team_id: 104, player_id: 10 },
            TeamMemberRow { team_id: 104, player_id: 11 },
            TeamMemberRow { team_id: 105, player_id: 12 },
            TeamMemberRow { team_id: 106, player_id: 10 },
            TeamMemberRow { team_id: 107, player_id: 11 },
        ],
        sessions: vec![
            SessionRow { id: 500, club_id: Some(1) },
            SessionRow { id: 501, club_id: None },
            SessionRow { id: 502, club_id: Some(2) },
        ],
        matches: vec![
            MatchRow { id: 1000, session_id: 500 },
            MatchRow { id: 1001, session_id: 500 },
            MatchRow { id: 1002, session_id: 501 },
            MatchRow { id: 1003, session_id: 502 },
        ],
        results: vec![
            ResultRow { team_id: 100, match_id: 1000, winner: true },
            ResultRow { team_id: 101, match_id: 1000, winner: false },
            ResultRow { team_id: 102, match_id: 1001, winner: false },
            ResultRow { team_id: 103, match_id: 1001, winner: true },
            ResultRow { team_id: 104, match_id: 1002, winner: true },
            ResultRow { team_id: 105, match_id: 1002, winner: false },
            ResultRow { team_id: 106, match_id: 1003, winner: true },
            ResultRow { team_id: 107, match_id: 1003, winner: false },
        ],
    }
}

#[test]
fn one_partner_won_one_opponent_lost() {
    let d = minimal_dataset();
    let partners = compute_partner_stats(&d, 1, 1);
    assert_eq!(partners.len(), 1);
    assert_eq!(partners[0].other_person_id, 2);
    assert_eq!(partners[0].other_person_name, "Bob");
    assert_eq!(partners[0].wins, 1);
    assert_eq!(partners[0].match_count, 1);
    assert_eq!(partners[0].win_rate_millis, Some(1000));

    let opponents = compute_opponent_stats(&d, 1, 1);
    assert_eq!(opponents.len(), 1);
    assert_eq!(opponents[0].other_person_id, 3);
    assert_eq!(opponents[0].other_person_name, "Cara");
    assert_eq!(opponents[0].wins, 0);
    assert_eq!(opponents[0].match_count, 1);
    assert_eq!(opponents[0].win_rate_millis, Some(0));
}

#[test]
fn partner_rule_includes_sessions_without_a_club() {
    let d = club_dataset();
    let partners = compute_partner_stats(&d, 1, 1);
    // Bob: the club-1 match and the clubless match; Fay: one club-1 match.
    assert_eq!(partners.len(), 2);
    assert_eq!(partners[0].other_person_id, 2);
    assert_eq!(partners[0].match_count, 2);
    assert_eq!(partners[0].wins, 2);
    assert_eq!(partners[0].win_rate_millis, Some(1000));
    assert_eq!(partners[1].other_person_id, 6);
    assert_eq!(partners[1].match_count, 1);
    assert_eq!(partners[1].wins, 0);
    assert_eq!(partners[1].win_rate_millis, Some(0));
}

#[test]
fn opponent_rule_keeps_only_the_queried_club() {
    let d = club_dataset();
    let opponents = compute_opponent_stats(&d, 1, 1);
    // Cara opposed in the clubless match too, but only the club-1 match counts.
    assert_eq!(opponents.len(), 1);
    assert_eq!(opponents[0].other_person_id, 3);
    assert_eq!(opponents[0].match_count, 1);
    assert_eq!(opponents[0].wins, 0);
    assert_eq!(opponents[0].win_rate_millis, Some(0));
}

#[test]
fn queries_for_another_club_see_only_its_matches() {
    let d = club_dataset();
    let partners = compute_partner_stats(&d, 1, 2);
    // the club-2 team had no other member, but the clubless match still counts
    assert_eq!(partners.len(), 1);
    assert_eq!(partners[0].other_person_id, 2);
    assert_eq!(partners[0].match_count, 1);
    assert_eq!(partners[0].wins, 1);
    let opponents = compute_opponent_stats(&d, 1, 2);
    assert_eq!(opponents.len(), 1);
    assert_eq!(opponents[0].other_person_id, 2);
    assert_eq!(opponents[0].wins, 1);
    assert_eq!(opponents[0].match_count, 1);
    assert_eq!(opponents[0].win_rate_millis, Some(1000));
}

#[test]
fn results_are_ranked_by_match_count_descending() {
    let d = club_dataset();
    let partners = compute_partner_stats(&d, 1, 1);
    for w in partners.windows(2) {
        assert!(w[0].match_count >= w[1].match_count);
    }
}

#[test]
fn nobody_is_their_own_partner_or_opponent() {
    let d = club_dataset();
    for st in compute_partner_stats(&d, 1, 1) {
        assert_ne!(st.other_person_id, 1);
    }
    for st in compute_opponent_stats(&d, 1, 1) {
        assert_ne!(st.other_person_id, 1);
    }
    for st in compute_partner_stats(&d, 2, 1) {
        assert_ne!(st.other_person_id, 2);
    }
    for st in compute_opponent_stats(&d, 2, 1) {
        assert_ne!(st.other_person_id, 2);
    }
}

#[test]
fn wins_never_exceed_matches_and_rate_present_iff_matches() {
    let d = club_dataset();
    for pid in [1i64, 2, 3, 4, 6] {
        for st in compute_partner_stats(&d, pid, 1)
            .into_iter()
            .chain(compute_opponent_stats(&d, pid, 1))
        {
            assert!(st.wins <= st.match_count);
            assert_eq!(st.win_rate_millis.is_some(), st.match_count > 0);
        }
    }
}

#[test]
fn person_with_no_player_rows_gets_empty_results_not_errors() {
    let d = club_dataset();
    // Dana has no player rows
    assert!(compute_partner_stats(&d, 4, 1).is_empty());
    assert!(compute_opponent_stats(&d, 4, 1).is_empty());
    let timeline = build_timeline(4, &vec![]);
    assert_eq!(timeline.history.len(), 1);
    assert_eq!(timeline.history[0].match_id, 0);
}

#[test]
fn unknown_person_gets_empty_results_too() {
    let d = club_dataset();
    assert!(compute_partner_stats(&d, 999, 1).is_empty());
    assert!(compute_opponent_stats(&d, 999, 1).is_empty());
}

#[test]
fn repeated_queries_on_unchanged_data_are_identical() {
    let d = club_dataset();
    assert_eq!(compute_partner_stats(&d, 1, 1), compute_partner_stats(&d, 1, 1));
    assert_eq!(compute_opponent_stats(&d, 1, 1), compute_opponent_stats(&d, 1, 1));
}

#[test]
fn partnership_is_seen_from_both_sides() {
    let d = minimal_dataset();
    let partners_of_bob = compute_partner_stats(&d, 2, 1);
    assert_eq!(partners_of_bob.len(), 1);
    assert_eq!(partners_of_bob[0].other_person_id, 1);
    assert_eq!(partners_of_bob[0].other_person_name, "Alice");
    assert_eq!(partners_of_bob[0].wins, 1);
    assert_eq!(partners_of_bob[0].match_count, 1);

    let opponents_of_cara = compute_opponent_stats(&d, 3, 1);
    assert_eq!(opponents_of_cara.len(), 1);
    assert_eq!(opponents_of_cara[0].other_person_id, 1);
    // Cara's team won that match
    assert_eq!(opponents_of_cara[0].wins, 1);
    assert_eq!(opponents_of_cara[0].match_count, 1);
    assert_eq!(opponents_of_cara[0].win_rate_millis, Some(1000));
}

#[test]
fn empty_dataset_yields_empty_results() {
    let d = Dataset {
        persons: vec![],
        players: vec![],
        team_members: vec![],
        sessions: vec![],
        matches: vec![],
        results: vec![],
    };
    assert!(compute_partner_stats(&d, 1, 1).is_empty());
    assert!(compute_opponent_stats(&d, 1, 1).is_empty());
}
