//! Typed rows of the entity store and the dataset they form.
//!
//! The store itself (a relational database) is outside this library; callers
//! read the tables and hand them over as plain rows. A [`Dataset`] is one
//! consistent snapshot of those tables. `dataset_wf` states the key and
//! membership invariants the store schema guarantees.
use vstd::prelude::*;

verus! {

/// A real individual; identity is stable across clubs.
#[derive(Debug, PartialEq)]
pub struct PersonRow {
    pub id: i64,
    pub name: String,
}

/// A person's playing identity; one person may have several player rows.
#[derive(Clone, Copy, Debug, PartialEq, Eq, Structural)]
pub struct PlayerRow {
    pub id: i64,
    pub person_id: i64,
}

/// Membership link between a team and a player.
#[derive(Clone, Copy, Debug, PartialEq, Eq, Structural)]
pub struct TeamMemberRow {
    pub team_id: i64,
    pub player_id: i64,
}

/// A club's event containing matches; the club may be absent.
#[derive(Clone, Copy, Debug, PartialEq, Eq, Structural)]
pub struct SessionRow {
    pub id: i64,
    pub club_id: Option<i64>,
}

/// A single contest, belonging to exactly one session.
#[derive(Clone, Copy, Debug, PartialEq, Eq, Structural)]
pub struct MatchRow {
    pub id: i64,
    pub session_id: i64,
}

/// Outcome of one team in one match.
#[derive(Clone, Copy, Debug, PartialEq, Eq, Structural)]
pub struct ResultRow {
    pub team_id: i64,
    pub match_id: i64,
    pub winner: bool,
}

/// One snapshot of the entity store: the tables the aggregation reads.
#[derive(Clone, Debug)]
pub struct Dataset {
    pub persons: Vec<PersonRow>,
    pub players: Vec<PlayerRow>,
    pub team_members: Vec<TeamMemberRow>,
    pub sessions: Vec<SessionRow>,
    pub matches: Vec<MatchRow>,
    pub results: Vec<ResultRow>,
}

/// Person ids are unique (primary key of the person table).
pub open spec fn persons_unique(s: Seq<PersonRow>) -> bool {
    forall|i: int, j: int| 0 <= i < j < s.len() ==> s[i].id != s[j].id
}

/// Player ids are unique (primary key of the player table).
pub open spec fn players_unique(s: Seq<PlayerRow>) -> bool {
    forall|i: int, j: int| 0 <= i < j < s.len() ==> s[i].id != s[j].id
}

/// Match ids are unique (primary key of the match table).
pub open spec fn matches_unique(s: Seq<MatchRow>) -> bool {
    forall|i: int, j: int| 0 <= i < j < s.len() ==> s[i].id != s[j].id
}

/// Session ids are unique (primary key of the session table).
pub open spec fn sessions_unique(s: Seq<SessionRow>) -> bool {
    forall|i: int, j: int| 0 <= i < j < s.len() ==> s[i].id != s[j].id
}

/// A team has at most one result per match.
pub open spec fn results_unique(s: Seq<ResultRow>) -> bool {
    forall|i: int, j: int|
        0 <= i < j < s.len() ==> !(s[i].team_id == s[j].team_id && s[i].match_id == s[j].match_id)
}

/// A (team, player) membership pair appears at most once.
pub open spec fn team_members_unique(s: Seq<TeamMemberRow>) -> bool {
    forall|i: int, j: int|
        0 <= i < j < s.len() ==> !(s[i].team_id == s[j].team_id && s[i].player_id
            == s[j].player_id)
}

/// The person behind a player id: the first player row carrying that id.
pub open spec fn person_of_spec(players: Seq<PlayerRow>, player_id: i64) -> Option<i64>
    decreases players.len(),
{
    if players.len() == 0 {
        None
    } else if players[0].id == player_id {
        Some(players[0].person_id)
    } else {
        person_of_spec(players.drop_first(), player_id)
    }
}

/// The session a match belongs to: the first match row carrying that id.
pub open spec fn match_session_spec(matches: Seq<MatchRow>, match_id: i64) -> Option<i64>
    decreases matches.len(),
{
    if matches.len() == 0 {
        None
    } else if matches[0].id == match_id {
        Some(matches[0].session_id)
    } else {
        match_session_spec(matches.drop_first(), match_id)
    }
}

/// The (possibly absent) club of a session: `None` when the session is
/// unknown, `Some(c)` with the session's nullable club otherwise.
pub open spec fn session_club_spec(sessions: Seq<SessionRow>, session_id: i64) -> Option<
    Option<i64>,
>
    decreases sessions.len(),
{
    if sessions.len() == 0 {
        None
    } else if sessions[0].id == session_id {
        Some(sessions[0].club_id)
    } else {
        session_club_spec(sessions.drop_first(), session_id)
    }
}

/// The display name behind a person id.
pub open spec fn person_name_spec(persons: Seq<PersonRow>, person_id: i64) -> Option<Seq<char>>
    decreases persons.len(),
{
    if persons.len() == 0 {
        None
    } else if persons[0].id == person_id {
        Some(persons[0].name@)
    } else {
        person_name_spec(persons.drop_first(), person_id)
    }
}

/// The player carrying `player_id` belongs to the person `person_id`.
pub open spec fn is_target_spec(players: Seq<PlayerRow>, person_id: i64, player_id: i64) -> bool {
    exists|i: int|
        0 <= i < players.len() && players[i].id == player_id && players[i].person_id == person_id
}

/// The inclusive club rule used for partner discovery: the match is known and
/// its session either carries the queried club or carries no club at all.
pub open spec fn club_ok_nullable_spec(d: Dataset, club_id: i64, match_id: i64) -> bool {
    match match_session_spec(d.matches@, match_id) {
        Some(sid) => match session_club_spec(d.sessions@, sid) {
            Some(c) => c == Some(club_id) || c is None,
            None => false,
        },
        None => false,
    }
}

/// The strict club rule used for opponent discovery: the match is known and
/// its session carries exactly the queried club.
pub open spec fn club_ok_strict_spec(d: Dataset, club_id: i64, match_id: i64) -> bool {
    match match_session_spec(d.matches@, match_id) {
        Some(sid) => match session_club_spec(d.sessions@, sid) {
            Some(c) => c == Some(club_id),
            None => false,
        },
        None => false,
    }
}

/// Some member of the team belongs to the target person.
pub open spec fn team_has_target_spec(d: Dataset, person_id: i64, team_id: i64) -> bool {
    exists|i: int|
        0 <= i < d.team_members@.len() && #[trigger] d.team_members@[i].team_id == team_id
            && is_target_spec(d.players@, person_id, d.team_members@[i].player_id)
}

/// Within any one match, a person fields at most one team membership: no two
/// distinct (team, player) memberships whose teams both have a result in the
/// same match resolve to the same person. This is how the store records play:
/// a person, through whichever of their player identities, sits in one team
/// per contest.
pub open spec fn one_membership_per_person_per_match(d: Dataset) -> bool {
    forall|i1: int, i2: int, j1: int, j2: int|
        0 <= i1 < d.team_members@.len() && 0 <= i2 < d.team_members@.len() && 0 <= j1
            < d.results@.len() && 0 <= j2 < d.results@.len()
            && #[trigger] d.team_members@[i1].team_id == #[trigger] d.results@[j1].team_id
            && #[trigger] d.team_members@[i2].team_id == #[trigger] d.results@[j2].team_id
            && d.results@[j1].match_id == d.results@[j2].match_id && person_of_spec(
            d.players@,
            d.team_members@[i1].player_id,
        ).is_some() && person_of_spec(d.players@, d.team_members@[i1].player_id) == person_of_spec(
            d.players@,
            d.team_members@[i2].player_id,
        ) ==> d.team_members@[i1] == d.team_members@[i2]
}

/// The dataset invariants the store schema guarantees.
pub open spec fn dataset_wf(d: Dataset) -> bool {
    &&& persons_unique(d.persons@)
    &&& players_unique(d.players@)
    &&& matches_unique(d.matches@)
    &&& sessions_unique(d.sessions@)
    &&& results_unique(d.results@)
    &&& team_members_unique(d.team_members@)
    &&& one_membership_per_person_per_match(d)
}

/// Under unique player ids, a player belonging to the target person resolves
/// to the target person.
pub proof fn lemma_is_target_person_of(players: Seq<PlayerRow>, person_id: i64, player_id: i64)
    requires
        players_unique(players),
        is_target_spec(players, person_id, player_id),
    ensures
        person_of_spec(players, player_id) == Some(person_id),
    decreases players.len(),
{
    let i = choose|i: int|
        0 <= i < players.len() && players[i].id == player_id && players[i].person_id == person_id;
    if players[0].id == player_id {
        if i != 0 {
            assert(players[0].id == players[i].id);
            assert(false);
        }
    } else {
        let rest = players.drop_first();
        assert(rest[i - 1] == players[i]);
        assert forall|a: int, b: int| 0 <= a < b < rest.len() implies rest[a].id != rest[b].id by {
            assert(rest[a] == players[a + 1]);
            assert(rest[b] == players[b + 1]);
        }
        assert(is_target_spec(rest, person_id, player_id));
        lemma_is_target_person_of(rest, person_id, player_id);
    }
}

/// Looks up the person behind a player id.
pub fn person_of(players: &Vec<PlayerRow>, player_id: i64) -> (r: Option<i64>)
    ensures
        r == person_of_spec(players@, player_id),
{
    let mut i: usize = 0;
    proof {
        assert(players@.skip(0) =~= players@);
    }
    while i < players.len()
        invariant
            i <= players@.len(),
            person_of_spec(players@.skip(i as int), player_id) == person_of_spec(
                players@,
                player_id,
            ),
        decreases players@.len() - i,
    {
        assert(players@.skip(i as int)[0] == players@[i as int]);
        if players[i].id == player_id {
            return Some(players[i].person_id);
        }
        assert(players@.skip(i as int).drop_first() =~= players@.skip(i as int + 1));
        i = i + 1;
    }
    assert(players@.skip(players@.len() as int).len() == 0);
    None
}

/// Looks up the session a match belongs to.
pub fn match_session(matches: &Vec<MatchRow>, match_id: i64) -> (r: Option<i64>)
    ensures
        r == match_session_spec(matches@, match_id),
{
    let mut i: usize = 0;
    proof {
        assert(matches@.skip(0) =~= matches@);
    }
    while i < matches.len()
        invariant
            i <= matches@.len(),
            match_session_spec(matches@.skip(i as int), match_id) == match_session_spec(
                matches@,
                match_id,
            ),
        decreases matches@.len() - i,
    {
        assert(matches@.skip(i as int)[0] == matches@[i as int]);
        if matches[i].id == match_id {
            return Some(matches[i].session_id);
        }
        assert(matches@.skip(i as int).drop_first() =~= matches@.skip(i as int + 1));
        i = i + 1;
    }
    assert(matches@.skip(matches@.len() as int).len() == 0);
    None
}

/// Looks up the nullable club of a session.
pub fn session_club(sessions: &Vec<SessionRow>, session_id: i64) -> (r: Option<Option<i64>>)
    ensures
        r == session_club_spec(sessions@, session_id),
{
    let mut i: usize = 0;
    proof {
        assert(sessions@.skip(0) =~= sessions@);
    }
    while i < sessions.len()
        invariant
            i <= sessions@.len(),
            session_club_spec(sessions@.skip(i as int), session_id) == session_club_spec(
                sessions@,
                session_id,
            ),
        decreases sessions@.len() - i,
    {
        assert(sessions@.skip(i as int)[0] == sessions@[i as int]);
        if sessions[i].id == session_id {
            return Some(sessions[i].club_id);
        }
        assert(sessions@.skip(i as int).drop_first() =~= sessions@.skip(i as int + 1));
        i = i + 1;
    }
    assert(sessions@.skip(sessions@.len() as int).len() == 0);
    None
}

/// Looks up the display name behind a person id.
pub fn person_name(persons: &Vec<PersonRow>, person_id: i64) -> (r: Option<String>)
    ensures
        r.is_some() ==> person_name_spec(persons@, person_id) == Some(r.unwrap()@),
        r.is_none() ==> person_name_spec(persons@, person_id) is None,
{
    let mut i: usize = 0;
    proof {
        assert(persons@.skip(0) =~= persons@);
    }
    while i < persons.len()
        invariant
            i <= persons@.len(),
            person_name_spec(persons@.skip(i as int), person_id) == person_name_spec(
                persons@,
                person_id,
            ),
        decreases persons@.len() - i,
    {
        assert(persons@.skip(i as int)[0] == persons@[i as int]);
        if persons[i].id == person_id {
            return Some(persons[i].name.clone());
        }
        assert(persons@.skip(i as int).drop_first() =~= persons@.skip(i as int + 1));
        i = i + 1;
    }
    assert(persons@.skip(persons@.len() as int).len() == 0);
    None
}

/// Decides the inclusive club rule for a match.
pub fn club_ok_nullable(d: &Dataset, club_id: i64, match_id: i64) -> (r: bool)
    ensures
        r == club_ok_nullable_spec(*d, club_id, match_id),
{
    match match_session(&d.matches, match_id) {
        Some(sid) => match session_club(&d.sessions, sid) {
            Some(c) => match c {
                Some(cid) => cid == club_id,
                None => true,
            },
            None => false,
        },
        None => false,
    }
}

/// Decides the strict club rule for a match.
pub fn club_ok_strict(d: &Dataset, club_id: i64, match_id: i64) -> (r: bool)
    ensures
        r == club_ok_strict_spec(*d, club_id, match_id),
{
    match match_session(&d.matches, match_id) {
        Some(sid) => match session_club(&d.sessions, sid) {
            Some(c) => match c {
                Some(cid) => cid == club_id,
                None => false,
            },
            None => false,
        },
        None => false,
    }
}

/// Decides whether some member of a team belongs to the target person.
pub fn team_has_target(d: &Dataset, person_id: i64, team_id: i64) -> (r: bool)
    ensures
        r == team_has_target_spec(*d, person_id, team_id),
{
    let mut i: usize = 0;
    while i < d.team_members.len()
        invariant
            i <= d.team_members@.len(),
            forall|k: int|
                0 <= k < i ==> !(#[trigger] d.team_members@[k].team_id == team_id
                    && is_target_spec(d.players@, person_id, d.team_members@[k].player_id)),
        decreases d.team_members@.len() - i,
    {
        if d.team_members[i].team_id == team_id && is_target(
            &d.players,
            person_id,
            d.team_members[i].player_id,
        ) {
            return true;
        }
        i = i + 1;
    }
    false
}

/// Decides whether a player id belongs to the target person.
pub fn is_target(players: &Vec<PlayerRow>, person_id: i64, player_id: i64) -> (r: bool)
    ensures
        r == is_target_spec(players@, person_id, player_id),
{
    let mut i: usize = 0;
    while i < players.len()
        invariant
            i <= players@.len(),
            forall|k: int|
                0 <= k < i ==> !(players@[k].id == player_id && players@[k].person_id
                    == person_id),
        decreases players@.len() - i,
    {
        if players[i].id == player_id && players[i].person_id == person_id {
            return true;
        }
        i = i + 1;
    }
    false
}

} // verus!
