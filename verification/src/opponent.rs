//! Opponent discovery and aggregation.
//!
//! An opponent is a person who has played on an opposing team against the
//! target person. Discovery walks the results of matches whose session
//! carries exactly the queried club (the strict rule): every result row of a
//! team fielding the target person yields one target-team entry; every other
//! team of the same match yields its members as opponent candidates,
//! deduplicated per match and player; the candidates' persons are then
//! aggregated as the partner query aggregates.
use vstd::prelude::*;

use crate::aggregate::{
    aggregate, dedup_seq, finalize, group_keys, group_mids, group_wins, joined_keys,
    lemma_dedup_seq_contains, lemma_dedup_seq_distinct, lemma_distinct_mids_bound,
    lemma_joined_keys_elems, lemma_key_has_contrib, lemma_sort_keys_elems, ranked_keys, Contrib,
    RelationshipStat,
};
use crate::ratio::rate_millis_spec;
use crate::rows::{
    club_ok_strict, club_ok_strict_spec, dataset_wf, is_target_spec, lemma_is_target_person_of,
    person_name_spec, person_of, person_of_spec, team_has_target, team_has_target_spec, Dataset,
    ResultRow, TeamMemberRow,
};

verus! {

/// A target-team entry: one match of the queried club in which a team
/// fielding the target person played, and whether that team won.
#[derive(Clone, Copy, Debug, PartialEq, Eq, Structural)]
pub struct TargetEntry {
    pub match_id: i64,
    pub team_id: i64,
    pub won: bool,
}

/// An opponent candidate: a player met on an opposing team in one match, and
/// whether the target's team won that match.
#[derive(Clone, Copy, Debug, PartialEq, Eq, Structural)]
pub struct OppCand {
    pub match_id: i64,
    pub player_id: i64,
    pub won: bool,
}

/// Target-team entries over the given results, before deduplication.
pub open spec fn raw_entries(
    d: Dataset,
    person_id: i64,
    club_id: i64,
    results: Seq<ResultRow>,
) -> Seq<TargetEntry>
    decreases results.len(),
{
    if results.len() == 0 {
        Seq::empty()
    } else {
        let prev = raw_entries(d, person_id, club_id, results.drop_last());
        let rr = results.last();
        if club_ok_strict_spec(d, club_id, rr.match_id) && team_has_target_spec(
            d,
            person_id,
            rr.team_id,
        ) {
            prev.push(TargetEntry { match_id: rr.match_id, team_id: rr.team_id, won: rr.winner })
        } else {
            prev
        }
    }
}

/// The distinct target-team entries of the person in the club.
pub open spec fn target_entries_spec(d: Dataset, person_id: i64, club_id: i64) -> Seq<
    TargetEntry,
> {
    dedup_seq(raw_entries(d, person_id, club_id, d.results@))
}

/// The candidates one opposing team yields: its members, scanning the given
/// memberships.
pub open spec fn cands_for_team(
    match_id: i64,
    won: bool,
    team_id: i64,
    tms: Seq<TeamMemberRow>,
) -> Seq<OppCand>
    decreases tms.len(),
{
    if tms.len() == 0 {
        Seq::empty()
    } else {
        let prev = cands_for_team(match_id, won, team_id, tms.drop_last());
        let tm = tms.last();
        if tm.team_id == team_id {
            prev.push(OppCand { match_id, player_id: tm.player_id, won })
        } else {
            prev
        }
    }
}

/// The candidates one target-team entry yields, scanning the given results
/// for the other teams of the same match.
pub open spec fn cands_for_entry(
    d: Dataset,
    e: TargetEntry,
    results: Seq<ResultRow>,
) -> Seq<OppCand>
    decreases results.len(),
{
    if results.len() == 0 {
        Seq::empty()
    } else {
        let prev = cands_for_entry(d, e, results.drop_last());
        let rr = results.last();
        if rr.match_id == e.match_id && rr.team_id != e.team_id {
            prev + cands_for_team(e.match_id, e.won, rr.team_id, d.team_members@)
        } else {
            prev
        }
    }
}

/// All candidates over the given entries, before deduplication.
pub open spec fn raw_cands(d: Dataset, entries: Seq<TargetEntry>) -> Seq<OppCand>
    decreases entries.len(),
{
    if entries.len() == 0 {
        Seq::empty()
    } else {
        raw_cands(d, entries.drop_last()) + cands_for_entry(d, entries.last(), d.results@)
    }
}

/// The distinct opponent candidates of the person in the club.
pub open spec fn opp_cands_spec(d: Dataset, person_id: i64, club_id: i64) -> Seq<OppCand> {
    dedup_seq(raw_cands(d, target_entries_spec(d, person_id, club_id)))
}

/// The joined rows feeding the opponent aggregate: each candidate whose
/// person the player table knows.
pub open spec fn contribs_from_cands(d: Dataset, cands: Seq<OppCand>) -> Seq<Contrib>
    decreases cands.len(),
{
    if cands.len() == 0 {
        Seq::empty()
    } else {
        let prev = contribs_from_cands(d, cands.drop_last());
        let x = cands.last();
        if person_of_spec(d.players@, x.player_id) is Some {
            prev.push(
                Contrib {
                    person_id: person_of_spec(d.players@, x.player_id).unwrap(),
                    match_id: x.match_id,
                    won: x.won,
                },
            )
        } else {
            prev
        }
    }
}

/// The joined rows feeding the opponent aggregate.
pub open spec fn opponent_contribs_spec(d: Dataset, person_id: i64, club_id: i64) -> Seq<
    Contrib,
> {
    contribs_from_cands(d, opp_cands_spec(d, person_id, club_id))
}

/// Discovers the distinct target-team entries of the person in the club.
pub fn target_entries(d: &Dataset, person_id: i64, club_id: i64) -> (r: Vec<TargetEntry>)
    ensures
        r@ == target_entries_spec(*d, person_id, club_id),
{
    let mut entries: Vec<TargetEntry> = Vec::new();
    let mut i: usize = 0;
    proof {
        assert(d.results@.take(0) =~= Seq::<ResultRow>::empty());
    }
    while i < d.results.len()
        invariant
            i <= d.results@.len(),
            entries@ == dedup_seq(raw_entries(*d, person_id, club_id, d.results@.take(i as int))),
        decreases d.results@.len() - i,
    {
        let rr = d.results[i];
        let ghost raw_pre = raw_entries(*d, person_id, club_id, d.results@.take(i as int));
        proof {
            assert(d.results@.take(i as int + 1).drop_last() =~= d.results@.take(i as int));
            assert(d.results@.take(i as int + 1).last() == d.results@[i as int]);
        }
        if club_ok_strict(d, club_id, rr.match_id) && team_has_target(d, person_id, rr.team_id) {
            let cand = TargetEntry { match_id: rr.match_id, team_id: rr.team_id, won: rr.winner };
            proof {
                assert(raw_entries(*d, person_id, club_id, d.results@.take(i as int + 1))
                    =~= raw_pre.push(cand));
                assert(raw_pre.push(cand).drop_last() =~= raw_pre);
            }
            let mut seen = false;
            let mut k: usize = 0;
            while k < entries.len()
                invariant
                    k <= entries@.len(),
                    seen == exists|q: int| 0 <= q < k && entries@[q] == cand,
                decreases entries@.len() - k,
            {
                if entries[k].match_id == cand.match_id && entries[k].team_id == cand.team_id
                    && entries[k].won == cand.won {
                    proof {
                        assert(entries@[k as int] == cand);
                    }
                    seen = true;
                }
                k = k + 1;
            }
            proof {
                assert(seen == entries@.contains(cand));
            }
            if !seen {
                entries.push(cand);
            }
        } else {
            proof {
                assert(raw_entries(*d, person_id, club_id, d.results@.take(i as int + 1))
                    =~= raw_pre);
            }
        }
        i = i + 1;
    }
    proof {
        assert(d.results@.take(d.results@.len() as int) =~= d.results@);
    }
    entries
}

/// Collects the distinct opponent candidates of the target-team entries.
pub fn opp_cands(d: &Dataset, entries: &Vec<TargetEntry>) -> (r: Vec<OppCand>)
    ensures
        r@ == dedup_seq(raw_cands(*d, entries@)),
{
    let mut cands: Vec<OppCand> = Vec::new();
    let mut i: usize = 0;
    proof {
        assert(entries@.take(0) =~= Seq::<TargetEntry>::empty());
    }
    while i < entries.len()
        invariant
            i <= entries@.len(),
            cands@ == dedup_seq(raw_cands(*d, entries@.take(i as int))),
        decreases entries@.len() - i,
    {
        let e = entries[i];
        let ghost raw_pre = raw_cands(*d, entries@.take(i as int));
        proof {
            assert(entries@.take(i as int + 1).drop_last() =~= entries@.take(i as int));
            assert(entries@.take(i as int + 1).last() == entries@[i as int]);
            assert(d.results@.take(0) =~= Seq::<ResultRow>::empty());
            assert(raw_pre + cands_for_entry(*d, e, d.results@.take(0)) =~= raw_pre);
        }
        let mut j: usize = 0;
        while j < d.results.len()
            invariant
                j <= d.results@.len(),
                cands@ == dedup_seq(raw_pre + cands_for_entry(*d, e, d.results@.take(j as int))),
            decreases d.results@.len() - j,
        {
            let rr = d.results[j];
            proof {
                assert(d.results@.take(j as int + 1).drop_last() =~= d.results@.take(j as int));
                assert(d.results@.take(j as int + 1).last() == d.results@[j as int]);
            }
            if rr.match_id == e.match_id && rr.team_id != e.team_id {
                let ghost gen_pre = raw_pre + cands_for_entry(*d, e, d.results@.take(j as int));
                proof {
                    assert(d.team_members@.take(0) =~= Seq::<TeamMemberRow>::empty());
                    assert(gen_pre + cands_for_team(e.match_id, e.won, rr.team_id, d.team_members@.take(0))
                        =~= gen_pre);
                }
                let mut t: usize = 0;
                while t < d.team_members.len()
                    invariant
                        t <= d.team_members@.len(),
                        cands@ == dedup_seq(
                            gen_pre + cands_for_team(
                                e.match_id,
                                e.won,
                                rr.team_id,
                                d.team_members@.take(t as int),
                            ),
                        ),
                    decreases d.team_members@.len() - t,
                {
                    let tm = d.team_members[t];
                    proof {
                        assert(d.team_members@.take(t as int + 1).drop_last() =~= d.team_members@.take(
                            t as int,
                        ));
                        assert(d.team_members@.take(t as int + 1).last() == d.team_members@[t as int]);
                    }
                    if tm.team_id == rr.team_id {
                        let cand = OppCand {
                            match_id: e.match_id,
                            player_id: tm.player_id,
                            won: e.won,
                        };
                        let ghost gen = gen_pre + cands_for_team(
                            e.match_id,
                            e.won,
                            rr.team_id,
                            d.team_members@.take(t as int),
                        );
                        proof {
                            assert(gen_pre + cands_for_team(
                                e.match_id,
                                e.won,
                                rr.team_id,
                                d.team_members@.take(t as int + 1),
                            ) =~= gen.push(cand));
                            assert(gen.push(cand).drop_last() =~= gen);
                        }
                        let mut seen = false;
                        let mut k: usize = 0;
                        while k < cands.len()
                            invariant
                                k <= cands@.len(),
                                seen == exists|q: int| 0 <= q < k && cands@[q] == cand,
                            decreases cands@.len() - k,
                        {
                            if cands[k].match_id == cand.match_id && cands[k].player_id
                                == cand.player_id && cands[k].won == cand.won {
                                proof {
                                    assert(cands@[k as int] == cand);
                                }
                                seen = true;
                            }
                            k = k + 1;
                        }
                        proof {
                            assert(seen == cands@.contains(cand));
                        }
                        if !seen {
                            cands.push(cand);
                        }
                    } else {
                        proof {
                            assert(gen_pre + cands_for_team(
                                e.match_id,
                                e.won,
                                rr.team_id,
                                d.team_members@.take(t as int + 1),
                            ) =~= gen_pre + cands_for_team(
                                e.match_id,
                                e.won,
                                rr.team_id,
                                d.team_members@.take(t as int),
                            ));
                        }
                    }
                    t = t + 1;
                }
                proof {
                    assert(d.team_members@.take(d.team_members@.len() as int)
                        =~= d.team_members@);
                    assert(raw_pre + cands_for_entry(*d, e, d.results@.take(j as int + 1))
                        =~= gen_pre + cands_for_team(
                        e.match_id,
                        e.won,
                        rr.team_id,
                        d.team_members@,
                    ));
                }
            } else {
                proof {
                    assert(raw_pre + cands_for_entry(*d, e, d.results@.take(j as int + 1))
                        =~= raw_pre + cands_for_entry(*d, e, d.results@.take(j as int)));
                }
            }
            j = j + 1;
        }
        proof {
            assert(d.results@.take(d.results@.len() as int) =~= d.results@);
        }
        i = i + 1;
    }
    proof {
        assert(entries@.take(entries@.len() as int) =~= entries@);
    }
    cands
}

/// Joins the candidates with the player table for their persons.
pub fn opponent_contribs(d: &Dataset, cands: &Vec<OppCand>) -> (r: Vec<Contrib>)
    ensures
        r@ == contribs_from_cands(*d, cands@),
{
    let mut out: Vec<Contrib> = Vec::new();
    let mut i: usize = 0;
    proof {
        assert(cands@.take(0) =~= Seq::<OppCand>::empty());
    }
    while i < cands.len()
        invariant
            i <= cands@.len(),
            out@ == contribs_from_cands(*d, cands@.take(i as int)),
        decreases cands@.len() - i,
    {
        let x = cands[i];
        proof {
            assert(cands@.take(i as int + 1).drop_last() =~= cands@.take(i as int));
            assert(cands@.take(i as int + 1).last() == cands@[i as int]);
        }
        match person_of(&d.players, x.player_id) {
            Some(pp) => {
                out.push(Contrib { person_id: pp, match_id: x.match_id, won: x.won });
            },
            None => {},
        }
        i = i + 1;
    }
    proof {
        assert(cands@.take(cands@.len() as int) =~= cands@);
    }
    out
}

/// What every opponent candidate means: a result row of a target-fielding
/// team and a result row of a different team share the candidate's match,
/// under the strict club rule, and the candidate's player sits in the other
/// team. The target row also fixes the candidate's win flag.
pub open spec fn cand_prop(d: Dataset, person_id: i64, club_id: i64, x: OppCand) -> bool {
    exists|rt: int, r2: int, t2: int|
        0 <= rt < d.results@.len() && 0 <= r2 < d.results@.len() && 0 <= t2
            < d.team_members@.len() && (#[trigger] d.results@[rt]).match_id == x.match_id
            && d.results@[rt].winner == x.won && club_ok_strict_spec(d, club_id, x.match_id)
            && team_has_target_spec(d, person_id, d.results@[rt].team_id)
            && (#[trigger] d.results@[r2]).match_id == x.match_id && d.results@[r2].team_id
            != d.results@[rt].team_id && (#[trigger] d.team_members@[t2]).team_id
            == d.results@[r2].team_id && d.team_members@[t2].player_id == x.player_id
}

/// Every raw target-team entry has a result-row witness.
proof fn lemma_raw_entries_elems(
    d: Dataset,
    person_id: i64,
    club_id: i64,
    results: Seq<ResultRow>,
    k: int,
)
    requires
        0 <= k < raw_entries(d, person_id, club_id, results).len(),
    ensures
        exists|ri: int|
            0 <= ri < results.len() && (#[trigger] results[ri]).match_id == raw_entries(
                d,
                person_id,
                club_id,
                results,
            )[k].match_id && results[ri].team_id == raw_entries(d, person_id, club_id, results)[k].team_id
                && results[ri].winner == raw_entries(d, person_id, club_id, results)[k].won
                && club_ok_strict_spec(d, club_id, results[ri].match_id) && team_has_target_spec(
                d,
                person_id,
                results[ri].team_id,
            ),
    decreases results.len(),
{
    let cur = raw_entries(d, person_id, club_id, results);
    let prev = raw_entries(d, person_id, club_id, results.drop_last());
    if k < prev.len() {
        lemma_raw_entries_elems(d, person_id, club_id, results.drop_last(), k);
        let ri = choose|ri: int|
            0 <= ri < results.drop_last().len() && (#[trigger] results.drop_last()[ri]).match_id
                == prev[k].match_id && results.drop_last()[ri].team_id == prev[k].team_id
                && results.drop_last()[ri].winner == prev[k].won && club_ok_strict_spec(
                d,
                club_id,
                results.drop_last()[ri].match_id,
            ) && team_has_target_spec(d, person_id, results.drop_last()[ri].team_id);
        assert(results[ri] == results.drop_last()[ri]);
        assert(cur[k] == prev[k]);
    } else {
        assert(cur[k] == cur.last());
        assert((#[trigger] results[results.len() - 1]).match_id == cur[k].match_id);
    }
}

/// Every candidate of one opposing team has a membership witness.
proof fn lemma_cft_elems(match_id: i64, won: bool, team_id: i64, tms: Seq<TeamMemberRow>, k: int)
    requires
        0 <= k < cands_for_team(match_id, won, team_id, tms).len(),
    ensures
        cands_for_team(match_id, won, team_id, tms)[k].match_id == match_id,
        cands_for_team(match_id, won, team_id, tms)[k].won == won,
        exists|t2: int|
            0 <= t2 < tms.len() && (#[trigger] tms[t2]).team_id == team_id && tms[t2].player_id
                == cands_for_team(match_id, won, team_id, tms)[k].player_id,
    decreases tms.len(),
{
    let cur = cands_for_team(match_id, won, team_id, tms);
    let prev = cands_for_team(match_id, won, team_id, tms.drop_last());
    if k < prev.len() {
        lemma_cft_elems(match_id, won, team_id, tms.drop_last(), k);
        let t2 = choose|t2: int|
            0 <= t2 < tms.drop_last().len() && (#[trigger] tms.drop_last()[t2]).team_id == team_id
                && tms.drop_last()[t2].player_id == prev[k].player_id;
        assert(tms[t2] == tms.drop_last()[t2]);
        assert(cur[k] == prev[k]);
    } else {
        assert(cur[k] == cur.last());
        assert((#[trigger] tms[tms.len() - 1]).team_id == team_id);
    }
}

/// Every candidate of one target-team entry has an opposing result row and a
/// membership witness.
proof fn lemma_cfe_elems(d: Dataset, e: TargetEntry, results: Seq<ResultRow>, k: int)
    requires
        0 <= k < cands_for_entry(d, e, results).len(),
    ensures
        cands_for_entry(d, e, results)[k].match_id == e.match_id,
        cands_for_entry(d, e, results)[k].won == e.won,
        exists|r2: int, t2: int|
            0 <= r2 < results.len() && 0 <= t2 < d.team_members@.len() && (
            #[trigger] results[r2]).match_id == e.match_id && results[r2].team_id != e.team_id
                && (#[trigger] d.team_members@[t2]).team_id == results[r2].team_id
                && d.team_members@[t2].player_id == cands_for_entry(d, e, results)[k].player_id,
    decreases results.len(),
{
    let cur = cands_for_entry(d, e, results);
    let prev = cands_for_entry(d, e, results.drop_last());
    if k < prev.len() {
        lemma_cfe_elems(d, e, results.drop_last(), k);
        let (r2, t2): (int, int) = choose|r2: int, t2: int|
            0 <= r2 < results.drop_last().len() && 0 <= t2 < d.team_members@.len() && (
            #[trigger] results.drop_last()[r2]).match_id == e.match_id
                && results.drop_last()[r2].team_id != e.team_id
                && (#[trigger] d.team_members@[t2]).team_id == results.drop_last()[r2].team_id
                && d.team_members@[t2].player_id == prev[k].player_id;
        assert(results[r2] == results.drop_last()[r2]);
        assert(cur[k] == prev[k]);
    } else {
        let rr = results.last();
        let block = cands_for_team(e.match_id, e.won, rr.team_id, d.team_members@);
        let kb = k - prev.len();
        assert(cur[k] == block[kb]);
        lemma_cft_elems(e.match_id, e.won, rr.team_id, d.team_members@, kb);
        assert((#[trigger] results[results.len() - 1]).match_id == e.match_id);
    }
}

/// Every raw candidate means what `cand_prop` says.
proof fn lemma_raw_cands_elems(
    d: Dataset,
    person_id: i64,
    club_id: i64,
    entries: Seq<TargetEntry>,
    k: int,
)
    requires
        forall|a: int|
            0 <= a < entries.len() ==> exists|ri: int|
                0 <= ri < d.results@.len() && (#[trigger] d.results@[ri]).match_id == (
                #[trigger] entries[a]).match_id && d.results@[ri].team_id == entries[a].team_id
                    && d.results@[ri].winner == entries[a].won && club_ok_strict_spec(
                    d,
                    club_id,
                    d.results@[ri].match_id,
                ) && team_has_target_spec(d, person_id, d.results@[ri].team_id),
        0 <= k < raw_cands(d, entries).len(),
    ensures
        cand_prop(d, person_id, club_id, raw_cands(d, entries)[k]),
    decreases entries.len(),
{
    let cur = raw_cands(d, entries);
    let prev = raw_cands(d, entries.drop_last());
    if k < prev.len() {
        assert(forall|q: int|
            0 <= q < entries.drop_last().len() ==> entries.drop_last()[q] == entries[q]);
        lemma_raw_cands_elems(d, person_id, club_id, entries.drop_last(), k);
        assert(cur[k] == prev[k]);
    } else {
        let e = entries.last();
        let block = cands_for_entry(d, e, d.results@);
        let kb = k - prev.len();
        assert(cur[k] == block[kb]);
        lemma_cfe_elems(d, e, d.results@, kb);
        assert(entries[entries.len() - 1] == e);
        let rt = choose|ri: int|
            0 <= ri < d.results@.len() && (#[trigger] d.results@[ri]).match_id == e.match_id
                && d.results@[ri].team_id == e.team_id && d.results@[ri].winner == e.won
                && club_ok_strict_spec(d, club_id, d.results@[ri].match_id)
                && team_has_target_spec(d, person_id, d.results@[ri].team_id);
        let (r2, t2): (int, int) = choose|r2: int, t2: int|
            0 <= r2 < d.results@.len() && 0 <= t2 < d.team_members@.len() && (
            #[trigger] d.results@[r2]).match_id == e.match_id && d.results@[r2].team_id
                != e.team_id && (#[trigger] d.team_members@[t2]).team_id == d.results@[r2].team_id
                && d.team_members@[t2].player_id == block[kb].player_id;
        assert((#[trigger] d.results@[rt]).match_id == cur[k].match_id);
        assert(cand_prop(d, person_id, club_id, cur[k]));
    }
}

/// Every distinct candidate carries its witnesses, and candidates are
/// pairwise distinct.
proof fn lemma_cands_prop(d: Dataset, person_id: i64, club_id: i64)
    ensures
        forall|k: int|
            0 <= k < opp_cands_spec(d, person_id, club_id).len() ==> #[trigger] cand_prop(
                d,
                person_id,
                club_id,
                opp_cands_spec(d, person_id, club_id)[k],
            ),
        forall|a: int, b: int|
            0 <= a < b < opp_cands_spec(d, person_id, club_id).len() ==> opp_cands_spec(
                d,
                person_id,
                club_id,
            )[a] != opp_cands_spec(d, person_id, club_id)[b],
{
    let entries = target_entries_spec(d, person_id, club_id);
    let rawe = raw_entries(d, person_id, club_id, d.results@);
    lemma_dedup_seq_contains(rawe);
    assert forall|a: int| 0 <= a < entries.len() implies exists|ri: int|
        0 <= ri < d.results@.len() && (#[trigger] d.results@[ri]).match_id == (
        #[trigger] entries[a]).match_id && d.results@[ri].team_id == entries[a].team_id
            && d.results@[ri].winner == entries[a].won && club_ok_strict_spec(
            d,
            club_id,
            d.results@[ri].match_id,
        ) && team_has_target_spec(d, person_id, d.results@[ri].team_id) by {
        assert(dedup_seq(rawe).contains(entries[a]));
        assert(rawe.contains(entries[a]));
        let q = choose|q: int| 0 <= q < rawe.len() && rawe[q] == entries[a];
        lemma_raw_entries_elems(d, person_id, club_id, d.results@, q);
    }
    let rawc = raw_cands(d, entries);
    lemma_dedup_seq_contains(rawc);
    lemma_dedup_seq_distinct(rawc);
    assert forall|k: int| 0 <= k < opp_cands_spec(d, person_id, club_id).len() implies #[trigger] cand_prop(
        d,
        person_id,
        club_id,
        opp_cands_spec(d, person_id, club_id)[k],
    ) by {
        let x = opp_cands_spec(d, person_id, club_id)[k];
        assert(dedup_seq(rawc).contains(x));
        assert(rawc.contains(x));
        let q = choose|q: int| 0 <= q < rawc.len() && rawc[q] == x;
        lemma_raw_cands_elems(d, person_id, club_id, entries, q);
    }
}

/// Every aggregated row has a candidate witness.
proof fn lemma_cfc_elems(d: Dataset, cands: Seq<OppCand>, k: int)
    requires
        0 <= k < contribs_from_cands(d, cands).len(),
    ensures
        exists|ci: int|
            0 <= ci < cands.len() && person_of_spec(d.players@, (#[trigger] cands[ci]).player_id)
                == Some(contribs_from_cands(d, cands)[k].person_id) && cands[ci].match_id
                == contribs_from_cands(d, cands)[k].match_id && cands[ci].won
                == contribs_from_cands(d, cands)[k].won,
    decreases cands.len(),
{
    let cur = contribs_from_cands(d, cands);
    let prev = contribs_from_cands(d, cands.drop_last());
    if k < prev.len() {
        lemma_cfc_elems(d, cands.drop_last(), k);
        let ci = choose|ci: int|
            0 <= ci < cands.drop_last().len() && person_of_spec(
                d.players@,
                (#[trigger] cands.drop_last()[ci]).player_id,
            ) == Some(prev[k].person_id) && cands.drop_last()[ci].match_id == prev[k].match_id
                && cands.drop_last()[ci].won == prev[k].won;
        assert(cands[ci] == cands.drop_last()[ci]);
        assert(cur[k] == prev[k]);
    } else {
        assert(cur[k] == cur.last());
        assert(person_of_spec(d.players@, (#[trigger] cands[cands.len() - 1]).player_id) == Some(
            cur[k].person_id,
        ));
    }
}

/// Under the dataset invariants two candidates of one person in one match
/// are the same candidate.
#[verifier::rlimit(100)]
#[verifier::spinoff_prover]
proof fn lemma_cands_same_person_same_match(
    d: Dataset,
    person_id: i64,
    club_id: i64,
    x: OppCand,
    y: OppCand,
)
    requires
        dataset_wf(d),
        cand_prop(d, person_id, club_id, x),
        cand_prop(d, person_id, club_id, y),
        x.match_id == y.match_id,
        person_of_spec(d.players@, x.player_id) is Some,
        person_of_spec(d.players@, x.player_id) == person_of_spec(d.players@, y.player_id),
    ensures
        x == y,
{
    let (rtx, r2x, t2x): (int, int, int) = choose|rt: int, r2: int, t2: int|
        0 <= rt < d.results@.len() && 0 <= r2 < d.results@.len() && 0 <= t2
            < d.team_members@.len() && (#[trigger] d.results@[rt]).match_id == x.match_id
            && d.results@[rt].winner == x.won && club_ok_strict_spec(d, club_id, x.match_id)
            && team_has_target_spec(d, person_id, d.results@[rt].team_id)
            && (#[trigger] d.results@[r2]).match_id == x.match_id && d.results@[r2].team_id
            != d.results@[rt].team_id && (#[trigger] d.team_members@[t2]).team_id
            == d.results@[r2].team_id && d.team_members@[t2].player_id == x.player_id;
    let (rty, r2y, t2y): (int, int, int) = choose|rt: int, r2: int, t2: int|
        0 <= rt < d.results@.len() && 0 <= r2 < d.results@.len() && 0 <= t2
            < d.team_members@.len() && (#[trigger] d.results@[rt]).match_id == y.match_id
            && d.results@[rt].winner == y.won && club_ok_strict_spec(d, club_id, y.match_id)
            && team_has_target_spec(d, person_id, d.results@[rt].team_id)
            && (#[trigger] d.results@[r2]).match_id == y.match_id && d.results@[r2].team_id
            != d.results@[rt].team_id && (#[trigger] d.team_members@[t2]).team_id
            == d.results@[r2].team_id && d.team_members@[t2].player_id == y.player_id;
    // the opponent memberships resolve to the same person in the same match
    assert(d.team_members@[t2x].team_id == d.results@[r2x].team_id);
    assert(d.team_members@[t2y].team_id == d.results@[r2y].team_id);
    assert(d.results@[r2x].match_id == d.results@[r2y].match_id);
    assert(person_of_spec(d.players@, d.team_members@[t2x].player_id) is Some);
    assert(d.team_members@[t2x] == d.team_members@[t2y]);
    assert(x.player_id == y.player_id);
    // the target teams of the two rows coincide, so the win flags do too
    let i1x = choose|i1: int|
        0 <= i1 < d.team_members@.len() && #[trigger] d.team_members@[i1].team_id
            == d.results@[rtx].team_id && is_target_spec(
            d.players@,
            person_id,
            d.team_members@[i1].player_id,
        );
    let i1y = choose|i1: int|
        0 <= i1 < d.team_members@.len() && #[trigger] d.team_members@[i1].team_id
            == d.results@[rty].team_id && is_target_spec(
            d.players@,
            person_id,
            d.team_members@[i1].player_id,
        );
    lemma_is_target_person_of(d.players@, person_id, d.team_members@[i1x].player_id);
    lemma_is_target_person_of(d.players@, person_id, d.team_members@[i1y].player_id);
    assert(d.team_members@[i1x].team_id == d.results@[rtx].team_id);
    assert(d.team_members@[i1y].team_id == d.results@[rty].team_id);
    assert(d.results@[rtx].match_id == d.results@[rty].match_id);
    assert(d.team_members@[i1x] == d.team_members@[i1y]);
    assert(d.results@[rtx].team_id == d.results@[rty].team_id);
    if rtx != rty {
        assert(false);
    }
    assert(x.won == y.won);
}

/// Under the dataset invariants, no opponent meets the target person twice
/// in one match: all match ids of one opponent's rows are distinct.
proof fn lemma_occ_distinct(d: Dataset, person_id: i64, club_id: i64, cands: Seq<OppCand>)
    requires
        dataset_wf(d),
        forall|a: int, b: int| 0 <= a < b < cands.len() ==> cands[a] != cands[b],
        forall|a: int|
            0 <= a < cands.len() ==> #[trigger] cand_prop(d, person_id, club_id, cands[a]),
    ensures
        forall|i: int, j: int|
            0 <= i < j < contribs_from_cands(d, cands).len() && contribs_from_cands(
                d,
                cands,
            )[i].person_id == contribs_from_cands(d, cands)[j].person_id ==> contribs_from_cands(
                d,
                cands,
            )[i].match_id != contribs_from_cands(d, cands)[j].match_id,
    decreases cands.len(),
{
    if cands.len() > 0 {
        let rest = cands.drop_last();
        assert(forall|q: int| 0 <= q < rest.len() ==> rest[q] == cands[q]);
        lemma_occ_distinct(d, person_id, club_id, rest);
        let cur = contribs_from_cands(d, cands);
        let prev = contribs_from_cands(d, rest);
        let x_last = cands.last();
        assert forall|i: int, j: int|
            0 <= i < j < cur.len() && cur[i].person_id == cur[j].person_id implies cur[i].match_id
            != cur[j].match_id by {
            if j < prev.len() {
                assert(cur[i] == prev[i] && cur[j] == prev[j]);
            } else {
                assert(cur[i] == prev[i]);
                assert(cur[j] == cur.last());
                lemma_cfc_elems(d, rest, i);
                let ci = choose|ci: int|
                    0 <= ci < rest.len() && person_of_spec(
                        d.players@,
                        (#[trigger] rest[ci]).player_id,
                    ) == Some(prev[i].person_id) && rest[ci].match_id == prev[i].match_id
                        && rest[ci].won == prev[i].won;
                if cur[i].match_id == cur[j].match_id {
                    assert(cand_prop(d, person_id, club_id, cands[ci]));
                    assert(cand_prop(d, person_id, club_id, x_last));
                    assert(person_of_spec(d.players@, x_last.player_id) == Some(
                        cur[j].person_id,
                    ));
                    lemma_cands_same_person_same_match(
                        d,
                        person_id,
                        club_id,
                        cands[ci],
                        x_last,
                    );
                    assert(cands[ci] == x_last);
                    assert(cands[ci] != cands[cands.len() - 1]);
                    assert(false);
                }
            }
        }
    }
}

/// No person is their own opponent: an opposing membership naming the target
/// person would put two of their memberships into one match, in different
/// teams.
proof fn lemma_occ_not_self(d: Dataset, person_id: i64, club_id: i64, cands: Seq<OppCand>)
    requires
        dataset_wf(d),
        forall|a: int|
            0 <= a < cands.len() ==> #[trigger] cand_prop(d, person_id, club_id, cands[a]),
    ensures
        forall|k: int|
            0 <= k < contribs_from_cands(d, cands).len() ==> (#[trigger] contribs_from_cands(
                d,
                cands,
            )[k]).person_id != person_id,
{
    let cur = contribs_from_cands(d, cands);
    assert forall|k: int| 0 <= k < cur.len() implies (#[trigger] cur[k]).person_id
        != person_id by {
        lemma_cfc_elems(d, cands, k);
        let ci = choose|ci: int|
            0 <= ci < cands.len() && person_of_spec(d.players@, (#[trigger] cands[ci]).player_id)
                == Some(cur[k].person_id) && cands[ci].match_id == cur[k].match_id
                && cands[ci].won == cur[k].won;
        if cur[k].person_id == person_id {
            let x = cands[ci];
            assert(cand_prop(d, person_id, club_id, x));
            let (rt, r2, t2): (int, int, int) = choose|rt: int, r2: int, t2: int|
                0 <= rt < d.results@.len() && 0 <= r2 < d.results@.len() && 0 <= t2
                    < d.team_members@.len() && (#[trigger] d.results@[rt]).match_id == x.match_id
                    && d.results@[rt].winner == x.won && club_ok_strict_spec(
                    d,
                    club_id,
                    x.match_id,
                ) && team_has_target_spec(d, person_id, d.results@[rt].team_id)
                    && (#[trigger] d.results@[r2]).match_id == x.match_id && d.results@[r2].team_id
                    != d.results@[rt].team_id && (#[trigger] d.team_members@[t2]).team_id
                    == d.results@[r2].team_id && d.team_members@[t2].player_id == x.player_id;
            let i1 = choose|i1: int|
                0 <= i1 < d.team_members@.len() && #[trigger] d.team_members@[i1].team_id
                    == d.results@[rt].team_id && is_target_spec(
                    d.players@,
                    person_id,
                    d.team_members@[i1].player_id,
                );
            lemma_is_target_person_of(d.players@, person_id, d.team_members@[i1].player_id);
            assert(d.team_members@[i1] == d.team_members@[t2]);
            assert(false);
        }
    }
}

/// A person with no player rows yields no target-team entries.
proof fn lemma_no_target_no_entries(
    d: Dataset,
    person_id: i64,
    club_id: i64,
    results: Seq<ResultRow>,
)
    requires
        forall|q: int|
            0 <= q < d.players@.len() ==> (#[trigger] d.players@[q]).person_id != person_id,
    ensures
        raw_entries(d, person_id, club_id, results).len() == 0,
    decreases results.len(),
{
    if results.len() > 0 {
        lemma_no_target_no_entries(d, person_id, club_id, results.drop_last());
        assert forall|i: int|
            0 <= i < d.team_members@.len() implies !(#[trigger] d.team_members@[i].team_id
            == results.last().team_id && is_target_spec(
            d.players@,
            person_id,
            d.team_members@[i].player_id,
        )) by {
            assert(!is_target_spec(d.players@, person_id, d.team_members@[i].player_id));
        }
        assert(!team_has_target_spec(d, person_id, results.last().team_id));
    }
}

/// Computes the opponent statistics of a person within a club: one row per
/// distinct opposing person, with the count of their distinct opposing
/// matches under the strict club rule, the count of those matches the
/// target's team won, the opponent's name, and the win rate; ranked by match
/// count descending (stable). The result is an exact function of the
/// dataset, so repeated calls on unchanged data agree. A person with no
/// player rows gets an empty list. Wins never exceed matches, the win rate
/// is present exactly when matches are, and no person is their own opponent.
pub fn compute_opponent_stats(d: &Dataset, person_id: i64, club_id: i64) -> (r: Vec<
    RelationshipStat,
>)
    requires
        dataset_wf(*d),
    ensures
        r@.len() == ranked_keys(
            opponent_contribs_spec(*d, person_id, club_id),
            d.persons@,
        ).len(),
        forall|i: int|
            0 <= i < r@.len() ==> (#[trigger] r@[i].other_person_id) == ranked_keys(
                opponent_contribs_spec(*d, person_id, club_id),
                d.persons@,
            )[i],
        forall|i: int|
            0 <= i < r@.len() ==> (#[trigger] r@[i].wins as int) == group_wins(
                opponent_contribs_spec(*d, person_id, club_id),
                r@[i].other_person_id,
            ),
        forall|i: int|
            0 <= i < r@.len() ==> (#[trigger] r@[i].match_count as int) == group_mids(
                opponent_contribs_spec(*d, person_id, club_id),
                r@[i].other_person_id,
            ).len(),
        forall|i: int|
            0 <= i < r@.len() ==> person_name_spec(d.persons@, #[trigger] r@[i].other_person_id)
                == Some(r@[i].other_person_name@),
        forall|i: int|
            0 <= i < r@.len() && #[trigger] r@[i].match_count > 0 ==> r@[i].win_rate_millis
                == Some(rate_millis_spec(r@[i].wins as int, r@[i].match_count as int) as u32),
        forall|i: int|
            0 <= i < r@.len() && #[trigger] r@[i].match_count == 0 ==> r@[i].win_rate_millis
                is None,
        forall|i: int| 0 <= i < r@.len() ==> (#[trigger] r@[i].wins) <= r@[i].match_count,
        forall|i: int, j: int|
            0 <= i <= j < r@.len() ==> r@[i].match_count >= r@[j].match_count,
        forall|i: int| 0 <= i < r@.len() ==> (#[trigger] r@[i].other_person_id) != person_id,
        (forall|q: int|
            0 <= q < d.players@.len() ==> (#[trigger] d.players@[q]).person_id != person_id)
            ==> r@.len() == 0,
{
    let entries = target_entries(d, person_id, club_id);
    let cands = opp_cands(d, &entries);
    let contribs = opponent_contribs(d, &cands);
    let ghost c = opponent_contribs_spec(*d, person_id, club_id);
    proof {
        lemma_cands_prop(*d, person_id, club_id);
        lemma_occ_distinct(*d, person_id, club_id, cands@);
        assert forall|pp: i64| #[trigger] group_wins(c, pp) <= group_mids(c, pp).len() by {
            lemma_distinct_mids_bound(c, pp);
        }
    }
    let groups = aggregate(&contribs);
    let stats = finalize(groups, &d.persons, Ghost(c));
    proof {
        // no person is their own opponent
        lemma_occ_not_self(*d, person_id, club_id, cands@);
        lemma_joined_keys_elems(group_keys(c), d.persons@);
        lemma_sort_keys_elems(c, joined_keys(group_keys(c), d.persons@));
        assert forall|i: int| 0 <= i < stats@.len() implies (
        #[trigger] stats@[i].other_person_id) != person_id by {
            let id = stats@[i].other_person_id;
            assert(ranked_keys(c, d.persons@).contains(id));
            assert(group_keys(c).contains(id));
            lemma_key_has_contrib(c, id);
        }
        // a person with no player rows has no relationships
        if forall|q: int|
            0 <= q < d.players@.len() ==> (#[trigger] d.players@[q]).person_id != person_id {
            lemma_no_target_no_entries(*d, person_id, club_id, d.results@);
            assert(raw_entries(*d, person_id, club_id, d.results@) =~= Seq::<
                TargetEntry,
            >::empty());
            assert(target_entries_spec(*d, person_id, club_id) =~= Seq::<TargetEntry>::empty());
            assert(raw_cands(*d, target_entries_spec(*d, person_id, club_id)) =~= Seq::<
                OppCand,
            >::empty());
            assert(c =~= Seq::<Contrib>::empty());
            assert(group_keys(c) =~= Seq::<i64>::empty());
            assert(joined_keys(group_keys(c), d.persons@) =~= Seq::<i64>::empty());
            assert(ranked_keys(c, d.persons@) =~= Seq::<i64>::empty());
        }
    }
    stats
}

} // verus!
