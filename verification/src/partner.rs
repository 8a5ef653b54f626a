//! Partner discovery and aggregation.
//!
//! A partner is another person who has shared a team with the target person.
//! Discovery is two-phase, as the store queries it: first every distinct
//! (team, partner person) pair across *all* clubs, then the pairs' teams are
//! joined with their results, kept only for matches whose session carries the
//! queried club or no club at all (the inclusive rule), and aggregated per
//! partner person.
use vstd::prelude::*;

use crate::aggregate::{
    aggregate, dedup_seq, finalize, group_keys, group_mids, group_wins, joined_keys,
    lemma_dedup_seq_contains, lemma_dedup_seq_distinct, lemma_distinct_mids_bound,
    lemma_joined_keys_elems, lemma_key_has_contrib, lemma_sort_keys_elems, ranked_keys, Contrib,
    RelationshipStat,
};
use crate::ratio::rate_millis_spec;
use crate::rows::{
    club_ok_nullable, club_ok_nullable_spec, dataset_wf, is_target, is_target_spec,
    lemma_is_target_person_of, person_name_spec, person_of, person_of_spec, Dataset, ResultRow,
    TeamMemberRow,
};

verus! {

/// A discovery pair: a team and a partner person met in it.
#[derive(Clone, Copy, Debug, PartialEq, Eq, Structural)]
pub struct PartnerPair {
    pub team_id: i64,
    pub person_id: i64,
}

/// The pairs one target membership yields, scanning all memberships: every
/// other player of the same team whose person the player table knows.
pub open spec fn pairs_for_member(
    d: Dataset,
    tm1: TeamMemberRow,
    tms: Seq<TeamMemberRow>,
) -> Seq<PartnerPair>
    decreases tms.len(),
{
    if tms.len() == 0 {
        Seq::empty()
    } else {
        let prev = pairs_for_member(d, tm1, tms.drop_last());
        let tm2 = tms.last();
        if tm2.team_id == tm1.team_id && tm2.player_id != tm1.player_id && person_of_spec(
            d.players@,
            tm2.player_id,
        ) is Some {
            prev.push(
                PartnerPair {
                    team_id: tm1.team_id,
                    person_id: person_of_spec(d.players@, tm2.player_id).unwrap(),
                },
            )
        } else {
            prev
        }
    }
}

/// All pairs over the given memberships, before deduplication.
pub open spec fn raw_pairs(d: Dataset, person_id: i64, tms: Seq<TeamMemberRow>) -> Seq<PartnerPair>
    decreases tms.len(),
{
    if tms.len() == 0 {
        Seq::empty()
    } else {
        let prev = raw_pairs(d, person_id, tms.drop_last());
        if is_target_spec(d.players@, person_id, tms.last().player_id) {
            prev + pairs_for_member(d, tms.last(), d.team_members@)
        } else {
            prev
        }
    }
}

/// The distinct (team, partner person) pairs of the target person.
pub open spec fn partner_pairs_spec(d: Dataset, person_id: i64) -> Seq<PartnerPair> {
    dedup_seq(raw_pairs(d, person_id, d.team_members@))
}

/// The rows one pair contributes: one per result of the pair's team in a
/// match passing the inclusive club rule.
pub open spec fn team_contribs(
    d: Dataset,
    club_id: i64,
    pair: PartnerPair,
    results: Seq<ResultRow>,
) -> Seq<Contrib>
    decreases results.len(),
{
    if results.len() == 0 {
        Seq::empty()
    } else {
        let prev = team_contribs(d, club_id, pair, results.drop_last());
        let rr = results.last();
        if rr.team_id == pair.team_id && club_ok_nullable_spec(d, club_id, rr.match_id) {
            prev.push(Contrib { person_id: pair.person_id, match_id: rr.match_id, won: rr.winner })
        } else {
            prev
        }
    }
}

/// The rows all pairs contribute, in pair order.
pub open spec fn contribs_from_pairs(
    d: Dataset,
    club_id: i64,
    pairs: Seq<PartnerPair>,
) -> Seq<Contrib>
    decreases pairs.len(),
{
    if pairs.len() == 0 {
        Seq::empty()
    } else {
        contribs_from_pairs(d, club_id, pairs.drop_last()) + team_contribs(
            d,
            club_id,
            pairs.last(),
            d.results@,
        )
    }
}

/// The joined rows feeding the partner aggregate.
pub open spec fn partner_contribs_spec(d: Dataset, person_id: i64, club_id: i64) -> Seq<Contrib> {
    contribs_from_pairs(d, club_id, partner_pairs_spec(d, person_id))
}

/// Discovers the distinct (team, partner person) pairs of the target person.
pub fn partner_pairs(d: &Dataset, person_id: i64) -> (r: Vec<PartnerPair>)
    ensures
        r@ == partner_pairs_spec(*d, person_id),
{
    let tms = &d.team_members;
    let mut pairs: Vec<PartnerPair> = Vec::new();
    let mut i: usize = 0;
    proof {
        assert(tms@.take(0) =~= Seq::<TeamMemberRow>::empty());
    }
    while i < tms.len()
        invariant
            i <= tms@.len(),
            pairs@ == dedup_seq(raw_pairs(*d, person_id, tms@.take(i as int))),
        decreases tms@.len() - i,
    {
        let tm1 = tms[i];
        proof {
            assert(tms@.take(i as int + 1).drop_last() =~= tms@.take(i as int));
            assert(tms@.take(i as int + 1).last() == tms@[i as int]);
        }
        if is_target(&d.players, person_id, tm1.player_id) {
            let ghost raw_pre = raw_pairs(*d, person_id, tms@.take(i as int));
            let mut j: usize = 0;
            proof {
                assert(tms@.take(0) =~= Seq::<TeamMemberRow>::empty());
                assert(raw_pre + pairs_for_member(*d, tm1, tms@.take(0)) =~= raw_pre);
            }
            while j < tms.len()
                invariant
                    j <= tms@.len(),
                    pairs@ == dedup_seq(
                        raw_pre + pairs_for_member(*d, tm1, tms@.take(j as int)),
                    ),
                decreases tms@.len() - j,
            {
                let tm2 = tms[j];
                proof {
                    assert(tms@.take(j as int + 1).drop_last() =~= tms@.take(j as int));
                    assert(tms@.take(j as int + 1).last() == tms@[j as int]);
                }
                if tm2.team_id == tm1.team_id && tm2.player_id != tm1.player_id {
                    match person_of(&d.players, tm2.player_id) {
                        Some(pp) => {
                            let cand = PartnerPair { team_id: tm1.team_id, person_id: pp };
                            let ghost gen = raw_pre + pairs_for_member(
                                *d,
                                tm1,
                                tms@.take(j as int),
                            );
                            proof {
                                assert(raw_pre + pairs_for_member(
                                    *d,
                                    tm1,
                                    tms@.take(j as int + 1),
                                ) =~= gen.push(cand));
                                assert(gen.push(cand).drop_last() =~= gen);
                            }
                            // keep the pair only on first sight
                            let mut seen = false;
                            let mut k: usize = 0;
                            while k < pairs.len()
                                invariant
                                    k <= pairs@.len(),
                                    seen == exists|q: int| 0 <= q < k && pairs@[q] == cand,
                                decreases pairs@.len() - k,
                            {
                                if pairs[k].team_id == cand.team_id && pairs[k].person_id
                                    == cand.person_id {
                                    proof {
                                        assert(pairs@[k as int] == cand);
                                    }
                                    seen = true;
                                }
                                k = k + 1;
                            }
                            proof {
                                assert(seen == pairs@.contains(cand));
                            }
                            if !seen {
                                pairs.push(cand);
                            }
                        },
                        None => {
                            proof {
                                assert(raw_pre + pairs_for_member(
                                    *d,
                                    tm1,
                                    tms@.take(j as int + 1),
                                ) =~= raw_pre + pairs_for_member(*d, tm1, tms@.take(j as int)));
                            }
                        },
                    }
                } else {
                    proof {
                        assert(raw_pre + pairs_for_member(*d, tm1, tms@.take(j as int + 1))
                            =~= raw_pre + pairs_for_member(*d, tm1, tms@.take(j as int)));
                    }
                }
                j = j + 1;
            }
            proof {
                assert(tms@.take(tms@.len() as int) =~= tms@);
                assert(raw_pairs(*d, person_id, tms@.take(i as int + 1)) =~= raw_pre
                    + pairs_for_member(*d, tm1, tms@));
            }
        } else {
            proof {
                assert(raw_pairs(*d, person_id, tms@.take(i as int + 1)) =~= raw_pairs(
                    *d,
                    person_id,
                    tms@.take(i as int),
                ));
            }
        }
        i = i + 1;
    }
    proof {
        assert(tms@.take(tms@.len() as int) =~= tms@);
    }
    pairs
}

/// Joins the pairs' teams with their results under the inclusive club rule.
pub fn partner_contribs(d: &Dataset, club_id: i64, pairs: &Vec<PartnerPair>) -> (r: Vec<Contrib>)
    ensures
        r@ == contribs_from_pairs(*d, club_id, pairs@),
{
    let mut out: Vec<Contrib> = Vec::new();
    let mut i: usize = 0;
    proof {
        assert(pairs@.take(0) =~= Seq::<PartnerPair>::empty());
    }
    while i < pairs.len()
        invariant
            i <= pairs@.len(),
            out@ == contribs_from_pairs(*d, club_id, pairs@.take(i as int)),
        decreases pairs@.len() - i,
    {
        let pair = pairs[i];
        let ghost pre = out@;
        proof {
            assert(pairs@.take(i as int + 1).drop_last() =~= pairs@.take(i as int));
            assert(pairs@.take(i as int + 1).last() == pairs@[i as int]);
            assert(d.results@.take(0) =~= Seq::<ResultRow>::empty());
            assert(pre + team_contribs(*d, club_id, pair, d.results@.take(0)) =~= pre);
        }
        let mut j: usize = 0;
        while j < d.results.len()
            invariant
                j <= d.results@.len(),
                out@ == pre + team_contribs(*d, club_id, pair, d.results@.take(j as int)),
            decreases d.results@.len() - j,
        {
            let rr = d.results[j];
            proof {
                assert(d.results@.take(j as int + 1).drop_last() =~= d.results@.take(j as int));
                assert(d.results@.take(j as int + 1).last() == d.results@[j as int]);
            }
            if rr.team_id == pair.team_id && club_ok_nullable(d, club_id, rr.match_id) {
                out.push(
                    Contrib { person_id: pair.person_id, match_id: rr.match_id, won: rr.winner },
                );
                proof {
                    assert(out@ =~= pre + team_contribs(
                        *d,
                        club_id,
                        pair,
                        d.results@.take(j as int + 1),
                    ));
                }
            } else {
                proof {
                    assert(out@ =~= pre + team_contribs(
                        *d,
                        club_id,
                        pair,
                        d.results@.take(j as int + 1),
                    ));
                }
            }
            j = j + 1;
        }
        proof {
            assert(d.results@.take(d.results@.len() as int) =~= d.results@);
        }
        i = i + 1;
    }
    proof {
        assert(pairs@.take(pairs@.len() as int) =~= pairs@);
    }
    out
}

/// What every discovered pair means: some membership of the target person
/// and some membership of the partner person share the pair's team.
pub open spec fn pair_prop(d: Dataset, person_id: i64, p: PartnerPair) -> bool {
    exists|i1: int, i2: int|
        0 <= i1 < d.team_members@.len() && 0 <= i2 < d.team_members@.len()
            && (#[trigger] d.team_members@[i1]).team_id == p.team_id
            && (#[trigger] d.team_members@[i2]).team_id == p.team_id && is_target_spec(
            d.players@,
            person_id,
            d.team_members@[i1].player_id,
        ) && d.team_members@[i2].player_id != d.team_members@[i1].player_id && person_of_spec(
            d.players@,
            d.team_members@[i2].player_id,
        ) == Some(p.person_id)
}

/// Every pair of one target membership has a partner-membership witness.
proof fn lemma_pfm_elems(d: Dataset, tm1: TeamMemberRow, tms: Seq<TeamMemberRow>, k: int)
    requires
        0 <= k < pairs_for_member(d, tm1, tms).len(),
    ensures
        pairs_for_member(d, tm1, tms)[k].team_id == tm1.team_id,
        exists|i2: int|
            0 <= i2 < tms.len() && (#[trigger] tms[i2]).team_id == tm1.team_id
                && tms[i2].player_id != tm1.player_id && person_of_spec(d.players@, tms[i2].player_id)
                == Some(pairs_for_member(d, tm1, tms)[k].person_id),
    decreases tms.len(),
{
    let cur = pairs_for_member(d, tm1, tms);
    let prev = pairs_for_member(d, tm1, tms.drop_last());
    if k < prev.len() {
        lemma_pfm_elems(d, tm1, tms.drop_last(), k);
        let i2 = choose|i2: int|
            0 <= i2 < tms.drop_last().len() && (#[trigger] tms.drop_last()[i2]).team_id
                == tm1.team_id && tms.drop_last()[i2].player_id != tm1.player_id && person_of_spec(
                d.players@,
                tms.drop_last()[i2].player_id,
            ) == Some(prev[k].person_id);
        assert(tms[i2] == tms.drop_last()[i2]);
        assert(cur[k] == prev[k]);
    } else {
        assert(cur[k] == cur.last());
        assert((#[trigger] tms[tms.len() - 1]).team_id == tm1.team_id);
    }
}

/// Every raw pair has a target-membership and a partner-membership witness.
proof fn lemma_raw_elems(d: Dataset, person_id: i64, tms: Seq<TeamMemberRow>, k: int)
    requires
        tms.len() <= d.team_members@.len(),
        forall|q: int| 0 <= q < tms.len() ==> tms[q] == d.team_members@[q],
        0 <= k < raw_pairs(d, person_id, tms).len(),
    ensures
        pair_prop(d, person_id, raw_pairs(d, person_id, tms)[k]),
    decreases tms.len(),
{
    let cur = raw_pairs(d, person_id, tms);
    let prev = raw_pairs(d, person_id, tms.drop_last());
    if tms.len() > 0 && is_target_spec(d.players@, person_id, tms.last().player_id) {
        if k < prev.len() {
            assert(forall|q: int|
                0 <= q < tms.drop_last().len() ==> tms.drop_last()[q] == tms[q]);
            lemma_raw_elems(d, person_id, tms.drop_last(), k);
            assert(cur[k] == prev[k]);
        } else {
            let block = pairs_for_member(d, tms.last(), d.team_members@);
            let kb = k - prev.len();
            assert(cur[k] == block[kb]);
            lemma_pfm_elems(d, tms.last(), d.team_members@, kb);
            let i1 = tms.len() - 1;
            assert(tms[i1] == d.team_members@[i1]);
            let i2 = choose|i2: int|
                0 <= i2 < d.team_members@.len() && (#[trigger] d.team_members@[i2]).team_id
                    == tms.last().team_id && d.team_members@[i2].player_id
                    != tms.last().player_id && person_of_spec(
                    d.players@,
                    d.team_members@[i2].player_id,
                ) == Some(block[kb].person_id);
            assert((#[trigger] d.team_members@[i1]).team_id == cur[k].team_id);
            assert(pair_prop(d, person_id, cur[k]));
        }
    } else {
        assert(forall|q: int| 0 <= q < tms.drop_last().len() ==> tms.drop_last()[q] == tms[q]);
        lemma_raw_elems(d, person_id, tms.drop_last(), k);
        assert(cur[k] == prev[k]);
    }
}

/// Every discovered pair carries its membership witnesses.
pub proof fn lemma_pairs_prop(d: Dataset, person_id: i64)
    ensures
        forall|k: int|
            0 <= k < partner_pairs_spec(d, person_id).len() ==> #[trigger] pair_prop(
                d,
                person_id,
                partner_pairs_spec(d, person_id)[k],
            ),
        forall|a: int, b: int|
            0 <= a < b < partner_pairs_spec(d, person_id).len() ==> partner_pairs_spec(
                d,
                person_id,
            )[a] != partner_pairs_spec(d, person_id)[b],
{
    let raw = raw_pairs(d, person_id, d.team_members@);
    lemma_dedup_seq_contains(raw);
    lemma_dedup_seq_distinct(raw);
    assert forall|k: int| 0 <= k < partner_pairs_spec(d, person_id).len() implies #[trigger] pair_prop(
        d,
        person_id,
        partner_pairs_spec(d, person_id)[k],
    ) by {
        let p = partner_pairs_spec(d, person_id)[k];
        assert(dedup_seq(raw).contains(p));
        assert(raw.contains(p));
        let q = choose|q: int| 0 <= q < raw.len() && raw[q] == p;
        lemma_raw_elems(d, person_id, d.team_members@, q);
    }
}

/// Every contribution of one pair's team has a result-row witness.
proof fn lemma_tc_elems(
    d: Dataset,
    club_id: i64,
    pair: PartnerPair,
    results: Seq<ResultRow>,
    k: int,
)
    requires
        0 <= k < team_contribs(d, club_id, pair, results).len(),
    ensures
        team_contribs(d, club_id, pair, results)[k].person_id == pair.person_id,
        exists|ri: int|
            0 <= ri < results.len() && (#[trigger] results[ri]).team_id == pair.team_id
                && club_ok_nullable_spec(d, club_id, results[ri].match_id) && team_contribs(
                d,
                club_id,
                pair,
                results,
            )[k].match_id == results[ri].match_id,
    decreases results.len(),
{
    let cur = team_contribs(d, club_id, pair, results);
    let prev = team_contribs(d, club_id, pair, results.drop_last());
    if k < prev.len() {
        lemma_tc_elems(d, club_id, pair, results.drop_last(), k);
        let ri = choose|ri: int|
            0 <= ri < results.drop_last().len() && (#[trigger] results.drop_last()[ri]).team_id
                == pair.team_id && club_ok_nullable_spec(
                d,
                club_id,
                results.drop_last()[ri].match_id,
            ) && prev[k].match_id == results.drop_last()[ri].match_id;
        assert(results[ri] == results.drop_last()[ri]);
        assert(cur[k] == prev[k]);
    } else {
        assert(cur[k] == cur.last());
        assert((#[trigger] results[results.len() - 1]).team_id == pair.team_id);
    }
}

/// Within one pair's contributions, match ids are pairwise distinct: a team
/// has at most one result per match.
proof fn lemma_tc_distinct(d: Dataset, club_id: i64, pair: PartnerPair, results: Seq<ResultRow>)
    requires
        forall|i: int, j: int|
            0 <= i < j < results.len() ==> !(results[i].team_id == results[j].team_id
                && results[i].match_id == results[j].match_id),
    ensures
        forall|k1: int, k2: int|
            0 <= k1 < k2 < team_contribs(d, club_id, pair, results).len() ==> team_contribs(
                d,
                club_id,
                pair,
                results,
            )[k1].match_id != team_contribs(d, club_id, pair, results)[k2].match_id,
    decreases results.len(),
{
    if results.len() > 0 {
        let prev_rows = results.drop_last();
        assert(forall|q: int| 0 <= q < prev_rows.len() ==> prev_rows[q] == results[q]);
        lemma_tc_distinct(d, club_id, pair, prev_rows);
        let cur = team_contribs(d, club_id, pair, results);
        let prev = team_contribs(d, club_id, pair, prev_rows);
        assert forall|k1: int, k2: int|
            0 <= k1 < k2 < cur.len() implies cur[k1].match_id != cur[k2].match_id by {
            if k2 < prev.len() {
            } else if k2 == prev.len() && prev.len() < cur.len() {
                // the new row against an earlier witness row of the same team
                lemma_tc_elems(d, club_id, pair, prev_rows, k1);
                let ri = choose|ri: int|
                    0 <= ri < prev_rows.len() && (#[trigger] prev_rows[ri]).team_id
                        == pair.team_id && club_ok_nullable_spec(
                        d,
                        club_id,
                        prev_rows[ri].match_id,
                    ) && prev[k1].match_id == prev_rows[ri].match_id;
                assert(results[ri].team_id == results[results.len() - 1].team_id);
                assert(cur[k1] == prev[k1]);
            }
        }
    }
}

/// Every aggregated row has a pair witness and a result-row witness.
proof fn lemma_cfp_elems(d: Dataset, club_id: i64, pairs: Seq<PartnerPair>, k: int)
    requires
        0 <= k < contribs_from_pairs(d, club_id, pairs).len(),
    ensures
        exists|pi: int|
            0 <= pi < pairs.len() && (#[trigger] pairs[pi]).person_id == contribs_from_pairs(
                d,
                club_id,
                pairs,
            )[k].person_id && exists|ri: int|
                0 <= ri < d.results@.len() && (#[trigger] d.results@[ri]).team_id
                    == pairs[pi].team_id && club_ok_nullable_spec(
                    d,
                    club_id,
                    d.results@[ri].match_id,
                ) && contribs_from_pairs(d, club_id, pairs)[k].match_id
                    == d.results@[ri].match_id,
    decreases pairs.len(),
{
    let cur = contribs_from_pairs(d, club_id, pairs);
    let prev = contribs_from_pairs(d, club_id, pairs.drop_last());
    let block = team_contribs(d, club_id, pairs.last(), d.results@);
    if k < prev.len() {
        lemma_cfp_elems(d, club_id, pairs.drop_last(), k);
        let pi = choose|pi: int|
            0 <= pi < pairs.drop_last().len() && (#[trigger] pairs.drop_last()[pi]).person_id
                == prev[k].person_id && exists|ri: int|
                0 <= ri < d.results@.len() && (#[trigger] d.results@[ri]).team_id
                    == pairs.drop_last()[pi].team_id && club_ok_nullable_spec(
                    d,
                    club_id,
                    d.results@[ri].match_id,
                ) && prev[k].match_id == d.results@[ri].match_id;
        assert(pairs[pi] == pairs.drop_last()[pi]);
        assert(cur[k] == prev[k]);
    } else {
        let kb = k - prev.len();
        assert(cur[k] == block[kb]);
        lemma_tc_elems(d, club_id, pairs.last(), d.results@, kb);
        let pi = pairs.len() - 1;
        assert((#[trigger] pairs[pi]).person_id == cur[k].person_id);
    }
}

/// Under the dataset invariants, no partner meets the target person twice in
/// one match: all match ids of one partner's rows are distinct.
proof fn lemma_cfp_distinct(d: Dataset, person_id: i64, club_id: i64, pairs: Seq<PartnerPair>)
    requires
        dataset_wf(d),
        forall|a: int, b: int| 0 <= a < b < pairs.len() ==> pairs[a] != pairs[b],
        forall|a: int|
            0 <= a < pairs.len() ==> #[trigger] pair_prop(d, person_id, pairs[a]),
    ensures
        forall|i: int, j: int|
            0 <= i < j < contribs_from_pairs(d, club_id, pairs).len() && contribs_from_pairs(
                d,
                club_id,
                pairs,
            )[i].person_id == contribs_from_pairs(d, club_id, pairs)[j].person_id
                ==> contribs_from_pairs(d, club_id, pairs)[i].match_id != contribs_from_pairs(
                d,
                club_id,
                pairs,
            )[j].match_id,
    decreases pairs.len(),
{
    if pairs.len() > 0 {
        let rest = pairs.drop_last();
        assert(forall|q: int| 0 <= q < rest.len() ==> rest[q] == pairs[q]);
        lemma_cfp_distinct(d, person_id, club_id, rest);
        let cur = contribs_from_pairs(d, club_id, pairs);
        let prev = contribs_from_pairs(d, club_id, rest);
        let last_pair = pairs.last();
        let block = team_contribs(d, club_id, last_pair, d.results@);
        lemma_tc_distinct(d, club_id, last_pair, d.results@);
        assert forall|i: int, j: int|
            0 <= i < j < cur.len() && cur[i].person_id == cur[j].person_id implies cur[i].match_id
            != cur[j].match_id by {
            if j < prev.len() {
                assert(cur[i] == prev[i] && cur[j] == prev[j]);
            } else if i >= prev.len() {
                // both in the new pair's block
                assert(cur[i] == block[i - prev.len()] && cur[j] == block[j - prev.len()]);
            } else {
                // one row of an earlier pair, one of the new pair
                assert(cur[i] == prev[i]);
                assert(cur[j] == block[j - prev.len()]);
                lemma_cfp_elems(d, club_id, rest, i);
                let pi = choose|pi: int|
                    0 <= pi < rest.len() && (#[trigger] rest[pi]).person_id == prev[i].person_id
                        && exists|ri: int|
                        0 <= ri < d.results@.len() && (#[trigger] d.results@[ri]).team_id
                            == rest[pi].team_id && club_ok_nullable_spec(
                            d,
                            club_id,
                            d.results@[ri].match_id,
                        ) && prev[i].match_id == d.results@[ri].match_id;
                let ri = choose|ri: int|
                    0 <= ri < d.results@.len() && (#[trigger] d.results@[ri]).team_id
                        == rest[pi].team_id && club_ok_nullable_spec(
                        d,
                        club_id,
                        d.results@[ri].match_id,
                    ) && prev[i].match_id == d.results@[ri].match_id;
                lemma_tc_elems(d, club_id, last_pair, d.results@, j - prev.len());
                let rj = choose|rj: int|
                    0 <= rj < d.results@.len() && (#[trigger] d.results@[rj]).team_id
                        == last_pair.team_id && club_ok_nullable_spec(
                        d,
                        club_id,
                        d.results@[rj].match_id,
                    ) && block[j - prev.len()].match_id == d.results@[rj].match_id;
                // same partner person through two different pairs: the teams differ
                assert(pairs[pi].person_id == last_pair.person_id);
                assert(pairs[pi] != last_pair);
                if cur[i].match_id == cur[j].match_id {
                    // two target memberships in one match, in different teams
                    assert(pair_prop(d, person_id, pairs[pi]));
                    assert(pair_prop(d, person_id, last_pair));
                    let (i1a, _i2a): (int, int) = choose|i1: int, i2: int|
                        0 <= i1 < d.team_members@.len() && 0 <= i2 < d.team_members@.len()
                            && (#[trigger] d.team_members@[i1]).team_id == pairs[pi].team_id
                            && (#[trigger] d.team_members@[i2]).team_id == pairs[pi].team_id
                            && is_target_spec(
                            d.players@,
                            person_id,
                            d.team_members@[i1].player_id,
                        ) && d.team_members@[i2].player_id != d.team_members@[i1].player_id
                            && person_of_spec(d.players@, d.team_members@[i2].player_id) == Some(
                            pairs[pi].person_id,
                        );
                    let (i1b, _i2b): (int, int) = choose|i1: int, i2: int|
                        0 <= i1 < d.team_members@.len() && 0 <= i2 < d.team_members@.len()
                            && (#[trigger] d.team_members@[i1]).team_id == last_pair.team_id
                            && (#[trigger] d.team_members@[i2]).team_id == last_pair.team_id
                            && is_target_spec(
                            d.players@,
                            person_id,
                            d.team_members@[i1].player_id,
                        ) && d.team_members@[i2].player_id != d.team_members@[i1].player_id
                            && person_of_spec(d.players@, d.team_members@[i2].player_id) == Some(
                            last_pair.person_id,
                        );
                    lemma_is_target_person_of(
                        d.players@,
                        person_id,
                        d.team_members@[i1a].player_id,
                    );
                    lemma_is_target_person_of(
                        d.players@,
                        person_id,
                        d.team_members@[i1b].player_id,
                    );
                    assert(d.team_members@[i1a].team_id == d.results@[ri].team_id);
                    assert(d.team_members@[i1b].team_id == d.results@[rj].team_id);
                    assert(d.results@[ri].match_id == d.results@[rj].match_id);
                    assert(d.team_members@[i1a] == d.team_members@[i1b]);
                    assert(pairs[pi].team_id == last_pair.team_id);
                    assert(false);
                }
            }
        }
    }
}

/// No person is their own partner: a pair naming the target person would put
/// two of their memberships into one team with a result.
proof fn lemma_cfp_not_self(d: Dataset, person_id: i64, club_id: i64, pairs: Seq<PartnerPair>)
    requires
        dataset_wf(d),
        forall|a: int|
            0 <= a < pairs.len() ==> #[trigger] pair_prop(d, person_id, pairs[a]),
    ensures
        forall|k: int|
            0 <= k < contribs_from_pairs(d, club_id, pairs).len() ==> (
            #[trigger] contribs_from_pairs(d, club_id, pairs)[k]).person_id != person_id,
{
    let cur = contribs_from_pairs(d, club_id, pairs);
    assert forall|k: int| 0 <= k < cur.len() implies (#[trigger] cur[k]).person_id
        != person_id by {
        lemma_cfp_elems(d, club_id, pairs, k);
        let pi = choose|pi: int|
            0 <= pi < pairs.len() && (#[trigger] pairs[pi]).person_id == cur[k].person_id
                && exists|ri: int|
                0 <= ri < d.results@.len() && (#[trigger] d.results@[ri]).team_id
                    == pairs[pi].team_id && club_ok_nullable_spec(
                    d,
                    club_id,
                    d.results@[ri].match_id,
                ) && cur[k].match_id == d.results@[ri].match_id;
        let ri = choose|ri: int|
            0 <= ri < d.results@.len() && (#[trigger] d.results@[ri]).team_id
                == pairs[pi].team_id && club_ok_nullable_spec(d, club_id, d.results@[ri].match_id)
                && cur[k].match_id == d.results@[ri].match_id;
        if cur[k].person_id == person_id {
            assert(pair_prop(d, person_id, pairs[pi]));
            let (i1, i2): (int, int) = choose|i1: int, i2: int|
                0 <= i1 < d.team_members@.len() && 0 <= i2 < d.team_members@.len()
                    && (#[trigger] d.team_members@[i1]).team_id == pairs[pi].team_id
                    && (#[trigger] d.team_members@[i2]).team_id == pairs[pi].team_id
                    && is_target_spec(d.players@, person_id, d.team_members@[i1].player_id)
                    && d.team_members@[i2].player_id != d.team_members@[i1].player_id
                    && person_of_spec(d.players@, d.team_members@[i2].player_id) == Some(
                    pairs[pi].person_id,
                );
            lemma_is_target_person_of(d.players@, person_id, d.team_members@[i1].player_id);
            assert(d.team_members@[i1].team_id == d.results@[ri].team_id);
            assert(d.team_members@[i2].team_id == d.results@[ri].team_id);
            assert(d.team_members@[i1] == d.team_members@[i2]);
            assert(false);
        }
    }
}

/// Computes the partner statistics of a person within a club: one row per
/// distinct partner person, with the count of their distinct shared matches
/// under the inclusive club rule, the summed wins of the shared team, the
/// partner's name, and the win rate; ranked by match count descending
/// (stable). The result is an exact function of the dataset, so repeated
/// calls on unchanged data agree. A person with no player rows gets an empty
/// list. Wins never exceed matches, the win rate is present exactly when
/// matches are, and no person is their own partner.
pub fn compute_partner_stats(d: &Dataset, person_id: i64, club_id: i64) -> (r: Vec<
    RelationshipStat,
>)
    requires
        dataset_wf(*d),
    ensures
        r@.len() == ranked_keys(
            partner_contribs_spec(*d, person_id, club_id),
            d.persons@,
        ).len(),
        forall|i: int|
            0 <= i < r@.len() ==> (#[trigger] r@[i].other_person_id) == ranked_keys(
                partner_contribs_spec(*d, person_id, club_id),
                d.persons@,
            )[i],
        forall|i: int|
            0 <= i < r@.len() ==> (#[trigger] r@[i].wins as int) == group_wins(
                partner_contribs_spec(*d, person_id, club_id),
                r@[i].other_person_id,
            ),
        forall|i: int|
            0 <= i < r@.len() ==> (#[trigger] r@[i].match_count as int) == group_mids(
                partner_contribs_spec(*d, person_id, club_id),
                r@[i].other_person_id,
            ).len(),
        forall|i: int|
            0 <= i < r@.len() ==> person_name_spec(d.persons@, #[trigger] r@[i].other_person_id)
                == Some(r@[i].other_person_name@),
        forall|i: int|
            0 <= i < r@.len() && #[trigger] r@[i].match_count > 0 ==> r@[i].win_rate_millis
                == Some(rate_millis_spec(r@[i].wins as int, r@[i].match_count as int) as u32),
        forall|i: int|
            0 <= i < r@.len() && #[trigger] r@[i].match_count == 0 ==> r@[i].win_rate_millis
                is None,
        forall|i: int| 0 <= i < r@.len() ==> (#[trigger] r@[i].wins) <= r@[i].match_count,
        forall|i: int, j: int|
            0 <= i <= j < r@.len() ==> r@[i].match_count >= r@[j].match_count,
        forall|i: int| 0 <= i < r@.len() ==> (#[trigger] r@[i].other_person_id) != person_id,
        (forall|q: int|
            0 <= q < d.players@.len() ==> (#[trigger] d.players@[q]).person_id != person_id)
            ==> r@.len() == 0,
{
    let pairs = partner_pairs(d, person_id);
    let contribs = partner_contribs(d, club_id, &pairs);
    let ghost c = partner_contribs_spec(*d, person_id, club_id);
    proof {
        lemma_pairs_prop(*d, person_id);
        lemma_cfp_distinct(*d, person_id, club_id, pairs@);
        assert forall|pp: i64| #[trigger] group_wins(c, pp) <= group_mids(c, pp).len() by {
            lemma_distinct_mids_bound(c, pp);
        }
    }
    let groups = aggregate(&contribs);
    let stats = finalize(groups, &d.persons, Ghost(c));
    proof {
        // no person is their own partner
        lemma_cfp_not_self(*d, person_id, club_id, pairs@);
        lemma_joined_keys_elems(group_keys(c), d.persons@);
        lemma_sort_keys_elems(c, joined_keys(group_keys(c), d.persons@));
        assert forall|i: int| 0 <= i < stats@.len() implies (
        #[trigger] stats@[i].other_person_id) != person_id by {
            let id = stats@[i].other_person_id;
            assert(ranked_keys(c, d.persons@).contains(id));
            assert(group_keys(c).contains(id));
            lemma_key_has_contrib(c, id);
        }
        // a person with no player rows has no relationships
        if forall|q: int|
            0 <= q < d.players@.len() ==> (#[trigger] d.players@[q]).person_id != person_id {
            lemma_no_target_no_pairs(*d, person_id, d.team_members@);
            assert(raw_pairs(*d, person_id, d.team_members@) =~= Seq::<PartnerPair>::empty());
            assert(c =~= Seq::<Contrib>::empty());
            assert(group_keys(c) =~= Seq::<i64>::empty());
            assert(joined_keys(group_keys(c), d.persons@) =~= Seq::<i64>::empty());
            assert(ranked_keys(c, d.persons@) =~= Seq::<i64>::empty());
        }
    }
    stats
}

/// A person with no player rows yields no raw pairs.
proof fn lemma_no_target_no_pairs(d: Dataset, person_id: i64, tms: Seq<TeamMemberRow>)
    requires
        forall|q: int| 0 <= q < d.players@.len() ==> (#[trigger] d.players@[q]).person_id != person_id,
    ensures
        raw_pairs(d, person_id, tms).len() == 0,
    decreases tms.len(),
{
    if tms.len() > 0 {
        lemma_no_target_no_pairs(d, person_id, tms.drop_last());
        assert(!is_target_spec(d.players@, person_id, tms.last().player_id));
    }
}

} // verus!
