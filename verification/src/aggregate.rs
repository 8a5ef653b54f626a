//! Grouping and aggregation shared by the two relationship queries.
//!
//! Both partner and opponent discovery end in the same shape: a list of
//! joined rows, each naming another person, a match and whether the target's
//! team won. Rows are grouped by person; a group counts its distinct match
//! ids and sums its win flags. Groups are then joined with the person table
//! for display names, given a win rate, and sorted by match count descending
//! (stable: groups with equal counts keep their discovery order).
use vstd::prelude::*;

use crate::ratio::{rate_millis, rate_millis_spec};
use crate::rows::{person_name, person_name_spec, PersonRow};

verus! {

/// One joined row feeding a relationship aggregate: the other person, the
/// match, and whether the target's team won that match.
#[derive(Clone, Copy, Debug, PartialEq, Eq, Structural)]
pub struct Contrib {
    pub person_id: i64,
    pub match_id: i64,
    pub won: bool,
}

/// The aggregate for one other person: their distinct match ids, in order of
/// first appearance, and the summed win flags.
#[derive(Debug)]
pub struct Group {
    pub person_id: i64,
    pub match_ids: Vec<i64>,
    pub wins: u64,
}

/// A computed relationship row: the other player, win and match counts, and
/// the win rate in thousandths (absent when there are no matches).
#[derive(Clone, Debug, PartialEq)]
pub struct RelationshipStat {
    pub other_person_id: i64,
    pub other_person_name: String,
    pub wins: u64,
    pub match_count: u64,
    pub win_rate_millis: Option<u32>,
}

/// Appends an element unless it is already present.
pub open spec fn dedup_push<T>(s: Seq<T>, x: T) -> Seq<T> {
    if s.contains(x) {
        s
    } else {
        s.push(x)
    }
}

/// First-occurrence deduplication of a whole sequence.
pub open spec fn dedup_seq<T>(s: Seq<T>) -> Seq<T>
    decreases s.len(),
{
    if s.len() == 0 {
        Seq::empty()
    } else {
        let prev = dedup_seq(s.drop_last());
        if prev.contains(s.last()) {
            prev
        } else {
            prev.push(s.last())
        }
    }
}

/// Deduplication neither invents nor loses elements.
pub proof fn lemma_dedup_seq_contains<T>(s: Seq<T>)
    ensures
        forall|x: T| #[trigger] dedup_seq(s).contains(x) <==> s.contains(x),
    decreases s.len(),
{
    if s.len() > 0 {
        lemma_dedup_seq_contains(s.drop_last());
        assert forall|x: T| #[trigger] dedup_seq(s).contains(x) implies s.contains(x) by {
            let prev = dedup_seq(s.drop_last());
            if prev.contains(x) {
                let q = choose|q: int| 0 <= q < s.drop_last().len() && s.drop_last()[q] == x;
                assert(s[q] == x);
            } else {
                assert(x == s.last());
                assert(s[s.len() - 1] == x);
            }
        }
        assert forall|x: T| s.contains(x) implies #[trigger] dedup_seq(s).contains(x) by {
            let q = choose|q: int| 0 <= q < s.len() && s[q] == x;
            let prev = dedup_seq(s.drop_last());
            if q < s.len() - 1 {
                assert(s.drop_last()[q] == x);
                assert(prev.contains(x));
                if !prev.contains(s.last()) {
                    let w = choose|w: int| 0 <= w < prev.len() && prev[w] == x;
                    assert(dedup_seq(s)[w] == x);
                }
            } else {
                assert(x == s.last());
                if prev.contains(x) {
                    let w = choose|w: int| 0 <= w < prev.len() && prev[w] == x;
                    assert(dedup_seq(s)[w] == x);
                } else {
                    assert(dedup_seq(s).last() == x);
                }
            }
        }
    }
}

/// Deduplicated elements are pairwise distinct.
pub proof fn lemma_dedup_seq_distinct<T>(s: Seq<T>)
    ensures
        forall|a: int, b: int|
            0 <= a < b < dedup_seq(s).len() ==> dedup_seq(s)[a] != dedup_seq(s)[b],
    decreases s.len(),
{
    if s.len() > 0 {
        lemma_dedup_seq_distinct(s.drop_last());
        let prev = dedup_seq(s.drop_last());
        if !prev.contains(s.last()) {
            assert forall|a: int, b: int|
                0 <= a < b < dedup_seq(s).len() implies dedup_seq(s)[a] != dedup_seq(s)[b] by {
                if b == prev.len() {
                    assert(dedup_seq(s)[a] == prev[a]);
                    if prev[a] == s.last() {
                        assert(prev.contains(s.last()));
                    }
                }
            }
        }
    }
}

/// The distinct person ids of the rows, in order of first appearance.
pub open spec fn group_keys(c: Seq<Contrib>) -> Seq<i64>
    decreases c.len(),
{
    if c.len() == 0 {
        Seq::empty()
    } else {
        dedup_push(group_keys(c.drop_last()), c.last().person_id)
    }
}

/// The distinct match ids of one person's rows, in order of first appearance.
pub open spec fn group_mids(c: Seq<Contrib>, pp: i64) -> Seq<i64>
    decreases c.len(),
{
    if c.len() == 0 {
        Seq::empty()
    } else if c.last().person_id == pp {
        dedup_push(group_mids(c.drop_last(), pp), c.last().match_id)
    } else {
        group_mids(c.drop_last(), pp)
    }
}

/// The number of winning rows of one person.
pub open spec fn group_wins(c: Seq<Contrib>, pp: i64) -> int
    decreases c.len(),
{
    if c.len() == 0 {
        0
    } else {
        group_wins(c.drop_last(), pp) + if c.last().person_id == pp && c.last().won {
            1int
        } else {
            0int
        }
    }
}

/// Win counts lie between zero and the number of rows.
pub proof fn lemma_group_wins_bounds(c: Seq<Contrib>, pp: i64)
    ensures
        0 <= group_wins(c, pp) <= c.len(),
    decreases c.len(),
{
    if c.len() > 0 {
        lemma_group_wins_bounds(c.drop_last(), pp);
    }
}

/// Every distinct match id of a person comes from one of their rows.
pub proof fn lemma_mid_has_contrib(c: Seq<Contrib>, pp: i64, m: i64)
    requires
        group_mids(c, pp).contains(m),
    ensures
        exists|i: int| 0 <= i < c.len() && #[trigger] c[i].person_id == pp && c[i].match_id == m,
    decreases c.len(),
{
    if c.len() > 0 {
        let last = c.last();
        if last.person_id == pp && !group_mids(c.drop_last(), pp).contains(m) {
            assert(m == last.match_id);
            assert(c[c.len() - 1].person_id == pp && c[c.len() - 1].match_id == m);
        } else {
            lemma_mid_has_contrib(c.drop_last(), pp, m);
            let i = choose|i: int|
                0 <= i < c.drop_last().len() && #[trigger] c.drop_last()[i].person_id == pp
                    && c.drop_last()[i].match_id == m;
            assert(c[i].person_id == pp && c[i].match_id == m);
        }
    }
}

/// Every grouped person comes from one of the rows.
pub proof fn lemma_key_has_contrib(c: Seq<Contrib>, pp: i64)
    requires
        group_keys(c).contains(pp),
    ensures
        exists|i: int| 0 <= i < c.len() && #[trigger] c[i].person_id == pp,
    decreases c.len(),
{
    if c.len() > 0 {
        if c.last().person_id == pp {
            assert(c[c.len() - 1].person_id == pp);
        } else {
            assert(group_keys(c.drop_last()).contains(pp));
            lemma_key_has_contrib(c.drop_last(), pp);
            let i = choose|i: int|
                0 <= i < c.drop_last().len() && #[trigger] c.drop_last()[i].person_id == pp;
            assert(c[i].person_id == pp);
        }
    }
}

/// When no two rows of a person share a match id, the win count cannot
/// exceed the distinct match count.
pub proof fn lemma_distinct_mids_bound(c: Seq<Contrib>, pp: i64)
    requires
        forall|i: int, j: int|
            0 <= i < j < c.len() && #[trigger] c[i].person_id == pp && #[trigger] c[j].person_id
                == pp ==> c[i].match_id != c[j].match_id,
    ensures
        group_wins(c, pp) <= group_mids(c, pp).len(),
    decreases c.len(),
{
    if c.len() > 0 {
        let prev = c.drop_last();
        assert(forall|i: int|
            0 <= i < prev.len() ==> #[trigger] prev[i] == c[i]);
        lemma_distinct_mids_bound(prev, pp);
        let last = c.last();
        if last.person_id == pp {
            if group_mids(prev, pp).contains(last.match_id) {
                lemma_mid_has_contrib(prev, pp, last.match_id);
                let i = choose|i: int|
                    0 <= i < prev.len() && #[trigger] prev[i].person_id == pp
                        && prev[i].match_id == last.match_id;
                assert(c[i].person_id == pp && c[c.len() - 1].person_id == pp);
                assert(false);
            }
        }
    }
}

/// Groups the rows by person: one group per distinct person in order of
/// first appearance, holding their distinct match ids and summed win flags.
pub fn aggregate(contribs: &Vec<Contrib>) -> (r: Vec<Group>)
    ensures
        r@.len() == group_keys(contribs@).len(),
        forall|k: int| 0 <= k < r@.len() ==> #[trigger] r@[k].person_id == group_keys(contribs@)[k],
        forall|k: int|
            0 <= k < r@.len() ==> #[trigger] r@[k].match_ids@ == group_mids(
                contribs@,
                r@[k].person_id,
            ),
        forall|k: int|
            0 <= k < r@.len() ==> #[trigger] r@[k].wins as int == group_wins(
                contribs@,
                r@[k].person_id,
            ),
        forall|a: int, b: int| 0 <= a < b < r@.len() ==> r@[a].person_id != r@[b].person_id,
{
    let mut groups: Vec<Group> = Vec::new();
    let mut i: usize = 0;
    proof {
        assert(contribs@.take(0) =~= Seq::<Contrib>::empty());
    }
    while i < contribs.len()
        invariant
            i <= contribs@.len(),
            groups@.len() == group_keys(contribs@.take(i as int)).len(),
            forall|k: int|
                0 <= k < groups@.len() ==> #[trigger] groups@[k].person_id == group_keys(
                    contribs@.take(i as int),
                )[k],
            forall|k: int|
                0 <= k < groups@.len() ==> #[trigger] groups@[k].match_ids@ == group_mids(
                    contribs@.take(i as int),
                    groups@[k].person_id,
                ),
            forall|k: int|
                0 <= k < groups@.len() ==> #[trigger] groups@[k].wins as int == group_wins(
                    contribs@.take(i as int),
                    groups@[k].person_id,
                ),
            forall|a: int, b: int|
                0 <= a < b < groups@.len() ==> groups@[a].person_id != groups@[b].person_id,
        decreases contribs@.len() - i,
    {
        let c = contribs[i];
        let ghost pre = contribs@.take(i as int);
        let ghost post = contribs@.take(i as int + 1);
        proof {
            assert(post.drop_last() =~= pre);
            assert(post.last() == contribs@[i as int]);
            lemma_group_wins_bounds(pre, c.person_id);
            assert(pre.len() == i as int);
        }
        // find the group of this person, or make one
        let mut g: usize = 0;
        while g < groups.len() && groups[g].person_id != c.person_id
            invariant
                g <= groups@.len(),
                forall|k: int| 0 <= k < g ==> #[trigger] groups@[k].person_id != c.person_id,
            decreases groups@.len() - g,
        {
            g = g + 1;
        }
        if g == groups.len() {
            proof {
                assert(!group_keys(pre).contains(c.person_id)) by {
                    if group_keys(pre).contains(c.person_id) {
                        let k = choose|k: int|
                            0 <= k < group_keys(pre).len() && group_keys(pre)[k] == c.person_id;
                        assert(groups@[k].person_id == c.person_id);
                    }
                }
                assert(group_mids(pre, c.person_id) =~= Seq::<i64>::empty()) by {
                    if group_mids(pre, c.person_id).len() > 0 {
                        let m0 = group_mids(pre, c.person_id)[0];
                        assert(group_mids(pre, c.person_id).contains(m0));
                        lemma_mid_has_contrib(pre, c.person_id, m0);
                        let k = choose|k: int|
                            0 <= k < pre.len() && #[trigger] pre[k].person_id == c.person_id
                                && pre[k].match_id == m0;
                        // that contrib would have created a group already
                        lemma_contrib_makes_key(pre, k);
                    }
                }
                assert(group_wins(pre, c.person_id) == 0) by {
                    lemma_no_key_no_wins(pre, c.person_id);
                }
            }
            groups.push(Group { person_id: c.person_id, match_ids: Vec::new(), wins: 0 });
        }
        proof {
            assert(groups@[g as int].person_id == c.person_id);
            assert(group_keys(pre).contains(c.person_id) ==> group_keys(post) =~= group_keys(
                pre,
            ));
        }
        let ghost gs0 = groups@;
        let mut grp = groups.remove(g);
        // record the match id once
        let mut m: usize = 0;
        while m < grp.match_ids.len() && grp.match_ids[m] != c.match_id
            invariant
                m <= grp.match_ids@.len(),
                forall|k: int| 0 <= k < m ==> grp.match_ids@[k] != c.match_id,
            decreases grp.match_ids@.len() - m,
        {
            m = m + 1;
        }
        if m == grp.match_ids.len() {
            assert(!grp.match_ids@.contains(c.match_id));
            grp.match_ids.push(c.match_id);
        } else {
            assert(grp.match_ids@.contains(c.match_id));
        }
        if c.won {
            grp.wins = grp.wins + 1;
        }
        groups.insert(g, grp);
        proof {
            assert(groups@ =~= gs0.update(g as int, grp));
            assert(groups@.len() == group_keys(post).len());
            assert forall|k: int| 0 <= k < groups@.len() implies #[trigger] groups@[k].person_id
                == group_keys(post)[k] && groups@[k].match_ids@ == group_mids(
                post,
                groups@[k].person_id,
            ) && groups@[k].wins as int == group_wins(post, groups@[k].person_id) by {
                if k == g as int {
                    assert(groups@[k] == grp);
                    assert(group_keys(post)[k] == gs0[k].person_id);
                } else {
                    assert(groups@[k] == gs0[k]);
                    assert(gs0[k].person_id != c.person_id);
                    assert(group_mids(post, gs0[k].person_id) == group_mids(
                        pre,
                        gs0[k].person_id,
                    ));
                    assert(group_wins(post, gs0[k].person_id) == group_wins(
                        pre,
                        gs0[k].person_id,
                    ));
                }
            }
        }
        i = i + 1;
    }
    proof {
        assert(contribs@.take(contribs@.len() as int) =~= contribs@);
    }
    groups
}

/// A row's person is always among the grouped keys.
pub proof fn lemma_contrib_makes_key(c: Seq<Contrib>, i: int)
    requires
        0 <= i < c.len(),
    ensures
        group_keys(c).contains(c[i].person_id),
    decreases c.len(),
{
    if i == c.len() - 1 {
        if !group_keys(c.drop_last()).contains(c.last().person_id) {
            assert(group_keys(c).last() == c[i].person_id);
        } else {
            lemma_keys_prefix_subset(c);
        }
    } else {
        lemma_contrib_makes_key(c.drop_last(), i);
        assert(c.drop_last()[i] == c[i]);
        lemma_keys_prefix_subset(c);
    }
}

/// Keys of a prefix remain keys.
pub proof fn lemma_keys_prefix_subset(c: Seq<Contrib>)
    requires
        c.len() > 0,
    ensures
        forall|pp: i64|
            group_keys(c.drop_last()).contains(pp) ==> #[trigger] group_keys(c).contains(pp),
{
    assert forall|pp: i64|
        group_keys(c.drop_last()).contains(pp) implies #[trigger] group_keys(c).contains(pp) by {
        let prev = group_keys(c.drop_last());
        let k = choose|k: int| 0 <= k < prev.len() && prev[k] == pp;
        if prev.contains(c.last().person_id) {
            assert(group_keys(c)[k] == pp);
        } else {
            assert(group_keys(c)[k] == pp);
        }
    }
}

/// The grouped persons the person table knows, in unchanged order: the name
/// join drops a person the table does not know.
pub open spec fn joined_keys(keys: Seq<i64>, persons: Seq<PersonRow>) -> Seq<i64>
    decreases keys.len(),
{
    if keys.len() == 0 {
        Seq::empty()
    } else {
        let prev = joined_keys(keys.drop_last(), persons);
        if person_name_spec(persons, keys.last()) is Some {
            prev.push(keys.last())
        } else {
            prev
        }
    }
}

/// Where a person goes in the ranking: after everyone with at least as many
/// distinct matches, so persons with equal counts keep their order.
pub open spec fn insert_key_desc(c: Seq<Contrib>, s: Seq<i64>, k: i64) -> Seq<i64>
    decreases s.len(),
{
    if s.len() == 0 {
        seq![k]
    } else if group_mids(c, s[0]).len() >= group_mids(c, k).len() {
        seq![s[0]] + insert_key_desc(c, s.drop_first(), k)
    } else {
        seq![k] + s
    }
}

/// Stable insertion sort of persons by distinct match count, descending.
pub open spec fn sort_keys_desc(c: Seq<Contrib>, s: Seq<i64>) -> Seq<i64>
    decreases s.len(),
{
    if s.len() == 0 {
        Seq::empty()
    } else {
        insert_key_desc(c, sort_keys_desc(c, s.drop_last()), s.last())
    }
}

/// The persons a relationship query reports, in their reported order: the
/// name-joined grouped persons, ranked by match count descending.
pub open spec fn ranked_keys(c: Seq<Contrib>, persons: Seq<PersonRow>) -> Seq<i64> {
    sort_keys_desc(c, joined_keys(group_keys(c), persons))
}

/// The name join invents no person.
pub proof fn lemma_joined_keys_elems(keys: Seq<i64>, persons: Seq<PersonRow>)
    ensures
        forall|y: i64| #[trigger] joined_keys(keys, persons).contains(y) ==> keys.contains(y),
    decreases keys.len(),
{
    if keys.len() > 0 {
        lemma_joined_keys_elems(keys.drop_last(), persons);
        assert forall|y: i64| #[trigger] joined_keys(keys, persons).contains(y) implies keys.contains(
            y,
        ) by {
            let prev = joined_keys(keys.drop_last(), persons);
            if prev.contains(y) {
                let q = choose|q: int| 0 <= q < keys.drop_last().len() && keys.drop_last()[q] == y;
                assert(keys[q] == y);
            } else {
                assert(y == keys.last());
                assert(keys[keys.len() - 1] == y);
            }
        }
    }
}

/// Insertion invents no person.
pub proof fn lemma_insert_key_elems(c: Seq<Contrib>, s: Seq<i64>, x: i64)
    ensures
        forall|y: i64|
            #[trigger] insert_key_desc(c, s, x).contains(y) ==> s.contains(y) || y == x,
    decreases s.len(),
{
    if s.len() > 0 {
        lemma_insert_key_elems(c, s.drop_first(), x);
        assert forall|y: i64| #[trigger] insert_key_desc(c, s, x).contains(y) implies s.contains(y)
            || y == x by {
            if group_mids(c, s[0]).len() >= group_mids(c, x).len() {
                let r = insert_key_desc(c, s, x);
                let q = choose|q: int| 0 <= q < r.len() && r[q] == y;
                if q == 0 {
                    assert(s[0] == y);
                } else {
                    assert(insert_key_desc(c, s.drop_first(), x).contains(y));
                    if s.drop_first().contains(y) {
                        let w = choose|w: int|
                            0 <= w < s.drop_first().len() && s.drop_first()[w] == y;
                        assert(s[w + 1] == y);
                    }
                }
            } else {
                let r = insert_key_desc(c, s, x);
                let q = choose|q: int| 0 <= q < r.len() && r[q] == y;
                if q > 0 {
                    assert(s[q - 1] == y);
                }
            }
        }
    }
}

/// The ranking invents no person.
pub proof fn lemma_sort_keys_elems(c: Seq<Contrib>, s: Seq<i64>)
    ensures
        forall|y: i64| #[trigger] sort_keys_desc(c, s).contains(y) ==> s.contains(y),
    decreases s.len(),
{
    if s.len() > 0 {
        lemma_sort_keys_elems(c, s.drop_last());
        lemma_insert_key_elems(c, sort_keys_desc(c, s.drop_last()), s.last());
        assert forall|y: i64| #[trigger] sort_keys_desc(c, s).contains(y) implies s.contains(y) by {
            if sort_keys_desc(c, s.drop_last()).contains(y) {
                let q = choose|q: int| 0 <= q < s.drop_last().len() && s.drop_last()[q] == y;
                assert(s[q] == y);
            } else {
                assert(y == s.last());
                assert(s[s.len() - 1] == y);
            }
        }
    }
}

/// Inserting at the first position whose person has fewer matches realizes
/// `insert_key_desc`.
proof fn lemma_insert_key_at(c: Seq<Contrib>, s: Seq<i64>, x: i64, j: int)
    requires
        0 <= j <= s.len(),
        forall|k: int|
            0 <= k < j ==> group_mids(c, #[trigger] s[k]).len() >= group_mids(c, x).len(),
        j < s.len() ==> group_mids(c, s[j]).len() < group_mids(c, x).len(),
    ensures
        insert_key_desc(c, s, x) =~= s.take(j) + seq![x] + s.skip(j),
    decreases s.len(),
{
    if j == 0 {
        assert(insert_key_desc(c, s, x) =~= s.take(0) + seq![x] + s.skip(0));
    } else {
        let rest = s.drop_first();
        assert(group_mids(c, s[0]).len() >= group_mids(c, x).len());
        assert forall|k: int| 0 <= k < j - 1 implies group_mids(c, #[trigger] rest[k]).len()
            >= group_mids(c, x).len() by {
            assert(rest[k] == s[k + 1]);
        }
        lemma_insert_key_at(c, rest, x, j - 1);
        assert(insert_key_desc(c, s, x) =~= s.take(j) + seq![x] + s.skip(j));
    }
}

/// Joins the groups with the person table, computes win rates, and ranks the
/// result by match count descending (stable). A group whose person the table
/// does not know is dropped, as an inner join drops it. The groups must be
/// the aggregate of the ghost rows `c`, with win counts bounded by distinct
/// match counts.
pub fn finalize(
    groups: Vec<Group>,
    persons: &Vec<PersonRow>,
    Ghost(c): Ghost<Seq<Contrib>>,
) -> (r: Vec<RelationshipStat>)
    requires
        groups@.len() == group_keys(c).len(),
        forall|k: int|
            0 <= k < groups@.len() ==> #[trigger] groups@[k].person_id == group_keys(c)[k],
        forall|k: int|
            0 <= k < groups@.len() ==> #[trigger] groups@[k].match_ids@ == group_mids(
                c,
                groups@[k].person_id,
            ),
        forall|k: int|
            0 <= k < groups@.len() ==> #[trigger] groups@[k].wins as int == group_wins(
                c,
                groups@[k].person_id,
            ),
        forall|pp: i64| #[trigger] group_wins(c, pp) <= group_mids(c, pp).len(),
    ensures
        r@.len() == ranked_keys(c, persons@).len(),
        forall|i: int|
            0 <= i < r@.len() ==> (#[trigger] r@[i].other_person_id) == ranked_keys(
                c,
                persons@,
            )[i],
        forall|i: int|
            0 <= i < r@.len() ==> (#[trigger] r@[i].wins as int) == group_wins(
                c,
                r@[i].other_person_id,
            ),
        forall|i: int|
            0 <= i < r@.len() ==> (#[trigger] r@[i].match_count as int) == group_mids(
                c,
                r@[i].other_person_id,
            ).len(),
        forall|i: int|
            0 <= i < r@.len() ==> person_name_spec(persons@, #[trigger] r@[i].other_person_id)
                == Some(r@[i].other_person_name@),
        forall|i: int|
            0 <= i < r@.len() && #[trigger] r@[i].match_count > 0 ==> r@[i].win_rate_millis
                == Some(rate_millis_spec(r@[i].wins as int, r@[i].match_count as int) as u32),
        forall|i: int|
            0 <= i < r@.len() && #[trigger] r@[i].match_count == 0 ==> r@[i].win_rate_millis
                is None,
        forall|i: int| 0 <= i < r@.len() ==> (#[trigger] r@[i].wins) <= r@[i].match_count,
        forall|i: int, j: int|
            0 <= i <= j < r@.len() ==> r@[i].match_count >= r@[j].match_count,
{
    let ghost keys_all = group_keys(c);
    let ghost orig = groups@;
    let mut rest = groups;
    let mut sorted: Vec<Group> = Vec::new();
    let ghost mut seen: int = 0;
    proof {
        assert(keys_all.take(0) =~= Seq::<i64>::empty());
        assert(rest@ =~= orig.skip(0));
    }
    while rest.len() > 0
        invariant
            0 <= seen <= orig.len(),
            rest@ == orig.skip(seen),
            sorted@.len() == sort_keys_desc(c, joined_keys(keys_all.take(seen), persons@)).len(),
            forall|k: int|
                0 <= k < sorted@.len() ==> #[trigger] sorted@[k].person_id == sort_keys_desc(
                    c,
                    joined_keys(keys_all.take(seen), persons@),
                )[k],
            forall|k: int|
                0 <= k < sorted@.len() ==> #[trigger] sorted@[k].match_ids@ == group_mids(
                    c,
                    sorted@[k].person_id,
                ),
            forall|k: int|
                0 <= k < sorted@.len() ==> #[trigger] sorted@[k].wins as int == group_wins(
                    c,
                    sorted@[k].person_id,
                ),
            forall|k: int|
                0 <= k < sorted@.len() ==> person_name_spec(
                    persons@,
                    #[trigger] sorted@[k].person_id,
                ) is Some,
            forall|a: int, b: int|
                0 <= a <= b < sorted@.len() ==> sorted@[a].match_ids@.len()
                    >= sorted@[b].match_ids@.len(),
        decreases rest@.len(),
    {
        let g = rest.remove(0);
        proof {
            assert(g == orig[seen]);
            assert(rest@ =~= orig.skip(seen + 1));
            assert(keys_all.take(seen + 1).drop_last() =~= keys_all.take(seen));
            assert(keys_all.take(seen + 1).last() == keys_all[seen]);
            assert(g.person_id == keys_all[seen]);
        }
        let known = person_name(persons, g.person_id);
        let ghost jk = joined_keys(keys_all.take(seen), persons@);
        let ghost sk = sort_keys_desc(c, jk);
        if known.is_some() {
            proof {
                assert(joined_keys(keys_all.take(seen + 1), persons@) =~= jk.push(g.person_id));
                assert(jk.push(g.person_id).drop_last() =~= jk);
                assert(jk.push(g.person_id).last() == g.person_id);
            }
            // find the insertion position in the ranking
            let mut p: usize = 0;
            while p < sorted.len() && sorted[p].match_ids.len() >= g.match_ids.len()
                invariant
                    p <= sorted@.len(),
                    forall|k: int|
                        0 <= k < p ==> (#[trigger] sorted@[k].match_ids@.len())
                            >= g.match_ids@.len(),
                decreases sorted@.len() - p,
            {
                p = p + 1;
            }
            proof {
                assert forall|k: int| 0 <= k < p implies group_mids(c, #[trigger] sk[k]).len()
                    >= group_mids(c, g.person_id).len() by {
                    assert(sorted@[k].person_id == sk[k]);
                    assert(sorted@[k].match_ids@ == group_mids(c, sk[k]));
                }
                if (p as int) < sk.len() {
                    assert(sorted@[p as int].person_id == sk[p as int]);
                    assert(sorted@[p as int].match_ids@ == group_mids(c, sk[p as int]));
                }
                lemma_insert_key_at(c, sk, g.person_id, p as int);
            }
            let ghost old_sorted = sorted@;
            sorted.insert(p, g);
            proof {
                assert(sorted@ =~= old_sorted.take(p as int) + seq![g] + old_sorted.skip(
                    p as int,
                ));
                assert forall|k: int| 0 <= k < sorted@.len() implies #[trigger] sorted@[k].person_id
                    == insert_key_desc(c, sk, g.person_id)[k] by {
                    let pp = p as int;
                    if k < pp {
                        assert(sorted@[k] == old_sorted[k]);
                    } else if k == pp {
                        assert(sorted@[k] == g);
                    } else {
                        assert(sorted@[k] == old_sorted[k - 1]);
                    }
                }
                assert forall|a: int, b: int|
                    0 <= a <= b < sorted@.len() implies sorted@[a].match_ids@.len()
                    >= sorted@[b].match_ids@.len() by {
                    let pp = p as int;
                    if b < pp {
                        assert(sorted@[a] == old_sorted[a]);
                        assert(sorted@[b] == old_sorted[b]);
                    } else if a < pp && b == pp {
                        assert(sorted@[a] == old_sorted[a]);
                    } else if a == pp && b == pp {
                    } else if a == pp && b > pp {
                        assert(sorted@[b] == old_sorted[b - 1]);
                    } else if a < pp && b > pp {
                        assert(sorted@[a] == old_sorted[a]);
                        assert(sorted@[b] == old_sorted[b - 1]);
                    } else {
                        assert(sorted@[a] == old_sorted[a - 1]);
                        assert(sorted@[b] == old_sorted[b - 1]);
                    }
                }
            }
        } else {
            proof {
                assert(joined_keys(keys_all.take(seen + 1), persons@) =~= jk);
            }
        }
        proof {
            seen = seen + 1;
        }
    }
    proof {
        assert(keys_all.take(keys_all.len() as int) =~= keys_all);
        assert(orig.skip(seen).len() == 0);
        assert(seen == orig.len());
    }
    // turn the ranked groups into relationship rows
    let ghost sfull = sorted@;
    let mut out: Vec<RelationshipStat> = Vec::new();
    let mut rest2 = sorted;
    let ghost mut done: int = 0;
    proof {
        assert(rest2@ =~= sfull.skip(0));
    }
    while rest2.len() > 0
        invariant
            0 <= done <= sfull.len(),
            rest2@ == sfull.skip(done),
            out@.len() == done,
            forall|k: int|
                0 <= k < sfull.len() ==> #[trigger] sfull[k].person_id == ranked_keys(
                    c,
                    persons@,
                )[k],
            sfull.len() == ranked_keys(c, persons@).len(),
            forall|k: int|
                0 <= k < sfull.len() ==> #[trigger] sfull[k].match_ids@ == group_mids(
                    c,
                    sfull[k].person_id,
                ),
            forall|k: int|
                0 <= k < sfull.len() ==> #[trigger] sfull[k].wins as int == group_wins(
                    c,
                    sfull[k].person_id,
                ),
            forall|k: int|
                0 <= k < sfull.len() ==> person_name_spec(
                    persons@,
                    #[trigger] sfull[k].person_id,
                ) is Some,
            forall|a: int, b: int|
                0 <= a <= b < sfull.len() ==> sfull[a].match_ids@.len()
                    >= sfull[b].match_ids@.len(),
            forall|i: int|
                0 <= i < done ==> (#[trigger] out@[i].other_person_id) == sfull[i].person_id,
            forall|i: int| 0 <= i < done ==> (#[trigger] out@[i].wins) == sfull[i].wins,
            forall|i: int|
                0 <= i < done ==> (#[trigger] out@[i].match_count as int)
                    == sfull[i].match_ids@.len(),
            forall|i: int|
                0 <= i < done ==> person_name_spec(persons@, #[trigger] out@[i].other_person_id)
                    == Some(out@[i].other_person_name@),
            forall|i: int|
                0 <= i < done && #[trigger] out@[i].match_count > 0 ==> out@[i].win_rate_millis
                    == Some(
                    rate_millis_spec(out@[i].wins as int, out@[i].match_count as int) as u32,
                ),
            forall|i: int|
                0 <= i < done && #[trigger] out@[i].match_count == 0 ==> out@[i].win_rate_millis
                    is None,
        decreases rest2@.len(),
    {
        let g = rest2.remove(0);
        proof {
            assert(g == sfull[done]);
            assert(rest2@ =~= sfull.skip(done + 1));
            assert(group_wins(c, g.person_id) <= group_mids(c, g.person_id).len());
            lemma_group_wins_bounds(c, g.person_id);
        }
        let name = match person_name(persons, g.person_id) {
            Some(nm) => nm,
            None => {
                proof {
                    assert(false);
                }
                vstd::pervasive::unreached()
            },
        };
        let mc: u64 = g.match_ids.len() as u64;
        let rate: Option<u32> = if mc > 0 {
            Some(rate_millis(g.wins, mc))
        } else {
            None
        };
        out.push(
            RelationshipStat {
                other_person_id: g.person_id,
                other_person_name: name,
                wins: g.wins,
                match_count: mc,
                win_rate_millis: rate,
            },
        );
        proof {
            done = done + 1;
        }
    }
    out
}

/// Re-invoking a relationship query on unchanged data yields identical
/// rows: any two results that meet the query's contract over the same rows
/// and the same person table agree, field for field.
pub proof fn lemma_stats_deterministic(
    c: Seq<Contrib>,
    persons: Seq<PersonRow>,
    r1: Seq<RelationshipStat>,
    r2: Seq<RelationshipStat>,
)
    requires
        r1.len() == ranked_keys(c, persons).len(),
        forall|i: int|
            0 <= i < r1.len() ==> (#[trigger] r1[i].other_person_id) == ranked_keys(c, persons)[i],
        forall|i: int|
            0 <= i < r1.len() ==> (#[trigger] r1[i].wins as int) == group_wins(
                c,
                r1[i].other_person_id,
            ),
        forall|i: int|
            0 <= i < r1.len() ==> (#[trigger] r1[i].match_count as int) == group_mids(
                c,
                r1[i].other_person_id,
            ).len(),
        forall|i: int|
            0 <= i < r1.len() ==> person_name_spec(persons, #[trigger] r1[i].other_person_id)
                == Some(r1[i].other_person_name@),
        forall|i: int|
            0 <= i < r1.len() && #[trigger] r1[i].match_count > 0 ==> r1[i].win_rate_millis
                == Some(rate_millis_spec(r1[i].wins as int, r1[i].match_count as int) as u32),
        forall|i: int|
            0 <= i < r1.len() && #[trigger] r1[i].match_count == 0 ==> r1[i].win_rate_millis
                is None,
        r2.len() == ranked_keys(c, persons).len(),
        forall|i: int|
            0 <= i < r2.len() ==> (#[trigger] r2[i].other_person_id) == ranked_keys(c, persons)[i],
        forall|i: int|
            0 <= i < r2.len() ==> (#[trigger] r2[i].wins as int) == group_wins(
                c,
                r2[i].other_person_id,
            ),
        forall|i: int|
            0 <= i < r2.len() ==> (#[trigger] r2[i].match_count as int) == group_mids(
                c,
                r2[i].other_person_id,
            ).len(),
        forall|i: int|
            0 <= i < r2.len() ==> person_name_spec(persons, #[trigger] r2[i].other_person_id)
                == Some(r2[i].other_person_name@),
        forall|i: int|
            0 <= i < r2.len() && #[trigger] r2[i].match_count > 0 ==> r2[i].win_rate_millis
                == Some(rate_millis_spec(r2[i].wins as int, r2[i].match_count as int) as u32),
        forall|i: int|
            0 <= i < r2.len() && #[trigger] r2[i].match_count == 0 ==> r2[i].win_rate_millis
                is None,
    ensures
        r1.len() == r2.len(),
        forall|i: int|
            0 <= i < r1.len() ==> (#[trigger] r1[i]).other_person_id == r2[i].other_person_id,
        forall|i: int|
            0 <= i < r1.len() ==> (#[trigger] r1[i]).other_person_name@
                == r2[i].other_person_name@,
        forall|i: int| 0 <= i < r1.len() ==> (#[trigger] r1[i]).wins == r2[i].wins,
        forall|i: int| 0 <= i < r1.len() ==> (#[trigger] r1[i]).match_count == r2[i].match_count,
        forall|i: int|
            0 <= i < r1.len() ==> (#[trigger] r1[i]).win_rate_millis == r2[i].win_rate_millis,
{
    assert forall|i: int| 0 <= i < r1.len() implies (#[trigger] r1[i]).other_person_id
        == r2[i].other_person_id && r1[i].other_person_name@ == r2[i].other_person_name@
        && r1[i].wins == r2[i].wins && r1[i].match_count == r2[i].match_count
        && r1[i].win_rate_millis == r2[i].win_rate_millis by {
        assert(r1[i].other_person_id == ranked_keys(c, persons)[i]);
        assert(r2[i].other_person_id == ranked_keys(c, persons)[i]);
        assert(r1[i].wins as int == r2[i].wins as int);
        assert(r1[i].match_count as int == r2[i].match_count as int);
        assert(person_name_spec(persons, r1[i].other_person_id) == Some(
            r1[i].other_person_name@,
        ));
        assert(person_name_spec(persons, r2[i].other_person_id) == Some(
            r2[i].other_person_name@,
        ));
        if r1[i].match_count > 0 {
            assert(r2[i].match_count > 0);
            assert(r1[i].win_rate_millis == r2[i].win_rate_millis);
        } else {
            assert(r2[i].match_count == 0);
            assert(r1[i].win_rate_millis is None && r2[i].win_rate_millis is None);
            assert(r1[i].win_rate_millis == r2[i].win_rate_millis);
        }
    }
}

/// A person who is no key has no wins.
pub proof fn lemma_no_key_no_wins(c: Seq<Contrib>, pp: i64)
    requires
        !group_keys(c).contains(pp),
    ensures
        group_wins(c, pp) == 0,
    decreases c.len(),
{
    if c.len() > 0 {
        lemma_keys_prefix_subset(c);
        assert(!group_keys(c.drop_last()).contains(pp));
        lemma_no_key_no_wins(c.drop_last(), pp);
        if c.last().person_id == pp {
            lemma_contrib_makes_key(c, c.len() - 1);
            assert(false);
        }
    }
}

} // verus!
