//! Person catalog: listing every known person sorted by name.
//!
//! Names are ordered by their UTF-8 bytes, the byte-wise collation the
//! entity store uses. The sort is an insertion sort, stable by construction:
//! a row is placed after every row whose name is less than or equal to its
//! own, so rows with equal names keep their input order, and repeated calls
//! on unchanged data return the identical list.
use vstd::multiset::Multiset;
use vstd::prelude::*;
use vstd::utf8::encode_utf8;

use crate::rows::PersonRow;

verus! {

/// A person as exposed to callers of the catalog.
#[derive(Clone, Debug, PartialEq)]
pub struct Player {
    pub id: i64,
    pub name: String,
}

impl Clone for PersonRow {
    /// An exact copy, field for field.
    fn clone(&self) -> (r: Self)
        ensures
            r == *self,
    {
        PersonRow { id: self.id, name: self.name.clone() }
    }
}

/// The sort key of a person: the UTF-8 bytes of their name.
pub open spec fn name_bytes(p: PersonRow) -> Seq<u8> {
    encode_utf8(p.name@)
}

/// Byte-wise lexicographic order: `a` is less than or equal to `b`.
pub open spec fn bytes_le(a: Seq<u8>, b: Seq<u8>) -> bool
    decreases a.len(),
{
    if a.len() == 0 {
        true
    } else if b.len() == 0 {
        false
    } else if a[0] < b[0] {
        true
    } else if a[0] > b[0] {
        false
    } else {
        bytes_le(a.drop_first(), b.drop_first())
    }
}

/// The lexicographic order is reflexive.
pub proof fn lemma_bytes_le_refl(a: Seq<u8>)
    ensures
        bytes_le(a, a),
    decreases a.len(),
{
    if a.len() > 0 {
        lemma_bytes_le_refl(a.drop_first());
    }
}

/// The lexicographic order is total.
pub proof fn lemma_bytes_le_total(a: Seq<u8>, b: Seq<u8>)
    ensures
        bytes_le(a, b) || bytes_le(b, a),
    decreases a.len(),
{
    if a.len() == 0 || b.len() == 0 {
    } else if a[0] == b[0] {
        lemma_bytes_le_total(a.drop_first(), b.drop_first());
    }
}

/// The lexicographic order is transitive.
pub proof fn lemma_bytes_le_trans(a: Seq<u8>, b: Seq<u8>, c: Seq<u8>)
    requires
        bytes_le(a, b),
        bytes_le(b, c),
    ensures
        bytes_le(a, c),
    decreases a.len(),
{
    if a.len() == 0 || b.len() == 0 || c.len() == 0 {
    } else if a[0] == b[0] && b[0] == c[0] {
        lemma_bytes_le_trans(a.drop_first(), b.drop_first(), c.drop_first());
    }
}

/// Compares two strings by their UTF-8 bytes.
pub fn str_le(a: &str, b: &str) -> (r: bool)
    ensures
        r == bytes_le(encode_utf8(a@), encode_utf8(b@)),
{
    let ab = a.as_bytes();
    let bb = b.as_bytes();
    let mut i: usize = 0;
    proof {
        assert(ab@.skip(0) =~= ab@);
        assert(bb@.skip(0) =~= bb@);
    }
    while i < ab.len() && i < bb.len()
        invariant
            i <= ab@.len(),
            i <= bb@.len(),
            bytes_le(ab@, bb@) == bytes_le(ab@.skip(i as int), bb@.skip(i as int)),
        decreases ab@.len() - i,
    {
        proof {
            assert(ab@.skip(i as int)[0] == ab@[i as int]);
            assert(bb@.skip(i as int)[0] == bb@[i as int]);
        }
        if ab[i] < bb[i] {
            return true;
        }
        if ab[i] > bb[i] {
            return false;
        }
        proof {
            assert(ab@.skip(i as int).drop_first() =~= ab@.skip(i as int + 1));
            assert(bb@.skip(i as int).drop_first() =~= bb@.skip(i as int + 1));
        }
        i = i + 1;
    }
    if i == ab.len() {
        assert(ab@.skip(i as int).len() == 0);
        true
    } else {
        assert(bb@.skip(i as int).len() == 0);
        assert(ab@.skip(i as int).len() > 0);
        false
    }
}

/// Where a row goes when inserted into a sorted run: after every row whose
/// name is less than or equal, before the first whose name is greater.
pub open spec fn insert_person(s: Seq<PersonRow>, x: PersonRow) -> Seq<PersonRow>
    decreases s.len(),
{
    if s.len() == 0 {
        seq![x]
    } else if bytes_le(name_bytes(s[0]), name_bytes(x)) {
        seq![s[0]] + insert_person(s.drop_first(), x)
    } else {
        seq![x] + s
    }
}

/// Insertion sort of person rows by name, processing rows left to right.
pub open spec fn sort_persons_spec(s: Seq<PersonRow>) -> Seq<PersonRow>
    decreases s.len(),
{
    if s.len() == 0 {
        Seq::empty()
    } else {
        insert_person(sort_persons_spec(s.drop_last()), s.last())
    }
}

/// Rows in ascending name order.
pub open spec fn sorted_by_name(s: Seq<PersonRow>) -> bool {
    forall|i: int, j: int|
        0 <= i <= j < s.len() ==> bytes_le(name_bytes(s[i]), name_bytes(s[j]))
}

/// Inserting at the first position whose row's name exceeds the new row's
/// name realizes `insert_person`.
proof fn lemma_insert_at(s: Seq<PersonRow>, x: PersonRow, j: int)
    requires
        0 <= j <= s.len(),
        forall|k: int| 0 <= k < j ==> bytes_le(name_bytes(#[trigger] s[k]), name_bytes(x)),
        j < s.len() ==> !bytes_le(name_bytes(s[j]), name_bytes(x)),
    ensures
        insert_person(s, x) =~= s.take(j) + seq![x] + s.skip(j),
    decreases s.len(),
{
    if j == 0 {
        if s.len() == 0 {
            assert(insert_person(s, x) =~= s.take(0) + seq![x] + s.skip(0));
        } else {
            assert(!bytes_le(name_bytes(s[0]), name_bytes(x)));
            assert(insert_person(s, x) =~= s.take(0) + seq![x] + s.skip(0));
        }
    } else {
        let rest = s.drop_first();
        assert(bytes_le(name_bytes(s[0]), name_bytes(x)));
        assert forall|k: int| 0 <= k < j - 1 implies bytes_le(
            name_bytes(#[trigger] rest[k]),
            name_bytes(x),
        ) by {
            assert(rest[k] == s[k + 1]);
        }
        lemma_insert_at(rest, x, j - 1);
        assert(insert_person(s, x) =~= s.take(j) + seq![x] + s.skip(j));
    }
}

/// Lists every person, sorted ascending by the UTF-8 bytes of their name.
/// The result is an exact function of the input, so repeated calls on
/// unchanged data return the identical list; rows with equal names keep
/// their input order.
pub fn list_all(persons: &Vec<PersonRow>) -> (r: Vec<PersonRow>)
    ensures
        r@ == sort_persons_spec(persons@),
        sorted_by_name(r@),
        r@.to_multiset() == persons@.to_multiset(),
{
    broadcast use vstd::seq_lib::group_to_multiset_ensures;

    let mut out: Vec<PersonRow> = Vec::new();
    proof {
        assert(persons@.take(0) =~= Seq::<PersonRow>::empty());
        assert(persons@.take(0).to_multiset() =~= Multiset::<PersonRow>::empty());
        assert(out@.to_multiset() =~= Multiset::<PersonRow>::empty());
    }
    let mut i: usize = 0;
    while i < persons.len()
        invariant
            i <= persons@.len(),
            out@ == sort_persons_spec(persons@.take(i as int)),
            sorted_by_name(out@),
            out@.to_multiset() == persons@.take(i as int).to_multiset(),
        decreases persons@.len() - i,
    {
        let x = persons[i].clone();
        let mut j: usize = 0;
        while j < out.len() && str_le(out[j].name.as_str(), x.name.as_str())
            invariant
                j <= out@.len(),
                forall|k: int|
                    0 <= k < j ==> bytes_le(name_bytes(#[trigger] out@[k]), name_bytes(x)),
            decreases out@.len() - j,
        {
            j = j + 1;
        }
        proof {
            lemma_insert_at(out@, x, j as int);
            // the tail of the sorted run is at least the new row
            if j < out@.len() {
                lemma_bytes_le_total(name_bytes(out@[j as int]), name_bytes(x));
            }
        }
        let ghost old_out = out@;
        out.insert(j, x);
        proof {
            assert(out@ =~= old_out.take(j as int) + seq![x] + old_out.skip(j as int));
            assert(out@ == insert_person(old_out, x));
            assert(persons@.take(i as int + 1).drop_last() =~= persons@.take(i as int));
            assert(persons@.take(i as int + 1).last() == persons@[i as int]);
            assert(out@ == sort_persons_spec(persons@.take(i as int + 1)));
            // sortedness is preserved around the insertion point
            assert forall|p: int, q: int|
                0 <= p <= q < out@.len() implies bytes_le(
                name_bytes(out@[p]),
                name_bytes(out@[q]),
            ) by {
                let jj = j as int;
                lemma_bytes_le_refl(name_bytes(x));
                if q < jj {
                    assert(out@[p] == old_out[p]);
                    assert(out@[q] == old_out[q]);
                } else if p < jj && q == jj {
                    assert(out@[p] == old_out[p]);
                    assert(out@[q] == x);
                } else if p == jj && q == jj {
                    assert(out@[p] == x);
                } else if p == jj && q > jj {
                    assert(out@[q] == old_out[q - 1]);
                    lemma_bytes_le_trans(
                        name_bytes(x),
                        name_bytes(old_out[jj]),
                        name_bytes(old_out[q - 1]),
                    );
                } else if p < jj && q > jj {
                    assert(out@[p] == old_out[p]);
                    assert(out@[q] == old_out[q - 1]);
                } else {
                    assert(out@[p] == old_out[p - 1]);
                    assert(out@[q] == old_out[q - 1]);
                }
            }
            // the multiset gains exactly the new row
            assert(out@.remove(j as int) =~= old_out);
            assert(out@[j as int] == x);
            assert(out@.remove(j as int).to_multiset() =~= out@.to_multiset().remove(x));
            assert(out@.to_multiset().contains(x));
            assert forall|y: PersonRow|
                out@.to_multiset().count(y) == old_out.to_multiset().insert(x).count(
                    y,
                ) by {
            }
            assert(out@.to_multiset() =~= old_out.to_multiset().insert(x));
            assert(persons@.take(i as int + 1) =~= persons@.take(i as int).push(
                persons@[i as int],
            ));
            assert(persons@.take(i as int + 1).to_multiset() =~= persons@.take(
                i as int,
            ).to_multiset().insert(persons@[i as int]));
        }
        i = i + 1;
    }
    proof {
        assert(persons@.take(persons@.len() as int) =~= persons@);
    }
    out
}

/// Maps person rows to the catalog's `Player` values, one for one, keeping
/// identifiers, names and order.
pub fn players_from_people(rows: &Vec<PersonRow>) -> (r: Vec<Player>)
    ensures
        r@.len() == rows@.len(),
        forall|i: int|
            0 <= i < rows@.len() ==> #[trigger] r@[i].id == rows@[i].id && r@[i].name
                == rows@[i].name,
{
    let mut out: Vec<Player> = Vec::new();
    let mut i: usize = 0;
    while i < rows.len()
        invariant
            i <= rows@.len(),
            out@.len() == i,
            forall|k: int|
                0 <= k < i ==> #[trigger] out@[k].id == rows@[k].id && out@[k].name
                    == rows@[k].name,
        decreases rows@.len() - i,
    {
        let row = rows[i].clone();
        out.push(Player { id: row.id, name: row.name });
        i = i + 1;
    }
    out
}

} // verus!
