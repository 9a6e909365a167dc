//! The order of names, and the order in which the entries of a directory
//! are visited: by name, entries of one name in the order of the listing.

use vstd::prelude::*;
use crate::text::rows;

verus! {

/// Whether the name `a` comes no later than the name `b`. Names are
/// compared character by character, by code point; a name comes before
/// every longer name that starts with it.
pub open spec fn name_le(a: Seq<char>, b: Seq<char>) -> bool
    decreases a.len(),
{
    if a.len() == 0 {
        true
    } else if b.len() == 0 {
        false
    } else if a[0] == b[0] {
        name_le(a.drop_first(), b.drop_first())
    } else {
        (a[0] as int) < (b[0] as int)
    }
}

/// Every name comes no later than itself.
pub proof fn lemma_name_le_reflexive(a: Seq<char>)
    ensures
        name_le(a, a),
    decreases a.len(),
{
    if a.len() > 0 {
        lemma_name_le_reflexive(a.drop_first());
    }
}

/// Of two names one comes no later than the other.
pub proof fn lemma_name_le_total(a: Seq<char>, b: Seq<char>)
    ensures
        name_le(a, b) || name_le(b, a),
    decreases a.len(),
{
    if a.len() > 0 && b.len() > 0 {
        if a[0] == b[0] {
            lemma_name_le_total(a.drop_first(), b.drop_first());
        } else {
            assert(a[0] as int != b[0] as int);
        }
    }
}

/// Two names of which each comes no later than the other are one name.
pub proof fn lemma_name_le_antisymmetric(a: Seq<char>, b: Seq<char>)
    requires
        name_le(a, b),
        name_le(b, a),
    ensures
        a == b,
    decreases a.len(),
{
    if a.len() > 0 && b.len() > 0 {
        lemma_name_le_antisymmetric(a.drop_first(), b.drop_first());
        assert(a =~= seq![a[0]] + a.drop_first());
        assert(b =~= seq![b[0]] + b.drop_first());
    } else {
        assert(a =~= b);
    }
}

/// The order of names carries over: from `a` to `b` and from `b` to `c`
/// gives from `a` to `c`.
pub proof fn lemma_name_le_transitive(a: Seq<char>, b: Seq<char>, c: Seq<char>)
    requires
        name_le(a, b),
        name_le(b, c),
    ensures
        name_le(a, c),
    decreases a.len(),
{
    if a.len() > 0 && b.len() > 0 && c.len() > 0 && a[0] == b[0] && b[0] == c[0] {
        lemma_name_le_transitive(a.drop_first(), b.drop_first(), c.drop_first());
    }
}

/// Whether the name `a` comes no later than the name `b`.
pub fn name_no_later(a: &Vec<char>, b: &Vec<char>) -> (le: bool)
    ensures
        le == name_le(a@, b@),
{
    let mut i: usize = 0;
    proof {
        assert(a@.skip(0) == a@);
        assert(b@.skip(0) == b@);
    }
    while i < a.len() && i < b.len()
        invariant
            i <= a.len(),
            i <= b.len(),
            name_le(a@, b@) == name_le(a@.skip(i as int), b@.skip(i as int)),
        decreases a.len() - i,
    {
        proof {
            assert(a@.skip(i as int)[0] == a@[i as int]);
            assert(b@.skip(i as int)[0] == b@[i as int]);
        }
        if a[i] != b[i] {
            return a[i] < b[i];
        }
        proof {
            assert(a@.skip(i as int).drop_first() == a@.skip(i + 1));
            assert(b@.skip(i as int).drop_first() == b@.skip(i + 1));
        }
        i += 1;
    }
    a.len() <= b.len()
}

/// Where the entry `k` goes into `sorted`, a list of entries already in
/// order: behind the last entry whose name comes no later than its own.
/// Entries are given by their positions in `names`.
pub open spec fn place(names: Seq<Seq<char>>, sorted: Seq<int>, k: int) -> int
    decreases sorted.len(),
{
    if sorted.len() == 0 || name_le(names[sorted.last()], names[k]) {
        sorted.len() as int
    } else {
        place(names, sorted.drop_last(), k)
    }
}

/// The entries `chosen` in the order of their names. Entries of one name
/// keep the order they have in `chosen`.
pub open spec fn by_name(names: Seq<Seq<char>>, chosen: Seq<int>) -> Seq<int>
    decreases chosen.len(),
{
    if chosen.len() == 0 {
        Seq::empty()
    } else {
        let sorted = by_name(names, chosen.drop_last());
        sorted.insert(place(names, sorted, chosen.last()), chosen.last())
    }
}

/// Whether the names of the entries `order` never go down.
pub open spec fn ascending(names: Seq<Seq<char>>, order: Seq<int>) -> bool {
    forall|i: int, j: int|
        0 <= i < j < order.len() ==> name_le(
            #[trigger] names[order[i]],
            #[trigger] names[order[j]],
        )
}

/// `place` lies within the list, and the names around it bracket the
/// entry's name.
pub proof fn lemma_place(names: Seq<Seq<char>>, sorted: Seq<int>, k: int)
    ensures
        0 <= place(names, sorted, k) <= sorted.len(),
        place(names, sorted, k) > 0 ==> name_le(
            names[sorted[place(names, sorted, k) - 1]],
            names[k],
        ),
        forall|j: int|
            place(names, sorted, k) <= j < sorted.len() ==> !name_le(
                names[#[trigger] sorted[j]],
                names[k],
            ),
    decreases sorted.len(),
{
    if sorted.len() == 0 || name_le(names[sorted.last()], names[k]) {
    } else {
        let head = sorted.drop_last();
        lemma_place(names, head, k);
        assert forall|j: int| place(names, sorted, k) <= j < sorted.len() implies !name_le(
            names[#[trigger] sorted[j]],
            names[k],
        ) by {
            if j < head.len() {
                assert(sorted[j] == head[j]);
            }
        }
        assert(place(names, sorted, k) > 0 ==> sorted[place(names, sorted, k) - 1] == head[place(
            names,
            head,
            k,
        ) - 1]);
    }
}

/// The entries in the order of their names are the chosen entries, each as
/// often as it was chosen, and their names never go down.
pub proof fn lemma_by_name(names: Seq<Seq<char>>, chosen: Seq<int>)
    ensures
        by_name(names, chosen).to_multiset() == chosen.to_multiset(),
        by_name(names, chosen).len() == chosen.len(),
        ascending(names, by_name(names, chosen)),
    decreases chosen.len(),
{
    broadcast use vstd::seq_lib::group_to_multiset_ensures;

    if chosen.len() == 0 {
    } else {
        let head = chosen.drop_last();
        let k = chosen.last();
        let sorted = by_name(names, head);
        lemma_by_name(names, head);
        lemma_place(names, sorted, k);
        let p = place(names, sorted, k);
        let out = sorted.insert(p, k);
        vstd::seq_lib::to_multiset_insert(sorted, p, k);
        assert(chosen == head.push(k));
        assert(out.to_multiset() == chosen.to_multiset());
        assert forall|i: int, j: int| 0 <= i < j < out.len() implies name_le(
            #[trigger] names[out[i]],
            #[trigger] names[out[j]],
        ) by {
            if j < p {
                assert(out[i] == sorted[i] && out[j] == sorted[j]);
            } else if i > p {
                assert(out[i] == sorted[i - 1] && out[j] == sorted[j - 1]);
            } else if i == p {
                assert(out[j] == sorted[j - 1]);
                assert(!name_le(names[sorted[j - 1]], names[k]));
                lemma_name_le_total(names[sorted[j - 1]], names[k]);
            } else if j == p {
                assert(out[i] == sorted[i]);
                if i < p - 1 {
                    assert(name_le(names[sorted[i]], names[sorted[p - 1]]));
                    lemma_name_le_transitive(names[sorted[i]], names[sorted[p - 1]], names[k]);
                }
            } else {
                assert(out[i] == sorted[i] && out[j] == sorted[j - 1]);
            }
        }
    }
}

/// Positions in a listing as the contracts read them.
pub open spec fn positions(order: Seq<usize>) -> Seq<int> {
    order.map_values(|k: usize| k as int)
}

/// Puts the entry `k` into `order`, a list of entries in the order of their
/// names, where `place` says.
pub(crate) fn insert_by_name(names: &Vec<Vec<char>>, order: &mut Vec<usize>, k: usize)
    requires
        k < names.len(),
        forall|j: int| 0 <= j < old(order).len() ==> old(order)[j] < names.len(),
    ensures
        positions(final(order)@) == positions(old(order)@).insert(
            place(rows(names@), positions(old(order)@), k as int),
            k as int,
        ),
        forall|j: int| 0 <= j < final(order).len() ==> final(order)[j] < names.len(),
{
    let ghost before = positions(order@);
    let mut pos: usize = order.len();
    proof {
        assert(before.take(pos as int) == before);
    }
    while pos > 0 && !name_no_later(&names[order[pos - 1]], &names[k])
        invariant
            pos <= order.len(),
            k < names.len(),
            before == positions(order@),
            forall|j: int| 0 <= j < order.len() ==> order[j] < names.len(),
            place(rows(names@), before, k as int) == place(
                rows(names@),
                before.take(pos as int),
                k as int,
            ),
        decreases pos,
    {
        proof {
            assert(before.take(pos as int).drop_last() == before.take(pos - 1));
        }
        pos -= 1;
    }
    order.insert(pos, k);
    proof {
        assert(positions(order@) =~= before.insert(pos as int, k as int));
    }
}

} // verus!
