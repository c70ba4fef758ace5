//! The canonical form does not depend on the order in which the members of
//! an object were put in: the laws behind that, stated and proved.

use crate::json::canon::{
    canonical, canonical_hash, key_before, key_order, keys_of, lemma_key_order,
    lemma_rank_position, lex_lt, member_texts, rank_position,
};
use crate::json::value::{unique_keys, Json};
use vstd::prelude::*;

verus! {

// ---------------------------------------------------------------------------
// The order of the dictionary
// ---------------------------------------------------------------------------

/// No text comes before itself.
pub proof fn lemma_lex_irreflexive(a: Seq<char>)
    ensures
        !lex_lt(a, a),
    decreases a.len(),
{
    if a.len() > 0 {
        lemma_lex_irreflexive(a.skip(1));
    }
}

/// What comes before a text comes before everything behind that text.
pub proof fn lemma_lex_transitive(a: Seq<char>, b: Seq<char>, c: Seq<char>)
    requires
        lex_lt(a, b),
        lex_lt(b, c),
    ensures
        lex_lt(a, c),
    decreases a.len(),
{
    if a.len() > 0 && b.len() > 0 && c.len() > 0 {
        if a[0] == b[0] && b[0] == c[0] {
            lemma_lex_transitive(a.skip(1), b.skip(1), c.skip(1));
        }
    }
}

/// Of two different texts, one comes before the other.
pub proof fn lemma_lex_total(a: Seq<char>, b: Seq<char>)
    requires
        a != b,
    ensures
        lex_lt(a, b) || lex_lt(b, a),
    decreases a.len(),
{
    if a.len() > 0 && b.len() > 0 {
        if a[0] == b[0] {
            if a.skip(1) == b.skip(1) {
                assert(a =~= seq![a[0]] + a.skip(1));
                assert(b =~= seq![b[0]] + b.skip(1));
            }
            lemma_lex_total(a.skip(1), b.skip(1));
        }
    } else if a.len() == 0 && b.len() == 0 {
        assert(a =~= b);
    }
}

/// Places are written in one direction only.
pub proof fn lemma_key_before_asymmetric(keys: Seq<Seq<char>>, i: int, j: int)
    requires
        key_before(keys, i, j),
    ensures
        !key_before(keys, j, i),
{
    if lex_lt(keys[i], keys[j]) && lex_lt(keys[j], keys[i]) {
        lemma_lex_transitive(keys[i], keys[j], keys[i]);
    }
    lemma_lex_irreflexive(keys[i]);
}

/// What is written before a place is written before everything behind it.
pub proof fn lemma_key_before_transitive(keys: Seq<Seq<char>>, i: int, j: int, k: int)
    requires
        key_before(keys, i, j),
        key_before(keys, j, k),
    ensures
        key_before(keys, i, k),
{
    if lex_lt(keys[i], keys[j]) && lex_lt(keys[j], keys[k]) {
        lemma_lex_transitive(keys[i], keys[j], keys[k]);
    }
}

// ---------------------------------------------------------------------------
// The members in the order of their keys
// ---------------------------------------------------------------------------

/// The first `n` members in the order in which they are written.
pub open spec fn sorted_members(members: Seq<(Seq<char>, Json)>, n: int) -> Seq<
    (Seq<char>, Json),
> {
    Seq::new(n as nat, |r: int| members[key_order(keys_of(members), n)[r]])
}

/// The keys of the members grow from each member to the next.
pub open spec fn keys_grow(members: Seq<(Seq<char>, Json)>) -> bool {
    forall|i: int, j: int| 0 <= i < j < members.len() ==> lex_lt(members[i].0, members[j].0)
}

/// No place is written behind a place that it is written before.
pub open spec fn places_ordered(keys: Seq<Seq<char>>, order: Seq<int>) -> bool {
    forall|r: int, t: int| 0 <= r < t < order.len() ==> !key_before(keys, order[t], order[r])
}

/// The order of the first `n` places is sorted and holds no place twice.
pub proof fn lemma_key_order_sorted(keys: Seq<Seq<char>>, n: int)
    requires
        0 <= n <= keys.len(),
    ensures
        places_ordered(keys, key_order(keys, n)),
        forall|r: int, t: int|
            0 <= r < t < n ==> key_order(keys, n)[r] != key_order(keys, n)[t],
    decreases n,
{
    lemma_key_order(keys, n);
    if n > 0 {
        lemma_key_order_sorted(keys, n - 1);
        lemma_key_order(keys, n - 1);
        let before = key_order(keys, n - 1);
        let k = rank_position(keys, before, n - 1);
        lemma_rank_position(keys, before, n - 1);
        let after = before.insert(k, n - 1);
        assert forall|r: int, t: int| 0 <= r < t < after.len() implies !key_before(
            keys,
            after[t],
            after[r],
        ) by {
            if t == k {
                assert(after[r] == before[r]);
                assert(!key_before(keys, n - 1, before[r]));
            } else if r == k {
                assert(after[t] == before[t - 1]);
                if t - 1 > k {
                    assert(!key_before(keys, before[t - 1], before[k]));
                }
                if key_before(keys, before[t - 1], n - 1) {
                    if t - 1 == k {
                        lemma_key_before_asymmetric(keys, n - 1, before[k]);
                    } else {
                        lemma_key_before_transitive(keys, before[t - 1], n - 1, before[k]);
                    }
                }
            } else {
                let r0 = if r < k {
                    r
                } else {
                    r - 1
                };
                let t0 = if t < k {
                    t
                } else {
                    t - 1
                };
                assert(after[r] == before[r0]);
                assert(after[t] == before[t0]);
            }
        }
        assert forall|r: int, t: int| 0 <= r < t < n implies after[r] != after[t] by {
            let r0 = if r < k {
                r
            } else {
                r - 1
            };
            let t0 = if t < k {
                t
            } else {
                t - 1
            };
            if r != k {
                assert(after[r] == before[r0]);
                assert(0 <= before[r0] < n - 1);
            }
            if t != k {
                assert(after[t] == before[t0]);
                assert(0 <= before[t0] < n - 1);
            }
        }
    }
}

/// The members in the order of their keys are the members, each once.
pub proof fn lemma_sorted_members_permute(members: Seq<(Seq<char>, Json)>, n: int)
    requires
        0 <= n <= members.len(),
    ensures
        sorted_members(members, n).to_multiset() == members.take(n).to_multiset(),
    decreases n,
{
    let keys = keys_of(members);
    lemma_key_order(keys, n);
    if n == 0 {
        assert(sorted_members(members, n) =~= members.take(n));
    } else {
        lemma_sorted_members_permute(members, n - 1);
        lemma_key_order(keys, n - 1);
        let before = key_order(keys, n - 1);
        let k = rank_position(keys, before, n - 1);
        lemma_rank_position(keys, before, n - 1);
        let sorted_before = sorted_members(members, n - 1);
        assert(sorted_members(members, n) =~= sorted_before.insert(k, members[n - 1])) by {
            let after = before.insert(k, n - 1);
            assert forall|r: int| 0 <= r < n implies sorted_members(members, n)[r]
                == sorted_before.insert(k, members[n - 1])[r] by {
                if r < k {
                    assert(after[r] == before[r]);
                } else if r > k {
                    assert(after[r] == before[r - 1]);
                }
            }
        }
        vstd::seq_lib::to_multiset_insert(sorted_before, k, members[n - 1]);
        vstd::seq_lib::to_multiset_build(members.take(n - 1), members[n - 1]);
        assert(members.take(n - 1).push(members[n - 1]) =~= members.take(n));
    }
}

/// Where no key stands twice, the keys of the members in their written
/// order grow from each member to the next.
pub proof fn lemma_sorted_members_grow(members: Seq<(Seq<char>, Json)>)
    requires
        unique_keys(members),
    ensures
        keys_grow(sorted_members(members, members.len() as int)),
{
    let n = members.len() as int;
    let keys = keys_of(members);
    let order = key_order(keys, n);
    let sorted = sorted_members(members, n);
    lemma_key_order(keys, n);
    lemma_key_order_sorted(keys, n);
    assert forall|i: int, j: int| 0 <= i < j < sorted.len() implies lex_lt(
        sorted[i].0,
        sorted[j].0,
    ) by {
        let a = order[i];
        let b = order[j];
        assert(0 <= a < n && 0 <= b < n);
        assert(a != b);
        assert(members[a].0 != members[b].0) by {
            if a < b {
                assert(members[a].0 != members[b].0);
            } else {
                assert(members[b].0 != members[a].0);
            }
        }
        assert(keys[a] == members[a].0);
        assert(keys[b] == members[b].0);
        lemma_lex_total(keys[a], keys[b]);
        assert(!key_before(keys, b, a));
    }
}

/// Members whose keys grow are fixed by what they hold: two such lists with
/// the same members are the same list.
pub proof fn lemma_growing_unique(x: Seq<(Seq<char>, Json)>, y: Seq<(Seq<char>, Json)>)
    requires
        keys_grow(x),
        keys_grow(y),
        x.to_multiset() == y.to_multiset(),
    ensures
        x == y,
    decreases x.len(),
{
    vstd::seq_lib::to_multiset_len(x);
    vstd::seq_lib::to_multiset_len(y);
    if x.len() == 0 {
        assert(x =~= y);
    } else {
        vstd::seq_lib::to_multiset_contains(y, x[0]);
        vstd::seq_lib::to_multiset_contains(x, x[0]);
        vstd::seq_lib::to_multiset_contains(x, y[0]);
        vstd::seq_lib::to_multiset_contains(y, y[0]);
        assert(x.contains(x[0]));
        assert(y.contains(y[0]));
        let j = choose|j: int| 0 <= j < y.len() && y[j] == x[0];
        let i = choose|i: int| 0 <= i < x.len() && x[i] == y[0];
        if j > 0 {
            assert(lex_lt(y[0].0, y[j].0));
            if i > 0 {
                assert(lex_lt(x[0].0, x[i].0));
                lemma_lex_transitive(x[0].0, y[0].0, x[0].0);
            }
            lemma_lex_irreflexive(x[0].0);
        }
        assert(x[0] == y[0]);
        vstd::seq_lib::to_multiset_remove(x, 0);
        vstd::seq_lib::to_multiset_remove(y, 0);
        assert(x.remove(0) =~= x.skip(1));
        assert(y.remove(0) =~= y.skip(1));
        assert forall|a: int, b: int| 0 <= a < b < x.skip(1).len() implies lex_lt(
            x.skip(1)[a].0,
            x.skip(1)[b].0,
        ) by {
            assert(lex_lt(x[a + 1].0, x[b + 1].0));
        }
        assert forall|a: int, b: int| 0 <= a < b < y.skip(1).len() implies lex_lt(
            y.skip(1)[a].0,
            y.skip(1)[b].0,
        ) by {
            assert(lex_lt(y[a + 1].0, y[b + 1].0));
        }
        lemma_growing_unique(x.skip(1), y.skip(1));
        assert(x =~= seq![x[0]] + x.skip(1));
        assert(y =~= seq![y[0]] + y.skip(1));
    }
}

/// The canonical form of an object does not depend on the order of its
/// members: two objects that hold the same members, each key once, have the
/// same canonical text and the same hash.
pub proof fn lemma_canonical_ignores_member_order(
    a: Seq<(Seq<char>, Json)>,
    b: Seq<(Seq<char>, Json)>,
)
    requires
        unique_keys(a),
        unique_keys(b),
        a.to_multiset() == b.to_multiset(),
    ensures
        canonical(Json::Object(a)) == canonical(Json::Object(b)),
        canonical_hash(Json::Object(a)) == canonical_hash(Json::Object(b)),
{
    vstd::seq_lib::to_multiset_len(a);
    vstd::seq_lib::to_multiset_len(b);
    let n = a.len() as int;
    lemma_sorted_members_permute(a, n);
    lemma_sorted_members_permute(b, n);
    assert(a.take(n) =~= a);
    assert(b.take(n) =~= b);
    lemma_sorted_members_grow(a);
    lemma_sorted_members_grow(b);
    lemma_growing_unique(sorted_members(a, n), sorted_members(b, n));
    lemma_key_order(keys_of(a), n);
    lemma_key_order(keys_of(b), n);
    assert(member_texts(a) =~= member_texts(b)) by {
        assert forall|r: int| 0 <= r < n implies member_texts(a)[r] == member_texts(b)[r] by {
            assert(sorted_members(a, n)[r] == sorted_members(b, n)[r]);
        }
    }
}

} // verus!
