//! Move ordering: a stable ranking of candidates by their evaluation.

use vstd::prelude::*;

verus! {

/// Whether a candidate with key `a` must stand before one with key `b`: the
/// larger key first when descending, the smaller first otherwise.
pub open spec fn precedes(a: int, b: int, descending: bool) -> bool {
    if descending {
        a > b
    } else {
        a < b
    }
}

/// Where the candidate `x` goes among the candidates ranked so far: behind
/// every one that it must not stand before.
pub open spec fn slot(keys: Seq<int>, ranked: Seq<int>, x: int, descending: bool) -> int
    decreases ranked.len(),
{
    if ranked.len() > 0 && precedes(keys[x], keys[ranked.last()], descending) {
        slot(keys, ranked.drop_last(), x, descending)
    } else {
        ranked.len() as int
    }
}

/// The first `n` candidates in the order of their keys. Candidates with equal
/// keys keep the order in which they came.
pub open spec fn ranking(keys: Seq<int>, n: int, descending: bool) -> Seq<int>
    decreases n,
{
    if n <= 0 {
        Seq::empty()
    } else {
        let ranked = ranking(keys, n - 1, descending);
        ranked.insert(slot(keys, ranked, n - 1, descending), n - 1)
    }
}

/// The keys as integers.
pub open spec fn ints(keys: Seq<i64>) -> Seq<int> {
    Seq::new(keys.len(), |i: int| keys[i] as int)
}

/// The indices as integers.
pub open spec fn places(order: Seq<usize>) -> Seq<int> {
    Seq::new(order.len(), |i: int| order[i] as int)
}

/// A slot lies within the ranked candidates or right behind them.
pub proof fn lemma_slot(keys: Seq<int>, ranked: Seq<int>, x: int, descending: bool)
    ensures
        0 <= slot(keys, ranked, x, descending) <= ranked.len(),
    decreases ranked.len(),
{
    if ranked.len() > 0 && precedes(keys[x], keys[ranked.last()], descending) {
        lemma_slot(keys, ranked.drop_last(), x, descending);
    }
}

/// A ranking of `n` candidates holds `n` places, each below `n`.
pub proof fn lemma_ranking(keys: Seq<int>, n: int, descending: bool)
    requires
        0 <= n,
    ensures
        ranking(keys, n, descending).len() == n,
        forall|i: int| 0 <= i < n ==> 0 <= #[trigger] ranking(keys, n, descending)[i] < n,
    decreases n,
{
    if n > 0 {
        lemma_ranking(keys, n - 1, descending);
        lemma_slot(keys, ranking(keys, n - 1, descending), n - 1, descending);
    }
}

/// Whether `order` ranks the first `n` candidates by their keys: every
/// candidate has one place, no candidate stands behind one that it must stand
/// before, and candidates with equal keys stand as they came.
pub open spec fn is_stable_ranking(keys: Seq<int>, n: int, descending: bool, order: Seq<int>) -> bool {
    &&& order.len() == n
    &&& forall|i: int| 0 <= i < n ==> 0 <= #[trigger] order[i] < n
    &&& forall|i: int, j: int| 0 <= i < j < n ==> #[trigger] order[i] != #[trigger] order[j]
    &&& forall|i: int, j: int|
        0 <= i < j < n ==> !precedes(keys[#[trigger] order[j]], keys[#[trigger] order[i]], descending)
    &&& forall|i: int, j: int|
        0 <= i < j < n && keys[#[trigger] order[i]] == keys[#[trigger] order[j]] ==> order[i]
            < order[j]
}

/// What a slot is: the candidate must stand before everything behind the
/// slot, and must not stand before what is right in front of it.
pub proof fn lemma_slot_splits(keys: Seq<int>, ranked: Seq<int>, x: int, descending: bool)
    ensures
        forall|i: int|
            slot(keys, ranked, x, descending) <= i < ranked.len() ==> precedes(
                keys[x],
                keys[#[trigger] ranked[i]],
                descending,
            ),
        slot(keys, ranked, x, descending) > 0 ==> !precedes(
            keys[x],
            keys[ranked[slot(keys, ranked, x, descending) - 1]],
            descending,
        ),
    decreases ranked.len(),
{
    lemma_slot(keys, ranked, x, descending);
    if ranked.len() > 0 && precedes(keys[x], keys[ranked.last()], descending) {
        lemma_slot_splits(keys, ranked.drop_last(), x, descending);
        lemma_slot(keys, ranked.drop_last(), x, descending);
        let at = slot(keys, ranked, x, descending);
        assert forall|i: int| at <= i < ranked.len() implies precedes(
            keys[x],
            keys[#[trigger] ranked[i]],
            descending,
        ) by {
            if i < ranked.len() - 1 {
                assert(ranked.drop_last()[i] == ranked[i]);
            }
        }
        if at > 0 {
            assert(ranked.drop_last()[at - 1] == ranked[at - 1]);
        }
    }
}

/// The ranking is the stable ranking by the keys.
///
/// It holds every candidate once, it is sorted (descending or ascending), and
/// candidates with equal keys keep the order in which they came.
pub proof fn lemma_ranking_is_stable(keys: Seq<int>, n: int, descending: bool)
    requires
        0 <= n,
    ensures
        is_stable_ranking(keys, n, descending, ranking(keys, n, descending)),
    decreases n,
{
    lemma_ranking(keys, n, descending);
    if n > 0 {
        let ranked = ranking(keys, n - 1, descending);
        let at = slot(keys, ranked, n - 1, descending);
        let order = ranking(keys, n, descending);
        lemma_ranking_is_stable(keys, n - 1, descending);
        lemma_ranking(keys, n - 1, descending);
        lemma_slot(keys, ranked, n - 1, descending);
        lemma_slot_splits(keys, ranked, n - 1, descending);
        assert(order == ranked.insert(at, n - 1));
        // Where the places of the longer ranking come from.
        assert forall|i: int| 0 <= i < n implies #[trigger] order[i] == if i < at {
            ranked[i]
        } else if i == at {
            n - 1
        } else {
            ranked[i - 1]
        } by {}
        assert forall|i: int, j: int| 0 <= i < j < n implies #[trigger] order[i]
            != #[trigger] order[j] by {
            if i != at && j != at {
                let a = if i < at { i } else { i - 1 };
                let b = if j < at { j } else { j - 1 };
                assert(ranked[a] != ranked[b]);
            }
        }
        assert forall|i: int, j: int| 0 <= i < j < n implies !precedes(
            keys[#[trigger] order[j]],
            keys[#[trigger] order[i]],
            descending,
        ) by {
            if i != at && j != at {
                let a = if i < at { i } else { i - 1 };
                let b = if j < at { j } else { j - 1 };
                assert(!precedes(keys[ranked[b]], keys[ranked[a]], descending));
            } else if j == at {
                // In front of the slot nothing must stand behind the newcomer.
                assert(!precedes(keys[n - 1], keys[ranked[at - 1]], descending));
                if i < at - 1 {
                    assert(!precedes(keys[ranked[at - 1]], keys[ranked[i]], descending));
                }
            } else {
                assert(precedes(keys[n - 1], keys[ranked[j - 1]], descending));
            }
        }
        assert forall|i: int, j: int|
            0 <= i < j < n && keys[#[trigger] order[i]] == keys[#[trigger] order[j]] implies order[i]
            < order[j] by {
            if i != at && j != at {
                let a = if i < at { i } else { i - 1 };
                let b = if j < at { j } else { j - 1 };
                assert(keys[ranked[a]] == keys[ranked[b]]);
                assert(ranked[a] < ranked[b]);
            } else if i == at {
                assert(precedes(keys[n - 1], keys[ranked[j - 1]], descending));
            }
        }
    }
}

/// Whether the candidate `a` has a place in `order`.
pub open spec fn has_place(order: Seq<int>, a: int) -> bool {
    exists|i: int| 0 <= i < order.len() && #[trigger] order[i] == a
}

/// Every candidate has a place in the ranking.
pub proof fn lemma_ranking_covers(keys: Seq<int>, n: int, descending: bool)
    requires
        0 <= n,
    ensures
        forall|a: int| 0 <= a < n ==> #[trigger] has_place(ranking(keys, n, descending), a),
    decreases n,
{
    lemma_ranking(keys, n, descending);
    if n > 0 {
        let ranked = ranking(keys, n - 1, descending);
        let at = slot(keys, ranked, n - 1, descending);
        let order = ranking(keys, n, descending);
        lemma_ranking_covers(keys, n - 1, descending);
        lemma_ranking(keys, n - 1, descending);
        lemma_slot(keys, ranked, n - 1, descending);
        assert(order == ranked.insert(at, n - 1));
        assert forall|a: int| 0 <= a < n implies #[trigger] has_place(order, a) by {
            if a == n - 1 {
                assert(order[at] == a);
            } else {
                assert(has_place(ranked, a));
                let i = choose|i: int| 0 <= i < ranked.len() && #[trigger] ranked[i] == a;
                if i < at {
                    assert(order[i] == a);
                } else {
                    assert(order[i + 1] == a);
                }
            }
        }
    }
}

/// The places of the candidates in the order of their keys: descending or
/// ascending, and stable.
pub fn rank(keys: &Vec<i64>, descending: bool) -> (order: Vec<usize>)
    ensures
        places(order@) == ranking(ints(keys@), keys@.len() as int, descending),
        is_stable_ranking(ints(keys@), keys@.len() as int, descending, places(order@)),
        order@.len() == keys@.len(),
        forall|i: int| 0 <= i < order@.len() ==> (#[trigger] order@[i]) < keys@.len(),
{
    proof {
        lemma_ranking_is_stable(ints(keys@), keys@.len() as int, descending);
    }
    let mut order: Vec<usize> = Vec::new();
    let mut x: usize = 0;
    while x < keys.len()
        invariant
            x <= keys@.len(),
            order@.len() == x,
            places(order@) == ranking(ints(keys@), x as int, descending),
            forall|i: int| 0 <= i < order@.len() ==> (#[trigger] order@[i]) < x,
        decreases keys@.len() - x,
    {
        let ghost ranked = places(order@);
        let mut at: usize = order.len();
        let mut moving = true;
        assert(ranked.take(at as int) =~= ranked);
        while at > 0 && moving
            invariant
                x < keys@.len(),
                order@.len() == x,
                ranked == places(order@),
                forall|i: int| 0 <= i < order@.len() ==> (#[trigger] order@[i]) < x,
                at <= order@.len(),
                slot(ints(keys@), ranked, x as int, descending) == slot(
                    ints(keys@),
                    ranked.take(at as int),
                    x as int,
                    descending,
                ),
                !moving ==> slot(ints(keys@), ranked, x as int, descending) == at,
            decreases at + if moving { 1int } else { 0 },
        {
            let there = order[at - 1];
            let before = if descending {
                keys[x] > keys[there]
            } else {
                keys[x] < keys[there]
            };
            proof {
                let head = ranked.take(at as int);
                assert(head.last() == ranked[at - 1]);
                assert(head.drop_last() =~= ranked.take(at - 1));
                assert(ints(keys@)[x as int] == keys@[x as int]);
                assert(ints(keys@)[there as int] == keys@[there as int]);
            }
            if before {
                at = at - 1;
            } else {
                moving = false;
            }
        }
        proof {
            if moving {
                assert(ranked.take(0).len() == 0);
            }
        }
        order.insert(at, x);
        proof {
            assert(places(order@) =~= ranked.insert(at as int, x as int));
        }
        x = x + 1;
    }
    order
}

} // verus!
