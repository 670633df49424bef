use vstd::prelude::*;
use vstd::relations::sorted_by;
use vstd::relations::total_ordering;

verus! {

/// Whether position `a` comes no later than `b`: its key is smaller or, with equal keys, it is
/// not the greater position.
pub open spec fn comes_first(keys: Seq<i64>, a: usize, b: usize) -> bool {
    keys[a as int] < keys[b as int] || keys[a as int] == keys[b as int] && a <= b
}

/// The order in which [`comes_first`] puts positions.
pub open spec fn by_key(keys: Seq<i64>) -> spec_fn(usize, usize) -> bool {
    |a: usize, b: usize| comes_first(keys, a, b)
}

/// The positions of `keys`, smallest key first; positions with equal keys keep their order.
pub open spec fn sorted_positions(keys: Seq<i64>) -> Seq<usize> {
    crate::fronts::positions(keys.len()).sort_by(by_key(keys))
}

proof fn lemma_by_key_total(keys: Seq<i64>)
    ensures
        total_ordering(by_key(keys)),
{
    let leq = by_key(keys);
    assert(forall|a: usize, b: usize| #[trigger] leq(a, b) == comes_first(keys, a, b));
}

/// What makes a sequence the sorted positions: it holds each position once, in order.
pub proof fn lemma_sorted_positions_unique(keys: Seq<i64>, order: Seq<usize>)
    requires
        order.to_multiset() == crate::fronts::positions(keys.len()).to_multiset(),
        forall|i: int, j: int|
            0 <= i < j < order.len() ==> comes_first(
                keys,
                #[trigger] order[i],
                #[trigger] order[j],
            ),
    ensures
        order == sorted_positions(keys),
{
    let leq = by_key(keys);
    let all = crate::fronts::positions(keys.len());
    lemma_by_key_total(keys);
    all.lemma_sort_by_ensures(leq);
    assert(sorted_by(order, leq)) by {
        assert forall|i: int, j: int| 0 <= i < j < order.len() implies #[trigger] leq(
            order[i],
            order[j],
        ) by {
            assert(comes_first(keys, order[i], order[j]));
        }
    }
    vstd::seq_lib::lemma_sorted_unique(order, sorted_positions(keys), leq);
}

/// The sorted positions hold each position once, and are in order.
pub proof fn lemma_sorted_positions(keys: Seq<i64>)
    requires
        keys.len() <= usize::MAX,
    ensures
        sorted_positions(keys).len() == keys.len(),
        sorted_positions(keys).no_duplicates(),
        sorted_positions(keys).to_multiset() == crate::fronts::positions(keys.len()).to_multiset(),
        forall|i: int|
            0 <= i < keys.len() ==> (#[trigger] sorted_positions(keys)[i]) < keys.len(),
        forall|p: usize| p < keys.len() ==> #[trigger] sorted_positions(keys).contains(p),
        forall|i: int, j: int|
            0 <= i < j < keys.len() ==> comes_first(
                keys,
                #[trigger] sorted_positions(keys)[i],
                #[trigger] sorted_positions(keys)[j],
            ),
{
    broadcast use vstd::seq_lib::group_to_multiset_ensures;

    let leq = by_key(keys);
    let all = crate::fronts::positions(keys.len());
    let order = sorted_positions(keys);
    lemma_by_key_total(keys);
    all.lemma_sort_by_ensures(leq);
    assert(all.to_multiset().len() == all.len());
    assert(order.to_multiset().len() == order.len());
    all.lemma_multiset_has_no_duplicates();
    assert(order.no_duplicates()) by {
        order.lemma_multiset_has_no_duplicates_conv();
    }
    assert forall|p: usize| p < keys.len() implies #[trigger] order.contains(p) by {
        assert(all[p as int] == p);
        assert(all.contains(p));
        assert(all.to_multiset().count(p) > 0);
        assert(order.to_multiset().count(p) > 0);
    }
    assert forall|i: int| 0 <= i < keys.len() implies (#[trigger] order[i]) < keys.len() by {
        assert(order.contains(order[i]));
        assert(all.contains(order[i]));
    }
    assert forall|i: int, j: int| 0 <= i < j < keys.len() implies comes_first(
        keys,
        #[trigger] order[i],
        #[trigger] order[j],
    ) by {
        assert(leq(order[i], order[j]));
    }
}

/// Sorts the positions of `keys` by key; positions with equal keys keep their order.
pub fn stable_order(keys: &Vec<i64>) -> (order: Vec<usize>)
    ensures
        order@ == sorted_positions(keys@),
{
    broadcast use vstd::seq_lib::group_to_multiset_ensures;

    let mut order: Vec<usize> = Vec::new();
    assert(order@ =~= crate::fronts::positions(0));
    for p in 0..keys.len()
        invariant
            order@.len() == p,
            order@.to_multiset() == crate::fronts::positions(p as nat).to_multiset(),
            forall|i: int| 0 <= i < p ==> (#[trigger] order@[i]) < p,
            forall|i: int, j: int|
                0 <= i < j < p ==> comes_first(keys@, #[trigger] order@[i], #[trigger] order@[j]),
    {
        broadcast use vstd::seq_lib::group_to_multiset_ensures;

        let mut slot: usize = p;
        while slot > 0 && keys[p] < keys[order[slot - 1]]
            invariant
                p < keys@.len(),
                slot <= p,
                order@.len() == p,
                forall|i: int| 0 <= i < p ==> (#[trigger] order@[i]) < p,
                forall|i: int|
                    slot <= i < p ==> keys@[p as int] < keys@[#[trigger] order@[i] as int],
            decreases slot,
        {
            slot = slot - 1;
        }
        let ghost before = order@;
        proof {
            if slot > 0 {
                assert forall|i: int| 0 <= i < slot implies comes_first(
                    keys@,
                    #[trigger] before[i],
                    p,
                ) by {
                    if i < slot - 1 {
                        assert(comes_first(keys@, before[i], before[slot - 1]));
                    }
                }
            }
        }
        order.insert(slot, p);
        proof {
            let all = crate::fronts::positions(p as nat);
            let all2 = crate::fronts::positions((p + 1) as nat);
            assert(all2 =~= all.push(p));
            assert(order@ == before.insert(slot as int, p));
            assert(order@.to_multiset() =~= before.to_multiset().insert(p));
            assert(all2.to_multiset() =~= all.to_multiset().insert(p));
            assert forall|i: int| 0 <= i < p + 1 implies (#[trigger] order@[i]) < p + 1 by {
                if i < slot {
                    assert(order@[i] == before[i]);
                } else if i > slot {
                    assert(order@[i] == before[i - 1]);
                }
            }
            assert forall|i: int, j: int| 0 <= i < j < p + 1 implies comes_first(
                keys@,
                #[trigger] order@[i],
                #[trigger] order@[j],
            ) by {
                let a = if i < slot {
                    i
                } else {
                    i - 1
                };
                let b = if j < slot {
                    j
                } else {
                    j - 1
                };
                if i == slot {
                    assert(order@[j] == before[b]);
                } else if j == slot {
                    assert(order@[i] == before[a]);
                } else {
                    assert(order@[i] == before[a]);
                    assert(order@[j] == before[b]);
                    assert(comes_first(keys@, before[a], before[b]));
                }
            }
        }
    }
    proof {
        lemma_sorted_positions_unique(keys@, order@);
    }
    order
}

/// Sorting positions by key gives each position once, smaller keys first, and positions with equal
/// keys in their own order.
pub proof fn law_positions_are_sorted_by_key(keys: Seq<i64>)
    requires
        keys.len() <= usize::MAX,
    ensures
        sorted_positions(keys).len() == keys.len(),
        sorted_positions(keys).no_duplicates(),
        forall|i: int| 0 <= i < keys.len() ==> (#[trigger] sorted_positions(keys)[i]) < keys.len(),
        forall|i: int, j: int|
            0 <= i < j < keys.len() ==> {
                let a = #[trigger] sorted_positions(keys)[i];
                let b = #[trigger] sorted_positions(keys)[j];
                keys[a as int] < keys[b as int] || keys[a as int] == keys[b as int] && a < b
            },
{
    lemma_sorted_positions(keys);
    let order = sorted_positions(keys);
    assert forall|i: int, j: int| 0 <= i < j < keys.len() implies {
        let a = #[trigger] order[i];
        let b = #[trigger] order[j];
        keys[a as int] < keys[b as int] || keys[a as int] == keys[b as int] && a < b
    } by {
        assert(comes_first(keys, order[i], order[j]));
        assert(order[i] != order[j]);
    }
}

} // verus!
