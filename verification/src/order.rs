//! Ranking by key: the stable, descending order in which candidates are
//! tried and reported.

use vstd::prelude::*;

verus! {

/// Index `i` comes before index `j`: its key is higher, or the keys are equal
/// and it is the earlier one.
pub open spec fn before(keys: Seq<int>, i: int, j: int) -> bool {
    keys[i] > keys[j] || (keys[i] == keys[j] && i < j)
}

/// Where an index with the given key is put into `order`: behind the leading
/// entries whose key is at least as high.
pub open spec fn slot(keys: Seq<int>, order: Seq<int>, key: int) -> int
    decreases order.len(),
{
    if order.len() == 0 || keys[order.first()] < key {
        0
    } else {
        1 + slot(keys, order.drop_first(), key)
    }
}

/// The indices of `keys` from the highest key to the lowest, indices of equal
/// keys in ascending order.
pub open spec fn ranking(keys: Seq<int>) -> Seq<int>
    decreases keys.len(),
{
    if keys.len() == 0 {
        Seq::empty()
    } else {
        let rest = ranking(keys.drop_last());
        rest.insert(slot(keys, rest, keys.last()), keys.len() - 1)
    }
}

/// `order` names every index below `n` exactly once.
pub open spec fn is_permutation(order: Seq<int>, n: int) -> bool {
    &&& order.len() == n
    &&& forall|k: int| 0 <= k < order.len() ==> 0 <= #[trigger] order[k] < n
    &&& forall|i: int| 0 <= i < n ==> #[trigger] order.contains(i)
    &&& forall|a: int, b: int|
        0 <= a < b < order.len() ==> #[trigger] order[a] != #[trigger] order[b]
}

/// The items in the given order.
pub open spec fn arranged<T>(items: Seq<T>, order: Seq<int>) -> Seq<T> {
    Seq::new(order.len(), |k: int| items[order[k]])
}

/// The keys as integers.
pub open spec fn keys_view(keys: Seq<i128>) -> Seq<int> {
    Seq::new(keys.len(), |k: int| keys[k] as int)
}

/// The indices as integers.
pub open spec fn order_view(order: Seq<usize>) -> Seq<int> {
    Seq::new(order.len(), |k: int| order[k] as int)
}

/// The slot is the position of the first entry with a lower key.
proof fn lemma_slot(keys: Seq<int>, order: Seq<int>, key: int, j: int)
    requires
        0 <= j <= order.len(),
        forall|t: int| 0 <= t < j ==> keys[#[trigger] order[t]] >= key,
        j < order.len() ==> keys[order[j]] < key,
    ensures
        slot(keys, order, key) == j,
    decreases j,
{
    if j > 0 {
        assert(keys[order[0]] >= key);
        assert forall|t: int| 0 <= t < j - 1 implies keys[#[trigger] order.drop_first()[t]]
            >= key by {
            assert(order.drop_first()[t] == order[t + 1]);
        }
        if j < order.len() {
            assert(order.drop_first()[j - 1] == order[j]);
        }
        lemma_slot(keys, order.drop_first(), key, j - 1);
    }
}

/// The slot lies within the order; the entries before it have keys at least
/// as high, the entry at it a lower one.
proof fn lemma_slot_bounds(keys: Seq<int>, order: Seq<int>, key: int)
    ensures
        0 <= slot(keys, order, key) <= order.len(),
        forall|t: int| 0 <= t < slot(keys, order, key) ==> keys[#[trigger] order[t]] >= key,
        slot(keys, order, key) < order.len() ==> keys[order[slot(keys, order, key)]] < key,
    decreases order.len(),
{
    if !(order.len() == 0 || keys[order.first()] < key) {
        lemma_slot_bounds(keys, order.drop_first(), key);
        let inner = slot(keys, order.drop_first(), key);
        assert forall|t: int| 0 <= t < inner + 1 implies keys[#[trigger] order[t]] >= key by {
            if t > 0 {
                assert(order.drop_first()[t - 1] == order[t]);
            }
        }
        if inner + 1 < order.len() {
            assert(order.drop_first()[inner] == order[inner + 1]);
        }
    }
}

/// The ranking names every index exactly once, and each entry comes before
/// all later ones: a higher key first, and of two equal keys the one that came
/// first in `keys`.
pub proof fn lemma_ranking(keys: Seq<int>)
    ensures
        is_permutation(ranking(keys), keys.len() as int),
        is_ranked(keys, ranking(keys)),
    decreases keys.len(),
{
    if keys.len() > 0 {
        let shorter = keys.drop_last();
        let rest = ranking(shorter);
        let key = keys.last();
        let newest = keys.len() - 1;
        let at = slot(keys, rest, key);
        let full = ranking(keys);
        lemma_ranking(shorter);
        lemma_slot_bounds(keys, rest, key);
        assert(full == rest.insert(at, newest));
        assert forall|k: int| 0 <= k < full.len() implies 0 <= #[trigger] full[k] < keys.len() by {
            if k < at {
                assert(full[k] == rest[k]);
            } else if k > at {
                assert(full[k] == rest[k - 1]);
            }
        }
        assert forall|i: int| 0 <= i < keys.len() implies #[trigger] full.contains(i) by {
            if i == newest {
                assert(full[at] == i);
            } else {
                assert(rest.contains(i));
                let k = choose|k: int| 0 <= k < rest.len() && rest[k] == i;
                if k < at {
                    assert(full[k] == i);
                } else {
                    assert(full[k + 1] == i);
                }
            }
        }
        assert forall|a: int, b: int| 0 <= a < b < full.len() implies before(
            keys,
            #[trigger] full[a],
            #[trigger] full[b],
        ) && full[a] != full[b] by {
            let ra = if a < at {
                a
            } else {
                a - 1
            };
            let rb = if b < at {
                b
            } else {
                b - 1
            };
            if a != at {
                assert(full[a] == rest[ra]);
                assert(0 <= rest[ra] < shorter.len());
                assert(shorter[rest[ra]] == keys[rest[ra]]);
            }
            if b != at {
                assert(full[b] == rest[rb]);
                assert(0 <= rest[rb] < shorter.len());
                assert(shorter[rest[rb]] == keys[rest[rb]]);
            }
            if a == at {
                // the newest index before a later entry: that entry's key is lower
                assert(full[a] == newest);
                if at < rb {
                    assert(before(shorter, rest[at], rest[rb]));
                    assert(0 <= rest[at] < shorter.len());
                    assert(shorter[rest[at]] == keys[rest[at]]);
                }
            } else if b == at {
                assert(full[b] == newest);
                assert(keys[rest[ra]] >= key);
            } else {
                assert(before(shorter, rest[ra], rest[rb]));
            }
        }
    }
}

/// `order` runs from the highest key to the lowest, indices of equal keys in
/// ascending order.
pub open spec fn is_ranked(keys: Seq<int>, order: Seq<int>) -> bool {
    forall|a: int, b: int|
        0 <= a < b < order.len() ==> before(keys, #[trigger] order[a], #[trigger] order[b])
}

/// There is only one way to rank the indices of `keys`: an order that names
/// every index once and runs from the highest key to the lowest, equal keys
/// in ascending order of their indices, is the ranking.
pub proof fn lemma_ranking_unique(keys: Seq<int>, order: Seq<int>)
    requires
        is_permutation(order, keys.len() as int),
        is_ranked(keys, order),
    ensures
        order == ranking(keys),
    decreases keys.len(),
{
    if keys.len() == 0 {
        assert(order =~= ranking(keys));
    } else {
        let shorter = keys.drop_last();
        let newest = keys.len() - 1;
        let key = keys.last();
        assert(order.contains(newest));
        let at = choose|k: int| 0 <= k < order.len() && order[k] == newest;
        let rest = order.remove(at);
        assert forall|k: int| 0 <= k < rest.len() implies 0 <= #[trigger] rest[k] < shorter.len() by {
            let from = if k < at {
                k
            } else {
                k + 1
            };
            assert(rest[k] == order[from]);
            if from < at {
                assert(order[from] != order[at]);
            } else {
                assert(order[at] != order[from]);
            }
        }
        assert forall|i: int| 0 <= i < shorter.len() implies #[trigger] rest.contains(i) by {
            assert(order.contains(i));
            let k = choose|k: int| 0 <= k < order.len() && order[k] == i;
            if k < at {
                assert(rest[k] == i);
            } else {
                assert(rest[k - 1] == i);
            }
        }
        assert forall|a: int, b: int| 0 <= a < b < rest.len() implies before(
            shorter,
            #[trigger] rest[a],
            #[trigger] rest[b],
        ) && rest[a] != rest[b] by {
            let fa = if a < at {
                a
            } else {
                a + 1
            };
            let fb = if b < at {
                b
            } else {
                b + 1
            };
            assert(rest[a] == order[fa]);
            assert(rest[b] == order[fb]);
            assert(before(keys, order[fa], order[fb]));
            assert(order[fa] != order[fb]);
            assert(0 <= rest[a] < shorter.len());
            assert(0 <= rest[b] < shorter.len());
        }
        lemma_ranking_unique(shorter, rest);
        assert forall|t: int| 0 <= t < at implies keys[#[trigger] rest[t]] >= key by {
            assert(rest[t] == order[t]);
            assert(before(keys, order[t], order[at]));
        }
        if at < rest.len() {
            assert(rest[at] == order[at + 1]);
            assert(before(keys, order[at], order[at + 1]));
            assert(order[at] != order[at + 1]);
        }
        lemma_slot(keys, rest, key, at);
        assert(order =~= rest.insert(at, newest));
    }
}

/// The indices of `keys` from the highest key to the lowest, indices of equal
/// keys in ascending order.
pub fn rank(keys: &Vec<i128>) -> (order: Vec<usize>)
    ensures
        order_view(order@) == ranking(keys_view(keys@)),
{
    let mut order: Vec<usize> = Vec::new();
    let mut i: usize = 0;
    while i < keys.len()
        invariant
            i <= keys.len(),
            order@.len() == i,
            forall|k: int| 0 <= k < order@.len() ==> #[trigger] order@[k] < i,
            order_view(order@) == ranking(keys_view(keys@).take(i as int)),
        decreases keys.len() - i,
    {
        let mut j: usize = 0;
        while j < order.len() && keys[order[j]] >= keys[i]
            invariant
                j <= order@.len(),
                i < keys.len(),
                forall|k: int| 0 <= k < order@.len() ==> #[trigger] order@[k] < i,
                forall|t: int| 0 <= t < j ==> keys@[#[trigger] order@[t] as int] >= keys@[i as int],
            decreases order@.len() - j,
        {
            j = j + 1;
        }
        proof {
            let prefix = keys_view(keys@).take(i + 1);
            let rest = order_view(order@);
            assert(prefix.drop_last() == keys_view(keys@).take(i as int));
            assert(prefix.last() == keys@[i as int]);
            assert forall|t: int| 0 <= t < j implies prefix[#[trigger] rest[t]]
                >= prefix.last() by {
                assert(rest[t] == order@[t]);
            }
            if j < order.len() {
                assert(rest[j as int] == order@[j as int]);
                assert(prefix[rest[j as int]] < prefix.last());
            }
            lemma_slot(prefix, rest, prefix.last(), j as int);
            assert(order_view(order@.insert(j as int, i)) == rest.insert(j as int, i as int));
        }
        order.insert(j, i);
        assert forall|k: int| 0 <= k < order@.len() implies #[trigger] order@[k] < i + 1 by {
            if k < j {
            } else if k > j {
            }
        }
        i = i + 1;
    }
    assert(keys_view(keys@).take(i as int) == keys_view(keys@));
    order
}

} // verus!
