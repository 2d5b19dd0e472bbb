//! The order in which records are visited: by ascending value of a number
//! that each carries (its day, or its daily identifier), records of the same
//! value in the order in which they stand.

use crate::record::{dates_of, entries_view, lemma_entries_view, BujoObject};
use vstd::prelude::*;

verus! {

/// Where a record with the value `x` is put into `order`, a sequence of
/// positions sorted by their values in `values`: behind the last position
/// whose value is not larger than `x`.
pub open spec fn slot(order: Seq<int>, values: Seq<int>, x: int) -> nat
    decreases order.len(),
{
    if order.len() == 0 {
        0
    } else if values[order.last()] <= x {
        order.len()
    } else {
        slot(order.drop_last(), values, x)
    }
}

/// The visiting order of the first `k` positions of `values`: each position
/// in turn is put behind the positions whose value is not larger.
pub open spec fn order_upto(values: Seq<int>, k: nat) -> Seq<int>
    decreases k,
{
    if k == 0 {
        Seq::empty()
    } else {
        let before = order_upto(values, (k - 1) as nat);
        before.insert(slot(before, values, values[k - 1]) as int, k - 1)
    }
}

/// The visiting order of `values`: the positions `0..values.len()`, sorted
/// by ascending value, positions of the same value in ascending order.
pub open spec fn ascending_order(values: Seq<int>) -> Seq<int> {
    order_upto(values, values.len())
}

/// Whether `order` names each of the positions `0..n` exactly once.
pub open spec fn is_arrangement(order: Seq<int>, n: nat) -> bool {
    &&& order.len() == n
    &&& forall|j: int| 0 <= j < n ==> 0 <= #[trigger] order[j] < n
    &&& forall|i: int, j: int| 0 <= i < j < n ==> #[trigger] order[i] != #[trigger] order[j]
    &&& forall|p: int| 0 <= p < n ==> #[trigger] order.contains(p)
}

/// Whether `order` visits the numbers of `values` in ascending order and
/// equal numbers in the order of their positions.
pub open spec fn is_stably_sorted(order: Seq<int>, values: Seq<int>) -> bool {
    forall|i: int, j: int|
        0 <= i < j < order.len() ==> {
            ||| values[#[trigger] order[i]] < values[#[trigger] order[j]]
            ||| (values[order[i]] == values[order[j]] && order[i] < order[j])
        }
}

/// What `slot` returns splits a sorted order in two: the positions in front
/// of it have values not larger than `x`, those from it on have larger ones.
pub proof fn lemma_slot(order: Seq<int>, values: Seq<int>, x: int)
    requires
        forall|i: int, j: int|
            0 <= i < j < order.len() ==> values[#[trigger] order[i]] <= values[#[trigger] order[j]],
    ensures
        slot(order, values, x) <= order.len(),
        forall|i: int| 0 <= i < slot(order, values, x) ==> values[#[trigger] order[i]] <= x,
        forall|i: int| slot(order, values, x) <= i < order.len() ==> values[#[trigger] order[i]] > x,
    decreases order.len(),
{
    if order.len() > 0 && values[order.last()] > x {
        let front = order.drop_last();
        assert forall|i: int, j: int| 0 <= i < j < front.len() implies values[#[trigger] front[i]]
            <= values[#[trigger] front[j]] by {
            assert(front[i] == order[i] && front[j] == order[j]);
        }
        lemma_slot(front, values, x);
        assert forall|i: int| 0 <= i < slot(order, values, x) implies values[#[trigger] order[i]]
            <= x by {
            assert(front[i] == order[i]);
        }
        assert forall|i: int| slot(order, values, x) <= i < order.len() implies values[
            #[trigger] order[i]
        ] > x by {
            if i < front.len() {
                assert(front[i] == order[i]);
            }
        }
    } else if order.len() > 0 {
        assert forall|i: int| 0 <= i < order.len() implies values[#[trigger] order[i]] <= x by {
            if i < order.len() - 1 {
                assert(values[order[i]] <= values[order[order.len() - 1]]);
            }
        }
    }
}

/// The visiting order of the first `k` positions names each of them once,
/// ascends by value and keeps positions of the same value in order.
pub proof fn lemma_order_upto(values: Seq<int>, k: nat)
    requires
        k <= values.len(),
    ensures
        is_arrangement(order_upto(values, k), k),
        is_stably_sorted(order_upto(values, k), values),
    decreases k,
{
    if k > 0 {
        let before = order_upto(values, (k - 1) as nat);
        lemma_order_upto(values, (k - 1) as nat);
        let x = values[k - 1];
        assert forall|i: int, j: int| 0 <= i < j < before.len() implies values[#[trigger] before[i]]
            <= values[#[trigger] before[j]] by {}
        lemma_slot(before, values, x);
        let p = slot(before, values, x) as int;
        let order = before.insert(p, k - 1);
        assert(order == order_upto(values, k));
        assert(order.len() == k);
        assert forall|j: int| 0 <= j < k implies order[j] == (if j < p {
            before[j]
        } else if j == p {
            k - 1
        } else {
            before[j - 1]
        }) by {}
        assert forall|j: int| 0 <= j < k implies 0 <= #[trigger] order[j] < k by {}
        assert forall|i: int, j: int| 0 <= i < j < k implies #[trigger] order[i]
            != #[trigger] order[j] by {}
        assert forall|q: int| 0 <= q < k implies #[trigger] order.contains(q) by {
            if q == k - 1 {
                assert(order[p] == q);
            } else {
                assert(before.contains(q));
                let j = choose|j: int| 0 <= j < before.len() && before[j] == q;
                if j < p {
                    assert(order[j] == q);
                } else {
                    assert(order[j + 1] == q);
                }
            }
        }
        assert forall|i: int, j: int| 0 <= i < j < order.len() implies {
            ||| values[#[trigger] order[i]] < values[#[trigger] order[j]]
            ||| (values[order[i]] == values[order[j]] && order[i] < order[j])
        } by {
            if j < p {
                assert(order[i] == before[i] && order[j] == before[j]);
            } else if j == p {
                assert(order[i] == before[i]);
                assert(values[before[i]] <= x);
            } else if i < p {
                assert(order[i] == before[i] && order[j] == before[j - 1]);
            } else if i == p {
                assert(order[j] == before[j - 1]);
                assert(values[before[j - 1]] > x);
            } else {
                assert(order[i] == before[i - 1] && order[j] == before[j - 1]);
            }
        }
    }
}

/// The visiting order names each position once, ascends by value and keeps
/// positions of the same value in order.
pub proof fn lemma_ascending_order(values: Seq<int>)
    ensures
        is_arrangement(ascending_order(values), values.len()),
        is_stably_sorted(ascending_order(values), values),
{
    lemma_order_upto(values, values.len());
}

/// The positions of `order` as mathematical integers.
pub open spec fn positions(order: Seq<usize>) -> Seq<int> {
    Seq::new(order.len(), |i: int| order[i] as int)
}

/// The numbers of `values` as mathematical integers.
pub open spec fn numbers(values: Seq<i64>) -> Seq<int> {
    Seq::new(values.len(), |i: int| values[i] as int)
}

/// Computes the visiting order of `values`.
pub fn sorted_positions(values: &Vec<i64>) -> (order: Vec<usize>)
    ensures
        positions(order@) == ascending_order(numbers(values@)),
        order@.len() == values@.len(),
        forall|j: int| 0 <= j < order@.len() ==> 0 <= #[trigger] order@[j] < values@.len(),
{
    let ghost keys = numbers(values@);
    let n = values.len();
    let mut order: Vec<usize> = Vec::new();
    let mut i: usize = 0;
    proof {
        assert(positions(order@) =~= order_upto(keys, 0));
    }
    while i < n
        invariant
            i <= n,
            n == values@.len(),
            keys == numbers(values@),
            positions(order@) == order_upto(keys, i as nat),
            order@.len() == i,
            forall|j: int| 0 <= j < i ==> 0 <= #[trigger] order@[j] < i,
        decreases n - i,
    {
        let x = values[i];
        let ghost before = positions(order@);
        let mut p: usize = order.len();
        assert(before.take(p as int) =~= before);
        while p > 0 && values[order[p - 1]] > x
            invariant
                p <= order@.len(),
                order@.len() == i,
                i < n,
                n == values@.len(),
                keys == numbers(values@),
                before == positions(order@),
                x == keys[i as int],
                forall|j: int| 0 <= j < i ==> 0 <= #[trigger] order@[j] < i,
                slot(before, keys, x as int) == slot(before.take(p as int), keys, x as int),
            decreases p,
        {
            proof {
                let part = before.take(p as int);
                assert(part.last() == order@[p - 1] as int);
                assert(part.drop_last() =~= before.take(p - 1));
            }
            p -= 1;
        }
        proof {
            let part = before.take(p as int);
            if p > 0 {
                assert(part.last() == order@[p - 1] as int);
            }
            assert(slot(before, keys, x as int) == p);
        }
        order.insert(p, i);
        proof {
            assert(positions(order@) =~= before.insert(p as int, i as int));
            assert forall|j: int| 0 <= j < i + 1 implies 0 <= #[trigger] order@[j] < i + 1 by {
                if j < p {
                    assert(order@[j] == before[j]);
                } else if j > p {
                    assert(order@[j] == before[j - 1]);
                }
            }
        }
        i += 1;
    }
    order
}

/// Computes the order in which `entries` are visited for numbering: by
/// ascending day.
pub fn visiting_order(entries: &Vec<(i64, BujoObject)>) -> (order: Vec<usize>)
    ensures
        positions(order@) == ascending_order(dates_of(entries_view(entries@))),
        order@.len() == entries@.len(),
        forall|j: int| 0 <= j < order@.len() ==> 0 <= #[trigger] order@[j] < entries@.len(),
{
    let n = entries.len();
    let mut dates: Vec<i64> = Vec::new();
    let mut i: usize = 0;
    while i < n
        invariant
            i <= n,
            n == entries@.len(),
            dates@.len() == i,
            forall|j: int| 0 <= j < i ==> dates@[j] == (#[trigger] entries@[j]).1.current_date,
        decreases n - i,
    {
        dates.push(entries[i].1.current_date);
        i += 1;
    }
    proof {
        lemma_entries_view(entries@);
        assert(numbers(dates@) =~= dates_of(entries_view(entries@)));
    }
    sorted_positions(&dates)
}

} // verus!
