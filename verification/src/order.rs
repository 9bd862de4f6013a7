//! Stable ordering by specificity.

use vstd::prelude::*;
use crate::stylesheet::{higher, is_higher, Specificity};

verus! {

/// Whether an item of key `later` must stand before an item of key
/// `earlier` that was written before it: when ordering from high to low,
/// where it is the higher; from low to high, where it is the lower.
pub open spec fn overtakes(later: Specificity, earlier: Specificity, descending: bool) -> bool {
    if descending {
        higher(later, earlier)
    } else {
        higher(earlier, later)
    }
}

/// Whether the item at index `i` stands before the item at index `j` once
/// the items are ordered: its key comes first in the direction asked for,
/// or the keys are equal and `i` is the smaller index.
pub open spec fn comes_before(keys: Seq<Specificity>, i: int, j: int, descending: bool) -> bool {
    overtakes(keys[i], keys[j], descending) || (keys[i] == keys[j] && i < j)
}

/// The order `order` with the index `i` put in: behind every index whose key
/// it does not overtake, before the ones at the end that it does.
pub open spec fn place(keys: Seq<Specificity>, order: Seq<int>, i: int, descending: bool) -> Seq<
    int,
>
    decreases order.len(),
{
    if order.len() > 0 && overtakes(keys[i], keys[order.last()], descending) {
        place(keys, order.drop_last(), i, descending).push(order.last())
    } else {
        order.push(i)
    }
}

/// The indices below `n` in the order in which a stable sort by `keys`
/// leaves them.
pub open spec fn stable_order(keys: Seq<Specificity>, n: nat, descending: bool) -> Seq<int>
    decreases n,
{
    if n == 0 {
        Seq::empty()
    } else {
        place(keys, stable_order(keys, (n - 1) as nat, descending), n - 1, descending)
    }
}

/// The items at the indices that `order` lists, in that order.
pub open spec fn arranged<T>(items: Seq<T>, order: Seq<int>) -> Seq<T> {
    Seq::new(order.len(), |a: int| items[order[a]])
}

/// Whether `order` lists the index `i`.
pub open spec fn lists(order: Seq<int>, i: int) -> bool {
    exists|a: int| 0 <= a < order.len() && order[a] == i
}

/// Whether `order` lists each index below `n` once.
pub open spec fn is_reordering(order: Seq<int>, n: nat) -> bool {
    &&& order.len() == n
    &&& forall|a: int| 0 <= a < n ==> 0 <= #[trigger] order[a] < n
    &&& forall|a: int, b: int| 0 <= a < b < n ==> order[a] != order[b]
    &&& forall|i: int| 0 <= i < n ==> #[trigger] lists(order, i)
}

/// Whether `order` lists indices so that each comes before the next ones.
pub open spec fn is_ordered(keys: Seq<Specificity>, order: Seq<int>, descending: bool) -> bool {
    forall|a: int, b: int|
        0 <= a < b < order.len() ==> comes_before(keys, order[a], order[b], descending)
}

/// Where `place` puts an index: at `at`, if it overtakes all from `at` on
/// and not the one before.
pub proof fn lemma_place_at(
    keys: Seq<Specificity>,
    order: Seq<int>,
    i: int,
    descending: bool,
    at: int,
)
    requires
        0 <= at <= order.len(),
        forall|t: int| at <= t < order.len() ==> overtakes(keys[i], keys[order[t]], descending),
        at > 0 ==> !overtakes(keys[i], keys[order[at - 1]], descending),
    ensures
        place(keys, order, i, descending) == order.subrange(0, at).push(i) + order.subrange(
            at,
            order.len() as int,
        ),
    decreases order.len(),
{
    let n = order.len() as int;
    if at < n {
        lemma_place_at(keys, order.drop_last(), i, descending, at);
        assert(order.drop_last().subrange(0, at) =~= order.subrange(0, at));
        assert((order.subrange(0, at).push(i) + order.drop_last().subrange(at, n - 1)).push(
            order.last(),
        ) =~= order.subrange(0, at).push(i) + order.subrange(at, n));
    } else {
        assert(order.subrange(0, at).push(i) + order.subrange(at, n) =~= order.push(i));
    }
}

/// Where an index goes among ordered ones: the place is there, and it is
/// the only one.
pub proof fn lemma_place_exists(keys: Seq<Specificity>, order: Seq<int>, i: int, descending: bool)
    ensures
        exists|at: int|
            {
                &&& 0 <= at <= order.len()
                &&& forall|t: int|
                    at <= t < order.len() ==> overtakes(keys[i], keys[order[t]], descending)
                &&& at > 0 ==> !overtakes(keys[i], keys[order[at - 1]], descending)
                &&& #[trigger] place(keys, order, i, descending) == order.subrange(0, at).push(i)
                    + order.subrange(at, order.len() as int)
            },
    decreases order.len(),
{
    let n = order.len() as int;
    if n > 0 && overtakes(keys[i], keys[order.last()], descending) {
        lemma_place_exists(keys, order.drop_last(), i, descending);
        let at = choose|at: int|
            {
                &&& 0 <= at <= n - 1
                &&& forall|t: int|
                    at <= t < n - 1 ==> overtakes(
                        keys[i],
                        keys[order.drop_last()[t]],
                        descending,
                    )
                &&& at > 0 ==> !overtakes(keys[i], keys[order.drop_last()[at - 1]], descending)
                &&& #[trigger] place(keys, order.drop_last(), i, descending)
                    == order.drop_last().subrange(0, at).push(i) + order.drop_last().subrange(
                    at,
                    n - 1,
                )
            };
        assert forall|t: int| at <= t < n implies overtakes(
            keys[i],
            keys[order[t]],
            descending,
        ) by {
            if t < n - 1 {
                assert(order[t] == order.drop_last()[t]);
            }
        }
        if at > 0 {
            assert(order[at - 1] == order.drop_last()[at - 1]);
        }
        lemma_place_at(keys, order, i, descending, at);
    } else {
        lemma_place_at(keys, order, i, descending, n);
    }
}

/// What a stable sort is: `stable_order` lists each index below `n` once,
/// keys come in the direction asked for, and of two items with equal keys the
/// one that was written first stays first.
pub proof fn lemma_stable_order(keys: Seq<Specificity>, n: nat, descending: bool)
    requires
        n <= keys.len(),
    ensures
        is_reordering(stable_order(keys, n, descending), n),
        is_ordered(keys, stable_order(keys, n, descending), descending),
    decreases n,
{
    if n > 0 {
        let before = stable_order(keys, (n - 1) as nat, descending);
        let i = n - 1;
        let after = stable_order(keys, n, descending);
        lemma_stable_order(keys, (n - 1) as nat, descending);
        lemma_place_exists(keys, before, i, descending);
        let at = choose|at: int|
            {
                &&& 0 <= at <= before.len()
                &&& forall|t: int|
                    at <= t < before.len() ==> overtakes(keys[i], keys[before[t]], descending)
                &&& at > 0 ==> !overtakes(keys[i], keys[before[at - 1]], descending)
                &&& #[trigger] place(keys, before, i, descending) == before.subrange(0, at).push(i)
                    + before.subrange(at, before.len() as int)
            };
        assert(after.len() == n);
        assert forall|a: int| 0 <= a < n implies after[a] == (if a < at {
            before[a]
        } else if a == at {
            i
        } else {
            before[a - 1]
        }) by {}
        assert forall|j: int| 0 <= j < n implies lists(after, j) by {
            if j == i {
                assert(after[at] == j);
            } else {
                assert(lists(before, j));
                let a0 = choose|a: int| 0 <= a < before.len() && before[a] == j;
                if a0 < at {
                    assert(after[a0] == j);
                } else {
                    assert(after[a0 + 1] == j);
                }
            }
        }
        assert forall|a: int, b: int| 0 <= a < b < n implies comes_before(
            keys,
            after[a],
            after[b],
            descending,
        ) by {
            if b < at {
                assert(comes_before(keys, before[a], before[b], descending));
            } else if b == at {
                // before[a] against i, with a < at
                if at > 0 {
                    if a < at - 1 {
                        assert(comes_before(keys, before[a], before[at - 1], descending));
                    }
                }
            } else if a == at {
                assert(overtakes(keys[i], keys[before[b - 1]], descending));
            } else if a < at {
                assert(comes_before(keys, before[a], before[b - 1], descending));
            } else {
                assert(comes_before(keys, before[a - 1], before[b - 1], descending));
            }
        }
    }
}

/// The indices below `n`, each at its own place.
pub open spec fn in_turn(n: nat) -> Seq<int> {
    Seq::new(n, |i: int| i)
}

/// Items that stand in order already stay where they are.
pub proof fn lemma_ordered_stays(keys: Seq<Specificity>, n: nat, descending: bool)
    requires
        n <= keys.len(),
        forall|a: int, b: int| 0 <= a < b < n ==> !overtakes(keys[b], keys[a], descending),
    ensures
        stable_order(keys, n, descending) == in_turn(n),
    decreases n,
{
    if n > 0 {
        lemma_ordered_stays(keys, (n - 1) as nat, descending);
        let before = in_turn((n - 1) as nat);
        if n > 1 {
            assert(before.last() == n - 2);
        }
        assert(place(keys, before, n - 1, descending) == before.push(n - 1));
        assert(before.push(n - 1) =~= in_turn(n));
    } else {
        assert(stable_order(keys, n, descending) =~= in_turn(n));
    }
}

/// Arranging items each at its own place leaves them as they are.
pub proof fn lemma_arranged_in_turn<T>(items: Seq<T>)
    ensures
        arranged(items, in_turn(items.len())) == items,
{
    assert(arranged(items, in_turn(items.len())) =~= items);
}

/// Whether `later` overtakes `earlier`.
pub fn is_overtaking(later: Specificity, earlier: Specificity, descending: bool) -> (r: bool)
    ensures
        r == overtakes(later, earlier, descending),
{
    if descending {
        is_higher(later, earlier)
    } else {
        is_higher(earlier, later)
    }
}

/// Sorts `items` by their `keys`, from high to low where `descending`, else
/// from low to high; items with equal keys keep their order. `keys[i]` is
/// the key of `items[i]`, before and after. Where there are not as many keys
/// as items, nothing is changed.
pub fn sort_by_specificity<T>(items: &mut Vec<T>, keys: &mut Vec<Specificity>, descending: bool)
    ensures
        old(items).len() == old(keys).len() ==> {
            &&& final(items)@ == arranged(
                old(items)@,
                stable_order(old(keys)@, old(keys)@.len(), descending),
            )
            &&& final(keys)@ == arranged(
                old(keys)@,
                stable_order(old(keys)@, old(keys)@.len(), descending),
            )
        },
        old(items).len() != old(keys).len() ==> final(items)@ == old(items)@ && final(keys)@
            == old(keys)@,
{
    if items.len() != keys.len() {
        return ;
    }
    let n = items.len();
    let ghost items0 = items@;
    let ghost keys0 = keys@;
    let mut i: usize = 0;
    while i < n
        invariant
            i <= n,
            items.len() == n,
            keys.len() == n,
            items0.len() == n,
            keys0.len() == n,
            stable_order(keys0, i as nat, descending).len() == i,
            forall|t: int|
                0 <= t < i ==> items@[t] == items0[#[trigger] stable_order(
                    keys0,
                    i as nat,
                    descending,
                )[t]],
            forall|t: int|
                0 <= t < i ==> keys@[t] == keys0[#[trigger] stable_order(
                    keys0,
                    i as nat,
                    descending,
                )[t]],
            forall|t: int| i <= t < n ==> items@[t] == #[trigger] items0[t],
            forall|t: int| i <= t < n ==> keys@[t] == #[trigger] keys0[t],
        decreases n - i,
    {
        let ghost order = stable_order(keys0, i as nat, descending);
        let ghost items1 = items@;
        let ghost keys1 = keys@;
        let key = keys[i];
        let mut at: usize = i;
        while at > 0 && is_overtaking(key, keys[at - 1], descending)
            invariant
                at <= i < n,
                keys.len() == n,
                forall|t: int| at <= t < i ==> overtakes(key, #[trigger] keys@[t], descending),
            decreases at,
        {
            at -= 1;
        }
        let item = items.remove(i);
        items.insert(at, item);
        let moved = keys.remove(i);
        keys.insert(at, moved);
        proof {
            assert(key == keys0[i as int]);
            assert forall|t: int| at <= t < order.len() implies overtakes(
                keys0[i as int],
                keys0[order[t]],
                descending,
            ) by {
                assert(keys1[t] == keys0[order[t]]);
            }
            if at > 0 {
                assert(keys1[at - 1] == keys0[order[at - 1]]);
            }
            lemma_place_at(keys0, order, i as int, descending, at as int);
            let next = stable_order(keys0, (i + 1) as nat, descending);
            assert(next == order.subrange(0, at as int).push(i as int) + order.subrange(
                at as int,
                i as int,
            ));
            assert forall|t: int| 0 <= t < i + 1 implies items@[t] == items0[#[trigger] next[t]] by {
                if t < at {
                    assert(next[t] == order[t]);
                    assert(items@[t] == items1[t]);
                } else if t == at {
                    assert(next[t] == i);
                } else {
                    assert(next[t] == order[t - 1]);
                    assert(items@[t] == items1[t - 1]);
                }
            }
            assert forall|t: int| 0 <= t < i + 1 implies keys@[t] == keys0[#[trigger] next[t]] by {
                if t < at {
                    assert(next[t] == order[t]);
                    assert(keys@[t] == keys1[t]);
                } else if t == at {
                    assert(next[t] == i);
                } else {
                    assert(next[t] == order[t - 1]);
                    assert(keys@[t] == keys1[t - 1]);
                }
            }
            assert forall|t: int| i + 1 <= t < n implies items@[t] == #[trigger] items0[t] by {
                assert(items@[t] == items1[t]);
            }
            assert forall|t: int| i + 1 <= t < n implies keys@[t] == #[trigger] keys0[t] by {
                assert(keys@[t] == keys1[t]);
            }
        }
        i += 1;
    }
    proof {
        assert(items@ =~= arranged(items0, stable_order(keys0, n as nat, descending)));
        assert(keys@ =~= arranged(keys0, stable_order(keys0, n as nat, descending)));
    }
}

} // verus!
