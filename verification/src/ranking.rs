//! Ranking by a number: the order in which items come out when the largest
//! goes first and equal ones keep the order they came in.

use vstd::prelude::*;
use crate::insights::Percentage;

verus! {

/// The numbers of `values` as naturals.
pub open spec fn as_nats(values: Seq<u128>) -> Seq<nat> {
    Seq::new(values.len(), |i: int| values[i] as nat)
}

/// The positions of a list of `usize` as integers.
pub open spec fn as_ints(positions: Seq<usize>) -> Seq<int> {
    Seq::new(positions.len(), |i: int| positions[i] as int)
}

/// Where a new item with `key` enters `order`, a list of positions into
/// `keys` that is sorted by descending key: behind the last position whose
/// key is at least `key`.
pub open spec fn insertion_point(keys: Seq<nat>, order: Seq<int>, key: nat) -> int
    decreases order.len(),
{
    if order.len() == 0 {
        0
    } else if keys[order.last()] >= key {
        order.len() as int
    } else {
        insertion_point(keys, order.drop_last(), key)
    }
}

/// The positions of `keys` ordered by descending key; positions with equal
/// keys stay in ascending order.
pub open spec fn descending_order(keys: Seq<nat>) -> Seq<int>
    decreases keys.len(),
{
    if keys.len() == 0 {
        Seq::empty()
    } else {
        let rest = descending_order(keys.drop_last());
        let last = keys.len() - 1;
        rest.insert(insertion_point(keys, rest, keys[last]), last)
    }
}

pub proof fn lemma_insertion_point_bounds(keys: Seq<nat>, order: Seq<int>, key: nat)
    ensures
        0 <= insertion_point(keys, order, key) <= order.len(),
    decreases order.len(),
{
    if order.len() > 0 && !(keys[order.last()] >= key) {
        lemma_insertion_point_bounds(keys, order.drop_last(), key);
    }
}

/// The insertion point does not depend on keys behind those that `order`
/// refers to.
pub proof fn lemma_insertion_point_prefix(
    keys: Seq<nat>,
    longer: Seq<nat>,
    order: Seq<int>,
    key: nat,
)
    requires
        keys.len() <= longer.len(),
        forall|i: int| 0 <= i < keys.len() ==> keys[i] == longer[i],
        forall|k: int| 0 <= k < order.len() ==> 0 <= #[trigger] order[k] < keys.len(),
    ensures
        insertion_point(keys, order, key) == insertion_point(longer, order, key),
    decreases order.len(),
{
    if order.len() > 0 {
        assert(0 <= order[order.len() - 1] < keys.len());
        if !(keys[order.last()] >= key) {
            let rest = order.drop_last();
            assert forall|k: int| 0 <= k < rest.len() implies 0 <= #[trigger] rest[k]
                < keys.len() by {
                assert(rest[k] == order[k]);
            }
            lemma_insertion_point_prefix(keys, longer, rest, key);
        }
    }
}

/// The order holds as many positions as there are keys, each within range.
pub proof fn lemma_descending_order_bounds(keys: Seq<nat>)
    ensures
        descending_order(keys).len() == keys.len(),
        forall|k: int|
            0 <= k < keys.len() ==> 0 <= #[trigger] descending_order(keys)[k] < keys.len(),
    decreases keys.len(),
{
    if keys.len() > 0 {
        let rest = descending_order(keys.drop_last());
        lemma_descending_order_bounds(keys.drop_last());
        lemma_insertion_point_bounds(keys, rest, keys[keys.len() - 1]);
    }
}

/// Whether `order`, a list of positions into `keys`, never puts a smaller
/// key before a larger one.
pub open spec fn is_descending(keys: Seq<nat>, order: Seq<int>) -> bool {
    forall|a: int, b: int| 0 <= a <= b < order.len() ==> keys[order[a]] >= keys[order[b]]
}

/// In a descending order, every position before the insertion point has a
/// key at least as large as the new one, and every position from it on a
/// smaller one.
pub proof fn lemma_insertion_point_splits(keys: Seq<nat>, order: Seq<int>, key: nat)
    requires
        is_descending(keys, order),
    ensures
        forall|k: int|
            0 <= k < insertion_point(keys, order, key) ==> keys[#[trigger] order[k]] >= key,
        forall|k: int|
            insertion_point(keys, order, key) <= k < order.len() ==> keys[#[trigger] order[k]]
                < key,
    decreases order.len(),
{
    lemma_insertion_point_bounds(keys, order, key);
    if order.len() > 0 {
        let last = order.len() - 1;
        if keys[order.last()] >= key {
            assert forall|k: int| 0 <= k < order.len() implies keys[#[trigger] order[k]]
                >= key by {
                assert(keys[order[k]] >= keys[order[last]]);
            }
        } else {
            let rest = order.drop_last();
            assert(is_descending(keys, rest)) by {
                assert forall|a: int, b: int| 0 <= a <= b < rest.len() implies keys[rest[a]]
                    >= keys[rest[b]] by {
                    assert(rest[a] == order[a] && rest[b] == order[b]);
                }
            }
            lemma_insertion_point_splits(keys, rest, key);
            lemma_insertion_point_bounds(keys, rest, key);
            let at = insertion_point(keys, rest, key);
            assert forall|k: int| 0 <= k < at implies keys[#[trigger] order[k]] >= key by {
                assert(order[k] == rest[k]);
            }
            assert forall|k: int| at <= k < order.len() implies keys[#[trigger] order[k]]
                < key by {
                if k < rest.len() {
                    assert(order[k] == rest[k]);
                }
            }
        }
    }
}

/// The order puts no smaller key before a larger one.
pub proof fn lemma_descending_order_sorted(keys: Seq<nat>)
    ensures
        is_descending(keys, descending_order(keys)),
    decreases keys.len(),
{
    if keys.len() > 0 {
        let shorter = keys.drop_last();
        let rest = descending_order(shorter);
        let last = keys.len() - 1;
        let key = keys[last];
        lemma_descending_order_sorted(shorter);
        lemma_descending_order_bounds(shorter);
        assert(is_descending(keys, rest)) by {
            assert forall|a: int, b: int| 0 <= a <= b < rest.len() implies keys[rest[a]]
                >= keys[rest[b]] by {
                assert(shorter[rest[a]] == keys[rest[a]]);
                assert(shorter[rest[b]] == keys[rest[b]]);
            }
        }
        lemma_insertion_point_splits(keys, rest, key);
        lemma_insertion_point_bounds(keys, rest, key);
        let at = insertion_point(keys, rest, key);
        let order = rest.insert(at, last);
        assert forall|a: int, b: int| 0 <= a <= b < order.len() implies keys[order[a]]
            >= keys[order[b]] by {
            if a < at {
                assert(order[a] == rest[a]);
            } else if a > at {
                assert(order[a] == rest[a - 1]);
            }
            if b < at {
                assert(order[b] == rest[b]);
            } else if b > at {
                assert(order[b] == rest[b - 1]);
            }
        }
    }
}

/// The order names every position once: it is a rearrangement of the
/// positions of `keys`.
pub proof fn lemma_descending_order_rearranges(keys: Seq<nat>)
    ensures
        descending_order(keys).len() == keys.len(),
        forall|i: int| 0 <= i < keys.len() ==> descending_order(keys).contains(i),
        forall|a: int, b: int|
            0 <= a < b < keys.len() ==> descending_order(keys)[a] != descending_order(keys)[b],
    decreases keys.len(),
{
    lemma_descending_order_bounds(keys);
    if keys.len() > 0 {
        let shorter = keys.drop_last();
        let rest = descending_order(shorter);
        let last = keys.len() - 1;
        lemma_descending_order_rearranges(shorter);
        lemma_descending_order_bounds(shorter);
        lemma_insertion_point_bounds(keys, rest, keys[last]);
        let at = insertion_point(keys, rest, keys[last]);
        let order = rest.insert(at, last);
        assert forall|i: int| 0 <= i < keys.len() implies order.contains(i) by {
            if i == last {
                assert(order[at] == i);
            } else {
                assert(rest.contains(i));
                let k = choose|k: int| 0 <= k < rest.len() && rest[k] == i;
                if k < at {
                    assert(order[k] == i);
                } else {
                    assert(order[k + 1] == i);
                }
            }
        }
        assert forall|a: int, b: int| 0 <= a < b < keys.len() implies order[a] != order[b] by {
            let x = if a < at {
                a
            } else {
                a - 1
            };
            let y = if b < at {
                b
            } else {
                b - 1
            };
            if a != at {
                assert(order[a] == rest[x]);
                assert(0 <= rest[x] < shorter.len());
            }
            if b != at {
                assert(order[b] == rest[y]);
                assert(0 <= rest[y] < shorter.len());
            }
        }
    }
}

/// Positions with equal keys keep their order: the ranking is stable.
pub proof fn lemma_descending_order_stable(keys: Seq<nat>)
    ensures
        forall|a: int, b: int|
            0 <= a < b < keys.len() && keys[descending_order(keys)[a]] == keys[descending_order(
                keys,
            )[b]] ==> descending_order(keys)[a] < descending_order(keys)[b],
    decreases keys.len(),
{
    lemma_descending_order_bounds(keys);
    if keys.len() > 0 {
        let shorter = keys.drop_last();
        let rest = descending_order(shorter);
        let last = keys.len() - 1;
        let key = keys[last];
        lemma_descending_order_stable(shorter);
        lemma_descending_order_bounds(shorter);
        lemma_descending_order_sorted(shorter);
        assert(is_descending(keys, rest)) by {
            assert forall|a: int, b: int| 0 <= a <= b < rest.len() implies keys[rest[a]]
                >= keys[rest[b]] by {
                assert(shorter[rest[a]] == keys[rest[a]]);
                assert(shorter[rest[b]] == keys[rest[b]]);
            }
        }
        lemma_insertion_point_splits(keys, rest, key);
        lemma_insertion_point_bounds(keys, rest, key);
        let at = insertion_point(keys, rest, key);
        let order = rest.insert(at, last);
        assert forall|a: int, b: int|
            0 <= a < b < keys.len() && keys[order[a]] == keys[order[b]] implies order[a]
            < order[b] by {
            if b == at {
                assert(order[a] == rest[a]);
            } else if a == at {
                assert(order[b] == rest[b - 1]);
                assert(keys[rest[b - 1]] < key);
            } else {
                let x = if a < at {
                    a
                } else {
                    a - 1
                };
                let y = if b < at {
                    b
                } else {
                    b - 1
                };
                assert(order[a] == rest[x] && order[b] == rest[y]);
                assert(shorter[rest[x]] == keys[rest[x]]);
                assert(shorter[rest[y]] == keys[rest[y]]);
            }
        }
    }
}

/// The numbers of `values` from the smallest to the largest.
pub open spec fn ascending(values: Seq<nat>) -> Seq<nat> {
    let order = descending_order(values);
    Seq::new(values.len(), |k: int| values[order[values.len() - 1 - k]])
}

/// Ascending means that no larger number stands before a smaller one.
pub proof fn lemma_ascending_sorted(values: Seq<nat>)
    ensures
        ascending(values).len() == values.len(),
        forall|a: int, b: int|
            0 <= a <= b < values.len() ==> ascending(values)[a] <= ascending(values)[b],
{
    lemma_descending_order_sorted(values);
    lemma_descending_order_bounds(values);
    let order = descending_order(values);
    let n = values.len();
    assert forall|a: int, b: int| 0 <= a <= b < n implies ascending(values)[a] <= ascending(
        values,
    )[b] by {
        assert(values[order[n - 1 - b]] >= values[order[n - 1 - a]]);
    }
}

/// Computes the order in which the positions of `keys` rank, largest key
/// first, equal keys in the order they stand.
pub fn rank_descending(keys: &Vec<u128>) -> (order: Vec<usize>)
    ensures
        as_ints(order@) == descending_order(as_nats(keys@)),
        order.len() == keys.len(),
        forall|k: int| 0 <= k < order.len() ==> #[trigger] order[k] < keys.len(),
{
    let ghost all = as_nats(keys@);
    let mut order: Vec<usize> = Vec::new();
    let mut i: usize = 0;
    assert(as_ints(order@) =~= descending_order(all.take(0)));
    while i < keys.len()
        invariant
            i <= keys.len(),
            all == as_nats(keys@),
            order.len() == i,
            forall|k: int| 0 <= k < order.len() ==> #[trigger] order[k] < i,
            as_ints(order@) == descending_order(all.take(i as int)),
        decreases keys.len() - i,
    {
        let ghost before = as_ints(order@);
        let ghost prefix = all.take(i + 1);
        let key = keys[i];
        let mut at: usize = order.len();
        assert(before.take(at as int) =~= before);
        while at > 0 && keys[order[at - 1]] < key
            invariant
                at <= order.len(),
                order.len() == i,
                i < keys.len(),
                key == keys[i as int],
                all == as_nats(keys@),
                before == as_ints(order@),
                forall|k: int| 0 <= k < order.len() ==> #[trigger] order[k] < i,
                insertion_point(all, before, key as nat) == insertion_point(
                    all,
                    before.take(at as int),
                    key as nat,
                ),
            decreases at,
        {
            proof {
                let cur = before.take(at as int);
                assert(cur.last() == order[at - 1] as int);
                assert(cur.drop_last() =~= before.take(at - 1));
            }
            at -= 1;
        }
        proof {
            let cur = before.take(at as int);
            if at > 0 {
                assert(cur.last() == order[at - 1] as int);
            }
            assert(prefix.drop_last() =~= all.take(i as int));
            assert forall|k: int| 0 <= k < before.len() implies 0 <= #[trigger] before[k]
                < prefix.len() by {
                assert(order[k] < i);
            }
            lemma_insertion_point_prefix(prefix, all, before, key as nat);
        }
        order.insert(at, i);
        assert(as_ints(order@) =~= before.insert(at as int, i as int));
        i += 1;
    }
    assert(all.take(i as int) =~= all);
    order
}

/// Whether the share `a` is at least the share `b`.
pub open spec fn outranks(a: Percentage, b: Percentage) -> bool {
    a.part * b.whole >= b.part * a.whole
}

/// Where a new item with the share `rate` enters `order`, a list of
/// positions into `rates` that is sorted by descending share: behind the
/// last position whose share is at least `rate`.
pub open spec fn rate_insertion_point(
    rates: Seq<Percentage>,
    order: Seq<int>,
    rate: Percentage,
) -> int
    decreases order.len(),
{
    if order.len() == 0 {
        0
    } else if outranks(rates[order.last()], rate) {
        order.len() as int
    } else {
        rate_insertion_point(rates, order.drop_last(), rate)
    }
}

/// The positions of `rates` ordered by descending share; positions with
/// equal shares stay in ascending order.
pub open spec fn descending_rate_order(rates: Seq<Percentage>) -> Seq<int>
    decreases rates.len(),
{
    if rates.len() == 0 {
        Seq::empty()
    } else {
        let rest = descending_rate_order(rates.drop_last());
        let last = rates.len() - 1;
        rest.insert(rate_insertion_point(rates, rest, rates[last]), last)
    }
}

pub proof fn lemma_rate_insertion_point_prefix(
    rates: Seq<Percentage>,
    longer: Seq<Percentage>,
    order: Seq<int>,
    rate: Percentage,
)
    requires
        rates.len() <= longer.len(),
        forall|i: int| 0 <= i < rates.len() ==> rates[i] == longer[i],
        forall|k: int| 0 <= k < order.len() ==> 0 <= #[trigger] order[k] < rates.len(),
    ensures
        rate_insertion_point(rates, order, rate) == rate_insertion_point(longer, order, rate),
    decreases order.len(),
{
    if order.len() > 0 {
        assert(0 <= order[order.len() - 1] < rates.len());
        if !outranks(rates[order.last()], rate) {
            let rest = order.drop_last();
            assert forall|k: int| 0 <= k < rest.len() implies 0 <= #[trigger] rest[k]
                < rates.len() by {
                assert(rest[k] == order[k]);
            }
            lemma_rate_insertion_point_prefix(rates, longer, rest, rate);
        }
    }
}

/// Whether the share `a` is at least the share `b`.
pub fn rate_at_least(a: Percentage, b: Percentage) -> (holds: bool)
    ensures
        holds == outranks(a, b),
{
    assert(a.part * b.whole <= u64::MAX * u64::MAX) by (nonlinear_arith)
        requires
            0 <= a.part <= u64::MAX,
            0 <= b.whole <= u64::MAX,
    ;
    assert(b.part * a.whole <= u64::MAX * u64::MAX) by (nonlinear_arith)
        requires
            0 <= b.part <= u64::MAX,
            0 <= a.whole <= u64::MAX,
    ;
    let left: u128 = (a.part as u128) * (b.whole as u128);
    let right: u128 = (b.part as u128) * (a.whole as u128);
    left >= right
}

/// Computes the order in which the positions of `rates` rank, largest
/// share first, equal shares in the order they stand.
pub fn rank_rates_descending(rates: &Vec<Percentage>) -> (order: Vec<usize>)
    ensures
        as_ints(order@) == descending_rate_order(rates@),
        order.len() == rates.len(),
        forall|k: int| 0 <= k < order.len() ==> #[trigger] order[k] < rates.len(),
{
    let ghost all = rates@;
    let mut order: Vec<usize> = Vec::new();
    let mut i: usize = 0;
    assert(as_ints(order@) =~= descending_rate_order(all.take(0)));
    while i < rates.len()
        invariant
            i <= rates.len(),
            all == rates@,
            order.len() == i,
            forall|k: int| 0 <= k < order.len() ==> #[trigger] order[k] < i,
            as_ints(order@) == descending_rate_order(all.take(i as int)),
        decreases rates.len() - i,
    {
        let ghost before = as_ints(order@);
        let ghost prefix = all.take(i + 1);
        let rate = rates[i];
        let mut at: usize = order.len();
        assert(before.take(at as int) =~= before);
        while at > 0 && !rate_at_least(rates[order[at - 1]], rate)
            invariant
                at <= order.len(),
                order.len() == i,
                i < rates.len(),
                rate == rates[i as int],
                all == rates@,
                before == as_ints(order@),
                forall|k: int| 0 <= k < order.len() ==> #[trigger] order[k] < i,
                rate_insertion_point(all, before, rate) == rate_insertion_point(
                    all,
                    before.take(at as int),
                    rate,
                ),
            decreases at,
        {
            proof {
                let cur = before.take(at as int);
                assert(cur.last() == order[at - 1] as int);
                assert(cur.drop_last() =~= before.take(at - 1));
            }
            at -= 1;
        }
        proof {
            let cur = before.take(at as int);
            if at > 0 {
                assert(cur.last() == order[at - 1] as int);
            }
            assert(prefix.drop_last() =~= all.take(i as int));
            assert forall|k: int| 0 <= k < before.len() implies 0 <= #[trigger] before[k]
                < prefix.len() by {
                assert(order[k] < i);
            }
            lemma_rate_insertion_point_prefix(prefix, all, before, rate);
        }
        order.insert(at, i);
        assert(as_ints(order@) =~= before.insert(at as int, i as int));
        i += 1;
    }
    assert(all.take(i as int) =~= all);
    order
}

} // verus!
