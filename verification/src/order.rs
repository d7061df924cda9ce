//! Putting candidates in order of preference.
//!
//! The order is stable: where two candidates rank the same, the one listed first stays first.

use vstd::prelude::*;

verus! {

/// Something that is chosen by rank: the smaller key comes first.
pub trait Ranked: Sized {
    spec fn rank(&self) -> (int, int, int);

    fn outranks(&self, other: &Self) -> (res: bool)
        ensures
            res == precedes(self.rank(), other.rank()),
    ;
}

/// The first key that differs decides.
pub open spec fn precedes(a: (int, int, int), b: (int, int, int)) -> bool {
    ||| a.0 < b.0
    ||| a.0 == b.0 && a.1 < b.1
    ||| a.0 == b.0 && a.1 == b.1 && a.2 < b.2
}

/// Candidate `a` stands before candidate `b`.
pub open spec fn stands_before<T: Ranked>(items: Seq<T>, a: int, b: int) -> bool {
    ||| precedes(items[a].rank(), items[b].rank())
    ||| items[a].rank() == items[b].rank() && a < b
}

/// `order` lists the positions of `items`, best first.
pub open spec fn is_ranking<T: Ranked>(items: Seq<T>, order: Seq<int>) -> bool {
    &&& order.len() == items.len()
    &&& forall|i: int| 0 <= i < order.len() ==> 0 <= #[trigger] order[i] < items.len()
    &&& forall|i: int, j: int|
        0 <= i < j < order.len() ==> stands_before(items, #[trigger] order[i], #[trigger] order[j])
}

/// The positions of `items`, best first.
pub open spec fn ranking<T: Ranked>(items: Seq<T>) -> Seq<int> {
    choose|order: Seq<int>| is_ranking(items, order)
}

/// The items, best first.
pub open spec fn ranked<T: Ranked>(items: Seq<T>) -> Seq<T> {
    ranking(items).map_values(|i: int| items[i])
}

/// Everything can be ranked.
pub proof fn lemma_ranking_exists<T: Ranked>(items: Seq<T>)
    ensures
        is_ranking(items, ranking(items)),
        ranked(items).len() == items.len(),
    decreases items.len(),
{
    if items.len() == 0 {
        assert(is_ranking(items, Seq::<int>::empty()));
    } else {
        let rest = items.drop_last();
        lemma_ranking_exists(rest);
        let order = ranking(rest);
        let x = items.len() - 1;
        let p = lemma_place(items, order, x, 0);
        lemma_insert(items, order, p);
    }
}

/// Where `x` goes: after everything that it does not outrank.
proof fn lemma_place<T: Ranked>(items: Seq<T>, order: Seq<int>, x: int, from: int) -> (p: int)
    requires
        0 <= from <= order.len(),
    ensures
        from <= p <= order.len(),
        forall|i: int|
            from <= i < p ==> !precedes(items[x].rank(), items[#[trigger] order[i]].rank()),
        p < order.len() ==> precedes(items[x].rank(), items[order[p]].rank()),
    decreases order.len() - from,
{
    if from == order.len() || precedes(items[x].rank(), items[order[from]].rank()) {
        from
    } else {
        lemma_place(items, order, x, from + 1)
    }
}

/// A ranking of all but the last item, with the last put in its place.
proof fn lemma_insert<T: Ranked>(items: Seq<T>, order: Seq<int>, p: int)
    requires
        items.len() > 0,
        is_ranking(items.drop_last(), order),
        0 <= p <= order.len(),
        forall|i: int|
            0 <= i < p ==> !precedes(
                items[items.len() - 1].rank(),
                items[#[trigger] order[i]].rank(),
            ),
        p < order.len() ==> precedes(items[items.len() - 1].rank(), items[order[p]].rank()),
    ensures
        is_ranking(items, order.insert(p, items.len() - 1)),
{
    let x = items.len() - 1;
    let rest = items.drop_last();
    let full = order.insert(p, x);
    assert forall|i: int, j: int| 0 <= i < j < full.len() implies stands_before(
        items,
        #[trigger] full[i],
        #[trigger] full[j],
    ) by {
        let a = if i < p {
            i
        } else {
            i - 1
        };
        let b = if j < p {
            j
        } else {
            j - 1
        };
        if i != p && j != p {
            assert(full[i] == order[a] && full[j] == order[b]);
            assert(stands_before(rest, order[a], order[b]));
        } else if j == p {
            assert(full[i] == order[i]);
        } else {
            assert(full[j] == order[j - 1]);
            if j - 1 > p {
                assert(stands_before(rest, order[p], order[j - 1]));
            }
        }
    }
}

/// There is only one ranking.
pub proof fn lemma_ranking_unique<T: Ranked>(items: Seq<T>, order: Seq<int>)
    requires
        is_ranking(items, order),
    ensures
        ranking(items) == order,
{
    let other = ranking(items);
    lemma_covers(items, order);
    lemma_covers(items, other);
    assert forall|k: int| 0 <= k <= order.len() implies #[trigger] order.take(k) == other.take(
        k,
    ) by {
        lemma_same_prefix(items, order, other, k);
    }
    assert(order.take(order.len() as int) == order);
    assert(other.take(order.len() as int) == other);
}

proof fn lemma_same_prefix<T: Ranked>(items: Seq<T>, order: Seq<int>, other: Seq<int>, k: int)
    requires
        is_ranking(items, order),
        is_ranking(items, other),
        0 <= k <= order.len(),
        forall|x: int| 0 <= x < items.len() ==> #[trigger] order.contains(x),
        forall|x: int| 0 <= x < items.len() ==> #[trigger] other.contains(x),
    ensures
        order.take(k) == other.take(k),
    decreases k,
{
    if k > 0 {
        lemma_same_prefix(items, order, other, k - 1);
        let i = k - 1;
        let a = order[i];
        let b = other[i];
        if a != b {
            assert(other.contains(a));
            assert(order.contains(b));
            let j = choose|j: int| 0 <= j < other.len() && other[j] == a;
            let l = choose|l: int| 0 <= l < order.len() && order[l] == b;
            if j < i {
                assert(order.take(i)[j] == other.take(i)[j]);
                assert(stands_before(items, order[j], order[i]));
            } else if l < i {
                assert(order.take(i)[l] == other.take(i)[l]);
                assert(stands_before(items, other[l], other[i]));
            } else {
                assert(stands_before(items, other[i], other[j]));
                assert(stands_before(items, order[i], order[l]));
            }
            assert(false);
        }
        assert(order.take(k) =~= order.take(i).push(a));
        assert(other.take(k) =~= other.take(i).push(b));
    } else {
        assert(order.take(0) =~= other.take(0));
    }
}

/// A ranking leaves no item out and repeats none.
pub proof fn lemma_covers<T: Ranked>(items: Seq<T>, order: Seq<int>)
    requires
        is_ranking(items, order),
    ensures
        forall|x: int| 0 <= x < items.len() ==> #[trigger] order.contains(x),
        order.no_duplicates(),
{
    assert forall|i: int, j: int| 0 <= i < order.len() && 0 <= j < order.len() && i != j implies
        order[i] != order[j] by {
        if i < j {
            assert(stands_before(items, order[i], order[j]));
        } else {
            assert(stands_before(items, order[j], order[i]));
        }
    }
    order.unique_seq_to_set();
    let all = vstd::set_lib::set_int_range(0, items.len() as int);
    vstd::set_lib::lemma_int_range(0, items.len() as int);
    assert(order.to_set().subset_of(all));
    vstd::set_lib::lemma_subset_equality(order.to_set(), all);
    assert forall|x: int| 0 <= x < items.len() implies #[trigger] order.contains(x) by {
        assert(all.contains(x));
        assert(order.to_set().contains(x));
    }
}

/// Ranks `items`.
pub fn rank_all<T: Ranked>(items: &[T]) -> (res: Vec<usize>)
    ensures
        res@.map_values(|i: usize| i as int) == ranking(items@),
        res@.len() == items@.len(),
        forall|i: int| 0 <= i < res@.len() ==> 0 <= #[trigger] res@[i] < items@.len(),
{
    let mut order: Vec<usize> = Vec::new();
    let mut count: usize = 0;
    while count < items.len()
        invariant
            count <= items@.len(),
            is_ranking(items@.take(count as int), order@.map_values(|i: usize| i as int)),
        decreases items@.len() - count,
    {
        let ghost done = items@.take(count as int);
        let ghost more = items@.take(count + 1);
        let ghost before = order@.map_values(|i: usize| i as int);
        assert(more.drop_last() =~= done);
        let mut place: usize = 0;
        assert(forall|i: int| 0 <= i < order@.len() ==> before[i] == #[trigger] order@[i]);
        while place < order.len() && !items[count].outranks(&items[order[place]])
            invariant
                place <= order@.len(),
                count < items@.len(),
                before == order@.map_values(|i: usize| i as int),
                is_ranking(items@.take(count as int), before),
                more == items@.take(count + 1),
                forall|i: int| 0 <= i < order@.len() ==> before[i] == #[trigger] order@[i],
                forall|i: int|
                    0 <= i < place ==> !precedes(
                        more[count as int].rank(),
                        more[#[trigger] before[i]].rank(),
                    ),
            decreases order@.len() - place,
        {
            assert(before[place as int] == order@[place as int]);
            place = place + 1;
        }
        proof {
            if place < order@.len() {
                assert(before[place as int] == order@[place as int]);
            }
            lemma_insert(more, before, place as int);
        }
        order.insert(place, count);
        assert(order@.map_values(|i: usize| i as int) =~= before.insert(place as int, count as int));
        count = count + 1;
    }
    proof {
        assert(items@.take(items@.len() as int) =~= items@);
        lemma_ranking_unique(items@, order@.map_values(|i: usize| i as int));
        assert forall|i: int| 0 <= i < order@.len() implies 0 <= #[trigger] order@[i]
            < items@.len() by {
            assert(order@.map_values(|i: usize| i as int)[i] == order@[i]);
        }
    }
    order
}

/// What the numbers add up to.
pub open spec fn sum(list: Seq<nat>) -> nat
    decreases list.len(),
{
    if list.len() == 0 {
        0
    } else {
        sum(list.drop_last()) + list.last()
    }
}

/// One more number.
pub proof fn lemma_sum_step(list: Seq<nat>, i: int)
    requires
        0 <= i < list.len(),
    ensures
        sum(list.take(i + 1)) == sum(list.take(i)) + list[i],
{
    assert(list.take(i + 1).drop_last() =~= list.take(i));
}

/// A beginning adds up to no more than the whole.
pub proof fn lemma_sum_take(list: Seq<nat>, i: int)
    requires
        0 <= i <= list.len(),
    ensures
        sum(list.take(i)) <= sum(list),
    decreases list.len() - i,
{
    if i < list.len() {
        lemma_sum_step(list, i);
        lemma_sum_take(list, i + 1);
    } else {
        assert(list.take(i) =~= list);
    }
}

/// Replacing one number.
pub proof fn lemma_sum_update(list: Seq<nat>, i: int, x: nat)
    requires
        0 <= i < list.len(),
    ensures
        sum(list.update(i, x)) + list[i] == sum(list) + x,
    decreases list.len(),
{
    let other = list.update(i, x);
    if i < list.len() - 1 {
        assert(other.drop_last() =~= list.drop_last().update(i, x));
        lemma_sum_update(list.drop_last(), i, x);
    } else {
        assert(other.drop_last() =~= list.drop_last());
    }
}

/// Taking one number out.
pub proof fn lemma_sum_remove(list: Seq<nat>, i: int)
    requires
        0 <= i < list.len(),
    ensures
        sum(list.remove(i)) + list[i] == sum(list),
    decreases list.len(),
{
    let other = list.remove(i);
    if i < list.len() - 1 {
        assert(other.drop_last() =~= list.drop_last().remove(i));
        lemma_sum_remove(list.drop_last(), i);
    } else {
        assert(other =~= list.drop_last());
    }
}

/// The order in which numbers are added up does not matter.
pub proof fn lemma_sum_permuted(list: Seq<nat>, order: Seq<int>)
    requires
        order.len() == list.len(),
        order.no_duplicates(),
        forall|i: int| 0 <= i < order.len() ==> 0 <= #[trigger] order[i] < list.len(),
        forall|x: int| 0 <= x < list.len() ==> #[trigger] order.contains(x),
    ensures
        sum(order.map_values(|i: int| list[i])) == sum(list),
    decreases list.len(),
{
    let mapped = order.map_values(|i: int| list[i]);
    if list.len() == 0 {
        assert(mapped =~= list);
    } else {
        let last = list.len() - 1;
        assert(order.contains(last));
        let p = order.index_of(last);
        let rest = list.drop_last();
        let other = order.remove(p);
        assert forall|i: int| 0 <= i < other.len() implies 0 <= #[trigger] other[i]
            < rest.len() by {
            let j = if i < p {
                i
            } else {
                i + 1
            };
            assert(other[i] == order[j]);
            assert(order[j] != order[p]);
        }
        assert(other.no_duplicates());
        assert forall|x: int| 0 <= x < rest.len() implies #[trigger] other.contains(x) by {
            assert(order.contains(x));
            let j = order.index_of(x);
            if j < p {
                assert(other[j] == x);
            } else {
                assert(other[j - 1] == x);
            }
        }
        lemma_sum_permuted(rest, other);
        assert(mapped.remove(p) =~= other.map_values(|i: int| rest[i]));
        lemma_sum_remove(mapped, p);
    }
}

/// Ranking keeps every candidate, so what is added up over all of them stays the same.
pub proof fn lemma_sum_ranked<T: Ranked>(items: Seq<T>, amount: spec_fn(T) -> nat)
    ensures
        sum(ranked(items).map_values(amount)) == sum(items.map_values(amount)),
{
    lemma_ranking_exists(items);
    lemma_covers(items, ranking(items));
    let list = items.map_values(amount);
    lemma_sum_permuted(list, ranking(items));
    assert(ranking(items).map_values(|i: int| list[i]) =~= ranked(items).map_values(amount));
}

/// Numbers that fall, at any positions that are all different, add up to no more than equally many
/// at the beginning.
pub proof fn lemma_first_are_most(list: Seq<nat>, picked: Seq<int>)
    requires
        forall|i: int, j: int| 0 <= i < j < list.len() ==> #[trigger] list[i] >= #[trigger] list[j],
        picked.no_duplicates(),
        forall|k: int| 0 <= k < picked.len() ==> 0 <= #[trigger] picked[k] < list.len(),
    ensures
        picked.len() <= list.len(),
        sum(picked.map_values(|i: int| list[i])) <= sum(list.take(picked.len() as int)),
    decreases list.len(),
{
    let mapped = picked.map_values(|i: int| list[i]);
    if list.len() == 0 {
        if picked.len() > 0 {
            assert(picked[0] < list.len());
        }
        assert(mapped =~= list.take(0));
    } else {
        let last = list.len() - 1;
        let rest = list.drop_last();
        if picked.contains(last) {
            let p = picked.index_of(last);
            let other = picked.remove(p);
            assert forall|k: int| 0 <= k < other.len() implies 0 <= #[trigger] other[k]
                < rest.len() by {
                let j = if k < p {
                    k
                } else {
                    k + 1
                };
                assert(other[k] == picked[j]);
                assert(picked[j] != picked[p]);
            }
            assert(other.no_duplicates());
            lemma_first_are_most(rest, other);
            assert(mapped.remove(p) =~= other.map_values(|i: int| rest[i]));
            lemma_sum_remove(mapped, p);
            let n = other.len() as int;
            assert(rest.take(n) =~= list.take(n));
            lemma_sum_step(list, n);
        } else {
            assert forall|k: int| 0 <= k < picked.len() implies 0 <= #[trigger] picked[k]
                < rest.len() by {
                assert(picked.contains(picked[k]));
            }
            lemma_first_are_most(rest, picked);
            assert(mapped =~= picked.map_values(|i: int| rest[i]));
            assert(rest.take(picked.len() as int) =~= list.take(picked.len() as int));
        }
    }
}

/// Filtering one item more.
pub proof fn lemma_filter_step<T>(items: Seq<T>, keep: spec_fn(T) -> bool, i: int)
    requires
        0 <= i < items.len(),
    ensures
        items.take(i + 1).filter(keep) == if keep(items[i]) {
            items.take(i).filter(keep).push(items[i])
        } else {
            items.take(i).filter(keep)
        },
{
    reveal(Seq::filter);
    assert(items.take(i + 1).drop_last() =~= items.take(i));
}

/// A filter that everything passes leaves everything.
pub proof fn lemma_all_kept<T>(items: Seq<T>, keep: spec_fn(T) -> bool)
    requires
        forall|i: int| 0 <= i < items.len() ==> keep(#[trigger] items[i]),
    ensures
        items.filter(keep) == items,
    decreases items.len(),
{
    reveal(Seq::filter);
    if items.len() > 0 {
        assert forall|i: int| 0 <= i < items.drop_last().len() implies keep(
            #[trigger] items.drop_last()[i],
        ) by {
            assert(items.drop_last()[i] == items[i]);
        }
        lemma_all_kept(items.drop_last(), keep);
        assert(items.drop_last().push(items.last()) =~= items);
    } else {
        assert(items.filter(keep) =~= items);
    }
}

/// What a filter leaves: the items that are worth keeping.
pub proof fn lemma_filter_contains<T>(items: Seq<T>, keep: spec_fn(T) -> bool, x: T)
    ensures
        items.filter(keep).contains(x) <==> items.contains(x) && keep(x),
    decreases items.len(),
{
    reveal(Seq::filter);
    if items.len() > 0 {
        let rest = items.drop_last();
        let last = items.last();
        let some = rest.filter(keep);
        let all = items.filter(keep);
        lemma_filter_contains(rest, keep, x);
        if all.contains(x) {
            let i = choose|i: int| 0 <= i < all.len() && all[i] == x;
            if i < some.len() {
                assert(some[i] == x);
                assert(some.contains(x));
                let k = choose|k: int| 0 <= k < rest.len() && rest[k] == x;
                assert(items[k] == x);
            } else {
                assert(items[items.len() - 1] == x);
            }
        }
        if items.contains(x) && keep(x) {
            let i = choose|i: int| 0 <= i < items.len() && items[i] == x;
            if i < rest.len() {
                assert(rest[i] == x);
                assert(rest.contains(x));
                let k = choose|k: int| 0 <= k < some.len() && some[k] == x;
                assert(all[k] == x);
            } else {
                assert(all[all.len() - 1] == x);
            }
        }
    }
}

/// Filtering a beginning gives a beginning of what filtering everything gives.
pub proof fn lemma_filter_prefix<T>(items: Seq<T>, keep: spec_fn(T) -> bool, i: int)
    requires
        0 <= i <= items.len(),
    ensures
        ({
            let some = items.take(i).filter(keep);
            &&& some.len() <= items.filter(keep).len()
            &&& items.filter(keep).take(some.len() as int) == some
        }),
    decreases items.len() - i,
{
    let some = items.take(i).filter(keep);
    let all = items.filter(keep);
    if i == items.len() {
        assert(items.take(i) =~= items);
        assert(all.take(all.len() as int) =~= all);
    } else {
        lemma_filter_prefix(items, keep, i + 1);
        lemma_filter_step(items, keep, i);
        let more = items.take(i + 1).filter(keep);
        assert(all.take(some.len() as int) =~= more.take(some.len() as int));
        assert(more.take(some.len() as int) =~= some);
    }
}

/// None of `list` stands behind one that it outranks.
pub open spec fn best_first<T: Ranked>(list: Seq<T>) -> bool {
    forall|i: int, j: int|
        0 <= i < j < list.len() ==> !precedes(
            (#[trigger] list[j]).rank(),
            (#[trigger] list[i]).rank(),
        )
}

/// Ranking puts the best first, keeps every candidate and adds none.
pub proof fn lemma_ranked_best_first<T: Ranked>(items: Seq<T>)
    ensures
        ranked(items).len() == items.len(),
        best_first(ranked(items)),
        forall|x: T| #[trigger] ranked(items).contains(x) <==> items.contains(x),
{
    let best = ranked(items);
    let order = ranking(items);
    lemma_ranking_exists(items);
    lemma_covers(items, order);
    assert forall|i: int, j: int| 0 <= i < j < best.len() implies !precedes(
        (#[trigger] best[j]).rank(),
        (#[trigger] best[i]).rank(),
    ) by {
        assert(stands_before(items, order[i], order[j]));
    }
    assert forall|x: T| #[trigger] best.contains(x) <==> items.contains(x) by {
        if best.contains(x) {
            let i = choose|i: int| 0 <= i < best.len() && best[i] == x;
            assert(items[order[i]] == x);
        }
        if items.contains(x) {
            let i = choose|i: int| 0 <= i < items.len() && items[i] == x;
            assert(order.contains(i));
            let k = order.index_of(i);
            assert(best[k] == x);
        }
    }
}

/// The candidates that are kept, best first: exactly those of `items` that are worth keeping, and
/// none behind one that it outranks.
pub proof fn lemma_kept_best_first<T: Ranked>(items: Seq<T>, keep: spec_fn(T) -> bool)
    ensures
        best_first(ranked(items).filter(keep)),
        forall|x: T| #[trigger]
            ranked(items).filter(keep).contains(x) <==> items.contains(x) && keep(x),
{
    let best = ranked(items);
    lemma_ranked_best_first(items);
    lemma_filter_best_first(best, keep);
    assert forall|x: T| #[trigger] best.filter(keep).contains(x) <==> items.contains(x) && keep(
        x,
    ) by {
        assert(best.contains(x) <==> items.contains(x));
    }
}

proof fn lemma_filter_best_first<T: Ranked>(list: Seq<T>, keep: spec_fn(T) -> bool)
    requires
        best_first(list),
    ensures
        best_first(list.filter(keep)),
        forall|x: T| #[trigger] list.filter(keep).contains(x) <==> list.contains(x) && keep(x),
    decreases list.len(),
{
    reveal(Seq::filter);
    assert forall|x: T| #[trigger] list.filter(keep).contains(x) <==> list.contains(x) && keep(
        x,
    ) by {
        lemma_filter_contains(list, keep, x);
    }
    if list.len() > 0 {
        let rest = list.drop_last();
        let some = rest.filter(keep);
        let all = list.filter(keep);
        lemma_filter_best_first(rest, keep);
        assert forall|i: int, j: int| 0 <= i < j < all.len() implies !precedes(
            (#[trigger] all[j]).rank(),
            (#[trigger] all[i]).rank(),
        ) by {
            if j == some.len() {
                assert(some.contains(some[i]));
                let k = choose|k: int| 0 <= k < rest.len() && rest[k] == some[i];
                assert(list[k] == some[i]);
            }
        }
    }
}

/// What a filter leaves of a list stands in the order of the list.
pub proof fn lemma_filter_keeps_order(
    list: Seq<int>,
    keep: spec_fn(int) -> bool,
    before: spec_fn(int, int) -> bool,
)
    requires
        forall|i: int, j: int|
            0 <= i < j < list.len() ==> before(#[trigger] list[i], #[trigger] list[j]),
    ensures
        forall|i: int, j: int|
            0 <= i < j < list.filter(keep).len() ==> before(
                #[trigger] list.filter(keep)[i],
                #[trigger] list.filter(keep)[j],
            ),
    decreases list.len(),
{
    reveal(Seq::filter);
    if list.len() > 0 {
        let rest = list.drop_last();
        let some = rest.filter(keep);
        let all = list.filter(keep);
        assert forall|i: int, j: int| 0 <= i < j < rest.len() implies before(
            #[trigger] rest[i],
            #[trigger] rest[j],
        ) by {
            assert(rest[i] == list[i] && rest[j] == list[j]);
        }
        lemma_filter_keeps_order(rest, keep, before);
        assert forall|i: int, j: int| 0 <= i < j < all.len() implies before(
            #[trigger] all[i],
            #[trigger] all[j],
        ) by {
            assert(all[i] == some[i]);
            if j == some.len() {
                lemma_filter_contains(rest, keep, some[i]);
                assert(some.contains(some[i]));
                let k = choose|k: int| 0 <= k < rest.len() && rest[k] == some[i];
                assert(list[k] == some[i] && list[list.len() - 1] == all[j]);
            } else {
                assert(all[j] == some[j]);
            }
        }
    }
}

/// Filtering what stands at some positions leaves what stands at some of these positions.
pub proof fn lemma_filter_positions<T>(list: Seq<int>, items: Seq<T>, keep: spec_fn(T) -> bool)
    ensures
        list.map_values(|i: int| items[i]).filter(keep) == list.filter(
            |i: int| keep(items[i]),
        ).map_values(|i: int| items[i]),
    decreases list.len(),
{
    reveal(Seq::filter);
    let at = |i: int| items[i];
    let good = |i: int| keep(items[i]);
    if list.len() > 0 {
        let rest = list.drop_last();
        lemma_filter_positions(rest, items, keep);
        assert(list.map_values(at).drop_last() =~= rest.map_values(at));
        if good(list.last()) {
            assert(rest.filter(good).push(list.last()).map_values(at) =~= rest.filter(
                good,
            ).map_values(at).push(items[list.last()]));
        }
    }
    assert(list.map_values(at).filter(keep) =~= list.filter(good).map_values(at));
}

/// The positions of the candidates that are worth keeping, best first: every such candidate stands
/// there once, and none behind one that it stands before.
pub proof fn lemma_kept_positions<K: Ranked, T>(
    keys: Seq<K>,
    items: Seq<T>,
    keep: spec_fn(T) -> bool,
) -> (places: Seq<int>)
    requires
        keys.len() == items.len(),
    ensures
        places.no_duplicates(),
        forall|k: int|
            0 <= k < places.len() ==> 0 <= #[trigger] places[k] < items.len() && keep(
                items[places[k]],
            ),
        forall|q: int| 0 <= q < items.len() && keep(items[q]) ==> #[trigger] places.contains(q),
        forall|k: int, l: int|
            0 <= k < l < places.len() ==> stands_before(
                keys,
                #[trigger] places[k],
                #[trigger] places[l],
            ),
        ranking(keys).map_values(|i: int| items[i]).filter(keep) == places.map_values(
            |i: int| items[i],
        ),
{
    let order = ranking(keys);
    let good = |i: int| keep(items[i]);
    let before = |a: int, b: int| stands_before(keys, a, b);
    let places = order.filter(good);
    lemma_ranking_exists(keys);
    lemma_covers(keys, order);
    assert forall|i: int, j: int| 0 <= i < j < order.len() implies before(
        #[trigger] order[i],
        #[trigger] order[j],
    ) by {}
    lemma_filter_keeps_order(order, good, before);
    lemma_filter_positions(order, items, keep);
    assert forall|k: int| 0 <= k < places.len() implies 0 <= #[trigger] places[k] < items.len()
        && keep(items[places[k]]) by {
        lemma_filter_contains(order, good, places[k]);
        assert(places.contains(places[k]));
        let i = choose|i: int| 0 <= i < order.len() && order[i] == places[k];
        assert(good(places[k]));
    }
    assert forall|q: int| 0 <= q < items.len() && keep(items[q]) implies #[trigger] places.contains(
        q,
    ) by {
        assert(order.contains(q));
        lemma_filter_contains(order, good, q);
    }
    assert forall|k: int, l: int| 0 <= k < l < places.len() implies stands_before(
        keys,
        #[trigger] places[k],
        #[trigger] places[l],
    ) by {
        assert(before(places[k], places[l]));
    }
    assert forall|k: int, l: int| 0 <= k < places.len() && 0 <= l < places.len() && k
        != l implies places[k] != places[l] by {
        if k < l {
            assert(stands_before(keys, places[k], places[l]));
        } else {
            assert(stands_before(keys, places[l], places[k]));
        }
    }
    places
}

/// Adding up starts from nothing, and one number more adds that number.
pub proof fn lemma_sum_adds(list: Seq<nat>, x: nat)
    ensures
        sum(Seq::<nat>::empty()) == 0,
        sum(list.push(x)) == sum(list) + x,
{
    assert(list.push(x).drop_last() =~= list);
}

/// The positions of the items that a filter leaves, in order.
pub proof fn lemma_positions_kept<T>(items: Seq<T>, keep: spec_fn(T) -> bool) -> (kept: Seq<int>)
    ensures
        items.filter(keep) == kept.map_values(|i: int| items[i]),
        forall|k: int|
            0 <= k < kept.len() ==> 0 <= #[trigger] kept[k] < items.len() && keep(items[kept[k]]),
        forall|q: int| 0 <= q < items.len() && keep(items[q]) ==> #[trigger] kept.contains(q),
        forall|k: int, l: int| 0 <= k < l < kept.len() ==> #[trigger] kept[k] < #[trigger] kept[l],
{
    let all = Seq::new(items.len(), |i: int| i);
    let good = |i: int| keep(items[i]);
    let kept = all.filter(good);
    let before = |a: int, b: int| a < b;
    lemma_filter_positions(all, items, keep);
    assert(all.map_values(|i: int| items[i]) =~= items);
    lemma_filter_keeps_order(all, good, before);
    assert forall|k: int, l: int| 0 <= k < l < kept.len() implies #[trigger] kept[k]
        < #[trigger] kept[l] by {
        assert(before(kept[k], kept[l]));
    }
    assert forall|k: int| 0 <= k < kept.len() implies 0 <= #[trigger] kept[k] < items.len() && keep(
        items[kept[k]],
    ) by {
        lemma_filter_contains(all, good, kept[k]);
        assert(kept.contains(kept[k]));
        assert(good(kept[k]));
    }
    assert forall|q: int| 0 <= q < items.len() && keep(items[q]) implies #[trigger] kept.contains(
        q,
    ) by {
        lemma_filter_contains(all, good, q);
        assert(all[q] == q);
    }
    kept
}

} // verus!
