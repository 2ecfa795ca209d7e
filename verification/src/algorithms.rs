//! Searching, sorting, graph traversal and dynamic programming.

use std::collections::VecDeque;

use vstd::prelude::*;
use vstd::std_specs::cmp::{OrdSpec, PartialEqSpec};

use core::cmp::Ordering;

verus! {

/// The outcome of comparing two values.
#[derive(Debug, Clone, Copy, PartialEq, Eq, Structural)]
pub enum Order {
    Less,
    Equal,
    Greater,
}

/// How `T`'s comparison orders `a` and `b`.
pub open spec fn order_of<T: Ord>(a: T, b: T) -> Order {
    match a.cmp_spec(&b) {
        Ordering::Less => Order::Less,
        Ordering::Equal => Order::Equal,
        Ordering::Greater => Order::Greater,
    }
}

/// `T`'s comparison behaves as its specification says.
pub open spec fn consistent_order<T: Ord>() -> bool {
    T::obeys_cmp_spec()
}

/// `T`'s comparison is a lawful total order in which only identical values
/// compare equal (true of the integer types).
pub open spec fn lawful_order<T: Ord>() -> bool {
    &&& T::obeys_cmp_spec()
    &&& forall|x: T, y: T| #[trigger] order_of(x, y) == Order::Less <==> order_of(y, x) == Order::Greater
    &&& forall|x: T, y: T| #[trigger] order_of(x, y) == Order::Equal <==> x == y
    &&& forall|x: T, y: T, z: T|
        #[trigger] order_of(x, y) == Order::Less && #[trigger] order_of(y, z) == Order::Less
            ==> order_of(x, z) == Order::Less
}

/// `a` may come before `b` in ascending order.
pub open spec fn precedes<T: Ord>(a: T, b: T) -> bool {
    order_of(a, b) != Order::Greater
}

/// Ascending order.
pub open spec fn sorted<T: Ord>(s: Seq<T>) -> bool {
    forall|i: int, j: int| 0 <= i < j < s.len() ==> precedes(#[trigger] s[i], #[trigger] s[j])
}

fn compare<T: Ord>(a: &T, b: &T) -> (order: Order)
    ensures
        consistent_order::<T>() ==> order == order_of(*a, *b),
{
    match a.cmp(b) {
        Ordering::Less => Order::Less,
        Ordering::Equal => Order::Equal,
        Ordering::Greater => Order::Greater,
    }
}

} // verus!

verus! {

/// Finds the first position of `target` by checking values from left to right.
pub fn linear_search<T: PartialEq>(items: &[T], target: &T) -> (found: Option<usize>)
    ensures
        T::obeys_eq_spec() ==> match found {
            Some(i) => i < items@.len() && items@[i as int].eq_spec(target) && forall|j: int|
                0 <= j < i ==> !(#[trigger] items@[j]).eq_spec(target),
            None => forall|j: int| 0 <= j < items@.len() ==> !(#[trigger] items@[j]).eq_spec(target),
        },
{
    let mut i: usize = 0;
    while i < items.len()
        invariant
            i <= items@.len(),
            T::obeys_eq_spec() ==> forall|j: int| 0 <= j < i ==> !(#[trigger] items@[j]).eq_spec(target),
        decreases items@.len() - i,
    {
        if items[i] == *target {
            return Some(i);
        }
        i = i + 1;
    }
    None
}

/// The element of `s` at `i`.
pub open spec fn at<T>(s: Seq<T>, i: usize) -> T {
    s[i as int]
}

/// The position that halving `[low, high)` of `s` settles on: it looks at
/// the middle, keeps the half that may hold `target`, and stops at the first
/// middle that compares equal.
pub open spec fn halving_search<T: Ord>(s: Seq<T>, target: T, low: int, high: int) -> Option<usize>
    decreases high - low,
{
    if low >= high {
        None
    } else {
        let middle = low + (high - low) / 2;
        match order_of(s[middle], target) {
            Order::Less => halving_search(s, target, middle + 1, high),
            Order::Greater => halving_search(s, target, low, middle),
            Order::Equal => Some(middle as usize),
        }
    }
}

/// Finds `target` in an ascending slice by halving the search range.
pub fn binary_search<T: Ord>(items: &[T], target: &T) -> (found: Option<usize>)
    ensures
        consistent_order::<T>() ==> found == halving_search(items@, *target, 0, items@.len() as int),
        found matches Some(i) ==> i < items@.len() && (consistent_order::<T>() ==> order_of(
            at(items@, i),
            *target,
        ) == Order::Equal),
        total_preorder::<T>() && sorted(items@) && found is None ==> forall|j: int|
            0 <= j < items@.len() ==> order_of(#[trigger] items@[j], *target) != Order::Equal,
        lawful_order::<T>() ==> (found matches Some(i) ==> at(items@, i) == *target),
        lawful_order::<T>() && sorted(items@) && found is None ==> !items@.contains(*target),
{
    let mut low: usize = 0;
    let mut high: usize = items.len();
    while low < high
        invariant
            low <= high <= items@.len(),
            total_preorder::<T>() && sorted(items@) ==> forall|j: int|
                0 <= j < items@.len() && (j < low || j >= high) ==> order_of(
                    #[trigger] items@[j],
                    *target,
                ) != Order::Equal,
            consistent_order::<T>() ==> halving_search(items@, *target, low as int, high as int)
                == halving_search(items@, *target, 0, items@.len() as int),
        decreases high - low,
    {
        let middle = low + (high - low) / 2;
        let order = compare(&items[middle], target);
        proof {
            if total_preorder::<T>() && sorted(items@) {
                let m = items@[middle as int];
                assert forall|j: int|
                    0 <= j < items@.len() && (j <= middle && order == Order::Less || j >= middle
                        && order == Order::Greater) implies order_of(
                        #[trigger] items@[j],
                        *target,
                    ) != Order::Equal by {
                    if order_of(items@[j], *target) == Order::Equal {
                        if j < middle && order == Order::Less {
                            assert(precedes(items@[j], m));
                            assert(precedes(*target, items@[j]));
                            lemma_precedes_transitive(*target, items@[j], m);
                        }
                        if j > middle && order == Order::Greater {
                            assert(precedes(m, items@[j]));
                            lemma_precedes_transitive(m, items@[j], *target);
                        }
                    }
                }
            }
        }
        match order {
            Order::Less => low = middle + 1,
            Order::Greater => high = middle,
            Order::Equal => return Some(middle),
        }
    }
    proof {
        if lawful_order::<T>() && sorted(items@) {
            assert forall|j: int| 0 <= j < items@.len() implies items@[j] != *target by {
                assert(order_of(items@[j], *target) != Order::Equal);
            }
        }
    }
    None
}

/// The Fibonacci numbers: 0, 1, 1, 2, 3, 5, ...
pub open spec fn fib(n: nat) -> nat
    decreases n,
{
    if n == 0 {
        0
    } else if n == 1 {
        1
    } else {
        fib((n - 2) as nat) + fib((n - 1) as nat)
    }
}

proof fn lemma_fib_monotonic(i: nat, j: nat)
    requires
        i <= j,
    ensures
        fib(i) <= fib(j),
    decreases j - i,
{
    if j < 2 {
    } else if i == j {
    } else if i == j - 1 {
    } else {
        lemma_fib_monotonic(i, (j - 1) as nat);
        lemma_fib_monotonic(i, (j - 2) as nat);
    }
}

/// The n-th Fibonacci number, or `None` where it does not fit in a `u64`.
pub fn fibonacci(n: u32) -> (result: Option<u64>)
    ensures
        fib(n as nat) <= u64::MAX ==> result == Some(fib(n as nat) as u64),
        fib(n as nat) > u64::MAX ==> result is None,
{
    if n == 0 {
        return Some(0);
    }
    let mut previous: u64 = 0;
    let mut current: u64 = 1;
    let mut i: u32 = 1;
    while i < n
        invariant
            1 <= i <= n,
            previous == fib((i - 1) as nat),
            current == fib(i as nat),
        decreases n - i,
    {
        let next = match previous.checked_add(current) {
            Some(next) => next,
            None => {
                proof {
                    lemma_fib_monotonic((i + 1) as nat, n as nat);
                }
                return None;
            },
        };
        previous = current;
        current = next;
        i = i + 1;
    }
    Some(current)
}


/// Exchanges two elements of a slice (`<[T]>::swap`).
#[verifier::external_body]
fn swap_items<T>(items: &mut [T], a: usize, b: usize)
    requires
        a < old(items)@.len(),
        b < old(items)@.len(),
    ensures
        final(items)@ == old(items)@.update(a as int, old(items)@[b as int]).update(
            b as int,
            old(items)@[a as int],
        ),
{
    items.swap(a, b);
}

proof fn lemma_swap_multiset<T>(s: Seq<T>, a: int, b: int)
    requires
        0 <= a < s.len(),
        0 <= b < s.len(),
    ensures
        s.update(a, s[b]).update(b, s[a]).to_multiset() =~= s.to_multiset(),
{
    broadcast use vstd::seq_lib::group_to_multiset_ensures;
    broadcast use vstd::multiset::group_multiset_axioms;

    let t = s.update(a, s[b]);
    assert(t.to_multiset() =~= s.to_multiset().remove(s[a]).insert(s[b]));
    assert(t.update(b, s[a]).to_multiset() =~= t.to_multiset().remove(t[b]).insert(s[a]));
    if a == b {
        assert(t.update(b, s[a]) =~= s);
    }
}

/// Sorts a slice in place by inserting each item into the sorted part
/// before it.
pub fn insertion_sort<T: Ord>(items: &mut [T])
    ensures
        final(items)@.to_multiset() == old(items)@.to_multiset(),
        total_preorder::<T>() ==> sorted(final(items)@),
{
    let ghost initial = items@;
    let len = items.len();
    if len == 0 {
        return;
    }
    let mut index: usize = 1;
    while index < len
        invariant
            1 <= index <= len,
            len == items@.len(),
            items@.to_multiset() == initial.to_multiset(),
            total_preorder::<T>() ==> sorted(items@.take(index as int)),
        decreases len - index,
    {
        let mut current = index;
        while current > 0 && compare(&items[current], &items[current - 1]) == Order::Less
            invariant
                current <= index < len,
                len == items@.len(),
                items@.to_multiset() == initial.to_multiset(),
                total_preorder::<T>() ==> {
                    &&& sorted(items@.take(current as int))
                    &&& forall|i: int, j: int|
                        current < i < j <= index ==> precedes(#[trigger] items@[i], #[trigger] items@[j])
                    &&& forall|j: int|
                        current < j <= index ==> order_of(items@[current as int], #[trigger] items@[j])
                            == Order::Less
                    &&& (0 < current < index ==> precedes(
                        items@[current - 1],
                        items@[current + 1],
                    ))
                },
            decreases current,
        {
            let ghost before = items@;
            proof {
                lemma_swap_multiset(before, current as int, current - 1);
            }
            swap_items(items, current, current - 1);
            proof {
                if total_preorder::<T>() {
                    let c = current as int;
                    assert(order_of(before[c], before[c - 1]) == Order::Less);
                    assert forall|i: int, j: int| 0 <= i < j < c - 1 implies precedes(
                        #[trigger] items@.take(c - 1)[i],
                        #[trigger] items@.take(c - 1)[j],
                    ) by {
                        assert(items@.take(c - 1)[i] == before.take(c)[i]);
                        assert(items@.take(c - 1)[j] == before.take(c)[j]);
                    }
                    assert forall|i: int, j: int|
                        c - 1 < i < j <= index implies precedes(
                        #[trigger] items@[i],
                        #[trigger] items@[j],
                    ) by {
                        if i == c {
                            assert(items@[i] == before[c - 1]);
                            if j == c + 1 {
                            } else {
                                assert(precedes(before[c + 1], before[j]));
                                lemma_precedes_transitive(before[c - 1], before[c + 1], before[j]);
                            }
                        }
                    }
                    assert forall|j: int| c - 1 < j <= index implies order_of(
                        items@[c - 1],
                        #[trigger] items@[j],
                    ) == Order::Less by {
                        assert(items@[c - 1] == before[c]);
                        if j == c {
                            assert(items@[c] == before[c - 1]);
                            assert(order_of(before[c - 1], before[c]) == Order::Greater);
                        }
                    }
                    if 0 < c - 1 {
                        assert(precedes(before.take(c)[c - 2], before.take(c)[c - 1]));
                    }
                }
            }
            current = current - 1;
        }
        proof {
            if total_preorder::<T>() {
                let c = current as int;
                assert forall|i: int, j: int| 0 <= i < j < index + 1 implies precedes(
                    #[trigger] items@.take(index + 1)[i],
                    #[trigger] items@.take(index + 1)[j],
                ) by {
                    let a = items@[i];
                    let b = items@[j];
                    if j < c {
                        assert(items@.take(c)[i] == a && items@.take(c)[j] == b);
                    } else if i > c {
                    } else if i == c {
                    } else {
                        // i < c <= j: the item before the inserted one precedes it.
                        assert(!(order_of(items@[c], items@[c - 1]) == Order::Less));
                        assert(precedes(items@.take(c)[i], items@.take(c)[c - 1]));
                        if !precedes(items@[c - 1], items@[c]) {
                            lemma_precedes_total(items@[c - 1], items@[c]);
                        }
                        lemma_precedes_transitive(items@[i], items@[c - 1], items@[c]);
                        if j > c {
                            assert(order_of(items@[c], b) == Order::Less);
                            lemma_precedes_transitive(items@[i], items@[c], b);
                        }
                    }
                }
            }
        }
        index = index + 1;
    }
    proof {
        assert(items@.take(len as int) =~= items@);
    }
}


/// Cloning a `T` gives back an identical value (true of the integer types).
pub open spec fn exact_clone<T: Clone>() -> bool {
    forall|a: T, b: T| #[trigger] cloned(a, b) ==> a == b
}

/// `T`'s comparison is a total preorder: it answers alike in both
/// directions and "not greater" is transitive. Values may compare equal
/// without being identical.
pub open spec fn total_preorder<T: Ord>() -> bool {
    &&& T::obeys_cmp_spec()
    &&& forall|x: T, y: T| #[trigger] order_of(x, y) == Order::Less <==> order_of(y, x) == Order::Greater
    &&& forall|x: T, y: T, z: T|
        #[trigger] precedes(x, y) && #[trigger] precedes(y, z) ==> precedes(x, z)
}

/// The elements of `s` that compare equal to `v`, in their order in `s`.
pub open spec fn equal_run<T: Ord>(s: Seq<T>, v: T) -> Seq<T>
    decreases s.len(),
{
    if s.len() == 0 {
        seq![]
    } else if order_of(s.last(), v) == Order::Equal {
        equal_run(s.drop_last(), v).push(s.last())
    } else {
        equal_run(s.drop_last(), v)
    }
}

proof fn lemma_equal_run_add<T: Ord>(a: Seq<T>, b: Seq<T>, v: T)
    ensures
        equal_run(a + b, v) == equal_run(a, v) + equal_run(b, v),
    decreases b.len(),
{
    if b.len() == 0 {
        assert(a + b =~= a);
        assert(equal_run(a, v) + equal_run(b, v) =~= equal_run(a, v));
    } else {
        assert((a + b).drop_last() =~= a + b.drop_last());
        assert((a + b).last() == b.last());
        lemma_equal_run_add(a, b.drop_last(), v);
        assert((equal_run(a, v) + equal_run(b.drop_last(), v)).push(b.last()) =~= equal_run(a, v)
            + equal_run(b.drop_last(), v).push(b.last()));
    }
}

proof fn lemma_equal_run_none<T: Ord>(s: Seq<T>, v: T)
    requires
        forall|k: int| 0 <= k < s.len() ==> order_of(#[trigger] s[k], v) != Order::Equal,
    ensures
        equal_run(s, v) == Seq::<T>::empty(),
    decreases s.len(),
{
    if s.len() > 0 {
        assert(order_of(s[s.len() - 1], v) != Order::Equal);
        lemma_equal_run_none(s.drop_last(), v);
    }
}

proof fn lemma_precedes_transitive<T: Ord>(a: T, b: T, c: T)
    requires
        total_preorder::<T>(),
        precedes(a, b),
        precedes(b, c),
    ensures
        precedes(a, c),
{
}

proof fn lemma_precedes_total<T: Ord>(a: T, b: T)
    requires
        total_preorder::<T>(),
        !precedes(a, b),
    ensures
        order_of(b, a) == Order::Less,
{
    assert(order_of(a, b) == Order::Greater);
}

/// Something below `b` is below everything that `b` precedes.
proof fn lemma_less_precedes<T: Ord>(a: T, b: T, c: T)
    requires
        total_preorder::<T>(),
        order_of(a, b) == Order::Less,
        precedes(b, c),
    ensures
        order_of(a, c) == Order::Less,
{
    if order_of(a, c) != Order::Less {
        assert(precedes(c, a)) by {
            if order_of(a, c) == Order::Greater {
                assert(order_of(c, a) == Order::Less);
            } else {
                assert(order_of(c, a) != Order::Less);
                assert(order_of(c, a) != Order::Greater);
            }
        }
        lemma_precedes_transitive(b, c, a);
        assert(order_of(b, a) != Order::Greater);
    }
}

/// Two values that compare equal to `v` are not below one another.
proof fn lemma_same_class<T: Ord>(x: T, r: T, v: T)
    requires
        total_preorder::<T>(),
        order_of(x, v) == Order::Equal,
        order_of(r, v) == Order::Equal,
    ensures
        order_of(r, x) != Order::Less,
{
    assert(order_of(v, r) != Order::Greater) by {
        assert(order_of(r, v) != Order::Less);
    }
    lemma_precedes_transitive(x, v, r);
    assert(order_of(x, r) != Order::Greater);
}

/// What merging keeps: the values equal to any `v` taken so far are those of
/// the taken part of `left`, then those of the taken part of `right`; and
/// every value taken from `right` is below every value left in `left`.
pub open spec fn merge_progress<T: Ord>(merged: Seq<T>, left: Seq<T>, right: Seq<T>, li: int, ri: int) -> bool {
    &&& forall|v: T| #[trigger] equal_run(merged, v) == equal_run(left.take(li), v) + equal_run(right.take(ri), v)
    &&& forall|a: int, b: int|
        0 <= a < ri && li <= b < left.len() ==> order_of(#[trigger] right[a], #[trigger] left[b]) == Order::Less
}

proof fn lemma_run_take_left<T: Ord>(merged: Seq<T>, left: Seq<T>, right: Seq<T>, li: int, ri: int)
    requires
        total_preorder::<T>(),
        0 <= li < left.len(),
        0 <= ri <= right.len(),
        merge_progress(merged, left, right, li, ri),
    ensures
        merge_progress(merged.push(left[li]), left, right, li + 1, ri),
{
    let x = left[li];
    assert(left.take(li + 1).drop_last() =~= left.take(li));
    assert(left.take(li + 1).last() == x);
    assert(merged.push(x).drop_last() =~= merged);
    assert forall|v: T| #[trigger] equal_run(merged.push(x), v) == equal_run(left.take(li + 1), v)
        + equal_run(right.take(ri), v) by {
        assert(equal_run(merged, v) == equal_run(left.take(li), v) + equal_run(right.take(ri), v));
        assert(equal_run(merged.push(x), v) == if order_of(x, v) == Order::Equal {
            equal_run(merged, v).push(x)
        } else {
            equal_run(merged, v)
        });
        assert(equal_run(left.take(li + 1), v) == if order_of(x, v) == Order::Equal {
            equal_run(left.take(li), v).push(x)
        } else {
            equal_run(left.take(li), v)
        });
        if order_of(x, v) == Order::Equal {
            assert forall|k: int| 0 <= k < right.take(ri).len() implies order_of(
                #[trigger] right.take(ri)[k],
                v,
            ) != Order::Equal by {
                assert(order_of(right[k], left[li]) == Order::Less);
                if order_of(right[k], v) == Order::Equal {
                    lemma_same_class(x, right[k], v);
                }
            }
            lemma_equal_run_none(right.take(ri), v);
            assert(equal_run(left.take(li), v) + equal_run(right.take(ri), v) =~= equal_run(
                left.take(li),
                v,
            ));
            assert(equal_run(left.take(li + 1), v) + equal_run(right.take(ri), v) =~= equal_run(
                left.take(li + 1),
                v,
            ));
        }
    }
}

proof fn lemma_run_take_right<T: Ord>(merged: Seq<T>, left: Seq<T>, right: Seq<T>, li: int, ri: int)
    requires
        total_preorder::<T>(),
        sorted(left),
        0 <= li < left.len(),
        0 <= ri < right.len(),
        order_of(right[ri], left[li]) == Order::Less,
        merge_progress(merged, left, right, li, ri),
    ensures
        merge_progress(merged.push(right[ri]), left, right, li, ri + 1),
{
    let x = right[ri];
    assert(right.take(ri + 1).drop_last() =~= right.take(ri));
    assert(right.take(ri + 1).last() == x);
    assert(merged.push(x).drop_last() =~= merged);
    assert forall|v: T| #[trigger] equal_run(merged.push(x), v) == equal_run(left.take(li), v)
        + equal_run(right.take(ri + 1), v) by {
        assert(equal_run(merged, v) == equal_run(left.take(li), v) + equal_run(right.take(ri), v));
        assert(equal_run(merged.push(x), v) == if order_of(x, v) == Order::Equal {
            equal_run(merged, v).push(x)
        } else {
            equal_run(merged, v)
        });
        assert(equal_run(right.take(ri + 1), v) == if order_of(x, v) == Order::Equal {
            equal_run(right.take(ri), v).push(x)
        } else {
            equal_run(right.take(ri), v)
        });
        if order_of(x, v) == Order::Equal {
            assert((equal_run(left.take(li), v) + equal_run(right.take(ri), v)).push(x) =~= equal_run(
                left.take(li),
                v,
            ) + equal_run(right.take(ri), v).push(x));
        }
    }
    assert forall|a: int, b: int|
        0 <= a < ri + 1 && li <= b < left.len() implies order_of(
            #[trigger] right[a],
            #[trigger] left[b],
        ) == Order::Less by {
        if a == ri && b > li {
            assert(precedes(left[li], left[b]));
            lemma_less_precedes(x, left[li], left[b]);
        }
    }
}

/// Once one side is used up, what is left of the other completes the merge.
proof fn lemma_run_rest<T: Ord>(merged: Seq<T>, left: Seq<T>, right: Seq<T>, li: int, ri: int)
    requires
        total_preorder::<T>(),
        0 <= li <= left.len(),
        0 <= ri <= right.len(),
        li == left.len() || ri == right.len(),
        merge_progress(merged, left, right, li, ri),
    ensures
        forall|v: T| #[trigger] equal_run(
            merged + left.subrange(li, left.len() as int) + right.subrange(ri, right.len() as int),
            v,
        ) == equal_run(left, v) + equal_run(right, v),
{
    let rest_left = left.subrange(li, left.len() as int);
    let rest_right = right.subrange(ri, right.len() as int);
    assert(left.take(li) + rest_left =~= left);
    assert(right.take(ri) + rest_right =~= right);
    assert forall|v: T| #[trigger] equal_run(merged + rest_left + rest_right, v) == equal_run(left, v)
        + equal_run(right, v) by {
        lemma_equal_run_add(merged + rest_left, rest_right, v);
        lemma_equal_run_add(merged, rest_left, v);
        lemma_equal_run_add(left.take(li), rest_left, v);
        lemma_equal_run_add(right.take(ri), rest_right, v);
        let el = equal_run(left.take(li), v);
        let er = equal_run(right.take(ri), v);
        let xl = equal_run(rest_left, v);
        let xr = equal_run(rest_right, v);
        if li == left.len() {
            assert(rest_left =~= Seq::<T>::empty());
            assert(xl =~= Seq::<T>::empty());
            assert(el + er + xl + xr =~= el + (er + xr));
        } else {
            assert(rest_right =~= Seq::<T>::empty());
            assert(xr =~= Seq::<T>::empty());
            assert(right.take(ri) =~= right);
            if er.len() > 0 {
                assert forall|k: int| 0 <= k < rest_left.len() implies order_of(
                    #[trigger] rest_left[k],
                    v,
                ) != Order::Equal by {
                    if order_of(rest_left[k], v) == Order::Equal {
                        lemma_equal_run_member(right, v, 0);
                        let a = choose|a: int| 0 <= a < right.len() && order_of(right[a], v) == Order::Equal;
                        assert(order_of(right[a], left[li + k]) == Order::Less);
                        lemma_same_class(rest_left[k], right[a], v);
                    }
                }
                lemma_equal_run_none(rest_left, v);
            }
            assert(el + er + xl + xr =~= el + xl + er);
        }
    }
}

proof fn lemma_equal_run_member<T: Ord>(s: Seq<T>, v: T, k: int)
    requires
        0 <= k < equal_run(s, v).len(),
    ensures
        exists|a: int| 0 <= a < s.len() && order_of(s[a], v) == Order::Equal,
    decreases s.len(),
{
    if order_of(s.last(), v) == Order::Equal {
        assert(order_of(s[s.len() - 1], v) == Order::Equal);
    } else {
        lemma_equal_run_member(s.drop_last(), v, k);
        let a = choose|a: int| 0 <= a < s.drop_last().len() && order_of(s.drop_last()[a], v) == Order::Equal;
        assert(s[a] == s.drop_last()[a]);
    }
}

/// Combines two slices, repeatedly taking the smaller front item (the left
/// one on ties).
#[verifier::spinoff_prover]
#[verifier::rlimit(50)]
fn merge<T: Ord + Clone>(left: &[T], right: &[T]) -> (output: Vec<T>)
    requires
        left@.len() + right@.len() <= usize::MAX,
    ensures
        output@.len() == left@.len() + right@.len(),
        exact_clone::<T>() ==> output@.to_multiset() == (left@ + right@).to_multiset(),
        total_preorder::<T>() && exact_clone::<T>() && sorted(left@) && sorted(right@) ==> {
            &&& sorted(output@)
            &&& forall|v: T| #[trigger] equal_run(output@, v) == equal_run(left@, v) + equal_run(right@, v)
        },
{
    broadcast use vstd::seq_lib::group_to_multiset_ensures;

    let mut output: Vec<T> = Vec::with_capacity(left.len() + right.len());
    let mut left_index: usize = 0;
    let mut right_index: usize = 0;
    let ghost mut merged: Seq<T> = seq![];
    let ghost ordered = total_preorder::<T>() && sorted(left@) && sorted(right@);
    while left_index < left.len() && right_index < right.len()
        invariant
            left_index <= left@.len(),
            right_index <= right@.len(),
            left@.len() + right@.len() <= usize::MAX,
            merged.len() == left_index + right_index,
            output@.len() == merged.len(),
            forall|k: int| 0 <= k < merged.len() ==> cloned(merged[k], #[trigger] output@[k]),
            merged.to_multiset() == (left@.take(left_index as int) + right@.take(
                right_index as int,
            )).to_multiset(),
            ordered == (total_preorder::<T>() && sorted(left@) && sorted(right@)),
            ordered ==> sorted(merged),
            ordered ==> merge_progress(merged, left@, right@, left_index as int, right_index as int),
            ordered && merged.len() > 0 && left_index < left@.len() ==> precedes(
                merged.last(),
                left@[left_index as int],
            ),
            ordered && merged.len() > 0 && right_index < right@.len() ==> precedes(
                merged.last(),
                right@[right_index as int],
            ),
        decreases left@.len() + right@.len() - left_index - right_index,
    {
        let ghost li = left_index as int;
        let ghost ri = right_index as int;
        if compare(&left[left_index], &right[right_index]) != Order::Greater {
            let item = left[left_index].clone();
            output.push(item);
            proof {
                let x = left@[li];
                assert(left@.take(li + 1) =~= left@.take(li).push(x));
                vstd::seq_lib::lemma_multiset_commutative(left@.take(li + 1), right@.take(ri));
                vstd::seq_lib::lemma_multiset_commutative(left@.take(li), right@.take(ri));
                vstd::seq_lib::lemma_multiset_commutative(left@.take(li), seq![x]);
                vstd::seq_lib::lemma_multiset_commutative(left@.take(li) + right@.take(ri), seq![x]);
                assert(left@.take(li).push(x) =~= left@.take(li) + seq![x]);
                assert((left@.take(li) + right@.take(ri)).push(x) =~= (left@.take(li) + right@.take(
                    ri,
                )) + seq![x]);
                assert((left@.take(li + 1) + right@.take(ri)).to_multiset() =~= (left@.take(li)
                    + right@.take(ri)).push(x).to_multiset()) by {
                    broadcast use vstd::multiset::group_multiset_axioms;

                }
                if ordered {
                    assert forall|i: int, j: int| 0 <= i < j < merged.len() + 1 implies precedes(
                        #[trigger] merged.push(x)[i],
                        #[trigger] merged.push(x)[j],
                    ) by {
                        if j == merged.len() {
                            if i < merged.len() - 1 {
                                lemma_precedes_transitive(merged[i], merged.last(), x);
                            }
                        }
                    }
                    if li + 1 < left@.len() {
                        assert(precedes(left@[li], left@[li + 1]));
                    }
                    lemma_run_take_left(merged, left@, right@, li, ri);
                }
                vstd::seq_lib::to_multiset_build(merged, x);
                vstd::seq_lib::to_multiset_build(left@.take(li) + right@.take(ri), x);
                merged = merged.push(x);
            }
            left_index = left_index + 1;
        } else {
            let item = right[right_index].clone();
            output.push(item);
            proof {
                let x = right@[ri];
                assert(right@.take(ri + 1) =~= right@.take(ri).push(x));
                assert(left@.take(li) + right@.take(ri + 1) =~= (left@.take(li) + right@.take(ri)).push(
                    x,
                ));
                if ordered {
                    lemma_precedes_total(left@[li], x);
                    assert forall|i: int, j: int| 0 <= i < j < merged.len() + 1 implies precedes(
                        #[trigger] merged.push(x)[i],
                        #[trigger] merged.push(x)[j],
                    ) by {
                        if j == merged.len() {
                            if i < merged.len() - 1 {
                                lemma_precedes_transitive(merged[i], merged.last(), x);
                            }
                        }
                    }
                    if ri + 1 < right@.len() {
                        assert(precedes(right@[ri], right@[ri + 1]));
                    }
                    lemma_run_take_right(merged, left@, right@, li, ri);
                }
                vstd::seq_lib::to_multiset_build(merged, x);
                vstd::seq_lib::to_multiset_build(left@.take(li) + right@.take(ri), x);
                merged = merged.push(x);
            }
            right_index = right_index + 1;
        }
    }
    let ghost before_rest = output@;
    output.extend_from_slice(&left[left_index..left.len()]);
    let ghost middle = output@;
    output.extend_from_slice(&right[right_index..right.len()]);
    proof {
        let li = left_index as int;
        let ri = right_index as int;
        let rest_left = left@.subrange(li, left@.len() as int);
        let rest_right = right@.subrange(ri, right@.len() as int);
        let whole = merged + rest_left + rest_right;
        assert forall|k: int| 0 <= k < whole.len() implies cloned(whole[k], #[trigger] output@[k]) by {
            if k < merged.len() {
                assert(output@[k] == middle[k]);
                assert(middle[k] == before_rest[k]);
            } else if k < merged.len() + rest_left.len() {
                assert(output@[k] == middle[k]);
            }
        }
        if exact_clone::<T>() {
            assert(output@ =~= whole);
            assert(left@.take(li) + rest_left =~= left@);
            assert(right@.take(ri) + rest_right =~= right@);
            vstd::seq_lib::lemma_multiset_commutative(merged, rest_left);
            vstd::seq_lib::lemma_multiset_commutative(merged + rest_left, rest_right);
            vstd::seq_lib::lemma_multiset_commutative(left@.take(li), right@.take(ri));
            vstd::seq_lib::lemma_multiset_commutative(left@.take(li), rest_left);
            vstd::seq_lib::lemma_multiset_commutative(right@.take(ri), rest_right);
            vstd::seq_lib::lemma_multiset_commutative(left@, right@);
            assert(whole.to_multiset() =~= (left@ + right@).to_multiset());
            if ordered {
                lemma_run_rest(merged, left@, right@, li, ri);
                assert forall|i: int, j: int| 0 <= i < j < whole.len() implies precedes(
                    #[trigger] whole[i],
                    #[trigger] whole[j],
                ) by {
                    let m = merged.len() as int;
                    if j < m {
                    } else if i >= m {
                        if li == left@.len() {
                            assert(whole[i] == right@[ri + i - m]);
                            assert(whole[j] == right@[ri + j - m]);
                        } else {
                            assert(whole[i] == left@[li + i - m]);
                            assert(whole[j] == left@[li + j - m]);
                        }
                    } else {
                        // i in merged, j in the rest
                        let next = if li == left@.len() {
                            right@[ri]
                        } else {
                            left@[li]
                        };
                        let nj = if li == left@.len() {
                            ri + j - m
                        } else {
                            li + j - m
                        };
                        if li == left@.len() {
                            assert(whole[j] == right@[nj]);
                            if nj > ri {
                                assert(precedes(right@[ri], right@[nj]));
                            }
                        } else {
                            assert(whole[j] == left@[nj]);
                            if nj > li {
                                assert(precedes(left@[li], left@[nj]));
                            }
                        }
                        if i < m - 1 {
                            lemma_precedes_transitive(merged[i], merged.last(), next);
                        }
                        if whole[j] != next {
                            lemma_precedes_transitive(merged[i], next, whole[j]);
                        }
                    }
                }
            }
        }
    }
    output
}

proof fn lemma_equal_run_contains<T: Ord>(s: Seq<T>, v: T, x: T)
    ensures
        equal_run(s, v).contains(x) <==> s.contains(x) && order_of(x, v) == Order::Equal,
    decreases s.len(),
{
    if s.len() > 0 {
        lemma_equal_run_contains(s.drop_last(), v, x);
        if s.contains(x) && !s.drop_last().contains(x) {
            let k = choose|k: int| 0 <= k < s.len() && s[k] == x;
            if k < s.len() - 1 {
                assert(s.drop_last()[k] == x);
            }
            assert(s.last() == x);
        }
        if s.drop_last().contains(x) {
            let k = choose|k: int| 0 <= k < s.drop_last().len() && s.drop_last()[k] == x;
            assert(s[k] == x);
        }
        if equal_run(s, v).contains(x) && order_of(s.last(), v) == Order::Equal {
            let r = equal_run(s.drop_last(), v);
            let k = choose|k: int| 0 <= k < r.push(s.last()).len() && r.push(s.last())[k] == x;
            if k < r.len() {
                assert(r[k] == x);
            } else {
                assert(s[s.len() - 1] == x);
            }
        }
        if order_of(s.last(), v) == Order::Equal && equal_run(s.drop_last(), v).contains(x) {
            let r = equal_run(s.drop_last(), v);
            let k = choose|k: int| 0 <= k < r.len() && r[k] == x;
            assert(r.push(s.last())[k] == x);
        }
        if order_of(s.last(), v) == Order::Equal && x == s.last() {
            let r = equal_run(s.drop_last(), v);
            assert(r.push(s.last())[r.len() as int] == x);
        }
    }
}

proof fn lemma_sorted_last<T: Ord>(s: Seq<T>, x: T)
    requires
        total_preorder::<T>(),
        sorted(s),
        s.contains(x),
    ensures
        precedes(x, s.last()),
{
    let k = choose|k: int| 0 <= k < s.len() && s[k] == x;
    if k < s.len() - 1 {
        assert(precedes(s[k], s[s.len() - 1]));
    } else {
        assert(order_of(x, x) != Order::Less);
    }
}

/// Two sorted sequences that hold, for every value, the same values equal
/// to it in the same order are the same: a stable sort has one result.
pub proof fn law_stable_sort_is_unique<T: Ord>(a: Seq<T>, b: Seq<T>)
    requires
        total_preorder::<T>(),
        sorted(a),
        sorted(b),
        forall|v: T| #[trigger] equal_run(a, v) == equal_run(b, v),
    ensures
        a == b,
    decreases a.len(),
{
    if a.len() == 0 || b.len() == 0 {
        if a.len() > 0 {
            assert(order_of(a.last(), a.last()) == Order::Equal);
            assert(equal_run(a, a.last()).len() > 0);
            lemma_equal_run_none(b, a.last());
        }
        if b.len() > 0 {
            assert(order_of(b.last(), b.last()) == Order::Equal);
            assert(equal_run(b, b.last()).len() > 0);
            lemma_equal_run_none(a, b.last());
        }
        assert(a =~= b);
    } else {
        let x = a.last();
        let y = b.last();
        assert(order_of(x, x) == Order::Equal);
        assert(order_of(y, y) == Order::Equal);
        assert(b.contains(x)) by {
            assert(a[a.len() - 1] == x);
            lemma_equal_run_contains(a, x, x);
            lemma_equal_run_contains(b, x, x);
        }
        assert(a.contains(y)) by {
            assert(b[b.len() - 1] == y);
            lemma_equal_run_contains(b, y, y);
            lemma_equal_run_contains(a, y, y);
        }
        lemma_sorted_last(b, x);
        lemma_sorted_last(a, y);
        assert(order_of(y, x) == Order::Equal);
        let ra = equal_run(a.drop_last(), x);
        let rb = equal_run(b.drop_last(), x);
        assert(equal_run(a, x) == ra.push(x));
        assert(equal_run(b, x) == rb.push(y));
        assert(ra.push(x)[ra.len() as int] == rb.push(y)[rb.len() as int]);
        assert(x == y);
        assert(ra =~= ra.push(x).drop_last());
        assert(rb =~= rb.push(y).drop_last());
        assert forall|v: T| #[trigger] equal_run(a.drop_last(), v) == equal_run(b.drop_last(), v) by {
            assert(equal_run(a, v) == equal_run(b, v));
            if order_of(x, v) == Order::Equal {
                let p = equal_run(a.drop_last(), v);
                let q = equal_run(b.drop_last(), v);
                assert(p =~= p.push(x).drop_last());
                assert(q =~= q.push(x).drop_last());
            }
        }
        assert(sorted(a.drop_last()));
        assert(sorted(b.drop_last()));
        law_stable_sort_is_unique(a.drop_last(), b.drop_last());
        assert(a =~= a.drop_last().push(x));
        assert(b =~= b.drop_last().push(y));
    }
}

/// `s` is a stable sort of `items`: ascending, and holding for every value
/// the items equal to it in their order in `items`.
pub open spec fn stable_sort_of<T: Ord>(s: Seq<T>, items: Seq<T>) -> bool {
    &&& sorted(s)
    &&& forall|v: T| #[trigger] equal_run(s, v) == equal_run(items, v)
}

proof fn lemma_stable_sort_agrees<T: Ord>(result: Seq<T>, items: Seq<T>)
    requires
        total_preorder::<T>(),
        stable_sort_of(result, items),
    ensures
        forall|s: Seq<T>| #[trigger] stable_sort_of(s, items) ==> s == result,
{
    assert forall|s: Seq<T>| #[trigger] stable_sort_of(s, items) implies s == result by {
        assert forall|v: T| #[trigger] equal_run(s, v) == equal_run(result, v) by {
            assert(equal_run(s, v) == equal_run(items, v));
            assert(equal_run(result, v) == equal_run(items, v));
        }
        law_stable_sort_is_unique(s, result);
    }
}

/// Sorts by recursively sorting both halves and merging them. The sort is
/// stable: values that compare equal keep the order they had.
pub fn merge_sort<T: Ord + Clone>(items: &[T]) -> (sorted_items: Vec<T>)
    ensures
        sorted_items@.len() == items@.len(),
        exact_clone::<T>() ==> sorted_items@.to_multiset() == items@.to_multiset(),
        total_preorder::<T>() && exact_clone::<T>() ==> {
            &&& sorted(sorted_items@)
            &&& forall|v: T| #[trigger] equal_run(sorted_items@, v) == equal_run(items@, v)
            &&& forall|s: Seq<T>| #[trigger] stable_sort_of(s, items@) ==> s == sorted_items@
        },
    decreases items@.len(),
{
    if items.len() <= 1 {
        let mut copy: Vec<T> = Vec::new();
        if items.len() == 1 {
            let item = items[0].clone();
            copy.push(item);
            proof {
                assert(cloned(items@[0], copy@[0]));
            }
        }
        proof {
            if exact_clone::<T>() {
                assert(copy@ =~= items@);
                if total_preorder::<T>() {
                    lemma_stable_sort_agrees(copy@, items@);
                }
            }
        }
        return copy;
    }
    let middle = items.len() / 2;
    let left = merge_sort(&items[0..middle]);
    let right = merge_sort(&items[middle..items.len()]);
    let merged = merge(left.as_slice(), right.as_slice());
    proof {
        if exact_clone::<T>() {
            let l = items@.subrange(0, middle as int);
            let r = items@.subrange(middle as int, items@.len() as int);
            assert(items@ =~= l + r);
            vstd::seq_lib::lemma_multiset_commutative(l, r);
            vstd::seq_lib::lemma_multiset_commutative(left@, right@);
            if total_preorder::<T>() {
                assert forall|v: T| #[trigger] equal_run(merged@, v) == equal_run(items@, v) by {
                    lemma_equal_run_add(l, r, v);
                }
                lemma_stable_sort_agrees(merged@, items@);
            }
        }
    }
    merged
}


/// Whether the graph has an edge from `from` to `to`.
pub open spec fn edge(graph: Seq<Vec<usize>>, from: usize, to: usize) -> bool {
    from < graph.len() && graph[from as int]@.contains(to)
}

/// Node `s[k]` is reached by an edge from a node listed before it.
pub open spec fn has_parent(graph: Seq<Vec<usize>>, s: Seq<usize>, k: int) -> bool {
    exists|p: int| 0 <= p < k && #[trigger] edge(graph, s[p], s[k])
}

/// `seen` followed by the nodes of `adjacent`, in their order, that lie
/// below `n` and are not seen yet.
pub open spec fn discover(seen: Seq<usize>, adjacent: Seq<usize>, n: nat) -> Seq<usize>
    decreases adjacent.len(),
{
    if adjacent.len() == 0 {
        seen
    } else {
        let before = discover(seen, adjacent.drop_last(), n);
        let v = adjacent.last();
        if v < n && !before.contains(v) {
            before.push(v)
        } else {
            before
        }
    }
}

/// Breadth-first search with the first `k` nodes of `seen` processed: each
/// next node in line discovers its neighbors. `fuel` bounds the steps.
pub open spec fn bfs_from(graph: Seq<Vec<usize>>, seen: Seq<usize>, k: nat, fuel: nat) -> Seq<
    usize,
>
    decreases fuel,
{
    if fuel == 0 || k >= seen.len() {
        seen
    } else {
        bfs_from(graph, discover(seen, graph[seen[k as int] as int]@, graph.len()), k + 1, (fuel - 1) as nat)
    }
}

/// The breadth-first order of the nodes reachable from `start`, neighbors
/// taken in the order listed; empty for a start outside the graph.
pub open spec fn bfs_order(graph: Seq<Vec<usize>>, start: usize) -> Seq<usize> {
    if start >= graph.len() {
        seq![]
    } else {
        bfs_from(graph, seq![start], 0, graph.len())
    }
}

proof fn lemma_distinct_below(s: Seq<usize>, n: usize)
    requires
        s.no_duplicates(),
        forall|k: int| 0 <= k < s.len() ==> s[k] < n,
    ensures
        s.len() <= n,
    decreases n,
{
    if n == 0 {
        if s.len() > 0 {
            assert(s[0] < 0);
        }
    } else {
        let top = (n - 1) as usize;
        if s.contains(top) {
            let i = s.index_of(top);
            let t = s.remove(i);
            assert forall|k: int| 0 <= k < t.len() implies t[k] < top by {
                if k < i {
                    assert(t[k] == s[k]);
                } else {
                    assert(t[k] == s[k + 1]);
                }
            }
            assert forall|a: int, b: int| 0 <= a < t.len() && 0 <= b < t.len() && a != b implies t[a]
                != t[b] by {
                let sa = if a < i {
                    a
                } else {
                    a + 1
                };
                let sb = if b < i {
                    b
                } else {
                    b + 1
                };
                assert(t[a] == s[sa] && t[b] == s[sb]);
            }
            lemma_distinct_below(t, top);
        } else {
            assert forall|k: int| 0 <= k < s.len() implies s[k] < top by {
                if s[k] == top {
                    assert(s.contains(top));
                }
            }
            lemma_distinct_below(s, top);
        }
    }
}

/// Visits the nodes reachable from `start` in breadth-first order; a start
/// outside the graph visits nothing, and neighbor indexes outside the graph
/// are skipped.
pub fn breadth_first_search(graph: &[Vec<usize>], start: usize) -> (order: Vec<usize>)
    ensures
        order@ == bfs_order(graph@, start),
        start >= graph@.len() ==> order@.len() == 0,
        start < graph@.len() ==> {
            &&& order@.len() > 0
            &&& order@[0] == start
            &&& order@.no_duplicates()
            &&& forall|k: int| 0 <= k < order@.len() ==> #[trigger] order@[k] < graph@.len()
            &&& forall|k: int| 0 < k < order@.len() ==> #[trigger] has_parent(graph@, order@, k)
            &&& forall|k: int, next: usize|
                0 <= k < order@.len() && next < graph@.len() && #[trigger] edge(
                    graph@,
                    order@[k],
                    next,
                ) ==> order@.contains(next)
        },
{
    let n = graph.len();
    if start >= n {
        return Vec::new();
    }
    let mut visited: Vec<bool> = vec![false; n];
    let mut queue: VecDeque<usize> = VecDeque::new();
    let mut order: Vec<usize> = Vec::new();
    queue.push_back(start);
    visited.set(start, true);
    let ghost mut discovered: Seq<usize> = seq![start];
    proof {
        assert forall|v: int| 0 <= v < n implies (#[trigger] visited@[v] <==> discovered.contains(
            v as usize,
        )) by {
            if v == start {
                assert(discovered[0] == start);
            }
        }
    }
    loop
        invariant
            n == graph@.len(),
            start < n,
            visited@.len() == n,
            forall|v: int| 0 <= v < n ==> (#[trigger] visited@[v] <==> discovered.contains(v as usize)),
            discovered.no_duplicates(),
            discovered.len() > 0,
            discovered[0] == start,
            forall|k: int| 0 <= k < discovered.len() ==> #[trigger] discovered[k] < n,
            order@.len() <= discovered.len(),
            order@ == discovered.take(order@.len() as int),
            queue@ == discovered.skip(order@.len() as int),
            forall|k: int| 0 < k < discovered.len() ==> #[trigger] has_parent(graph@, discovered, k),
            forall|k: int, next: usize|
                0 <= k < order@.len() && next < n && #[trigger] edge(graph@, discovered[k], next)
                    ==> discovered.contains(next),
            bfs_order(graph@, start) == bfs_from(graph@, discovered, order@.len() as nat, (n - order@.len()) as nat),
        ensures
            order@ == discovered,
            bfs_order(graph@, start) == discovered,
            discovered.len() > 0,
            discovered[0] == start,
            discovered.no_duplicates(),
            forall|k: int| 0 <= k < discovered.len() ==> #[trigger] discovered[k] < n,
            forall|k: int| 0 < k < discovered.len() ==> #[trigger] has_parent(graph@, discovered, k),
            forall|k: int, next: usize|
                0 <= k < discovered.len() && next < n && #[trigger] edge(graph@, discovered[k], next)
                    ==> discovered.contains(next),
        decreases n - order@.len(),
    {
        proof {
            lemma_distinct_below(discovered, n);
        }
        let node = match queue.pop_front() {
            Some(node) => node,
            None => {
                proof {
                    assert(discovered.skip(order@.len() as int).len() == 0);
                    assert(order@ =~= discovered);
                    assert(bfs_from(graph@, discovered, order@.len() as nat, (n - order@.len()) as nat) == discovered);
                }
                break;
            },
        };
        let ghost processed = order@.len() as int;
        let ghost before = discovered;
        proof {
            assert(node == discovered[processed]);
            assert(processed < discovered.len());
            assert(discovered.len() <= n);
            assert(discover(before, graph@[node as int]@.take(0), n as nat) == before);
        }
        order.push(node);
        proof {
            assert(order@ =~= discovered.take(order@.len() as int));
        }
        let neighbors = &graph[node];
        let mut j: usize = 0;
        while j < neighbors.len()
            invariant
                n == graph@.len(),
                start < n,
                neighbors@ == graph@[node as int]@,
                node < n,
                node == discovered[processed],
                0 <= processed,
                processed + 1 == order@.len(),
                j <= neighbors@.len(),
                visited@.len() == n,
                forall|v: int| 0 <= v < n ==> (#[trigger] visited@[v] <==> discovered.contains(v as usize)),
                discovered.no_duplicates(),
                discovered.len() > 0,
                discovered[0] == start,
                forall|k: int| 0 <= k < discovered.len() ==> #[trigger] discovered[k] < n,
                order@.len() <= discovered.len(),
                order@ == discovered.take(order@.len() as int),
                queue@ == discovered.skip(order@.len() as int),
                forall|k: int| 0 < k < discovered.len() ==> #[trigger] has_parent(graph@, discovered, k),
                forall|k: int, next: usize|
                    0 <= k < processed && next < n && #[trigger] edge(graph@, discovered[k], next)
                        ==> discovered.contains(next),
                forall|i: int| 0 <= i < j && #[trigger] neighbors@[i] < n ==> discovered.contains(neighbors@[i]),
                discovered == discover(before, neighbors@.take(j as int), n as nat),
                processed < before.len() <= n,
                before[processed] == node,
                bfs_order(graph@, start) == bfs_from(graph@, before, processed as nat, (n - processed) as nat),
            decreases neighbors@.len() - j,
        {
            let neighbor = neighbors[j];
            proof {
                assert(neighbors@.take(j + 1).drop_last() =~= neighbors@.take(j as int));
                assert(neighbors@.take(j + 1).last() == neighbor);
            }
            if neighbor < n && !visited[neighbor] {
                let ghost old_visited = visited@;
                visited.set(neighbor, true);
                queue.push_back(neighbor);
                proof {
                    let old_discovered = discovered;
                    let new_discovered = old_discovered.push(neighbor);
                    assert(0 <= processed < old_discovered.len());
                    assert(new_discovered[processed] == old_discovered[processed]);
                    assert(edge(graph@, old_discovered[processed], neighbor)) by {
                        assert(graph@[node as int]@[j as int] == neighbor);
                    }
                    assert forall|k: int| 0 < k < new_discovered.len() implies #[trigger] has_parent(
                        graph@,
                        new_discovered,
                        k,
                    ) by {
                        if k == new_discovered.len() - 1 {
                            assert(processed < old_discovered.len());
                            assert(new_discovered[processed] == old_discovered[processed]);
                            assert(new_discovered[processed] == node);
                            assert(new_discovered[k] == neighbor);
                            assert(graph@[node as int]@[j as int] == neighbor);
                            assert(edge(graph@, new_discovered[processed], new_discovered[k]));
                        } else {
                            assert(has_parent(graph@, old_discovered, k));
                            let p = choose|p: int|
                                0 <= p < k && #[trigger] edge(graph@, old_discovered[p], old_discovered[k]);
                            assert(new_discovered[p] == old_discovered[p]);
                            assert(new_discovered[k] == old_discovered[k]);
                            assert(edge(graph@, new_discovered[p], new_discovered[k]));
                        }
                    }
                    assert forall|a: int, b: int|
                        0 <= a < new_discovered.len() && 0 <= b < new_discovered.len() && a != b implies
                        new_discovered[a] != new_discovered[b] by {
                        if a == new_discovered.len() - 1 && b < old_discovered.len() {
                            assert(old_discovered.contains(old_discovered[b]));
                            assert(!visited@[neighbor as int] || true);
                        }
                        if b == new_discovered.len() - 1 && a < old_discovered.len() {
                            assert(old_discovered.contains(old_discovered[a]));
                        }
                    }
                    assert(order@ =~= new_discovered.take(order@.len() as int));
                    assert(queue@ =~= new_discovered.skip(order@.len() as int));
                    assert forall|v: int| 0 <= v < n implies (#[trigger] visited@[v]
                        <==> new_discovered.contains(v as usize)) by {
                        if v == neighbor {
                            assert(new_discovered[new_discovered.len() - 1] == neighbor);
                        } else {
                            assert(visited@[v] == old_visited[v]);
                            assert(old_visited[v] <==> old_discovered.contains(v as usize));
                        }
                        if new_discovered.contains(v as usize) && v != neighbor {
                            let i = new_discovered.index_of(v as usize);
                            assert(i < old_discovered.len());
                            assert(old_discovered.contains(v as usize));
                        }
                        if old_discovered.contains(v as usize) {
                            let i = old_discovered.index_of(v as usize);
                            assert(new_discovered[i] == v);
                        }
                    }
                    assert forall|i: int| 0 <= i < j + 1 && #[trigger] neighbors@[i] < n implies new_discovered.contains(
                        neighbors@[i],
                    ) by {
                        if i == j {
                            assert(new_discovered[new_discovered.len() - 1] == neighbor);
                        } else {
                            let x = old_discovered.index_of(neighbors@[i]);
                            assert(new_discovered[x] == neighbors@[i]);
                        }
                    }
                    assert forall|k: int, next: usize|
                        0 <= k < processed && next < n && #[trigger] edge(graph@, new_discovered[k], next)
                            implies new_discovered.contains(next) by {
                        assert(new_discovered[k] == old_discovered[k]);
                        assert(old_discovered.contains(next));
                        let x = old_discovered.index_of(next);
                        assert(new_discovered[x] == next);
                    }
                    discovered = new_discovered;
                }
            } else {
                proof {
                    if neighbor < n {
                        assert(visited@[neighbor as int]);
                    }
                }
            }
            j = j + 1;
        }
        proof {
            assert(neighbors@.take(neighbors@.len() as int) =~= neighbors@);
            assert(bfs_from(graph@, before, processed as nat, (n - processed) as nat) == bfs_from(
                graph@,
                discovered,
                (processed + 1) as nat,
                (n - (processed + 1)) as nat,
            ));
            assert forall|k: int, next: usize|
                0 <= k < order@.len() && next < n && #[trigger] edge(graph@, discovered[k], next)
                    implies discovered.contains(next) by {
                if k == processed {
                    let i = choose|i: int| 0 <= i < neighbors@.len() && neighbors@[i] == next;
                    assert(neighbors@[i] < n);
                }
            }
        }
    }
    order
}

} // verus!
