use vstd::prelude::*;

verus! {

/// `before` never relates a value to itself and is transitive.
pub open spec fn strict_order<T>(before: spec_fn(T, T) -> bool) -> bool {
    &&& forall|a: T| !#[trigger] before(a, a)
    &&& forall|a: T, b: T, c: T| #[trigger] before(a, b) && #[trigger] before(b, c) ==> before(a, c)
}

/// The place at which `item` enters `sorted`: in front of the first element that it comes
/// before, or at the end where there is none. An item therefore lands behind every element
/// that it ties with.
pub open spec fn insertion_point<T>(sorted: Seq<T>, item: T, before: spec_fn(T, T) -> bool) -> int
    decreases sorted.len(),
{
    if sorted.len() == 0 {
        0
    } else if before(item, sorted[0]) {
        0
    } else {
        1 + insertion_point(sorted.drop_first(), item, before)
    }
}

/// `items` in the order of `before`; items that `before` does not tell apart keep the order
/// in which they came.
pub open spec fn stable_sort<T>(items: Seq<T>, before: spec_fn(T, T) -> bool) -> Seq<T>
    decreases items.len(),
{
    if items.len() == 0 {
        Seq::empty()
    } else {
        let sorted = stable_sort(items.drop_last(), before);
        sorted.insert(insertion_point(sorted, items.last(), before), items.last())
    }
}

/// No element of `items` comes before an earlier one.
pub open spec fn ordered<T>(items: Seq<T>, before: spec_fn(T, T) -> bool) -> bool {
    forall|i: int, j: int|
        0 <= i < j < items.len() ==> !before(#[trigger] items[j], #[trigger] items[i])
}

/// The insertion point lies within the sequence or right behind it, nothing in front of it
/// comes after the item, and the element at it, if there is one, does.
pub proof fn lemma_insertion_point<T>(sorted: Seq<T>, item: T, before: spec_fn(T, T) -> bool)
    ensures
        0 <= insertion_point(sorted, item, before) <= sorted.len(),
        forall|j: int|
            0 <= j < insertion_point(sorted, item, before) ==> !before(item, #[trigger] sorted[j]),
        insertion_point(sorted, item, before) < sorted.len() ==> before(
            item,
            sorted[insertion_point(sorted, item, before)],
        ),
    decreases sorted.len(),
{
    if sorted.len() > 0 && !before(item, sorted[0]) {
        let rest = sorted.drop_first();
        lemma_insertion_point(rest, item, before);
        let p = insertion_point(rest, item, before);
        assert forall|j: int| 0 <= j < p + 1 implies !before(item, #[trigger] sorted[j]) by {
            if j > 0 {
                assert(sorted[j] == rest[j - 1]);
            }
        }
    }
}

/// An index with the two properties of the insertion point is the insertion point.
pub proof fn lemma_insertion_point_unique<T>(
    sorted: Seq<T>,
    item: T,
    before: spec_fn(T, T) -> bool,
    p: int,
)
    requires
        0 <= p <= sorted.len(),
        forall|j: int| 0 <= j < p ==> !before(item, #[trigger] sorted[j]),
        p < sorted.len() ==> before(item, sorted[p]),
    ensures
        insertion_point(sorted, item, before) == p,
{
    lemma_insertion_point(sorted, item, before);
}

/// Sorting keeps the number of items.
pub proof fn lemma_stable_sort_len<T>(items: Seq<T>, before: spec_fn(T, T) -> bool)
    ensures
        stable_sort(items, before).len() == items.len(),
    decreases items.len(),
{
    if items.len() > 0 {
        lemma_stable_sort_len(items.drop_last(), before);
        lemma_insertion_point(stable_sort(items.drop_last(), before), items.last(), before);
    }
}

/// Sorting neither loses nor invents nor doubles an item.
pub proof fn lemma_stable_sort_permutes<T>(items: Seq<T>, before: spec_fn(T, T) -> bool)
    ensures
        stable_sort(items, before).to_multiset() == items.to_multiset(),
    decreases items.len(),
{
    broadcast use vstd::seq_lib::group_to_multiset_ensures;

    if items.len() > 0 {
        let init = items.drop_last();
        lemma_stable_sort_permutes(init, before);
        lemma_insertion_point(stable_sort(init, before), items.last(), before);
        assert(items =~= init.push(items.last()));
    }
}

/// Under a strict order the sorted sequence is ordered.
pub proof fn lemma_stable_sort_ordered<T>(items: Seq<T>, before: spec_fn(T, T) -> bool)
    requires
        strict_order(before),
    ensures
        ordered(stable_sort(items, before), before),
    decreases items.len(),
{
    if items.len() > 0 {
        let sorted = stable_sort(items.drop_last(), before);
        let item = items.last();
        lemma_stable_sort_ordered(items.drop_last(), before);
        lemma_insertion_point(sorted, item, before);
        let out = sorted.insert(insertion_point(sorted, item, before), item);
        assert forall|i: int, j: int| 0 <= i < j < out.len() implies !before(
            #[trigger] out[j],
            #[trigger] out[i],
        ) by {}
    }
}

/// The sorted sequence holds exactly the values that were given.
pub proof fn lemma_stable_sort_contains<T>(items: Seq<T>, before: spec_fn(T, T) -> bool)
    ensures
        forall|x: T| stable_sort(items, before).contains(x) <==> items.contains(x),
{
    broadcast use vstd::seq_lib::to_multiset_contains;

    lemma_stable_sort_permutes(items, before);
    assert forall|x: T| stable_sort(items, before).contains(x) <==> items.contains(x) by {
        assert(stable_sort(items, before).to_multiset().count(x) == items.to_multiset().count(x));
    }
}

/// Whatever is read off the items, sorting neither loses nor invents nor doubles a reading.
pub proof fn lemma_stable_sort_images<T, U>(
    items: Seq<T>,
    before: spec_fn(T, T) -> bool,
    read: spec_fn(T) -> U,
)
    ensures
        stable_sort(items, before).map_values(read).to_multiset() == items.map_values(
            read,
        ).to_multiset(),
    decreases items.len(),
{
    broadcast use vstd::seq_lib::group_to_multiset_ensures;

    if items.len() > 0 {
        let init = items.drop_last();
        let sorted = stable_sort(init, before);
        let p = insertion_point(sorted, items.last(), before);
        lemma_stable_sort_images(init, before, read);
        lemma_insertion_point(sorted, items.last(), before);
        lemma_stable_sort_len(init, before);
        assert(items.map_values(read) =~= init.map_values(read).push(read(items.last())));
        assert(sorted.insert(p, items.last()).map_values(read) =~= sorted.map_values(read).insert(
            p,
            read(items.last()),
        ));
    }
}

/// A strict order in which "neither comes before the other" is transitive: a value that
/// comes before another comes before, or the other comes after, any third.
pub open spec fn weak_order<T>(before: spec_fn(T, T) -> bool) -> bool {
    &&& strict_order(before)
    &&& forall|a: T, b: T, c: T| #[trigger] before(a, b) ==> #[trigger] before(a, c) || before(c, b)
}

/// Neither of the two comes before the other.
pub open spec fn tied<T>(a: T, b: T, before: spec_fn(T, T) -> bool) -> bool {
    !before(a, b) && !before(b, a)
}

/// The values that tie with `x`, as a test on values.
pub open spec fn ties_with<T>(x: T, before: spec_fn(T, T) -> bool) -> spec_fn(T) -> bool {
    |y: T| tied(x, y, before)
}

/// Sorting is stable: the values that tie with any one value stand in the sorted sequence
/// in the order in which they were given.
pub proof fn lemma_stable_sort_stable<T>(items: Seq<T>, before: spec_fn(T, T) -> bool, x: T)
    requires
        weak_order(before),
    ensures
        stable_sort(items, before).filter(ties_with(x, before)) == items.filter(
            ties_with(x, before),
        ),
    decreases items.len(),
{
    broadcast use Seq::lemma_filter_push, Seq::filter_distributes_over_add;

    let same = ties_with(x, before);
    if items.len() > 0 {
        let init = items.drop_last();
        let item = items.last();
        let sorted = stable_sort(init, before);
        let p = insertion_point(sorted, item, before);
        lemma_stable_sort_stable(init, before, x);
        lemma_stable_sort_ordered(init, before);
        lemma_insertion_point(sorted, item, before);
        let front = sorted.subrange(0, p);
        let back = sorted.subrange(p, sorted.len() as int);
        assert(sorted =~= front + back);
        assert(items =~= init.push(item));
        if same(item) {
            // What stands behind the item comes after it, and so ties with nothing that
            // the item ties with.
            assert forall|j: int| 0 <= j < back.len() implies !same(#[trigger] back[j]) by {}
            back.lemma_all_neg_filter_empty(same);
            assert(front.push(item).filter(same) + back.filter(same) =~= (front.filter(same)
                + back.filter(same)).push(item));
        }
    }
}

/// For every value, the values that tie with it are the same in both sequences, and in the
/// same order.
pub open spec fn same_ties<T>(a: Seq<T>, b: Seq<T>, before: spec_fn(T, T) -> bool) -> bool {
    forall|x: T|
        #![trigger ties_with(x, before)]
        a.filter(ties_with(x, before)) == b.filter(ties_with(x, before))
}

/// Two ordered sequences with the same ties are the same sequence.
pub proof fn lemma_ordered_unique<T>(a: Seq<T>, b: Seq<T>, before: spec_fn(T, T) -> bool)
    requires
        weak_order(before),
        ordered(a, before),
        ordered(b, before),
        same_ties(a, b, before),
    ensures
        a == b,
    decreases a.len(),
{
    broadcast use vstd::seq_lib::group_filter_ensures;

    if a.len() == 0 || b.len() == 0 {
        if b.len() > 0 {
            let class = ties_with(b[0], before);
            assert(b.filter(class).contains(b[0]));
        }
        if a.len() > 0 {
            let class = ties_with(a[0], before);
            assert(a.filter(class).contains(a[0]));
        }
    } else {
        let x = a[0];
        let y = b[0];
        let with_x = ties_with(x, before);
        let with_y = ties_with(y, before);
        let a_rest = a.drop_first();
        let b_rest = b.drop_first();
        assert(a =~= seq![x] + a_rest);
        assert(b =~= seq![y] + b_rest);
        assert(!before(x, y)) by {
            b.lemma_filter_contains_rev(with_x, x);
        }
        assert(!before(y, x)) by {
            a.lemma_filter_contains_rev(with_y, y);
        }
        assert(x == y) by {
            a_rest.lemma_filter_prepend(x, with_x);
            b_rest.lemma_filter_prepend(y, with_x);
            assert(a.filter(with_x)[0] == x);
        }
        assert(ordered(a_rest, before));
        assert(ordered(b_rest, before));
        assert forall|z: T|
            #![trigger ties_with(z, before)]
            a_rest.filter(ties_with(z, before)) == b_rest.filter(ties_with(z, before)) by {
            let class = ties_with(z, before);
            a_rest.lemma_filter_prepend(x, class);
            b_rest.lemma_filter_prepend(y, class);
            if class(x) {
                assert((seq![x] + a_rest.filter(class)).drop_first() =~= a_rest.filter(class));
            }
        }
        lemma_ordered_unique(a_rest, b_rest, before);
    }
}

/// Sorting is told by what it achieves: of all arrangements of the items, the sorted one
/// is the only one that is ordered and has the values that tie in the order given.
pub proof fn lemma_stable_sort_unique<T>(
    items: Seq<T>,
    arranged: Seq<T>,
    before: spec_fn(T, T) -> bool,
)
    requires
        weak_order(before),
        ordered(arranged, before),
        same_ties(arranged, items, before),
    ensures
        arranged == stable_sort(items, before),
{
    let sorted = stable_sort(items, before);
    lemma_stable_sort_ordered(items, before);
    assert forall|x: T|
        #![trigger ties_with(x, before)]
        arranged.filter(ties_with(x, before)) == sorted.filter(ties_with(x, before)) by {
        lemma_stable_sort_stable(items, before, x);
    }
    lemma_ordered_unique(arranged, sorted, before);
}

/// Sorts `items` by the comparison `precedes`, which decides the relation `before`.
pub(crate) fn stable_sort_by<T, F>(
    items: Vec<T>,
    precedes: F,
    Ghost(before): Ghost<spec_fn(T, T) -> bool>,
) -> (sorted: Vec<T>) where F: Fn(&T, &T) -> bool
    requires
        forall|a: &T, b: &T| call_requires(precedes, (a, b)),
        forall|a: &T, b: &T, r: bool| call_ensures(precedes, (a, b), r) ==> r == before(*a, *b),
    ensures
        sorted@ == stable_sort(items@, before),
{
    let ghost given = items@;
    let mut items = items;
    let n = items.len();
    let mut i: usize = 0;
    while i < n
        invariant
            i <= n,
            n == given.len(),
            items@.len() == n,
            items@.subrange(0, i as int) == stable_sort(given.subrange(0, i as int), before),
            items@.subrange(i as int, n as int) == given.subrange(i as int, n as int),
            forall|a: &T, b: &T| call_requires(precedes, (a, b)),
            forall|a: &T, b: &T, r: bool| call_ensures(precedes, (a, b), r) ==> r == before(*a, *b),
        decreases n - i,
    {
        let ghost prefix = items@.subrange(0, i as int);
        let ghost item = items@[i as int];
        let mut p: usize = 0;
        while p < i && !precedes(&items[i], &items[p])
            invariant
                p <= i < n,
                items@.len() == n,
                prefix == items@.subrange(0, i as int),
                item == items@[i as int],
                forall|j: int| 0 <= j < p ==> !before(item, #[trigger] prefix[j]),
                forall|a: &T, b: &T| call_requires(precedes, (a, b)),
                forall|a: &T, b: &T, r: bool|
                    call_ensures(precedes, (a, b), r) ==> r == before(*a, *b),
            decreases i - p,
        {
            p += 1;
        }
        proof {
            lemma_insertion_point_unique(prefix, item, before, p as int);
            assert(given.subrange(i as int, n as int)[0] == item);
            assert(given.subrange(0, i + 1).drop_last() =~= given.subrange(0, i as int));
        }
        let ghost rest = items@.subrange(i + 1, n as int);
        let moved = items.remove(i);
        items.insert(p, moved);
        proof {
            assert(rest =~= given.subrange(i + 1, n as int)) by {
                assert forall|k: int| 0 <= k < rest.len() implies rest[k] == given[i + 1 + k] by {
                    assert(given.subrange(i as int, n as int)[k + 1] == given[i + 1 + k]);
                }
            }
        }
        i += 1;
    }
    proof {
        assert(given.subrange(0, n as int) =~= given);
    }
    items
}

} // verus!
