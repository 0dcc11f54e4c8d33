//! Sorting what is listed by path.

use vstd::prelude::*;
use vstd::seq_lib::*;
use crate::order::text_lt;
use crate::order::text_le;
use crate::order::compare_text;
use crate::order::Relation;
use crate::order::lemma_text_order_total;
use crate::order::lemma_text_lt_transitive;
use crate::records::Listed;

verus! {

/// The items stand in increasing order of path.
pub open spec fn in_order<T: Listed>(items: Seq<T>) -> bool {
    forall|i: int, j: int|
        0 <= i < j < items.len() ==> text_le(
            (#[trigger] items[i]).path_text(),
            (#[trigger] items[j]).path_text(),
        )
}

/// No path occurs twice among the items.
pub open spec fn distinct_paths<T: Listed>(items: Seq<T>) -> bool {
    forall|i: int, j: int|
        0 <= i < j < items.len() ==> (#[trigger] items[i]).path_text() != (
        #[trigger] items[j]).path_text()
}

/// Those of the items that are listed under `path`, in their order.
pub open spec fn listed_under<T: Listed>(items: Seq<T>, path: Seq<char>) -> Seq<T>
    decreases items.len(),
{
    if items.len() == 0 {
        Seq::empty()
    } else if items.last().path_text() == path {
        listed_under(items.drop_last(), path).push(items.last())
    } else {
        listed_under(items.drop_last(), path)
    }
}

/// `out` is `input` sorted by path: in order, with the same items as often,
/// and those listed under one path in the order they had in `input`.
pub open spec fn is_sorting_of<T: Listed>(out: Seq<T>, input: Seq<T>) -> bool {
    &&& in_order(out)
    &&& out.to_multiset() == input.to_multiset()
    &&& forall|path: Seq<char>| #[trigger] listed_under(out, path) == listed_under(input, path)
}

/// What is listed under a path in two sequences put together is what is
/// listed under it in the first, then in the second.
pub proof fn lemma_listed_under_add<T: Listed>(a: Seq<T>, b: Seq<T>, path: Seq<char>)
    ensures
        listed_under(a + b, path) == listed_under(a, path) + listed_under(b, path),
    decreases b.len(),
{
    if b.len() == 0 {
        assert(a + b =~= a);
        assert(listed_under(a, path) + listed_under(b, path) =~= listed_under(a, path));
    } else {
        assert((a + b).drop_last() =~= a + b.drop_last());
        assert((a + b).last() == b.last());
        lemma_listed_under_add(a, b.drop_last(), path);
        if b.last().path_text() == path {
            assert(listed_under(a + b, path) =~= listed_under(a, path) + listed_under(b, path));
        }
    }
}

/// Where no item has the path, nothing is listed under it.
pub proof fn lemma_listed_under_none<T: Listed>(items: Seq<T>, path: Seq<char>)
    requires
        forall|i: int| 0 <= i < items.len() ==> (#[trigger] items[i]).path_text() != path,
    ensures
        listed_under(items, path) == Seq::<T>::empty(),
    decreases items.len(),
{
    if items.len() > 0 {
        let init = items.drop_last();
        assert forall|i: int| 0 <= i < init.len() implies (#[trigger] init[i]).path_text()
            != path by {
            assert(init[i] == items[i]);
        }
        lemma_listed_under_none(init, path);
        assert(items.last() == items[items.len() - 1]);
    }
}

/// Putting an item in front of the items that come after it in the order
/// adds it at the end of what is listed under its path, and changes nothing
/// under the other paths.
pub proof fn lemma_listed_under_insert<T: Listed>(items: Seq<T>, at: int, x: T, path: Seq<char>)
    requires
        0 <= at <= items.len(),
        forall|k: int| at <= k < items.len() ==> (#[trigger] items[k]).path_text() != x.path_text(),
    ensures
        listed_under(items.insert(at, x), path) == if x.path_text() == path {
            listed_under(items, path).push(x)
        } else {
            listed_under(items, path)
        },
{
    let front = items.take(at);
    let back = items.skip(at);
    assert(items.insert(at, x) =~= front + seq![x] + back);
    assert(items =~= front + back);
    lemma_listed_under_add(front + seq![x], back, path);
    lemma_listed_under_add(front, seq![x], path);
    lemma_listed_under_add(front, back, path);
    assert(seq![x].drop_last() =~= Seq::<T>::empty());
    assert(seq![x].last() == x);
    assert(listed_under(seq![x].drop_last(), path) =~= Seq::<T>::empty());
    if x.path_text() == path {
        assert(listed_under(seq![x], path) =~= seq![x]);
        assert forall|i: int| 0 <= i < back.len() implies (#[trigger] back[i]).path_text()
            != path by {
            assert(back[i] == items[at + i]);
        }
        lemma_listed_under_none(back, path);
        assert(listed_under(front, path) + seq![x] + Seq::<T>::empty() =~= (listed_under(
            front,
            path,
        ) + Seq::<T>::empty()).push(x));
    } else {
        assert(listed_under(seq![x], path) =~= Seq::<T>::empty());
        assert(listed_under(front, path) + Seq::<T>::empty() + listed_under(back, path)
            =~= listed_under(front, path) + listed_under(back, path));
    }
}

/// Sorts the items by path, in the byte order of the paths. Items under the
/// same path keep their order. Each item is moved back to its place among
/// those before it, which is quick where the items arrive nearly in order.
pub fn sort_by_path<T: Listed>(items: &mut Vec<T>)
    ensures
        is_sorting_of(final(items)@, old(items)@),
{
    let ghost input = items@;
    let mut i: usize = 0;
    proof {
        assert(items@.take(0) =~= Seq::<T>::empty());
        assert(input.take(0) =~= Seq::<T>::empty());
    }
    while i < items.len()
        invariant
            i <= items.len(),
            items.len() == input.len(),
            in_order(items@.take(i as int)),
            items@.skip(i as int) == input.skip(i as int),
            items@.take(i as int).to_multiset() == input.take(i as int).to_multiset(),
            forall|path: Seq<char>| #[trigger]
                listed_under(items@.take(i as int), path) == listed_under(
                    input.take(i as int),
                    path,
                ),
        decreases items.len() - i,
    {
        let ghost before = items@;
        let ghost sorted = before.take(i as int);
        let ghost x = before[i as int];
        let mut j: usize = i;
        while j > 0 && compare_text(items[j - 1].path(), items[i].path()) == Relation::Greater
            invariant
                j <= i < items.len(),
                items@ == before,
                x == before[i as int],
                forall|k: int|
                    j <= k < i ==> text_lt(x.path_text(), (#[trigger] before[k]).path_text()),
            decreases j,
        {
            j -= 1;
        }
        if j < i {
            let moved = items.remove(i);
            items.insert(j, moved);
        }
        proof {
            let grown = sorted.insert(j as int, x);
            assert(items@.take(i + 1) =~= grown);
            assert(items@.skip(i + 1) =~= before.skip(i + 1));
            assert(before.skip(i as int)[0] == input.skip(i as int)[0]);
            assert(input.take(i + 1) =~= input.take(i as int).push(x));
            assert(before.skip(i + 1) =~= before.skip(i as int).skip(1));
            assert(input.skip(i + 1) =~= input.skip(i as int).skip(1));
            // in order
            assert forall|a: int, b: int| 0 <= a < b < grown.len() implies text_le(
                (#[trigger] grown[a]).path_text(),
                (#[trigger] grown[b]).path_text(),
            ) by {
                if b < j {
                    assert(grown[a] == sorted[a] && grown[b] == sorted[b]);
                } else if b == j {
                    assert(grown[a] == sorted[a]);
                    assert(sorted[j - 1] == before[j - 1]);
                    lemma_text_order_total(sorted[j - 1].path_text(), x.path_text());
                    if a < j - 1 {
                        lemma_le_transitive(
                            sorted[a].path_text(),
                            sorted[j - 1].path_text(),
                            x.path_text(),
                        );
                    }
                } else if a < j {
                    assert(grown[a] == sorted[a] && grown[b] == sorted[b - 1]);
                } else if a == j {
                    assert(grown[b] == before[b - 1]);
                } else {
                    assert(grown[a] == sorted[a - 1] && grown[b] == sorted[b - 1]);
                }
            }
            // the same items
            to_multiset_insert(sorted, j as int, x);
            to_multiset_build(input.take(i as int), x);
            // items under the same path keep their order
            assert forall|k: int| j <= k < sorted.len() implies (#[trigger] sorted[k]).path_text()
                != x.path_text() by {
                assert(sorted[k] == before[k]);
                lemma_text_order_total(x.path_text(), sorted[k].path_text());
            }
            assert forall|path: Seq<char>| #[trigger]
                listed_under(grown, path) == listed_under(input.take(i + 1), path) by {
                lemma_listed_under_insert(sorted, j as int, x, path);
                assert(input.take(i + 1).drop_last() =~= input.take(i as int));
                assert(listed_under(sorted, path) == listed_under(input.take(i as int), path));
            }
        }
        i += 1;
    }
    proof {
        assert(items@.take(items.len() as int) =~= items@);
        assert(input.take(items.len() as int) =~= input);
    }
}

/// The non-strict order on texts is transitive.
pub proof fn lemma_le_transitive(a: Seq<char>, b: Seq<char>, c: Seq<char>)
    requires
        text_le(a, b),
        text_le(b, c),
    ensures
        text_le(a, c),
{
    if a != b && b != c {
        lemma_text_lt_transitive(a, b, c);
    }
}

/// Two sequences in order, with the same items as often and the same items
/// in the same order under every path, are equal.
proof fn lemma_same_listing<T: Listed>(a: Seq<T>, b: Seq<T>)
    requires
        in_order(a),
        in_order(b),
        a.to_multiset() == b.to_multiset(),
        forall|path: Seq<char>| #[trigger] listed_under(a, path) == listed_under(b, path),
    ensures
        a == b,
    decreases a.len(),
{
    broadcast use {to_multiset_len, to_multiset_contains};

    assert(a.len() == a.to_multiset().len());
    assert(b.len() == b.to_multiset().len());
    if a.len() == 0 {
        assert(a =~= b);
    } else {
        let x = a.last();
        let y = b.last();
        let short_a = a.drop_last();
        let short_b = b.drop_last();
        // the last items are listed under the same path
        assert(a.contains(x)) by {
            assert(a[a.len() - 1] == x);
        }
        assert(b.contains(y)) by {
            assert(b[b.len() - 1] == y);
        }
        assert(a.to_multiset().count(x) > 0);
        assert(b.to_multiset().count(y) > 0);
        assert(b.contains(x));
        assert(a.contains(y));
        let ix = choose|i: int| 0 <= i < b.len() && b[i] == x;
        let iy = choose|i: int| 0 <= i < a.len() && a[i] == y;
        assert(text_le(b[ix].path_text(), b[b.len() - 1].path_text()));
        assert(text_le(a[iy].path_text(), a[a.len() - 1].path_text()));
        lemma_text_order_total(x.path_text(), y.path_text());
        let path = x.path_text();
        assert(y.path_text() == path);
        // so they are the same item
        assert(listed_under(a, path) == listed_under(short_a, path).push(x));
        assert(listed_under(b, path) == listed_under(short_b, path).push(y));
        assert(listed_under(a, path) == listed_under(b, path));
        assert(listed_under(short_a, path).push(x).last() == x);
        assert(listed_under(short_b, path).push(y).last() == y);
        assert(x == y);
        // and what stands before them is equal by induction
        assert forall|i: int, j: int| 0 <= i < j < short_a.len() implies text_le(
            (#[trigger] short_a[i]).path_text(),
            (#[trigger] short_a[j]).path_text(),
        ) by {
            assert(short_a[i] == a[i] && short_a[j] == a[j]);
        }
        assert forall|i: int, j: int| 0 <= i < j < short_b.len() implies text_le(
            (#[trigger] short_b[i]).path_text(),
            (#[trigger] short_b[j]).path_text(),
        ) by {
            assert(short_b[i] == b[i] && short_b[j] == b[j]);
        }
        assert(a =~= short_a.push(x));
        assert(b =~= short_b.push(y));
        to_multiset_build(short_a, x);
        to_multiset_build(short_b, y);
        assert(short_a.to_multiset() =~= short_b.to_multiset()) by {
            assert forall|v: T| short_a.to_multiset().count(v) == short_b.to_multiset().count(
                v,
            ) by {
                assert(short_a.to_multiset().insert(x).count(v) == short_b.to_multiset().insert(
                    y,
                ).count(v));
            }
        }
        assert forall|other: Seq<char>| #[trigger]
            listed_under(short_a, other) == listed_under(short_b, other) by {
            assert(listed_under(a, other) == listed_under(b, other));
            if other == path {
                assert(listed_under(short_a, path).push(x).drop_last() =~= listed_under(
                    short_a,
                    path,
                ));
                assert(listed_under(short_b, path).push(y).drop_last() =~= listed_under(
                    short_b,
                    path,
                ));
            }
        }
        lemma_same_listing(short_a, short_b);
    }
}

/// Sorting by path has one result: two sortings of the same items are
/// equal.
pub proof fn lemma_sorting_unique<T: Listed>(a: Seq<T>, b: Seq<T>, input: Seq<T>)
    requires
        is_sorting_of(a, input),
        is_sorting_of(b, input),
    ensures
        a == b,
{
    assert forall|path: Seq<char>| #[trigger] listed_under(a, path) == listed_under(b, path) by {
        assert(listed_under(a, path) == listed_under(input, path));
        assert(listed_under(b, path) == listed_under(input, path));
    }
    lemma_same_listing(a, b);
}

/// Where no path occurs twice, what is listed under a path is the one item
/// that has it, or nothing.
pub proof fn lemma_listed_under_distinct<T: Listed>(items: Seq<T>, path: Seq<char>)
    requires
        distinct_paths(items),
    ensures
        forall|i: int|
            0 <= i < items.len() && (#[trigger] items[i]).path_text() == path ==> listed_under(
                items,
                path,
            ) == seq![items[i]],
        (forall|i: int| 0 <= i < items.len() ==> (#[trigger] items[i]).path_text() != path)
            ==> listed_under(items, path) == Seq::<T>::empty(),
    decreases items.len(),
{
    if items.len() > 0 {
        let init = items.drop_last();
        let last = items.len() - 1;
        assert forall|i: int, j: int| 0 <= i < j < init.len() implies (
        #[trigger] init[i]).path_text() != (#[trigger] init[j]).path_text() by {
            assert(init[i] == items[i] && init[j] == items[j]);
        }
        lemma_listed_under_distinct(init, path);
        if items[last].path_text() == path {
            assert forall|i: int| 0 <= i < init.len() implies (#[trigger] init[i]).path_text()
                != path by {
                assert(init[i] == items[i]);
            }
            assert(listed_under(items, path) =~= seq![items[last]]);
        } else {
            assert forall|i: int|
                0 <= i < items.len() && (#[trigger] items[i]).path_text()
                    == path implies listed_under(items, path) == seq![items[i]] by {
                assert(init[i] == items[i]);
            }
            if forall|i: int| 0 <= i < items.len() ==> (#[trigger] items[i]).path_text() != path {
                assert forall|i: int| 0 <= i < init.len() implies (#[trigger] init[i]).path_text()
                    != path by {
                    assert(init[i] == items[i]);
                }
            }
        }
    }
}

/// The order in which the items arrive does not matter: where no path
/// occurs twice, two arrangements of the same items have the same sorting.
pub proof fn lemma_sorting_ignores_arrival<T: Listed>(
    out_a: Seq<T>,
    out_b: Seq<T>,
    a: Seq<T>,
    b: Seq<T>,
)
    requires
        is_sorting_of(out_a, a),
        is_sorting_of(out_b, b),
        a.to_multiset() == b.to_multiset(),
        distinct_paths(a),
        distinct_paths(b),
    ensures
        out_a == out_b,
{
    broadcast use to_multiset_contains;

    assert forall|path: Seq<char>| #[trigger] listed_under(a, path) == listed_under(b, path) by {
        lemma_listed_under_distinct(a, path);
        lemma_listed_under_distinct(b, path);
        if exists|i: int| 0 <= i < a.len() && (#[trigger] a[i]).path_text() == path {
            let i = choose|i: int| 0 <= i < a.len() && (#[trigger] a[i]).path_text() == path;
            assert(a.contains(a[i]));
            assert(b.to_multiset().count(a[i]) > 0);
            assert(b.contains(a[i]));
            let j = choose|j: int| 0 <= j < b.len() && b[j] == a[i];
            assert(b[j].path_text() == path);
        } else {
            if exists|j: int| 0 <= j < b.len() && (#[trigger] b[j]).path_text() == path {
                let j = choose|j: int| 0 <= j < b.len() && (#[trigger] b[j]).path_text() == path;
                assert(b.contains(b[j]));
                assert(a.to_multiset().count(b[j]) > 0);
                assert(a.contains(b[j]));
                let i = choose|i: int| 0 <= i < a.len() && a[i] == b[j];
                assert(a[i].path_text() == path);
            }
        }
    }
    assert forall|path: Seq<char>| #[trigger]
        listed_under(out_b, path) == listed_under(a, path) by {
        assert(listed_under(out_b, path) == listed_under(b, path));
        assert(listed_under(a, path) == listed_under(b, path));
    }
    lemma_sorting_unique(out_a, out_b, a);
}

} // verus!
