//! Sorting by name.
use crate::text::{lemma_text_less_total, lemma_text_less_transitive, text_before, text_less};
use vstd::prelude::*;

verus! {

/// What is sorted by its name.
pub trait Named: View + Sized {
    /// The name of a value.
    spec fn key(v: Self::V) -> Seq<char>;

    /// The name.
    fn name(&self) -> (r: &str)
        ensures
            r@ == Self::key(self@),
    ;
}

/// The items with one name, in their order.
pub open spec fn with_key<A>(items: Seq<A>, key: spec_fn(A) -> Seq<char>, name: Seq<char>) -> Seq<A> {
    items.filter(|x: A| key(x) == name)
}

/// Whether `sorted` holds `items` in the order of their names, those with the same name in the
/// order that they had.
pub open spec fn is_sort_of<A>(
    sorted: Seq<A>,
    items: Seq<A>,
    key: spec_fn(A) -> Seq<char>,
) -> bool {
    &&& forall|i: int, j: int|
        0 <= i < j < sorted.len() ==> !text_less(key(#[trigger] sorted[j]), key(#[trigger] sorted[i]))
    &&& forall|name: Seq<char>|
        #[trigger] with_key(sorted, key, name) == with_key(items, key, name)
}

/// The values of a list.
pub open spec fn views<T: View>(items: Seq<T>) -> Seq<T::V> {
    items.map_values(|x: T| x@)
}

/// What two lists hold under one name, they hold together in that order.
proof fn lemma_with_key_add<A>(
    a: Seq<A>,
    b: Seq<A>,
    key: spec_fn(A) -> Seq<char>,
    name: Seq<char>,
)
    ensures
        with_key(a + b, key, name) == with_key(a, key, name) + with_key(b, key, name),
{
    Seq::filter_distributes_over_add(a, b, |x: A| key(x) == name);
}

/// A list without a name holds nothing under it.
proof fn lemma_with_key_none<A>(a: Seq<A>, key: spec_fn(A) -> Seq<char>, name: Seq<char>)
    requires
        forall|i: int| 0 <= i < a.len() ==> key(#[trigger] a[i]) != name,
    ensures
        with_key(a, key, name) == Seq::<A>::empty(),
    decreases a.len(),
{
    reveal(Seq::filter);
    if a.len() > 0 {
        assert forall|i: int| 0 <= i < a.drop_last().len() implies key(#[trigger] a.drop_last()[i])
            != name by {
            assert(a.drop_last()[i] == a[i]);
        }
        lemma_with_key_none(a.drop_last(), key, name);
        assert(key(a.last()) != name);
    }
}

/// An item that is put before the first item that does not come before it.
proof fn lemma_insert_keeps_sort<A>(
    sorted: Seq<A>,
    rest: Seq<A>,
    key: spec_fn(A) -> Seq<char>,
    x: A,
    at: int,
)
    requires
        is_sort_of(sorted, rest, key),
        0 <= at <= sorted.len(),
        forall|i: int| 0 <= i < at ==> text_less(key(#[trigger] sorted[i]), key(x)),
        at < sorted.len() ==> !text_less(key(sorted[at]), key(x)),
    ensures
        is_sort_of(sorted.insert(at, x), seq![x] + rest, key),
{
    let r = sorted.insert(at, x);
    assert forall|i: int, j: int| 0 <= i < j < r.len() implies !text_less(
        key(#[trigger] r[j]),
        key(#[trigger] r[i]),
    ) by {
        if j == at {
            lemma_text_less_total(key(sorted[i]), key(x));
        } else if i == at {
            let y = sorted[j - 1];
            assert(r[j] == y);
            if text_less(key(y), key(x)) {
                if j - 1 > at {
                    assert(!text_less(key(sorted[j - 1]), key(sorted[at])));
                    lemma_text_less_total(key(y), key(sorted[at]));
                    lemma_text_less_total(key(sorted[at]), key(x));
                    if text_less(key(sorted[at]), key(y)) {
                        lemma_text_less_transitive(key(sorted[at]), key(y), key(x));
                    }
                }
            }
        } else {
            let a = if i < at {
                i
            } else {
                i - 1
            };
            let b = if j < at {
                j
            } else {
                j - 1
            };
            assert(r[i] == sorted[a] && r[j] == sorted[b]);
        }
    }
    assert forall|name: Seq<char>| #[trigger] with_key(r, key, name) == with_key(
        seq![x] + rest,
        key,
        name,
    ) by {
        let front = sorted.take(at);
        let back = sorted.skip(at);
        assert(r =~= front + (seq![x] + back));
        assert(sorted =~= front + back);
        lemma_with_key_add(front, seq![x] + back, key, name);
        lemma_with_key_add(seq![x], back, key, name);
        lemma_with_key_add(front, back, key, name);
        lemma_with_key_add(seq![x], rest, key, name);
        assert(with_key(sorted, key, name) == with_key(rest, key, name));
        if key(x) == name {
            assert forall|i: int| 0 <= i < front.len() implies key(#[trigger] front[i]) != name by {
                assert(front[i] == sorted[i]);
                lemma_text_less_total(key(sorted[i]), key(x));
            }
            lemma_with_key_none(front, key, name);
        } else {
            lemma_with_key_none(seq![x], key, name);
        }
        assert(with_key(r, key, name) =~= with_key(seq![x] + rest, key, name));
    }
}

/// An item occurs as often in a list as among the items of its name.
proof fn lemma_count_with_key<A>(s: Seq<A>, key: spec_fn(A) -> Seq<char>, x: A)
    ensures
        s.to_multiset().count(x) == with_key(s, key, key(x)).to_multiset().count(x),
    decreases s.len(),
{
    broadcast use vstd::seq_lib::group_to_multiset_ensures;

    reveal(Seq::filter);
    if s.len() > 0 {
        let front = s.drop_last();
        lemma_count_with_key(front, key, x);
        assert(s =~= front.push(s.last()));
    } else {
        assert(s =~= with_key(s, key, key(x)));
    }
}

/// A sorted list holds just the items that it was sorted from, each as often; no item comes after
/// one with a greater name, and items of one name stay in the order that they had.
pub proof fn law_sorting_keeps_items<A>(
    sorted: Seq<A>,
    items: Seq<A>,
    key: spec_fn(A) -> Seq<char>,
)
    requires
        is_sort_of(sorted, items, key),
    ensures
        sorted.to_multiset() =~= items.to_multiset(),
        sorted.len() == items.len(),
        forall|i: int, j: int|
            0 <= i < j < sorted.len() && key(#[trigger] sorted[i]) != key(#[trigger] sorted[j])
                ==> text_less(key(sorted[i]), key(sorted[j])),
        forall|i: int| 0 <= i < items.len() ==> sorted.contains(#[trigger] items[i]),
        forall|x: A|
            sorted.filter(|y: A| key(y) == #[trigger] key(x)) == items.filter(
                |y: A| key(y) == key(x),
            ),
{
    broadcast use vstd::seq_lib::group_to_multiset_ensures;

    assert forall|x: A|
        sorted.to_multiset().count(x) == #[trigger] items.to_multiset().count(x) by {
        lemma_count_with_key(sorted, key, x);
        lemma_count_with_key(items, key, x);
        assert(with_key(sorted, key, key(x)) == with_key(items, key, key(x)));
    }
    assert(sorted.to_multiset() =~= items.to_multiset());
    assert(sorted.to_multiset().len() == sorted.len());
    assert(items.to_multiset().len() == items.len());
    assert forall|i: int, j: int|
        0 <= i < j < sorted.len() && key(#[trigger] sorted[i]) != key(
            #[trigger] sorted[j],
        ) implies text_less(key(sorted[i]), key(sorted[j])) by {
        lemma_text_less_total(key(sorted[i]), key(sorted[j]));
    }
    assert forall|x: A|
        sorted.filter(|y: A| key(y) == #[trigger] key(x)) == items.filter(
            |y: A| key(y) == key(x),
        ) by {
        assert(with_key(sorted, key, key(x)) == with_key(items, key, key(x)));
    }
    assert forall|i: int| 0 <= i < items.len() implies sorted.contains(#[trigger] items[i]) by {
        assert(items.contains(items[i]));
        assert(items.to_multiset().count(items[i]) > 0);
    }
}

/// Sorts a list by name; items with the same name keep their order.
pub fn sort_by_name<T: Named>(items: Vec<T>) -> (sorted: Vec<T>)
    ensures
        is_sort_of(views(sorted@), views(items@), |v: T::V| T::key(v)),
{
    let ghost all = views(items@);
    let ghost key = |v: T::V| T::key(v);
    let mut items = items;
    let mut sorted: Vec<T> = Vec::new();
    assert(views(items@) =~= all.take(items@.len() as int));
    assert(all.skip(items@.len() as int) =~= Seq::empty());
    assert(views(sorted@) =~= Seq::empty());
    while items.len() > 0
        invariant
            items@.len() <= all.len(),
            views(items@) == all.take(items@.len() as int),
            is_sort_of(views(sorted@), all.skip(items@.len() as int), key),
            key == |v: T::V| T::key(v),
        decreases items@.len(),
    {
        let ghost before = items@;
        let item = items.pop().unwrap();
        let ghost x = item@;
        proof {
            let n = before.len() - 1;
            assert(x == views(before)[n]);
            assert(all[n] == all.take(before.len() as int)[n]);
            assert(all.skip(n) =~= seq![x] + all.skip(before.len() as int));
            assert(views(items@) =~= all.take(n));
        }
        let mut at: usize = 0;
        while at < sorted.len() && text_before(sorted[at].name(), item.name())
            invariant
                at <= sorted@.len(),
                x == item@,
                key == |v: T::V| T::key(v),
                forall|i: int| 0 <= i < at ==> text_less(key(#[trigger] views(sorted@)[i]), key(x)),
            decreases sorted@.len() - at,
        {
            assert(views(sorted@)[at as int] == sorted@[at as int]@);
            at = at + 1;
        }
        proof {
            if at < sorted@.len() {
                assert(views(sorted@)[at as int] == sorted@[at as int]@);
            }
            lemma_insert_keeps_sort(
                views(sorted@),
                all.skip(before.len() as int),
                key,
                x,
                at as int,
            );
            assert(views(sorted@.insert(at as int, item)) =~= views(sorted@).insert(at as int, x));
        }
        sorted.insert(at, item);
    }
    assert(all.skip(0) =~= all);
    sorted
}

/// Filtering one more item.
pub proof fn lemma_filter_take_succ<A>(s: Seq<A>, p: spec_fn(A) -> bool, i: int)
    requires
        0 <= i < s.len(),
    ensures
        s.take(i + 1).filter(p) == (if p(s[i]) {
            s.take(i).filter(p).push(s[i])
        } else {
            s.take(i).filter(p)
        }),
{
    reveal(Seq::filter);
    assert(s.take(i + 1).drop_last() =~= s.take(i));
}

/// Picking values of some items is filtering these items and taking the value of each.
pub proof fn lemma_filter_map_is_filter<A, B>(
    s: Seq<A>,
    f: spec_fn(A) -> Option<B>,
    p: spec_fn(A) -> bool,
    g: spec_fn(A) -> B,
)
    requires
        forall|i: int|
            0 <= i < s.len() ==> f(#[trigger] s[i]) == (if p(s[i]) {
                Some(g(s[i]))
            } else {
                None
            }),
    ensures
        s.filter_map(f) == s.filter(p).map_values(g),
    decreases s.len(),
{
    reveal(Seq::filter);
    reveal(Seq::filter_map);
    if s.len() > 0 {
        let front = s.drop_last();
        assert forall|i: int| 0 <= i < front.len() implies f(#[trigger] front[i]) == (if p(
            front[i],
        ) {
            Some(g(front[i]))
        } else {
            None
        }) by {
            assert(front[i] == s[i]);
        }
        lemma_filter_map_is_filter(front, f, p, g);
        assert(s[s.len() - 1] == s.last());
        if p(s.last()) {
            assert(s.filter(p).map_values(g) =~= front.filter(p).map_values(g).push(g(s.last())));
        }
        assert(s.filter_map(f) =~= s.filter(p).map_values(g));
    } else {
        assert(s.filter_map(f) =~= s.filter(p).map_values(g));
    }
}

/// An item that passes is among those that a filter keeps, and only such items are.
pub proof fn lemma_filter_holds<A>(s: Seq<A>, p: spec_fn(A) -> bool, x: A)
    ensures
        s.filter(p).contains(x) <==> s.contains(x) && p(x),
    decreases s.len(),
{
    if s.contains(x) && p(x) {
        let i = choose|i: int| 0 <= i < s.len() && s[i] == x;
        s.lemma_filter_contains(p, i);
    }
    if s.filter(p).contains(x) {
        let k = choose|k: int| 0 <= k < s.filter(p).len() && s.filter(p)[k] == x;
        s.lemma_filter_pred(p, k);
        s.lemma_filter_contains_rev(p, x);
    }
}

/// Filtering nothing.
pub proof fn lemma_filter_empty<A>(s: Seq<A>, p: spec_fn(A) -> bool)
    requires
        s.len() == 0,
    ensures
        s.filter(p) == Seq::<A>::empty(),
{
    reveal(Seq::filter);
}

} // verus!
