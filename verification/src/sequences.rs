//! Facts about sequences that the stages share.

use vstd::multiset::Multiset;
use vstd::prelude::*;

verus! {

/// Filtering a sequence that grew by one item keeps the item exactly when the
/// predicate holds of it, and leaves what was kept before as it was.
pub proof fn lemma_filter_push<A>(items: Seq<A>, item: A, pred: spec_fn(A) -> bool)
    ensures
        items.push(item).filter(pred) == if pred(item) {
            items.filter(pred).push(item)
        } else {
            items.filter(pred)
        },
{
    reveal(Seq::filter);
    assert(items.push(item).drop_last() == items);
}

/// A sequence without items holds nothing even once.
pub proof fn lemma_nothing_in_empty<A>(items: Seq<A>)
    requires
        items.len() == 0,
    ensures
        items.to_multiset() == Multiset::<A>::empty(),
{
    items.to_multiset_ensures();
    assert forall|x: A| items.to_multiset().count(x) == 0 by {
        assert(!items.contains(x));
    }
    assert(items.to_multiset() =~= Multiset::<A>::empty());
}

/// No two items of `items` have the same key.
pub open spec fn distinct_by<A, K>(items: Seq<A>, key: spec_fn(A) -> K) -> bool {
    forall|i: int, j: int| 0 <= i < j < items.len() ==> key(items[i]) != key(items[j])
}

/// What a filter keeps is what the sequence holds and the predicate accepts.
pub proof fn lemma_filter_member<A>(items: Seq<A>, pred: spec_fn(A) -> bool)
    ensures
        forall|x: A| #[trigger] items.filter(pred).contains(x) <==> items.contains(x) && pred(x),
    decreases items.len(),
{
    reveal(Seq::filter);
    if items.len() > 0 {
        let front = items.drop_last();
        let last = items.last();
        let kept = items.filter(pred);
        let kept_front = front.filter(pred);
        lemma_filter_member(front, pred);
        assert forall|x: A| #[trigger] kept.contains(x) <==> items.contains(x) && pred(x) by {
            if kept.contains(x) {
                let k = choose|k: int| 0 <= k < kept.len() && kept[k] == x;
                if k < kept_front.len() {
                    assert(kept_front[k] == x);
                    assert(kept_front.contains(x));
                    let i = choose|i: int| 0 <= i < front.len() && front[i] == x;
                    assert(items[i] == x);
                } else {
                    assert(items[items.len() - 1] == x);
                }
            }
            if items.contains(x) && pred(x) {
                let i = choose|i: int| 0 <= i < items.len() && items[i] == x;
                if i < front.len() {
                    assert(front[i] == x);
                    assert(kept_front.contains(x));
                    let k = choose|k: int| 0 <= k < kept_front.len() && kept_front[k] == x;
                    assert(kept[k] == x);
                } else {
                    assert(kept[kept.len() - 1] == x);
                }
            }
        }
    }
}

/// A filter keeps every occurrence of an item that the predicate accepts,
/// and none of an item that it refuses.
pub proof fn lemma_filter_count<A>(items: Seq<A>, pred: spec_fn(A) -> bool)
    ensures
        forall|x: A| #[trigger]
            items.filter(pred).to_multiset().count(x) == if pred(x) {
                items.to_multiset().count(x)
            } else {
                0
            },
    decreases items.len(),
{
    reveal(Seq::filter);
    let kept = items.filter(pred);
    if items.len() == 0 {
        items.to_multiset_ensures();
        assert forall|x: A| #[trigger] kept.to_multiset().count(x) == 0 by {
            assert(!items.contains(x));
        }
    } else {
        let front = items.drop_last();
        let last = items.last();
        lemma_filter_count(front, pred);
        assert(items == front.push(last));
        front.to_multiset_ensures();
        front.filter(pred).to_multiset_ensures();
        assert(items.to_multiset() == front.to_multiset().insert(last));
    }
}

/// Where no two items have the same key, no two of the items that a filter
/// keeps have the same key.
pub proof fn lemma_filter_distinct<A, K>(items: Seq<A>, pred: spec_fn(A) -> bool, key: spec_fn(A) -> K)
    requires
        distinct_by(items, key),
    ensures
        distinct_by(items.filter(pred), key),
    decreases items.len(),
{
    reveal(Seq::filter);
    if items.len() > 0 {
        let front = items.drop_last();
        let last = items.last();
        let kept = items.filter(pred);
        let kept_front = front.filter(pred);
        assert(distinct_by(front, key)) by {
            assert forall|i: int, j: int| 0 <= i < j < front.len() implies key(front[i]) != key(
                front[j],
            ) by {
                assert(front[i] == items[i] && front[j] == items[j]);
            }
        }
        lemma_filter_distinct(front, pred, key);
        lemma_filter_member(front, pred);
        assert forall|i: int, j: int| 0 <= i < j < kept.len() implies key(kept[i]) != key(
            kept[j],
        ) by {
            if j < kept_front.len() {
                assert(kept[i] == kept_front[i] && kept[j] == kept_front[j]);
            } else {
                assert(kept[j] == last);
                assert(kept_front[i] == kept[i]);
                assert(kept_front.contains(kept[i]));
                let k = choose|k: int| 0 <= k < front.len() && front[k] == kept[i];
                assert(items[k] == kept[i]);
                assert(key(items[k]) != key(items[items.len() - 1]));
            }
        }
    }
}

/// Sequences with the same items, each as often, have the same images under
/// a function, each as often.
pub proof fn lemma_map_same_items<A, B>(a: Seq<A>, b: Seq<A>, f: spec_fn(A) -> B)
    requires
        a.to_multiset() == b.to_multiset(),
    ensures
        a.map_values(f).to_multiset() == b.map_values(f).to_multiset(),
    decreases a.len(),
{
    a.to_multiset_ensures();
    b.to_multiset_ensures();
    if a.len() == 0 {
        assert(b.len() == 0);
        assert(a.map_values(f) =~= b.map_values(f));
    } else {
        let x = a.last();
        assert(a.contains(x)) by {
            assert(a[a.len() - 1] == x);
        }
        assert(a.to_multiset().count(x) > 0);
        assert(b.to_multiset().count(x) > 0);
        assert(b.contains(x));
        let i = choose|i: int| 0 <= i < b.len() && b[i] == x;
        let a_rest = a.drop_last();
        let b_rest = b.remove(i);
        assert(a.remove(a.len() - 1) =~= a_rest);
        assert(a_rest.to_multiset() == b_rest.to_multiset());
        lemma_map_same_items(a_rest, b_rest, f);
        let fa = a.map_values(f);
        let fb = b.map_values(f);
        fa.to_multiset_ensures();
        fb.to_multiset_ensures();
        assert(fa.remove(fa.len() - 1) =~= a_rest.map_values(f));
        assert(fb.remove(i) =~= b_rest.map_values(f));
        assert(fa[fa.len() - 1] == f(x) && fb[i] == f(x));
        assert(fa.to_multiset().remove(f(x)) == fb.to_multiset().remove(f(x)));
        assert(fa.contains(f(x)) && fb.contains(f(x)));
        assert(fa.to_multiset().count(f(x)) > 0 && fb.to_multiset().count(f(x)) > 0);
        assert(fa.to_multiset() =~= fa.to_multiset().remove(f(x)).insert(f(x)));
        assert(fb.to_multiset() =~= fb.to_multiset().remove(f(x)).insert(f(x)));
    }
}

} // verus!
