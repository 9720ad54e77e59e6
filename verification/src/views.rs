//! The view of a sequence, item by item, and the first position of an item.

use vstd::prelude::*;

verus! {

/// The views of the items of a sequence, in the same order.
pub open spec fn views<T: View>(items: Seq<T>) -> Seq<T::V> {
    Seq::new(items.len(), |i: int| items[i]@)
}

/// The views of a sequence that got one more item are the views it had and
/// the view of that item.
pub proof fn lemma_views_push<T: View>(items: Seq<T>, item: T)
    ensures
        views(items.push(item)) == views(items).push(item@),
{
    assert(views(items.push(item)) =~= views(items).push(item@));
}

/// The views of two sequences, one behind the other, are the views of the
/// first and then those of the second.
pub proof fn lemma_views_concat<T: View>(first: Seq<T>, second: Seq<T>)
    ensures
        views(first + second) == views(first) + views(second),
{
    assert(views(first + second) =~= views(first) + views(second));
}

/// Where `needle` stands at position `k` and nowhere before it, `k` is its
/// first position.
pub proof fn lemma_first_position<A>(items: Seq<A>, needle: A, k: int)
    requires
        0 <= k < items.len(),
        items[k] == needle,
        forall|j: int| 0 <= j < k ==> items[j] != needle,
    ensures
        items.index_of_first(needle) == Some(k),
{
    items.index_of_first_ensures(needle);
    let first = items.index_of_first(needle).unwrap();
    if first < k {
        assert(items[first] != needle);
    }
}

/// Where `needle` stands nowhere, it has no first position.
pub proof fn lemma_no_position<A>(items: Seq<A>, needle: A)
    requires
        forall|j: int| 0 <= j < items.len() ==> items[j] != needle,
    ensures
        items.index_of_first(needle) is None,
        !items.contains(needle),
{
    items.index_of_first_ensures(needle);
}

} // verus!
