//! Stable sorting by a text key.
//!
//! A sort is described by the positions it takes its items from: `order[i]`
//! is the position, in the unsorted sequence, of the item that comes `i`-th.
//! For every sequence of keys there is exactly one such order that sorts the
//! keys and keeps items with the same key in the order they had.

use crate::text::{
    compare_text, lemma_text_lt_total, lemma_text_lt_transitive, text_lt,
};
use itertools::Itertools;
use vstd::prelude::*;
use vstd::set_lib::{lemma_int_range, lemma_subset_equality, set_int_range};

verus! {

/// Whether the item at position `i` has to come before the one at position
/// `j`: its key is smaller, or the keys are the same and it stood first.
pub open spec fn comes_before(keys: Seq<Seq<char>>, i: int, j: int) -> bool {
    text_lt(keys[i], keys[j]) || (keys[i] == keys[j] && i < j)
}

/// Whether every entry of `order` is a position in a sequence of `len` items.
pub open spec fn in_range(order: Seq<int>, len: nat) -> bool {
    forall|i: int| 0 <= i < order.len() ==> 0 <= #[trigger] order[i] < len
}

/// Whether the positions in `order` are listed as `comes_before` demands.
pub open spec fn ascending(order: Seq<int>, keys: Seq<Seq<char>>) -> bool {
    forall|i: int, j: int|
        #![trigger order[i], order[j]]
        0 <= i < j < order.len() ==> comes_before(keys, order[i], order[j])
}

/// Whether `order` is the stable sort of `keys`.
pub open spec fn is_stable_order(order: Seq<int>, keys: Seq<Seq<char>>) -> bool {
    &&& order.len() == keys.len()
    &&& in_range(order, keys.len())
    &&& ascending(order, keys)
}

/// The stable sort of `keys`.
pub open spec fn stable_order(keys: Seq<Seq<char>>) -> Seq<int> {
    choose|order: Seq<int>| is_stable_order(order, keys)
}

/// The items of `items`, taken in the given order.
pub open spec fn reorder<T>(items: Seq<T>, order: Seq<int>) -> Seq<T> {
    Seq::new(order.len(), |i: int| items[order[i]])
}

/// The positions that a vector of indices holds.
pub open spec fn positions(order: Seq<usize>) -> Seq<int> {
    Seq::new(order.len(), |i: int| order[i] as int)
}

/// The texts that a vector of string slices holds.
pub open spec fn texts(keys: Seq<&str>) -> Seq<Seq<char>> {
    Seq::new(keys.len(), |i: int| keys[i]@)
}

/// `comes_before` never holds both ways, and holds one way between two
/// different positions.
pub proof fn lemma_comes_before_total(keys: Seq<Seq<char>>, i: int, j: int)
    ensures
        !(comes_before(keys, i, j) && comes_before(keys, j, i)),
        i != j ==> comes_before(keys, i, j) || comes_before(keys, j, i),
{
    lemma_text_lt_total(keys[i], keys[j]);
}

/// `comes_before` is transitive.
pub proof fn lemma_comes_before_transitive(keys: Seq<Seq<char>>, i: int, j: int, k: int)
    requires
        comes_before(keys, i, j),
        comes_before(keys, j, k),
    ensures
        comes_before(keys, i, k),
{
    lemma_text_lt_total(keys[i], keys[j]);
    lemma_text_lt_total(keys[j], keys[k]);
    if text_lt(keys[i], keys[j]) && text_lt(keys[j], keys[k]) {
        lemma_text_lt_transitive(keys[i], keys[j], keys[k]);
    }
}

/// An ascending order names no position twice.
pub proof fn lemma_ascending_no_duplicates(order: Seq<int>, keys: Seq<Seq<char>>)
    requires
        ascending(order, keys),
    ensures
        order.no_duplicates(),
{
    assert forall|i: int, j: int| 0 <= i < order.len() && 0 <= j < order.len() && i != j implies order[i]
        != order[j] by {
        lemma_comes_before_total(keys, order[i], order[j]);
        if i < j {
            assert(comes_before(keys, order[i], order[j]));
        } else {
            assert(comes_before(keys, order[j], order[i]));
        }
    }
}

/// A stable order names every position.
pub proof fn lemma_stable_order_covers(order: Seq<int>, keys: Seq<Seq<char>>, v: int)
    requires
        is_stable_order(order, keys),
        0 <= v < keys.len(),
    ensures
        order.contains(v),
{
    let n = keys.len() as int;
    lemma_ascending_no_duplicates(order, keys);
    order.unique_seq_to_set();
    lemma_int_range(0, n);
    assert(order.to_set().subset_of(set_int_range(0, n))) by {
        assert forall|x: int| order.to_set().contains(x) implies set_int_range(0, n).contains(
            x,
        ) by {
            let i = choose|i: int| 0 <= i < order.len() && order[i] == x;
            assert(0 <= order[i] < n);
        }
    }
    vstd::seq_lib::seq_to_set_is_finite(order);
    lemma_subset_equality(order.to_set(), set_int_range(0, n));
    assert(set_int_range(0, n).contains(v));
    assert(order.to_set().contains(v));
}

/// Two stable orders of the same keys agree on their first `k` entries.
proof fn lemma_stable_orders_agree(a: Seq<int>, b: Seq<int>, keys: Seq<Seq<char>>, k: nat)
    requires
        is_stable_order(a, keys),
        is_stable_order(b, keys),
        k <= keys.len(),
    ensures
        forall|i: int| 0 <= i < k ==> a[i] == b[i],
    decreases k,
{
    if k > 0 {
        let p = (k - 1) as int;
        lemma_stable_orders_agree(a, b, keys, (k - 1) as nat);
        lemma_ascending_no_duplicates(a, keys);
        lemma_ascending_no_duplicates(b, keys);
        let v = a[p];
        let w = b[p];
        assert(0 <= a[p] < keys.len());
        assert(0 <= b[p] < keys.len());
        lemma_stable_order_covers(b, keys, v);
        lemma_stable_order_covers(a, keys, w);
        let j = choose|j: int| 0 <= j < b.len() && b[j] == v;
        let m = choose|m: int| 0 <= m < a.len() && a[m] == w;
        if j < p {
            assert(a[j] == b[j]);
        }
        if m < p {
            assert(a[m] == b[m]);
        }
        if j > p && m > p {
            assert(comes_before(keys, b[p], b[j]));
            assert(comes_before(keys, a[p], a[m]));
            lemma_comes_before_total(keys, v, w);
        }
    }
}

/// Any stable order of `keys` is `stable_order(keys)`.
pub proof fn lemma_stable_order_unique(order: Seq<int>, keys: Seq<Seq<char>>)
    requires
        is_stable_order(order, keys),
    ensures
        order == stable_order(keys),
        is_stable_order(stable_order(keys), keys),
{
    let chosen = stable_order(keys);
    lemma_stable_orders_agree(order, chosen, keys, keys.len());
    assert(order =~= chosen);
}

/// The order that takes up position `v` behind the positions in `sorted`
/// whose keys are not greater than its own.
pub open spec fn insert_position(sorted: Seq<int>, keys: Seq<Seq<char>>, v: int) -> Seq<int>
    decreases sorted.len(),
{
    if sorted.len() == 0 || !text_lt(keys[v], keys[sorted.last()]) {
        sorted.push(v)
    } else {
        insert_position(sorted.drop_last(), keys, v).push(sorted.last())
    }
}

/// The stable sort of `keys`, built by inserting one position after the
/// other.
pub open spec fn insertion_order(keys: Seq<Seq<char>>, upto: nat) -> Seq<int>
    decreases upto,
{
    if upto == 0 {
        Seq::empty()
    } else {
        insert_position(insertion_order(keys, (upto - 1) as nat), keys, upto - 1)
    }
}

proof fn lemma_insert_position(sorted: Seq<int>, keys: Seq<Seq<char>>, v: int)
    requires
        ascending(sorted, keys),
        forall|i: int| 0 <= i < sorted.len() ==> 0 <= #[trigger] sorted[i] < v,
        0 <= v < keys.len(),
    ensures
        ascending(insert_position(sorted, keys, v), keys),
        insert_position(sorted, keys, v).len() == sorted.len() + 1,
        forall|i: int|
            0 <= i < sorted.len() + 1 ==> {
                let x = #[trigger] insert_position(sorted, keys, v)[i];
                x == v || sorted.contains(x)
            },
    decreases sorted.len(),
{
    let out = insert_position(sorted, keys, v);
    if sorted.len() == 0 {
    } else if !text_lt(keys[v], keys[sorted.last()]) {
        let last = sorted.last();
        assert(0 <= sorted[sorted.len() - 1] < v);
        lemma_text_lt_total(keys[v], keys[last]);
        assert(comes_before(keys, last, v));
        assert forall|i: int, j: int| 0 <= i < j < out.len() implies comes_before(
            keys,
            out[i],
            out[j],
        ) by {
            if j == sorted.len() {
                if i < sorted.len() - 1 {
                    assert(comes_before(keys, sorted[i], sorted[sorted.len() - 1]));
                    lemma_comes_before_transitive(keys, sorted[i], last, v);
                }
            } else {
                assert(comes_before(keys, sorted[i], sorted[j]));
            }
        }
        assert forall|i: int| 0 <= i < sorted.len() + 1 implies {
            let x = #[trigger] out[i];
            x == v || sorted.contains(x)
        } by {
            if i < sorted.len() {
                assert(out[i] == sorted[i]);
            }
        }
    } else {
        let rest = sorted.drop_last();
        let last = sorted.last();
        assert forall|i: int, j: int| 0 <= i < j < rest.len() implies comes_before(
            keys,
            rest[i],
            rest[j],
        ) by {
            assert(comes_before(keys, sorted[i], sorted[j]));
        }
        assert forall|i: int| 0 <= i < rest.len() implies 0 <= #[trigger] rest[i] < v by {
            assert(0 <= sorted[i] < v);
        }
        lemma_insert_position(rest, keys, v);
        let front = insert_position(rest, keys, v);
        assert(comes_before(keys, v, last));
        assert forall|i: int, j: int| 0 <= i < j < out.len() implies comes_before(
            keys,
            out[i],
            out[j],
        ) by {
            if j == front.len() {
                let x = front[i];
                if x != v {
                    let m = choose|m: int| 0 <= m < rest.len() && rest[m] == x;
                    assert(comes_before(keys, sorted[m], sorted[sorted.len() - 1]));
                }
            } else {
                assert(comes_before(keys, front[i], front[j]));
            }
        }
        assert forall|i: int| 0 <= i < sorted.len() + 1 implies {
            let x = #[trigger] out[i];
            x == v || sorted.contains(x)
        } by {
            if i < front.len() {
                let x = front[i];
                if x != v {
                    let m = choose|m: int| 0 <= m < rest.len() && rest[m] == x;
                    assert(sorted[m] == x);
                }
            } else {
                assert(out[i] == sorted[sorted.len() - 1]);
            }
        }
    }
}

proof fn lemma_insertion_order(keys: Seq<Seq<char>>, upto: nat)
    requires
        upto <= keys.len(),
    ensures
        ascending(insertion_order(keys, upto), keys),
        insertion_order(keys, upto).len() == upto,
        forall|i: int| 0 <= i < upto ==> 0 <= #[trigger] insertion_order(keys, upto)[i] < upto,
    decreases upto,
{
    if upto > 0 {
        let before = insertion_order(keys, (upto - 1) as nat);
        lemma_insertion_order(keys, (upto - 1) as nat);
        lemma_insert_position(before, keys, upto - 1);
        let out = insertion_order(keys, upto);
        assert forall|i: int| 0 <= i < upto implies 0 <= #[trigger] out[i] < upto by {
            let x = out[i];
            if x != upto - 1 {
                let m = choose|m: int| 0 <= m < before.len() && before[m] == x;
                assert(0 <= before[m] < upto - 1);
            }
        }
    }
}

/// Every sequence of keys has a stable order, and `stable_order` is it.
pub proof fn lemma_stable_order_exists(keys: Seq<Seq<char>>)
    ensures
        is_stable_order(stable_order(keys), keys),
{
    lemma_insertion_order(keys, keys.len());
    let built = insertion_order(keys, keys.len());
    assert(is_stable_order(built, keys));
}

/// The positions of `keys` in stable sorted order.
///
/// Calls `itertools::Itertools::sorted_by` on the positions `0..keys.len()`,
/// comparing two positions by the keys that stand there. The contract claims
/// what the documentation of `sorted_by` promises of a sort by a total
/// order: the result holds every position once, in ascending order of key,
/// and positions with the same key in ascending order.
#[verifier::external_body]
pub(crate) fn sorted_positions(keys: &Vec<&str>) -> (order: Vec<usize>)
    ensures
        is_stable_order(positions(order@), texts(keys@)),
{
    (0..keys.len()).sorted_by(|a, b| compare_text(keys[*a], keys[*b])).collect()
}

} // verus!
