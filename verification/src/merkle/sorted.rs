//! Sorted, duplicate-free lists of byte strings.

use vstd::prelude::*;

use crate::bytes;

verus! {

/// The byte strings that a list of vectors holds.
pub open spec fn contents(list: Seq<Vec<u8>>) -> Seq<Seq<u8>> {
    list.map_values(|item: Vec<u8>| item@)
}

/// Every item comes before every later one; in particular none occurs twice.
pub open spec fn strictly_ascending(list: Seq<Seq<u8>>) -> bool {
    forall|i: int, j: int|
        0 <= i < j < list.len() ==> #[trigger] bytes::bytes_lt(list[i], list[j])
}

/// Every item comes after every later one.
spec fn strictly_descending(list: Seq<Seq<u8>>) -> bool {
    forall|i: int, j: int|
        0 <= i < j < list.len() ==> #[trigger] bytes::bytes_lt(list[j], list[i])
}

/// The two lists hold the same items, whatever the order and however often.
pub open spec fn same_items(a: Seq<Seq<u8>>, b: Seq<Seq<u8>>) -> bool {
    forall|x: Seq<u8>| #[trigger] a.contains(x) <==> b.contains(x)
}

/// A strictly ascending list is determined by what it holds.
pub proof fn law_ascending_lists_are_canonical(a: Seq<Seq<u8>>, b: Seq<Seq<u8>>)
    requires
        strictly_ascending(a),
        strictly_ascending(b),
        same_items(a, b),
    ensures
        a == b,
    decreases a.len(),
{
    if a.len() == 0 {
        if b.len() > 0 {
            assert(b.contains(b[0]));
            assert(a.contains(b[0]));
        }
        assert(a =~= b);
    } else {
        assert(a.contains(a.last()));
        assert(b.contains(a.last()));
        assert(b.contains(b.last()));
        assert(a.contains(b.last()));
        let i = choose|i: int| 0 <= i < b.len() && b[i] == a.last();
        let j = choose|j: int| 0 <= j < a.len() && a[j] == b.last();
        if i < b.len() - 1 {
            assert(bytes::bytes_lt(b[i], b[b.len() - 1]));
            bytes::lemma_bytes_lt_asymmetric(a.last(), b.last());
            if j < a.len() - 1 {
                assert(bytes::bytes_lt(a[j], a[a.len() - 1]));
            }
        }
        assert(a.last() == b.last());
        let shorter_a = a.drop_last();
        let shorter_b = b.drop_last();
        assert(strictly_ascending(shorter_a)) by {
            assert forall|i: int, j: int| 0 <= i < j < shorter_a.len() implies
                #[trigger] bytes::bytes_lt(shorter_a[i], shorter_a[j]) by {
                assert(bytes::bytes_lt(a[i], a[j]));
            }
        }
        assert(strictly_ascending(shorter_b)) by {
            assert forall|i: int, j: int| 0 <= i < j < shorter_b.len() implies
                #[trigger] bytes::bytes_lt(shorter_b[i], shorter_b[j]) by {
                assert(bytes::bytes_lt(b[i], b[j]));
            }
        }
        assert forall|x: Seq<u8>| #[trigger] shorter_a.contains(x) implies
            shorter_b.contains(x) by {
            lemma_drop_last_contains(a, x);
            lemma_drop_last_contains(b, x);
            assert(a.contains(x));
        }
        assert forall|x: Seq<u8>| #[trigger] shorter_b.contains(x) implies
            shorter_a.contains(x) by {
            lemma_drop_last_contains(a, x);
            lemma_drop_last_contains(b, x);
            assert(a.contains(x) <==> b.contains(x));
        }
        law_ascending_lists_are_canonical(shorter_a, shorter_b);
        assert(a =~= shorter_a.push(a.last()));
        assert(b =~= shorter_b.push(b.last()));
    }
}

/// Dropping the last item of an ascending list removes that item and no other.
proof fn lemma_drop_last_contains(list: Seq<Seq<u8>>, x: Seq<u8>)
    requires
        strictly_ascending(list),
        list.len() > 0,
    ensures
        list.drop_last().contains(x) <==> list.contains(x) && x != list.last(),
{
    if list.drop_last().contains(x) {
        let i = choose|i: int| 0 <= i < list.drop_last().len() && list.drop_last()[i] == x;
        assert(list[i] == x);
        assert(bytes::bytes_lt(list[i], list[list.len() - 1]));
        bytes::lemma_bytes_lt_asymmetric(x, list.last());
    }
    if list.contains(x) && x != list.last() {
        let i = choose|i: int| 0 <= i < list.len() && list[i] == x;
        assert(list.drop_last()[i] == x);
    }
}

/// Halfway through a merge: `a` and `b` are what is left of the two ascending
/// inputs, `out` is what has been taken from their ends, largest first, and
/// together they hold the items of `all`.
spec fn merging(a: Seq<Seq<u8>>, b: Seq<Seq<u8>>, out: Seq<Seq<u8>>, all: Seq<Seq<u8>>) -> bool {
    &&& strictly_ascending(a)
    &&& strictly_ascending(b)
    &&& strictly_descending(out)
    &&& forall|i: int, j: int|
        0 <= i < a.len() && 0 <= j < out.len() ==> #[trigger] bytes::bytes_lt(a[i], out[j])
    &&& forall|i: int, j: int|
        0 <= i < b.len() && 0 <= j < out.len() ==> #[trigger] bytes::bytes_lt(b[i], out[j])
    &&& forall|x: Seq<u8>| #[trigger]
        all.contains(x) <==> a.contains(x) || b.contains(x) || out.contains(x)
}

/// Pushing onto a list adds the pushed item and no other.
proof fn lemma_push_contains(list: Seq<Seq<u8>>, item: Seq<u8>, x: Seq<u8>)
    ensures
        list.push(item).contains(x) <==> list.contains(x) || x == item,
{
    if list.contains(x) {
        let i = choose|i: int| 0 <= i < list.len() && list[i] == x;
        assert(list.push(item)[i] == x);
    }
    if x == item {
        assert(list.push(item)[list.len() as int] == x);
    }
    if list.push(item).contains(x) && x != item {
        let i = choose|i: int| 0 <= i < list.push(item).len() && list.push(item)[i] == x;
        assert(list[i] == x);
    }
}

/// The last item of an ascending list comes after all others.
proof fn lemma_drop_last_below_last(list: Seq<Seq<u8>>)
    requires
        strictly_ascending(list),
        list.len() > 0,
    ensures
        strictly_ascending(list.drop_last()),
        forall|i: int|
            0 <= i < list.len() - 1 ==> #[trigger] bytes::bytes_lt(
                list.drop_last()[i],
                list.last(),
            ),
{
    let shorter = list.drop_last();
    assert forall|i: int, j: int| 0 <= i < j < shorter.len() implies #[trigger] bytes::bytes_lt(
        shorter[i],
        shorter[j],
    ) by {
        assert(bytes::bytes_lt(list[i], list[j]));
    }
    assert forall|i: int| 0 <= i < list.len() - 1 implies #[trigger] bytes::bytes_lt(
        shorter[i],
        list.last(),
    ) by {
        assert(bytes::bytes_lt(list[i], list[list.len() - 1]));
    }
}

/// Taking the largest remaining item, from `a`, goes on with the merge.
proof fn lemma_take_from_first(
    a: Seq<Seq<u8>>,
    b: Seq<Seq<u8>>,
    out: Seq<Seq<u8>>,
    all: Seq<Seq<u8>>,
)
    requires
        merging(a, b, out, all),
        a.len() > 0,
        b.len() == 0 || bytes::bytes_lt(b.last(), a.last()),
    ensures
        merging(a.drop_last(), b, out.push(a.last()), all),
{
    let top = a.last();
    let rest = a.drop_last();
    let grown = out.push(top);
    lemma_drop_last_below_last(a);
    assert forall|i: int, j: int| 0 <= i < j < grown.len() implies #[trigger] bytes::bytes_lt(
        grown[j],
        grown[i],
    ) by {
        if j == out.len() {
            assert(bytes::bytes_lt(a[a.len() - 1], out[i]));
        } else {
            assert(bytes::bytes_lt(out[j], out[i]));
        }
    }
    assert forall|i: int, j: int| 0 <= i < rest.len() && 0 <= j < grown.len() implies
        #[trigger] bytes::bytes_lt(rest[i], grown[j]) by {
        if j < out.len() {
            assert(bytes::bytes_lt(a[i], out[j]));
        }
    }
    assert forall|i: int, j: int| 0 <= i < b.len() && 0 <= j < grown.len() implies
        #[trigger] bytes::bytes_lt(b[i], grown[j]) by {
        if j < out.len() {
            assert(bytes::bytes_lt(b[i], out[j]));
        } else if i < b.len() - 1 {
            assert(bytes::bytes_lt(b[i], b[b.len() - 1]));
            bytes::lemma_bytes_lt_transitive(b[i], b.last(), top);
        }
    }
    assert forall|x: Seq<u8>| #[trigger] all.contains(x) <==> rest.contains(x) || b.contains(x)
        || grown.contains(x) by {
        lemma_drop_last_contains(a, x);
        lemma_push_contains(out, top, x);
        assert(a.contains(top)) by {
            assert(a[a.len() - 1] == top);
        }
    }
}

/// The two inputs of a merge play the same part.
proof fn lemma_merging_symmetric(
    a: Seq<Seq<u8>>,
    b: Seq<Seq<u8>>,
    out: Seq<Seq<u8>>,
    all: Seq<Seq<u8>>,
)
    requires
        merging(a, b, out, all),
    ensures
        merging(b, a, out, all),
{
}

/// An item at the end of both inputs is taken once and dropped once.
proof fn lemma_take_from_both(
    a: Seq<Seq<u8>>,
    b: Seq<Seq<u8>>,
    out: Seq<Seq<u8>>,
    all: Seq<Seq<u8>>,
)
    requires
        merging(a, b, out, all),
        a.len() > 0,
        b.len() > 0,
        a.last() == b.last(),
    ensures
        merging(a.drop_last(), b.drop_last(), out.push(a.last()), all),
{
    let shorter = b.drop_last();
    lemma_drop_last_below_last(b);
    assert(merging(a, shorter, out, all)) by {
        assert forall|i: int, j: int| 0 <= i < shorter.len() && 0 <= j < out.len() implies
            #[trigger] bytes::bytes_lt(shorter[i], out[j]) by {
            assert(bytes::bytes_lt(b[i], out[j]));
        }
        assert forall|x: Seq<u8>| #[trigger] all.contains(x) <==> a.contains(x)
            || shorter.contains(x) || out.contains(x) by {
            lemma_drop_last_contains(b, x);
            assert(a[a.len() - 1] == a.last());
            assert(a.contains(a.last()));
        }
    }
    if shorter.len() > 0 {
        assert(bytes::bytes_lt(shorter[shorter.len() - 1], b.last()));
    }
    lemma_take_from_first(a, shorter, out, all);
}

/// Turning a descending list round makes it ascending and keeps its items.
proof fn lemma_reverse_of_descending(list: Seq<Seq<u8>>)
    requires
        strictly_descending(list),
    ensures
        strictly_ascending(list.reverse()),
        same_items(list.reverse(), list),
{
    let turned = list.reverse();
    let n = list.len() as int;
    assert forall|i: int, j: int| 0 <= i < j < turned.len() implies #[trigger] bytes::bytes_lt(
        turned[i],
        turned[j],
    ) by {
        assert(bytes::bytes_lt(list[n - 1 - i], list[n - 1 - j]));
    }
    assert forall|x: Seq<u8>| #[trigger] turned.contains(x) <==> list.contains(x) by {
        if turned.contains(x) {
            let i = choose|i: int| 0 <= i < turned.len() && turned[i] == x;
            assert(list[n - 1 - i] == x);
        }
        if list.contains(x) {
            let i = choose|i: int| 0 <= i < list.len() && list[i] == x;
            assert(turned[n - 1 - i] == x);
        }
    }
}

/// The items of a list, last first.
fn reversed(list: Vec<Vec<u8>>) -> (turned: Vec<Vec<u8>>)
    ensures
        contents(turned@) == contents(list@).reverse(),
{
    let ghost whole = list@;
    let mut rest = list;
    let mut turned: Vec<Vec<u8>> = Vec::with_capacity(rest.len());
    while rest.len() > 0
        invariant
            whole == rest@ + turned@.reverse(),
        decreases rest@.len(),
    {
        let ghost turned_before = turned@;
        let item = rest.pop().unwrap();
        turned.push(item);
        assert(turned@.reverse() =~= seq![item] + turned_before.reverse());
        assert(whole =~= rest@ + turned@.reverse());
    }
    assert(whole =~= turned@.reverse());
    assert(contents(turned@) =~= contents(whole).reverse());
    turned
}

/// The items of two ascending lists, in ascending order, each once.
fn merge(first: Vec<Vec<u8>>, second: Vec<Vec<u8>>) -> (merged: Vec<Vec<u8>>)
    requires
        strictly_ascending(contents(first@)),
        strictly_ascending(contents(second@)),
    ensures
        strictly_ascending(contents(merged@)),
        same_items(contents(merged@), contents(first@) + contents(second@)),
{
    let ghost all = contents(first@) + contents(second@);
    let mut a = first;
    let mut b = second;
    let mut out: Vec<Vec<u8>> = Vec::new();
    proof {
        lemma_merge_start(contents(a@), contents(b@));
        assert(contents(out@) =~= Seq::<Seq<u8>>::empty());
    }
    while a.len() > 0 || b.len() > 0
        invariant
            merging(contents(a@), contents(b@), contents(out@), all),
        decreases a@.len() + b@.len(),
    {
        let ghost av = contents(a@);
        let ghost bv = contents(b@);
        let ghost ov = contents(out@);
        let take_a: bool = a.len() > 0 && (b.len() == 0 || !bytes::bytes_less(
            a[a.len() - 1].as_slice(),
            b[b.len() - 1].as_slice(),
        ));
        let take_b: bool = b.len() > 0 && (a.len() == 0 || !bytes::bytes_less(
            b[b.len() - 1].as_slice(),
            a[a.len() - 1].as_slice(),
        ));
        proof {
            if av.len() > 0 && bv.len() > 0 {
                bytes::lemma_bytes_lt_total(av.last(), bv.last());
            }
            if take_a && take_b {
                lemma_take_from_both(av, bv, ov, all);
            } else if take_a {
                lemma_take_from_first(av, bv, ov, all);
            } else {
                lemma_merging_symmetric(av, bv, ov, all);
                lemma_take_from_first(bv, av, ov, all);
                lemma_merging_symmetric(bv.drop_last(), av, ov.push(bv.last()), all);
            }
        }
        if take_a {
            let item = a.pop().unwrap();
            if take_b {
                let _ = b.pop();
                assert(contents(b@) =~= bv.drop_last());
            }
            out.push(item);
            assert(contents(a@) =~= av.drop_last());
            assert(contents(out@) =~= ov.push(av.last()));
        } else {
            let item = b.pop().unwrap();
            out.push(item);
            assert(contents(b@) =~= bv.drop_last());
            assert(contents(out@) =~= ov.push(bv.last()));
        }
    }
    let merged = reversed(out);
    proof {
        lemma_reverse_of_descending(contents(out@));
        assert forall|x: Seq<u8>| #[trigger] contents(merged@).contains(x) <==> all.contains(x) by {
            assert(contents(out@).reverse().contains(x) <==> contents(out@).contains(x));
        }
    }
    merged
}

/// A merge starts with nothing taken.
proof fn lemma_merge_start(a: Seq<Seq<u8>>, b: Seq<Seq<u8>>)
    requires
        strictly_ascending(a),
        strictly_ascending(b),
    ensures
        merging(a, b, Seq::empty(), a + b),
{
    assert forall|x: Seq<u8>| #[trigger] (a + b).contains(x) <==> a.contains(x) || b.contains(x)
        || Seq::<Seq<u8>>::empty().contains(x) by {
        lemma_concat_contains(a, b, x);
    }
}

/// A concatenation holds the items of both parts.
proof fn lemma_concat_contains(a: Seq<Seq<u8>>, b: Seq<Seq<u8>>, x: Seq<u8>)
    ensures
        (a + b).contains(x) <==> a.contains(x) || b.contains(x),
{
    if a.contains(x) {
        let i = choose|i: int| 0 <= i < a.len() && a[i] == x;
        assert((a + b)[i] == x);
    }
    if b.contains(x) {
        let i = choose|i: int| 0 <= i < b.len() && b[i] == x;
        assert((a + b)[a.len() + i] == x);
    }
    if (a + b).contains(x) && !a.contains(x) {
        let i = choose|i: int| 0 <= i < (a + b).len() && (a + b)[i] == x;
        if i < a.len() {
            assert(a[i] == x);
        }
        assert(b[i - a.len()] == x);
    }
}

/// Sorts a list and drops repeated items.
pub fn sort_dedup(list: Vec<Vec<u8>>) -> (sorted: Vec<Vec<u8>>)
    ensures
        strictly_ascending(contents(sorted@)),
        same_items(contents(sorted@), contents(list@)),
    decreases list@.len(),
{
    if list.len() <= 1 {
        return list;
    }
    let ghost whole = contents(list@);
    let mut front = list;
    let middle: usize = front.len() / 2;
    let back = front.split_off(middle);
    let ghost front_items = contents(front@);
    let ghost back_items = contents(back@);
    assert(whole =~= front_items + back_items);
    let front = sort_dedup(front);
    let back = sort_dedup(back);
    let sorted = merge(front, back);
    proof {
        assert forall|x: Seq<u8>| #[trigger]
            contents(sorted@).contains(x) <==> whole.contains(x) by {
            lemma_concat_contains(contents(front@), contents(back@), x);
            lemma_concat_contains(front_items, back_items, x);
            assert(contents(front@).contains(x) <==> front_items.contains(x));
            assert(contents(back@).contains(x) <==> back_items.contains(x));
        }
    }
    sorted
}

/// How many items of an ascending list come before `target`.
pub fn lower_bound(list: &Vec<Vec<u8>>, target: &[u8]) -> (position: usize)
    requires
        strictly_ascending(contents(list@)),
    ensures
        position <= list@.len(),
        forall|i: int|
            0 <= i < position ==> #[trigger] bytes::bytes_lt(contents(list@)[i], target@),
        forall|i: int|
            position <= i < list@.len() ==> !#[trigger] bytes::bytes_lt(
                contents(list@)[i],
                target@,
            ),
{
    let ghost items = contents(list@);
    let mut low: usize = 0;
    let mut high: usize = list.len();
    while low < high
        invariant
            low <= high <= list@.len(),
            items == contents(list@),
            strictly_ascending(items),
            forall|i: int| 0 <= i < low ==> #[trigger] bytes::bytes_lt(items[i], target@),
            forall|i: int|
                high <= i < list@.len() ==> !#[trigger] bytes::bytes_lt(items[i], target@),
        decreases high - low,
    {
        let middle: usize = low + (high - low) / 2;
        assert(items[middle as int] == list[middle as int]@);
        if bytes::bytes_less(list[middle].as_slice(), target) {
            proof {
                assert forall|i: int| 0 <= i < middle + 1 implies #[trigger] bytes::bytes_lt(
                    items[i],
                    target@,
                ) by {
                    if i < middle {
                        assert(bytes::bytes_lt(items[i], items[middle as int]));
                        bytes::lemma_bytes_lt_transitive(items[i], items[middle as int], target@);
                    }
                }
            }
            low = middle + 1;
        } else {
            proof {
                assert forall|i: int| middle <= i < list@.len() implies !#[trigger] bytes::bytes_lt(
                    items[i],
                    target@,
                ) by {
                    if i > middle && bytes::bytes_lt(items[i], target@) {
                        assert(bytes::bytes_lt(items[middle as int], items[i]));
                        bytes::lemma_bytes_lt_transitive(items[middle as int], items[i], target@);
                    }
                }
            }
            high = middle;
        }
    }
    low
}

/// The contents of a list are the bytes of its items, in order.
pub proof fn law_contents_are_the_items(list: Seq<Vec<u8>>)
    ensures
        contents(list).len() == list.len(),
        forall|i: int| 0 <= i < list.len() ==> #[trigger] contents(list)[i] == list[i]@,
{
}

/// Two lists hold the same items exactly where they have the same set of items.
pub proof fn law_same_items_are_the_same_set(a: Seq<Seq<u8>>, b: Seq<Seq<u8>>)
    ensures
        same_items(a, b) <==> a.to_set() == b.to_set(),
{
    if same_items(a, b) {
        assert forall|x: Seq<u8>| a.to_set().contains(x) <==> b.to_set().contains(x) by {
            assert(a.contains(x) <==> b.contains(x));
        }
        assert(a.to_set() =~= b.to_set());
    }
    if a.to_set() == b.to_set() {
        assert forall|x: Seq<u8>| #[trigger] a.contains(x) <==> b.contains(x) by {
            assert(a.to_set().contains(x) <==> b.to_set().contains(x));
        }
    }
}

/// Of any two items of an ascending list the earlier one, after some common
/// beginning, ends or goes on with the smaller byte.
pub proof fn law_ascending_items_are_in_dictionary_order(list: Seq<Seq<u8>>, m: int, n: int)
    requires
        strictly_ascending(list),
        0 <= m < n < list.len(),
    ensures
        exists|i: int|
            0 <= i <= list[m].len() && i < list[n].len() && list[m].take(i) == #[trigger] list[n].take(
                i,
            ) && (i == list[m].len() || (list[m][i] as int) < (list[n][i] as int)),
{
    assert(bytes::bytes_lt(list[m], list[n]));
    bytes::law_order_is_lexicographic(list[m], list[n]);
}

/// A list ascends where each item comes before the next one.
pub proof fn law_neighbours_in_order_make_a_list_ascend(list: Seq<Seq<u8>>)
    requires
        forall|n: int|
            0 <= n < list.len() - 1 ==> bytes::bytes_lt(#[trigger] list[n], list[n + 1]),
    ensures
        strictly_ascending(list),
{
    assert forall|m: int, n: int| 0 <= m < n < list.len() implies #[trigger] bytes::bytes_lt(
        list[m],
        list[n],
    ) by {
        lemma_ordered_steps(list, m, n);
    }
}

/// Steps in order put every item before the later ones.
proof fn lemma_ordered_steps(list: Seq<Seq<u8>>, m: int, n: int)
    requires
        0 <= m < n < list.len(),
        forall|k: int|
            0 <= k < list.len() - 1 ==> bytes::bytes_lt(#[trigger] list[k], list[k + 1]),
    ensures
        bytes::bytes_lt(list[m], list[n]),
    decreases n - m,
{
    assert(bytes::bytes_lt(list[n - 1], list[n - 1 + 1]));
    if m < n - 1 {
        lemma_ordered_steps(list, m, n - 1);
        bytes::lemma_bytes_lt_transitive(list[m], list[n - 1], list[n]);
    }
}

} // verus!
