//! Sorting a list of texts into its canonical order, ascending or descending.

use crate::order::{
    direction_order, lemma_direction_order_total, lemma_precedes_flipped, lemma_precedes_total,
    lemma_precedes_transitive, may_precede, precedes,
};
use vstd::multiset::Multiset;
use vstd::prelude::*;
use vstd::relations::*;
use vstd::seq_lib::*;

verus! {

/// Every earlier element of `list` may stand before every later one.
pub open spec fn in_order(list: Seq<Seq<char>>, descending: bool) -> bool {
    forall|i: int, j: int|
        0 <= i < j < list.len() ==> precedes(#[trigger] list[i], #[trigger] list[j], descending)
}

/// The canonical arrangement of `list`: the same texts, each as often as in
/// `list`, in the order of the given direction.
pub open spec fn arranged(list: Seq<Seq<char>>, descending: bool) -> Seq<Seq<char>> {
    list.sort_by(direction_order(descending))
}

/// `in_order` is the sequence library's `sorted_by` for the direction's order.
pub proof fn lemma_in_order_is_sorted_by(list: Seq<Seq<char>>, descending: bool)
    ensures
        in_order(list, descending) <==> sorted_by(list, direction_order(descending)),
{
    let r = direction_order(descending);
    if in_order(list, descending) {
        assert forall|i: int, j: int| 0 <= i < j < list.len() implies #[trigger] r(
            list[i],
            list[j],
        ) by {
            assert(precedes(list[i], list[j], descending));
        }
    }
    if sorted_by(list, r) {
        assert forall|i: int, j: int| 0 <= i < j < list.len() implies precedes(
            #[trigger] list[i],
            #[trigger] list[j],
            descending,
        ) by {
            assert(r(list[i], list[j]));
        }
    }
}

/// What `arranged` is: in order, and a rearrangement of its argument.
pub proof fn lemma_arranged(list: Seq<Seq<char>>, descending: bool)
    ensures
        in_order(arranged(list, descending), descending),
        arranged(list, descending).to_multiset() == list.to_multiset(),
        arranged(list, descending).len() == list.len(),
{
    lemma_direction_order_total(descending);
    list.lemma_sort_by_ensures(direction_order(descending));
    lemma_in_order_is_sorted_by(arranged(list, descending), descending);
    list.to_multiset_ensures();
    arranged(list, descending).to_multiset_ensures();
}

/// There is only one way to put given texts in order: a list that is in order
/// and rearranges `list` is `arranged(list, ..)`.
pub proof fn lemma_arranged_unique(
    sorted: Seq<Seq<char>>,
    list: Seq<Seq<char>>,
    descending: bool,
)
    requires
        in_order(sorted, descending),
        sorted.to_multiset() == list.to_multiset(),
    ensures
        sorted == arranged(list, descending),
{
    lemma_arranged(list, descending);
    lemma_direction_order_total(descending);
    lemma_in_order_is_sorted_by(sorted, descending);
    lemma_in_order_is_sorted_by(arranged(list, descending), descending);
    lemma_sorted_unique(sorted, arranged(list, descending), direction_order(descending));
}

/// The texts of a list without its last, and the last, make up the list.
proof fn lemma_last_and_rest(list: Seq<Seq<char>>)
    requires
        list.len() > 0,
    ensures
        list.to_multiset() == list.drop_last().to_multiset().insert(list.last()),
{
    assert(list =~= list.drop_last().push(list.last()));
    to_multiset_build(list.drop_last(), list.last());
}

/// An empty list holds no text.
proof fn lemma_empty_holds_nothing(list: Seq<Seq<char>>)
    requires
        list.len() == 0,
    ensures
        list.to_multiset() == Multiset::<Seq<char>>::empty(),
{
    list.to_multiset_ensures();
    vstd::multiset::lemma_multiset_empty_len(list.to_multiset());
}

/// What holds while two lists are merged from their ends: `out` is in
/// order, each of its texts may stand before all that is left of `left` and
/// of `right`, and the three together hold the texts of the two lists.
spec fn merging(
    out: Seq<Seq<char>>,
    left: Seq<Seq<char>>,
    right: Seq<Seq<char>>,
    all: Multiset<Seq<char>>,
    descending: bool,
) -> bool {
    &&& in_order(out, descending)
    &&& in_order(left, !descending)
    &&& in_order(right, !descending)
    &&& forall|i: int, j: int|
        0 <= i < out.len() && 0 <= j < left.len() ==> precedes(
            #[trigger] out[i],
            #[trigger] left[j],
            descending,
        )
    &&& forall|i: int, j: int|
        0 <= i < out.len() && 0 <= j < right.len() ==> precedes(
            #[trigger] out[i],
            #[trigger] right[j],
            descending,
        )
    &&& out.to_multiset().add(left.to_multiset()).add(right.to_multiset()) == all
}

/// Moving the last text of `left` to the end of `out` keeps `merging`, when
/// that text may stand before the last of `right`, or `right` is empty.
proof fn lemma_merge_step(
    out: Seq<Seq<char>>,
    left: Seq<Seq<char>>,
    right: Seq<Seq<char>>,
    all: Multiset<Seq<char>>,
    descending: bool,
)
    requires
        merging(out, left, right, all, descending),
        left.len() > 0,
        right.len() > 0 ==> precedes(left.last(), right.last(), descending),
    ensures
        merging(out.push(left.last()), left.drop_last(), right, all, descending),
{
    let x = left.last();
    let grown = out.push(x);
    let rest = left.drop_last();
    assert forall|i: int, j: int| 0 <= i < j < grown.len() implies precedes(
        #[trigger] grown[i],
        #[trigger] grown[j],
        descending,
    ) by {
        if j < out.len() {
            assert(grown[i] == out[i] && grown[j] == out[j]);
        } else {
            assert(grown[i] == out[i] && grown[j] == left[left.len() - 1]);
        }
    }
    assert forall|i: int, j: int| 0 <= i < j < rest.len() implies precedes(
        #[trigger] rest[i],
        #[trigger] rest[j],
        !descending,
    ) by {
        assert(rest[i] == left[i] && rest[j] == left[j]);
    }
    assert forall|i: int, j: int| 0 <= i < grown.len() && 0 <= j < rest.len() implies precedes(
        #[trigger] grown[i],
        #[trigger] rest[j],
        descending,
    ) by {
        assert(rest[j] == left[j]);
        if i < out.len() {
            assert(grown[i] == out[i]);
        } else {
            assert(precedes(left[j], left[left.len() - 1], !descending));
            lemma_precedes_flipped(left[j], x, descending);
        }
    }
    assert forall|i: int, j: int| 0 <= i < grown.len() && 0 <= j < right.len() implies precedes(
        #[trigger] grown[i],
        #[trigger] right[j],
        descending,
    ) by {
        if i < out.len() {
            assert(grown[i] == out[i]);
        } else if j < right.len() - 1 {
            assert(precedes(right[j], right[right.len() - 1], !descending));
            lemma_precedes_flipped(right[j], right.last(), descending);
            lemma_precedes_transitive(x, right.last(), right[j], descending);
        }
    }
    lemma_last_and_rest(left);
    to_multiset_build(out, x);
    assert(grown.to_multiset().add(rest.to_multiset()).add(right.to_multiset())
        =~= out.to_multiset().add(left.to_multiset()).add(right.to_multiset()));
}

/// `merging` treats its two lists alike.
proof fn lemma_merging_swapped(
    out: Seq<Seq<char>>,
    left: Seq<Seq<char>>,
    right: Seq<Seq<char>>,
    all: Multiset<Seq<char>>,
    descending: bool,
)
    requires
        merging(out, left, right, all, descending),
    ensures
        merging(out, right, left, all, descending),
{
    assert(out.to_multiset().add(right.to_multiset()).add(left.to_multiset())
        =~= out.to_multiset().add(left.to_multiset()).add(right.to_multiset()));
}

/// Merges two lists that are each in order in the opposite direction into
/// one that is in order in the given direction. Read from its end, each
/// list offers first the text that belongs first in the result, so texts
/// are moved from the ends and never copied.
fn merge_from_ends(left: Vec<String>, right: Vec<String>, descending: bool) -> (out: Vec<String>)
    requires
        in_order(left.deep_view(), !descending),
        in_order(right.deep_view(), !descending),
    ensures
        in_order(out.deep_view(), descending),
        out.deep_view().to_multiset() == left.deep_view().to_multiset().add(
            right.deep_view().to_multiset(),
        ),
{
    let ghost all = left.deep_view().to_multiset().add(right.deep_view().to_multiset());
    let mut left = left;
    let mut right = right;
    let mut out: Vec<String> = Vec::new();
    proof {
        lemma_empty_holds_nothing(out.deep_view());
        assert(out.deep_view().to_multiset().add(left.deep_view().to_multiset()).add(
            right.deep_view().to_multiset(),
        ) =~= all);
    }
    while left.len() > 0 || right.len() > 0
        invariant
            merging(out.deep_view(), left.deep_view(), right.deep_view(), all, descending),
        decreases left.len() + right.len(),
    {
        let ghost before = out.deep_view();
        let ghost l = left.deep_view();
        let ghost r = right.deep_view();
        let from_left: bool = if right.len() == 0 {
            true
        } else if left.len() == 0 {
            false
        } else {
            assert(l.last() == left[left.len() - 1]@ && r.last() == right[right.len() - 1]@);
            may_precede(
                left[left.len() - 1].as_str(),
                right[right.len() - 1].as_str(),
                descending,
            )
        };
        if from_left {
            let moved = left.pop();
            proof {
                lemma_merge_step(before, l, r, all, descending);
                assert(left.deep_view() =~= l.drop_last());
            }
            if let Some(text) = moved {
                out.push(text);
                assert(out.deep_view() =~= before.push(l.last()));
            }
        } else {
            let moved = right.pop();
            proof {
                if l.len() > 0 {
                    lemma_precedes_total(l.last(), r.last(), descending);
                }
                lemma_merging_swapped(before, l, r, all, descending);
                lemma_merge_step(before, r, l, all, descending);
                lemma_merging_swapped(before.push(r.last()), r.drop_last(), l, all, descending);
                assert(right.deep_view() =~= r.drop_last());
            }
            if let Some(text) = moved {
                out.push(text);
                assert(out.deep_view() =~= before.push(r.last()));
            }
        }
    }
    proof {
        lemma_empty_holds_nothing(left.deep_view());
        lemma_empty_holds_nothing(right.deep_view());
        assert(out.deep_view().to_multiset().add(left.deep_view().to_multiset()).add(
            right.deep_view().to_multiset(),
        ) =~= out.deep_view().to_multiset());
    }
    out
}

/// Sorts by merging: each half is sorted in the opposite direction, and the
/// two are merged from their ends.
fn merge_sort(items: Vec<String>, descending: bool) -> (out: Vec<String>)
    ensures
        in_order(out.deep_view(), descending),
        out.deep_view().to_multiset() == items.deep_view().to_multiset(),
    decreases items.len(),
{
    if items.len() <= 1 {
        return items;
    }
    let ghost whole = items.deep_view();
    let mut left = items;
    let mid: usize = left.len() / 2;
    let right = left.split_off(mid);
    proof {
        assert(whole =~= left.deep_view() + right.deep_view());
        lemma_multiset_commutative(left.deep_view(), right.deep_view());
    }
    let left_sorted = merge_sort(left, !descending);
    let right_sorted = merge_sort(right, !descending);
    merge_from_ends(left_sorted, right_sorted, descending)
}

/// Brings `items` into the canonical order of the given direction.
pub fn arrange(items: &mut Vec<String>, descending: bool)
    ensures
        final(items).deep_view() == arranged(old(items).deep_view(), descending),
        in_order(final(items).deep_view(), descending),
        final(items).deep_view().to_multiset() == old(items).deep_view().to_multiset(),
        final(items).len() == old(items).len(),
{
    let ghost start = items.deep_view();
    let mut taken: Vec<String> = Vec::new();
    core::mem::swap(items, &mut taken);
    let mut sorted = merge_sort(taken, descending);
    core::mem::swap(items, &mut sorted);
    proof {
        lemma_arranged_unique(items.deep_view(), start, descending);
        items.deep_view().to_multiset_ensures();
        start.to_multiset_ensures();
    }
}

/// A copy of `texts`, text for text.
pub fn copy_texts(texts: &[String]) -> (out: Vec<String>)
    ensures
        out.deep_view() == texts.deep_view(),
        out.len() == texts.len(),
{
    let mut out: Vec<String> = Vec::new();
    let mut i: usize = 0;
    while i < texts.len()
        invariant
            i <= texts.len(),
            out.len() == i,
            forall|k: int| 0 <= k < i ==> out[k]@ == texts[k]@,
        decreases texts.len() - i,
    {
        out.push(texts[i].clone());
        i += 1;
    }
    assert(out.deep_view() =~= texts.deep_view());
    out
}

/// Whether a sort type asks for the descending direction: zero is ascending,
/// every other value descending.
pub open spec fn is_descending(sort_type: i32) -> bool {
    sort_type != 0
}

/// A list of texts that can be sorted in place.
#[derive(Clone)]
pub struct StringList {
    items: Vec<String>,
}

impl View for StringList {
    type V = Seq<Seq<char>>;

    closed spec fn view(&self) -> Seq<Seq<char>> {
        self.items.deep_view()
    }
}

impl StringList {
    /// A list holding a copy of `data`, in the order given.
    pub fn new(data: &[String]) -> (list: Self)
        ensures
            list@ == data.deep_view(),
    {
        StringList { items: copy_texts(data) }
    }

    /// The number of texts in the list.
    pub fn len(&self) -> (n: usize)
        ensures
            n == self@.len(),
    {
        self.items.len()
    }

    /// Sorts the list in place, ascending when `sort_type` is zero and
    /// descending otherwise, and returns a copy of the sorted list.
    pub fn sort_package(&mut self, sort_type: i32) -> (out: Vec<String>)
        ensures
            final(self)@ == arranged(old(self)@, is_descending(sort_type)),
            out.deep_view() == final(self)@,
            in_order(out.deep_view(), is_descending(sort_type)),
            out.deep_view().to_multiset() == old(self)@.to_multiset(),
            out.len() == old(self)@.len(),
    {
        arrange(&mut self.items, sort_type != 0);
        copy_texts(self.items.as_slice())
    }
}

/// The texts of `data` in canonical order, ascending when `sort_type` is zero
/// and descending otherwise. `data` itself is left as it is.
pub fn sort_package(data: &[String], sort_type: i32) -> (out: Vec<String>)
    ensures
        out.deep_view() == arranged(data.deep_view(), is_descending(sort_type)),
        in_order(out.deep_view(), is_descending(sort_type)),
        out.deep_view().to_multiset() == data.deep_view().to_multiset(),
        out.len() == data.len(),
{
    let mut list = StringList::new(data);
    list.sort_package(sort_type)
}

/// Sorting descending gives the ascending result read backwards. Texts that
/// compare equal are the same text, so nothing is left open by ties.
pub proof fn law_descending_is_ascending_reversed(list: Seq<Seq<char>>)
    ensures
        arranged(list, true) == arranged(list, false).reverse(),
{
    let up = arranged(list, false);
    let down = up.reverse();
    lemma_arranged(list, false);
    up.lemma_reverse_to_multiset();
    assert forall|i: int, j: int| 0 <= i < j < down.len() implies precedes(
        #[trigger] down[i],
        #[trigger] down[j],
        true,
    ) by {
        assert(precedes(up[up.len() - 1 - j], up[up.len() - 1 - i], false));
    }
    lemma_arranged_unique(down, list, true);
}

/// Sorting a second time in the same direction changes nothing.
pub proof fn law_sorting_twice_is_sorting_once(list: Seq<Seq<char>>, descending: bool)
    ensures
        arranged(arranged(list, descending), descending) == arranged(list, descending),
{
    lemma_arranged(list, descending);
    lemma_arranged_unique(arranged(list, descending), arranged(list, descending), descending);
}

/// The sorted result depends only on which texts the list holds and how
/// often, not on the order in which it holds them.
pub proof fn law_sorting_ignores_input_order(
    list: Seq<Seq<char>>,
    permuted: Seq<Seq<char>>,
    descending: bool,
)
    requires
        permuted.to_multiset() == list.to_multiset(),
    ensures
        arranged(permuted, descending) == arranged(list, descending),
{
    lemma_arranged(permuted, descending);
    lemma_arranged_unique(arranged(permuted, descending), list, descending);
}

} // verus!
