//! The order in which the edits of a document are sent.

use crate::lsp::{Range, TextEdit, TextEditView};
use vstd::prelude::*;

verus! {

/// Whether edit `i` is sent before edit `j`: it starts further back in the document or, of
/// two that start at one place, comes later in `edits`.
pub open spec fn sent_before(edits: Seq<TextEditView>, i: int, j: int) -> bool {
    let a = edits[i].range.start;
    let b = edits[j].range.start;
    b.before(a) || (a == b && j < i)
}

/// Whether `order` lists the indices of all `edits`, in the order in which they are sent.
pub open spec fn sending_order(edits: Seq<TextEditView>, order: Seq<int>) -> bool {
    &&& order.len() == edits.len()
    &&& forall|k: int| 0 <= k < order.len() ==> 0 <= #[trigger] order[k] < edits.len()
    &&& forall|k: int, l: int|
        0 <= k < l < order.len() ==> sent_before(edits, #[trigger] order[k], #[trigger] order[l])
}

/// The edits in the order in which they are sent: from the back of the document to its front,
/// so that no edit moves the place of one that is still to come.
pub open spec fn back_to_front(edits: Seq<TextEditView>) -> Seq<TextEditView> {
    let order = choose|order: Seq<int>| sending_order(edits, order);
    Seq::new(edits.len(), |k: int| edits[order[k]])
}

proof fn lemma_order_reaches(edits: Seq<TextEditView>, order: Seq<int>, i: int) -> (k: int)
    requires
        sending_order(edits, order),
        0 <= i < edits.len(),
    ensures
        0 <= k < order.len(),
        order[k] == i,
{
    let n = edits.len() as int;
    let all = vstd::set_lib::set_int_range(0, n);
    vstd::set_lib::lemma_int_range(0, n);
    assert(order.no_duplicates());
    order.unique_seq_to_set();
    assert(order.to_set().subset_of(all));
    vstd::set_lib::lemma_subset_equality(order.to_set(), all);
    assert(all.contains(i));
    assert(order.contains(i));
    choose|k: int| 0 <= k < order.len() && order[k] == i
}

proof fn lemma_one_sending_order(edits: Seq<TextEditView>, one: Seq<int>, other: Seq<int>, n: int)
    requires
        sending_order(edits, one),
        sending_order(edits, other),
        0 <= n <= edits.len(),
    ensures
        one.take(n) == other.take(n),
    decreases n,
{
    if n > 0 {
        let k = n - 1;
        lemma_one_sending_order(edits, one, other, k);
        let p = lemma_order_reaches(edits, other, one[k]);
        let q = lemma_order_reaches(edits, one, other[k]);
        if p < k {
            assert(one.take(k)[p] == other.take(k)[p]);
        }
        if q < k {
            assert(one.take(k)[q] == other.take(k)[q]);
        }
        assert(one[k] == other[k]);
        assert(one.take(n) =~= other.take(n));
    }
}

/// Whether `output` holds the edits of `input` at the indices `order`, back to front or, the
/// other way round, front to back.
spec fn arranged(
    input: Seq<TextEdit>,
    order: Seq<int>,
    output: Seq<TextEdit>,
    from_back: bool,
) -> bool {
    &&& order.len() == input.len()
    &&& output.len() == input.len()
    &&& forall|k: int|
        0 <= k < order.len() ==> 0 <= #[trigger] order[k] < input.len() && output[k]
            == input[order[k]]
    &&& forall|k: int, l: int|
        0 <= k < l < order.len() ==> goes_first(
            input,
            #[trigger] order[k],
            #[trigger] order[l],
            from_back,
        )
}

spec fn goes_first(input: Seq<TextEdit>, i: int, j: int, from_back: bool) -> bool {
    let a = input[i].range.start;
    let b = input[j].range.start;
    if from_back {
        b.before(a) || (a == b && j < i)
    } else {
        a.before(b) || (a == b && i < j)
    }
}

/// Sorts edits by where they start: each half the other way round, to take the edits from the
/// ends of both.
fn arrange(edits: Vec<TextEdit>, from_back: bool) -> (result: (Vec<TextEdit>, Ghost<Seq<int>>))
    ensures
        arranged(edits@, result.1@, result.0@, from_back),
    decreases edits.len(),
{
    let ghost input = edits@;
    if edits.len() <= 1 {
        let ghost order = Seq::new(input.len(), |k: int| k);
        return (edits, Ghost(order));
    }
    let mid: usize = edits.len() / 2;
    let mut front: Vec<TextEdit> = edits;
    let back: Vec<TextEdit> = front.split_off(mid);
    let (mut left, Ghost(left_order)) = arrange(front, !from_back);
    let (mut right, Ghost(right_order)) = arrange(back, !from_back);
    let ghost right_order = right_order.map_values(|i: int| i + mid);
    let ghost left_all = left@;
    let ghost right_all = right@;
    let mut output: Vec<TextEdit> = Vec::new();
    let ghost mut order: Seq<int> = Seq::empty();
    assert forall|k: int, l: int| 0 <= k < l < left_order.len() implies goes_first(
        input,
        #[trigger] left_order[l],
        #[trigger] left_order[k],
        from_back,
    ) by {}
    assert forall|k: int, l: int| 0 <= k < l < right_order.len() implies goes_first(
        input,
        #[trigger] right_order[l],
        #[trigger] right_order[k],
        from_back,
    ) by {}
    while left.len() > 0 || right.len() > 0
        invariant
            input.len() == order.len() + left.len() + right.len(),
            left.len() <= left_all.len() == left_order.len(),
            right.len() <= right_all.len() == right_order.len(),
            left@ == left_all.take(left.len() as int),
            right@ == right_all.take(right.len() as int),
            output.len() == order.len(),
            forall|k: int|
                0 <= k < left_order.len() ==> 0 <= #[trigger] left_order[k] < mid && left_all[k]
                    == input[left_order[k]],
            forall|k: int|
                0 <= k < right_order.len() ==> mid <= #[trigger] right_order[k] < input.len()
                    && right_all[k] == input[right_order[k]],
            mid <= input.len(),
            forall|k: int, l: int|
                0 <= k < l < left_order.len() ==> goes_first(
                    input,
                    #[trigger] left_order[l],
                    #[trigger] left_order[k],
                    from_back,
                ),
            forall|k: int, l: int|
                0 <= k < l < right_order.len() ==> goes_first(
                    input,
                    #[trigger] right_order[l],
                    #[trigger] right_order[k],
                    from_back,
                ),
            forall|k: int|
                0 <= k < order.len() ==> 0 <= #[trigger] order[k] < input.len() && output[k]
                    == input[order[k]],
            forall|k: int, l: int|
                0 <= k < l < order.len() ==> goes_first(
                    input,
                    #[trigger] order[k],
                    #[trigger] order[l],
                    from_back,
                ),
            forall|k: int, l: int|
                0 <= k < order.len() && 0 <= l < left.len() ==> goes_first(
                    input,
                    #[trigger] order[k],
                    #[trigger] left_order[l],
                    from_back,
                ),
            forall|k: int, l: int|
                0 <= k < order.len() && 0 <= l < right.len() ==> goes_first(
                    input,
                    #[trigger] order[k],
                    #[trigger] right_order[l],
                    from_back,
                ),
        decreases left.len() + right.len(),
    {
        let take_right: bool = if left.len() == 0 {
            true
        } else if right.len() == 0 {
            false
        } else {
            let earlier: bool = right[right.len() - 1].range.start.is_before(
                &left[left.len() - 1].range.start,
            );
            earlier != from_back
        };
        let ghost last_left = left_order[left.len() - 1];
        let ghost last_right = right_order[right.len() - 1];
        if take_right {
            if let Some(edit) = right.pop() {
                output.push(edit);
                proof {
                    order = order.push(last_right);
                }
            }
        } else {
            if let Some(edit) = left.pop() {
                output.push(edit);
                proof {
                    order = order.push(last_left);
                }
            }
        }
    }
    (output, Ghost(order))
}

/// Puts the edits of a document into the order in which they are sent.
pub fn order_edits(edits: Vec<TextEdit>) -> (ordered: Vec<TextEdit>)
    ensures
        ordered.deep_view() == back_to_front(edits.deep_view()),
{
    let ghost input = edits@;
    let ghost views = edits.deep_view();
    let (ordered, Ghost(order)) = arrange(edits, true);
    proof {
        assert forall|k: int, l: int| 0 <= k < l < order.len() implies sent_before(
            views,
            #[trigger] order[k],
            #[trigger] order[l],
        ) by {
            assert(goes_first(input, order[k], order[l], true));
        }
        assert(sending_order(views, order));
        let chosen = choose|order: Seq<int>| sending_order(views, order);
        lemma_one_sending_order(views, order, chosen, views.len() as int);
        assert(order.take(views.len() as int) =~= order);
        assert(chosen.take(views.len() as int) =~= chosen);
        assert(ordered.deep_view() =~= back_to_front(views));
    }
    ordered
}

proof fn lemma_place_in_order(edits: Seq<TextEditView>, order: Seq<int>, i: int) -> (p: int)
    requires
        0 <= i < edits.len(),
        forall|k: int| 0 <= k < order.len() ==> 0 <= #[trigger] order[k] < edits.len(),
        forall|k: int| 0 <= k < order.len() ==> #[trigger] order[k] != i,
        forall|k: int, l: int|
            0 <= k < l < order.len() ==> sent_before(edits, #[trigger] order[k], #[trigger] order[l]),
    ensures
        0 <= p <= order.len(),
        forall|k: int| 0 <= k < p ==> sent_before(edits, #[trigger] order[k], i),
        forall|k: int| p <= k < order.len() ==> sent_before(edits, i, #[trigger] order[k]),
    decreases order.len(),
{
    if order.len() == 0 {
        0
    } else {
        let shorter = order.drop_last();
        let last = order.last();
        if sent_before(edits, last, i) {
            order.len() as int
        } else {
            assert forall|k: int| 0 <= k < shorter.len() implies 0 <= #[trigger] shorter[k]
                < edits.len() && shorter[k] != i by {
                assert(shorter[k] == order[k]);
            }
            assert forall|k: int, l: int| 0 <= k < l < shorter.len() implies sent_before(
                edits,
                #[trigger] shorter[k],
                #[trigger] shorter[l],
            ) by {
                assert(shorter[k] == order[k] && shorter[l] == order[l]);
            }
            let p = lemma_place_in_order(edits, shorter, i);
            assert forall|k: int| 0 <= k < p implies sent_before(edits, #[trigger] order[k], i) by {
                assert(shorter[k] == order[k]);
            }
            assert forall|k: int| p <= k < order.len() implies sent_before(
                edits,
                i,
                #[trigger] order[k],
            ) by {
                if k < shorter.len() {
                    assert(shorter[k] == order[k]);
                }
            }
            p
        }
    }
}

/// The sending order of one more edit: the last edit is put somewhere into the order of the
/// others.
proof fn lemma_sending_order_exists(edits: Seq<TextEditView>) -> (order: Seq<int>)
    ensures
        sending_order(edits, order),
        edits.len() > 0 ==> exists|p: int, shorter: Seq<int>|
            0 <= p <= shorter.len() && sending_order(edits.drop_last(), shorter)
                && #[trigger] shorter.insert(p, edits.len() - 1) == order,
    decreases edits.len(),
{
    if edits.len() == 0 {
        Seq::empty()
    } else {
        let n = edits.len() - 1;
        let shorter = lemma_sending_order_exists(edits.drop_last());
        assert forall|k: int, l: int| 0 <= k < l < shorter.len() implies sent_before(
            edits,
            #[trigger] shorter[k],
            #[trigger] shorter[l],
        ) by {
            assert(sent_before(edits.drop_last(), shorter[k], shorter[l]));
        }
        let p = lemma_place_in_order(edits, shorter, n);
        let order = shorter.insert(p, n);
        assert forall|k: int| 0 <= k < order.len() implies 0 <= #[trigger] order[k]
            < edits.len() by {
            if k < p {
                assert(order[k] == shorter[k]);
            } else if k > p {
                assert(order[k] == shorter[k - 1]);
            }
        }
        assert forall|k: int, l: int| 0 <= k < l < order.len() implies sent_before(
            edits,
            #[trigger] order[k],
            #[trigger] order[l],
        ) by {
            if k < p {
                assert(order[k] == shorter[k]);
            } else if k > p {
                assert(order[k] == shorter[k - 1]);
            }
            if l < p {
                assert(order[l] == shorter[l]);
            } else if l > p {
                assert(order[l] == shorter[l - 1]);
            }
        }
        order
    }
}

/// The sending order of edits is the only one there is.
pub proof fn law_sending_order_is_unique(
    edits: Seq<TextEditView>,
    one: Seq<int>,
    other: Seq<int>,
)
    requires
        sending_order(edits, one),
        sending_order(edits, other),
    ensures
        one == other,
{
    lemma_one_sending_order(edits, one, other, edits.len() as int);
    assert(one.take(edits.len() as int) =~= one);
    assert(other.take(edits.len() as int) =~= other);
}

/// Edits that come from the front to the back are sent the other way round.
pub proof fn law_ordered_edits_are_reversed(edits: Seq<TextEditView>)
    requires
        forall|i: int, j: int|
            0 <= i < j < edits.len() ==> (#[trigger] edits[i]).range.start.before(
                (#[trigger] edits[j]).range.start,
            ),
    ensures
        back_to_front(edits) == edits.reverse(),
{
    let n = edits.len();
    let order = Seq::new(n, |k: int| n - 1 - k);
    assert(sending_order(edits, order));
    let chosen = choose|order: Seq<int>| sending_order(edits, order);
    law_sending_order_is_unique(edits, order, chosen);
    assert(back_to_front(edits) =~= edits.reverse());
}

/// The edits are sent in an order that exists: no edit is lost, none is sent twice, and none is
/// sent before one that starts behind it in the document.
pub proof fn law_edits_sent_back_to_front(edits: Seq<TextEditView>)
    ensures
        back_to_front(edits).to_multiset() == edits.to_multiset(),
        exists|order: Seq<int>|
            sending_order(edits, order) && back_to_front(edits) == Seq::new(
                edits.len(),
                |k: int| edits[order[k]],
            ),
        forall|i: int, j: int|
            0 <= i < j < back_to_front(edits).len() ==> !(#[trigger] back_to_front(
                edits,
            )[i]).range.start.before((#[trigger] back_to_front(edits)[j]).range.start),
    decreases edits.len(),
{
    let order = lemma_sending_order_exists(edits);
    let chosen = choose|order: Seq<int>| sending_order(edits, order);
    law_sending_order_is_unique(edits, order, chosen);
    let sent = back_to_front(edits);
    assert(sent =~= Seq::new(edits.len(), |k: int| edits[order[k]]));
    assert forall|i: int, j: int| 0 <= i < j < sent.len() implies !(
    #[trigger] sent[i]).range.start.before((#[trigger] sent[j]).range.start) by {
        assert(sent_before(edits, order[i], order[j]));
    }
    if edits.len() == 0 {
        assert(sent =~= edits);
    } else {
        let n = edits.len() - 1;
        let fewer = edits.drop_last();
        law_edits_sent_back_to_front(fewer);
        let (p, shorter) = choose|p: int, shorter: Seq<int>|
            0 <= p <= shorter.len() && sending_order(fewer, shorter) && #[trigger] shorter.insert(
                p,
                n,
            ) == order;
        let of_fewer = choose|order: Seq<int>| sending_order(fewer, order);
        law_sending_order_is_unique(fewer, shorter, of_fewer);
        let sent_fewer = back_to_front(fewer);
        let last = edits.last();
        assert(sent =~= sent_fewer.insert(p, last));
        assert(fewer.push(last) =~= edits);
        vstd::seq_lib::to_multiset_insert(sent_fewer, p, last);
        vstd::seq_lib::to_multiset_build(fewer, last);
        assert(sent.to_multiset() =~= edits.to_multiset());
    }
}

/// Whether a range holds at least one place.
pub open spec fn not_empty(range: Range) -> bool {
    range.start.before(range.end)
}

/// Whether two ranges have no place in common.
pub open spec fn apart(one: Range, other: Range) -> bool {
    !other.start.before(one.end) || !one.start.before(other.end)
}

/// No edit moves the place of one that is sent after it: where the edits of a document do not
/// overlap, each ends at or before the start of all that are sent before it.
pub proof fn law_no_edit_moves_a_later_one(edits: Seq<TextEditView>)
    requires
        forall|i: int| 0 <= i < edits.len() ==> not_empty((#[trigger] edits[i]).range),
        forall|i: int, j: int|
            0 <= i < edits.len() && 0 <= j < edits.len() && i != j ==> apart(
                (#[trigger] edits[i]).range,
                (#[trigger] edits[j]).range,
            ),
    ensures
        forall|i: int, j: int|
            0 <= i < j < back_to_front(edits).len() ==> !(#[trigger] back_to_front(
                edits,
            )[i]).range.start.before((#[trigger] back_to_front(edits)[j]).range.end),
{
    law_edits_sent_back_to_front(edits);
    let sent = back_to_front(edits);
    let order = choose|order: Seq<int>|
        sending_order(edits, order) && sent == Seq::new(edits.len(), |k: int| edits[order[k]]);
    assert forall|i: int, j: int| 0 <= i < j < sent.len() implies !(
    #[trigger] sent[i]).range.start.before((#[trigger] sent[j]).range.end) by {
        assert(sent_before(edits, order[i], order[j]));
        assert(sent[i] == edits[order[i]] && sent[j] == edits[order[j]]);
        assert(apart(edits[order[i]].range, edits[order[j]].range));
        assert(not_empty(edits[order[i]].range));
    }
}

/// How edits are sent: each once, in an order in which an edit that starts further back in the
/// document comes earlier and, of two that start at one place, the one that came later.
pub proof fn law_each_edit_is_sent_once(edits: Seq<TextEditView>) -> (order: Seq<int>)
    ensures
        order.len() == edits.len(),
        back_to_front(edits).len() == edits.len(),
        forall|i: int| 0 <= i < edits.len() ==> #[trigger] order.contains(i),
        forall|k: int|
            0 <= k < order.len() ==> 0 <= #[trigger] order[k] < edits.len() && back_to_front(
                edits,
            )[k] == edits[order[k]],
        forall|k: int, l: int|
            0 <= k < l < order.len() ==> {
                let first = edits[#[trigger] order[k]].range.start;
                let second = edits[#[trigger] order[l]].range.start;
                ||| second.line < first.line
                ||| second.line == first.line && second.character < first.character
                ||| second == first && order[l] < order[k]
            },
{
    law_edits_sent_back_to_front(edits);
    let order = choose|order: Seq<int>|
        sending_order(edits, order) && back_to_front(edits) == Seq::new(
            edits.len(),
            |k: int| edits[order[k]],
        );
    assert forall|i: int| 0 <= i < edits.len() implies #[trigger] order.contains(i) by {
        let k = lemma_order_reaches(edits, order, i);
        assert(order[k] == i);
    }
    assert forall|k: int, l: int| 0 <= k < l < order.len() implies {
        let first = edits[#[trigger] order[k]].range.start;
        let second = edits[#[trigger] order[l]].range.start;
        ||| second.line < first.line
        ||| second.line == first.line && second.character < first.character
        ||| second == first && order[l] < order[k]
    } by {
        assert(sent_before(edits, order[k], order[l]));
    }
    order
}

} // verus!
