//! When swapping `a` with `b` is the same as swapping `b` with `a`.

use crate::exchange::exchanged;
use crate::matching::{lemma_occurrences_from, occurrences, occurs_at};
use crate::priority::{
    drawn, lemma_first_pattern_kept, lemma_keep_pattern, lemma_resolved_disjoint,
};
use crate::render::rendered_from;
use crate::replace::replaced;
use crate::resolve::{keep_each, overlaps, resolved, splice_of, Kept, Splice};
use crate::undo::{between, fitting};
use vstd::prelude::*;

verus! {

/// The occurrences kept for a list of two pairs.
pub proof fn lemma_resolved_pair<T>(text: Seq<T>, first: (Seq<T>, Seq<T>), second: (Seq<T>, Seq<T>))
    ensures
        resolved(text, seq![first, second]) == keep_each(
            keep_each(Map::empty(), occurrences(text, first.0), splice_of(first)),
            occurrences(text, second.0),
            splice_of(second),
        ),
{
    let list = seq![first, second];
    assert(list.drop_last() =~= seq![first]);
    assert(seq![first].last() == first);
    assert(resolved(text, seq![first].drop_last()) == Map::<int, Splice<T>>::empty());
    assert(resolved(text, seq![first]) == keep_each(
        Map::empty(),
        occurrences(text, first.0),
        splice_of(first),
    ));
}

/// Two patterns of the same size whose disjoint occurrences nowhere overlap
/// are both kept wherever they occur, in whichever order they are listed.
proof fn lemma_resolved_pair_free<T>(
    text: Seq<T>,
    first: (Seq<T>, Seq<T>),
    second: (Seq<T>, Seq<T>),
    kept: Kept<T>,
)
    requires
        kept == resolved(text, seq![first, second]),
        first.0.len() == second.0.len(),
        first.0 != second.0,
        forall|i: int, j: int|
            0 <= i < occurrences(text, first.0).len() && 0 <= j < occurrences(text, second.0).len()
                ==> !overlaps(
                #[trigger] occurrences(text, first.0)[i],
                first.0.len() as int,
                #[trigger] occurrences(text, second.0)[j],
                second.0.len() as int,
            ),
    ensures
        forall|start: int| #[trigger]
            kept.contains_key(start) <==> occurrences(text, first.0).contains(start) || occurrences(
                text,
                second.0,
            ).contains(start),
        forall|start: int|
            occurrences(text, first.0).contains(start) ==> #[trigger] kept[start] == splice_of(
                first,
            ),
        forall|start: int|
            occurrences(text, second.0).contains(start) ==> #[trigger] kept[start] == splice_of(
                second,
            ),
{
    let none = Map::<int, Splice<T>>::empty();
    let firsts = occurrences(text, first.0);
    let seconds = occurrences(text, second.0);
    let half = keep_each(none, firsts, splice_of(first));
    lemma_resolved_pair(text, first, second);
    assert(kept == keep_each(half, seconds, splice_of(second)));
    lemma_occurrences_from(text, first.0, 0);
    lemma_occurrences_from(text, second.0, 0);
    lemma_keep_pattern(none, text, first);
    lemma_keep_pattern(half, text, second);
}

/// Nothing sets the two orders of searching apart: one pattern is longer
/// than the other and so searched first in either order, or the two are the
/// same, or no disjoint occurrence of one overlaps a disjoint occurrence of
/// the other.
pub open spec fn swaps_alike<T>(text: Seq<T>, a: Seq<T>, b: Seq<T>) -> bool {
    ||| a.len() != b.len()
    ||| a == b
    ||| forall|i: int, j: int|
        0 <= i < occurrences(text, a).len() && 0 <= j < occurrences(text, b).len() ==> !overlaps(
            #[trigger] occurrences(text, a)[i],
            a.len() as int,
            #[trigger] occurrences(text, b)[j],
            b.len() as int,
        )
}

/// Swapping `a` with `b` gives what swapping `b` with `a` gives, unless the
/// two are different patterns of the same size of which two disjoint
/// occurrences overlap: there the pattern named second is searched first.
pub proof fn lemma_exchange_symmetric<T>(text: Seq<T>, a: Seq<T>, b: Seq<T>)
    requires
        swaps_alike(text, a, b),
    ensures
        exchanged(text, a, b) == exchanged(text, b, a),
{
    if a.len() == b.len() && a != b {
        let one = resolved(text, seq![(b, a), (a, b)]);
        let other = resolved(text, seq![(a, b), (b, a)]);
        lemma_resolved_pair_free(text, (b, a), (a, b), one);
        lemma_resolved_pair_free(text, (a, b), (b, a), other);
        assert(one =~= other);
    }
}

/// Every kept occurrence gives way to a replacement of its own length.
pub open spec fn even<T>(kept: Kept<T>) -> bool {
    forall|start: int| #[trigger]
        kept.contains_key(start) ==> kept[start].replacement.len() == kept[start].len
}

/// The offset `at` lies in the span of the occurrence kept at `start`.
pub open spec fn covers<T>(kept: Kept<T>, start: int, at: int) -> bool {
    kept.contains_key(start) && start <= at < start + kept[start].len
}

/// What the occurrence kept at `start` puts at the offset `at`, where its
/// replacement is as long as its span.
pub open spec fn put<T>(kept: Kept<T>, start: int, at: int) -> T {
    kept[start].replacement[at - start]
}

/// A disjoint occurrence of `a` overlaps one of `b`, and one of the two
/// begins at `at`.
pub open spec fn clash_at<T>(text: Seq<T>, a: Seq<T>, b: Seq<T>, at: int) -> bool {
    ||| occurrences(text, a).contains(at) && exists|other: int| #[trigger]
        occurrences(text, b).contains(other) && overlaps(at, a.len() as int, other, b.len() as int)
    ||| occurrences(text, b).contains(at) && exists|other: int| #[trigger]
        occurrences(text, a).contains(other) && overlaps(other, a.len() as int, at, b.len() as int)
}

/// Where every replacement is as long as what it replaces, the output is as
/// long as the text: in the span of a kept occurrence stands its
/// replacement, and elsewhere the text.
proof fn lemma_rendered_even<T>(text: Seq<T>, kept: Kept<T>, cursor: int)
    requires
        fitting(kept, text),
        even(kept),
        0 <= cursor <= text.len(),
        between(kept, cursor),
    ensures
        rendered_from(text, kept, cursor).len() == text.len() - cursor,
        forall|start: int, at: int|
            cursor <= at && #[trigger] covers(kept, start, at) ==> rendered_from(
                text,
                kept,
                cursor,
            )[at - cursor] == put(kept, start, at),
        forall|at: int|
            cursor <= at < text.len() && (forall|start: int| !#[trigger] covers(kept, start, at))
                ==> rendered_from(text, kept, cursor)[at - cursor] == #[trigger] text[at],
    decreases text.len() - cursor,
{
    let read = rendered_from(text, kept, cursor);
    if cursor == text.len() {
    } else if kept.contains_key(cursor) {
        let behind = cursor + kept[cursor].len;
        lemma_rendered_even(text, kept, behind);
        assert(read == kept[cursor].replacement + rendered_from(text, kept, behind));
        assert forall|at: int|
            cursor <= at < text.len() && (forall|start: int|
                !#[trigger] covers(kept, start, at)) implies read[at - cursor]
            == #[trigger] text[at] by {
            assert(!covers(kept, cursor, at));
        }
    } else {
        lemma_rendered_even(text, kept, cursor + 1);
        assert(read == seq![text[cursor]] + rendered_from(text, kept, cursor + 1));
    }
}

/// Two disjoint occurrences of one pattern: both are occurrences, and the
/// earlier one ends before the later one begins.
proof fn lemma_picked_apart<T>(text: Seq<T>, pattern: Seq<T>, one: int, other: int)
    requires
        occurrences(text, pattern).contains(one),
        occurrences(text, pattern).contains(other),
    ensures
        0 <= one,
        occurs_at(text, pattern, one),
        one < other ==> one + pattern.len() <= other,
{
    lemma_occurrences_from(text, pattern, 0);
}

/// Two sequences of one length are the same where they agree up to `shift`
/// and each is the other moved by `shift`.
proof fn lemma_shifted_same<T>(a: Seq<T>, b: Seq<T>, shift: int, upto: int)
    requires
        a.len() == b.len(),
        0 < shift <= a.len(),
        0 <= upto <= a.len(),
        forall|t: int| 0 <= t < shift ==> #[trigger] a[t] == b[t],
        forall|t: int| 0 <= t < a.len() - shift ==> #[trigger] a[t] == b[t + shift],
        forall|t: int| 0 <= t < a.len() - shift ==> a[t + shift] == #[trigger] b[t],
    ensures
        forall|t: int| 0 <= t < upto ==> #[trigger] a[t] == b[t],
    decreases upto,
{
    if upto > 0 {
        lemma_shifted_same(a, b, shift, upto - 1);
        let t = upto - 1;
        if t >= shift {
            assert(a[t - shift] == b[t - shift + shift]);
        }
    }
}

/// The occurrences kept for the list that swaps two patterns of one size,
/// `first` searched first: every disjoint occurrence of `first` is kept and
/// gives way to `second`; and whatever is kept is a disjoint occurrence of
/// one of the two, lies within the text, and gives way to something of its
/// own length.
proof fn lemma_swap_kept<T>(text: Seq<T>, first: Seq<T>, second: Seq<T>, kept: Kept<T>)
    requires
        first.len() == second.len(),
        kept == resolved(text, seq![(first, second), (second, first)]),
    ensures
        fitting(kept, text),
        even(kept),
        between(kept, 0),
        forall|start: int| #[trigger]
            occurrences(text, first).contains(start) ==> kept.contains_key(start) && kept[start]
                == splice_of((first, second)),
        forall|start: int| #[trigger]
            kept.contains_key(start) ==> kept[start].len == first.len() && (occurrences(
                text,
                first,
            ).contains(start) || occurrences(text, second).contains(start)),
{
    let list = seq![(first, second), (second, first)];
    lemma_resolved_disjoint(text, list);
    assert forall|start: int| #[trigger] kept.contains_key(start) implies 0 <= start
        && kept[start].len <= text.len() - start && kept[start].replacement.len()
        == kept[start].len && kept[start].len == first.len() && (occurrences(text, first).contains(
        start,
    ) || occurrences(text, second).contains(start)) by {
        let k = choose|k: int| 0 <= k < list.len() && drawn(text, #[trigger] list[k], start, kept[start]);
        assert(list[k] == (first, second) || list[k] == (second, first));
    }
    assert forall|start: int| #[trigger]
        occurrences(text, first).contains(start) implies kept.contains_key(start) && kept[start]
        == splice_of((first, second)) by {
        let j = choose|j: int|
            0 <= j < occurrences(text, first).len() && occurrences(text, first)[j] == start;
        assert(list[0] == (first, second));
        lemma_first_pattern_kept(text, list, j);
    }
}

/// Between the start of an occurrence of `first` at `here` and that of an
/// overlapping later occurrence of `second` at `there`, nothing is replaced
/// where `second` is searched first and no occurrence of `second` reaches
/// into the one at `here` from the left.
proof fn lemma_clash_untouched<T>(
    text: Seq<T>,
    first: Seq<T>,
    second: Seq<T>,
    kept: Kept<T>,
    here: int,
    there: int,
    at: int,
)
    requires
        first.len() == second.len(),
        first != second,
        kept == resolved(text, seq![(second, first), (first, second)]),
        occurrences(text, first).contains(here),
        occurrences(text, second).contains(there),
        here <= at < there < here + first.len(),
        forall|start: int| #[trigger]
            occurrences(text, second).contains(start) && start < here ==> start + second.len()
                <= here,
    ensures
        forall|start: int| !#[trigger] covers(kept, start, at),
{
    lemma_swap_kept(text, second, first, kept);
    lemma_picked_apart(text, first, here, here);
    assert forall|start: int| !#[trigger] covers(kept, start, at) by {
        if covers(kept, start, at) {
            assert(kept[start].len == first.len());
            if occurrences(text, second).contains(start) {
                lemma_picked_apart(text, second, start, there);
                if start == here {
                    assert(first == text.subrange(here, here + first.len()));
                    assert(second == text.subrange(here, here + first.len()));
                } else if start < here {
                    assert(start + second.len() <= here);
                }
                assert(false);
            } else {
                assert(occurrences(text, first).contains(start));
                lemma_picked_apart(text, first, start, here);
                lemma_picked_apart(text, first, here, start);
                if start == here {
                    assert(kept.contains_key(there));
                    assert(overlaps(here, kept[here].len, there, kept[there].len));
                }
                assert(false);
            }
        }
    }
}

/// Where two patterns of one size are swapped, the output is as long as the
/// text, and in the span of each disjoint occurrence of the pattern that is
/// searched first it holds the other pattern.
proof fn lemma_swap_reads<T>(text: Seq<T>, first: Seq<T>, second: Seq<T>, start: int, t: int)
    requires
        first.len() == second.len(),
        occurrences(text, first).contains(start),
        0 <= t < first.len(),
    ensures
        replaced(text, seq![(first, second), (second, first)]).len() == text.len(),
        replaced(text, seq![(first, second), (second, first)])[start + t] == second[t],
{
    let kept = resolved(text, seq![(first, second), (second, first)]);
    lemma_swap_kept(text, first, second, kept);
    lemma_rendered_even(text, kept, 0);
    assert(covers(kept, start, start + t));
    assert(put(kept, start, start + t) == second[t]);
}

/// Where an occurrence of `first` at `here` and a later one of `second` at
/// `there` overlap, `second` is searched first, and no occurrence of
/// `second` reaches into the one at `here` from the left, the output holds
/// the text between `here` and `there`.
proof fn lemma_clash_reads<T>(
    text: Seq<T>,
    first: Seq<T>,
    second: Seq<T>,
    here: int,
    there: int,
    t: int,
)
    requires
        first.len() == second.len(),
        first != second,
        occurrences(text, first).contains(here),
        occurrences(text, second).contains(there),
        here < there < here + first.len(),
        forall|start: int| #[trigger]
            occurrences(text, second).contains(start) && start < here ==> start + second.len()
                <= here,
        0 <= t < there - here,
    ensures
        replaced(text, seq![(second, first), (first, second)])[here + t] == first[t],
{
    let kept = resolved(text, seq![(second, first), (first, second)]);
    let at = here + t;
    lemma_swap_kept(text, second, first, kept);
    lemma_rendered_even(text, kept, 0);
    lemma_clash_untouched(text, first, second, kept, here, there, at);
    lemma_picked_apart(text, first, here, here);
    assert(rendered_from(text, kept, 0)[at - 0] == text[at]);
    assert(text.subrange(here, here + first.len())[t] == text[at]);
}

/// Where an occurrence of `first` at `here` and a later one of `second` at
/// `there` overlap, and no occurrence of `second` reaches into the one at
/// `here` from the left, the order of the two in the list shows in the
/// output.
proof fn lemma_clash_differs<T>(text: Seq<T>, first: Seq<T>, second: Seq<T>, here: int, there: int)
    requires
        first.len() == second.len(),
        first != second,
        occurrences(text, first).contains(here),
        occurrences(text, second).contains(there),
        here < there < here + first.len(),
        forall|start: int| #[trigger]
            occurrences(text, second).contains(start) && start < here ==> start + second.len()
                <= here,
    ensures
        replaced(text, seq![(second, first), (first, second)]) != replaced(
            text,
            seq![(first, second), (second, first)],
        ),
{
    let width = first.len() as int;
    let shift = there - here;
    let one_out = replaced(text, seq![(second, first), (first, second)]);
    let other_out = replaced(text, seq![(first, second), (second, first)]);
    if one_out == other_out {
        assert forall|t: int| 0 <= t < shift implies #[trigger] first[t] == second[t] by {
            lemma_clash_reads(text, first, second, here, there, t);
            lemma_swap_reads(text, first, second, here, t);
        }
        assert forall|t: int| 0 <= t < width - shift implies #[trigger] first[t] == second[t
            + shift] by {
            lemma_swap_reads(text, second, first, there, t);
            lemma_swap_reads(text, first, second, here, t + shift);
        }
        assert forall|t: int| 0 <= t < width - shift implies first[t + shift]
            == #[trigger] second[t] by {
            lemma_picked_apart(text, first, here, here);
            lemma_picked_apart(text, second, there, there);
            assert(text.subrange(here, here + width)[t + shift] == text[there + t]);
            assert(text.subrange(there, there + width)[t] == text[there + t]);
        }
        lemma_shifted_same(first, second, shift, width);
        assert(first =~= second);
    }
}

/// Of the offsets at which overlapping occurrences of `a` and `b` begin,
/// the least.
proof fn lemma_least_clash<T>(text: Seq<T>, a: Seq<T>, b: Seq<T>, at: int) -> (least: int)
    requires
        clash_at(text, a, b, at),
    ensures
        clash_at(text, a, b, least),
        forall|before: int| before < least ==> !clash_at(text, a, b, before),
    decreases at,
{
    if exists|before: int| before < at && clash_at(text, a, b, before) {
        let before = choose|before: int| before < at && clash_at(text, a, b, before);
        assert(0 <= before) by {
            if occurrences(text, a).contains(before) {
                lemma_picked_apart(text, a, before, before);
            } else {
                lemma_picked_apart(text, b, before, before);
            }
        }
        lemma_least_clash(text, a, b, before)
    } else {
        at
    }
}

/// Swapping `a` with `b` differs from swapping `b` with `a` where the two
/// are different patterns of the same size and a disjoint occurrence of one
/// overlaps a disjoint occurrence of the other: the swap is symmetric in no
/// other case than those of `swaps_alike`.
pub proof fn lemma_exchange_asymmetric<T>(text: Seq<T>, a: Seq<T>, b: Seq<T>)
    requires
        !swaps_alike(text, a, b),
    ensures
        exchanged(text, a, b) != exchanged(text, b, a),
{
    let width = a.len() as int;
    let (i, j) = choose|i: int, j: int|
        0 <= i < occurrences(text, a).len() && 0 <= j < occurrences(text, b).len() && overlaps(
            #[trigger] occurrences(text, a)[i],
            a.len() as int,
            #[trigger] occurrences(text, b)[j],
            b.len() as int,
        );
    assert(occurrences(text, b).contains(occurrences(text, b)[j]));
    let least = lemma_least_clash(text, a, b, occurrences(text, a)[i]);
    if occurrences(text, a).contains(least) && exists|other: int| #[trigger]
        occurrences(text, b).contains(other) && overlaps(least, width, other, width) {
        let other = choose|other: int| #[trigger]
            occurrences(text, b).contains(other) && overlaps(least, width, other, width);
        lemma_picked_apart(text, a, least, least);
        lemma_picked_apart(text, b, other, other);
        assert forall|start: int| #[trigger]
            occurrences(text, b).contains(start) && start < least implies start + width
            <= least by {
            if start + width > least {
                assert(clash_at(text, a, b, start));
            }
        }
        lemma_clash_differs(text, a, b, least, other);
    } else {
        let other = choose|other: int| #[trigger]
            occurrences(text, a).contains(other) && overlaps(other, width, least, width);
        assert forall|start: int| #[trigger]
            occurrences(text, a).contains(start) && start < least implies start + width
            <= least by {
            if start + width > least {
                assert(clash_at(text, a, b, start));
            }
        }
        lemma_clash_differs(text, b, a, least, other);
    }
}

} // verus!
