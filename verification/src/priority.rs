//! What holds of the kept occurrences: they are disjoint occurrences of
//! listed patterns, an earlier pattern is never overruled by a later one,
//! and no more could be kept.

use crate::matching::{lemma_occurrences_from, occurrences, occurs_at};
use crate::resolve::{clashes, keep, keep_each, overlaps, resolved, splice_of, Kept, Splice};
use vstd::prelude::*;

verus! {

/// No two kept occurrences share a position, and none is empty.
pub open spec fn disjoint<T>(kept: Kept<T>) -> bool {
    &&& forall|start: int| #[trigger] kept.contains_key(start) ==> kept[start].len > 0
    &&& forall|one: int, other: int|
        #[trigger] kept.contains_key(one) && #[trigger] kept.contains_key(other) && one != other
            ==> !overlaps(one, kept[one].len, other, kept[other].len)
}

/// `start` is one of the disjoint occurrences in `text` of the pattern of
/// `pair`, and `splice` is what the pair splices in.
pub open spec fn drawn<T>(
    text: Seq<T>,
    pair: (Seq<T>, Seq<T>),
    start: int,
    splice: Splice<T>,
) -> bool {
    &&& occurrences(text, pair.0).contains(start)
    &&& occurs_at(text, pair.0, start)
    &&& splice == splice_of(pair)
}

/// Every kept occurrence is one of the disjoint occurrences in `text` of a
/// pattern of the list, and what is spliced in is the replacement of that
/// pattern.
pub open spec fn drawn_from<T>(
    kept: Kept<T>,
    text: Seq<T>,
    patterns: Seq<(Seq<T>, Seq<T>)>,
) -> bool {
    forall|start: int| #[trigger]
        kept.contains_key(start) ==> exists|k: int|
            0 <= k < patterns.len() && drawn(text, #[trigger] patterns[k], start, kept[start])
}

/// `small` is a part of `large`: what is kept in `small` is kept in `large`
/// with the same splice.
pub open spec fn within<T>(small: Kept<T>, large: Kept<T>) -> bool {
    forall|start: int| #[trigger]
        small.contains_key(start) ==> large.contains_key(start) && large[start] == small[start]
}

/// `one` and `other` keep occurrences at the same starts with the same
/// lengths; the replacements may differ.
pub open spec fn same_spans<T>(one: Kept<T>, other: Kept<T>) -> bool {
    forall|start: int|
        #![trigger one.contains_key(start)]
        #![trigger other.contains_key(start)]
        {
            &&& one.contains_key(start) <==> other.contains_key(start)
            &&& one.contains_key(start) ==> one[start].len == other[start].len
        }
}

/// What the candidates of one pattern do to the kept occurrences: all that
/// was kept stays; what is new begins at one of the candidates and has their
/// splice; each candidate is kept or overlaps a kept occurrence; and the kept
/// occurrences stay disjoint.
pub proof fn lemma_keep_each<T>(kept: Kept<T>, starts: Seq<int>, splice: Splice<T>)
    requires
        disjoint(kept),
        splice.len > 0,
    ensures
        disjoint(keep_each(kept, starts, splice)),
        within(kept, keep_each(kept, starts, splice)),
        forall|start: int| #[trigger]
            keep_each(kept, starts, splice).contains_key(start) && !kept.contains_key(start) ==> {
                &&& starts.contains(start)
                &&& keep_each(kept, starts, splice)[start] == splice
            },
        forall|j: int|
            0 <= j < starts.len() ==> {
                ||| keep_each(kept, starts, splice).contains_key(#[trigger] starts[j])
                ||| clashes(keep_each(kept, starts, splice), starts[j], splice.len)
            },
    decreases starts.len(),
{
    if starts.len() > 0 {
        let front = starts.drop_last();
        let before = keep_each(kept, front, splice);
        let after = keep_each(kept, starts, splice);
        let last = starts.last();
        lemma_keep_each(kept, front, splice);
        assert forall|j: int| 0 <= j < starts.len() implies after.contains_key(#[trigger] starts[j])
            || clashes(after, starts[j], splice.len) by {
            if j < front.len() {
                assert(front[j] == starts[j]);
                if !before.contains_key(starts[j]) {
                    let other = choose|other: int| #[trigger]
                        before.contains_key(other) && overlaps(
                            other,
                            before[other].len,
                            starts[j],
                            splice.len,
                        );
                    assert(after.contains_key(other) && after[other] == before[other]);
                }
            } else if !clashes(before, last, splice.len) {
                assert(after.contains_key(last));
            }
        }
    }
}

/// Among candidates that leave each other room, the first `count` are let
/// in, each exactly when it overlaps nothing that was kept before them.
proof fn lemma_keep_each_apart<T>(kept: Kept<T>, starts: Seq<int>, splice: Splice<T>, count: int)
    requires
        disjoint(kept),
        splice.len > 0,
        0 <= count <= starts.len(),
        forall|i: int, j: int|
            0 <= i < j < starts.len() ==> #[trigger] starts[i] + splice.len <= #[trigger] starts[j],
    ensures
        forall|j: int|
            0 <= j < count ==> {
                &&& keep_each(kept, starts.take(count), splice).contains_key(#[trigger] starts[j])
                    && !kept.contains_key(starts[j]) <==> !clashes(kept, starts[j], splice.len)
                &&& !clashes(kept, starts[j], splice.len) ==> keep_each(
                    kept,
                    starts.take(count),
                    splice,
                )[starts[j]] == splice
            },
    decreases count,
{
    if count > 0 {
        let front = starts.take(count - 1);
        lemma_keep_each_apart(kept, starts, splice, count - 1);
        lemma_keep_each(kept, front, splice);
        assert(starts.take(count).drop_last() =~= front);
        assert(keep_each(kept, starts.take(count), splice) == keep(
            keep_each(kept, front, splice),
            starts[count - 1],
            splice,
        ));
    }
}

/// An occurrence of a pattern is let in at the pattern's turn exactly when
/// it overlaps nothing that was kept before the turn: the occurrences of
/// one pattern never stand in each other's way.
pub proof fn lemma_keep_pattern_rule<T>(kept: Kept<T>, text: Seq<T>, pair: (Seq<T>, Seq<T>), j: int)
    requires
        disjoint(kept),
        0 <= j < occurrences(text, pair.0).len(),
    ensures
        keep_each(kept, occurrences(text, pair.0), splice_of(pair)).contains_key(
            occurrences(text, pair.0)[j],
        ) && !kept.contains_key(occurrences(text, pair.0)[j]) <==> !clashes(
            kept,
            occurrences(text, pair.0)[j],
            pair.0.len() as int,
        ),
        !clashes(kept, occurrences(text, pair.0)[j], pair.0.len() as int) ==> keep_each(
            kept,
            occurrences(text, pair.0),
            splice_of(pair),
        )[occurrences(text, pair.0)[j]] == splice_of(pair),
{
    let starts = occurrences(text, pair.0);
    lemma_occurrences_from(text, pair.0, 0);
    lemma_keep_each_apart(kept, starts, splice_of(pair), starts.len() as int);
    assert(starts.take(starts.len() as int) =~= starts);
}

/// What one pattern of the list does to the kept occurrences: all that was
/// kept stays; what is new is an occurrence of the pattern with its splice;
/// each of its disjoint occurrences is kept or overlaps a kept occurrence;
/// and the kept occurrences stay disjoint.
pub proof fn lemma_keep_pattern<T>(kept: Kept<T>, text: Seq<T>, pair: (Seq<T>, Seq<T>))
    requires
        disjoint(kept),
    ensures
        disjoint(keep_each(kept, occurrences(text, pair.0), splice_of(pair))),
        within(kept, keep_each(kept, occurrences(text, pair.0), splice_of(pair))),
        forall|start: int| #[trigger]
            keep_each(kept, occurrences(text, pair.0), splice_of(pair)).contains_key(start)
                && !kept.contains_key(start) ==> {
                &&& occurrences(text, pair.0).contains(start)
                &&& occurs_at(text, pair.0, start)
                &&& keep_each(kept, occurrences(text, pair.0), splice_of(pair))[start] == splice_of(
                    pair,
                )
            },
        forall|j: int|
            0 <= j < occurrences(text, pair.0).len() ==> {
                ||| keep_each(kept, occurrences(text, pair.0), splice_of(pair)).contains_key(
                    #[trigger] occurrences(text, pair.0)[j],
                )
                ||| clashes(
                    keep_each(kept, occurrences(text, pair.0), splice_of(pair)),
                    occurrences(text, pair.0)[j],
                    pair.0.len() as int,
                )
            },
{
    let starts = occurrences(text, pair.0);
    lemma_occurrences_from(text, pair.0, 0);
    if starts.len() > 0 {
        lemma_keep_each(kept, starts, splice_of(pair));
    }
}

/// The kept occurrences never overlap, and each is one of the disjoint
/// occurrences of a pattern of the list and carries the replacement of that
/// pattern.
pub proof fn lemma_resolved_disjoint<T>(text: Seq<T>, patterns: Seq<(Seq<T>, Seq<T>)>)
    ensures
        disjoint(resolved(text, patterns)),
        drawn_from(resolved(text, patterns), text, patterns),
    decreases patterns.len(),
{
    if patterns.len() > 0 {
        let front = patterns.drop_last();
        let last = patterns.last();
        let before = resolved(text, front);
        let starts = occurrences(text, last.0);
        lemma_resolved_disjoint(text, front);
        lemma_occurrences_from(text, last.0, 0);
        if starts.len() > 0 {
            lemma_keep_each(before, starts, splice_of(last));
        }
    }
}

/// What the first patterns of the list have claimed, the later ones leave
/// alone: the occurrences kept for a front part of the list are kept for the
/// whole list, each with the same replacement.
pub proof fn lemma_kept_stays<T>(text: Seq<T>, patterns: Seq<(Seq<T>, Seq<T>)>, count: int)
    requires
        0 <= count <= patterns.len(),
    ensures
        within(resolved(text, patterns.take(count)), resolved(text, patterns)),
    decreases patterns.len(),
{
    if count == patterns.len() {
        assert(patterns.take(count) =~= patterns);
    } else {
        let front = patterns.drop_last();
        lemma_kept_stays(text, front, count);
        assert(front.take(count) =~= patterns.take(count));
        lemma_resolved_disjoint(text, front);
        lemma_keep_pattern(resolved(text, front), text, patterns.last());
    }
}

/// Earlier patterns come first: an occurrence of a pattern of the list is
/// kept, with the replacement of that pattern, where it overlaps nothing
/// that the patterns before it in the list have claimed; where it does
/// overlap, the turn of its pattern does not let it in.
pub proof fn lemma_candidate_kept<T>(text: Seq<T>, patterns: Seq<(Seq<T>, Seq<T>)>, k: int, j: int)
    requires
        0 <= k < patterns.len(),
        0 <= j < occurrences(text, patterns[k].0).len(),
    ensures
        !clashes(
            resolved(text, patterns.take(k)),
            occurrences(text, patterns[k].0)[j],
            patterns[k].0.len() as int,
        ) ==> {
            &&& resolved(text, patterns).contains_key(occurrences(text, patterns[k].0)[j])
            &&& resolved(text, patterns)[occurrences(text, patterns[k].0)[j]] == splice_of(
                patterns[k],
            )
        },
        clashes(
            resolved(text, patterns.take(k)),
            occurrences(text, patterns[k].0)[j],
            patterns[k].0.len() as int,
        ) ==> {
            ||| !resolved(text, patterns.take(k + 1)).contains_key(
                occurrences(text, patterns[k].0)[j],
            )
            ||| resolved(text, patterns.take(k)).contains_key(occurrences(text, patterns[k].0)[j])
        },
{
    let front = patterns.take(k);
    let upto = patterns.take(k + 1);
    assert(upto.drop_last() =~= front);
    lemma_resolved_disjoint(text, front);
    lemma_keep_pattern_rule(resolved(text, front), text, patterns[k], j);
    lemma_kept_stays(text, patterns, k + 1);
}

/// Every disjoint occurrence of the first pattern of the list is kept, with
/// the replacement of the first pattern.
pub proof fn lemma_first_pattern_kept<T>(text: Seq<T>, patterns: Seq<(Seq<T>, Seq<T>)>, j: int)
    requires
        0 < patterns.len(),
        0 <= j < occurrences(text, patterns[0].0).len(),
    ensures
        resolved(text, patterns).contains_key(occurrences(text, patterns[0].0)[j]),
        resolved(text, patterns)[occurrences(text, patterns[0].0)[j]] == splice_of(patterns[0]),
{
    lemma_candidate_kept(text, patterns, 0, j);
}

/// Every disjoint occurrence of every pattern of the list is kept or
/// overlaps an occurrence that is kept: no more could be kept.
pub proof fn lemma_resolved_maximal<T>(
    text: Seq<T>,
    patterns: Seq<(Seq<T>, Seq<T>)>,
    k: int,
    j: int,
)
    requires
        0 <= k < patterns.len(),
        0 <= j < occurrences(text, patterns[k].0).len(),
    ensures
        resolved(text, patterns).contains_key(occurrences(text, patterns[k].0)[j]) || clashes(
            resolved(text, patterns),
            occurrences(text, patterns[k].0)[j],
            patterns[k].0.len() as int,
        ),
{
    let front = patterns.take(k);
    let upto = patterns.take(k + 1);
    assert(upto.drop_last() =~= front);
    lemma_resolved_disjoint(text, front);
    lemma_keep_pattern(resolved(text, front), text, patterns[k]);
    lemma_kept_stays(text, patterns, k + 1);
}

/// Candidates at the same starts with the same length leave the same spans
/// behind, whatever they splice in.
proof fn lemma_keep_each_same_spans<T>(
    one: Kept<T>,
    other: Kept<T>,
    starts: Seq<int>,
    one_splice: Splice<T>,
    other_splice: Splice<T>,
)
    requires
        same_spans(one, other),
        one_splice.len == other_splice.len,
    ensures
        same_spans(keep_each(one, starts, one_splice), keep_each(other, starts, other_splice)),
    decreases starts.len(),
{
    if starts.len() > 0 {
        let front = starts.drop_last();
        let one_before = keep_each(one, front, one_splice);
        let other_before = keep_each(other, front, other_splice);
        let last = starts.last();
        lemma_keep_each_same_spans(one, other, front, one_splice, other_splice);
        if clashes(one_before, last, one_splice.len) {
            let hit = choose|hit: int| #[trigger]
                one_before.contains_key(hit) && overlaps(
                    hit,
                    one_before[hit].len,
                    last,
                    one_splice.len,
                );
            assert(other_before.contains_key(hit));
        }
        if clashes(other_before, last, other_splice.len) {
            let hit = choose|hit: int| #[trigger]
                other_before.contains_key(hit) && overlaps(
                    hit,
                    other_before[hit].len,
                    last,
                    other_splice.len,
                );
            assert(one_before.contains_key(hit));
        }
    }
}

/// Which spans of the text are replaced depends on the patterns alone, not
/// on what replaces them: patterns are never searched in a replacement.
pub proof fn lemma_spans_ignore_replacements<T>(
    text: Seq<T>,
    patterns: Seq<(Seq<T>, Seq<T>)>,
    others: Seq<(Seq<T>, Seq<T>)>,
)
    requires
        patterns.len() == others.len(),
        forall|k: int| 0 <= k < patterns.len() ==> (#[trigger] patterns[k]).0 == others[k].0,
    ensures
        same_spans(resolved(text, patterns), resolved(text, others)),
    decreases patterns.len(),
{
    if patterns.len() > 0 {
        lemma_spans_ignore_replacements(text, patterns.drop_last(), others.drop_last());
        lemma_keep_each_same_spans(
            resolved(text, patterns.drop_last()),
            resolved(text, others.drop_last()),
            occurrences(text, patterns.last().0),
            splice_of(patterns.last()),
            splice_of(others.last()),
        );
    }
}

} // verus!
