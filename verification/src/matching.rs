//! Literal occurrences of a pattern in a text, and the left-to-right scan
//! that picks the ones which do not overlap.

use vstd::prelude::*;

verus! {

/// `pattern` stands in `text` at offset `at`. An empty pattern stands nowhere.
pub open spec fn occurs_at<T>(text: Seq<T>, pattern: Seq<T>, at: int) -> bool {
    &&& pattern.len() > 0
    &&& 0 <= at
    &&& at + pattern.len() <= text.len()
    &&& text.subrange(at, at + pattern.len()) == pattern
}

/// `pattern` occurs somewhere in `text`.
pub open spec fn occurs_in<T>(text: Seq<T>, pattern: Seq<T>) -> bool {
    exists|at: int| occurs_at(text, pattern, at)
}

/// The offsets that a scan from `from` to the right picks: it takes the
/// first occurrence it meets and goes on right behind it, so that the
/// occurrences picked never overlap.
pub open spec fn occurrences_from<T>(text: Seq<T>, pattern: Seq<T>, from: int) -> Seq<int>
    decreases text.len() - from,
{
    if pattern.len() == 0 || from < 0 || from + pattern.len() > text.len() {
        Seq::empty()
    } else if occurs_at(text, pattern, from) {
        seq![from] + occurrences_from(text, pattern, from + pattern.len())
    } else {
        occurrences_from(text, pattern, from + 1)
    }
}

/// The offsets of the disjoint occurrences of `pattern` in `text`, ascending.
pub open spec fn occurrences<T>(text: Seq<T>, pattern: Seq<T>) -> Seq<int> {
    occurrences_from(text, pattern, 0)
}

/// The offsets picked by a scan from `from` are occurrences at or after
/// `from`, and behind each the pattern has room before the next begins.
pub proof fn lemma_occurrences_from<T>(text: Seq<T>, pattern: Seq<T>, from: int)
    ensures
        forall|k: int|
            0 <= k < occurrences_from(text, pattern, from).len() ==> {
                &&& from <= #[trigger] occurrences_from(text, pattern, from)[k]
                &&& occurs_at(text, pattern, occurrences_from(text, pattern, from)[k])
            },
        forall|i: int, j: int|
            0 <= i < j < occurrences_from(text, pattern, from).len() ==> {
                #[trigger] occurrences_from(text, pattern, from)[i] + pattern.len()
                    <= #[trigger] occurrences_from(text, pattern, from)[j]
            },
    decreases text.len() - from,
{
    let found = occurrences_from(text, pattern, from);
    if pattern.len() == 0 || from < 0 || from + pattern.len() > text.len() {
    } else if occurs_at(text, pattern, from) {
        lemma_occurrences_from(text, pattern, from + pattern.len());
        assert(found == seq![from] + occurrences_from(text, pattern, from + pattern.len()));
    } else {
        lemma_occurrences_from(text, pattern, from + 1);
        assert(found == occurrences_from(text, pattern, from + 1));
    }
}

/// The scan misses nothing: every occurrence at or after `from` is picked or
/// begins inside an occurrence that is picked.
pub proof fn lemma_occurrences_cover<T>(text: Seq<T>, pattern: Seq<T>, from: int, at: int)
    requires
        0 <= from <= at,
        occurs_at(text, pattern, at),
    ensures
        exists|k: int|
            0 <= k < occurrences_from(text, pattern, from).len() && #[trigger] occurrences_from(
                text,
                pattern,
                from,
            )[k] <= at < occurrences_from(text, pattern, from)[k] + pattern.len(),
    decreases at - from,
{
    let found = occurrences_from(text, pattern, from);
    if occurs_at(text, pattern, from) {
        let rest = occurrences_from(text, pattern, from + pattern.len());
        if at < from + pattern.len() {
            assert(found[0] == from);
        } else {
            lemma_occurrences_cover(text, pattern, from + pattern.len(), at);
            let k = choose|k: int|
                0 <= k < rest.len() && #[trigger] rest[k] <= at < rest[k] + pattern.len();
            assert(found[k + 1] == rest[k]);
        }
    } else {
        lemma_occurrences_cover(text, pattern, from + 1, at);
    }
}

/// A scan may pass over a stretch of the text in which the pattern does not
/// occur.
pub proof fn lemma_occurrences_skip<T>(text: Seq<T>, pattern: Seq<T>, from: int, to: int)
    requires
        0 <= from <= to,
        forall|at: int| from <= at < to ==> !occurs_at(text, pattern, at),
    ensures
        occurrences_from(text, pattern, from) == occurrences_from(text, pattern, to),
    decreases to - from,
{
    if from < to {
        if pattern.len() > 0 && from + pattern.len() <= text.len() {
            lemma_occurrences_skip(text, pattern, from + 1, to);
        }
    }
}

/// A sequence of machine offsets, read as mathematical integers.
pub open spec fn as_ints(offsets: Seq<usize>) -> Seq<int> {
    offsets.map_values(|at: usize| at as int)
}

/// Tells whether `pattern` stands in `text` at offset `at`.
pub fn occurs_at_offset(text: &[u8], pattern: &[u8], at: usize) -> (found: bool)
    ensures
        found == occurs_at(text@, pattern@, at as int),
{
    let width: usize = pattern.len();
    let length: usize = text.len();
    if width == 0 || at > length || width > length - at {
        return false;
    }
    let mut matched: usize = 0;
    while matched < width
        invariant
            width == pattern@.len(),
            length == text@.len(),
            at + width <= length,
            matched <= width,
            forall|j: int| 0 <= j < matched ==> text@[at + j] == pattern@[j],
        decreases width - matched,
    {
        if text[at + matched] != pattern[matched] {
            return false;
        }
        matched += 1;
    }
    assert(text@.subrange(at as int, at + width) =~= pattern@);
    true
}

/// Finds the disjoint occurrences of `pattern` in `text`, from left to right.
pub fn match_offsets(text: &[u8], pattern: &[u8]) -> (offsets: Vec<usize>)
    ensures
        as_ints(offsets@) == occurrences(text@, pattern@),
{
    let mut offsets: Vec<usize> = Vec::new();
    let width: usize = pattern.len();
    let length: usize = text.len();
    if width == 0 || width > length {
        return offsets;
    }
    let mut at: usize = 0;
    while at <= length - width
        invariant
            0 < width <= length,
            width == pattern@.len(),
            length == text@.len(),
            at <= length,
            occurrences(text@, pattern@) == as_ints(offsets@) + occurrences_from(
                text@,
                pattern@,
                at as int,
            ),
        decreases length - at,
    {
        if occurs_at_offset(text, pattern, at) {
            offsets.push(at);
            at += width;
        } else {
            at += 1;
        }
    }
    offsets
}

} // verus!
