//! Which occurrences are kept: patterns are taken in the order of the list,
//! and an occurrence is kept unless it overlaps one that was kept before.

use crate::boundary::lemma_occurrence_on_boundaries;
use crate::matching::{as_ints, lemma_occurrences_from, match_offsets, occurrences, occurs_at};
use vstd::prelude::*;
use vstd::string::*;
use vstd::utf8::*;

verus! {

/// What stands in for a span of the text: `len` elements leave it and
/// `replacement` comes in their place.
pub struct Splice<T> {
    pub len: int,
    pub replacement: Seq<T>,
}

/// The kept occurrences of a text: each start offset with what is spliced in
/// there.
pub type Kept<T> = Map<int, Splice<T>>;

/// The spans `[start, start + len)` and `[other_start, other_start +
/// other_len)` share a position.
pub open spec fn overlaps(start: int, len: int, other_start: int, other_len: int) -> bool {
    start < other_start + other_len && other_start < start + len
}

/// The span `[start, start + len)` overlaps a kept occurrence.
pub open spec fn clashes<T>(kept: Kept<T>, start: int, len: int) -> bool {
    exists|other: int| #[trigger]
        kept.contains_key(other) && overlaps(other, kept[other].len, start, len)
}

/// The kept occurrences after one more candidate asked to be let in.
pub open spec fn keep<T>(kept: Kept<T>, start: int, splice: Splice<T>) -> Kept<T> {
    if clashes(kept, start, splice.len) {
        kept
    } else {
        kept.insert(start, splice)
    }
}

/// The kept occurrences after the candidates at `starts`, all with the same
/// splice, asked one after the other.
pub open spec fn keep_each<T>(kept: Kept<T>, starts: Seq<int>, splice: Splice<T>) -> Kept<T>
    decreases starts.len(),
{
    if starts.len() == 0 {
        kept
    } else {
        keep(keep_each(kept, starts.drop_last(), splice), starts.last(), splice)
    }
}

/// What a pair of the pattern list splices in wherever its pattern is kept.
pub open spec fn splice_of<T>(pair: (Seq<T>, Seq<T>)) -> Splice<T> {
    Splice { len: pair.0.len() as int, replacement: pair.1 }
}

/// The occurrences kept in `text` for the list `patterns`: the patterns are
/// taken in order, each with its disjoint occurrences from left to right.
pub open spec fn resolved<T>(text: Seq<T>, patterns: Seq<(Seq<T>, Seq<T>)>) -> Kept<T>
    decreases patterns.len(),
{
    if patterns.len() == 0 {
        Map::empty()
    } else {
        keep_each(
            resolved(text, patterns.drop_last()),
            occurrences(text, patterns.last().0),
            splice_of(patterns.last()),
        )
    }
}

/// A pattern list as bytes.
pub open spec fn pattern_bytes(patterns: Seq<(&str, &str)>) -> Seq<(Seq<u8>, Seq<u8>)> {
    patterns.map_values(|pair: (&str, &str)| (pair.0.spec_bytes(), pair.1.spec_bytes()))
}

/// A kept occurrence: `len` bytes of the source from byte offset `start` on
/// give way to `replacement`.
#[derive(Clone, Copy, Debug, PartialEq, Eq)]
pub struct Occurrence<'a> {
    pub start: usize,
    pub len: usize,
    pub replacement: &'a str,
}

impl<'a> Occurrence<'a> {
    /// The offset right behind the span.
    pub open spec fn end(self) -> int {
        self.start + self.len
    }

    /// What the occurrence splices in at its start.
    pub open spec fn splice(self) -> Splice<u8> {
        Splice { len: self.len as int, replacement: self.replacement.spec_bytes() }
    }
}

/// The occurrences as a map from start offset to splice.
pub open spec fn as_map(occurrences: Seq<Occurrence>) -> Kept<u8>
    decreases occurrences.len(),
{
    if occurrences.len() == 0 {
        Map::empty()
    } else {
        as_map(occurrences.drop_last()).insert(
            occurrences.last().start as int,
            occurrences.last().splice(),
        )
    }
}

/// No span is empty, and each ends before the next begins.
pub open spec fn in_order(occurrences: Seq<Occurrence>) -> bool {
    &&& forall|i: int| 0 <= i < occurrences.len() ==> (#[trigger] occurrences[i]).len > 0
    &&& forall|i: int, j: int|
        0 <= i < j < occurrences.len() ==> (#[trigger] occurrences[i]).end() <= (
        #[trigger] occurrences[j]).start
}

/// The occurrences are in order, lie within `text`, and begin and end on
/// character boundaries of it.
pub open spec fn well_placed(occurrences: Seq<Occurrence>, text: Seq<u8>) -> bool {
    &&& in_order(occurrences)
    &&& forall|i: int|
        0 <= i < occurrences.len() ==> {
            &&& (#[trigger] occurrences[i]).end() <= text.len()
            &&& is_char_boundary(text, occurrences[i].start as int)
            &&& is_char_boundary(text, occurrences[i].end())
        }
}

/// The map of occurrences in order has their starts as keys, and at each
/// start the splice of the occurrence that begins there.
pub proof fn lemma_as_map(occurrences: Seq<Occurrence>)
    requires
        in_order(occurrences),
    ensures
        forall|start: int| #[trigger]
            as_map(occurrences).contains_key(start) <==> exists|i: int|
                0 <= i < occurrences.len() && (#[trigger] occurrences[i]).start == start,
        forall|i: int|
            0 <= i < occurrences.len() ==> as_map(occurrences).contains_key(
                (#[trigger] occurrences[i]).start as int,
            ) && as_map(occurrences)[occurrences[i].start as int] == occurrences[i].splice(),
    decreases occurrences.len(),
{
    if occurrences.len() > 0 {
        let front = occurrences.drop_last();
        let last = occurrences.last();
        lemma_as_map(front);
        assert forall|start: int| #[trigger]
            as_map(occurrences).contains_key(start) implies exists|i: int|
            0 <= i < occurrences.len() && (#[trigger] occurrences[i]).start == start by {
            if start != last.start {
                assert(as_map(front).contains_key(start));
                let i = choose|i: int| 0 <= i < front.len() && (#[trigger] front[i]).start == start;
                assert(occurrences[i] == front[i]);
            }
        }
        assert forall|i: int| 0 <= i < occurrences.len() implies as_map(occurrences).contains_key(
            (#[trigger] occurrences[i]).start as int,
        ) && as_map(occurrences)[occurrences[i].start as int] == occurrences[i].splice() by {
            if i < front.len() {
                assert(front[i] == occurrences[i]);
            }
        }
    }
}

/// Putting an occurrence into its place in the order puts its splice into
/// the map.
pub proof fn lemma_as_map_insert(occurrences: Seq<Occurrence>, at: int, occurrence: Occurrence)
    requires
        0 <= at <= occurrences.len(),
        in_order(occurrences),
        in_order(occurrences.insert(at, occurrence)),
    ensures
        as_map(occurrences.insert(at, occurrence)) == as_map(occurrences).insert(
            occurrence.start as int,
            occurrence.splice(),
        ),
{
    let grown = occurrences.insert(at, occurrence);
    let expected = as_map(occurrences).insert(occurrence.start as int, occurrence.splice());
    lemma_as_map(occurrences);
    lemma_as_map(grown);
    assert(grown[at] == occurrence);
    assert forall|start: int| expected.contains_key(start) implies as_map(grown).contains_key(
        start,
    ) by {
        if start != occurrence.start {
            let i = choose|i: int|
                0 <= i < occurrences.len() && (#[trigger] occurrences[i]).start == start;
            if i < at {
                assert(grown[i] == occurrences[i]);
            } else {
                assert(grown[i + 1] == occurrences[i]);
            }
        }
    }
}

/// The number of occurrences of `kept` that start before `start`.
fn rank(kept: &Vec<Occurrence>, start: usize) -> (at: usize)
    requires
        in_order(kept@),
    ensures
        at <= kept@.len(),
        forall|i: int| 0 <= i < at ==> (#[trigger] kept@[i]).start < start,
        forall|i: int| at <= i < kept@.len() ==> (#[trigger] kept@[i]).start >= start,
{
    let mut low: usize = 0;
    let mut high: usize = kept.len();
    while low < high
        invariant
            low <= high <= kept@.len(),
            in_order(kept@),
            forall|i: int| 0 <= i < low ==> (#[trigger] kept@[i]).start < start,
            forall|i: int| high <= i < kept@.len() ==> (#[trigger] kept@[i]).start >= start,
        decreases high - low,
    {
        let mid: usize = low + (high - low) / 2;
        if kept[mid].start < start {
            low = mid + 1;
        } else {
            high = mid;
        }
    }
    low
}

/// Whether a span overlaps an occurrence of a list in order is decided by
/// the two occurrences next to it: the last that starts before it and the
/// first that does not.
pub proof fn lemma_neighbours_decide(occurrences: Seq<Occurrence>, at: int, start: int, len: int)
    requires
        in_order(occurrences),
        len > 0,
        0 <= at <= occurrences.len(),
        forall|i: int| 0 <= i < at ==> (#[trigger] occurrences[i]).start < start,
        forall|i: int| at <= i < occurrences.len() ==> (#[trigger] occurrences[i]).start >= start,
    ensures
        clashes(as_map(occurrences), start, len) <==> (at > 0 && occurrences[at - 1].end() > start)
            || (at < occurrences.len() && occurrences[at].start < start + len),
{
    let map = as_map(occurrences);
    lemma_as_map(occurrences);
    if at > 0 && occurrences[at - 1].end() > start {
        assert(map.contains_key(occurrences[at - 1].start as int));
    } else if at < occurrences.len() && occurrences[at].start < start + len {
        assert(map.contains_key(occurrences[at].start as int));
    } else {
        assert forall|other: int| #[trigger] map.contains_key(other) implies !overlaps(
            other,
            map[other].len,
            start,
            len,
        ) by {
            let i = choose|i: int|
                0 <= i < occurrences.len() && (#[trigger] occurrences[i]).start == other;
            if i < at - 1 {
                assert(occurrences[i].end() <= occurrences[at - 1].start);
            } else if i > at {
                assert(occurrences[at].end() <= occurrences[i].start);
            }
        }
    }
}

/// An occurrence that overlaps neither of its neighbours keeps the list in
/// order when it is put between them.
pub proof fn lemma_insert_in_order(occurrences: Seq<Occurrence>, at: int, occurrence: Occurrence)
    requires
        in_order(occurrences),
        occurrence.len > 0,
        0 <= at <= occurrences.len(),
        at > 0 ==> occurrences[at - 1].end() <= occurrence.start,
        at < occurrences.len() ==> occurrence.end() <= occurrences[at].start,
    ensures
        in_order(occurrences.insert(at, occurrence)),
{
    let grown = occurrences.insert(at, occurrence);
    assert forall|i: int| 0 <= i < grown.len() implies (#[trigger] grown[i]).len > 0 by {
        if i < at {
            assert(grown[i] == occurrences[i]);
        } else if i > at {
            assert(grown[i] == occurrences[i - 1]);
        }
    }
    assert forall|i: int, j: int| 0 <= i < j < grown.len() implies (#[trigger] grown[i]).end() <= (
    #[trigger] grown[j]).start by {
        if j < at {
            assert(occurrences[i].end() <= occurrences[j].start);
        } else if j == at {
            if i < at - 1 {
                assert(occurrences[i].end() <= occurrences[at - 1].start);
            }
        } else if i < at {
            assert(occurrences[i].end() <= occurrences[j - 1].start);
        } else if i == at {
            if j - 1 > at {
                assert(occurrences[at].end() <= occurrences[j - 1].start);
            }
        } else {
            assert(occurrences[i - 1].end() <= occurrences[j - 1].start);
        }
    }
}

/// Keeps `occurrence` unless it overlaps an occurrence that `kept` holds, and
/// tells whether it was kept.
pub fn place<'a>(kept: &mut Vec<Occurrence<'a>>, occurrence: Occurrence<'a>) -> (placed: bool)
    requires
        in_order(old(kept)@),
        occurrence.len > 0,
    ensures
        in_order(final(kept)@),
        placed == !clashes(as_map(old(kept)@), occurrence.start as int, occurrence.len as int),
        as_map(final(kept)@) == keep(
            as_map(old(kept)@),
            occurrence.start as int,
            occurrence.splice(),
        ),
        placed ==> exists|at: int|
            0 <= at <= old(kept)@.len() && final(kept)@ == #[trigger] old(kept)@.insert(
                at,
                occurrence,
            ),
        !placed ==> final(kept)@ == old(kept)@,
{
    let at: usize = rank(kept, occurrence.start);
    let ghost before = kept@;
    proof {
        lemma_neighbours_decide(before, at as int, occurrence.start as int, occurrence.len as int);
    }
    if at > 0 && kept[at - 1].len > occurrence.start - kept[at - 1].start {
        return false;
    }
    if at < kept.len() && kept[at].start - occurrence.start < occurrence.len {
        return false;
    }
    kept.insert(at, occurrence);
    proof {
        lemma_insert_in_order(before, at as int, occurrence);
        lemma_as_map_insert(before, at as int, occurrence);
    }
    true
}

/// The occurrences kept in `source` for the list `patterns`, in ascending
/// order of their start. Every pattern is searched in `source` itself, and
/// where two occurrences overlap, the one found first stays: that of the
/// earlier pattern, or of the same pattern further left.
pub fn resolve<'a>(source: &str, patterns: &[(&str, &'a str)]) -> (kept: Vec<Occurrence<'a>>)
    ensures
        well_placed(kept@, source.spec_bytes()),
        as_map(kept@) == resolved(source.spec_bytes(), pattern_bytes(patterns@)),
{
    let text = source.as_bytes();
    let ghost list = pattern_bytes(patterns@);
    let mut kept: Vec<Occurrence<'a>> = Vec::new();
    let mut next: usize = 0;
    while next < patterns.len()
        invariant
            next <= patterns@.len(),
            text@ == source.spec_bytes(),
            list == pattern_bytes(patterns@),
            well_placed(kept@, text@),
            as_map(kept@) == resolved(text@, list.take(next as int)),
        decreases patterns@.len() - next,
    {
        let (pattern, replacement) = patterns[next];
        let needle = pattern.as_bytes();
        let offsets = match_offsets(text, needle);
        let len: usize = needle.len();
        let ghost starts = as_ints(offsets@);
        let ghost splice = Splice { len: len as int, replacement: replacement.spec_bytes() };
        let ghost earlier = as_map(kept@);
        let mut taken: usize = 0;
        proof {
            lemma_occurrences_from(text@, pattern.spec_bytes(), 0);
            encode_utf8_valid_utf8(source@);
            encode_utf8_valid_utf8(pattern@);
        }
        while taken < offsets.len()
            invariant
                taken <= offsets@.len(),
                starts == as_ints(offsets@),
                starts == occurrences(text@, pattern.spec_bytes()),
                len == pattern.spec_bytes().len(),
                splice == (Splice { len: len as int, replacement: replacement.spec_bytes() }),
                valid_utf8(text@),
                valid_utf8(pattern.spec_bytes()),
                forall|k: int|
                    0 <= k < starts.len() ==> occurs_at(
                        text@,
                        pattern.spec_bytes(),
                        #[trigger] starts[k],
                    ),
                well_placed(kept@, text@),
                as_map(kept@) == keep_each(earlier, starts.take(taken as int), splice),
            decreases offsets@.len() - taken,
        {
            let start: usize = offsets[taken];
            let occurrence = Occurrence { start, len, replacement };
            let ghost before = kept@;
            proof {
                assert(starts[taken as int] == start);
                lemma_occurrence_on_boundaries(text@, pattern.spec_bytes(), start as int);
            }
            let placed = place(&mut kept, occurrence);
            proof {
                assert(starts.take(taken + 1).drop_last() =~= starts.take(taken as int));
                if placed {
                    let at = choose|at: int|
                        0 <= at <= before.len() && kept@ == #[trigger] before.insert(
                            at,
                            occurrence,
                        );
                    assert forall|i: int| 0 <= i < kept@.len() implies {
                        &&& (#[trigger] kept@[i]).end() <= text@.len()
                        &&& is_char_boundary(text@, kept@[i].start as int)
                        &&& is_char_boundary(text@, kept@[i].end())
                    } by {
                        if i < at {
                            assert(kept@[i] == before[i]);
                        } else if i > at {
                            assert(kept@[i] == before[i - 1]);
                        }
                    }
                }
            }
            taken += 1;
        }
        proof {
            assert(starts.take(taken as int) =~= starts);
            assert(list.take(next + 1).drop_last() =~= list.take(next as int));
        }
        next += 1;
    }
    assert(list.take(next as int) =~= list);
    kept
}

} // verus!
