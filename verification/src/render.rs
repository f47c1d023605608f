//! The output text: the source with each kept occurrence giving way to its
//! replacement.

use crate::boundary::{lemma_encode_concat, lemma_encode_injective, piece};
use crate::resolve::{as_map, lemma_as_map, well_placed, Kept, Occurrence};
use vstd::prelude::*;
use vstd::string::*;
use vstd::utf8::*;

verus! {

/// The text from `cursor` on, read with the kept occurrences: where one
/// begins that has a span within the text, its replacement stands and
/// reading goes on behind the span; elsewhere the element of the text stands.
pub open spec fn rendered_from<T>(text: Seq<T>, kept: Kept<T>, cursor: int) -> Seq<T>
    decreases text.len() - cursor,
{
    if cursor < 0 || cursor >= text.len() {
        Seq::empty()
    } else if kept.contains_key(cursor) && 0 < kept[cursor].len <= text.len() - cursor {
        kept[cursor].replacement + rendered_from(text, kept, cursor + kept[cursor].len)
    } else {
        seq![text[cursor]] + rendered_from(text, kept, cursor + 1)
    }
}

/// The whole text, read with the kept occurrences.
pub open spec fn rendered<T>(text: Seq<T>, kept: Kept<T>) -> Seq<T> {
    rendered_from(text, kept, 0)
}

/// A stretch of the text in which no kept occurrence begins is copied as it
/// is.
pub proof fn lemma_rendered_gap<T>(text: Seq<T>, kept: Kept<T>, from: int, to: int)
    requires
        0 <= from <= to <= text.len(),
        forall|at: int| from <= at < to ==> !kept.contains_key(at),
    ensures
        rendered_from(text, kept, from) == text.subrange(from, to) + rendered_from(text, kept, to),
    decreases to - from,
{
    if from < to {
        lemma_rendered_gap(text, kept, from + 1, to);
    }
}

/// Reading the text from `cursor`, with the next kept occurrence at `start`:
/// the text up to `start` is copied, the replacement follows, and reading
/// goes on behind the occurrence.
pub proof fn lemma_rendered_occurrence<T>(text: Seq<T>, kept: Kept<T>, cursor: int, start: int)
    requires
        0 <= cursor <= start < text.len(),
        forall|at: int| cursor <= at < start ==> !kept.contains_key(at),
        kept.contains_key(start),
        0 < kept[start].len <= text.len() - start,
    ensures
        rendered_from(text, kept, cursor) == text.subrange(cursor, start) + kept[start].replacement
            + rendered_from(text, kept, start + kept[start].len),
{
    lemma_rendered_gap(text, kept, cursor, start);
}

/// Where nothing is kept, or what is kept is replaced by what stood there,
/// the text stays as it is.
pub proof fn lemma_rendered_unchanged<T>(text: Seq<T>, kept: Kept<T>, cursor: int)
    requires
        0 <= cursor <= text.len(),
        forall|start: int| #[trigger]
            kept.contains_key(start) && 0 <= start && 0 < kept[start].len <= text.len() - start
                ==> kept[start].replacement == text.subrange(start, start + kept[start].len),
    ensures
        rendered_from(text, kept, cursor) == text.subrange(cursor, text.len() as int),
    decreases text.len() - cursor,
{
    if cursor >= text.len() {
    } else if kept.contains_key(cursor) && 0 < kept[cursor].len <= text.len() - cursor {
        let behind = cursor + kept[cursor].len;
        lemma_rendered_unchanged(text, kept, behind);
    } else {
        lemma_rendered_unchanged(text, kept, cursor + 1);
    }
}

/// Builds the output: the source is copied up to each occurrence, the
/// replacement is put in, and copying goes on behind the occurrence.
pub fn render(source: &str, kept: &[Occurrence]) -> (output: String)
    requires
        well_placed(kept@, source.spec_bytes()),
    ensures
        encode_utf8(output@) == rendered(source.spec_bytes(), as_map(kept@)),
        kept@.len() == 0 ==> output@ == source@,
{
    let ghost text = source.spec_bytes();
    let ghost map = as_map(kept@);
    let total: usize = source.as_bytes().len();
    let mut output = String::new();
    let mut cursor: usize = 0;
    let mut next: usize = 0;
    proof {
        lemma_as_map(kept@);
        encode_utf8_valid_utf8(source@);
        is_char_boundary_start_end_of_seq(text);
        assert(encode_utf8(output@) + rendered_from(text, map, 0) =~= rendered(text, map));
    }
    while next < kept.len()
        invariant
            text == source.spec_bytes(),
            map == as_map(kept@),
            total == text.len(),
            valid_utf8(text),
            well_placed(kept@, text),
            next <= kept@.len(),
            cursor <= total,
            is_char_boundary(text, cursor as int),
            forall|i: int| 0 <= i < next ==> (#[trigger] kept@[i]).end() <= cursor,
            forall|i: int| next <= i < kept@.len() ==> cursor <= (#[trigger] kept@[i]).start,
            forall|start: int| #[trigger]
                map.contains_key(start) ==> exists|i: int|
                    0 <= i < kept@.len() && (#[trigger] kept@[i]).start == start,
            forall|i: int|
                0 <= i < kept@.len() ==> map.contains_key((#[trigger] kept@[i]).start as int)
                    && map[kept@[i].start as int] == kept@[i].splice(),
            encode_utf8(output@) + rendered_from(text, map, cursor as int) == rendered(text, map),
        decreases kept@.len() - next,
    {
        let occurrence = kept[next];
        let gap = piece(source, cursor, occurrence.start);
        let ghost copied = output@;
        output.append(gap);
        output.append(occurrence.replacement);
        proof {
            let start = occurrence.start as int;
            assert forall|at: int| cursor <= at < start implies !map.contains_key(at) by {
                if map.contains_key(at) {
                    let i = choose|i: int| 0 <= i < kept@.len() && (#[trigger] kept@[i]).start == at;
                    assert(kept@[i].end() <= cursor || start <= kept@[i].start);
                }
            }
            lemma_rendered_gap(text, map, cursor as int, start);
            assert(map.contains_key(start) && map[start] == occurrence.splice());
            lemma_encode_concat(copied, gap@);
            lemma_encode_concat(copied + gap@, occurrence.replacement@);
            assert(encode_utf8(output@) + rendered_from(text, map, occurrence.end()) =~= encode_utf8(
                copied,
            ) + rendered_from(text, map, cursor as int));
            assert forall|i: int| 0 <= i < next + 1 implies (#[trigger] kept@[i]).end()
                <= occurrence.end() by {
                if i < next {
                    assert(kept@[i].end() <= kept@[next as int].start);
                }
            }
            assert forall|i: int| next + 1 <= i < kept@.len() implies occurrence.end() <= (
            #[trigger] kept@[i]).start by {
                assert(kept@[next as int].end() <= kept@[i].start);
            }
        }
        cursor = occurrence.start + occurrence.len;
        next += 1;
    }
    let rest = piece(source, cursor, total);
    let ghost copied = output@;
    output.append(rest);
    proof {
        assert forall|at: int| cursor <= at < total implies !map.contains_key(at) by {
            if map.contains_key(at) {
                let i = choose|i: int| 0 <= i < kept@.len() && (#[trigger] kept@[i]).start == at;
                assert(kept@[i].end() <= cursor);
            }
        }
        lemma_rendered_gap(text, map, cursor as int, total as int);
        lemma_encode_concat(copied, rest@);
        assert(encode_utf8(output@) =~= encode_utf8(copied) + rendered_from(
            text,
            map,
            cursor as int,
        ));
        if kept@.len() == 0 {
            lemma_rendered_gap(text, map, 0, total as int);
            assert(text.subrange(0, total as int) =~= text);
            assert(text + rendered_from(text, map, total as int) =~= text);
            lemma_encode_injective(output@, source@);
        }
    }
    output
}

} // verus!
