//! Replacing twice: when a second replacement takes back what the first one
//! put in.

use crate::priority::{disjoint, lemma_resolved_disjoint};
use crate::render::{rendered, rendered_from};
use crate::replace::replaced;
use crate::resolve::{resolved, Kept, Splice};
use vstd::prelude::*;

verus! {

/// The kept occurrences are disjoint and each has its span within the text.
pub open spec fn fitting<T>(kept: Kept<T>, text: Seq<T>) -> bool {
    &&& disjoint(kept)
    &&& forall|start: int| #[trigger]
        kept.contains_key(start) ==> 0 <= start && kept[start].len <= text.len() - start
}

/// `cursor` does not lie inside the span of a kept occurrence: reading the
/// text comes by it.
pub open spec fn between<T>(kept: Kept<T>, cursor: int) -> bool {
    forall|start: int| #[trigger]
        kept.contains_key(start) ==> !(start < cursor < start + kept[start].len)
}

/// The offset in the output at which the text from `cursor` on is read.
pub open spec fn moved<T>(text: Seq<T>, kept: Kept<T>, cursor: int) -> int {
    rendered(text, kept).len() - rendered_from(text, kept, cursor).len()
}

/// `back` takes back what `kept` put into the text: where the replacement
/// of a kept occurrence stands in the output, `back` keeps an occurrence as
/// long as that replacement, with the replaced span of the text in return;
/// and `back` keeps nothing else.
pub open spec fn takes_back<T>(back: Kept<T>, kept: Kept<T>, text: Seq<T>) -> bool {
    &&& forall|start: int| #[trigger]
        kept.contains_key(start) ==> {
            &&& back.contains_key(moved(text, kept, start))
            &&& back[moved(text, kept, start)] == (Splice {
                len: kept[start].replacement.len() as int,
                replacement: text.subrange(start, start + kept[start].len),
            })
        }
    &&& forall|at: int| #[trigger]
        back.contains_key(at) ==> exists|start: int| #[trigger]
            kept.contains_key(start) && moved(text, kept, start) == at
}

/// What is read from a later offset is the end of what is read from an
/// earlier one; and it is shorter where no replacement is empty.
proof fn lemma_rendered_tail<T>(text: Seq<T>, kept: Kept<T>, from: int, to: int)
    requires
        fitting(kept, text),
        0 <= from <= to <= text.len(),
        between(kept, from),
        between(kept, to),
    ensures
        rendered_from(text, kept, to).len() <= rendered_from(text, kept, from).len(),
        rendered_from(text, kept, from).skip(
            rendered_from(text, kept, from).len() - rendered_from(text, kept, to).len(),
        ) == rendered_from(text, kept, to),
        from < to && (forall|start: int| #[trigger]
            kept.contains_key(start) ==> kept[start].replacement.len() > 0) ==> rendered_from(
            text,
            kept,
            to,
        ).len() < rendered_from(text, kept, from).len(),
    decreases to - from,
{
    if from == to {
    } else if kept.contains_key(from) {
        let behind = from + kept[from].len;
        lemma_rendered_tail(text, kept, behind, to);
        assert(rendered_from(text, kept, from) == kept[from].replacement + rendered_from(
            text,
            kept,
            behind,
        ));
    } else {
        lemma_rendered_tail(text, kept, from + 1, to);
        assert(rendered_from(text, kept, from) == seq![text[from]] + rendered_from(
            text,
            kept,
            from + 1,
        ));
    }
}

/// Reading the output with the occurrences that take back what was put in
/// gives the text, from any offset that reading the text comes by.
proof fn lemma_rendered_back<T>(text: Seq<T>, kept: Kept<T>, back: Kept<T>, cursor: int)
    requires
        fitting(kept, text),
        disjoint(back),
        takes_back(back, kept, text),
        0 <= cursor <= text.len(),
        between(kept, cursor),
    ensures
        rendered_from(rendered(text, kept), back, moved(text, kept, cursor)) == text.subrange(
            cursor,
            text.len() as int,
        ),
    decreases text.len() - cursor,
{
    let output = rendered(text, kept);
    let at = moved(text, kept, cursor);
    lemma_rendered_tail(text, kept, 0, cursor);
    if cursor == text.len() {
    } else if kept.contains_key(cursor) {
        let behind = cursor + kept[cursor].len;
        lemma_rendered_back(text, kept, back, behind);
    } else {
        lemma_rendered_back(text, kept, back, cursor + 1);
        if back.contains_key(at) {
            let start = choose|start: int| #[trigger]
                kept.contains_key(start) && moved(text, kept, start) == at;
            if start < cursor {
                lemma_rendered_tail(text, kept, start, cursor);
            } else {
                lemma_rendered_tail(text, kept, cursor, start);
            }
        }
        assert(output[at] == output.skip(at)[0]);
    }
}

/// A second replacement gives the text back where the occurrences it keeps
/// are the replacements that the first one put in, each with what it
/// replaced in return.
pub proof fn lemma_replaced_back<T>(
    text: Seq<T>,
    patterns: Seq<(Seq<T>, Seq<T>)>,
    back: Seq<(Seq<T>, Seq<T>)>,
)
    requires
        takes_back(resolved(replaced(text, patterns), back), resolved(text, patterns), text),
    ensures
        replaced(replaced(text, patterns), back) == text,
{
    let kept = resolved(text, patterns);
    lemma_resolved_disjoint(text, patterns);
    lemma_resolved_disjoint(replaced(text, patterns), back);
    lemma_rendered_back(text, kept, resolved(replaced(text, patterns), back), 0);
}

} // verus!
