//! Replacing the patterns of a list, all at once.

use crate::boundary::lemma_encode_injective;
use crate::encoding::{encoded_list, lemma_replaced_encoded};
use crate::matching::occurs_in;
use crate::priority::lemma_resolved_disjoint;
use crate::render::{lemma_rendered_unchanged, render, rendered};
use crate::resolve::{pattern_bytes, resolve, resolved, Splice};
use vstd::prelude::*;
use vstd::string::*;
use vstd::utf8::*;

verus! {

/// The text with the patterns of the list replaced, all at once: the kept
/// occurrences give way to their replacements, the rest stays.
pub open spec fn replaced<T>(text: Seq<T>, patterns: Seq<(Seq<T>, Seq<T>)>) -> Seq<T> {
    rendered(text, resolved(text, patterns))
}

/// A pattern list as texts.
pub open spec fn pattern_chars(patterns: Seq<(&str, &str)>) -> Seq<(Seq<char>, Seq<char>)> {
    patterns.map_values(|pair: (&str, &str)| (pair.0@, pair.1@))
}

/// Replaces the patterns of `pats` in `s`, all at once. Each pair holds a
/// pattern and what replaces it. Patterns are searched in `s` only, never in
/// a replacement; where occurrences overlap, the pattern that stands earlier
/// in `pats` wins. An empty pattern occurs nowhere.
///
/// The result is stated twice: over the characters, and over the bytes of
/// the UTF-8 encoding, in which the offsets of the occurrences count.
pub fn multi_replace(s: &str, pats: &[(&str, &str)]) -> (result: String)
    ensures
        result@ == replaced(s@, pattern_chars(pats@)),
        encode_utf8(result@) == replaced(s.spec_bytes(), pattern_bytes(pats@)),
        (forall|k: int| 0 <= k < pats@.len() ==> !occurs_in(s@, (#[trigger] pats@[k]).0@))
            ==> result@ == s@,
{
    let kept = resolve(s, pats);
    let result = render(s, kept.as_slice());
    proof {
        let list = pattern_chars(pats@);
        assert(pattern_bytes(pats@) =~= encoded_list(list));
        lemma_replaced_encoded(s@, list);
        lemma_encode_injective(result@, replaced(s@, list));
        if forall|k: int| 0 <= k < pats@.len() ==> !occurs_in(s@, (#[trigger] pats@[k]).0@) {
            lemma_no_occurrence(s@, list);
        }
    }
    result
}

/// With an empty list the text stays as it is.
pub proof fn lemma_no_patterns<T>(text: Seq<T>)
    ensures
        replaced(text, Seq::<(Seq<T>, Seq<T>)>::empty()) == text,
{
    lemma_rendered_unchanged(text, Map::<int, Splice<T>>::empty(), 0);
}

/// Where no pattern of the list occurs in the text, nothing is kept and the
/// text stays as it is.
pub proof fn lemma_no_occurrence<T>(text: Seq<T>, patterns: Seq<(Seq<T>, Seq<T>)>)
    requires
        forall|k: int| 0 <= k < patterns.len() ==> !occurs_in(text, (#[trigger] patterns[k]).0),
    ensures
        resolved(text, patterns) == Map::<int, Splice<T>>::empty(),
        replaced(text, patterns) == text,
{
    let kept = resolved(text, patterns);
    lemma_resolved_disjoint(text, patterns);
    assert(kept =~= Map::<int, Splice<T>>::empty());
    lemma_no_patterns(text);
}

/// Where every pattern of the list is replaced by itself, the text stays as
/// it is.
pub proof fn lemma_replaced_by_itself<T>(text: Seq<T>, patterns: Seq<(Seq<T>, Seq<T>)>)
    requires
        forall|k: int| 0 <= k < patterns.len() ==> (#[trigger] patterns[k]).1 == patterns[k].0,
    ensures
        replaced(text, patterns) == text,
{
    let kept = resolved(text, patterns);
    lemma_resolved_disjoint(text, patterns);
    lemma_rendered_unchanged(text, kept, 0);
}

} // verus!
