//! Swapping two patterns for each other in one pass.

use crate::matching::occurrences;
use crate::priority::lemma_first_pattern_kept;
use crate::replace::{lemma_replaced_by_itself, multi_replace, pattern_chars, replaced};
use crate::resolve::{pattern_bytes, resolved, Splice};
use crate::undo::{lemma_replaced_back, takes_back};
use vstd::prelude::*;
use vstd::string::*;
use vstd::utf8::*;

verus! {

/// The list that swaps `a` and `b`, with `a` searched first or `b`.
pub open spec fn swap_list<T>(a: Seq<T>, b: Seq<T>, a_first: bool) -> Seq<(Seq<T>, Seq<T>)> {
    if a_first {
        seq![(a, b), (b, a)]
    } else {
        seq![(b, a), (a, b)]
    }
}

/// The list that swaps `a` and `b`: the longer of the two is searched first,
/// and `b` where neither is longer.
pub open spec fn exchange_list<T>(a: Seq<T>, b: Seq<T>) -> Seq<(Seq<T>, Seq<T>)> {
    swap_list(a, b, a.len() > b.len())
}

/// The text with `a` and `b` swapped for each other.
pub open spec fn exchanged<T>(text: Seq<T>, a: Seq<T>, b: Seq<T>) -> Seq<T> {
    replaced(text, exchange_list(a, b))
}

/// Replaces every `a` in `s` by `b` and every `b` by `a`, in one pass. The
/// one that is longer in bytes is searched first, so that where one pattern
/// lies inside the other the longer one is swapped as a whole; where neither
/// is longer, `b` is searched first. An empty pattern occurs nowhere.
pub fn exchange(s: &str, a: &str, b: &str) -> (result: String)
    ensures
        result@ == replaced(s@, swap_list(a@, b@, a.spec_bytes().len() > b.spec_bytes().len())),
        encode_utf8(result@) == exchanged(s.spec_bytes(), a.spec_bytes(), b.spec_bytes()),
        a@ == b@ ==> result@ == s@,
{
    let a_first = a.as_bytes().len() > b.as_bytes().len();
    let list: [(&str, &str); 2] = if a_first {
        [(a, b), (b, a)]
    } else {
        [(b, a), (a, b)]
    };
    proof {
        assert(pattern_bytes(list@) =~= exchange_list(a.spec_bytes(), b.spec_bytes()));
        assert(pattern_chars(list@) =~= swap_list(a@, b@, a_first));
        if a@ == b@ {
            lemma_replaced_by_itself(s@, swap_list(a@, b@, a_first));
        }
    }
    multi_replace(s, list.as_slice())
}

/// Swapping a pattern with itself leaves the text as it is.
pub proof fn lemma_exchange_same<T>(text: Seq<T>, a: Seq<T>)
    ensures
        exchanged(text, a, a) == text,
{
    lemma_replaced_by_itself(text, exchange_list(a, a));
}

/// Every disjoint occurrence of the longer of the two patterns is kept and
/// gives way to the shorter one as a whole, also where the shorter one
/// occurs inside it.
pub proof fn lemma_exchange_longer_kept<T>(text: Seq<T>, a: Seq<T>, b: Seq<T>, j: int)
    requires
        a.len() > b.len(),
        0 <= j < occurrences(text, a).len(),
    ensures
        exchange_list(a, b) == exchange_list(b, a),
        resolved(text, exchange_list(a, b)).contains_key(occurrences(text, a)[j]),
        resolved(text, exchange_list(a, b))[occurrences(text, a)[j]] == (Splice {
            len: a.len() as int,
            replacement: b,
        }),
{
    lemma_first_pattern_kept(text, exchange_list(a, b), j);
}

/// Swapping twice gives the text back where the second swap finds the two
/// patterns just where the first one put them: the occurrences it keeps are
/// the replacements of the first swap.
pub proof fn lemma_exchange_twice<T>(text: Seq<T>, a: Seq<T>, b: Seq<T>)
    requires
        takes_back(
            resolved(exchanged(text, a, b), exchange_list(a, b)),
            resolved(text, exchange_list(a, b)),
            text,
        ),
    ensures
        exchanged(exchanged(text, a, b), a, b) == text,
{
    lemma_replaced_back(text, exchange_list(a, b), exchange_list(a, b));
}

} // verus!
