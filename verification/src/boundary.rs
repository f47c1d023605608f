//! Character boundaries of UTF-8 text: where a pattern occurs, a character
//! begins, and where the occurrence ends, a character ends.

use crate::matching::occurs_at;
use vstd::prelude::*;
use vstd::string::*;
use vstd::utf8::*;

verus! {

/// The encoding of two texts put together is their encodings put together.
pub proof fn lemma_encode_concat(left: Seq<char>, right: Seq<char>)
    ensures
        encode_utf8(left + right) == encode_utf8(left) + encode_utf8(right),
    decreases left.len(),
{
    if left.len() > 0 {
        lemma_encode_concat(left.drop_first(), right);
        assert((left + right).drop_first() =~= left.drop_first() + right);
    }
}

/// Texts with the same encoding are the same text.
pub proof fn lemma_encode_injective(left: Seq<char>, right: Seq<char>)
    requires
        encode_utf8(left) == encode_utf8(right),
    ensures
        left == right,
{
    encode_utf8_decode_utf8(left);
    encode_utf8_decode_utf8(right);
}

/// Where well-formed bytes begin with well-formed bytes, these end on a
/// character boundary.
pub proof fn lemma_prefix_ends_on_boundary(bytes: Seq<u8>, width: int)
    requires
        valid_utf8(bytes),
        0 <= width <= bytes.len(),
        valid_utf8(bytes.subrange(0, width)),
    ensures
        is_char_boundary(bytes, width),
    decreases width,
{
    if width > 0 {
        let prefix = bytes.subrange(0, width);
        let first = length_of_first_scalar(bytes);
        assert(pop_first_scalar(bytes).subrange(0, width - first) =~= pop_first_scalar(prefix));
        lemma_prefix_ends_on_boundary(pop_first_scalar(bytes), width - first);
    }
}

/// A piece of well-formed bytes cut at two character boundaries is well
/// formed, and a boundary of the whole that lies in it is a boundary of the
/// piece.
pub proof fn lemma_boundary_in_piece(bytes: Seq<u8>, from: int, to: int, at: int)
    requires
        valid_utf8(bytes),
        0 <= from <= at <= to <= bytes.len(),
        is_char_boundary(bytes, from),
        is_char_boundary(bytes, to),
        is_char_boundary(bytes, at),
    ensures
        valid_utf8(bytes.subrange(from, to)),
        is_char_boundary(bytes.subrange(from, to), at - from),
{
    let head = bytes.subrange(0, to);
    valid_utf8_split(bytes, to);
    if from < to {
        is_char_boundary_iff_not_is_continuation_byte(bytes, from);
        is_char_boundary_iff_not_is_continuation_byte(head, from);
    } else {
        is_char_boundary_start_end_of_seq(head);
    }
    valid_utf8_split(head, from);
    let piece = bytes.subrange(from, to);
    assert(head.subrange(from, head.len() as int) =~= piece);
    if at < to {
        is_char_boundary_iff_not_is_continuation_byte(bytes, at);
        is_char_boundary_iff_not_is_continuation_byte(piece, at - from);
    } else {
        is_char_boundary_start_end_of_seq(piece);
    }
}

/// An occurrence of well-formed bytes in well-formed bytes begins and ends on
/// a character boundary.
pub proof fn lemma_occurrence_on_boundaries(text: Seq<u8>, pattern: Seq<u8>, at: int)
    requires
        valid_utf8(text),
        valid_utf8(pattern),
        occurs_at(text, pattern, at),
    ensures
        is_char_boundary(text, at),
        is_char_boundary(text, at + pattern.len()),
{
    let width = pattern.len() as int;
    is_char_boundary_iff_not_is_continuation_byte(text, at);
    valid_utf8_split(text, at);
    let tail = text.subrange(at, text.len() as int);
    assert(tail.subrange(0, width) =~= pattern);
    lemma_prefix_ends_on_boundary(tail, width);
    if at + width == text.len() {
        is_char_boundary_start_end_of_seq(text);
    } else {
        is_char_boundary_iff_not_is_continuation_byte(tail, width);
        is_char_boundary_iff_not_is_continuation_byte(text, at + width);
    }
}

/// The piece of `source` between two byte offsets that are character
/// boundaries.
pub fn piece<'a>(source: &'a str, from: usize, to: usize) -> (cut: &'a str)
    requires
        from <= to <= source.spec_bytes().len(),
        is_char_boundary(source.spec_bytes(), from as int),
        is_char_boundary(source.spec_bytes(), to as int),
    ensures
        cut.spec_bytes() == source.spec_bytes().subrange(from as int, to as int),
{
    let ghost bytes = source.spec_bytes();
    proof {
        encode_utf8_valid_utf8(source@);
        lemma_boundary_in_piece(bytes, 0, to as int, from as int);
    }
    let (head, _) = source.split_at(to);
    let (_, cut) = head.split_at(from);
    cut
}

} // verus!
