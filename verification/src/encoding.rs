//! Characters and bytes: replacing in the UTF-8 encoding of a text gives the
//! encoding of what replacing in the text itself gives.

use crate::boundary::{
    lemma_encode_concat, lemma_encode_injective, lemma_occurrence_on_boundaries,
};
use crate::matching::{
    lemma_occurrences_from, lemma_occurrences_skip, occurrences, occurrences_from, occurs_at,
};
use crate::render::{lemma_rendered_gap, rendered_from};
use crate::replace::replaced;
use crate::resolve::{clashes, keep, keep_each, overlaps, resolved, splice_of, Kept, Splice};
use vstd::prelude::*;
use vstd::utf8::*;

verus! {

/// The byte offset at which the character with index `index` begins in the
/// encoding of `text`; for the length of the text, the length of the
/// encoding.
pub open spec fn byte_offset(text: Seq<char>, index: int) -> int {
    encode_utf8(text.take(index)).len() as int
}

/// An encoding has at least one byte for each character.
pub proof fn lemma_encode_len(text: Seq<char>)
    ensures
        encode_utf8(text).len() >= text.len(),
    decreases text.len(),
{
    if text.len() > 0 {
        lemma_encode_len(text.drop_first());
    }
}

/// The encoding of a piece of the text is the piece of the encoding between
/// the byte offsets of its ends.
pub proof fn lemma_byte_offset_piece(text: Seq<char>, from: int, to: int)
    requires
        0 <= from <= to <= text.len(),
    ensures
        0 <= byte_offset(text, from) <= byte_offset(text, to) <= encode_utf8(text).len(),
        byte_offset(text, to) == byte_offset(text, from) + encode_utf8(
            text.subrange(from, to),
        ).len(),
        encode_utf8(text).subrange(byte_offset(text, from), byte_offset(text, to)) == encode_utf8(
            text.subrange(from, to),
        ),
        byte_offset(text, 0) == 0,
        byte_offset(text, text.len() as int) == encode_utf8(text).len(),
{
    let head = text.take(from);
    let middle = text.subrange(from, to);
    let tail = text.skip(to);
    lemma_encode_concat(head, middle);
    lemma_encode_concat(head + middle, tail);
    assert(head + middle =~= text.take(to));
    assert(head + middle + tail =~= text);
    assert(text.take(text.len() as int) =~= text);
}

/// Byte offsets come in the order of the characters.
pub proof fn lemma_byte_offset_order(text: Seq<char>, one: int, other: int)
    requires
        0 <= one <= text.len(),
        0 <= other <= text.len(),
    ensures
        one < other <==> byte_offset(text, one) < byte_offset(text, other),
        one == other <==> byte_offset(text, one) == byte_offset(text, other),
{
    if one < other {
        lemma_byte_offset_piece(text, one, other);
    } else if other < one {
        lemma_byte_offset_piece(text, other, one);
    }
}

/// Every character boundary of the encoding is the byte offset of a
/// character, or the end.
pub proof fn lemma_boundary_is_byte_offset(text: Seq<char>, at: int) -> (index: int)
    requires
        0 <= at <= encode_utf8(text).len(),
        is_char_boundary(encode_utf8(text), at),
    ensures
        0 <= index <= text.len(),
        byte_offset(text, index) == at,
{
    let bytes = encode_utf8(text);
    let head = bytes.subrange(0, at);
    encode_utf8_valid_utf8(text);
    valid_utf8_split(bytes, at);
    decode_utf8_split(bytes, at);
    encode_utf8_decode_utf8(text);
    decode_utf8_encode_utf8(head);
    let index = decode_utf8(head).len() as int;
    assert(text.take(index) =~= decode_utf8(head));
    index
}

/// Where a pattern occurs in the text, its encoding occurs in the encoding
/// of the text, at the byte offset of the occurrence.
pub proof fn lemma_occurs_encoded(text: Seq<char>, pattern: Seq<char>, index: int)
    requires
        occurs_at(text, pattern, index),
    ensures
        occurs_at(encode_utf8(text), encode_utf8(pattern), byte_offset(text, index)),
        byte_offset(text, index + pattern.len()) == byte_offset(text, index) + encode_utf8(
            pattern,
        ).len(),
{
    lemma_byte_offset_piece(text, index, index + pattern.len());
}

/// Where the encoding of a pattern occurs in the encoding of the text, a
/// character begins, and the pattern occurs in the text at that character.
pub proof fn lemma_occurs_decoded(text: Seq<char>, pattern: Seq<char>, at: int) -> (index: int)
    requires
        occurs_at(encode_utf8(text), encode_utf8(pattern), at),
    ensures
        0 <= index <= text.len(),
        byte_offset(text, index) == at,
        occurs_at(text, pattern, index),
{
    let bytes = encode_utf8(text);
    let width = encode_utf8(pattern).len() as int;
    encode_utf8_valid_utf8(text);
    encode_utf8_valid_utf8(pattern);
    lemma_occurrence_on_boundaries(bytes, encode_utf8(pattern), at);
    let index = lemma_boundary_is_byte_offset(text, at);
    let behind = lemma_boundary_is_byte_offset(text, at + width);
    lemma_byte_offset_order(text, index, behind);
    lemma_byte_offset_piece(text, index, behind);
    lemma_encode_injective(text.subrange(index, behind), pattern);
    index
}

/// Byte offsets of character indices.
pub open spec fn byte_offsets(text: Seq<char>, indices: Seq<int>) -> Seq<int> {
    indices.map_values(|index: int| byte_offset(text, index))
}

/// A scan of the encoding for the encoding of a pattern picks the byte
/// offsets of what a scan of the text for the pattern picks.
pub proof fn lemma_occurrences_encoded(text: Seq<char>, pattern: Seq<char>, from: int)
    requires
        0 <= from <= text.len(),
    ensures
        occurrences_from(encode_utf8(text), encode_utf8(pattern), byte_offset(text, from))
            == byte_offsets(text, occurrences_from(text, pattern, from)),
    decreases text.len() - from,
{
    let bytes = encode_utf8(text);
    let needle = encode_utf8(pattern);
    lemma_byte_offset_piece(text, from, text.len() as int);
    if pattern.len() == 0 || from == text.len() {
    } else if occurs_at(text, pattern, from) {
        let behind = from + pattern.len();
        lemma_occurs_encoded(text, pattern, from);
        lemma_occurrences_encoded(text, pattern, behind);
    } else {
        lemma_byte_offset_piece(text, from, from + 1);
        assert forall|at: int|
            byte_offset(text, from) <= at < byte_offset(text, from + 1) implies !occurs_at(
            bytes,
            needle,
            at,
        ) by {
            if occurs_at(bytes, needle, at) {
                let index = lemma_occurs_decoded(text, pattern, at);
                lemma_byte_offset_order(text, from, index);
                lemma_byte_offset_order(text, index, from + 1);
            }
        }
        lemma_occurrences_skip(
            bytes,
            needle,
            byte_offset(text, from),
            byte_offset(text, from + 1),
        );
        lemma_occurrences_encoded(text, pattern, from + 1);
    }
}

/// A pattern list of texts, encoded.
pub open spec fn encoded_list(patterns: Seq<(Seq<char>, Seq<char>)>) -> Seq<(Seq<u8>, Seq<u8>)> {
    patterns.map_values(|pair: (Seq<char>, Seq<char>)| (encode_utf8(pair.0), encode_utf8(pair.1)))
}

/// What a splice at the character `index` of the text is in the encoding.
pub open spec fn encoded_splice(text: Seq<char>, index: int, splice: Splice<char>) -> Splice<u8> {
    Splice {
        len: byte_offset(text, index + splice.len) - byte_offset(text, index),
        replacement: encode_utf8(splice.replacement),
    }
}

/// The occurrences kept in the encoding are those kept in the text, each at
/// its byte offset: every span of `chars` lies in the text and has its
/// encoded splice in `bytes`, and `bytes` holds nothing else.
pub open spec fn mirrors(bytes: Kept<u8>, chars: Kept<char>, text: Seq<char>) -> bool {
    &&& forall|index: int| #[trigger]
        chars.contains_key(index) ==> {
            &&& 0 <= index
            &&& 0 < chars[index].len <= text.len() - index
            &&& bytes.contains_key(byte_offset(text, index))
            &&& bytes[byte_offset(text, index)] == encoded_splice(text, index, chars[index])
        }
    &&& forall|at: int| #[trigger]
        bytes.contains_key(at) ==> exists|index: int| #[trigger]
            chars.contains_key(index) && byte_offset(text, index) == at
}

/// Two spans of the text overlap where their spans in the encoding do.
proof fn lemma_overlaps_encoded(text: Seq<char>, one: int, one_len: int, other: int, other_len: int)
    requires
        0 <= one,
        0 <= other,
        0 <= one_len <= text.len() - one,
        0 <= other_len <= text.len() - other,
    ensures
        overlaps(one, one_len, other, other_len) <==> overlaps(
            byte_offset(text, one),
            byte_offset(text, one + one_len) - byte_offset(text, one),
            byte_offset(text, other),
            byte_offset(text, other + other_len) - byte_offset(text, other),
        ),
{
    lemma_byte_offset_order(text, one, other + other_len);
    lemma_byte_offset_order(text, other, one + one_len);
}

/// A candidate that is let in, or not, in the text is let in, or not, in the
/// encoding.
proof fn lemma_keep_encoded(
    bytes: Kept<u8>,
    chars: Kept<char>,
    text: Seq<char>,
    index: int,
    splice: Splice<char>,
)
    requires
        mirrors(bytes, chars, text),
        0 <= index,
        0 < splice.len <= text.len() - index,
    ensures
        mirrors(
            keep(bytes, byte_offset(text, index), encoded_splice(text, index, splice)),
            keep(chars, index, splice),
            text,
        ),
{
    let at = byte_offset(text, index);
    let wide = encoded_splice(text, index, splice);
    if clashes(chars, index, splice.len) {
        let hit = choose|hit: int| #[trigger]
            chars.contains_key(hit) && overlaps(hit, chars[hit].len, index, splice.len);
        lemma_overlaps_encoded(text, hit, chars[hit].len, index, splice.len);
    }
    if clashes(bytes, at, wide.len) {
        let hit_at = choose|hit_at: int| #[trigger]
            bytes.contains_key(hit_at) && overlaps(hit_at, bytes[hit_at].len, at, wide.len);
        let hit = choose|hit: int| #[trigger]
            chars.contains_key(hit) && byte_offset(text, hit) == hit_at;
        lemma_overlaps_encoded(text, hit, chars[hit].len, index, splice.len);
    }
    if !clashes(chars, index, splice.len) {
        let grown = chars.insert(index, splice);
        let grown_bytes = bytes.insert(at, wide);
        assert forall|other: int| #[trigger] grown.contains_key(other) implies {
            &&& grown_bytes.contains_key(byte_offset(text, other))
            &&& grown_bytes[byte_offset(text, other)] == encoded_splice(text, other, grown[other])
        } by {
            if other != index {
                lemma_byte_offset_order(text, other, index);
            }
        }
        assert forall|other_at: int| #[trigger] grown_bytes.contains_key(other_at) implies exists|
            other: int,
        | #[trigger] grown.contains_key(other) && byte_offset(text, other) == other_at by {
            if other_at == at {
                assert(grown.contains_key(index));
            } else {
                let other = choose|other: int| #[trigger]
                    chars.contains_key(other) && byte_offset(text, other) == other_at;
                assert(grown.contains_key(other));
            }
        }
    }
}

/// The occurrences of one pattern, asked one after the other, are let in, or
/// not, in the encoding as they are in the text.
proof fn lemma_keep_each_encoded(
    bytes: Kept<u8>,
    chars: Kept<char>,
    text: Seq<char>,
    pair: (Seq<char>, Seq<char>),
    starts: Seq<int>,
)
    requires
        mirrors(bytes, chars, text),
        forall|j: int| 0 <= j < starts.len() ==> occurs_at(text, pair.0, #[trigger] starts[j]),
    ensures
        mirrors(
            keep_each(
                bytes,
                byte_offsets(text, starts),
                splice_of((encode_utf8(pair.0), encode_utf8(pair.1))),
            ),
            keep_each(chars, starts, splice_of(pair)),
            text,
        ),
    decreases starts.len(),
{
    if starts.len() > 0 {
        let last = starts.last();
        let wide = splice_of((encode_utf8(pair.0), encode_utf8(pair.1)));
        lemma_keep_each_encoded(bytes, chars, text, pair, starts.drop_last());
        assert(byte_offsets(text, starts).drop_last() =~= byte_offsets(text, starts.drop_last()));
        lemma_occurs_encoded(text, pair.0, last);
        lemma_keep_encoded(
            keep_each(bytes, byte_offsets(text, starts.drop_last()), wide),
            keep_each(chars, starts.drop_last(), splice_of(pair)),
            text,
            last,
            splice_of(pair),
        );
    }
}

/// The occurrences kept in the encoding of the text for the encoded list are
/// those kept in the text for the list, each at its byte offset.
pub proof fn lemma_resolved_encoded(text: Seq<char>, patterns: Seq<(Seq<char>, Seq<char>)>)
    ensures
        mirrors(
            resolved(encode_utf8(text), encoded_list(patterns)),
            resolved(text, patterns),
            text,
        ),
    decreases patterns.len(),
{
    if patterns.len() > 0 {
        let pair = patterns.last();
        lemma_resolved_encoded(text, patterns.drop_last());
        assert(encoded_list(patterns).drop_last() =~= encoded_list(patterns.drop_last()));
        lemma_occurrences_from(text, pair.0, 0);
        lemma_occurrences_encoded(text, pair.0, 0);
        lemma_keep_each_encoded(
            resolved(encode_utf8(text), encoded_list(patterns.drop_last())),
            resolved(text, patterns.drop_last()),
            text,
            pair,
            occurrences(text, pair.0),
        );
    }
}

/// Reading the encoding with the occurrences kept in it gives the encoding
/// of what reading the text gives.
pub proof fn lemma_rendered_encoded(
    bytes: Kept<u8>,
    chars: Kept<char>,
    text: Seq<char>,
    cursor: int,
)
    requires
        mirrors(bytes, chars, text),
        0 <= cursor <= text.len(),
    ensures
        rendered_from(encode_utf8(text), bytes, byte_offset(text, cursor)) == encode_utf8(
            rendered_from(text, chars, cursor),
        ),
    decreases text.len() - cursor,
{
    let encoding = encode_utf8(text);
    let at = byte_offset(text, cursor);
    lemma_byte_offset_piece(text, cursor, text.len() as int);
    if cursor == text.len() {
    } else if chars.contains_key(cursor) {
        let behind = cursor + chars[cursor].len;
        lemma_byte_offset_order(text, cursor, behind);
        lemma_byte_offset_piece(text, behind, text.len() as int);
        lemma_rendered_encoded(bytes, chars, text, behind);
        lemma_encode_concat(chars[cursor].replacement, rendered_from(text, chars, behind));
    } else {
        let next = byte_offset(text, cursor + 1);
        lemma_byte_offset_piece(text, cursor, cursor + 1);
        assert forall|other_at: int| at <= other_at < next implies !bytes.contains_key(
            other_at,
        ) by {
            if bytes.contains_key(other_at) {
                let other = choose|other: int| #[trigger]
                    chars.contains_key(other) && byte_offset(text, other) == other_at;
                lemma_byte_offset_order(text, cursor, other);
                lemma_byte_offset_order(text, other, cursor + 1);
            }
        }
        lemma_rendered_gap(encoding, bytes, at, next);
        lemma_rendered_encoded(bytes, chars, text, cursor + 1);
        assert(text.subrange(cursor, cursor + 1) =~= seq![text[cursor]]);
        lemma_encode_concat(seq![text[cursor]], rendered_from(text, chars, cursor + 1));
    }
}

/// Replacing the encoded patterns in the encoding of a text gives the
/// encoding of the text with the patterns replaced: the bytes that come out
/// are well-formed UTF-8, whatever the characters of text and patterns.
pub proof fn lemma_replaced_encoded(text: Seq<char>, patterns: Seq<(Seq<char>, Seq<char>)>)
    ensures
        replaced(encode_utf8(text), encoded_list(patterns)) == encode_utf8(
            replaced(text, patterns),
        ),
        valid_utf8(replaced(encode_utf8(text), encoded_list(patterns))),
{
    lemma_resolved_encoded(text, patterns);
    lemma_rendered_encoded(
        resolved(encode_utf8(text), encoded_list(patterns)),
        resolved(text, patterns),
        text,
        0,
    );
    encode_utf8_valid_utf8(replaced(text, patterns));
}

} // verus!
