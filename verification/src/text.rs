//! Byte offsets into the UTF-8 encoding of a line, and the text between them.

use vstd::prelude::*;
use vstd::utf8::*;
use vstd::string::*;

verus! {

/// The byte that separates the fields of a line.
pub const SPACE: u8 = 0x20;

/// True when `[from, to)` is a range of whole characters of the UTF-8 text `bytes`.
pub open spec fn is_span(bytes: Seq<u8>, from: int, to: int) -> bool {
    &&& 0 <= from <= to <= bytes.len()
    &&& is_char_boundary(bytes, from)
    &&& is_char_boundary(bytes, to)
}

/// The characters that the bytes `[from, to)` of `bytes` encode.
pub open spec fn span_text(bytes: Seq<u8>, from: int, to: int) -> Seq<char> {
    decode_utf8(bytes.subrange(from, to))
}

/// A character boundary of a text lies within the text.
pub proof fn lemma_boundary_in_range(bytes: Seq<u8>, i: int)
    requires
        valid_utf8(bytes),
        is_char_boundary(bytes, i),
    ensures
        0 <= i <= bytes.len(),
{
}

/// A character boundary of a text is also one of each prefix that reaches it.
pub proof fn lemma_boundary_in_prefix(bytes: Seq<u8>, from: int, to: int)
    requires
        valid_utf8(bytes),
        is_span(bytes, from, to),
    ensures
        valid_utf8(bytes.subrange(0, to)),
        is_char_boundary(bytes.subrange(0, to), from),
{
    let head = bytes.subrange(0, to);
    valid_utf8_split(bytes, to);
    if from == to {
        is_char_boundary_start_end_of_seq(head);
    } else {
        is_char_boundary_iff_not_is_continuation_byte(bytes, from);
        is_char_boundary_iff_not_is_continuation_byte(head, from);
    }
}

/// An ASCII byte is a character of its own: a character starts at it, and the
/// next one right after it.
pub proof fn lemma_ascii_byte_is_char(bytes: Seq<u8>, i: int)
    requires
        valid_utf8(bytes),
        0 <= i < bytes.len(),
        bytes[i] < 0x80,
    ensures
        is_char_boundary(bytes, i),
        is_char_boundary(bytes, i + 1),
{
    is_char_boundary_iff_not_is_continuation_byte(bytes, i);
    valid_utf8_split(bytes, i);
    let tail = bytes.subrange(i, bytes.len() as int);
    assert(tail[0] == bytes[i]);
    let rest = pop_first_scalar(tail);
    assert(valid_utf8(rest));
    assert(rest =~= bytes.subrange(i + 1, bytes.len() as int));
    if i + 1 == bytes.len() {
        is_char_boundary_start_end_of_seq(bytes);
    } else {
        assert(rest[0] == bytes[i + 1]);
        assert(valid_first_scalar(rest));
        is_char_boundary_iff_not_is_continuation_byte(bytes, i + 1);
    }
}

/// The texts of two ranges of a line that follow one another make the text
/// of the two ranges taken as one.
pub proof fn lemma_span_text_joins(bytes: Seq<u8>, from: int, mid: int, to: int)
    requires
        valid_utf8(bytes),
        is_span(bytes, from, mid),
        is_span(bytes, mid, to),
    ensures
        span_text(bytes, from, mid) + span_text(bytes, mid, to) == span_text(bytes, from, to),
{
    let whole = bytes.subrange(from, to);
    valid_utf8_split(bytes, from);
    let tail = bytes.subrange(from, bytes.len() as int);
    assert(whole =~= tail.subrange(0, to - from));
    if to < bytes.len() {
        is_char_boundary_iff_not_is_continuation_byte(bytes, to);
        is_char_boundary_iff_not_is_continuation_byte(tail, to - from);
    } else {
        is_char_boundary_start_end_of_seq(tail);
    }
    valid_utf8_split(tail, to - from);
    if mid < to {
        is_char_boundary_iff_not_is_continuation_byte(bytes, mid);
        is_char_boundary_iff_not_is_continuation_byte(whole, mid - from);
    } else {
        is_char_boundary_start_end_of_seq(whole);
    }
    decode_utf8_split(whole, mid - from);
    assert(whole.subrange(0, mid - from) =~= bytes.subrange(from, mid));
    assert(whole.subrange(mid - from, whole.len() as int) =~= bytes.subrange(mid, to));
}

/// The encoding of two texts, one after the other, is the encoding of the
/// one and then the encoding of the other.
pub proof fn lemma_encode_joins(first: Seq<char>, second: Seq<char>)
    ensures
        encode_utf8(first + second) == encode_utf8(first) + encode_utf8(second),
    decreases first.len(),
{
    if first.len() == 0 {
        assert(first + second =~= second);
        assert(encode_utf8(first) + encode_utf8(second) =~= encode_utf8(second));
    } else {
        assert((first + second)[0] == first[0]);
        assert((first + second).drop_first() =~= first.drop_first() + second);
        lemma_encode_joins(first.drop_first(), second);
        assert(encode_scalar(first[0] as u32) + (encode_utf8(first.drop_first()) + encode_utf8(
            second,
        )) =~= (encode_scalar(first[0] as u32) + encode_utf8(first.drop_first())) + encode_utf8(
            second,
        ));
    }
}

/// A text has no more characters than bytes.
pub proof fn lemma_decode_len(bytes: Seq<u8>)
    requires
        valid_utf8(bytes),
    ensures
        decode_utf8(bytes).len() <= bytes.len(),
    decreases bytes.len(),
{
    if bytes.len() > 0 {
        lemma_decode_len(pop_first_scalar(bytes));
    }
}

/// The text of a single space is a single space.
pub proof fn lemma_space_text(bytes: Seq<u8>, i: int)
    requires
        valid_utf8(bytes),
        0 <= i < bytes.len(),
        bytes[i] == SPACE,
    ensures
        span_text(bytes, i, i + 1) == seq![' '],
{
    let one = bytes.subrange(i, i + 1);
    assert(one[0] == SPACE);
    assert(0x20u8 & 0x7f == 0x20u8) by (bit_vector);
    assert(valid_first_scalar(one));
    assert(pop_first_scalar(one) =~= Seq::<u8>::empty());
    assert(valid_utf8(pop_first_scalar(one)));
    assert(valid_utf8(one));
    assert(decode_utf8(pop_first_scalar(one)) =~= Seq::<char>::empty());
    assert(decode_utf8(one) =~= seq![' ']);
}

/// The part of `line` between the byte offsets `from` and `to`.
pub(crate) fn slice<'a>(line: &'a str, from: usize, to: usize) -> (part: &'a str)
    requires
        is_span(line.spec_bytes(), from as int, to as int),
    ensures
        part.spec_bytes() == line.spec_bytes().subrange(from as int, to as int),
        part@ == span_text(line.spec_bytes(), from as int, to as int),
{
    proof {
        encode_utf8_valid_utf8(line@);
        lemma_boundary_in_prefix(line.spec_bytes(), from as int, to as int);
    }
    let (head, _) = line.split_at(to);
    let (_, part) = head.split_at(from);
    proof {
        assert(part.spec_bytes() =~= line.spec_bytes().subrange(from as int, to as int));
        encode_utf8_decode_utf8(part@);
    }
    part
}

} // verus!
