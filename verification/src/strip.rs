//! Taking the colour out of a line again: what a terminal shows of a line in
//! colour is the line.

use vstd::prelude::*;
use vstd::utf8::*;
use crate::colorize::{colorized, grey_code, lemma_plain_text_is_line, reset_code};
use crate::format::LineFormat;
use crate::level::LogType;
use crate::text::span_text;

verus! {

/// The character that every escape sequence starts with.
pub const ESCAPE: char = '\x1b';

/// True for the ten decimal digits.
pub open spec fn is_digit(c: char) -> bool {
    '0' <= c <= '9'
}

/// The number of digits that `text` holds in a row from `from` on.
pub open spec fn digits_len(text: Seq<char>, from: int) -> int
    decreases text.len() - from,
{
    if 0 <= from < text.len() && is_digit(text[from]) {
        1 + digits_len(text, from + 1)
    } else {
        0
    }
}

/// The length of the colour code that `text` starts with, or 0 where it
/// starts with none. A colour code is the escape character, `[`, digits in
/// any number, and `m`.
pub open spec fn code_len(text: Seq<char>) -> int {
    if text.len() >= 2 && text[0] == ESCAPE && text[1] == '[' {
        let end = 2 + digits_len(text, 2);
        if end < text.len() && text[end] == 'm' {
            end + 1
        } else {
            0
        }
    } else {
        0
    }
}

/// `text` without its colour codes, read from left to right.
pub open spec fn strip_codes(text: Seq<char>) -> Seq<char>
    decreases text.len(),
{
    if text.len() == 0 {
        text
    } else if 0 < code_len(text) <= text.len() {
        strip_codes(text.skip(code_len(text)))
    } else {
        seq![text[0]] + strip_codes(text.drop_first())
    }
}

/// True when `code` is one colour code and nothing else.
pub open spec fn is_code(code: Seq<char>) -> bool {
    &&& code.len() >= 3
    &&& code[0] == ESCAPE
    &&& code[1] == '['
    &&& forall|i: int| 2 <= i < code.len() - 1 ==> is_digit(#[trigger] code[i])
    &&& code.last() == 'm'
}

/// A row of digits has the length that it has.
pub proof fn lemma_digits_len(text: Seq<char>, from: int, to: int)
    requires
        0 <= from <= to <= text.len(),
        forall|i: int| from <= i < to ==> is_digit(#[trigger] text[i]),
        to < text.len() ==> !is_digit(text[to]),
    ensures
        digits_len(text, from) == to - from,
    decreases to - from,
{
    if from < to {
        lemma_digits_len(text, from + 1, to);
    }
}

/// A row of digits ends within the text.
pub proof fn lemma_digits_len_bound(text: Seq<char>, from: int)
    requires
        0 <= from <= text.len(),
    ensures
        0 <= digits_len(text, from) <= text.len() - from,
        forall|i: int| from <= i < from + digits_len(text, from) ==> is_digit(#[trigger] text[i]),
        from + digits_len(text, from) < text.len() ==> !is_digit(
            text[from + digits_len(text, from)],
        ),
    decreases text.len() - from,
{
    if from < text.len() && is_digit(text[from]) {
        lemma_digits_len_bound(text, from + 1);
    }
}

/// A colour code in front of a text is stripped, and nothing of the text
/// with it.
pub proof fn lemma_code_is_stripped(code: Seq<char>, rest: Seq<char>)
    requires
        is_code(code),
    ensures
        strip_codes(code + rest) == strip_codes(rest),
{
    let text = code + rest;
    let end = code.len() - 1;
    assert(text[0] == code[0] && text[1] == code[1] && text[end] == code[end]);
    assert forall|i: int| 2 <= i < end implies is_digit(#[trigger] text[i]) by {
        assert(text[i] == code[i]);
    }
    lemma_digits_len(text, 2, end);
    assert(code_len(text) == code.len());
    assert(text.skip(code.len() as int) =~= rest);
}

/// What a text starts with is seen from the text alone where what follows
/// it starts with the escape character.
pub proof fn lemma_code_len_extends(text: Seq<char>, next: Seq<char>)
    requires
        text.len() > 0,
        next.len() == 0 || next[0] == ESCAPE,
    ensures
        code_len(text + next) == code_len(text),
{
    let joined = text + next;
    if text.len() >= 2 && text[0] == ESCAPE && text[1] == '[' {
        assert(joined[0] == text[0] && joined[1] == text[1]);
        lemma_digits_len_bound(text, 2);
        let end = 2 + digits_len(text, 2);
        assert forall|i: int| 2 <= i < end implies is_digit(#[trigger] joined[i]) by {
            assert(joined[i] == text[i]);
        }
        if end < text.len() {
            assert(joined[end] == text[end]);
        } else if next.len() > 0 {
            assert(joined[end] == next[0]);
        }
        lemma_digits_len(joined, 2, end);
    } else if text.len() == 1 {
        if next.len() > 0 {
            assert(joined[1] == next[0]);
        }
    } else {
        assert(joined[0] == text[0] && joined[1] == text[1]);
    }
}

/// A text is stripped by itself where what follows it starts with the
/// escape character: no colour code reaches from the one into the other.
pub proof fn lemma_strip_splits(text: Seq<char>, next: Seq<char>)
    requires
        next.len() == 0 || next[0] == ESCAPE,
    ensures
        strip_codes(text + next) == strip_codes(text) + strip_codes(next),
    decreases text.len(),
{
    let joined = text + next;
    if text.len() == 0 {
        assert(joined =~= next);
        assert(strip_codes(text) + strip_codes(next) =~= strip_codes(next));
    } else {
        lemma_code_len_extends(text, next);
        let len = code_len(text);
        lemma_digits_len_bound(text, if text.len() >= 2 { 2 } else { text.len() as int });
        if 0 < len <= text.len() {
            assert(joined.skip(len) =~= text.skip(len) + next);
            lemma_strip_splits(text.skip(len), next);
        } else {
            assert(len == 0);
            assert(joined.drop_first() =~= text.drop_first() + next);
            assert(joined[0] == text[0]);
            lemma_strip_splits(text.drop_first(), next);
            assert(seq![text[0]] + (strip_codes(text.drop_first()) + strip_codes(next)) =~= (
                seq![text[0]] + strip_codes(text.drop_first())) + strip_codes(next));
        }
    }
}

/// A text without the escape character holds no colour code.
pub proof fn lemma_plain_stays(text: Seq<char>)
    requires
        !text.contains(ESCAPE),
    ensures
        strip_codes(text) == text,
    decreases text.len(),
{
    if text.len() > 0 {
        assert(text.contains(text[0]));
        assert forall|i: int| 0 <= i < text.drop_first().len() implies text.drop_first()[i]
            != ESCAPE by {
            assert(text.contains(text[i + 1]));
        }
        lemma_plain_stays(text.drop_first());
        assert(seq![text[0]] + text.drop_first() =~= text);
    }
}

/// The escape sequences that a line in colour holds are colour codes.
pub proof fn lemma_codes()
    ensures
        is_code(grey_code()),
        is_code(reset_code()),
        forall|level: LogType| is_code(#[trigger] level.colour_code()),
{
    reveal_strlit("\x1b[90m");
    reveal_strlit("\x1b[0m");
    reveal_strlit("\x1b[91m");
    reveal_strlit("\x1b[92m");
    reveal_strlit("\x1b[93m");
    reveal_strlit("\x1b[94m");
    reveal_strlit("\x1b[95m");
    assert(is_code(grey_code()));
    assert(is_code(reset_code()));
    assert forall|level: LogType| is_code(#[trigger] level.colour_code()) by {
        match level {
            LogType::Error => {},
            LogType::Warn => {},
            LogType::Info => {},
            LogType::Debug => {},
            LogType::Trace => {},
        }
    }
}

/// Stripped of its colour codes, a line in colour is what the four parts of
/// the line are when each is stripped by itself: the codes that were put in
/// go, and they join with nothing around them.
pub proof fn lemma_colour_strips_to_fields(bytes: Seq<u8>, format: LineFormat)
    ensures
        strip_codes(colorized(bytes, format)) == strip_codes(
            span_text(bytes, format.tz_start as int, format.tz_end as int),
        ) + strip_codes(span_text(bytes, format.level_start as int, format.level_end as int))
            + strip_codes(span_text(bytes, format.path_start as int, format.path_end as int))
            + strip_codes(span_text(bytes, format.path_end as int, bytes.len() as int)),
{
    lemma_codes();
    let grey = grey_code();
    let colour = format.log_type.colour_code();
    let reset = reset_code();
    let timestamp = span_text(bytes, format.tz_start as int, format.tz_end as int);
    let level = span_text(bytes, format.level_start as int, format.level_end as int);
    let source = span_text(bytes, format.path_start as int, format.path_end as int);
    let rest = span_text(bytes, format.path_end as int, bytes.len() as int);
    let from_reset = reset + rest;
    let from_source = source + from_reset;
    let from_grey = grey + from_source;
    let from_level = level + from_grey;
    let from_colour = colour + from_level;
    let from_timestamp = timestamp + from_colour;
    assert(colorized(bytes, format) =~= grey + from_timestamp);
    lemma_code_is_stripped(grey, from_timestamp);
    assert(from_colour[0] == colour[0]);
    lemma_strip_splits(timestamp, from_colour);
    lemma_code_is_stripped(colour, from_level);
    assert(from_grey[0] == grey[0]);
    lemma_strip_splits(level, from_grey);
    lemma_code_is_stripped(grey, from_source);
    assert(from_reset[0] == reset[0]);
    lemma_strip_splits(source, from_reset);
    lemma_code_is_stripped(reset, rest);
    assert(strip_codes(timestamp) + (strip_codes(level) + (strip_codes(source) + strip_codes(
        rest,
    ))) =~= strip_codes(timestamp) + strip_codes(level) + strip_codes(source) + strip_codes(
        rest,
    ));
}

/// A line that holds no escape character comes back whole when the colour
/// is taken out of the line in colour.
pub proof fn lemma_stripped_colour_is_line(bytes: Seq<u8>, format: LineFormat)
    requires
        valid_utf8(bytes),
        format.fits(bytes),
        format.is_contiguous(),
        !decode_utf8(bytes).contains(ESCAPE),
    ensures
        strip_codes(colorized(bytes, format)) == decode_utf8(bytes),
{
    lemma_colour_strips_to_fields(bytes, format);
    lemma_plain_text_is_line(bytes, format);
    let line = decode_utf8(bytes);
    let timestamp = span_text(bytes, format.tz_start as int, format.tz_end as int);
    let level = span_text(bytes, format.level_start as int, format.level_end as int);
    let source = span_text(bytes, format.path_start as int, format.path_end as int);
    let rest = span_text(bytes, format.path_end as int, bytes.len() as int);
    assert(line == timestamp + level + source + rest);
    lemma_part_is_plain(line, timestamp, 0);
    lemma_part_is_plain(line, level, timestamp.len() as int);
    lemma_part_is_plain(line, source, (timestamp.len() + level.len()) as int);
    lemma_part_is_plain(
        line,
        rest,
        (timestamp.len() + level.len() + source.len()) as int,
    );
}

/// A part of a text without the escape character holds no colour code.
pub proof fn lemma_part_is_plain(text: Seq<char>, part: Seq<char>, offset: int)
    requires
        !text.contains(ESCAPE),
        0 <= offset,
        offset + part.len() <= text.len(),
        forall|i: int| 0 <= i < part.len() ==> #[trigger] part[i] == text[offset + i],
    ensures
        strip_codes(part) == part,
{
    assert forall|i: int| 0 <= i < part.len() implies part[i] != ESCAPE by {
        assert(text.contains(text[offset + i]));
    }
    lemma_plain_stays(part);
}

} // verus!
