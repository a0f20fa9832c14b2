//! Writing a line anew with its fields in colour.

use vstd::prelude::*;
use vstd::utf8::*;
use vstd::string::*;
use crate::format::LineFormat;
use crate::text::{lemma_encode_joins, lemma_span_text_joins, slice, span_text};

verus! {

/// The escape sequence that switches a terminal to grey.
pub open spec fn grey_code() -> Seq<char> {
    "\x1b[90m"@
}

/// The escape sequence that switches a terminal back to its own colour.
pub open spec fn reset_code() -> Seq<char> {
    "\x1b[0m"@
}

/// The line in colour: the timestamp in grey, the level field in the colour
/// of the level, the source in grey, and the rest of the line as it is.
pub open spec fn colorized(bytes: Seq<u8>, format: LineFormat) -> Seq<char> {
    grey_code() + span_text(bytes, format.tz_start as int, format.tz_end as int)
        + format.log_type.colour_code() + span_text(
        bytes,
        format.level_start as int,
        format.level_end as int,
    ) + grey_code() + span_text(bytes, format.path_start as int, format.path_end as int)
        + reset_code() + span_text(bytes, format.path_end as int, bytes.len() as int)
}

/// What the line in colour shows once the escape sequences are taken out:
/// the texts of the timestamp, the level field, the source and the rest.
pub open spec fn plain_text(bytes: Seq<u8>, format: LineFormat) -> Seq<char> {
    span_text(bytes, format.tz_start as int, format.tz_end as int) + span_text(
        bytes,
        format.level_start as int,
        format.level_end as int,
    ) + span_text(bytes, format.path_start as int, format.path_end as int) + span_text(
        bytes,
        format.path_end as int,
        bytes.len() as int,
    )
}

/// A line in colour holds the whole line and nothing else besides the
/// escape sequences: where the fields follow one another from the start of
/// the line, the texts between the escape sequences make the line.
pub proof fn lemma_plain_text_is_line(bytes: Seq<u8>, format: LineFormat)
    requires
        valid_utf8(bytes),
        format.fits(bytes),
        format.is_contiguous(),
    ensures
        plain_text(bytes, format) == decode_utf8(bytes),
{
    let len = bytes.len() as int;
    is_char_boundary_start_end_of_seq(bytes);
    lemma_span_text_joins(bytes, 0, format.tz_end as int, format.level_end as int);
    lemma_span_text_joins(bytes, 0, format.level_end as int, format.path_end as int);
    lemma_span_text_joins(bytes, 0, format.path_end as int, len);
    assert(bytes.subrange(0, len) =~= bytes);
}

/// A line in colour is longer than the line by the escape sequences alone:
/// by 19 characters, which are 19 bytes.
pub proof fn lemma_colorized_len(bytes: Seq<u8>, format: LineFormat)
    requires
        valid_utf8(bytes),
        format.fits(bytes),
        format.is_contiguous(),
    ensures
        colorized(bytes, format).len() == decode_utf8(bytes).len() + 19,
        encode_utf8(colorized(bytes, format)).len() == bytes.len() + 19,
{
    reveal_strlit("\x1b[90m");
    reveal_strlit("\x1b[0m");
    reveal_strlit("\x1b[91m");
    reveal_strlit("\x1b[92m");
    reveal_strlit("\x1b[93m");
    reveal_strlit("\x1b[94m");
    reveal_strlit("\x1b[95m");
    lemma_plain_text_is_line(bytes, format);
    let grey = grey_code();
    let colour = format.log_type.colour_code();
    let reset = reset_code();
    let timestamp = span_text(bytes, format.tz_start as int, format.tz_end as int);
    let level = span_text(bytes, format.level_start as int, format.level_end as int);
    let source = span_text(bytes, format.path_start as int, format.path_end as int);
    let rest = span_text(bytes, format.path_end as int, bytes.len() as int);
    assert(decode_utf8(bytes).len() == timestamp.len() + level.len() + source.len() + rest.len());
    assert(grey.len() == 5 && colour.len() == 5 && reset.len() == 4);
    assert(is_ascii_chars(grey));
    assert(is_ascii_chars(colour));
    assert(is_ascii_chars(reset));
    is_ascii_chars_encode_utf8(grey);
    is_ascii_chars_encode_utf8(colour);
    is_ascii_chars_encode_utf8(reset);
    lemma_encode_joins(timestamp + level + source, rest);
    lemma_encode_joins(timestamp + level, source);
    lemma_encode_joins(timestamp, level);
    decode_utf8_encode_utf8(bytes);
    lemma_encode_joins(grey + timestamp + colour + level + grey + source + reset, rest);
    lemma_encode_joins(grey + timestamp + colour + level + grey + source, reset);
    lemma_encode_joins(grey + timestamp + colour + level + grey, source);
    lemma_encode_joins(grey + timestamp + colour + level, grey);
    lemma_encode_joins(grey + timestamp + colour, level);
    lemma_encode_joins(grey + timestamp, colour);
    lemma_encode_joins(grey, timestamp);
}

/// Writes `line` anew with escape sequences around the fields that
/// `line_format` marks. Nothing of the line is changed or left out.
pub fn colorize_line(line: &str, line_format: LineFormat) -> (new_line: String)
    requires
        line_format.fits(line.spec_bytes()),
    ensures
        new_line@ == colorized(line.spec_bytes(), line_format),
{
    proof {
        encode_utf8_valid_utf8(line@);
        is_char_boundary_start_end_of_seq(line.spec_bytes());
    }
    let grey = "\x1b[90m";
    let len = line.as_bytes().len();
    let mut new_line = String::new();
    new_line.append(grey);
    new_line.append(slice(line, line_format.tz_start, line_format.tz_end));
    new_line.append(line_format.log_type.as_colour_str());
    new_line.append(slice(line, line_format.level_start, line_format.level_end));
    new_line.append(grey);
    new_line.append(slice(line, line_format.path_start, line_format.path_end));
    new_line.append("\x1b[0m");  // clear colour formatting for rest of string
    new_line.append(slice(line, line_format.path_end, len));
    proof {
        assert(new_line@ =~= colorized(line.spec_bytes(), line_format));
    }
    new_line
}

} // verus!
