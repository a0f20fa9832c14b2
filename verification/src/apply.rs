//! Reading a line by a layout that an earlier line has shown.

use vstd::prelude::*;
use vstd::utf8::*;
use vstd::string::*;
use crate::format::{GeneralLineFormat, LineFormat};
use crate::learn::{
    is_run_start, learned_format, lemma_learned_format_fits, lemma_next_run_start,
    next_run_start,
};
use crate::level::{lemma_level_field_len, lemma_trimmed_skips, level_of_field, LogType};
use crate::text::{
    is_span, lemma_ascii_byte_is_char, lemma_boundary_in_prefix, lemma_boundary_in_range,
    lemma_decode_len, lemma_space_text, lemma_span_text_joins, slice, span_text, SPACE,
};

verus! {

/// Where the first space stands that stands at `from` or later.
pub open spec fn first_space(bytes: Seq<u8>, from: int) -> Option<int>
    decreases bytes.len() - from,
{
    if from < 0 || from >= bytes.len() {
        None
    } else if bytes[from] == SPACE {
        Some(from)
    } else {
        first_space(bytes, from + 1)
    }
}

/// The layout of a line that is read by the layout `general`. The level is
/// read anew from the level field, which must be a range of whole characters
/// of the line and name a level. The source ends behind the first space from
/// its start on, which must exist: like every field the source takes the
/// space after it along. The timestamp is taken over as it is.
pub open spec fn applied_format(bytes: Seq<u8>, general: GeneralLineFormat) -> Option<LineFormat> {
    if !is_span(bytes, general.level_start as int, general.level_end as int) {
        None
    } else {
        match level_of_field(span_text(bytes, general.level_start as int, general.level_end as int)) {
            None => None,
            Some(log_type) => if !is_char_boundary(bytes, general.path_start as int) {
                None
            } else {
                match first_space(bytes, general.path_start as int) {
                    None => None,
                    Some(path_end) => Some(
                        LineFormat {
                            log_type,
                            tz_start: general.tz_start,
                            tz_end: general.tz_end,
                            level_start: general.level_start,
                            level_end: general.level_end,
                            path_start: general.path_start,
                            path_end: (path_end + 1) as usize,
                        },
                    ),
                }
            },
        }
    }
}

/// `first_space` finds a space, and the first one from `from` on.
pub proof fn lemma_first_space(bytes: Seq<u8>, from: int)
    requires
        0 <= from,
    ensures
        match first_space(bytes, from) {
            Some(i) => {
                &&& from <= i < bytes.len()
                &&& bytes[i] == SPACE
                &&& forall|j: int| from <= j < i ==> bytes[j] != SPACE
            },
            None => forall|j: int| from <= j < bytes.len() ==> bytes[j] != SPACE,
        },
    decreases bytes.len() - from,
{
    if from < bytes.len() && bytes[from] != SPACE {
        lemma_first_space(bytes, from + 1);
    }
}

/// A layout that is read by a contiguous layout lies within the line.
pub proof fn lemma_applied_format_fits(bytes: Seq<u8>, general: GeneralLineFormat)
    requires
        valid_utf8(bytes),
        bytes.len() <= usize::MAX,
        general.is_contiguous(),
    ensures
        applied_format(bytes, general) matches Some(f) ==> {
            &&& f.general() == general
            &&& f.is_contiguous()
            &&& f.fits(bytes)
            &&& 1 <= f.path_end <= bytes.len()
            &&& bytes[f.path_end - 1] == SPACE
        },
{
    if let Some(f) = applied_format(bytes, general) {
        lemma_first_space(bytes, general.path_start as int);
        lemma_boundary_in_range(bytes, general.path_start as int);
        lemma_ascii_byte_is_char(bytes, f.path_end - 1);
        is_char_boundary_start_end_of_seq(bytes);
    }
}

/// A line of fewer than four bytes is read by no layout.
pub proof fn lemma_short_line_is_not_read(bytes: Seq<u8>, general: GeneralLineFormat)
    requires
        valid_utf8(bytes),
        bytes.len() < 4,
    ensures
        applied_format(bytes, general) is None,
{
    if is_span(bytes, general.level_start as int, general.level_end as int) {
        let field = bytes.subrange(general.level_start as int, general.level_end as int);
        valid_utf8_split(bytes, general.level_end as int);
        lemma_boundary_in_prefix(
            bytes,
            general.level_start as int,
            general.level_end as int,
        );
        valid_utf8_split(bytes.subrange(0, general.level_end as int), general.level_start as int);
        assert(field =~= bytes.subrange(0, general.level_end as int).subrange(
            general.level_start as int,
            general.level_end as int,
        ));
        lemma_decode_len(field);
        lemma_level_field_len(decode_utf8(field));
    }
}

/// A line that shows a layout is read by that layout, and read as it was
/// learned wherever its source starts with no space, which is wherever the
/// run of spaces before the source is a single space: then reading it by the
/// layout and learning it anew give the same. Where that run is longer, the
/// source that is read is the second space of the run and no more, and ends
/// before the source that is learned.
pub proof fn lemma_apply_after_learn(bytes: Seq<u8>)
    requires
        valid_utf8(bytes),
        bytes.len() <= usize::MAX,
        learned_format(bytes) is Some,
    ensures
        ({
            let learned = learned_format(bytes)->0;
            &&& applied_format(bytes, learned.general()) matches Some(applied)
            &&& applied.log_type == learned.log_type
            &&& applied.general() == learned.general()
            &&& first_space(bytes, learned.path_start as int) == Some(applied.path_end - 1)
            &&& applied.path_end <= learned.path_end
            &&& bytes[learned.path_start as int] != SPACE ==> applied == learned
        }),
{
    let learned = learned_format(bytes)->0;
    lemma_learned_format_fits(bytes);
    lemma_next_run_start(bytes, 0);
    let s0 = next_run_start(bytes, 0)->0;
    lemma_next_run_start(bytes, s0 + 1);
    let s1 = next_run_start(bytes, s0 + 1)->0;
    lemma_next_run_start(bytes, s1 + 1);
    let s2 = next_run_start(bytes, s1 + 1)->0;
    lemma_ascii_byte_is_char(bytes, s0);
    lemma_ascii_byte_is_char(bytes, s1);
    lemma_span_text_joins(bytes, s0 + 1, s1, s1 + 1);
    lemma_space_text(bytes, s1);
    lemma_trimmed_skips(span_text(bytes, s0 + 1, s1), seq![' ']);
    lemma_first_space(bytes, s1 + 1);
    if bytes[s1 + 1] != SPACE {
        // The first space behind a byte that is none starts a run.
        let space = first_space(bytes, s1 + 1)->0;
        assert(is_run_start(bytes, space));
    }
}

/// Where the first space stands depends on nothing before `from`.
pub proof fn lemma_first_space_agrees(first: Seq<u8>, second: Seq<u8>, from: int)
    requires
        0 <= from,
        first.len() == second.len(),
        forall|i: int| from <= i < first.len() ==> first[i] == second[i],
    ensures
        first_space(first, from) == first_space(second, from),
    decreases first.len() - from,
{
    if from < first.len() && first[from] != SPACE {
        lemma_first_space_agrees(first, second, from + 1);
    }
}

/// Reading a line by a layout looks at nothing before the level field: two
/// lines that differ only there are read alike. So a timestamp of another
/// length, or no timestamp at all, goes unseen as long as the level field
/// and the source stand where the layout has them.
pub proof fn lemma_apply_ignores_timestamp(
    first: Seq<u8>,
    second: Seq<u8>,
    general: GeneralLineFormat,
)
    requires
        valid_utf8(first),
        valid_utf8(second),
        first.len() == second.len(),
        general.level_start <= general.path_start,
        forall|i: int| general.level_start <= i < first.len() ==> first[i] == second[i],
    ensures
        applied_format(first, general) == applied_format(second, general),
{
    let start = general.level_start as int;
    let end = general.level_end as int;
    let path = general.path_start as int;
    lemma_boundary_agrees(first, second, start);
    if start <= end {
        lemma_boundary_agrees(first, second, end);
    }
    lemma_boundary_agrees(first, second, path);
    if start <= end <= first.len() {
        assert(first.subrange(start, end) =~= second.subrange(start, end));
    }
    lemma_first_space_agrees(first, second, path);
}

/// Whether a character starts at a byte is seen from that byte alone.
pub proof fn lemma_boundary_agrees(first: Seq<u8>, second: Seq<u8>, i: int)
    requires
        valid_utf8(first),
        valid_utf8(second),
        first.len() == second.len(),
        0 <= i < first.len() ==> first[i] == second[i],
    ensures
        is_char_boundary(first, i) == is_char_boundary(second, i),
{
    if 0 <= i < first.len() {
        is_char_boundary_iff_not_is_continuation_byte(first, i);
        is_char_boundary_iff_not_is_continuation_byte(second, i);
    } else if i == first.len() {
        is_char_boundary_start_end_of_seq(first);
        is_char_boundary_start_end_of_seq(second);
    }
}

fn find_space(bytes: &[u8], from: usize) -> (found: Option<usize>)
    ensures
        match found {
            Some(i) => i < bytes@.len() && first_space(bytes@, from as int) == Some(i as int),
            None => first_space(bytes@, from as int) is None,
        },
{
    let n = bytes.len();
    let mut i = from;
    while i < n
        invariant
            from <= i,
            n == bytes@.len(),
            first_space(bytes@, from as int) == first_space(bytes@, i as int),
        decreases n - i,
    {
        if bytes[i] == SPACE {
            return Some(i);
        }
        i += 1;
    }
    None
}

/// Given a general format, parse the log type and path end location to create
/// a full `LineFormat`.
///
/// Returns `None` where the level field of the general format is no range of
/// whole characters of the line or names no level, or where no space stands at
/// the start of the source or behind it. The source ends behind the first such
/// space. The timestamp is taken over unread.
pub fn parse_line_path_from_general_format(
    line: &str,
    general_format: GeneralLineFormat,
) -> (format: Option<LineFormat>)
    ensures
        format == applied_format(line.spec_bytes(), general_format),
        general_format.is_contiguous() ==> (format matches Some(f) ==> f.is_contiguous() && f.fits(
            line.spec_bytes(),
        )),
{
    let bytes = line.as_bytes();
    let len = bytes.len();
    proof {
        encode_utf8_valid_utf8(line@);
        if general_format.is_contiguous() {
            lemma_applied_format_fits(bytes@, general_format);
        }
    }
    if general_format.level_start > general_format.level_end || general_format.level_end > len
        || !line.is_char_boundary(general_format.level_start)
        || !line.is_char_boundary(general_format.level_end) {
        return None;
    }
    let field = slice(line, general_format.level_start, general_format.level_end);
    let log_type = match LogType::from_field(field) {
        Some(log_type) => log_type,
        None => { return None; },
    };
    if !line.is_char_boundary(general_format.path_start) {
        return None;
    }
    let path_end = match find_space(bytes, general_format.path_start) {
        Some(i) => i,
        None => { return None; },
    };
    Some(
        LineFormat {
            log_type,
            tz_start: general_format.tz_start,
            tz_end: general_format.tz_end,
            level_start: general_format.level_start,
            level_end: general_format.level_end,
            path_start: general_format.path_start,
            path_end: path_end + 1,
        },
    )
}

} // verus!
