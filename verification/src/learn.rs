//! Learning the layout of a line from the line alone.

use vstd::prelude::*;
use vstd::utf8::*;
use vstd::string::*;
use crate::format::LineFormat;
use crate::level::{level_of_field, LogType};
use crate::text::{lemma_ascii_byte_is_char, slice, span_text, SPACE};

verus! {

/// True when a run of spaces starts at `i`: there is a space at `i` and none
/// right before it.
pub open spec fn is_run_start(bytes: Seq<u8>, i: int) -> bool {
    &&& 0 <= i < bytes.len()
    &&& bytes[i] == SPACE
    &&& (i == 0 || bytes[i - 1] != SPACE)
}

/// Where the first run of spaces starts that starts at `from` or later.
pub open spec fn next_run_start(bytes: Seq<u8>, from: int) -> Option<int>
    decreases bytes.len() - from,
{
    if from < 0 || from >= bytes.len() {
        None
    } else if is_run_start(bytes, from) {
        Some(from)
    } else {
        next_run_start(bytes, from + 1)
    }
}

/// Where the first three runs of spaces of a line start, `s0`, `s1` and
/// `s2`, where the line has three.
pub open spec fn first_three_runs(bytes: Seq<u8>) -> Option<(int, int, int)> {
    match next_run_start(bytes, 0) {
        None => None,
        Some(s0) => match next_run_start(bytes, s0 + 1) {
            None => None,
            Some(s1) => match next_run_start(bytes, s1 + 1) {
                None => None,
                Some(s2) => Some((s0, s1, s2)),
            },
        },
    }
}

/// The layout that a line shows by itself. The timestamp ends with the space
/// at `s0`, the level field with the space at `s1`, the source with the space
/// at `s2`: each field takes the first space after it along. The line shows
/// no layout where it has fewer than three runs of spaces, or where what
/// stands between the first two names no level.
pub open spec fn learned_format(bytes: Seq<u8>) -> Option<LineFormat> {
    match first_three_runs(bytes) {
        None => None,
        Some((s0, s1, s2)) => match level_of_field(span_text(bytes, s0 + 1, s1)) {
            None => None,
            Some(log_type) => Some(
                LineFormat {
                    log_type,
                    tz_start: 0,
                    tz_end: (s0 + 1) as usize,
                    level_start: (s0 + 1) as usize,
                    level_end: (s1 + 1) as usize,
                    path_start: (s1 + 1) as usize,
                    path_end: (s2 + 1) as usize,
                },
            ),
        },
    }
}

/// `next_run_start` finds a run start, and the first one from `from` on.
pub proof fn lemma_next_run_start(bytes: Seq<u8>, from: int)
    requires
        0 <= from,
    ensures
        match next_run_start(bytes, from) {
            Some(i) => {
                &&& from <= i
                &&& is_run_start(bytes, i)
                &&& forall|j: int| from <= j < i ==> !is_run_start(bytes, j)
            },
            None => forall|j: int| from <= j ==> !is_run_start(bytes, j),
        },
    decreases bytes.len() - from,
{
    if from < bytes.len() && !is_run_start(bytes, from) {
        lemma_next_run_start(bytes, from + 1);
    }
}

/// A layout that a line shows lies within the line: its fields follow one
/// another from the start of the line, each is a range of whole characters,
/// the level field and the source hold a byte or more besides the space they
/// end with, and so the line has five bytes or more.
pub proof fn lemma_learned_format_fits(bytes: Seq<u8>)
    requires
        valid_utf8(bytes),
        bytes.len() <= usize::MAX,
    ensures
        learned_format(bytes) matches Some(f) ==> {
            &&& f.is_contiguous()
            &&& f.fits(bytes)
            &&& 1 <= f.tz_end
            &&& f.level_start + 2 <= f.level_end
            &&& f.path_start + 2 <= f.path_end <= bytes.len()
            &&& bytes[f.tz_end - 1] == SPACE
            &&& bytes[f.level_end - 1] == SPACE
            &&& bytes[f.path_end - 1] == SPACE
        },
{
    lemma_next_run_start(bytes, 0);
    if let Some(s0) = next_run_start(bytes, 0) {
        lemma_next_run_start(bytes, s0 + 1);
        if let Some(s1) = next_run_start(bytes, s0 + 1) {
            lemma_next_run_start(bytes, s1 + 1);
            if let Some(s2) = next_run_start(bytes, s1 + 1) {
                lemma_ascii_byte_is_char(bytes, s0);
                lemma_ascii_byte_is_char(bytes, s1);
                lemma_ascii_byte_is_char(bytes, s2);
                is_char_boundary_start_end_of_seq(bytes);
            }
        }
    }
}

/// The number of runs of spaces that start before `upto`.
pub open spec fn count_run_starts(bytes: Seq<u8>, upto: int) -> nat
    decreases upto,
{
    if upto <= 0 {
        0
    } else if is_run_start(bytes, upto - 1) {
        count_run_starts(bytes, upto - 1) + 1
    } else {
        count_run_starts(bytes, upto - 1)
    }
}

/// The number of runs of spaces in a line.
pub open spec fn run_count(bytes: Seq<u8>) -> nat {
    count_run_starts(bytes, bytes.len() as int)
}

/// A run that starts at `i` is counted from `i + 1` on.
pub proof fn lemma_count_run_starts_grows(bytes: Seq<u8>, i: int, upto: int)
    requires
        is_run_start(bytes, i),
        i < upto,
    ensures
        count_run_starts(bytes, upto) >= count_run_starts(bytes, i) + 1,
    decreases upto - i,
{
    if i + 1 < upto {
        lemma_count_run_starts_grows(bytes, i, upto - 1);
    }
}

/// A line has three first runs of spaces exactly where it has three runs of
/// spaces or more.
pub proof fn lemma_three_runs_are_counted(bytes: Seq<u8>)
    ensures
        first_three_runs(bytes) is Some <==> run_count(bytes) >= 3,
{
    let n = bytes.len() as int;
    lemma_next_run_start(bytes, 0);
    if let Some(s0) = next_run_start(bytes, 0) {
        lemma_count_run_starts_flat(bytes, 0, s0);
        assert(count_run_starts(bytes, s0 + 1) == 1);
        lemma_next_run_start(bytes, s0 + 1);
        if let Some(s1) = next_run_start(bytes, s0 + 1) {
            lemma_count_run_starts_flat(bytes, s0 + 1, s1);
            assert(count_run_starts(bytes, s1 + 1) == 2);
            lemma_next_run_start(bytes, s1 + 1);
            if let Some(s2) = next_run_start(bytes, s1 + 1) {
                lemma_count_run_starts_flat(bytes, s1 + 1, s2);
                lemma_count_run_starts_grows(bytes, s2, n);
            } else {
                lemma_count_run_starts_flat(bytes, s1 + 1, n);
            }
        } else {
            lemma_count_run_starts_flat(bytes, s0 + 1, n);
        }
    } else {
        lemma_count_run_starts_flat(bytes, 0, n);
    }
}

/// A line shows a layout exactly where it has three runs of spaces or more
/// and what stands between the first two names a level. So a line with
/// fewer than three runs shows none, whatever else it holds.
pub proof fn lemma_learned_format_needs_three_runs(bytes: Seq<u8>)
    ensures
        run_count(bytes) < 3 ==> learned_format(bytes) is None,
        run_count(bytes) >= 3 ==> {
            let (s0, s1, s2) = first_three_runs(bytes)->0;
            learned_format(bytes) is Some <==> level_of_field(span_text(bytes, s0 + 1, s1))
                is Some
        },
{
    lemma_three_runs_are_counted(bytes);
}

/// Where no run starts in `[from, upto)`, the count does not grow there.
pub proof fn lemma_count_run_starts_flat(bytes: Seq<u8>, from: int, upto: int)
    requires
        0 <= from,
        forall|j: int| from <= j < upto ==> !is_run_start(bytes, j),
    ensures
        from <= upto ==> count_run_starts(bytes, upto) == count_run_starts(bytes, from),
    decreases upto - from,
{
    if from < upto {
        lemma_count_run_starts_flat(bytes, from, upto - 1);
    }
}

fn find_run_start(bytes: &[u8], from: usize) -> (found: Option<usize>)
    ensures
        match found {
            Some(i) => i < bytes@.len() && next_run_start(bytes@, from as int) == Some(i as int),
            None => next_run_start(bytes@, from as int) is None,
        },
{
    let n = bytes.len();
    let mut i = from;
    while i < n
        invariant
            from <= i,
            n == bytes@.len(),
            next_run_start(bytes@, from as int) == next_run_start(bytes@, i as int),
        decreases n - i,
    {
        if bytes[i] == SPACE && (i == 0 || bytes[i - 1] != SPACE) {
            return Some(i);
        }
        i += 1;
    }
    None
}

/// Parse the line to obtain the full format.
///
/// Returns `None` where the line has fewer than three runs of spaces or names
/// no level between the first two. `Some` is no promise that the line was a
/// log line: nothing but the runs and the level is looked at.
pub fn parse_line_from_scratch(line: &str) -> (format: Option<LineFormat>)
    ensures
        format == learned_format(line.spec_bytes()),
        format matches Some(f) ==> f.is_contiguous() && f.fits(line.spec_bytes()),
{
    let bytes = line.as_bytes();
    let len = bytes.len();
    proof {
        encode_utf8_valid_utf8(line@);
        lemma_learned_format_fits(bytes@);
    }
    if len < 4 {
        return None;
    }
    let s0 = match find_run_start(bytes, 0) {
        Some(i) => i,
        None => { return None; },
    };
    let s1 = match find_run_start(bytes, s0 + 1) {
        Some(i) => i,
        None => { return None; },
    };
    let s2 = match find_run_start(bytes, s1 + 1) {
        Some(i) => i,
        None => { return None; },
    };
    proof {
        lemma_next_run_start(bytes@, 0);
        lemma_next_run_start(bytes@, s0 + 1);
        lemma_ascii_byte_is_char(bytes@, s0 as int);
        lemma_ascii_byte_is_char(bytes@, s1 as int);
    }
    let field = slice(line, s0 + 1, s1);
    match LogType::from_field(field) {
        Some(log_type) => Some(
            LineFormat {
                log_type,
                tz_start: 0,
                tz_end: s0 + 1,
                level_start: s0 + 1,
                level_end: s1 + 1,
                path_start: s1 + 1,
                path_end: s2 + 1,
            },
        ),
        None => None,
    }
}

} // verus!
