//! Where the fields of a line lie: byte offsets into the line's UTF-8 encoding.

use vstd::prelude::*;
use crate::level::LogType;
use crate::text::is_span;

verus! {

/// The part of a line's layout that stays the same from line to line: the
/// timestamp, the level field, and where the source begins.
#[derive(Clone, Copy, Debug, PartialEq, Eq, Structural)]
pub struct GeneralLineFormat {
    pub tz_start: usize,
    pub tz_end: usize,
    pub level_start: usize,
    pub level_end: usize,
    pub path_start: usize,
}

/// The layout of one line: its level, and the timestamp, the level field and
/// the source as half-open ranges of bytes.
#[derive(Clone, Copy, Debug, PartialEq, Eq, Structural)]
pub struct LineFormat {
    pub log_type: LogType,
    pub tz_start: usize,
    pub tz_end: usize,
    pub level_start: usize,
    pub level_end: usize,
    pub path_start: usize,
    pub path_end: usize,
}

impl GeneralLineFormat {
    /// True when the timestamp starts the line, the level field follows it
    /// directly, and the source follows the level field directly.
    pub open spec fn is_contiguous(self) -> bool {
        &&& self.tz_start == 0
        &&& self.tz_end == self.level_start
        &&& self.level_start <= self.level_end
        &&& self.level_end == self.path_start
    }
}

impl LineFormat {
    /// The layout without what belongs to this line alone.
    pub open spec fn general(self) -> GeneralLineFormat {
        GeneralLineFormat {
            tz_start: self.tz_start,
            tz_end: self.tz_end,
            level_start: self.level_start,
            level_end: self.level_end,
            path_start: self.path_start,
        }
    }

    /// True when the three fields follow one another from the start of the line.
    pub open spec fn is_contiguous(self) -> bool {
        &&& self.general().is_contiguous()
        &&& self.path_start <= self.path_end
    }

    /// True when each field is a range of whole characters of the line `bytes`.
    pub open spec fn fits(self, bytes: Seq<u8>) -> bool {
        &&& is_span(bytes, self.tz_start as int, self.tz_end as int)
        &&& is_span(bytes, self.level_start as int, self.level_end as int)
        &&& is_span(bytes, self.path_start as int, self.path_end as int)
    }

    /// The layout to keep for the lines that follow.
    pub fn general_format(&self) -> (general: GeneralLineFormat)
        ensures
            general == self.general(),
    {
        GeneralLineFormat {
            tz_start: self.tz_start,
            tz_end: self.tz_end,
            level_start: self.level_start,
            level_end: self.level_end,
            path_start: self.path_start,
        }
    }
}

} // verus!
