//! Recolours tracing logs of the form `TIMESTAMP LEVEL SOURCE: MESSAGE`.
//!
//! The first line that shows the layout of the fields is read in full. The
//! lines that follow are read by that layout: the timestamp and the level
//! field are taken where the first line had them, and only the end of the
//! source is looked for again. Each line is written anew with the timestamp
//! and the source in grey and the level field in the colour of the level.
//!
//! All offsets are byte offsets into the UTF-8 encoding of a line. A line may
//! hold any characters; an offset that falls inside a character is a line
//! that cannot be read, never a fault.

pub mod apply;
pub mod colorize;
pub mod format;
pub mod learn;
pub mod level;
pub mod pipeline;
pub mod strip;
pub mod text;

pub use apply::parse_line_path_from_general_format;
pub use colorize::colorize_line;
pub use format::{GeneralLineFormat, LineFormat};
pub use learn::parse_line_from_scratch;
pub use level::LogType;
pub use pipeline::{LinePipeline, PipelineState};
