//! The line pipeline: the first line that shows a layout teaches it, and
//! every later line is read by that layout.

use vstd::prelude::*;
use vstd::utf8::*;
use vstd::string::*;
use crate::apply::{
    applied_format, lemma_applied_format_fits, lemma_apply_after_learn,
    lemma_short_line_is_not_read, parse_line_path_from_general_format,
};
use crate::colorize::{colorize_line, colorized, lemma_plain_text_is_line, plain_text};
use crate::format::{GeneralLineFormat, LineFormat};
use crate::text::SPACE;
use crate::learn::{
    learned_format, lemma_learned_format_fits, lemma_learned_format_needs_three_runs,
    parse_line_from_scratch, run_count,
};

verus! {

/// What the pipeline knows of the layout of the lines.
#[derive(Clone, Copy, Debug, PartialEq, Eq, Structural)]
pub enum PipelineState {
    /// No line has shown a layout yet.
    Unlearned,
    /// A line has shown this layout; it is kept for good.
    Learned(GeneralLineFormat),
}

/// What is written for a line that could not be read: the line behind a
/// fixed notice.
pub open spec fn failure_line(line: Seq<char>) -> Seq<char> {
    "FAILED TO PARSE LINE: "@ + line
}

/// One step of the pipeline: the state after the line, and what is written
/// for the line. Without a layout the line is asked for one, and a layout it
/// shows is kept. With a layout the line is read by it, and the layout stays
/// whether or not the line could be read.
pub open spec fn step(state: PipelineState, bytes: Seq<u8>) -> (PipelineState, Seq<char>) {
    match state {
        PipelineState::Unlearned => match learned_format(bytes) {
            Some(format) => (PipelineState::Learned(format.general()), colorized(bytes, format)),
            None => (PipelineState::Unlearned, failure_line(decode_utf8(bytes))),
        },
        PipelineState::Learned(general) => match applied_format(bytes, general) {
            Some(format) => (state, colorized(bytes, format)),
            None => (state, failure_line(decode_utf8(bytes))),
        },
    }
}

/// The layout by which a line is read in a state, where it can be read.
pub open spec fn parsed_by(state: PipelineState, bytes: Seq<u8>) -> Option<LineFormat> {
    match state {
        PipelineState::Unlearned => learned_format(bytes),
        PipelineState::Learned(general) => applied_format(bytes, general),
    }
}

impl PipelineState {
    /// True when a layout that is kept is one that a line can have shown:
    /// its fields follow one another from the start of the line.
    pub open spec fn is_sound(self) -> bool {
        self matches PipelineState::Learned(general) ==> general.is_contiguous()
    }
}

/// The state after a run of lines, taken one after the other.
pub open spec fn run(state: PipelineState, lines: Seq<Seq<u8>>) -> PipelineState
    decreases lines.len(),
{
    if lines.len() == 0 {
        state
    } else {
        run(step(state, lines[0]).0, lines.drop_first())
    }
}

/// A step keeps the state sound.
pub proof fn lemma_step_keeps_sound(state: PipelineState, bytes: Seq<u8>)
    requires
        state.is_sound(),
        valid_utf8(bytes),
        bytes.len() <= usize::MAX,
    ensures
        step(state, bytes).0.is_sound(),
{
    lemma_learned_format_fits(bytes);
}

/// Once a layout is learned, every later line is read by it and by no
/// other: the line is not asked for a layout again, and the layout stays
/// whether or not the line could be read.
pub proof fn lemma_learned_layout_is_kept(general: GeneralLineFormat, lines: Seq<Seq<u8>>)
    ensures
        run(PipelineState::Learned(general), lines) == PipelineState::Learned(general),
        forall|bytes: Seq<u8>| #[trigger]
            step(PipelineState::Learned(general), bytes) == (
                PipelineState::Learned(general),
                match applied_format(bytes, general) {
                    Some(format) => colorized(bytes, format),
                    None => failure_line(decode_utf8(bytes)),
                },
            ),
    decreases lines.len(),
{
    if lines.len() > 0 {
        lemma_learned_layout_is_kept(general, lines.drop_first());
    }
}

/// A line of the learned layout is written alike whether it is read by the
/// layout or asked for a layout anew: where a line shows the layout that is
/// kept, and its source starts with no space, the pipeline that has learned
/// writes for it what a pipeline that has learned nothing writes.
pub proof fn lemma_reading_is_learning_anew(general: GeneralLineFormat, bytes: Seq<u8>)
    requires
        valid_utf8(bytes),
        bytes.len() <= usize::MAX,
        learned_format(bytes) matches Some(format) && format.general() == general,
        bytes[general.path_start as int] != SPACE,
    ensures
        applied_format(bytes, general) == learned_format(bytes),
        step(PipelineState::Learned(general), bytes).1 == step(
            PipelineState::Unlearned,
            bytes,
        ).1,
{
    lemma_apply_after_learn(bytes);
}

/// As long as no line shows a layout, none is learned.
pub proof fn lemma_unlearned_until_shown(lines: Seq<Seq<u8>>)
    requires
        forall|i: int| 0 <= i < lines.len() ==> learned_format(#[trigger] lines[i]) is None,
    ensures
        run(PipelineState::Unlearned, lines) == PipelineState::Unlearned,
    decreases lines.len(),
{
    if lines.len() > 0 {
        assert(learned_format(lines[0]) is None);
        assert forall|i: int| 0 <= i < lines.drop_first().len() implies learned_format(
            #[trigger] lines.drop_first()[i],
        ) is None by {
            assert(lines.drop_first()[i] == lines[i + 1]);
        }
        lemma_unlearned_until_shown(lines.drop_first());
    }
}

/// The first line that shows a layout teaches it, and it is the layout
/// that the pipeline ends with, whatever lines follow.
pub proof fn lemma_first_layout_is_learned(lines: Seq<Seq<u8>>, first: int)
    requires
        0 <= first < lines.len(),
        learned_format(lines[first]) is Some,
        forall|i: int| 0 <= i < first ==> learned_format(#[trigger] lines[i]) is None,
    ensures
        run(PipelineState::Unlearned, lines) == PipelineState::Learned(
            learned_format(lines[first])->0.general(),
        ),
    decreases lines.len(),
{
    let rest = lines.drop_first();
    if first == 0 {
        lemma_learned_layout_is_kept(learned_format(lines[0])->0.general(), rest);
    } else {
        assert(learned_format(lines[0]) is None);
        assert(rest[first - 1] == lines[first]);
        assert forall|i: int| 0 <= i < first - 1 implies learned_format(#[trigger] rest[i])
            is None by {
            assert(rest[i] == lines[i + 1]);
        }
        lemma_first_layout_is_learned(rest, first - 1);
    }
}

/// A line with fewer than three runs of spaces teaches nothing: without a
/// layout the pipeline writes it behind the notice and stays without one.
pub proof fn lemma_few_runs_teach_nothing(bytes: Seq<u8>)
    requires
        run_count(bytes) < 3,
    ensures
        step(PipelineState::Unlearned, bytes) == (
            PipelineState::Unlearned,
            failure_line(decode_utf8(bytes)),
        ),
{
    lemma_learned_format_needs_three_runs(bytes);
}

/// A line of fewer than four bytes is written behind the notice and leaves
/// the state as it is, whatever the state.
pub proof fn lemma_short_line_fails(state: PipelineState, bytes: Seq<u8>)
    requires
        valid_utf8(bytes),
        bytes.len() < 4,
    ensures
        step(state, bytes) == (state, failure_line(decode_utf8(bytes))),
{
    lemma_learned_format_fits(bytes);
    if let PipelineState::Learned(general) = state {
        lemma_short_line_is_not_read(bytes, general);
    }
}

/// Whatever is written for a line holds the whole line: behind the notice
/// the line as it is, and in colour the texts between the escape sequences,
/// which make the line.
pub proof fn lemma_step_keeps_line(state: PipelineState, bytes: Seq<u8>)
    requires
        state.is_sound(),
        valid_utf8(bytes),
        bytes.len() <= usize::MAX,
    ensures
        parsed_by(state, bytes) matches Some(format) ==> {
            &&& step(state, bytes).1 == colorized(bytes, format)
            &&& format.fits(bytes)
            &&& plain_text(bytes, format) == decode_utf8(bytes)
        },
        parsed_by(state, bytes) is None ==> step(state, bytes).1 == failure_line(
            decode_utf8(bytes),
        ),
{
    lemma_learned_format_fits(bytes);
    if let PipelineState::Learned(general) = state {
        lemma_applied_format_fits(bytes, general);
    }
    if let Some(format) = parsed_by(state, bytes) {
        lemma_plain_text_is_line(bytes, format);
    }
}

/// The pipeline of one stream of lines.
pub struct LinePipeline {
    state: PipelineState,
}

impl LinePipeline {
    #[verifier::type_invariant]
    spec fn well_formed(self) -> bool {
        self.state.is_sound()
    }

    /// What the pipeline knows of the layout.
    pub closed spec fn view(self) -> PipelineState {
        self.state
    }

    /// A pipeline that has seen no line.
    pub fn new() -> (pipeline: Self)
        ensures
            pipeline@ == PipelineState::Unlearned,
    {
        LinePipeline { state: PipelineState::Unlearned }
    }

    /// What the pipeline knows of the layout.
    pub fn state(&self) -> (state: PipelineState)
        ensures
            state == self@,
            state.is_sound(),
    {
        proof {
            use_type_invariant(self);
        }
        self.state
    }

    /// True once a line has shown a layout.
    pub fn is_learned(&self) -> (learned: bool)
        ensures
            learned == (self@ is Learned),
    {
        match self.state {
            PipelineState::Unlearned => false,
            PipelineState::Learned(_) => true,
        }
    }

    /// Takes the next line of the stream and gives what is to be written
    /// for it: the line in colour, or the line behind the notice that it
    /// could not be read.
    pub fn process_line(&mut self, line: &str) -> (new_line: String)
        ensures
            (final(self)@, new_line@) == step(old(self)@, line.spec_bytes()),
    {
        proof {
            use_type_invariant(&*self);
            encode_utf8_valid_utf8(line@);
            encode_utf8_decode_utf8(line@);
        }
        let parsed = match self.state {
            PipelineState::Unlearned => {
                let parsed = parse_line_from_scratch(line);
                if let Some(format) = parsed {
                    self.state = PipelineState::Learned(format.general_format());
                }
                parsed
            },
            PipelineState::Learned(general) => parse_line_path_from_general_format(line, general),
        };
        match parsed {
            Some(format) => colorize_line(line, format),
            None => {
                let mut new_line = String::from_str("FAILED TO PARSE LINE: ");
                new_line.append(line);
                new_line
            },
        }
    }
}

} // verus!
