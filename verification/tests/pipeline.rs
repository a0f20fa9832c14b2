use log_recolour::{LinePipeline, PipelineState};

const FIRST: &str = "2025-08-28T04:57:18.797136Z INFO  crate::path::file: I am the log message";
const SECOND: &str = "2025-08-28T04:57:19.001000Z ERROR crate::other: boom";

/// Takes out every escape sequence of the form `ESC [ digits m`.
fn strip_codes(text: &str) -> String {
    let chars: Vec<char> = text.chars().collect();
    let mut out = String::new();
    let mut i = 0;
    while i < chars.len() {
        if chars[i] == '\x1b' && i + 1 < chars.len() && chars[i + 1] == '[' {
            let mut j = i + 2;
            while j < chars.len() && chars[j].is_ascii_digit() {
                j += 1;
            }
            if j < chars.len() && chars[j] == 'm' {
                i = j + 1;
                continue;
            }
        }
        out.push(chars[i]);
        i += 1;
    }
    out
}

#[test]
fn end_to_end_first_line() {
    let mut pipeline = LinePipeline::new();
    assert!(!pipeline.is_learned());
    let out = pipeline.process_line(FIRST);
    assert_eq!(
        out,
        "\x1b[90m2025-08-28T04:57:18.797136Z \x1b[92mINFO \x1b[90m crate::path::file: \x1b[0mI am the log message"
    );
    assert!(pipeline.is_learned());
    match pipeline.state() {
        PipelineState::Learned(general) => {
            assert_eq!(general.tz_start, 0);
            assert_eq!(general.tz_end, 28);
            assert_eq!(general.level_start, 28);
            assert_eq!(general.level_end, 33);
            assert_eq!(general.path_start, 33);
        }
        PipelineState::Unlearned => panic!("the first line shows a layout"),
    }
}

#[test]
fn second_line_reuses_the_format() {
    let mut pipeline = LinePipeline::new();
    pipeline.process_line(FIRST);
    let state = pipeline.state();
    let out = pipeline.process_line(SECOND);
    assert_eq!(
        out,
        "\x1b[90m2025-08-28T04:57:19.001000Z \x1b[91mERROR\x1b[90m \x1b[0mcrate::other: boom"
    );
    assert_eq!(pipeline.state(), state);
}

#[test]
fn empty_line_fails_in_either_state() {
    let mut pipeline = LinePipeline::new();
    assert_eq!(pipeline.process_line(""), "FAILED TO PARSE LINE: ");
    assert_eq!(pipeline.state(), PipelineState::Unlearned);
    pipeline.process_line(FIRST);
    let state = pipeline.state();
    assert_eq!(pipeline.process_line(""), "FAILED TO PARSE LINE: ");
    assert_eq!(pipeline.state(), state);
}

#[test]
fn two_character_line_fails_in_either_state() {
    let mut pipeline = LinePipeline::new();
    assert_eq!(pipeline.process_line("ab"), "FAILED TO PARSE LINE: ab");
    assert_eq!(pipeline.state(), PipelineState::Unlearned);
    pipeline.process_line(FIRST);
    let state = pipeline.state();
    assert_eq!(pipeline.process_line("ab"), "FAILED TO PARSE LINE: ab");
    assert_eq!(pipeline.process_line("a b"), "FAILED TO PARSE LINE: a b");
    assert_eq!(pipeline.state(), state);
}

#[test]
fn too_few_runs_leave_the_pipeline_unlearned() {
    let mut pipeline = LinePipeline::new();
    for line in ["no-spaces-at-all", "one space", "two  runs here", "INFO    INFO"] {
        assert_eq!(pipeline.process_line(line), format!("FAILED TO PARSE LINE: {}", line));
        assert_eq!(pipeline.state(), PipelineState::Unlearned);
        assert!(!pipeline.is_learned());
    }
}

#[test]
fn unknown_level_leaves_the_pipeline_unlearned() {
    let mut pipeline = LinePipeline::new();
    let line = "2025-08-28T04:57:18.797136Z FATAL crate::path::file: message";
    assert_eq!(pipeline.process_line(line), format!("FAILED TO PARSE LINE: {}", line));
    assert_eq!(pipeline.state(), PipelineState::Unlearned);
}

#[test]
fn learning_goes_on_until_a_line_shows_a_layout() {
    let mut pipeline = LinePipeline::new();
    assert_eq!(pipeline.process_line("garbage"), "FAILED TO PARSE LINE: garbage");
    assert_eq!(
        pipeline.process_line("T1 WARN src: late"),
        "\x1b[90mT1 \x1b[93mWARN \x1b[90msrc: \x1b[0mlate"
    );
    assert!(pipeline.is_learned());
}

#[test]
fn a_failed_line_keeps_the_learned_layout() {
    let mut pipeline = LinePipeline::new();
    pipeline.process_line(FIRST);
    let state = pipeline.state();
    let bad = "this line has no level where the first one had it";
    assert_eq!(pipeline.process_line(bad), format!("FAILED TO PARSE LINE: {}", bad));
    assert_eq!(pipeline.state(), state);
    // The next good line is read by the same layout, not learned anew.
    assert_eq!(
        pipeline.process_line(SECOND),
        "\x1b[90m2025-08-28T04:57:19.001000Z \x1b[91mERROR\x1b[90m \x1b[0mcrate::other: boom"
    );
    assert_eq!(pipeline.state(), state);
}

#[test]
fn a_line_of_the_learned_layout_is_written_as_if_learned_anew() {
    let mut pipeline = LinePipeline::new();
    pipeline.process_line("12:00 ERROR a::b: hi");
    let state = pipeline.state();
    for line in [
        "12:01 DEBUG c::d::e: yo",
        "12:02 trace x: a longer message, with  spaces ",
        "12:03 Error y::z: \tand a tab",
    ] {
        let mut fresh = LinePipeline::new();
        let anew = fresh.process_line(line);
        assert_eq!(fresh.state(), state);
        assert_eq!(pipeline.process_line(line), anew, "{}", line);
        assert_eq!(pipeline.state(), state);
    }
    assert_eq!(
        pipeline.process_line("12:01 DEBUG c::d::e: yo"),
        "\x1b[90m12:01 \x1b[94mDEBUG \x1b[90mc::d::e: \x1b[0myo"
    );
}

#[test]
fn a_learned_pipeline_reads_by_the_layout_and_learns_no_other() {
    // Learned anew, this line would show a layout of its own and fill its
    // source to the end of "src: ". Read by the layout that is kept, its level
    // field is one byte wider and its source starts and ends where that
    // layout has it.
    let mut pipeline = LinePipeline::new();
    pipeline.process_line("T1 TRACE src: one");
    let state = pipeline.state();
    assert_eq!(
        pipeline.process_line("T2 WARN  src: two"),
        "\x1b[90mT2 \x1b[93mWARN  \x1b[90msrc: \x1b[0mtwo"
    );
    assert_eq!(pipeline.state(), state);
    let mut fresh = LinePipeline::new();
    assert_eq!(
        fresh.process_line("T2 WARN  src: two"),
        "\x1b[90mT2 \x1b[93mWARN \x1b[90m src: \x1b[0mtwo"
    );
    assert_ne!(fresh.state(), state);
}

#[test]
fn drift_goes_unseen() {
    let mut pipeline = LinePipeline::new();
    pipeline.process_line(FIRST);
    // A shorter timestamp, but a level where the first line had its own.
    let line = format!("{:<28}{}", "12:00:00 some other words", "WARN  mod::x: hi");
    assert_eq!(
        pipeline.process_line(&line),
        "\x1b[90m12:00:00 some other words   \x1b[93mWARN \x1b[90m \x1b[0mmod::x: hi"
    );
    // Read by itself, the same line shows no layout.
    let mut fresh = LinePipeline::new();
    assert_eq!(fresh.process_line(&line), format!("FAILED TO PARSE LINE: {}", line));
}

#[test]
fn stripped_output_is_the_line() {
    let mut pipeline = LinePipeline::new();
    let lines = [
        FIRST,
        SECOND,
        "2025-08-28T04:57:19.001000Z WARN  crate::päth: grüße, wörld",
        "2025-08-28T04:57:19.001000Z trace a::b: x",
        "2025-08-28T04:57:19.001000Z DeBuG a::b:  two  spaces  ",
    ];
    for line in lines {
        let out = pipeline.process_line(line);
        assert!(out.starts_with("\x1b[90m"), "{}", out);
        assert_eq!(strip_codes(&out), line);
        assert_eq!(out.len(), line.len() + 19);
    }
}
