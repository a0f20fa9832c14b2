use log_recolour::{parse_line_from_scratch, LineFormat, LogType};

#[test]
fn learns_the_layout_of_a_log_line() {
    let line = "2025-08-28T04:57:18.797136Z INFO  crate::path::file: I am the log message";
    let format = parse_line_from_scratch(line).expect("the line shows a layout");
    assert_eq!(
        format,
        LineFormat {
            log_type: LogType::Info,
            tz_start: 0,
            tz_end: 28,
            level_start: 28,
            level_end: 33,
            path_start: 33,
            path_end: 53,
        }
    );
    assert_eq!(&line[format.tz_start..format.tz_end], "2025-08-28T04:57:18.797136Z ");
    assert_eq!(&line[format.level_start..format.level_end], "INFO ");
    assert_eq!(&line[format.path_start..format.path_end], " crate::path::file: ");
    assert_eq!(&line[format.path_end..], "I am the log message");
}

#[test]
fn each_field_takes_one_space_along() {
    let format = parse_line_from_scratch("ts error src: msg").unwrap();
    assert_eq!(format.log_type, LogType::Error);
    assert_eq!(
        (format.tz_start, format.tz_end, format.level_start, format.level_end),
        (0, 3, 3, 9)
    );
    assert_eq!((format.path_start, format.path_end), (9, 14));
}

#[test]
fn general_format_drops_the_source_end() {
    let format = parse_line_from_scratch("ts error src: msg").unwrap();
    let general = format.general_format();
    assert_eq!(general.tz_start, 0);
    assert_eq!(general.tz_end, 3);
    assert_eq!(general.level_start, 3);
    assert_eq!(general.level_end, 9);
    assert_eq!(general.path_start, 9);
}

#[test]
fn short_lines_show_no_layout() {
    for line in ["", "a", "ab", "a b", "   ", " a b", "a b "] {
        assert_eq!(parse_line_from_scratch(line), None, "{:?}", line);
    }
}

#[test]
fn fewer_than_three_runs_show_no_layout() {
    for line in [
        "nospace",
        "one space",
        "2025-08-28T04:57:18.797136Z INFO",
        "2025-08-28T04:57:18.797136Z INFO  ",
        "2025-08-28T04:57:18.797136Z INFO  crate::path::file:",
        "ts    info",
        "    ",
    ] {
        assert_eq!(parse_line_from_scratch(line), None, "{:?}", line);
    }
}

#[test]
fn three_runs_are_enough_where_the_level_is_known() {
    // The third run may end the line; what follows it is not looked at.
    let format = parse_line_from_scratch("ts info src ").unwrap();
    assert_eq!((format.path_start, format.path_end), (8, 12));
    let format = parse_line_from_scratch(" info b ").unwrap();
    assert_eq!(format.log_type, LogType::Info);
    assert_eq!((format.tz_end, format.level_end, format.path_end), (1, 6, 8));
}

#[test]
fn unknown_level_shows_no_layout() {
    for line in ["ts fatal src: msg", "ts src: info msg", "info ts src: msg", "ts inf o src: m"] {
        assert_eq!(parse_line_from_scratch(line), None, "{:?}", line);
    }
}

#[test]
fn long_run_before_the_level_is_trimmed_away() {
    let format = parse_line_from_scratch("ts     WARN   src: msg").unwrap();
    assert_eq!(format.log_type, LogType::Warn);
    assert_eq!((format.tz_end, format.level_start, format.level_end), (3, 3, 12));
    assert_eq!((format.path_start, format.path_end), (12, 19));
}

#[test]
fn offsets_count_bytes() {
    let line = "zëit dEbUg quélle: grüße";
    let format = parse_line_from_scratch(line).unwrap();
    assert_eq!(format.log_type, LogType::Debug);
    assert_eq!(format.tz_end, 6);
    assert_eq!(format.level_end, 12);
    assert_eq!(format.path_end, 21);
    assert_eq!(&line[format.path_start..format.path_end], "quélle: ");
}

#[test]
fn tabs_separate_nothing_but_are_trimmed() {
    // A tab starts no run, so this line has too few of them.
    assert_eq!(parse_line_from_scratch("ts\tinfo\tsrc:\tmsg"), None);
    // Around the level a tab is whitespace like any other.
    let format = parse_line_from_scratch("ts \tinfo\t src: msg").unwrap();
    assert_eq!(format.log_type, LogType::Info);
}
