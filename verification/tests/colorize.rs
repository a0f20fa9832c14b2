use log_recolour::{colorize_line, parse_line_from_scratch, LineFormat, LogType};

#[test]
fn colours_the_three_fields() {
    let line = "2025-08-28T04:57:18.797136Z INFO  crate::path::file: I am the log message";
    let format = parse_line_from_scratch(line).unwrap();
    assert_eq!(
        colorize_line(line, format),
        "\x1b[90m2025-08-28T04:57:18.797136Z \x1b[92mINFO \x1b[90m crate::path::file: \x1b[0mI am the log message"
    );
}

#[test]
fn each_level_has_its_colour() {
    for (word, code) in [("ERROR", "91"), ("WARN", "93"), ("INFO", "92"), ("DEBUG", "94"), ("TRACE", "95")] {
        let line = format!("ts {} src: msg", word);
        let format = parse_line_from_scratch(&line).unwrap();
        assert_eq!(
            colorize_line(&line, format),
            format!("\x1b[90mts \x1b[{}m{} \x1b[90msrc: \x1b[0mmsg", code, word)
        );
    }
}

#[test]
fn output_is_nineteen_bytes_longer() {
    for line in ["ts info src: msg", "zëit dEbUg quélle: grüße", "a warn b "] {
        let format = parse_line_from_scratch(line).unwrap();
        let out = colorize_line(line, format);
        assert_eq!(out.len(), line.len() + 19);
        assert_eq!(out.chars().count(), line.chars().count() + 19);
    }
}

#[test]
fn fields_need_not_touch() {
    let format = LineFormat {
        log_type: LogType::Trace,
        tz_start: 1,
        tz_end: 2,
        level_start: 4,
        level_end: 6,
        path_start: 6,
        path_end: 6,
    };
    assert_eq!(colorize_line("0123456789", format), "\x1b[90m1\x1b[95m45\x1b[90m\x1b[0m6789");
}

#[test]
fn empty_fields_at_the_end_of_the_line() {
    let format = LineFormat {
        log_type: LogType::Error,
        tz_start: 0,
        tz_end: 0,
        level_start: 3,
        level_end: 3,
        path_start: 3,
        path_end: 3,
    };
    assert_eq!(colorize_line("abc", format), "\x1b[90m\x1b[91m\x1b[90m\x1b[0m");
    assert_eq!(colorize_line("abcd", format), "\x1b[90m\x1b[91m\x1b[90m\x1b[0md");
}

#[test]
fn line_is_left_as_it_is() {
    let line = "ts info src: tabs\tand \x1b[1mcodes\x1b[0m and trailing  ";
    let format = parse_line_from_scratch(line).unwrap();
    assert_eq!(
        colorize_line(line, format),
        "\x1b[90mts \x1b[92minfo \x1b[90msrc: \x1b[0mtabs\tand \x1b[1mcodes\x1b[0m and trailing  "
    );
}
