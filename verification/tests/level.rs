use log_recolour::LogType;

const LEVELS: [(&str, LogType); 5] = [
    ("error", LogType::Error),
    ("warn", LogType::Warn),
    ("info", LogType::Info),
    ("debug", LogType::Debug),
    ("trace", LogType::Trace),
];

/// Every way to write `name` in upper and lower case.
fn casings(name: &str) -> Vec<String> {
    let letters: Vec<char> = name.chars().collect();
    let mut all = Vec::new();
    for mask in 0..(1u32 << letters.len()) {
        let mut word = String::new();
        for (i, c) in letters.iter().enumerate() {
            if mask & (1 << i) != 0 {
                word.push(c.to_ascii_uppercase());
            } else {
                word.push(*c);
            }
        }
        all.push(word);
    }
    all
}

#[test]
fn colour_of_each_level() {
    assert_eq!(LogType::Error.as_colour_str(), "\x1b[91m");
    assert_eq!(LogType::Warn.as_colour_str(), "\x1b[93m");
    assert_eq!(LogType::Info.as_colour_str(), "\x1b[92m");
    assert_eq!(LogType::Debug.as_colour_str(), "\x1b[94m");
    assert_eq!(LogType::Trace.as_colour_str(), "\x1b[95m");
}

#[test]
fn plain_names_are_levels() {
    for (name, level) in LEVELS {
        assert_eq!(LogType::from_field(name), Some(level));
        assert_eq!(LogType::from_field(&name.to_uppercase()), Some(level));
    }
}

#[test]
fn every_casing_is_a_level() {
    for (name, level) in LEVELS {
        for word in casings(name) {
            assert_eq!(LogType::from_field(&word), Some(level), "{}", word);
        }
    }
}

#[test]
fn padding_changes_nothing() {
    for (name, level) in LEVELS {
        for before in ["", " ", "   ", "\t", "\u{a0} \n"] {
            for after in ["", " ", "  ", "\r\n", " \u{3000}"] {
                let field = format!("{}{}{}", before, name.to_uppercase(), after);
                assert_eq!(LogType::from_field(&field), Some(level), "{:?}", field);
            }
        }
    }
}

#[test]
fn other_tokens_are_no_levels() {
    for field in [
        "", " ", "    ", "warning", "err", "inf", "fatal", "information", "debu", "tracer",
        "in fo", "i nfo", "info!", "ınfo", "ＩＮＦＯ", "warn warn", "0info", "error:", "ERRÖR",
        "\u{212a}", "de\u{a0}bug",
    ] {
        assert_eq!(LogType::from_field(field), None, "{:?}", field);
    }
}

#[test]
fn only_ascii_capitals_are_lowered() {
    // The bytes next to the capitals, and characters that lower-case to an
    // ASCII letter by Unicode's rules but not by ASCII's.
    for field in ["@NFO", "[NFO", "`nfo", "{nfo", "\u{212a}arn", "tr\u{c5}ce"] {
        assert_eq!(LogType::from_field(field), None, "{:?}", field);
    }
}

#[test]
fn whitespace_is_what_std_trims() {
    for code in 0..=0x10ffffu32 {
        if let Some(c) = char::from_u32(code) {
            let field = format!("{}warn{}", c, c);
            assert_eq!(
                LogType::from_field(&field).is_some(),
                c.is_whitespace(),
                "U+{:04X}",
                code
            );
        }
    }
}

#[test]
fn classification_agrees_with_trim_and_lowercase() {
    let samples = [
        "INFO", " info ", "\tWarn\n", "trace\u{2003}", "\u{feff}info", "in\u{2009}fo", "DEBUG  ",
        "  error", "eRRoR\u{1680}", "x", "\u{85}\u{85}", "Info\u{200b}",
    ];
    for field in samples {
        let expected = match field.trim().to_ascii_lowercase().as_str() {
            "error" => Some(LogType::Error),
            "warn" => Some(LogType::Warn),
            "info" => Some(LogType::Info),
            "debug" => Some(LogType::Debug),
            "trace" => Some(LogType::Trace),
            _ => None,
        };
        assert_eq!(LogType::from_field(field), expected, "{:?}", field);
    }
}
