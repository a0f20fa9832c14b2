//! The severity level of a log line: how it is read from the level field of a
//! line, and the colour it is shown in.

use vstd::prelude::*;

verus! {

/// The severity of a log line.
#[derive(Clone, Copy, Debug, PartialEq, Eq, Structural)]
pub enum LogType {
    Error,
    Warn,
    Info,
    Debug,
    Trace,
}

/// True for the characters that Unicode marks as `White_Space`.
pub open spec fn is_whitespace(c: char) -> bool {
    let u = c as u32;
    ||| 0x09 <= u <= 0x0d
    ||| u == 0x20
    ||| u == 0x85
    ||| u == 0xa0
    ||| u == 0x1680
    ||| 0x2000 <= u <= 0x200a
    ||| u == 0x2028
    ||| u == 0x2029
    ||| u == 0x202f
    ||| u == 0x205f
    ||| u == 0x3000
}

/// `text` without the whitespace it starts with.
pub open spec fn trim_start(text: Seq<char>) -> Seq<char>
    decreases text.len(),
{
    if text.len() > 0 && is_whitespace(text[0]) {
        trim_start(text.drop_first())
    } else {
        text
    }
}

/// `text` without the whitespace it ends with.
pub open spec fn trim_end(text: Seq<char>) -> Seq<char>
    decreases text.len(),
{
    if text.len() > 0 && is_whitespace(text.last()) {
        trim_end(text.drop_last())
    } else {
        text
    }
}

/// `text` without the whitespace around it.
pub open spec fn trimmed(text: Seq<char>) -> Seq<char> {
    trim_end(trim_start(text))
}

/// The lower-case form of an ASCII capital letter; any other character unchanged.
pub open spec fn to_ascii_lower(c: char) -> char {
    if 'A' <= c <= 'Z' {
        ((c as u8 + 32) as u8) as char
    } else {
        c
    }
}

/// `text` with each ASCII capital letter replaced by its lower-case form.
pub open spec fn lowered(text: Seq<char>) -> Seq<char> {
    text.map_values(|c: char| to_ascii_lower(c))
}

/// The level that a lower-case name stands for.
pub open spec fn level_named(name: Seq<char>) -> Option<LogType> {
    if name == LogType::Error.name() {
        Some(LogType::Error)
    } else if name == LogType::Warn.name() {
        Some(LogType::Warn)
    } else if name == LogType::Info.name() {
        Some(LogType::Info)
    } else if name == LogType::Debug.name() {
        Some(LogType::Debug)
    } else if name == LogType::Trace.name() {
        Some(LogType::Trace)
    } else {
        None
    }
}

/// The level that the level field of a line shows: the field is trimmed and
/// lower-cased, and what is left must be the name of a level.
pub open spec fn level_of_field(field: Seq<char>) -> Option<LogType> {
    level_named(lowered(trimmed(field)))
}

/// True when `text` holds nothing but whitespace.
pub open spec fn all_whitespace(text: Seq<char>) -> bool {
    forall|i: int| 0 <= i < text.len() ==> is_whitespace(#[trigger] text[i])
}

/// Whitespace in front of a text is trimmed away with the text's own.
pub proof fn lemma_trim_start_skips(padding: Seq<char>, text: Seq<char>)
    requires
        all_whitespace(padding),
    ensures
        trim_start(padding + text) == trim_start(text),
    decreases padding.len(),
{
    if padding.len() == 0 {
        assert(padding + text =~= text);
    } else {
        assert((padding + text)[0] == padding[0]);
        assert((padding + text).drop_first() =~= padding.drop_first() + text);
        lemma_trim_start_skips(padding.drop_first(), text);
    }
}

/// Whitespace behind a text is trimmed away with the text's own.
pub proof fn lemma_trim_end_skips(text: Seq<char>, padding: Seq<char>)
    requires
        all_whitespace(padding),
    ensures
        trim_end(text + padding) == trim_end(text),
    decreases padding.len(),
{
    if padding.len() == 0 {
        assert(text + padding =~= text);
    } else {
        assert((text + padding).last() == padding.last());
        assert((text + padding).drop_last() =~= text + padding.drop_last());
        lemma_trim_end_skips(text, padding.drop_last());
    }
}

/// Trimming takes whitespace from the two ends of a text and nothing else:
/// the text is what is left of it, with whitespace before and behind.
pub proof fn lemma_trimmed_is_core(text: Seq<char>)
    ensures
        exists|before: Seq<char>, after: Seq<char>|
            #![trigger before + trimmed(text) + after]
            {
                &&& all_whitespace(before)
                &&& all_whitespace(after)
                &&& text == before + trimmed(text) + after
            },
        trimmed(text).len() > 0 ==> !is_whitespace(trimmed(text)[0]) && !is_whitespace(
            trimmed(text).last(),
        ),
{
    lemma_trim_start_is_suffix(text);
    let rest = trim_start(text);
    lemma_trim_end_is_prefix(rest);
    let core = trim_end(rest);
    let before = text.subrange(0, text.len() - rest.len());
    let after = rest.subrange(core.len() as int, rest.len() as int);
    assert(core == trimmed(text));
    assert(text =~= before + trimmed(text) + after);
    if core.len() > 0 {
        assert(core[0] == rest[0]);
    }
}

/// What `trim_start` leaves is the end of the text; what it takes is
/// whitespace; and what it leaves does not start with whitespace.
pub proof fn lemma_trim_start_is_suffix(text: Seq<char>)
    ensures
        trim_start(text).len() <= text.len(),
        trim_start(text) == text.subrange(text.len() - trim_start(text).len(), text.len() as int),
        all_whitespace(text.subrange(0, text.len() - trim_start(text).len())),
        trim_start(text).len() > 0 ==> !is_whitespace(trim_start(text)[0]),
    decreases text.len(),
{
    if text.len() > 0 && is_whitespace(text[0]) {
        let rest = text.drop_first();
        lemma_trim_start_is_suffix(rest);
        let kept = trim_start(text);
        let cut = text.len() - kept.len();
        assert(kept =~= text.subrange(cut, text.len() as int));
        assert forall|i: int| 0 <= i < cut implies is_whitespace(
            #[trigger] text.subrange(0, cut)[i],
        ) by {
            if i > 0 {
                assert(text.subrange(0, cut)[i] == rest.subrange(0, cut - 1)[i - 1]);
            }
        }
    } else {
        assert(text =~= text.subrange(0, text.len() as int));
    }
}

/// What `trim_end` leaves is the start of the text; what it takes is
/// whitespace; and what it leaves does not end with whitespace.
pub proof fn lemma_trim_end_is_prefix(text: Seq<char>)
    ensures
        trim_end(text).len() <= text.len(),
        trim_end(text) == text.subrange(0, trim_end(text).len() as int),
        all_whitespace(text.subrange(trim_end(text).len() as int, text.len() as int)),
        trim_end(text).len() > 0 ==> !is_whitespace(trim_end(text).last()),
    decreases text.len(),
{
    if text.len() > 0 && is_whitespace(text.last()) {
        let rest = text.drop_last();
        lemma_trim_end_is_prefix(rest);
        let kept = trim_end(text);
        let cut = kept.len() as int;
        assert(kept =~= text.subrange(0, cut));
        assert forall|i: int| 0 <= i < text.len() - cut implies is_whitespace(
            #[trigger] text.subrange(cut, text.len() as int)[i],
        ) by {
            if i < text.len() - cut - 1 {
                assert(text.subrange(cut, text.len() as int)[i] == rest.subrange(
                    cut,
                    rest.len() as int,
                )[i]);
            }
        }
    } else {
        assert(text =~= text.subrange(0, text.len() as int));
    }
}

/// Whitespace behind a text changes nothing in what trimming leaves of it.
pub proof fn lemma_trimmed_skips(text: Seq<char>, padding: Seq<char>)
    requires
        all_whitespace(padding),
    ensures
        trimmed(text + padding) == trimmed(text),
    decreases text.len(),
{
    if text.len() == 0 {
        assert(text + padding =~= padding + text);
        lemma_trim_start_skips(padding, text);
    } else if is_whitespace(text[0]) {
        assert((text + padding)[0] == text[0]);
        assert((text + padding).drop_first() =~= text.drop_first() + padding);
        lemma_trimmed_skips(text.drop_first(), padding);
    } else {
        assert((text + padding)[0] == text[0]);
        lemma_trim_end_skips(text, padding);
    }
}

/// A field that names a level holds four characters or more.
pub proof fn lemma_level_field_len(field: Seq<char>)
    ensures
        level_of_field(field) is Some ==> field.len() >= 4,
{
    lemma_names();
    lemma_trim_start_is_suffix(field);
    lemma_trim_end_is_prefix(trim_start(field));
    let name = lowered(trimmed(field));
    assert(name.len() == trimmed(field).len());
    if let Some(level) = level_of_field(field) {
        assert(name == level.name());
        assert(name.len() >= 4);
    }
}

/// Each level has a name of its own, and `level_named` knows each by it.
pub proof fn lemma_level_named(name: Seq<char>, level: LogType)
    ensures
        level_named(name) == Some(level) <==> name == level.name(),
{
    lemma_names();
}

/// The names of the levels, letter by letter.
pub proof fn lemma_names()
    ensures
        LogType::Error.name() == seq!['e', 'r', 'r', 'o', 'r'],
        LogType::Warn.name() == seq!['w', 'a', 'r', 'n'],
        LogType::Info.name() == seq!['i', 'n', 'f', 'o'],
        LogType::Debug.name() == seq!['d', 'e', 'b', 'u', 'g'],
        LogType::Trace.name() == seq!['t', 'r', 'a', 'c', 'e'],
{
    reveal_strlit("error");
    reveal_strlit("warn");
    reveal_strlit("info");
    reveal_strlit("debug");
    reveal_strlit("trace");
    assert(LogType::Error.name() =~= seq!['e', 'r', 'r', 'o', 'r']);
    assert(LogType::Warn.name() =~= seq!['w', 'a', 'r', 'n']);
    assert(LogType::Info.name() =~= seq!['i', 'n', 'f', 'o']);
    assert(LogType::Debug.name() =~= seq!['d', 'e', 'b', 'u', 'g']);
    assert(LogType::Trace.name() =~= seq!['t', 'r', 'a', 'c', 'e']);
}

/// The name of a level, in whatever case and with whatever whitespace
/// around it, is read as that level.
pub proof fn lemma_padded_name_is_level(
    before: Seq<char>,
    token: Seq<char>,
    after: Seq<char>,
    level: LogType,
)
    requires
        all_whitespace(before),
        all_whitespace(after),
        lowered(token) == level.name(),
    ensures
        level_of_field(before + token + after) == Some(level),
{
    lemma_names();
    let name = level.name();
    assert(token.len() == name.len());
    assert(lowered(token)[0] == to_ascii_lower(token[0]));
    assert(lowered(token).last() == to_ascii_lower(token.last()));
    assert(!is_whitespace(token[0]));
    assert(!is_whitespace(token.last()));
    assert(before + token + after =~= before + (token + after));
    lemma_trim_start_skips(before, token + after);
    assert((token + after)[0] == token[0]);
    lemma_trim_end_skips(token, after);
    lemma_level_named(lowered(token), level);
}

/// A field is read as a level only where it is the name of that level, in
/// whatever case, with nothing but whitespace around it.
pub proof fn lemma_level_is_padded_name(field: Seq<char>, level: LogType)
    requires
        level_of_field(field) == Some(level),
    ensures
        exists|before: Seq<char>, token: Seq<char>, after: Seq<char>|
            #![trigger before + token + after]
            {
                &&& all_whitespace(before)
                &&& all_whitespace(after)
                &&& lowered(token) == level.name()
                &&& field == before + token + after
            },
{
    lemma_trimmed_is_core(field);
    lemma_level_named(lowered(trimmed(field)), level);
    let (before, after) = choose|before: Seq<char>, after: Seq<char>|
        #![trigger before + trimmed(field) + after]
        {
            &&& all_whitespace(before)
            &&& all_whitespace(after)
            &&& field == before + trimmed(field) + after
        };
    assert(field == before + trimmed(field) + after);
}

fn is_whitespace_char(c: char) -> (white: bool)
    ensures
        white == is_whitespace(c),
{
    let u: u32 = c as u32;
    (0x09 <= u && u <= 0x0d) || u == 0x20 || u == 0x85 || u == 0xa0 || u == 0x1680 || (0x2000 <= u
        && u <= 0x200a) || u == 0x2028 || u == 0x2029 || u == 0x202f || u == 0x205f || u == 0x3000
}

fn ascii_lower(c: char) -> (lower: char)
    ensures
        lower == to_ascii_lower(c),
{
    if 'A' <= c && c <= 'Z' {
        (c as u8 + 32) as char
    } else {
        c
    }
}

impl LogType {
    /// The name of the level, in lower case.
    pub open spec fn name(self) -> Seq<char> {
        match self {
            LogType::Error => "error"@,
            LogType::Warn => "warn"@,
            LogType::Info => "info"@,
            LogType::Debug => "debug"@,
            LogType::Trace => "trace"@,
        }
    }

    /// The escape sequence that switches a terminal to the colour of the level.
    pub open spec fn colour_code(self) -> Seq<char> {
        match self {
            LogType::Error => "\x1b[91m"@,
            LogType::Warn => "\x1b[93m"@,
            LogType::Info => "\x1b[92m"@,
            LogType::Debug => "\x1b[94m"@,
            LogType::Trace => "\x1b[95m"@,
        }
    }

    /// The escape sequence that switches a terminal to the colour of the level.
    pub fn as_colour_str(&self) -> (code: &'static str)
        ensures
            code@ == self.colour_code(),
    {
        match self {
            LogType::Error => "\x1b[91m",  // red
            LogType::Warn => "\x1b[93m",  // yellow
            LogType::Info => "\x1b[92m",  // green
            LogType::Debug => "\x1b[94m",  // blue
            LogType::Trace => "\x1b[95m",  // purple
        }
    }

    /// Reads the level from the level field of a line.
    pub fn from_field(field: &str) -> (level: Option<LogType>)
        ensures
            level == level_of_field(field@),
    {
        let chars = collect_chars(field);
        let n = chars.len();
        let mut start: usize = 0;
        assert(chars@.subrange(0, n as int) == chars@);
        while start < n && is_whitespace_char(chars[start])
            invariant
                start <= n == chars.len(),
                trim_start(chars@) == trim_start(chars@.subrange(start as int, n as int)),
            decreases n - start,
        {
            assert(chars@.subrange(start as int, n as int).drop_first() == chars@.subrange(
                start + 1,
                n as int,
            ));
            start += 1;
        }
        let mut end: usize = n;
        while end > start && is_whitespace_char(chars[end - 1])
            invariant
                start <= end <= n == chars.len(),
                trimmed(chars@) == trim_end(chars@.subrange(start as int, end as int)),
            decreases end - start,
        {
            assert(chars@.subrange(start as int, end as int).drop_last() == chars@.subrange(
                start as int,
                end - 1,
            ));
            end -= 1;
        }
        classify_token(&chars, start, end)
    }
}

/// The characters of `field`, one by one.
fn collect_chars(field: &str) -> (chars: Vec<char>)
    ensures
        chars@ == field@,
{
    let mut chars: Vec<char> = Vec::new();
    let it = field.chars();
    for c in iter: it
        invariant
            chars@ == iter.seq().take(iter.index()),
    {
        chars.push(c);
    }
    chars
}

/// Names the level that the characters `[start, end)` of `chars` spell, in
/// whatever case.
fn classify_token(chars: &Vec<char>, start: usize, end: usize) -> (level: Option<LogType>)
    requires
        start <= end <= chars.len(),
    ensures
        level == level_named(lowered(chars@.subrange(start as int, end as int))),
{
    proof {
        lemma_names();
    }
    let ghost token = lowered(chars@.subrange(start as int, end as int));
    let len = end - start;
    assert(token.len() == len);
    if len == 4 {
        let a = ascii_lower(chars[start]);
        let b = ascii_lower(chars[start + 1]);
        let c = ascii_lower(chars[start + 2]);
        let d = ascii_lower(chars[start + 3]);
        assert(token =~= seq![a, b, c, d]);
        if a == 'w' && b == 'a' && c == 'r' && d == 'n' {
            assert(token =~= LogType::Warn.name());
            Some(LogType::Warn)
        } else if a == 'i' && b == 'n' && c == 'f' && d == 'o' {
            assert(token =~= LogType::Info.name());
            Some(LogType::Info)
        } else {
            None
        }
    } else if len == 5 {
        let a = ascii_lower(chars[start]);
        let b = ascii_lower(chars[start + 1]);
        let c = ascii_lower(chars[start + 2]);
        let d = ascii_lower(chars[start + 3]);
        let e = ascii_lower(chars[start + 4]);
        assert(token =~= seq![a, b, c, d, e]);
        if a == 'e' && b == 'r' && c == 'r' && d == 'o' && e == 'r' {
            assert(token =~= LogType::Error.name());
            Some(LogType::Error)
        } else if a == 'd' && b == 'e' && c == 'b' && d == 'u' && e == 'g' {
            assert(token =~= LogType::Debug.name());
            Some(LogType::Debug)
        } else if a == 't' && b == 'r' && c == 'a' && d == 'c' && e == 'e' {
            assert(token =~= LogType::Trace.name());
            Some(LogType::Trace)
        } else {
            None
        }
    } else {
        None
    }
}

} // verus!
