//! Line-level log parsing: turns raw log lines into typed entries.
//!
//! A well-formed line is `YYYY-MM-DD HH:MM:SS LEVEL message...`: a 19-character
//! timestamp, one space, a level token (`INFO`, `WARN` or `ERROR`), one space,
//! and the free-text message (possibly empty). A line that does not fit this
//! shape — too short, bad timestamp, or an unrecognized level token — is
//! skipped, and parsing continues with the next line; entries are produced in
//! file order and never re-sorted.

use vstd::prelude::*;

use crate::text::{chars_eq_str, chars_to_string, is_space_char, is_space_char_exec,
    lemma_token_end_bounds, str_to_chars, token_end};

verus! {

/// Severity level of a log entry. A closed set, so that level counts have
/// finitely many possible keys.
#[derive(Clone, Copy, Debug, PartialEq, Eq, Hash, Structural)]
pub enum LogLevel {
    Info,
    Warn,
    Error,
}

impl LogLevel {
    /// The token that encodes this level, as a sequence of characters.
    pub open spec fn spec_token(self) -> Seq<char> {
        match self {
            LogLevel::Info => "INFO"@,
            LogLevel::Warn => "WARN"@,
            LogLevel::Error => "ERROR"@,
        }
    }

    /// The textual token that encodes this level in a log line.
    pub fn as_str(&self) -> (r: &'static str)
        ensures
            r@ == self.spec_token(),
    {
        match self {
            LogLevel::Info => "INFO",
            LogLevel::Warn => "WARN",
            LogLevel::Error => "ERROR",
        }
    }
}

impl View for LogLevel {
    type V = LogLevel;

    open spec fn view(&self) -> LogLevel {
        *self
    }
}

impl DeepView for LogLevel {
    type V = LogLevel;

    open spec fn deep_view(&self) -> LogLevel {
        *self
    }
}

/// A calendar date-time with second precision, kept as plain fields.
/// Ordering is lexicographic over (year, month, day, hour, minute, second).
#[derive(Clone, Copy, Debug, PartialEq, Eq, Hash, Structural)]
pub struct Timestamp {
    pub year: u32,
    pub month: u32,
    pub day: u32,
    pub hour: u32,
    pub minute: u32,
    pub second: u32,
}

/// Chronological order on timestamps: lexicographic over the fields.
pub open spec fn ts_le(a: Timestamp, b: Timestamp) -> bool {
    if a.year != b.year {
        a.year < b.year
    } else if a.month != b.month {
        a.month < b.month
    } else if a.day != b.day {
        a.day < b.day
    } else if a.hour != b.hour {
        a.hour < b.hour
    } else if a.minute != b.minute {
        a.minute < b.minute
    } else {
        a.second <= b.second
    }
}

impl Timestamp {
    /// Whether `self` is at or before `other` in chronological order.
    pub fn le(&self, other: &Timestamp) -> (r: bool)
        ensures
            r == ts_le(*self, *other),
    {
        if self.year != other.year {
            self.year < other.year
        } else if self.month != other.month {
            self.month < other.month
        } else if self.day != other.day {
            self.day < other.day
        } else if self.hour != other.hour {
            self.hour < other.hour
        } else if self.minute != other.minute {
            self.minute < other.minute
        } else {
            self.second <= other.second
        }
    }

    /// This timestamp rendered as `YYYY-MM-DD HH:MM:SS`. Fields wider than
    /// their digit count are reduced to their low-order digits.
    pub fn format(&self) -> (r: String)
        ensures
            r@ == spec_format_timestamp(*self),
    {
        let mut v: Vec<char> = Vec::new();
        v.push(digit_char_exec(self.year / 1000));
        v.push(digit_char_exec(self.year / 100));
        v.push(digit_char_exec(self.year / 10));
        v.push(digit_char_exec(self.year));
        v.push('-');
        v.push(digit_char_exec(self.month / 10));
        v.push(digit_char_exec(self.month));
        v.push('-');
        v.push(digit_char_exec(self.day / 10));
        v.push(digit_char_exec(self.day));
        v.push(' ');
        v.push(digit_char_exec(self.hour / 10));
        v.push(digit_char_exec(self.hour));
        v.push(':');
        v.push(digit_char_exec(self.minute / 10));
        v.push(digit_char_exec(self.minute));
        v.push(':');
        v.push(digit_char_exec(self.second / 10));
        v.push(digit_char_exec(self.second));
        assert(v@ =~= spec_format_timestamp(*self));
        chars_to_string(&v)
    }
}

/// The decimal digit character for `d` (a value in 0..=9).
pub open spec fn digit_char(d: int) -> char {
    if d == 0 {
        '0'
    } else if d == 1 {
        '1'
    } else if d == 2 {
        '2'
    } else if d == 3 {
        '3'
    } else if d == 4 {
        '4'
    } else if d == 5 {
        '5'
    } else if d == 6 {
        '6'
    } else if d == 7 {
        '7'
    } else if d == 8 {
        '8'
    } else {
        '9'
    }
}

/// The digit character of the lowest decimal digit of `d`.
fn digit_char_exec(d: u32) -> (r: char)
    ensures
        r == digit_char(d as int % 10),
{
    let m = d % 10;
    if m == 0 {
        '0'
    } else if m == 1 {
        '1'
    } else if m == 2 {
        '2'
    } else if m == 3 {
        '3'
    } else if m == 4 {
        '4'
    } else if m == 5 {
        '5'
    } else if m == 6 {
        '6'
    } else if m == 7 {
        '7'
    } else if m == 8 {
        '8'
    } else {
        '9'
    }
}

/// A timestamp rendered as `YYYY-MM-DD HH:MM:SS`; fields wider than their
/// digit count contribute only their low-order digits.
pub open spec fn spec_format_timestamp(t: Timestamp) -> Seq<char> {
    seq![
        digit_char((t.year as int / 1000) % 10),
        digit_char((t.year as int / 100) % 10),
        digit_char((t.year as int / 10) % 10),
        digit_char(t.year as int % 10),
        '-',
        digit_char((t.month as int / 10) % 10),
        digit_char(t.month as int % 10),
        '-',
        digit_char((t.day as int / 10) % 10),
        digit_char(t.day as int % 10),
        ' ',
        digit_char((t.hour as int / 10) % 10),
        digit_char(t.hour as int % 10),
        ':',
        digit_char((t.minute as int / 10) % 10),
        digit_char(t.minute as int % 10),
        ':',
        digit_char((t.second as int / 10) % 10),
        digit_char(t.second as int % 10),
    ]
}

/// One parsed log line.
pub struct LogEntry {
    pub timestamp: Timestamp,
    pub level: LogLevel,
    pub message: String,
}

/// The mathematical value of a [`LogEntry`]: the same fields, with the
/// message as a sequence of characters.
#[verifier::ext_equal]
pub struct EntryView {
    pub timestamp: Timestamp,
    pub level: LogLevel,
    pub message: Seq<char>,
}

impl View for LogEntry {
    type V = EntryView;

    open spec fn view(&self) -> EntryView {
        EntryView { timestamp: self.timestamp, level: self.level, message: self.message@ }
    }
}

impl DeepView for LogEntry {
    type V = EntryView;

    open spec fn deep_view(&self) -> EntryView {
        self@
    }
}

impl Clone for LogEntry {
    fn clone(&self) -> (r: Self)
        ensures
            r@ == self@,
    {
        LogEntry { timestamp: self.timestamp, level: self.level, message: self.message.clone() }
    }
}

/// Whether `c` is a decimal digit.
pub open spec fn is_digit(c: char) -> bool {
    48 <= c as u32 && c as u32 <= 57
}

/// The numeric value of a digit character.
pub open spec fn digit_val(c: char) -> int {
    c as u32 - 48
}

/// The timestamp encoded by a 19-character sequence `YYYY-MM-DD HH:MM:SS`,
/// or nothing if the shape or the field ranges are off (month 1..=12,
/// day 1..=31, hour to 23, minute and second to 59).
pub open spec fn spec_parse_timestamp(s: Seq<char>) -> Option<Timestamp> {
    if s.len() != 19 {
        None
    } else if !(is_digit(s[0]) && is_digit(s[1]) && is_digit(s[2]) && is_digit(s[3]) && s[4]
        == '-' && is_digit(s[5]) && is_digit(s[6]) && s[7] == '-' && is_digit(s[8]) && is_digit(
        s[9],
    ) && s[10] == ' ' && is_digit(s[11]) && is_digit(s[12]) && s[13] == ':' && is_digit(s[14])
        && is_digit(s[15]) && s[16] == ':' && is_digit(s[17]) && is_digit(s[18])) {
        None
    } else {
        let year = digit_val(s[0]) * 1000 + digit_val(s[1]) * 100 + digit_val(s[2]) * 10
            + digit_val(s[3]);
        let month = digit_val(s[5]) * 10 + digit_val(s[6]);
        let day = digit_val(s[8]) * 10 + digit_val(s[9]);
        let hour = digit_val(s[11]) * 10 + digit_val(s[12]);
        let minute = digit_val(s[14]) * 10 + digit_val(s[15]);
        let second = digit_val(s[17]) * 10 + digit_val(s[18]);
        if 1 <= month && month <= 12 && 1 <= day && day <= 31 && hour <= 23 && minute <= 59
            && second <= 59 {
            Some(
                Timestamp {
                    year: year as u32,
                    month: month as u32,
                    day: day as u32,
                    hour: hour as u32,
                    minute: minute as u32,
                    second: second as u32,
                },
            )
        } else {
            None
        }
    }
}

/// The digit value of `v[i]`, after checking that it is a digit.
fn read_digit(v: &Vec<char>, i: usize) -> (r: Option<u32>)
    requires
        i < v@.len(),
    ensures
        match r {
            Some(d) => is_digit(v@[i as int]) && d == digit_val(v@[i as int]),
            None => !is_digit(v@[i as int]),
        },
{
    let u = v[i] as u32;
    if 48 <= u && u <= 57 {
        Some(u - 48)
    } else {
        None
    }
}

/// Parses the 19 characters of `v` starting at `off` as a timestamp.
fn parse_timestamp_at(v: &Vec<char>, off: usize) -> (r: Option<Timestamp>)
    requires
        off + 19 <= v@.len(),
    ensures
        r == spec_parse_timestamp(v@.subrange(off as int, off as int + 19)),
{
    let ghost s = v@.subrange(off as int, off as int + 19);
    let n = v.len();
    assert(off + 19 <= n);
    let d0 = read_digit(v, off);
    let d1 = read_digit(v, off + 1);
    let d2 = read_digit(v, off + 2);
    let d3 = read_digit(v, off + 3);
    let d5 = read_digit(v, off + 5);
    let d6 = read_digit(v, off + 6);
    let d8 = read_digit(v, off + 8);
    let d9 = read_digit(v, off + 9);
    let d11 = read_digit(v, off + 11);
    let d12 = read_digit(v, off + 12);
    let d14 = read_digit(v, off + 14);
    let d15 = read_digit(v, off + 15);
    let d17 = read_digit(v, off + 17);
    let d18 = read_digit(v, off + 18);
    match (d0, d1, d2, d3, d5, d6, d8, d9, d11, d12, d14, d15, d17, d18) {
        (
            Some(d0),
            Some(d1),
            Some(d2),
            Some(d3),
            Some(d5),
            Some(d6),
            Some(d8),
            Some(d9),
            Some(d11),
            Some(d12),
            Some(d14),
            Some(d15),
            Some(d17),
            Some(d18),
        ) => {
            if v[off + 4] == '-' && v[off + 7] == '-' && v[off + 10] == ' ' && v[off + 13] == ':'
                && v[off + 16] == ':' {
                let year = d0 * 1000 + d1 * 100 + d2 * 10 + d3;
                let month = d5 * 10 + d6;
                let day = d8 * 10 + d9;
                let hour = d11 * 10 + d12;
                let minute = d14 * 10 + d15;
                let second = d17 * 10 + d18;
                if 1 <= month && month <= 12 && 1 <= day && day <= 31 && hour <= 23 && minute <= 59
                    && second <= 59 {
                    Some(Timestamp { year, month, day, hour, minute, second })
                } else {
                    None
                }
            } else {
                None
            }
        },
        _ => None,
    }
}

/// Parses a string of exactly the shape `YYYY-MM-DD HH:MM:SS` as a timestamp.
pub fn parse_timestamp(s: &str) -> (r: Option<Timestamp>)
    ensures
        r == spec_parse_timestamp(s@),
{
    let v = str_to_chars(s);
    if v.len() != 19 {
        return None;
    }
    let r = parse_timestamp_at(&v, 0);
    assert(v@.subrange(0, 19) =~= s@);
    r
}

/// The level encoded by a level token.
pub open spec fn spec_level_of_token(t: Seq<char>) -> Option<LogLevel> {
    if t == "INFO"@ {
        Some(LogLevel::Info)
    } else if t == "WARN"@ {
        Some(LogLevel::Warn)
    } else if t == "ERROR"@ {
        Some(LogLevel::Error)
    } else {
        None
    }
}

/// The entry encoded by one log line, or nothing for a malformed line:
/// too short, bad timestamp, no space after the timestamp, or an
/// unrecognized level token.
pub open spec fn spec_parse_line(s: Seq<char>) -> Option<EntryView> {
    if s.len() < 21 || s[19] != ' ' {
        None
    } else {
        match spec_parse_timestamp(s.subrange(0, 19)) {
            None => None,
            Some(ts) => {
                let k = token_end(s, 20);
                match spec_level_of_token(s.subrange(20, k)) {
                    None => None,
                    Some(level) => Some(
                        EntryView {
                            timestamp: ts,
                            level,
                            message: if k < s.len() {
                                s.subrange(k + 1, s.len() as int)
                            } else {
                                Seq::empty()
                            },
                        },
                    ),
                }
            },
        }
    }
}

/// Parses one log line into an entry; a malformed line yields nothing.
pub fn parse_line(line: &str) -> (r: Option<LogEntry>)
    ensures
        r.deep_view() == spec_parse_line(line@),
{
    let v = str_to_chars(line);
    let n = v.len();
    if n < 21 {
        return None;
    }
    if v[19] != ' ' {
        return None;
    }
    let ts = match parse_timestamp_at(&v, 0) {
        Some(ts) => ts,
        None => {
            return None;
        },
    };
    // scan to the end of the level token that starts at 20
    let mut k: usize = 20;
    while k < n && !is_space_char_exec(v[k])
        invariant
            n == v@.len(),
            20 <= k <= n,
            token_end(v@, 20) == token_end(v@, k as int),
        decreases n - k,
    {
        k = k + 1;
    }
    assert(token_end(v@, k as int) == k);
    let level = if chars_eq_str(&v, 20, k, "INFO") {
        LogLevel::Info
    } else if chars_eq_str(&v, 20, k, "WARN") {
        LogLevel::Warn
    } else if chars_eq_str(&v, 20, k, "ERROR") {
        LogLevel::Error
    } else {
        assert(spec_level_of_token(v@.subrange(20, k as int)) is None);
        return None;
    };
    let mut msg: Vec<char> = Vec::new();
    let mut p: usize = if k < n {
        k + 1
    } else {
        k
    };
    let ghost m0 = p as int;
    while p < n
        invariant
            n == v@.len(),
            m0 <= p <= n,
            0 <= m0,
            msg@ == v@.subrange(m0, p as int),
        decreases n - p,
    {
        msg.push(v[p]);
        p = p + 1;
        assert(msg@ =~= v@.subrange(m0, p as int));
    }
    let message = chars_to_string(&msg);
    let entry = LogEntry { timestamp: ts, level, message };
    proof {
        let s = v@;
        let ke = token_end(s, 20);
        assert(ke == k);
        if k < n {
            assert(entry@.message =~= s.subrange(ke + 1, s.len() as int));
        } else {
            assert(entry@.message =~= Seq::<char>::empty());
        }
        assert(Some(entry).deep_view() == spec_parse_line(line@));
    }
    Some(entry)
}

/// The entries of a sequence of lines, in order; malformed lines are skipped.
pub open spec fn spec_parse_lines(lines: Seq<Seq<char>>) -> Seq<EntryView>
    decreases lines.len(),
{
    if lines.len() == 0 {
        Seq::empty()
    } else {
        spec_parse_lines(lines.drop_last()) + match spec_parse_line(lines.last()) {
            Some(e) => seq![e],
            None => Seq::empty(),
        }
    }
}

/// Parses log lines into entries.
pub struct LogParser {}

impl LogParser {
    pub fn new() -> (r: Self)
        ensures
            r == (LogParser {  }),
    {
        LogParser {  }
    }

    /// Parses each line in order; malformed lines are skipped, and the
    /// surviving entries keep the file's line order.
    pub fn parse_lines(&self, lines: &Vec<String>) -> (entries: Vec<LogEntry>)
        ensures
            entries.deep_view() == spec_parse_lines(lines.deep_view()),
    {
        let n = lines.len();
        let mut entries: Vec<LogEntry> = Vec::new();
        let mut i: usize = 0;
        while i < n
            invariant
                n == lines@.len(),
                0 <= i <= n,
                entries.deep_view() == spec_parse_lines(lines.deep_view().take(i as int)),
            decreases n - i,
        {
            let ghost prefix = lines.deep_view().take(i as int);
            let ghost next = lines.deep_view().take(i as int + 1);
            proof {
                assert(next.drop_last() =~= prefix);
                assert(next.last() == lines.deep_view()[i as int]);
            }
            match parse_line(lines[i].as_str()) {
                Some(e) => {
                    let ghost before = entries.deep_view();
                    entries.push(e);
                    proof {
                        assert(entries.deep_view() =~= before.push(e@));
                        assert(before.push(e@) =~= spec_parse_lines(next));
                    }
                },
                None => {
                    proof {
                        assert(entries.deep_view() =~= spec_parse_lines(next));
                    }
                },
            }
            i = i + 1;
        }
        proof {
            assert(lines.deep_view().take(n as int) =~= lines.deep_view());
        }
        entries
    }
}

} // verus!
