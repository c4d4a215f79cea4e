//! The lines of the daemon's log: `time:LEVEL:message`, one per line.

use vstd::prelude::*;

use crate::text::is_digit;

verus! {

/// The severity of a log line.
#[derive(Debug, Clone, Copy, PartialEq, Eq, Structural)]
pub enum LogLevel {
    Debug,
    Info,
    Warn,
    Error,
}

/// The name a log line gives its level.
pub open spec fn level_name(level: LogLevel) -> Seq<char> {
    match level {
        LogLevel::Debug => "DEBUG"@,
        LogLevel::Info => "INFO"@,
        LogLevel::Warn => "WARN"@,
        LogLevel::Error => "ERROR"@,
    }
}

/// The name a log line gives `level`.
pub fn get_log_level(level: LogLevel) -> (r: String)
    ensures
        r@ == level_name(level),
{
    match level {
        LogLevel::Debug => "DEBUG".to_owned(),
        LogLevel::Error => "ERROR".to_owned(),
        LogLevel::Info => "INFO".to_owned(),
        LogLevel::Warn => "WARN".to_owned(),
    }
}

/// The digits `s[i]` and `s[i + 1]`.
pub open spec fn two_digits_at(s: Seq<char>, i: int) -> bool {
    is_digit(s[i]) && is_digit(s[i + 1])
}

/// A year as the format `%Y` writes it: four digits, or a sign and four
/// digits or more.
pub open spec fn is_year_text(y: Seq<char>) -> bool {
    ||| y.len() == 4 && forall|i: int| 0 <= i < 4 ==> is_digit(#[trigger] y[i])
    ||| y.len() >= 5 && (y[0] == '+' || y[0] == '-') && forall|i: int|
        1 <= i < y.len() ==> is_digit(#[trigger] y[i])
}

/// A local time as the log writes it, `%Y年%m月%d日 %H:%M:%S`: a year, then
/// two digits each for the month, day, hour, minute and second.
pub open spec fn is_log_timestamp(s: Seq<char>) -> bool {
    let n = s.len();
    &&& n >= 20
    &&& is_year_text(s.take(n - 16))
    &&& s[n - 16] == '\u{5e74}'
    &&& two_digits_at(s, n - 15)
    &&& s[n - 13] == '\u{6708}'
    &&& two_digits_at(s, n - 12)
    &&& s[n - 10] == '\u{65e5}'
    &&& s[n - 9] == ' '
    &&& two_digits_at(s, n - 8)
    &&& s[n - 6] == ':'
    &&& two_digits_at(s, n - 5)
    &&& s[n - 3] == ':'
    &&& two_digits_at(s, n - 2)
}

/// The line that records `mess` at `level` and local time `time`.
pub open spec fn log_line(time: Seq<char>, level: LogLevel, mess: Seq<char>) -> Seq<char> {
    time + seq![':'] + level_name(level) + seq![':'] + mess + seq!['\n']
}

/// The local time, from `chrono::Local::now()` formatted with
/// `%Y年%m月%d日 %H:%M:%S`. Which time it is is left open; the contract
/// claims only the shape that chrono's formatting code gives every date:
/// the year as four digits, or signed where it lies outside 0 to 9999,
/// and the other fields as two digits each.
#[verifier::external_body]
fn get_log_time() -> (r: String)
    ensures
        is_log_timestamp(r@),
{
    chrono::Local::now().format("%Y\u{5e74}%m\u{6708}%d\u{65e5} %H:%M:%S").to_string()
}

/// The line that records `mess` at `level` and the local time `time`:
/// `time:LEVEL:mess` and a newline.
pub fn format_log_line(time: &str, level: LogLevel, mess: &str) -> (r: String)
    ensures
        r@ == log_line(time@, level, mess@),
{
    let mut r = time.to_owned();
    r.append(":");
    let name = get_log_level(level);
    r.append(name.as_str());
    r.append(":");
    r.append(mess);
    r.append("\n");
    proof {
        reveal_strlit(":");
        reveal_strlit("\n");
    }
    assert(r@ =~= log_line(time@, level, mess@));
    r
}

/// The line that records `mess` at `level` now.
pub fn compose_log_line(level: LogLevel, mess: &str) -> (r: String)
    ensures
        exists|time: Seq<char>| is_log_timestamp(time) && r@ == log_line(time, level, mess@),
{
    let time = get_log_time();
    format_log_line(time.as_str(), level, mess)
}

/// Different levels have different names, so a log line tells its level.
pub proof fn lemma_level_names_distinct(a: LogLevel, b: LogLevel)
    requires
        a != b,
    ensures
        level_name(a) != level_name(b),
{
    reveal_strlit("DEBUG");
    reveal_strlit("INFO");
    reveal_strlit("WARN");
    reveal_strlit("ERROR");
    match a {
        LogLevel::Debug => {
            assert(level_name(a)[0] == 'D');
        },
        LogLevel::Info => {
            assert(level_name(a)[0] == 'I');
        },
        LogLevel::Warn => {
            assert(level_name(a)[0] == 'W');
        },
        LogLevel::Error => {
            assert(level_name(a)[0] == 'E');
        },
    }
    match b {
        LogLevel::Debug => {
            assert(level_name(b)[0] == 'D');
        },
        LogLevel::Info => {
            assert(level_name(b)[0] == 'I');
        },
        LogLevel::Warn => {
            assert(level_name(b)[0] == 'W');
        },
        LogLevel::Error => {
            assert(level_name(b)[0] == 'E');
        },
    }
}


/// The level field of every line is its own level's name, spelled out:
/// `time:DEBUG:mess`, `time:INFO:mess`, `time:WARN:mess`, `time:ERROR:mess`,
/// each followed by a newline.
pub proof fn lemma_log_line_names_its_level(time: Seq<char>, level: LogLevel, mess: Seq<char>)
    ensures
        level == LogLevel::Debug ==> log_line(time, level, mess) == time + seq![
            ':',
            'D',
            'E',
            'B',
            'U',
            'G',
            ':',
        ] + mess + seq!['\n'],
        level == LogLevel::Info ==> log_line(time, level, mess) == time + seq![
            ':',
            'I',
            'N',
            'F',
            'O',
            ':',
        ] + mess + seq!['\n'],
        level == LogLevel::Warn ==> log_line(time, level, mess) == time + seq![
            ':',
            'W',
            'A',
            'R',
            'N',
            ':',
        ] + mess + seq!['\n'],
        level == LogLevel::Error ==> log_line(time, level, mess) == time + seq![
            ':',
            'E',
            'R',
            'R',
            'O',
            'R',
            ':',
        ] + mess + seq!['\n'],
{
    reveal_strlit("DEBUG");
    reveal_strlit("INFO");
    reveal_strlit("WARN");
    reveal_strlit("ERROR");
    let name = level_name(level);
    assert(log_line(time, level, mess) =~= time + (seq![':'] + name + seq![':']) + mess
        + seq!['\n']);
    match level {
        LogLevel::Debug => {
            assert(seq![':'] + name + seq![':'] =~= seq![':', 'D', 'E', 'B', 'U', 'G', ':']);
        },
        LogLevel::Info => {
            assert(seq![':'] + name + seq![':'] =~= seq![':', 'I', 'N', 'F', 'O', ':']);
        },
        LogLevel::Warn => {
            assert(seq![':'] + name + seq![':'] =~= seq![':', 'W', 'A', 'R', 'N', ':']);
        },
        LogLevel::Error => {
            assert(seq![':'] + name + seq![':'] =~= seq![':', 'E', 'R', 'R', 'O', 'R', ':']);
        },
    }
}

/// A line keeps the whole message, however long: it starts with the time,
/// ends with the message and a newline, and is exactly as long as its
/// parts and the three separators.
pub proof fn lemma_log_line_keeps_message(time: Seq<char>, level: LogLevel, mess: Seq<char>)
    ensures
        log_line(time, level, mess).len() == time.len() + level_name(level).len() + mess.len()
            + 3,
        log_line(time, level, mess).take(time.len() as int) == time,
        log_line(time, level, mess).skip(
            log_line(time, level, mess).len() - mess.len() - 1,
        ) == mess.push('\n'),
{
    let line = log_line(time, level, mess);
    let head = time + seq![':'] + level_name(level) + seq![':'];
    assert(line =~= head + mess.push('\n'));
    assert(line.take(time.len() as int) =~= time);
    assert(line.skip(line.len() - mess.len() - 1) =~= mess.push('\n'));
}

} // verus!
