use vstd::prelude::*;
use vstd::string::*;
use chrono::Datelike;

verus! {

/// The level of a log record.
#[derive(Clone, Copy, PartialEq, Eq, Structural)]
pub enum LogLevel {
    Error,
    Warn,
    Info,
    Debug,
    Trace,
}

/// Only information, warnings and errors are written.
pub fn level_enabled(level: LogLevel) -> (b: bool)
    ensures
        b == (level is Info || level is Warn || level is Error),
{
    match level {
        LogLevel::Info | LogLevel::Warn | LogLevel::Error => true,
        _ => false,
    }
}

/// The part of a log file's name that names its level, for the levels that have a file.
pub open spec fn level_file_part(level: LogLevel) -> Option<Seq<char>> {
    match level {
        LogLevel::Info => Some("info"@),
        LogLevel::Warn => Some("warn"@),
        LogLevel::Error => Some("error"@),
        _ => None,
    }
}

/// The level as a record prints it.
pub open spec fn level_label(level: LogLevel) -> Seq<char> {
    match level {
        LogLevel::Error => "ERROR"@,
        LogLevel::Warn => "WARN"@,
        LogLevel::Info => "INFO"@,
        LogLevel::Debug => "DEBUG"@,
        LogLevel::Trace => "TRACE"@,
    }
}

fn level_label_text(level: LogLevel) -> (r: &'static str)
    ensures
        r@ == level_label(level),
{
    match level {
        LogLevel::Error => "ERROR",
        LogLevel::Warn => "WARN",
        LogLevel::Info => "INFO",
        LogLevel::Debug => "DEBUG",
        LogLevel::Trace => "TRACE",
    }
}

/// The name of the log file of a day (`YYYY-MM-DD`) and level: `<date>-<level>.log`.
pub open spec fn spec_log_file_name(date: Seq<char>, part: Seq<char>) -> Seq<char> {
    date + "-"@ + part + ".log"@
}

pub open spec fn msg_unsupported_level() -> Seq<char> {
    "unsupported log level"@
}

/// The file that a record of `level` on `date` goes to; the levels below
/// information have none.
pub fn log_file_name(date: &String, level: LogLevel) -> (r: Result<String, String>)
    ensures
        match level_file_part(level) {
            Some(part) => r matches Ok(n) && n@ == spec_log_file_name(date@, part),
            None => r matches Err(m) && m@ == msg_unsupported_level(),
        },
{
    let part = match level {
        LogLevel::Info => "info",
        LogLevel::Warn => "warn",
        LogLevel::Error => "error",
        _ => {
            return Err("unsupported log level".to_owned());
        },
    };
    let mut r = crate::text::concat3(date.as_str(), "-", part);
    r.append(".log");
    Ok(r)
}

/// The three files of a day, in the order information, warnings, errors.
pub fn today_log_file_names(date: &String) -> (r: Vec<String>)
    ensures
        r@.len() == 3,
        r@[0]@ == spec_log_file_name(date@, "info"@),
        r@[1]@ == spec_log_file_name(date@, "warn"@),
        r@[2]@ == spec_log_file_name(date@, "error"@),
{
    let mut r: Vec<String> = Vec::new();
    let a = log_file_name(date, LogLevel::Info);
    let b = log_file_name(date, LogLevel::Warn);
    let c = log_file_name(date, LogLevel::Error);
    match (a, b, c) {
        (Ok(x), Ok(y), Ok(z)) => {
            r.push(x);
            r.push(y);
            r.push(z);
        },
        _ => {},
    }
    r
}

/// One line of a log file: `[<time>][<LEVEL>][<target>] <message>` and a line feed.
pub open spec fn spec_log_line(timestamp: Seq<char>, level: LogLevel, target: Seq<char>, message: Seq<char>) -> Seq<char> {
    "["@ + timestamp + "]["@ + level_label(level) + "]["@ + target + "] "@ + message + "\n"@
}

/// The file and the line of one record; records below information have no file.
pub fn format_log_line(date: &String, timestamp: &String, level: LogLevel, target: &String, message: &String) -> (r:
    Result<(String, String), String>)
    ensures
        match level_file_part(level) {
            Some(part) => r matches Ok((n, l)) && n@ == spec_log_file_name(date@, part) && l@ == spec_log_line(
                timestamp@,
                level,
                target@,
                message@,
            ),
            None => r matches Err(m) && m@ == msg_unsupported_level(),
        },
{
    let name = match log_file_name(date, level) {
        Ok(n) => n,
        Err(e) => {
            return Err(e);
        },
    };
    let mut line = crate::text::concat5("[", timestamp.as_str(), "][", level_label_text(level), "][");
    line.append(target.as_str());
    line.append("] ");
    line.append(message.as_str());
    line.append("\n");
    Ok((name, line))
}

/// The day number (counted from 1 January of year 1) of a `YYYY-MM-DD` date
/// as chrono reads it, or `None` when chrono does not read it as a date.
pub uninterp spec fn spec_parse_date_days(text: Seq<char>) -> Option<i32>;

/// Reads a date with `chrono::NaiveDate::parse_from_str(text, "%Y-%m-%d")` and
/// gives its day number (`Datelike::num_days_from_ce`). The result is named
/// `spec_parse_date_days` of the text.
#[verifier::external_body]
fn parse_date_days(text: &str) -> (r: Option<i32>)
    ensures
        r == spec_parse_date_days(text@),
{
    match chrono::NaiveDate::parse_from_str(text, "%Y-%m-%d") {
        Ok(d) => Some(d.num_days_from_ce()),
        Err(_) => None,
    }
}

/// The most days `chrono::TimeDelta::days` takes without panicking.
pub open spec fn max_delta_days() -> int {
    106751991167
}

/// The day number of `NaiveDate::MIN`, 1 January 262144 BCE, in chrono.
pub open spec fn min_chrono_day() -> int {
    -95746129
}

/// The day number of `NaiveDate::MAX`, 31 December 262142 CE, in chrono.
pub open spec fn max_chrono_day() -> int {
    95745399
}

/// A day number that chrono has a date for.
pub open spec fn in_chrono_range(d: int) -> bool {
    min_chrono_day() <= d <= max_chrono_day()
}

/// The day `days` days before day `today` (day numbers as above), with
/// chrono's `NaiveDate::from_num_days_from_ce_opt(today)` and
/// `checked_sub_signed(TimeDelta::days(days))`: it is that many days earlier,
/// and there is one exactly when both days lie between `NaiveDate::MIN` and
/// `NaiveDate::MAX`.
#[verifier::external_body]
fn days_before(today: i32, days: i64) -> (r: Option<i32>)
    requires
        0 <= days <= max_delta_days(),
    ensures
        r is Some <==> (in_chrono_range(today as int) && in_chrono_range(today - days)),
        r matches Some(c) ==> c == today - days,
{
    match chrono::NaiveDate::from_num_days_from_ce_opt(today) {
        Some(d) => match d.checked_sub_signed(chrono::TimeDelta::days(days)) {
            Some(c) => Some(c.num_days_from_ce()),
            None => None,
        },
        None => None,
    }
}

/// The position of the last `c` in `s`.
pub open spec fn last_index_of(s: Seq<char>, c: char) -> Option<nat>
    decreases s.len(),
{
    if s.len() == 0 {
        None
    } else if s.last() == c {
        Some((s.len() - 1) as nat)
    } else {
        last_index_of(s.drop_last(), c)
    }
}

/// The day and level of a log file's name `<date>-<level>.log`, split at the
/// last `-`, when the level is one that has files and the date reads as one.
pub open spec fn spec_parse_log_file_name(name: Seq<char>) -> Option<(i32, Seq<char>)> {
    match last_index_of(name, '-') {
        None => None,
        Some(d) => {
            let date_part = name.take(d as int);
            let level_part = name.skip(d + 1 as int);
            if level_part.len() >= 4 && level_part.skip(level_part.len() - 4) == ".log"@ {
                let level = level_part.take(level_part.len() - 4);
                if level == "info"@ || level == "warn"@ || level == "error"@ {
                    match spec_parse_date_days(date_part) {
                        Some(day) => Some((day, level)),
                        None => None,
                    }
                } else {
                    None
                }
            } else {
                None
            }
        },
    }
}

fn last_dash(s: &str) -> (r: Option<usize>)
    ensures
        r matches Some(i) ==> last_index_of(s@, '-') == Some(i as nat) && i < s@.len(),
        r is None ==> last_index_of(s@, '-') is None,
{
    let n = s.unicode_len();
    let mut j: usize = n;
    proof {
        assert(s@.take(n as int) =~= s@);
    }
    while j > 0 && s.get_char(j - 1) != '-'
        invariant
            n == s@.len(),
            j <= n,
            last_index_of(s@.take(j as int), '-') == last_index_of(s@, '-'),
        decreases j,
    {
        proof {
            let t = s@.take(j as int);
            assert(t.last() == s@[j - 1]);
            assert(t.drop_last() =~= s@.take(j - 1));
        }
        j = j - 1;
    }
    if j == 0 {
        proof {
            assert(s@.take(0) =~= Seq::<char>::empty());
        }
        None
    } else {
        proof {
            let t = s@.take(j as int);
            assert(t.last() == s@[j - 1]);
        }
        Some(j - 1)
    }
}

/// Reads the day and level out of a log file's name (`spec_parse_log_file_name`).
pub fn parse_log_file_name(name: &str) -> (r: Option<(i32, String)>)
    ensures
        r.deep_view() == spec_parse_log_file_name(name@),
{
    let d = match last_dash(name) {
        Some(d) => d,
        None => {
            return None;
        },
    };
    let n = name.unicode_len();
    let date_part = name.substring_char(0, d);
    let level_part = name.substring_char(d + 1, n);
    let m = level_part.unicode_len();
    proof {
        reveal_strlit(".log");
        reveal_strlit("info");
        reveal_strlit("warn");
        reveal_strlit("error");
        assert(date_part@ =~= name@.take(d as int));
        assert(level_part@ =~= name@.skip(d + 1));
    }
    if m < 4 {
        return None;
    }
    let tail = level_part.substring_char(m - 4, m);
    let is_log = tail.get_char(0) == '.' && tail.get_char(1) == 'l' && tail.get_char(2) == 'o' && tail.get_char(3) == 'g';
    proof {
        assert(tail@ =~= level_part@.skip(m - 4));
        if is_log {
            assert(tail@ =~= ".log"@);
        } else {
            assert(tail@ != ".log"@) by {
                if tail@ == ".log"@ {
                    assert(tail@[0] == '.' && tail@[1] == 'l' && tail@[2] == 'o' && tail@[3] == 'g');
                }
            }
        }
    }
    if !is_log {
        return None;
    }
    let level = level_part.substring_char(0, m - 4).to_owned();
    proof {
        assert(level@ =~= level_part@.take(m - 4));
    }
    let info = "info".to_owned();
    let warn = "warn".to_owned();
    let error = "error".to_owned();
    if !(level == info || level == warn || level == error) {
        return None;
    }
    match parse_date_days(date_part) {
        Some(day) => Some((day, level)),
        None => None,
    }
}

/// The log files among `names` from before day `cutoff`, in their given order.
pub open spec fn expired_logs(names: Seq<Seq<char>>, cutoff: int) -> Seq<Seq<char>>
    decreases names.len(),
{
    if names.len() == 0 {
        Seq::empty()
    } else {
        let rest = expired_logs(names.drop_last(), cutoff);
        match spec_parse_log_file_name(names.last()) {
            Some((day, _)) => if day < cutoff {
                rest.push(names.last())
            } else {
                rest
            },
            None => rest,
        }
    }
}

/// The log files among `names` that are older than day `cutoff`.
pub fn expired_log_files(names: &Vec<String>, cutoff: i32) -> (r: Vec<String>)
    ensures
        r.deep_view() == expired_logs(names.deep_view(), cutoff as int),
{
    let ghost nv = names.deep_view();
    let mut r: Vec<String> = Vec::new();
    let n = names.len();
    let mut i: usize = 0;
    proof {
        assert(nv.take(0) =~= Seq::<Seq<char>>::empty());
        assert(r.deep_view() =~= Seq::<Seq<char>>::empty());
    }
    while i < n
        invariant
            n == names.len(),
            nv == names.deep_view(),
            i <= n,
            r.deep_view() == expired_logs(nv.take(i as int), cutoff as int),
        decreases n - i,
    {
        proof {
            assert(nv.take(i + 1).drop_last() =~= nv.take(i as int));
            assert(nv.take(i + 1).last() == names@[i as int]@);
        }
        match parse_log_file_name(names[i].as_str()) {
            Some((day, _)) => {
                if day < cutoff {
                    let ghost before = r.deep_view();
                    r.push(names[i].clone());
                    proof {
                        assert(r.deep_view() =~= before.push(names@[i as int]@));
                    }
                }
            },
            None => {},
        }
        i = i + 1;
    }
    proof {
        assert(nv.take(n as int) =~= nv);
    }
    r
}

pub open spec fn msg_negative_retention() -> Seq<char> {
    "log retention days cannot be negative"@
}

/// The cutoff of a cleanup: `retention_days` days before `today`, or `today`
/// itself when chrono has no date for one of the two.
pub open spec fn log_cutoff(today: int, retention_days: int) -> int {
    if in_chrono_range(today) && in_chrono_range(today - retention_days) {
        today - retention_days
    } else {
        today
    }
}

/// The log files to remove on day `today` when logs are kept `retention_days`
/// days: those dated before the cutoff (`log_cutoff`). A negative retention is
/// refused.
pub fn cleanup_targets(names: &Vec<String>, today: i32, retention_days: i64) -> (r: Result<Vec<String>, String>)
    requires
        retention_days <= max_delta_days(),
    ensures
        retention_days < 0 ==> (r matches Err(m) && m@ == msg_negative_retention()),
        retention_days >= 0 ==> (r matches Ok(v) && v.deep_view() == expired_logs(
            names.deep_view(),
            log_cutoff(today as int, retention_days as int),
        )),
{
    if retention_days < 0 {
        return Err("log retention days cannot be negative".to_owned());
    }
    let cutoff = match days_before(today, retention_days) {
        Some(c) => c,
        None => today,
    };
    Ok(expired_log_files(names, cutoff))
}

} // verus!
