//! Matching structured log lines: a JSON log line's message, target and
//! level, with a plain-substring fallback for lines that are not JSON.

use vstd::prelude::*;
use vstd::string::StrSliceExecFns;
use vstd::string::StringExecFns;

use crate::strutil::{
    spec_contains, spec_split, spec_starts_with, spec_trim, split_on, str_contains, str_eq,
    str_starts_with, trim_exec,
};

verus! {

/// A log verbosity level, as spelled in structured log lines.
#[derive(Debug, Clone, Copy, PartialEq, Eq, Structural)]
pub enum LogLevel {
    Trace,
    Debug,
    Info,
    Warn,
    Error,
}

pub open spec fn spec_level_str(l: LogLevel) -> Seq<char> {
    match l {
        LogLevel::Trace => "TRACE"@,
        LogLevel::Debug => "DEBUG"@,
        LogLevel::Info => "INFO"@,
        LogLevel::Warn => "WARN"@,
        LogLevel::Error => "ERROR"@,
    }
}

impl LogLevel {
    pub fn as_str(&self) -> (r: &'static str)
        ensures
            r@ == spec_level_str(*self),
    {
        match self {
            LogLevel::Trace => "TRACE",
            LogLevel::Debug => "DEBUG",
            LogLevel::Info => "INFO",
            LogLevel::Warn => "WARN",
            LogLevel::Error => "ERROR",
        }
    }
}

/// The parts a structured log line carries, each absent when the line lacks
/// the field.
pub struct LogLineParts {
    pub message: Option<String>,
    pub target: Option<String>,
    pub level: Option<String>,
}

pub open spec fn opt_view(o: Option<String>) -> Option<Seq<char>> {
    match o {
        Some(s) => Some(s@),
        None => None,
    }
}

/// What parsing a log line as JSON yields: `None` when the line is not a
/// JSON object, else its `fields.message`, `target` and `level` strings. A
/// function of the line alone.
pub uninterp spec fn json_log_parts(line: Seq<char>) -> Option<(
    Option<Seq<char>>,
    Option<Seq<char>>,
    Option<Seq<char>>,
)>;

/// Relies on serde_json: parse the line as a JSON object and pick out the
/// `fields.message`, `target` and `level` string fields.
#[verifier::external_body]
fn json_log_line(line: &str) -> (r: Option<LogLineParts>)
    ensures
        match r {
            Some(p) => json_log_parts(line@) == Some(
                (opt_view(p.message), opt_view(p.target), opt_view(p.level)),
            ),
            None => json_log_parts(line@) is None,
        },
{
    let value: serde_json::Value = serde_json::from_str(line).ok()?;
    let get_str = |v: &serde_json::Value| v.as_str().map(|s| s.to_owned());
    Some(LogLineParts {
        message: value.get("fields").and_then(|f| f.get("message")).and_then(|m| get_str(m)),
        target: value.get("target").and_then(|t| get_str(t)),
        level: value.get("level").and_then(|l| get_str(l)),
    })
}

/// A line matches a message if it is a JSON log line whose message equals it
/// exactly, or a plain line that contains it.
pub open spec fn spec_line_matches(line: Seq<char>, target: Seq<char>) -> bool {
    match json_log_parts(line) {
        Some(p) => match p.0 {
            Some(m) => m == target,
            None => spec_contains(line, target),
        },
        None => spec_contains(line, target),
    }
}

pub fn line_matches(line: &str, target: &str) -> (r: bool)
    ensures
        r == spec_line_matches(line@, target@),
{
    match json_log_line(line) {
        Some(p) => match p.message {
            Some(m) => str_eq(m.as_str(), target),
            None => str_contains(line, target),
        },
        None => str_contains(line, target),
    }
}

/// Whether any line of `buf`, trimmed, matches the message.
pub open spec fn spec_buf_contains(lines: Seq<Seq<char>>, target: Seq<char>) -> bool
    decreases lines.len(),
{
    if lines.len() == 0 {
        false
    } else {
        spec_line_matches(spec_trim(lines[0]), target) || spec_buf_contains(
            lines.drop_first(),
            target,
        )
    }
}

pub fn buf_contains(buf: &str, target: &str) -> (r: bool)
    ensures
        r == spec_buf_contains(spec_split(buf@, '\n'), target@),
{
    let lines = split_on(buf, '\n');
    let ghost all = crate::strutil::strings_view(lines@);
    let mut i: usize = 0;
    proof {
        assert(all.skip(0) =~= all);
    }
    while i < lines.len()
        invariant
            i <= lines@.len(),
            all == crate::strutil::strings_view(lines@),
            all == spec_split(buf@, '\n'),
            spec_buf_contains(all, target@) == spec_buf_contains(all.skip(i as int), target@),
        decreases lines@.len() - i,
    {
        proof {
            assert(all.skip(i as int)[0] == all[i as int]);
            assert(all.skip(i as int).drop_first() =~= all.skip(i as int + 1));
        }
        if line_matches(trim_exec(lines[i].as_str()), target) {
            proof {
                assert(all[i as int] == lines@[i as int]@);
                assert(spec_buf_contains(all.skip(i as int), target@));
            }
            return true;
        }
        i = i + 1;
    }
    proof {
        assert(all.skip(all.len() as int) =~= Seq::<Seq<char>>::empty());
    }
    false
}

/// Whether the target module of a line matches a source crate: exactly, or
/// as a `source::submodule` path.
pub open spec fn spec_target_matches(t: Option<Seq<char>>, source: Seq<char>) -> bool {
    match t {
        Some(tv) => tv == source || spec_starts_with(tv, source + "::"@),
        None => false,
    }
}

/// A JSON log line with the given message, from the given source crate, at
/// the given level (any level when `None`). Lines that are not JSON never
/// match.
pub open spec fn spec_line_matches_source(
    line: Seq<char>,
    message: Seq<char>,
    source: Seq<char>,
    level: Option<LogLevel>,
) -> bool {
    match json_log_parts(line) {
        Some(p) => {
            &&& p.0 == Some(message)
            &&& spec_target_matches(p.1, source)
            &&& match level {
                Some(l) => p.2 == Some(spec_level_str(l)),
                None => true,
            }
        },
        None => false,
    }
}

pub fn line_matches_source(
    line: &str,
    message: &str,
    source: &str,
    level: Option<LogLevel>,
) -> (r: bool)
    ensures
        r == spec_line_matches_source(line@, message@, source@, level),
{
    let p = match json_log_line(line) {
        Some(p) => p,
        None => {
            return false;
        },
    };
    let msg_ok = match &p.message {
        Some(m) => str_eq(m.as_str(), message),
        None => false,
    };
    if !msg_ok {
        return false;
    }
    let prefix = source.to_owned().concat("::");
    let target_ok = match &p.target {
        Some(t) => str_eq(t.as_str(), source) || str_starts_with(t.as_str(), prefix.as_str()),
        None => false,
    };
    if !target_ok {
        return false;
    }
    match level {
        Some(l) => match &p.level {
            Some(lv) => str_eq(lv.as_str(), l.as_str()),
            None => false,
        },
        None => true,
    }
}

/// Whether any line of `buf`, trimmed, matches message, source and level.
pub open spec fn spec_buf_contains_source(
    lines: Seq<Seq<char>>,
    message: Seq<char>,
    source: Seq<char>,
    level: Option<LogLevel>,
) -> bool
    decreases lines.len(),
{
    if lines.len() == 0 {
        false
    } else {
        spec_line_matches_source(spec_trim(lines[0]), message, source, level)
            || spec_buf_contains_source(lines.drop_first(), message, source, level)
    }
}

pub fn buf_contains_source(
    buf: &str,
    message: &str,
    source: &str,
    level: Option<LogLevel>,
) -> (r: bool)
    ensures
        r == spec_buf_contains_source(spec_split(buf@, '\n'), message@, source@, level),
{
    let lines = split_on(buf, '\n');
    let ghost all = crate::strutil::strings_view(lines@);
    let mut i: usize = 0;
    proof {
        assert(all.skip(0) =~= all);
    }
    while i < lines.len()
        invariant
            i <= lines@.len(),
            all == crate::strutil::strings_view(lines@),
            all == spec_split(buf@, '\n'),
            spec_buf_contains_source(all, message@, source@, level) == spec_buf_contains_source(
                all.skip(i as int),
                message@,
                source@,
                level,
            ),
        decreases lines@.len() - i,
    {
        proof {
            assert(all.skip(i as int)[0] == all[i as int]);
            assert(all.skip(i as int).drop_first() =~= all.skip(i as int + 1));
        }
        if line_matches_source(trim_exec(lines[i].as_str()), message, source, level) {
            proof {
                assert(all[i as int] == lines@[i as int]@);
                assert(spec_buf_contains_source(all.skip(i as int), message@, source@, level));
            }
            return true;
        }
        i = i + 1;
    }
    proof {
        assert(all.skip(all.len() as int) =~= Seq::<Seq<char>>::empty());
    }
    false
}

} // verus!
