//! Per-command log names and the reader of log lines, in either file
//! format. Writer and reader share the names here so they cannot disagree
//! about the layout.

use vstd::prelude::*;
use crate::text::{ascii_lower, chars_of, owned, string_of, lower_char, trimmed, trim_chars, decimal,
    decimal_chars, digit_char};
use crate::strings::{sorted_strings, sort_strings, views_of};

verus! {

/// The directory, under the library's `.videre`, holding the log files.
pub const LOGS_DIR: &'static str = "logs";

/// Events for the log file only; the terminal layer filters it out.
pub const FILE_ONLY_TARGET: &'static str = "videre::file_only";

/// The target of the one line every run writes to its primary log when it
/// starts, so a clean run still records that it ran.
pub const RUN_MARKER_TARGET: &'static str = "videre::run";

/// `<command>.log`: errors and warnings, always.
pub fn primary_log_name(command: &str) -> (r: String)
    ensures
        r@ == command@ + ".log"@,
{
    let mut s = owned(command);
    s.append(".log");
    s
}

/// `<command>.trace.log`: everything at the configured level.
pub fn trace_log_name(command: &str) -> (r: String)
    ensures
        r@ == command@ + ".trace.log"@,
{
    let mut s = owned(command);
    s.append(".trace.log");
    s
}

/// Severity of one recorded line.
#[derive(Debug, Clone, Copy, PartialEq, Eq, PartialOrd, Ord, Structural)]
pub enum LineLevel {
    Error,
    Warn,
    Info,
    Debug,
}

/// The level a (case-insensitive) level name reads as; `trace` reads as
/// debug.
pub open spec fn level_of(s: Seq<char>) -> Option<LineLevel> {
    let l = ascii_lower(s);
    if l == "error"@ {
        Some(LineLevel::Error)
    } else if l == "warn"@ {
        Some(LineLevel::Warn)
    } else if l == "info"@ {
        Some(LineLevel::Info)
    } else if l == "debug"@ || l == "trace"@ {
        Some(LineLevel::Debug)
    } else {
        None
    }
}

fn lower_chars(v: &Vec<char>) -> (r: Vec<char>)
    ensures
        r@ == ascii_lower(v@),
{
    let mut out: Vec<char> = Vec::new();
    let mut i: usize = 0;
    while i < v.len()
        invariant
            i <= v@.len(),
            out@ == ascii_lower(v@).take(i as int),
        decreases v@.len() - i,
    {
        out.push(lower_char(v[i]));
        i = i + 1;
        assert(out@ =~= ascii_lower(v@).take(i as int));
    }
    assert(ascii_lower(v@).take(v@.len() as int) =~= ascii_lower(v@));
    out
}

fn is_literal(v: &Vec<char>, lit: &str) -> (r: bool)
    ensures
        r == (v@ == lit@),
{
    let l = chars_of(lit);
    crate::text::chars_equal(v.as_slice(), l.as_slice())
}

impl LineLevel {
    pub fn parse(s: &str) -> (r: Option<LineLevel>)
        ensures
            r == level_of(s@),
    {
        let l = lower_chars(&chars_of(s));
        if is_literal(&l, "error") {
            Some(LineLevel::Error)
        } else if is_literal(&l, "warn") {
            Some(LineLevel::Warn)
        } else if is_literal(&l, "info") {
            Some(LineLevel::Info)
        } else if is_literal(&l, "debug") || is_literal(&l, "trace") {
            Some(LineLevel::Debug)
        } else {
            None
        }
    }
}

/// One parsed log line, whichever format wrote it. Absent and empty fields
/// both read as `None`.
#[derive(Debug, Clone, PartialEq)]
pub struct LogLine {
    pub ts: String,
    pub level: LineLevel,
    pub command: Option<String>,
    pub run: Option<String>,
    pub stage: Option<String>,
    pub kind: Option<String>,
    pub path: Option<String>,
    pub message: String,
}

/// The view of an optional string.
pub open spec fn opt_view(s: Option<String>) -> Option<Seq<char>> {
    match s {
        Some(s) => Some(s@),
        None => None,
    }
}

/// The fields of a log line as character sequences: timestamp, level,
/// command, run, stage, kind, path and message.
pub type LineView = (
    Seq<char>,
    LineLevel,
    Option<Seq<char>>,
    Option<Seq<char>>,
    Option<Seq<char>>,
    Option<Seq<char>>,
    Option<Seq<char>>,
    Seq<char>,
);

impl View for LogLine {
    type V = LineView;

    open spec fn view(&self) -> LineView {
        (
            self.ts@,
            self.level,
            opt_view(self.command),
            opt_view(self.run),
            opt_view(self.stage),
            opt_view(self.kind),
            opt_view(self.path),
            self.message@,
        )
    }
}

/// An absent or empty field reads as absent.
pub open spec fn non_empty_spec(s: Option<Seq<char>>) -> Option<Seq<char>> {
    match s {
        Some(v) => if v.len() == 0 {
            None
        } else {
            Some(v)
        },
        None => None,
    }
}

fn non_empty(s: Option<String>) -> (r: Option<String>)
    ensures
        opt_view(r) == non_empty_spec(opt_view(s)),
{
    match s {
        Some(v) => if v.as_str().is_empty() {
            None
        } else {
            Some(v)
        },
        None => None,
    }
}

// ---- logfmt ----

/// The first position at or after `i` that is not a space.
pub open spec fn skip_spaces(s: Seq<char>, i: int) -> int
    decreases s.len() - i,
{
    if i >= s.len() || s[i] != ' ' {
        i
    } else {
        skip_spaces(s, i + 1)
    }
}

/// Where the key starting at `i` ends (its `=`), or `None` when a space or
/// the end of the line comes first.
pub open spec fn key_end(s: Seq<char>, i: int) -> Option<int>
    decreases s.len() - i,
{
    if i >= s.len() || s[i] == ' ' {
        None
    } else if s[i] == '=' {
        Some(i)
    } else {
        key_end(s, i + 1)
    }
}

/// What an escaped character stands for inside a quoted value.
pub open spec fn unescape(c: char) -> char {
    if c == 'n' {
        '\n'
    } else if c == 't' {
        '\t'
    } else if c == 'r' {
        '\r'
    } else {
        c
    }
}

/// A quoted value read from `i` (after the opening quote) with `acc` read
/// so far: the value and the position after the closing quote, or `None`
/// when the line ends first.
pub open spec fn quoted_value(s: Seq<char>, i: int, acc: Seq<char>) -> Option<(Seq<char>, int)>
    decreases s.len() - i,
{
    if i >= s.len() {
        None
    } else if s[i] == '\\' {
        if i + 1 >= s.len() {
            None
        } else {
            quoted_value(s, i + 2, acc.push(unescape(s[i + 1])))
        }
    } else if s[i] == '"' {
        Some((acc, i + 1))
    } else {
        quoted_value(s, i + 1, acc.push(s[i]))
    }
}

/// Where a bare value starting at `i` ends: at the next space or the end.
pub open spec fn bare_end(s: Seq<char>, i: int) -> int
    decreases s.len() - i,
{
    if i >= s.len() || s[i] == ' ' {
        i
    } else {
        bare_end(s, i + 1)
    }
}

/// The value starting at `i`, and the position after it.
pub open spec fn value_at(s: Seq<char>, i: int) -> Option<(Seq<char>, int)> {
    if 0 <= i < s.len() && s[i] == '"' {
        quoted_value(s, i + 1, Seq::empty())
    } else {
        let e = bare_end(s, i);
        Some((s.subrange(i, e), e))
    }
}

/// The `key=value` pairs of a line from position `i` on, in order, or
/// `None` when the rest of the line is not pairs.
pub open spec fn pairs_from(s: Seq<char>, i: int) -> Option<Seq<(Seq<char>, Seq<char>)>>
    decreases s.len() - i,
{
    let j = skip_spaces(s, i);
    if i < 0 || i >= s.len() || j >= s.len() {
        Some(Seq::empty())
    } else {
        match key_end(s, j) {
            None => None,
            Some(e) => match value_at(s, e + 1) {
                None => None,
                Some((v, next)) => if next <= i || next > s.len() {
                    None
                } else {
                    match pairs_from(s, next) {
                        None => None,
                        Some(rest) => Some(seq![(s.subrange(j, e), v)] + rest),
                    }
                },
            },
        }
    }
}

/// The value of the last pair named `k`, as a map keeps the last insert.
pub open spec fn lookup(pairs: Seq<(Seq<char>, Seq<char>)>, k: Seq<char>) -> Option<Seq<char>>
    decreases pairs.len(),
{
    if pairs.len() == 0 {
        None
    } else if pairs.last().0 == k {
        Some(pairs.last().1)
    } else {
        lookup(pairs.drop_last(), k)
    }
}

proof fn lemma_skip_spaces(s: Seq<char>, i: int)
    requires
        0 <= i,
    ensures
        i <= skip_spaces(s, i),
        i <= s.len() ==> skip_spaces(s, i) <= s.len(),
    decreases s.len() - i,
{
    if i < s.len() && s[i] == ' ' {
        lemma_skip_spaces(s, i + 1);
    }
}

proof fn lemma_key_end(s: Seq<char>, i: int)
    requires
        0 <= i,
    ensures
        key_end(s, i) matches Some(e) ==> i <= e < s.len() && s[e] == '=',
    decreases s.len() - i,
{
    if i < s.len() && s[i] != ' ' && s[i] != '=' {
        lemma_key_end(s, i + 1);
    }
}

proof fn lemma_bare_end(s: Seq<char>, i: int)
    requires
        0 <= i <= s.len(),
    ensures
        i <= bare_end(s, i) <= s.len(),
    decreases s.len() - i,
{
    if i < s.len() && s[i] != ' ' {
        lemma_bare_end(s, i + 1);
    }
}

proof fn lemma_quoted_value(s: Seq<char>, i: int, acc: Seq<char>)
    requires
        0 <= i,
    ensures
        quoted_value(s, i, acc) matches Some((v, next)) ==> i < next <= s.len(),
    decreases s.len() - i,
{
    if i < s.len() {
        if s[i] == '\\' {
            if i + 1 < s.len() {
                lemma_quoted_value(s, i + 2, acc.push(unescape(s[i + 1])));
            }
        } else if s[i] != '"' {
            lemma_quoted_value(s, i + 1, acc.push(s[i]));
        }
    }
}

/// The `key=value` pairs of a logfmt line: a value is bare (up to the next
/// space) or double-quoted with `\"`, `\\`, `\n`, `\t` and `\r` escapes.
pub fn logfmt_pairs(line: &[char]) -> (r: Option<Vec<(String, String)>>)
    ensures
        match r {
            Some(p) => pairs_from(line@, 0) == Some(
                Seq::new(p@.len(), |k: int| (p@[k].0@, p@[k].1@)),
            ),
            None => pairs_from(line@, 0) is None,
        },
{
    let ghost s = line@;
    let mut pairs: Vec<(String, String)> = Vec::new();
    let mut i: usize = 0;
    loop
        invariant
            s == line@,
            i <= s.len(),
            pairs_from(s, 0) == match pairs_from(s, i as int) {
                Some(rest) => Some(Seq::new(pairs@.len(), |k: int| (pairs@[k].0@, pairs@[k].1@)) + rest),
                None => None::<Seq<(Seq<char>, Seq<char>)>>,
            },
        decreases s.len() - i,
    {
        let ghost start = i;
        let ghost done = Seq::new(pairs@.len(), |k: int| (pairs@[k].0@, pairs@[k].1@));
        while i < line.len() && line[i] == ' '
            invariant
                s == line@,
                start <= i <= s.len(),
                skip_spaces(s, start as int) == skip_spaces(s, i as int),
            decreases s.len() - i,
        {
            i = i + 1;
        }
        let j = i;
        if j >= line.len() {
            proof {
                assert(pairs_from(s, start as int) == Some(Seq::<(Seq<char>, Seq<char>)>::empty()));
                assert(done + Seq::<(Seq<char>, Seq<char>)>::empty() =~= done);
            }
            return Some(pairs);
        }
        let mut key: Vec<char> = Vec::new();
        while i < line.len() && line[i] != ' ' && line[i] != '='
            invariant
                s == line@,
                j <= i <= s.len(),
                key_end(s, j as int) == key_end(s, i as int),
                key@ == s.subrange(j as int, i as int),
            decreases s.len() - i,
        {
            key.push(line[i]);
            i = i + 1;
            assert(key@ =~= s.subrange(j as int, i as int));
        }
        if i >= line.len() || line[i] == ' ' {
            proof {
                assert(key_end(s, i as int) is None);
            }
            return None;
        }
        let e = i;
        i = i + 1;
        let mut value: Vec<char> = Vec::new();
        if i < line.len() && line[i] == '"' {
            i = i + 1;
            let ghost q0 = i;
            let mut closed = false;
            let mut broken = false;
            while i < line.len() && !closed && !broken
                invariant
                    s == line@,
                    q0 <= i <= s.len(),
                    !(closed && broken),
                    !closed && !broken ==> quoted_value(s, q0 as int, Seq::empty())
                        == quoted_value(s, i as int, value@),
                    closed ==> quoted_value(s, q0 as int, Seq::empty()) == Some((value@, i as int)),
                    broken ==> quoted_value(s, q0 as int, Seq::empty()) is None,
                decreases s.len() - i, if closed || broken { 0int } else { 1int },
            {
                let c = line[i];
                if c == '\\' && i + 1 >= line.len() {
                    broken = true;
                } else if c == '\\' {
                    let d = line[i + 1];
                    let u = if d == 'n' {
                        '\n'
                    } else if d == 't' {
                        '\t'
                    } else if d == 'r' {
                        '\r'
                    } else {
                        d
                    };
                    value.push(u);
                    i = i + 2;
                } else if c == '"' {
                    i = i + 1;
                    closed = true;
                } else {
                    value.push(c);
                    i = i + 1;
                }
            }
            if !closed {
                return None;
            }
        } else {
            let v0 = i;
            while i < line.len() && line[i] != ' '
                invariant
                    s == line@,
                    v0 <= i <= s.len(),
                    bare_end(s, v0 as int) == bare_end(s, i as int),
                    value@ == s.subrange(v0 as int, i as int),
                decreases s.len() - i,
            {
                value.push(line[i]);
                i = i + 1;
                assert(value@ =~= s.subrange(v0 as int, i as int));
            }
        }
        proof {
            lemma_quoted_value(s, e + 2, Seq::empty());
            assert(value_at(s, e + 1) == Some((value@, i as int)));
            assert(key_end(s, j as int) == Some(e as int));
        }
        let ghost kv = key@;
        let ghost vv = value@;
        pairs.push((string_of(key.as_slice()), string_of(value.as_slice())));
        proof {
            assert(Seq::new(pairs@.len(), |k: int| (pairs@[k].0@, pairs@[k].1@)) =~= done.push(
                (kv, vv),
            ));
            match pairs_from(s, i as int) {
                Some(rest) => {
                    assert(done.push((kv, vv)) + rest =~= done + (seq![(kv, vv)] + rest));
                },
                None => {},
            }
        }
    }
}

/// The value a line gives field `k`, absent or empty reading as absent.
pub open spec fn field(pairs: Seq<(Seq<char>, Seq<char>)>, k: Seq<char>) -> Option<Seq<char>> {
    non_empty_spec(lookup(pairs, k))
}

/// The log line a sequence of logfmt pairs describes: a timestamp and a
/// level are required, and the message comes from `message` or `msg`.
pub open spec fn logfmt_line(pairs: Seq<(Seq<char>, Seq<char>)>) -> Option<LineView> {
    let msg = match lookup(pairs, "message"@) {
        Some(m) => Some(m),
        None => lookup(pairs, "msg"@),
    };
    match (field(pairs, "ts"@), lookup(pairs, "level"@), msg) {
        (Some(ts), Some(level), Some(message)) => match level_of(level) {
            Some(l) => Some(
                (
                    ts,
                    l,
                    field(pairs, "command"@),
                    field(pairs, "run"@),
                    field(pairs, "stage"@),
                    field(pairs, "kind"@),
                    field(pairs, "path"@),
                    message,
                ),
            ),
            None => None,
        },
        _ => None,
    }
}

fn lookup_pair(pairs: &Vec<(String, String)>, k: &str) -> (r: Option<String>)
    ensures
        opt_view(r) == lookup(Seq::new(pairs@.len(), |i: int| (pairs@[i].0@, pairs@[i].1@)), k@),
{
    let ghost pv = Seq::new(pairs@.len(), |i: int| (pairs@[i].0@, pairs@[i].1@));
    let mut n: usize = pairs.len();
    assert(pv.take(n as int) =~= pv);
    while n > 0
        invariant
            n <= pairs@.len(),
            pv == Seq::new(pairs@.len(), |i: int| (pairs@[i].0@, pairs@[i].1@)),
            lookup(pv, k@) == lookup(pv.take(n as int), k@),
        decreases n,
    {
        proof {
            assert(pv.take(n as int).drop_last() =~= pv.take(n - 1));
        }
        if crate::text::str_equal(pairs[n - 1].0.as_str(), k) {
            return Some(pairs[n - 1].1.clone());
        }
        n = n - 1;
    }
    None
}

fn field_of(pairs: &Vec<(String, String)>, k: &str) -> (r: Option<String>)
    ensures
        opt_view(r) == field(Seq::new(pairs@.len(), |i: int| (pairs@[i].0@, pairs@[i].1@)), k@),
{
    non_empty(lookup_pair(pairs, k))
}

/// The log line written in logfmt, if `line` is one.
pub fn parse_logfmt(line: &[char]) -> (r: Option<LogLine>)
    ensures
        match pairs_from(line@, 0) {
            None => r is None,
            Some(p) => match r {
                Some(l) => logfmt_line(p) == Some(l@),
                None => logfmt_line(p) is None,
            },
        },
{
    let pairs = match logfmt_pairs(line) {
        Some(p) => p,
        None => {
            return None;
        },
    };
    let ts = match field_of(&pairs, "ts") {
        Some(t) => t,
        None => {
            return None;
        },
    };
    let level_text = match lookup_pair(&pairs, "level") {
        Some(l) => l,
        None => {
            return None;
        },
    };
    let level = match LineLevel::parse(level_text.as_str()) {
        Some(l) => l,
        None => {
            return None;
        },
    };
    let message = match lookup_pair(&pairs, "message") {
        Some(m) => m,
        None => match lookup_pair(&pairs, "msg") {
            Some(m) => m,
            None => {
                return None;
            },
        },
    };
    Some(
        LogLine {
            ts,
            level,
            command: field_of(&pairs, "command"),
            run: field_of(&pairs, "run"),
            stage: field_of(&pairs, "stage"),
            kind: field_of(&pairs, "kind"),
            path: field_of(&pairs, "path"),
            message,
        },
    )
}


// ---- JSON ----

/// The string that `serde_json` finds at JSON pointer `pointer` in the
/// document `text`: `None` when `text` is not JSON, nothing is at the
/// pointer, or what is there is not a string.
pub uninterp spec fn json_string_at(text: Seq<char>, pointer: Seq<char>) -> Option<Seq<char>>;

/// The length of the array that `serde_json` finds at JSON pointer `pointer`
/// in the document `text`: `None` when `text` is not JSON, nothing is at the
/// pointer, or what is there is not an array.
pub uninterp spec fn json_array_len_at(text: Seq<char>, pointer: Seq<char>) -> Option<usize>;

/// Parses `text` with `serde_json::from_str` into a `serde_json::Value`,
/// looks `pointer` up with `Value::pointer` and reads it with
/// `Value::as_str`. Claimed: the result is `json_string_at` of the
/// arguments; nothing is said of what that is.
#[verifier::external_body]
fn json_string(text: &str, pointer: &str) -> (r: Option<String>)
    ensures
        opt_view(r) == json_string_at(text@, pointer@),
{
    let v: serde_json::Value = serde_json::from_str(text).ok()?;
    Some(v.pointer(pointer)?.as_str()?.to_owned())
}

/// Parses `text` with `serde_json::from_str` into a `serde_json::Value`,
/// looks `pointer` up with `Value::pointer` and reads it with
/// `Value::as_array`, giving the array's length. Claimed: the result is
/// `json_array_len_at` of the arguments.
#[verifier::external_body]
fn json_array_len(text: &str, pointer: &str) -> (r: Option<usize>)
    ensures
        r == json_array_len_at(text@, pointer@),
{
    let v: serde_json::Value = serde_json::from_str(text).ok()?;
    Some(v.pointer(pointer)?.as_array()?.len())
}

/// The JSON pointer of field `f` of span `k`: `/spans/<k>/<f>`.
pub open spec fn span_pointer(k: nat, f: Seq<char>) -> Seq<char> {
    "/spans/"@ + crate::text::decimal(k) + "/"@ + f
}

/// The first span from `k` on (of `n`) whose name is `name`.
pub open spec fn first_span(text: Seq<char>, name: Seq<char>, n: nat, k: nat) -> Option<nat>
    decreases n - k,
{
    if k >= n {
        None
    } else if json_string_at(text, span_pointer(k, "name"@)) == Some(name) {
        Some(k)
    } else {
        first_span(text, name, n, k + 1)
    }
}

/// Field `f` of the first span named `name`, absent or empty reading as
/// absent.
pub open spec fn span_field_spec(text: Seq<char>, name: Seq<char>, f: Seq<char>) -> Option<Seq<char>> {
    match json_array_len_at(text, "/spans"@) {
        None => None,
        Some(n) => match first_span(text, name, n as nat, 0) {
            None => None,
            Some(k) => non_empty_spec(json_string_at(text, span_pointer(k, f))),
        },
    }
}

/// The parts of a JSON log line the reader uses, each as `serde_json`
/// found it: the timestamp, level and message; the stage, kind and path
/// fields; and the command and run of the span named `run` and the stage of
/// the span named `stage`, absent or empty reading as absent.
pub struct JsonLineParts {
    pub timestamp: Option<String>,
    pub level: Option<String>,
    pub message: Option<String>,
    pub stage: Option<String>,
    pub kind: Option<String>,
    pub path: Option<String>,
    pub run_command: Option<String>,
    pub run_run: Option<String>,
    pub span_stage: Option<String>,
}

/// The log line the parts of a JSON line describe: a timestamp, a known
/// level and a message are required; the stage field wins over the stage
/// span.
pub open spec fn json_line_of(
    timestamp: Option<Seq<char>>,
    level: Option<Seq<char>>,
    message: Option<Seq<char>>,
    stage: Option<Seq<char>>,
    kind: Option<Seq<char>>,
    path: Option<Seq<char>>,
    run_command: Option<Seq<char>>,
    run_run: Option<Seq<char>>,
    span_stage: Option<Seq<char>>,
) -> Option<LineView> {
    match (timestamp, level, message) {
        (Some(ts), Some(lv), Some(m)) => match level_of(lv) {
            Some(l) => Some(
                (
                    ts,
                    l,
                    run_command,
                    run_run,
                    match non_empty_spec(stage) {
                        Some(st) => Some(st),
                        None => span_stage,
                    },
                    non_empty_spec(kind),
                    non_empty_spec(path),
                    m,
                ),
            ),
            None => None,
        },
        _ => None,
    }
}

/// The log line a JSON document describes, over what `serde_json` finds in
/// it.
pub open spec fn json_log_line(text: Seq<char>) -> Option<LineView> {
    json_line_of(
        json_string_at(text, "/timestamp"@),
        json_string_at(text, "/level"@),
        json_string_at(text, "/fields/message"@),
        json_string_at(text, "/fields/stage"@),
        json_string_at(text, "/fields/kind"@),
        json_string_at(text, "/fields/path"@),
        span_field_spec(text, "run"@, "command"@),
        span_field_spec(text, "run"@, "run"@),
        span_field_spec(text, "stage"@, "stage"@),
    )
}

/// The log line that the parts read from a JSON line make.
pub fn log_line_from_json(parts: JsonLineParts) -> (r: Option<LogLine>)
    ensures
        match r {
            Some(l) => json_line_of(
                opt_view(parts.timestamp),
                opt_view(parts.level),
                opt_view(parts.message),
                opt_view(parts.stage),
                opt_view(parts.kind),
                opt_view(parts.path),
                opt_view(parts.run_command),
                opt_view(parts.run_run),
                opt_view(parts.span_stage),
            ) == Some(l@),
            None => json_line_of(
                opt_view(parts.timestamp),
                opt_view(parts.level),
                opt_view(parts.message),
                opt_view(parts.stage),
                opt_view(parts.kind),
                opt_view(parts.path),
                opt_view(parts.run_command),
                opt_view(parts.run_run),
                opt_view(parts.span_stage),
            ) is None,
        },
{
    let JsonLineParts {
        timestamp,
        level,
        message,
        stage,
        kind,
        path,
        run_command,
        run_run,
        span_stage,
    } = parts;
    let ts = match timestamp {
        Some(t) => t,
        None => {
            return None;
        },
    };
    let level_text = match level {
        Some(l) => l,
        None => {
            return None;
        },
    };
    let message = match message {
        Some(m) => m,
        None => {
            return None;
        },
    };
    let level = match LineLevel::parse(level_text.as_str()) {
        Some(l) => l,
        None => {
            return None;
        },
    };
    let stage = match non_empty(stage) {
        Some(st) => Some(st),
        None => span_stage,
    };
    Some(
        LogLine {
            ts,
            level,
            command: run_command,
            run: run_run,
            stage,
            kind: non_empty(kind),
            path: non_empty(path),
            message,
        },
    )
}

fn span_pointer_string(k: usize, f: &str) -> (r: String)
    ensures
        r@ == span_pointer(k as nat, f@),
{
    let mut s = owned("/spans/");
    let digits = crate::text::decimal_chars(k as u64);
    let d = string_of(digits.as_slice());
    s.append(d.as_str());
    s.append("/");
    s.append(f);
    s
}

/// Field `f` of the first span named `name` in the JSON document `text`.
fn span_field(text: &str, name: &str, f: &str) -> (r: Option<String>)
    ensures
        opt_view(r) == span_field_spec(text@, name@, f@),
{
    let n = match json_array_len(text, "/spans") {
        Some(n) => n,
        None => {
            return None;
        },
    };
    let mut k: usize = 0;
    while k < n
        invariant
            k <= n,
            json_array_len_at(text@, "/spans"@) == Some(n),
            first_span(text@, name@, n as nat, 0) == first_span(text@, name@, n as nat, k as nat),
        decreases n - k,
    {
        let p = span_pointer_string(k, "name");
        let found = match json_string(text, p.as_str()) {
            Some(v) => crate::text::str_equal(v.as_str(), name),
            None => false,
        };
        if found {
            let q = span_pointer_string(k, f);
            return non_empty(json_string(text, q.as_str()));
        }
        k = k + 1;
    }
    None
}

/// The log line written as JSON, with its spans, if `text` is one.
pub fn parse_json(text: &str) -> (r: Option<LogLine>)
    ensures
        match r {
            Some(l) => json_log_line(text@) == Some(l@),
            None => json_log_line(text@) is None,
        },
{
    let parts = JsonLineParts {
        timestamp: json_string(text, "/timestamp"),
        level: json_string(text, "/level"),
        message: json_string(text, "/fields/message"),
        stage: json_string(text, "/fields/stage"),
        kind: json_string(text, "/fields/kind"),
        path: json_string(text, "/fields/path"),
        run_command: span_field(text, "run", "command"),
        run_run: span_field(text, "run", "run"),
        span_stage: span_field(text, "stage", "stage"),
    };
    log_line_from_json(parts)
}

/// Whether `c` occurs in `v`.
fn contains_char(v: &Vec<char>, c: char) -> (r: bool)
    ensures
        r == v@.contains(c),
{
    let mut i: usize = 0;
    while i < v.len()
        invariant
            i <= v@.len(),
            forall|j: int| 0 <= j < i ==> v@[j] != c,
        decreases v@.len() - i,
    {
        if v[i] == c {
            return true;
        }
        i = i + 1;
    }
    false
}

/// The log line one line of either file format describes, after trimming:
/// JSON when it starts with `{`, logfmt when it holds a `=`.
pub open spec fn line_of(raw: Seq<char>) -> Option<LineView> {
    let t = trimmed(raw);
    if t.len() > 0 && t[0] == '{' {
        json_log_line(t)
    } else if t.contains('=') {
        match pairs_from(t, 0) {
            None => None,
            Some(p) => logfmt_line(p),
        }
    } else {
        None
    }
}

/// Parse one line written by either file format; `None` for anything else.
/// The format is detected per line, so a file written before and after a
/// format change still reads.
pub fn parse_line(line: &str) -> (r: Option<LogLine>)
    ensures
        match r {
            Some(l) => line_of(line@) == Some(l@),
            None => line_of(line@) is None,
        },
{
    let raw = chars_of(line);
    let t = trim_chars(raw.as_slice());
    if t.len() > 0 && t[0] == '{' {
        let text = string_of(t.as_slice());
        parse_json(text.as_str())
    } else if contains_char(&t, '=') {
        parse_logfmt(t.as_slice())
    } else {
        None
    }
}


// ---- files ----

/// The lines of a text, split at each `\n`; the last piece is kept even
/// when empty.
pub open spec fn lines_from(s: Seq<char>, i: int, cur: Seq<char>) -> Seq<Seq<char>>
    decreases s.len() - i,
{
    if i >= s.len() {
        seq![cur]
    } else if s[i] == '\n' {
        seq![cur] + lines_from(s, i + 1, Seq::empty())
    } else {
        lines_from(s, i + 1, cur.push(s[i]))
    }
}

/// The lines of a whole text.
pub open spec fn text_lines(s: Seq<char>) -> Seq<Seq<char>> {
    lines_from(s, 0, Seq::empty())
}

/// The character views of a vector of lines.
pub open spec fn line_views(v: Seq<Vec<char>>) -> Seq<Seq<char>> {
    Seq::new(v.len(), |k: int| v[k]@)
}

fn split_lines(text: &str) -> (r: Vec<Vec<char>>)
    ensures
        line_views(r@) == text_lines(text@),
{
    let s = chars_of(text);
    let mut out: Vec<Vec<char>> = Vec::new();
    let mut cur: Vec<char> = Vec::new();
    let mut i: usize = 0;
    while i < s.len()
        invariant
            s@ == text@,
            i <= s@.len(),
            text_lines(s@) == line_views(out@) + lines_from(s@, i as int, cur@),
        decreases s@.len() - i,
    {
        if s[i] == '\n' {
            let ghost before = line_views(out@);
            let done = cur;
            let ghost dv = done@;
            out.push(done);
            cur = Vec::new();
            proof {
                assert(line_views(out@) =~= before.push(dv));
                assert(before.push(dv) + lines_from(s@, i + 1, Seq::empty()) =~= before + (seq![dv]
                    + lines_from(s@, i + 1, Seq::empty())));
            }
        } else {
            cur.push(s[i]);
        }
        i = i + 1;
    }
    let ghost before = line_views(out@);
    let ghost cv = cur@;
    out.push(cur);
    proof {
        assert(line_views(out@) =~= before.push(cv));
        assert(before + seq![cv] =~= before.push(cv));
    }
    out
}

/// One line of a file with its run resolved, given the run of the line
/// before it: `(entry, run carried on)`. A blank line gives no entry; an
/// unreadable line, one naming another command, and one with no run to
/// join give `Some(None)`.
pub open spec fn resolve_one(raw: Seq<char>, command: Seq<char>, prev: Option<Seq<char>>) -> (
    Option<Option<(Seq<char>, LineView)>>,
    Option<Seq<char>>,
) {
    if trimmed(raw).len() == 0 {
        (None, prev)
    } else {
        match line_of(raw) {
            None => (Some(None), prev),
            Some(l) => if l.2 is Some && l.2 != Some(command) {
                (Some(None), prev)
            } else {
                match (if l.3 is Some { l.3 } else { prev }) {
                    None => (Some(None), prev),
                    Some(run) => (Some(Some((run, l))), Some(run)),
                }
            },
        }
    }
}

/// The resolved lines of `lines`: a line written outside the run span
/// belongs to the run of the line before it.
pub open spec fn resolve(lines: Seq<Seq<char>>, command: Seq<char>, prev: Option<Seq<char>>) -> Seq<
    Option<(Seq<char>, LineView)>,
>
    decreases lines.len(),
{
    if lines.len() == 0 {
        Seq::empty()
    } else {
        let (entry, next) = resolve_one(lines[0], command, prev);
        match entry {
            None => resolve(lines.drop_first(), command, next),
            Some(e) => seq![e] + resolve(lines.drop_first(), command, next),
        }
    }
}

/// The view of one resolved line.
pub open spec fn resolved_view(e: Option<(String, LogLine)>) -> Option<(Seq<char>, LineView)> {
    match e {
        Some((r, l)) => Some((r@, l@)),
        None => None,
    }
}

/// The views of resolved lines.
pub open spec fn resolved_views(v: Seq<Option<(String, LogLine)>>) -> Seq<Option<(Seq<char>, LineView)>> {
    Seq::new(v.len(), |k: int| resolved_view(v[k]))
}

fn clone_opt(s: &Option<String>) -> (r: Option<String>)
    ensures
        opt_view(r) == opt_view(*s),
{
    match s {
        Some(v) => Some(owned(v.as_str())),
        None => None,
    }
}

fn clone_line(l: &LogLine) -> (r: LogLine)
    ensures
        r@ == l@,
{
    LogLine {
        ts: owned(l.ts.as_str()),
        level: l.level,
        command: clone_opt(&l.command),
        run: clone_opt(&l.run),
        stage: clone_opt(&l.stage),
        kind: clone_opt(&l.kind),
        path: clone_opt(&l.path),
        message: owned(l.message.as_str()),
    }
}

/// Lines of one file with each line's run resolved: a line written outside
/// the run span (a worker thread) belongs to the run of the line before it.
/// `None` marks an unreadable line, including one naming another command.
pub fn resolved_lines(text: &str, command: &str) -> (r: Vec<Option<(String, LogLine)>>)
    ensures
        resolved_views(r@) == resolve(text_lines(text@), command@, None),
{
    let lines = split_lines(text);
    let ghost all = text_lines(text@);
    let mut out: Vec<Option<(String, LogLine)>> = Vec::new();
    let mut previous_run: Option<String> = None;
    let mut k: usize = 0;
    proof {
        assert(all.skip(0) =~= all);
        assert(resolved_views(out@) + resolve(all, command@, None) =~= resolve(all, command@, None));
    }
    while k < lines.len()
        invariant
            k <= lines@.len(),
            line_views(lines@) == all,
            resolve(all, command@, None) == resolved_views(out@) + resolve(
                all.skip(k as int),
                command@,
                opt_view(previous_run),
            ),
        decreases lines@.len() - k,
    {
        let raw = &lines[k];
        let ghost rest = all.skip(k as int);
        let ghost before = resolved_views(out@);
        proof {
            assert(rest[0] == raw@);
            assert(rest.drop_first() =~= all.skip(k + 1));
        }
        let t = trim_chars(raw.as_slice());
        if t.len() > 0 {
            let entry: Option<(String, LogLine)> = match parse_line(string_of(raw.as_slice()).as_str()) {
                None => None,
                Some(line) => {
                    let other = match &line.command {
                        Some(c) => !crate::text::str_equal(c.as_str(), command),
                        None => false,
                    };
                    if other {
                        None
                    } else {
                        let run = match &line.run {
                            Some(r) => Some(owned(r.as_str())),
                            None => clone_opt(&previous_run),
                        };
                        match run {
                            None => None,
                            Some(r) => {
                                previous_run = Some(owned(r.as_str()));
                                Some((r, line))
                            },
                        }
                    }
                },
            };
            let ghost ev = resolved_view(entry);
            out.push(entry);
            proof {
                assert(resolved_views(out@) =~= before.push(ev));
                assert(before.push(ev) + resolve(all.skip(k + 1), command@, opt_view(previous_run))
                    =~= before + (seq![ev] + resolve(all.skip(k + 1), command@, opt_view(previous_run))));
            }
        }
        k = k + 1;
    }
    proof {
        assert(all.skip(k as int) =~= Seq::<Seq<char>>::empty());
        assert(resolved_views(out@) + Seq::<Option<(Seq<char>, LineView)>>::empty() =~= resolved_views(out@));
    }
    out
}


// ---- the latest run ----

/// How many of `lines` have level `lv` and stage `st`.
pub open spec fn stage_count(lines: Seq<LineView>, lv: LineLevel, st: Seq<char>) -> nat
    decreases lines.len(),
{
    if lines.len() == 0 {
        0
    } else {
        stage_count(lines.drop_last(), lv, st) + if lines.last().1 == lv && lines.last().4 == Some(
            st,
        ) {
            1nat
        } else {
            0nat
        }
    }
}

/// How many of `lines` have level `lv`.
pub open spec fn level_count(lines: Seq<LineView>, lv: LineLevel) -> nat
    decreases lines.len(),
{
    if lines.len() == 0 {
        0
    } else {
        level_count(lines.drop_last(), lv) + if lines.last().1 == lv {
            1nat
        } else {
            0nat
        }
    }
}

/// The last error among `lines`.
pub open spec fn last_error_of(lines: Seq<LineView>) -> Option<LineView>
    decreases lines.len(),
{
    if lines.len() == 0 {
        None
    } else if lines.last().1 == LineLevel::Error {
        Some(lines.last())
    } else {
        last_error_of(lines.drop_last())
    }
}

/// Entry `i` of `t` holds the error and warning counts of its stage in
/// `lines`, and at least one of them.
pub open spec fn entry_counts(t: Seq<(Seq<char>, u64, u64)>, lines: Seq<LineView>, i: int) -> bool {
    &&& t[i].1 == stage_count(lines, LineLevel::Error, t[i].0)
    &&& t[i].2 == stage_count(lines, LineLevel::Warn, t[i].0)
    &&& t[i].1 + t[i].2 > 0
}

/// `t` is the per-stage table of `lines`: one entry per stage that has an
/// error or a warning, in the order of the stage names, with its error and
/// warning counts.
pub open spec fn stage_table(t: Seq<(Seq<char>, u64, u64)>, lines: Seq<LineView>) -> bool {
    &&& forall|i: int, j: int|
        0 <= i < j < t.len() ==> crate::strings::str_lt(#[trigger] t[i].0, #[trigger] t[j].0)
    &&& forall|i: int| 0 <= i < t.len() ==> #[trigger] entry_counts(t, lines, i)
    &&& forall|st: Seq<char>|
        #![trigger stage_count(lines, LineLevel::Error, st)]
        #![trigger stage_count(lines, LineLevel::Warn, st)]
        stage_count(lines, LineLevel::Error, st) + stage_count(lines, LineLevel::Warn, st) > 0
            ==> exists|i: int| 0 <= i < t.len() && #[trigger] t[i].0 == st
}

/// The views of the lines of a vector.
pub open spec fn log_views(v: Seq<LogLine>) -> Seq<LineView> {
    Seq::new(v.len(), |k: int| v[k]@)
}

/// The views of a per-stage table.
pub open spec fn table_views(t: Seq<(String, u64, u64)>) -> Seq<(Seq<char>, u64, u64)> {
    Seq::new(t.len(), |k: int| (t[k].0@, t[k].1, t[k].2))
}

proof fn lemma_stage_count_bound(lines: Seq<LineView>, lv: LineLevel, st: Seq<char>)
    ensures
        stage_count(lines, lv, st) <= lines.len(),
    decreases lines.len(),
{
    if lines.len() > 0 {
        lemma_stage_count_bound(lines.drop_last(), lv, st);
    }
}

proof fn lemma_level_count_bound(lines: Seq<LineView>, lv: LineLevel)
    ensures
        level_count(lines, lv) <= lines.len(),
    decreases lines.len(),
{
    if lines.len() > 0 {
        lemma_level_count_bound(lines.drop_last(), lv);
    }
}

/// One more line, of level `lv` and stage `sv`, was counted from `pre` to
/// `post`.
pub open spec fn one_more(pre: Seq<LineView>, post: Seq<LineView>, lv: LineLevel, sv: Seq<char>) -> bool {
    forall|s: Seq<char>, l: LineLevel|
        #[trigger] stage_count(post, l, s) == stage_count(pre, l, s) + if l == lv && s == sv {
            1nat
        } else {
            0nat
        }
}

proof fn lemma_table_bump(
    tv: Seq<(Seq<char>, u64, u64)>,
    pre: Seq<LineView>,
    post: Seq<LineView>,
    lv: LineLevel,
    sv: Seq<char>,
    p: int,
    entry: (Seq<char>, u64, u64),
)
    requires
        stage_table(tv, pre),
        one_more(pre, post, lv, sv),
        lv == LineLevel::Error || lv == LineLevel::Warn,
        0 <= p < tv.len(),
        tv[p].0 == sv,
        entry.0 == sv,
        entry.1 == tv[p].1 + if lv == LineLevel::Error {
            1int
        } else {
            0int
        },
        entry.2 == tv[p].2 + if lv == LineLevel::Warn {
            1int
        } else {
            0int
        },
    ensures
        stage_table(tv.update(p, entry), post),
{
    let nv = tv.update(p, entry);
    assert forall|a: int, b: int| 0 <= a < b < nv.len() implies crate::strings::str_lt(
        #[trigger] nv[a].0,
        #[trigger] nv[b].0,
    ) by {
        assert(tv[a].0 == nv[a].0 && tv[b].0 == nv[b].0);
    }
    assert forall|a: int| 0 <= a < nv.len() implies #[trigger] entry_counts(nv, post, a) by {
        assert(stage_count(post, LineLevel::Error, nv[a].0) == stage_count(
            pre,
            LineLevel::Error,
            nv[a].0,
        ) + if LineLevel::Error == lv && nv[a].0 == sv {
            1nat
        } else {
            0nat
        });
        assert(stage_count(post, LineLevel::Warn, nv[a].0) == stage_count(
            pre,
            LineLevel::Warn,
            nv[a].0,
        ) + if LineLevel::Warn == lv && nv[a].0 == sv {
            1nat
        } else {
            0nat
        });
        if a != p {
            if a < p {
                assert(crate::strings::str_lt(tv[a].0, tv[p].0));
            } else {
                assert(crate::strings::str_lt(tv[p].0, tv[a].0));
            }
            crate::strings::lemma_str_lt_irreflexive(sv);
            assert(tv[a].0 != sv);
            assert(tv[a] == nv[a]);
            assert(entry_counts(tv, pre, a));
        } else {
            assert(entry_counts(tv, pre, p));
        }
    }
    assert forall|st: Seq<char>|
        stage_count(post, LineLevel::Error, st) + stage_count(post, LineLevel::Warn, st) > 0 implies exists|a: int|
        0 <= a < nv.len() && #[trigger] nv[a].0 == st by {
        assert(stage_count(post, LineLevel::Error, st) == stage_count(pre, LineLevel::Error, st)
            + if LineLevel::Error == lv && st == sv {
            1nat
        } else {
            0nat
        });
        assert(stage_count(post, LineLevel::Warn, st) == stage_count(pre, LineLevel::Warn, st)
            + if LineLevel::Warn == lv && st == sv {
            1nat
        } else {
            0nat
        });
        if st == sv {
            assert(nv[p].0 == st);
        } else {
            assert(stage_count(pre, LineLevel::Error, st) + stage_count(pre, LineLevel::Warn, st)
                > 0);
            let a = choose|a: int| 0 <= a < tv.len() && #[trigger] tv[a].0 == st;
            assert(nv[a].0 == st);
        }
    }
}

proof fn lemma_table_insert(
    tv: Seq<(Seq<char>, u64, u64)>,
    pre: Seq<LineView>,
    post: Seq<LineView>,
    lv: LineLevel,
    sv: Seq<char>,
    p: int,
    entry: (Seq<char>, u64, u64),
)
    requires
        stage_table(tv, pre),
        one_more(pre, post, lv, sv),
        lv == LineLevel::Error || lv == LineLevel::Warn,
        0 <= p <= tv.len(),
        forall|j: int| 0 <= j < p ==> crate::strings::str_lt(#[trigger] tv[j].0, sv),
        forall|j: int| p <= j < tv.len() ==> crate::strings::str_lt(sv, #[trigger] tv[j].0),
        entry.0 == sv,
        entry.1 == if lv == LineLevel::Error {
            1int
        } else {
            0int
        },
        entry.2 == if lv == LineLevel::Warn {
            1int
        } else {
            0int
        },
    ensures
        stage_table(tv.insert(p, entry), post),
{
    let nv = tv.insert(p, entry);
    assert forall|a: int| 0 <= a < tv.len() implies #[trigger] tv[a].0 != sv by {
        crate::strings::lemma_str_lt_irreflexive(sv);
    }
    assert(stage_count(pre, LineLevel::Error, sv) + stage_count(pre, LineLevel::Warn, sv) == 0);
    assert forall|a: int, b: int| 0 <= a < b < nv.len() implies crate::strings::str_lt(
        #[trigger] nv[a].0,
        #[trigger] nv[b].0,
    ) by {
        if b < p {
            assert(nv[a] == tv[a] && nv[b] == tv[b]);
        } else if b == p {
            assert(nv[a] == tv[a]);
        } else if a < p {
            assert(nv[a] == tv[a] && nv[b] == tv[b - 1]);
            crate::strings::lemma_str_lt_transitive(tv[a].0, sv, tv[b - 1].0);
        } else if a == p {
            assert(nv[b] == tv[b - 1]);
        } else {
            assert(nv[a] == tv[a - 1] && nv[b] == tv[b - 1]);
        }
    }
    assert forall|a: int| 0 <= a < nv.len() implies #[trigger] entry_counts(nv, post, a) by {
        assert(stage_count(post, LineLevel::Error, nv[a].0) == stage_count(
            pre,
            LineLevel::Error,
            nv[a].0,
        ) + if LineLevel::Error == lv && nv[a].0 == sv {
            1nat
        } else {
            0nat
        });
        assert(stage_count(post, LineLevel::Warn, nv[a].0) == stage_count(
            pre,
            LineLevel::Warn,
            nv[a].0,
        ) + if LineLevel::Warn == lv && nv[a].0 == sv {
            1nat
        } else {
            0nat
        });
        if a < p {
            assert(nv[a] == tv[a]);
            assert(entry_counts(tv, pre, a));
        } else if a > p {
            assert(nv[a] == tv[a - 1]);
            assert(entry_counts(tv, pre, a - 1));
        }
    }
    assert forall|st: Seq<char>|
        stage_count(post, LineLevel::Error, st) + stage_count(post, LineLevel::Warn, st) > 0 implies exists|a: int|
        0 <= a < nv.len() && #[trigger] nv[a].0 == st by {
        assert(stage_count(post, LineLevel::Error, st) == stage_count(pre, LineLevel::Error, st)
            + if LineLevel::Error == lv && st == sv {
            1nat
        } else {
            0nat
        });
        assert(stage_count(post, LineLevel::Warn, st) == stage_count(pre, LineLevel::Warn, st)
            + if LineLevel::Warn == lv && st == sv {
            1nat
        } else {
            0nat
        });
        if st == sv {
            assert(nv[p].0 == st);
        } else {
            assert(stage_count(pre, LineLevel::Error, st) + stage_count(pre, LineLevel::Warn, st)
                > 0);
            let a = choose|a: int| 0 <= a < tv.len() && #[trigger] tv[a].0 == st;
            if a < p {
                assert(nv[a].0 == st);
            } else {
                assert(nv[a + 1].0 == st);
            }
        }
    }
}

proof fn lemma_table_same(tv: Seq<(Seq<char>, u64, u64)>, pre: Seq<LineView>, post: Seq<LineView>)
    requires
        stage_table(tv, pre),
        forall|s: Seq<char>, l: LineLevel|
            l == LineLevel::Error || l == LineLevel::Warn ==> #[trigger] stage_count(post, l, s)
                == stage_count(pre, l, s),
    ensures
        stage_table(tv, post),
{
    assert forall|st: Seq<char>|
        stage_count(post, LineLevel::Error, st) + stage_count(post, LineLevel::Warn, st) > 0 implies exists|a: int|
        0 <= a < tv.len() && #[trigger] tv[a].0 == st by {
        assert(stage_count(post, LineLevel::Error, st) == stage_count(pre, LineLevel::Error, st));
        assert(stage_count(post, LineLevel::Warn, st) == stage_count(pre, LineLevel::Warn, st));
    }
    assert forall|a: int| 0 <= a < tv.len() implies #[trigger] entry_counts(tv, post, a) by {
        assert(stage_count(post, LineLevel::Error, tv[a].0) == stage_count(
            pre,
            LineLevel::Error,
            tv[a].0,
        ));
        assert(stage_count(post, LineLevel::Warn, tv[a].0) == stage_count(
            pre,
            LineLevel::Warn,
            tv[a].0,
        ));
        assert(entry_counts(tv, pre, a));
    }
}

/// The per-stage error and warning counts of `lines`, in stage order.
pub fn stage_counts(lines: &Vec<LogLine>) -> (r: Vec<(String, u64, u64)>)
    ensures
        stage_table(table_views(r@), log_views(lines@)),
{
    let ghost all = log_views(lines@);
    let mut t: Vec<(String, u64, u64)> = Vec::new();
    let mut i: usize = 0;
    proof {
        assert(all.take(0) =~= Seq::<LineView>::empty());
        assert forall|st: Seq<char>|
            stage_count(all.take(0), LineLevel::Error, st) + stage_count(
                all.take(0),
                LineLevel::Warn,
                st,
            ) == 0 by {}
    }
    while i < lines.len()
        invariant
            i <= lines@.len(),
            all == log_views(lines@),
            stage_table(table_views(t@), all.take(i as int)),
        decreases lines@.len() - i,
    {
        let ghost pre = all.take(i as int);
        let ghost post = all.take(i + 1);
        let ghost tv = table_views(t@);
        proof {
            assert(post.drop_last() =~= pre);
            assert(post.last() == lines@[i as int]@);
        }
        let line = &lines[i];
        let is_error = match line.level {
            LineLevel::Error => true,
            _ => false,
        };
        let counted = match line.level {
            LineLevel::Error => true,
            LineLevel::Warn => true,
            _ => false,
        };
        match (&line.stage, counted) {
            (Some(st), true) => {
                let ghost sv = st@;
                let ghost lv = line.level;
                proof {
                    assert forall|s: Seq<char>, l: LineLevel|
                        #[trigger] stage_count(post, l, s) == stage_count(pre, l, s) + if l == lv
                            && s == sv {
                            1nat
                        } else {
                            0nat
                        } by {}
                    assert(one_more(pre, post, lv, sv));
                }
                let mut p: usize = 0;
                while p < t.len() && crate::strings::str_less(t[p].0.as_str(), st.as_str())
                    invariant
                        p <= t@.len(),
                        tv == table_views(t@),
                        sv == st@,
                        forall|j: int| 0 <= j < p ==> crate::strings::str_lt(#[trigger] tv[j].0, sv),
                    decreases t@.len() - p,
                {
                    p = p + 1;
                }
                let found = p < t.len() && crate::text::str_equal(t[p].0.as_str(), st.as_str());
                proof {
                    lemma_stage_count_bound(pre, LineLevel::Error, sv);
                    lemma_stage_count_bound(pre, LineLevel::Warn, sv);
                }
                if found {
                    let e = t[p].1;
                    let w = t[p].2;
                    let name = owned(t[p].0.as_str());
                    proof {
                        assert(tv[p as int].0 == sv);
                        assert(e == tv[p as int].1 && w == tv[p as int].2);
                        assert(entry_counts(tv, pre, p as int));
                        assert(pre.len() == i);
                    }
                    let entry = if is_error {
                        (name, e + 1, w)
                    } else {
                        (name, e, w + 1)
                    };
                    let ghost ev = (sv, entry.1, entry.2);
                    t.set(p, entry);
                    proof {
                        assert(table_views(t@) =~= tv.update(p as int, ev));
                        lemma_table_bump(tv, pre, post, lv, sv, p as int, ev);
                    }
                } else {
                    proof {
                        if p < tv.len() {
                            crate::strings::lemma_str_lt_total(tv[p as int].0, sv);
                            assert(crate::strings::str_lt(sv, tv[p as int].0));
                        }
                        assert forall|a: int| p <= a < tv.len() implies crate::strings::str_lt(
                            sv,
                            #[trigger] tv[a].0,
                        ) by {
                            if a > p {
                                crate::strings::lemma_str_lt_transitive(sv, tv[p as int].0, tv[a].0);
                            }
                        }
                    }
                    let entry = if is_error {
                        (owned(st.as_str()), 1u64, 0u64)
                    } else {
                        (owned(st.as_str()), 0u64, 1u64)
                    };
                    let ghost ev = (sv, entry.1, entry.2);
                    t.insert(p, entry);
                    proof {
                        assert(table_views(t@) =~= tv.insert(p as int, ev));
                        lemma_table_insert(tv, pre, post, lv, sv, p as int, ev);
                    }
                }
            },
            _ => {
                proof {
                    assert forall|s: Seq<char>, l: LineLevel|
                        l == LineLevel::Error || l == LineLevel::Warn implies #[trigger] stage_count(
                        post,
                        l,
                        s,
                    ) == stage_count(pre, l, s) by {}
                    lemma_table_same(tv, pre, post);
                }
            },
        }
        i = i + 1;
    }
    proof {
        assert(all.take(lines@.len() as int) =~= all);
    }
    t
}

/// The latest run of one command, as its primary log records it.
#[derive(Debug, Clone, PartialEq)]
pub struct CommandLogSummary {
    pub command: String,
    pub run: String,
    /// Timestamp of the run's first recorded line.
    pub started: String,
    pub errors: u64,
    pub warnings: u64,
    /// Per stage: name, errors, warnings, in the order of the names. Direct
    /// invocations have no stage.
    pub by_stage: Vec<(String, u64, u64)>,
    pub last_error: Option<LogLine>,
    /// Lines in the run's files that could not be parsed.
    pub unreadable_lines: u64,
}

/// The view of an optional log line.
pub open spec fn opt_line_view(l: Option<LogLine>) -> Option<LineView> {
    match l {
        Some(l) => Some(l@),
        None => None,
    }
}

/// `s` summarizes the lines `lines` (oldest first) of run `run` of
/// `command`, with `unreadable` unparsable lines in the run's files.
pub open spec fn is_summary_of(
    s: CommandLogSummary,
    command: Seq<char>,
    run: Seq<char>,
    lines: Seq<LineView>,
    unreadable: nat,
) -> bool {
    &&& s.command@ == command
    &&& s.run@ == run
    &&& s.started@ == if lines.len() > 0 {
        lines[0].0
    } else {
        Seq::<char>::empty()
    }
    &&& s.errors == level_count(lines, LineLevel::Error)
    &&& s.warnings == level_count(lines, LineLevel::Warn)
    &&& stage_table(table_views(s.by_stage@), lines)
    &&& opt_line_view(s.last_error) == last_error_of(lines)
    &&& s.unreadable_lines == unreadable
}

impl CommandLogSummary {
    /// The (errors, warnings) of one stage, when it has any.
    pub fn stage(&self, name: &str) -> (r: Option<(u64, u64)>)
        ensures
            match r {
                Some((e, w)) => exists|i: int|
                    0 <= i < self.by_stage@.len() && #[trigger] self.by_stage@[i].0@ == name@
                        && self.by_stage@[i].1 == e && self.by_stage@[i].2 == w,
                None => forall|i: int|
                    0 <= i < self.by_stage@.len() ==> #[trigger] self.by_stage@[i].0@ != name@,
            },
    {
        let mut i: usize = 0;
        while i < self.by_stage.len()
            invariant
                i <= self.by_stage@.len(),
                forall|j: int| 0 <= j < i ==> #[trigger] self.by_stage@[j].0@ != name@,
            decreases self.by_stage@.len() - i,
        {
            if crate::text::str_equal(self.by_stage[i].0.as_str(), name) {
                return Some((self.by_stage[i].1, self.by_stage[i].2));
            }
            i = i + 1;
        }
        None
    }
}

/// The run of the last resolved line that has one.
pub open spec fn last_run(lines: Seq<Option<(Seq<char>, LineView)>>) -> Option<Seq<char>>
    decreases lines.len(),
{
    if lines.len() == 0 {
        None
    } else {
        match lines.last() {
            Some(e) => Some(e.0),
            None => last_run(lines.drop_last()),
        }
    }
}

/// The lines of run `run`, in order.
pub open spec fn run_lines(lines: Seq<Option<(Seq<char>, LineView)>>, run: Seq<char>) -> Seq<
    LineView,
>
    decreases lines.len(),
{
    if lines.len() == 0 {
        Seq::empty()
    } else {
        let rest = run_lines(lines.drop_last(), run);
        match lines.last() {
            Some(e) => if e.0 == run {
                rest.push(e.1)
            } else {
                rest
            },
            None => rest,
        }
    }
}

/// How many resolved lines are unreadable.
pub open spec fn unreadable_count(lines: Seq<Option<(Seq<char>, LineView)>>) -> nat
    decreases lines.len(),
{
    if lines.len() == 0 {
        0
    } else {
        unreadable_count(lines.drop_last()) + if lines.last() is None {
            1nat
        } else {
            0nat
        }
    }
}

/// What a scan of one command's primary log files has found so far: the
/// latest run, its lines per file (newest file first), the unreadable lines
/// of those files, and whether an older file without the run ended it.
pub type ScanView = (Option<Seq<char>>, Seq<Seq<LineView>>, nat, bool);

/// The scan after reading one more (older) file with text `text`.
pub open spec fn scan_step(st: ScanView, command: Seq<char>, text: Seq<char>) -> ScanView {
    if st.3 {
        st
    } else {
        let lines = resolve(text_lines(text), command, None);
        let latest = match st.0 {
            Some(r) => Some(r),
            None => last_run(lines),
        };
        match latest {
            None => st,
            Some(run) => {
                let o = run_lines(lines, run);
                if o.len() == 0 {
                    (latest, st.1, st.2, true)
                } else {
                    (latest, st.1.push(o), st.2 + unreadable_count(lines), false)
                }
            },
        }
    }
}

/// The lines of a scan oldest first: the files reversed, each in order.
pub open spec fn oldest_first(per: Seq<Seq<LineView>>) -> Seq<LineView>
    decreases per.len(),
{
    if per.len() == 0 {
        Seq::empty()
    } else {
        oldest_first(per.drop_first()) + per[0]
    }
}

/// The scan of the primary log files of one command, newest file first,
/// for its latest run.
pub struct RunScan {
    latest: Option<String>,
    per_file: Vec<Vec<LogLine>>,
    unreadable: u64,
    stopped: bool,
}

impl View for RunScan {
    type V = ScanView;

    closed spec fn view(&self) -> ScanView {
        (
            opt_view(self.latest),
            Seq::new(self.per_file@.len(), |i: int| log_views(self.per_file@[i]@)),
            self.unreadable as nat,
            self.stopped,
        )
    }
}

proof fn lemma_lines_from_len(s: Seq<char>, i: int, cur: Seq<char>)
    requires
        0 <= i <= s.len(),
    ensures
        lines_from(s, i, cur).len() <= s.len() - i + 1,
    decreases s.len() - i,
{
    if i < s.len() {
        if s[i] == '\n' {
            lemma_lines_from_len(s, i + 1, Seq::empty());
        } else {
            lemma_lines_from_len(s, i + 1, cur.push(s[i]));
        }
    }
}

proof fn lemma_resolve_len(lines: Seq<Seq<char>>, command: Seq<char>, prev: Option<Seq<char>>)
    ensures
        resolve(lines, command, prev).len() <= lines.len(),
    decreases lines.len(),
{
    if lines.len() > 0 {
        let (entry, next) = resolve_one(lines[0], command, prev);
        lemma_resolve_len(lines.drop_first(), command, next);
    }
}

proof fn lemma_unreadable_bound(lines: Seq<Option<(Seq<char>, LineView)>>)
    ensures
        unreadable_count(lines) <= lines.len(),
    decreases lines.len(),
{
    if lines.len() > 0 {
        lemma_unreadable_bound(lines.drop_last());
    }
}

impl RunScan {
    /// A scan that has read nothing.
    pub fn new() -> (r: RunScan)
        ensures
            r@ == (None::<Seq<char>>, Seq::<Seq<LineView>>::empty(), 0nat, false),
    {
        let r = RunScan { latest: None, per_file: Vec::new(), unreadable: 0, stopped: false };
        assert(r@.1 =~= Seq::<Seq<LineView>>::empty());
        r
    }

    /// Whether the scan has ended: no older file can belong to the run.
    pub fn is_stopped(&self) -> (r: bool)
        ensures
            r == self@.3,
    {
        self.stopped
    }

    /// The unreadable lines counted so far.
    pub fn unreadable_so_far(&self) -> (r: u64)
        ensures
            r == self@.2,
    {
        self.unreadable
    }

    /// Read one more file of the command, older than those read before.
    pub fn add_file(&mut self, command: &str, text: &str)
        requires
            old(self)@.2 + text@.len() + 1 <= u64::MAX,
        ensures
            final(self)@ == scan_step(old(self)@, command@, text@),
    {
        if self.stopped {
            return;
        }
        let lines = resolved_lines(text, command);
        let ghost lv = resolved_views(lines@);
        proof {
            lemma_lines_from_len(text@, 0, Seq::empty());
            lemma_resolve_len(text_lines(text@), command@, None);
        }
        if self.latest.is_none() {
            let mut k: usize = lines.len();
            proof {
                assert(lv.take(k as int) =~= lv);
            }
            let mut found: Option<String> = None;
            while k > 0 && found.is_none()
                invariant
                    k <= lines@.len(),
                    lv == resolved_views(lines@),
                    found is None ==> last_run(lv) == last_run(lv.take(k as int)),
                    found is Some ==> last_run(lv) == opt_view(found),
                decreases k,
            {
                proof {
                    assert(lv.take(k as int).drop_last() =~= lv.take(k - 1));
                }
                match &lines[k - 1] {
                    Some((r, _)) => {
                        found = Some(owned(r.as_str()));
                    },
                    None => {},
                }
                k = k - 1;
            }
            if found.is_none() {
                assert(lv.take(0) =~= Seq::<Option<(Seq<char>, LineView)>>::empty());
                return;
            }
            self.latest = found;
        }
        let run = match &self.latest {
            Some(r) => owned(r.as_str()),
            None => String::new(),
        };
        let mut of_run: Vec<LogLine> = Vec::new();
        let mut bad: u64 = 0;
        let mut k: usize = 0;
        while k < lines.len()
            invariant
                k <= lines@.len(),
                lv == resolved_views(lines@),
                log_views(of_run@) == run_lines(lv.take(k as int), run@),
                bad == unreadable_count(lv.take(k as int)),
                bad <= k,
            decreases lines@.len() - k,
        {
            proof {
                assert(lv.take(k + 1).drop_last() =~= lv.take(k as int));
                lemma_unreadable_bound(lv.take(k as int));
            }
            let ghost before = log_views(of_run@);
            match &lines[k] {
                Some((r, l)) => {
                    if crate::text::str_equal(r.as_str(), run.as_str()) {
                        of_run.push(clone_line(l));
                        assert(log_views(of_run@) =~= before.push(l@));
                    }
                },
                None => {
                    bad = bad + 1;
                },
            }
            k = k + 1;
        }
        proof {
            assert(lv.take(lines@.len() as int) =~= lv);
        }
        if of_run.len() == 0 {
            self.stopped = true;
            return;
        }
        let ghost pv = self@.1;
        let ghost ov = log_views(of_run@);
        self.unreadable = self.unreadable + bad;
        self.per_file.push(of_run);
        proof {
            assert(self@.1 =~= pv.push(ov));
        }
    }

    /// The summary of the latest run found, if any.
    pub fn summary(&self, command: &str) -> (r: Option<CommandLogSummary>)
        ensures
            match self@.0 {
                None => r is None,
                Some(run) => r matches Some(s) && is_summary_of(
                    s,
                    command@,
                    run,
                    oldest_first(self@.1),
                    self@.2,
                ),
            },
    {
        let run = match &self.latest {
            Some(r) => owned(r.as_str()),
            None => {
                return None;
            },
        };
        let ghost per = self@.1;
        let n = self.per_file.len();
        let mut lines: Vec<LogLine> = Vec::new();
        let mut f: usize = n;
        proof {
            assert(per.subrange(n as int, n as int) =~= Seq::<Seq<LineView>>::empty());
            assert(log_views(lines@) =~= Seq::<LineView>::empty());
        }
        while f > 0
            invariant
                f <= n,
                n == per.len(),
                per == self@.1,
                log_views(lines@) == oldest_first(per.subrange(f as int, n as int)),
            decreases f,
        {
            f = f - 1;
            proof {
                assert(per.subrange(f as int, n as int).drop_first() =~= per.subrange(f + 1, n as int));
                assert(per[f as int] == log_views(self.per_file@[f as int]@));
            }
            let file = &self.per_file[f];
            let ghost base = log_views(lines@);
            let mut j: usize = 0;
            while j < file.len()
                invariant
                    j <= file@.len(),
                    log_views(lines@) == base + log_views(file@).take(j as int),
                decreases file@.len() - j,
            {
                let ghost before = log_views(lines@);
                let c = clone_line(&file[j]);
                lines.push(c);
                assert(log_views(lines@) =~= before.push(file@[j as int]@));
                assert(log_views(file@).take(j + 1) =~= log_views(file@).take(j as int).push(
                    file@[j as int]@,
                ));
                j = j + 1;
                assert(log_views(lines@) =~= base + log_views(file@).take(j as int));
            }
            assert(log_views(file@).take(file@.len() as int) =~= log_views(file@));
        }
        assert(per.subrange(0, n as int) =~= per);
        let ghost all = log_views(lines@);
        let mut errors: u64 = 0;
        let mut warnings: u64 = 0;
        let mut last_error: Option<LogLine> = None;
        let mut i: usize = 0;
        while i < lines.len()
            invariant
                i <= lines@.len(),
                all == log_views(lines@),
                errors == level_count(all.take(i as int), LineLevel::Error),
                warnings == level_count(all.take(i as int), LineLevel::Warn),
                opt_line_view(last_error) == last_error_of(all.take(i as int)),
            decreases lines@.len() - i,
        {
            proof {
                assert(all.take(i + 1).drop_last() =~= all.take(i as int));
                lemma_level_count_bound(all.take(i as int), LineLevel::Error);
                lemma_level_count_bound(all.take(i as int), LineLevel::Warn);
            }
            match lines[i].level {
                LineLevel::Error => {
                    errors = errors + 1;
                    last_error = Some(clone_line(&lines[i]));
                },
                LineLevel::Warn => {
                    warnings = warnings + 1;
                },
                _ => {},
            }
            i = i + 1;
        }
        assert(all.take(lines@.len() as int) =~= all);
        let started = if lines.len() > 0 {
            owned(lines[0].ts.as_str())
        } else {
            String::new()
        };
        let by_stage = stage_counts(&lines);
        Some(
            CommandLogSummary {
                command: owned(command),
                run,
                started,
                errors,
                warnings,
                by_stage,
                last_error,
                unreadable_lines: self.unreadable,
            },
        )
    }
}


// ---- which files to read ----

/// The command whose primary log `name` is: the name less `.log`, when that
/// is not empty and is not a trace log's.
pub open spec fn command_of_name(n: Seq<char>) -> Option<Seq<char>> {
    if n.len() >= 4 && n.skip(n.len() - 4) == ".log"@ {
        let c = n.take(n.len() - 4);
        if c.len() > 0 && !(c.len() >= 6 && c.skip(c.len() - 6) == ".trace"@) {
            Some(c)
        } else {
            None
        }
    } else {
        None
    }
}

/// The commands of the primary logs among `names`, in order.
pub open spec fn commands_from(names: Seq<Seq<char>>) -> Seq<Seq<char>>
    decreases names.len(),
{
    if names.len() == 0 {
        Seq::empty()
    } else {
        let rest = commands_from(names.drop_last());
        match command_of_name(names.last()) {
            Some(c) => rest.push(c),
            None => rest,
        }
    }
}

fn ends_with(v: &Vec<char>, suffix: &str) -> (r: bool)
    ensures
        r == (v@.len() >= suffix@.len() && v@.skip(v@.len() - suffix@.len()) == suffix@),
{
    let s = chars_of(suffix);
    if v.len() < s.len() {
        return false;
    }
    let off = v.len() - s.len();
    let mut i: usize = 0;
    while i < s.len()
        invariant
            s@ == suffix@,
            off + s@.len() == v@.len(),
            v@.len() == v.len(),
            i <= s@.len(),
            forall|j: int| 0 <= j < i ==> v@[off + j] == s@[j],
        decreases s@.len() - i,
    {
        let j: usize = off + i;
        if v[j] != s[i] {
            assert(v@.skip(off as int)[i as int] != suffix@[i as int]);
            return false;
        }
        i = i + 1;
    }
    assert(v@.skip(off as int) =~= suffix@);
    true
}

fn prefix_chars(v: &Vec<char>, n: usize) -> (r: Vec<char>)
    requires
        n <= v@.len(),
    ensures
        r@ == v@.take(n as int),
{
    let mut out: Vec<char> = Vec::new();
    let mut i: usize = 0;
    while i < n
        invariant
            n <= v@.len(),
            i <= n,
            out@ == v@.take(i as int),
        decreases n - i,
    {
        out.push(v[i]);
        i = i + 1;
        assert(out@ =~= v@.take(i as int));
    }
    out
}

/// The commands that have a primary log among the file names of the logs
/// directory, in order. Trace logs are never read: errors and warnings are
/// always in the primary file.
pub fn log_commands(names: &[String]) -> (r: Vec<String>)
    ensures
        views_of(r@) == sorted_strings(commands_from(views_of(names@))),
{
    let ghost all = views_of(names@);
    let mut found: Vec<String> = Vec::new();
    let mut k: usize = 0;
    assert(all.take(0) =~= Seq::<Seq<char>>::empty());
    assert(views_of(found@) =~= Seq::<Seq<char>>::empty());
    while k < names.len()
        invariant
            k <= names@.len(),
            all == views_of(names@),
            views_of(found@) == commands_from(all.take(k as int)),
        decreases names@.len() - k,
    {
        proof {
            assert(all.take(k + 1).drop_last() =~= all.take(k as int));
            assert(all.take(k + 1).last() == names@[k as int]@);
        }
        let v = chars_of(names[k].as_str());
        if ends_with(&v, ".log") {
            proof {
                reveal_strlit(".log");
            }
            let c = prefix_chars(&v, v.len() - 4);
            if c.len() > 0 && !ends_with(&c, ".trace") {
                proof {
                    reveal_strlit(".trace");
                }
                let ghost before = views_of(found@);
                let cs = string_of(c.as_slice());
                found.push(cs);
                assert(views_of(found@) =~= before.push(c@));
            } else {
                proof {
                    reveal_strlit(".trace");
                }
            }
        }
        k = k + 1;
    }
    assert(all.take(names@.len() as int) =~= all);
    sort_strings(found)
}

/// The name of rotation `n` of a command's primary log.
pub open spec fn rotated_name(command: Seq<char>, n: nat) -> Seq<char> {
    command + ".log"@ + "."@ + decimal(n)
}

/// The first rotation from `k` on that `names` lacks, looking no further
/// than one past as many rotations as there are names.
pub open spec fn first_missing(command: Seq<char>, names: Seq<Seq<char>>, k: nat) -> nat
    decreases names.len() + 1 - k,
{
    if k > names.len() || !names.contains(rotated_name(command, k)) {
        k
    } else {
        first_missing(command, names, k + 1)
    }
}

/// The primary log files of a command to read, newest first: the active
/// file, then `.1`, `.2`, ... while they exist.
pub open spec fn log_files_spec(command: Seq<char>, names: Seq<Seq<char>>) -> Seq<Seq<char>> {
    seq![command + ".log"@] + Seq::new(
        (first_missing(command, names, 1) - 1) as nat,
        |i: int| rotated_name(command, (i + 1) as nat),
    )
}

proof fn lemma_decimal_len(n: nat)
    ensures
        decimal(n).len() >= 1,
        n >= 10 ==> decimal(n).len() >= 2,
    decreases n,
{
    if n >= 10 {
        lemma_decimal_len(n / 10);
    }
}

proof fn lemma_decimal_injective(a: nat, b: nat)
    requires
        decimal(a) == decimal(b),
    ensures
        a == b,
    decreases a,
{
    lemma_decimal_len(a);
    lemma_decimal_len(b);
    if a >= 10 && b >= 10 {
        let da = decimal(a / 10);
        let db = decimal(b / 10);
        assert(decimal(a).last() == digit_char(a % 10));
        assert(decimal(b).last() == digit_char(b % 10));
        assert(decimal(a).drop_last() =~= da);
        assert(decimal(b).drop_last() =~= db);
        lemma_decimal_injective(a / 10, b / 10);
    } else if a < 10 && b < 10 {
        assert(decimal(a)[0] == digit_char(a));
        assert(decimal(b)[0] == digit_char(b));
    }
}

proof fn lemma_rotated_names_differ(command: Seq<char>, a: nat, b: nat)
    requires
        a != b,
    ensures
        rotated_name(command, a) != rotated_name(command, b),
{
    let p = command + ".log"@ + "."@;
    assert(rotated_name(command, a) =~= p + decimal(a));
    assert(rotated_name(command, b) =~= p + decimal(b));
    if rotated_name(command, a) == rotated_name(command, b) {
        assert((p + decimal(a)).skip(p.len() as int) =~= decimal(a));
        assert((p + decimal(b)).skip(p.len() as int) =~= decimal(b));
        lemma_decimal_injective(a, b);
    }
}

proof fn lemma_first_missing_prefix(command: Seq<char>, names: Seq<Seq<char>>, k: nat)
    requires
        k >= 1,
    ensures
        first_missing(command, names, k) >= k,
        forall|j: nat|
            k <= j < first_missing(command, names, k) ==> names.contains(
                #[trigger] rotated_name(command, j),
            ),
        first_missing(command, names, k) <= names.len() + 1 || first_missing(command, names, k)
            == k,
        first_missing(command, names, k) > names.len() || !names.contains(
            rotated_name(command, first_missing(command, names, k)),
        ),
    decreases names.len() + 1 - k,
{
    if !(k > names.len() || !names.contains(rotated_name(command, k))) {
        lemma_first_missing_prefix(command, names, k + 1);
    }
}

/// The rotations read are exactly those that exist up to the first missing
/// one: every rotation listed is among the names, and the next one is not.
pub proof fn lemma_log_files_stop_at_the_first_gap(command: Seq<char>, names: Seq<Seq<char>>)
    ensures
        forall|j: nat|
            1 <= j < first_missing(command, names, 1) ==> names.contains(
                #[trigger] rotated_name(command, j),
            ),
        !names.contains(rotated_name(command, first_missing(command, names, 1))),
{
    lemma_first_missing_prefix(command, names, 1);
    let m = first_missing(command, names, 1);
    if names.contains(rotated_name(command, m)) {
        assert(m == names.len() + 1);
        let vals = Seq::new(m, |i: int| rotated_name(command, (i + 1) as nat));
        assert forall|i: int, j: int| 0 <= i < j < vals.len() implies vals[i] != vals[j] by {
            lemma_rotated_names_differ(command, (i + 1) as nat, (j + 1) as nat);
        }
        assert forall|i: int| 0 <= i < vals.len() implies names.contains(#[trigger] vals[i]) by {
            if i + 1 < m {
                assert(names.contains(rotated_name(command, (i + 1) as nat)));
            }
        }
        crate::order::lemma_pigeonhole(names, vals);
    }
}

fn name_listed(names: &[String], name: &str) -> (r: bool)
    ensures
        r == views_of(names@).contains(name@),
{
    let mut i: usize = 0;
    while i < names.len()
        invariant
            i <= names@.len(),
            forall|j: int| 0 <= j < i ==> names@[j]@ != name@,
        decreases names@.len() - i,
    {
        if crate::text::str_equal(names[i].as_str(), name) {
            assert(views_of(names@)[i as int] == name@);
            return true;
        }
        i = i + 1;
    }
    assert forall|j: int| 0 <= j < views_of(names@).len() implies views_of(names@)[j] != name@ by {
        assert(names@[j]@ != name@);
    }
    false
}

fn rotated_log_name(command: &str, n: u64) -> (r: String)
    ensures
        r@ == rotated_name(command@, n as nat),
{
    let mut s = primary_log_name(command);
    s.append(".");
    let d = string_of(decimal_chars(n).as_slice());
    s.append(d.as_str());
    s
}

/// The primary log files of `command` to read, newest first, given the file
/// names in the logs directory: the active file, then `.1`, `.2`, ... while
/// they exist.
pub fn log_files(command: &str, names: &[String]) -> (r: Vec<String>)
    ensures
        views_of(r@) == log_files_spec(command@, views_of(names@)),
{
    let ghost nv = views_of(names@);
    let mut files: Vec<String> = Vec::new();
    files.push(primary_log_name(command));
    let mut n: u128 = 1;
    assert(views_of(files@) =~= seq![command@ + ".log"@] + Seq::new(
        (n - 1) as nat,
        |i: int| rotated_name(command@, (i + 1) as nat),
    ));
    loop
        invariant
            1 <= n <= names@.len() + 1,
            nv == views_of(names@),
            first_missing(command@, nv, 1) == first_missing(command@, nv, n as nat),
            views_of(files@) == seq![command@ + ".log"@] + Seq::new(
                (n - 1) as nat,
                |i: int| rotated_name(command@, (i + 1) as nat),
            ),
        ensures
            first_missing(command@, nv, 1) == n as nat,
        decreases names@.len() + 1 - n,
    {
        if n > names.len() as u128 {
            break;
        }
        let name = rotated_log_name(command, n as u64);
        if !name_listed(names, name.as_str()) {
            break;
        }
        let ghost before = views_of(files@);
        files.push(name);
        proof {
            assert(views_of(files@) =~= before.push(rotated_name(command@, n as nat)));
            assert(views_of(files@) =~= seq![command@ + ".log"@] + Seq::new(
                n as nat,
                |i: int| rotated_name(command@, (i + 1) as nat),
            ));
        }
        n = n + 1;
    }
    files
}

} // verus!
