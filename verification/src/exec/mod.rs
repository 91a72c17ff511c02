//! The rules of `ush exec`: validating a run, choosing and rendering targets and
//! their commands, and recording what each command did.
//!
//! Spawning processes and fanning targets out to worker threads happen around
//! these functions, which decide what to run and how to report it.
pub mod jumpexec;

use vstd::prelude::*;
use crate::json::{self, escape_json_string, Json};
use crate::strutil::StringSet;
use crate::text::{self, chars_of, push_char, push_signed, push_str, replace, string_from};
use crate::time::{self, format_go_duration, format_rfc3339_nano, Duration, SystemTime};

verus! {

/// Why a [`Spec`] cannot run.
#[derive(Clone, Copy, Debug, PartialEq, Eq, Structural)]
pub enum SpecError {
    NoCommand,
    NoTimeout,
    NoParallel,
    NoStdoutBytes,
    NoStderrBytes,
}

/// The message that describes a [`SpecError`].
pub open spec fn spec_error_text(e: SpecError) -> Seq<char> {
    match e {
        SpecError::NoCommand => "command not set"@,
        SpecError::NoTimeout => "timeout must be greater than zero"@,
        SpecError::NoParallel => "parallel must be greater than zero"@,
        SpecError::NoStdoutBytes => "stdout_bytes must be greater than zero"@,
        SpecError::NoStderrBytes => "stderr_bytes must be greater than zero"@,
    }
}

impl SpecError {
    /// The message that describes this error.
    pub fn message(&self) -> (s: String)
        ensures
            s@ == spec_error_text(*self),
    {
        match self {
            SpecError::NoCommand => string_from("command not set"),
            SpecError::NoTimeout => string_from("timeout must be greater than zero"),
            SpecError::NoParallel => string_from("parallel must be greater than zero"),
            SpecError::NoStdoutBytes => string_from("stdout_bytes must be greater than zero"),
            SpecError::NoStderrBytes => string_from("stderr_bytes must be greater than zero"),
        }
    }
}

/// What to run for each target, and how.
pub struct Spec {
    /// The command template; `{}` stands for the target.
    pub command: String,
    /// The argument templates; `{}` stands for the target.
    pub args: Vec<String>,
    /// How long each command may run.
    pub timeout: Duration,
    /// How many commands run at once.
    pub parallel: usize,
    /// How many bytes of each command's stdout are kept.
    pub stdout_bytes: usize,
    /// How many bytes of each command's stderr are kept.
    pub stderr_bytes: usize,
}

/// The outcome of validating a spec: the first missing setting, in the order
/// command, timeout, parallelism, stdout limit, stderr limit.
pub open spec fn spec_validation(spec: Spec) -> Result<(), SpecError> {
    if spec.command@.len() == 0 {
        Err(SpecError::NoCommand)
    } else if spec.timeout@ == 0 {
        Err(SpecError::NoTimeout)
    } else if spec.parallel == 0 {
        Err(SpecError::NoParallel)
    } else if spec.stdout_bytes == 0 {
        Err(SpecError::NoStdoutBytes)
    } else if spec.stderr_bytes == 0 {
        Err(SpecError::NoStderrBytes)
    } else {
        Ok(())
    }
}

impl Spec {
    pub fn validate(&self) -> (r: Result<(), SpecError>)
        ensures
            r == spec_validation(*self),
    {
        if self.command.as_str().is_empty() {
            return Err(SpecError::NoCommand);
        }
        if self.timeout.is_zero() {
            return Err(SpecError::NoTimeout);
        }
        if self.parallel == 0 {
            return Err(SpecError::NoParallel);
        }
        if self.stdout_bytes == 0 {
            return Err(SpecError::NoStdoutBytes);
        }
        if self.stderr_bytes == 0 {
            return Err(SpecError::NoStderrBytes);
        }
        Ok(())
    }
}

/// What one command did for one target.
pub struct ExecResult {
    pub target: String,
    /// The run time, rendered as Go renders durations.
    pub duration: String,
    pub start_time: SystemTime,
    pub end_time: SystemTime,
    pub exit_status: i32,
    pub stdout: String,
    pub stderr: String,
    /// Why the command failed, or empty.
    pub error: String,
}

/// The one-line JSON object that records a result.
pub open spec fn exec_result_json(r: ExecResult) -> Seq<char> {
    "{\"target\":"@ + json::json_quoted(r.target@) + ",\"duration\":"@ + json::json_quoted(
        r.duration@,
    ) + ",\"start_time\":"@ + json::json_quoted(time::rfc3339_nano(r.start_time@))
        + ",\"end_time\":"@ + json::json_quoted(time::rfc3339_nano(r.end_time@))
        + ",\"exit_status\":"@ + text::signed_decimal(r.exit_status as int) + ",\"stdout\":"@
        + json::json_quoted(r.stdout@) + ",\"stderr\":"@ + json::json_quoted(r.stderr@)
        + ",\"error\":"@ + json::json_quoted(r.error@) + "}"@
}

impl ExecResult {
    /// The result as a one-line JSON object.
    pub fn to_json(&self) -> (s: String)
        ensures
            s@ == exec_result_json(*self),
    {
        let mut out = String::new();
        push_str(&mut out, "{\"target\":");
        push_str(&mut out, escape_json_string(self.target.as_str()).as_str());
        push_str(&mut out, ",\"duration\":");
        push_str(&mut out, escape_json_string(self.duration.as_str()).as_str());
        push_str(&mut out, ",\"start_time\":");
        push_str(&mut out, escape_json_string(format_rfc3339_nano(self.start_time).as_str()).as_str());
        push_str(&mut out, ",\"end_time\":");
        push_str(&mut out, escape_json_string(format_rfc3339_nano(self.end_time).as_str()).as_str());
        push_str(&mut out, ",\"exit_status\":");
        push_signed(&mut out, self.exit_status as i64);
        push_str(&mut out, ",\"stdout\":");
        push_str(&mut out, escape_json_string(self.stdout.as_str()).as_str());
        push_str(&mut out, ",\"stderr\":");
        push_str(&mut out, escape_json_string(self.stderr.as_str()).as_str());
        push_str(&mut out, ",\"error\":");
        push_str(&mut out, escape_json_string(self.error.as_str()).as_str());
        push_str(&mut out, "}");
        assert(out@ =~= exec_result_json(*self));
        out
    }
}

/// The text that std's `String::from_utf8_lossy` makes of a byte sequence.
pub uninterp spec fn utf8_lossy(bytes: Seq<u8>) -> Seq<char>;

/// std `String::from_utf8_lossy`: the bytes as text, with each invalid UTF-8
/// sequence replaced by U+FFFD. Stated: the result is the named function of the
/// bytes, and valid UTF-8 comes back decoded unchanged. How invalid sequences
/// are replaced is left unsaid.
#[verifier::external_body]
fn from_utf8_lossy(bytes: &[u8]) -> (s: String)
    ensures
        s@ == utf8_lossy(bytes@),
        vstd::utf8::valid_utf8(bytes@) ==> s@ == vstd::utf8::decode_utf8(bytes@),
{
    String::from_utf8_lossy(bytes).into_owned()
}

/// What is kept of a command's output under a byte limit: all of it when it fits,
/// else the first `limit` bytes followed by `[...]`.
pub open spec fn capture_text(data: Seq<u8>, limit: nat) -> Seq<char> {
    if data.len() <= limit {
        utf8_lossy(data)
    } else {
        utf8_lossy(data.take(limit as int)) + "[...]"@
    }
}

/// Keeps at most `limit` bytes of a command's output as text, marking a cut with `[...]`.
pub fn lossy_capture(data: &[u8], limit: usize) -> (s: String)
    ensures
        s@ == capture_text(data@, limit as nat),
        data@.len() <= limit && vstd::utf8::valid_utf8(data@) ==> s@ == vstd::utf8::decode_utf8(
            data@,
        ),
        data@.len() > limit && vstd::utf8::valid_utf8(data@.take(limit as int)) ==> s@
            == vstd::utf8::decode_utf8(data@.take(limit as int)) + "[...]"@,
{
    if data.len() <= limit {
        from_utf8_lossy(data)
    } else {
        let (head, _) = data.split_at(limit);
        assert(head@ == data@.take(limit as int));
        let mut s = from_utf8_lossy(head);
        push_str(&mut s, "[...]");
        s
    }
}

/// A command template with every `{}` replaced by the target.
pub fn substitute_target(template: &str, target: &str) -> (s: String)
    ensures
        s@ == text::replace_all(template@, "{}"@, target@),
{
    proof {
        reveal_strlit("{}");
    }
    replace(template, "{}", target)
}

/// The exit status and error text recorded for a finished command.
pub open spec fn outcome(success: bool, code: Option<i32>, signal: Option<i32>) -> (i32, Seq<char>) {
    if success {
        (0, seq![])
    } else {
        match signal {
            Some(sig) => (
                -1i32,
                if sig == 9 {
                    "signal: killed"@
                } else {
                    "signal: "@ + text::signed_decimal(sig as int)
                },
            ),
            None => {
                let status: i32 = match code {
                    Some(c) => c,
                    None => -1i32,
                };
                (status, "exit status "@ + text::signed_decimal(status as int))
            },
        }
    }
}

/// The exit status and error text for a command that finished with the given
/// success flag, exit code and terminating signal. A command killed by a signal
/// reports status -1.
pub fn status_outcome(success: bool, code: Option<i32>, signal: Option<i32>) -> (r: (i32, String))
    ensures
        r.0 == outcome(success, code, signal).0,
        r.1@ == outcome(success, code, signal).1,
{
    if success {
        return (0, String::new());
    }
    match signal {
        Some(sig) => {
            if sig == 9 {
                (-1, string_from("signal: killed"))
            } else {
                let mut e = string_from("signal: ");
                push_signed(&mut e, sig as i64);
                (-1, e)
            }
        },
        None => {
            let status = match code {
                Some(c) => c,
                None => -1,
            };
            let mut e = string_from("exit status ");
            push_signed(&mut e, status as i64);
            (status, e)
        },
    }
}

/// The run time between two instants as Go renders it; zero when the clock went back.
pub fn elapsed_text(start: SystemTime, end: SystemTime) -> (s: String)
    ensures
        s@ == time::go_duration(if end@ >= start@ {
            (end@ - start@) as nat
        } else {
            0
        }),
{
    match end.duration_since(start) {
        Some(d) => format_go_duration(d),
        None => format_go_duration(Duration::zero()),
    }
}

/// Whether a line of input names a target to run: it is not empty, not a `#`
/// comment, and not excluded.
pub open spec fn is_target(line: Seq<char>, exclude: Option<Set<Seq<char>>>) -> bool {
    &&& line.len() > 0
    &&& line[0] != '#'
    &&& match exclude {
        Some(x) => !x.contains(line),
        None => true,
    }
}

/// Whether a line of input names a target to run.
pub fn accept_target(line: &str, exclude: Option<&StringSet>) -> (r: bool)
    ensures
        r == is_target(
            line@,
            match exclude {
                Some(x) => Some(x@),
                None => None,
            },
        ),
{
    let cs = chars_of(line);
    if cs.len() == 0 || cs[0] == '#' {
        return false;
    }
    match exclude {
        Some(x) => !x.contains(line),
        None => true,
    }
}

// ---------------------------------------------------------------------------
// A result's JSON line reads back as the result.

/// The members of a JSON line with the given field values: each field's key, its
/// text, and the value that text stands for.
pub open spec fn result_members(
    target: Seq<char>,
    duration: Seq<char>,
    start: Seq<char>,
    end: Seq<char>,
    status: int,
    stdout: Seq<char>,
    stderr: Seq<char>,
    error: Seq<char>,
) -> Seq<(Seq<char>, Seq<char>, Json)> {
    seq![
        ("target"@, json::json_quoted(target), Json::Str(target)),
        ("duration"@, json::json_quoted(duration), Json::Str(duration)),
        ("start_time"@, json::json_quoted(start), Json::Str(start)),
        ("end_time"@, json::json_quoted(end), Json::Str(end)),
        ("exit_status"@, text::signed_decimal(status), Json::Num(text::signed_decimal(status))),
        ("stdout"@, json::json_quoted(stdout), Json::Str(stdout)),
        ("stderr"@, json::json_quoted(stderr), Json::Str(stderr)),
        ("error"@, json::json_quoted(error), Json::Str(error)),
    ]
}

/// The members of a result's JSON line.
pub open spec fn exec_result_members(r: ExecResult) -> Seq<(Seq<char>, Seq<char>, Json)> {
    result_members(
        r.target@,
        r.duration@,
        time::rfc3339_nano(r.start_time@),
        time::rfc3339_nano(r.end_time@),
        r.exit_status as int,
        r.stdout@,
        r.stderr@,
        r.error@,
    )
}

/// The fields of a result as the JSON value parser reads them from its line.
pub open spec fn exec_result_fields(r: ExecResult) -> Seq<(Seq<char>, Json)> {
    json::members_json(exec_result_members(r))
}

proof fn lemma_lead(lit: Seq<char>, c: char, key: Seq<char>)
    requires
        forall|i: int| 0 <= i < key.len() ==> ('a' <= #[trigger] key[i] <= 'z' || key[i] == '_'),
        lit =~= seq![c, '"'] + key + seq!['"', ':'],
    ensures
        lit == seq![c] + json::json_quoted(key) + seq![':'],
{
    json::lemma_escape_body_plain(key);
    assert(lit =~= seq![c] + json::json_quoted(key) + seq![':']);
}

/// The literal text before each value of a result's JSON line is a brace or a comma,
/// the key as a JSON string, and a colon.
proof fn lemma_leads()
    ensures
        "{\"target\":"@ == seq!['{'] + json::json_quoted("target"@) + seq![':'],
        ",\"duration\":"@ == seq![','] + json::json_quoted("duration"@) + seq![':'],
        ",\"start_time\":"@ == seq![','] + json::json_quoted("start_time"@) + seq![':'],
        ",\"end_time\":"@ == seq![','] + json::json_quoted("end_time"@) + seq![':'],
        ",\"exit_status\":"@ == seq![','] + json::json_quoted("exit_status"@) + seq![':'],
        ",\"stdout\":"@ == seq![','] + json::json_quoted("stdout"@) + seq![':'],
        ",\"stderr\":"@ == seq![','] + json::json_quoted("stderr"@) + seq![':'],
        ",\"error\":"@ == seq![','] + json::json_quoted("error"@) + seq![':'],
        "}"@ == seq!['}'],
{
    reveal_strlit("target");
    reveal_strlit("{\"target\":");
    lemma_lead("{\"target\":"@, '{', "target"@);
    reveal_strlit("duration");
    reveal_strlit(",\"duration\":");
    lemma_lead(",\"duration\":"@, ',', "duration"@);
    reveal_strlit("start_time");
    reveal_strlit(",\"start_time\":");
    lemma_lead(",\"start_time\":"@, ',', "start_time"@);
    reveal_strlit("end_time");
    reveal_strlit(",\"end_time\":");
    lemma_lead(",\"end_time\":"@, ',', "end_time"@);
    reveal_strlit("exit_status");
    reveal_strlit(",\"exit_status\":");
    lemma_lead(",\"exit_status\":"@, ',', "exit_status"@);
    reveal_strlit("stdout");
    reveal_strlit(",\"stdout\":");
    lemma_lead(",\"stdout\":"@, ',', "stdout"@);
    reveal_strlit("stderr");
    reveal_strlit(",\"stderr\":");
    lemma_lead(",\"stderr\":"@, ',', "stderr"@);
    reveal_strlit("error");
    reveal_strlit(",\"error\":");
    lemma_lead(",\"error\":"@, ',', "error"@);
    reveal_strlit("}");
}

proof fn lemma_members_text_unfold(ms: Seq<(Seq<char>, Seq<char>, Json)>, n: int, first: bool)
    requires
        0 <= n < ms.len(),
    ensures
        json::members_text(ms.skip(n), first) == (if first {
            seq![]
        } else {
            seq![',']
        }) + json::json_quoted(ms[n].0) + seq![':'] + ms[n].1 + json::members_text(ms.skip(n + 1), false),
{
    assert(ms.skip(n).drop_first() =~= ms.skip(n + 1));
    assert(ms.skip(n)[0] == ms[n]);
}

proof fn lemma_shift(x: Seq<char>, a: Seq<char>, b: Seq<char>, c: Seq<char>)
    ensures
        x + (a + b + c) == x + a + b + c,
{
    assert(x + (a + b + c) =~= x + a + b + c);
}

/// The object text of members with a result's keys, in order.
proof fn lemma_result_object_text(ms: Seq<(Seq<char>, Seq<char>, Json)>)
    requires
        ms.len() == 8,
        ms[0].0 == "target"@,
        ms[1].0 == "duration"@,
        ms[2].0 == "start_time"@,
        ms[3].0 == "end_time"@,
        ms[4].0 == "exit_status"@,
        ms[5].0 == "stdout"@,
        ms[6].0 == "stderr"@,
        ms[7].0 == "error"@,
    ensures
        json::object_text(ms) == "{\"target\":"@ + ms[0].1 + ",\"duration\":"@ + ms[1].1 + ",\"start_time\":"@ + ms[2].1 + ",\"end_time\":"@ + ms[3].1 + ",\"exit_status\":"@ + ms[4].1 + ",\"stdout\":"@ + ms[5].1 + ",\"stderr\":"@ + ms[6].1 + ",\"error\":"@ + ms[7].1 + "}"@,
{
    lemma_leads();
    lemma_members_text_unfold(ms, 0, true);
    lemma_members_text_unfold(ms, 1, false);
    lemma_members_text_unfold(ms, 2, false);
    lemma_members_text_unfold(ms, 3, false);
    lemma_members_text_unfold(ms, 4, false);
    lemma_members_text_unfold(ms, 5, false);
    lemma_members_text_unfold(ms, 6, false);
    lemma_members_text_unfold(ms, 7, false);
    assert(ms.skip(0) =~= ms);
    assert(ms.skip(8).len() == 0);
    let t0 = json::members_text(ms.skip(0), true);
    let t1 = json::members_text(ms.skip(1), false);
    let t2 = json::members_text(ms.skip(2), false);
    let t3 = json::members_text(ms.skip(3), false);
    let t4 = json::members_text(ms.skip(4), false);
    let t5 = json::members_text(ms.skip(5), false);
    let t6 = json::members_text(ms.skip(6), false);
    let t7 = json::members_text(ms.skip(7), false);
    let t8 = json::members_text(ms.skip(8), false);
    assert(t8 == seq!['}']);
    let p0 = "{\"target\":"@ + ms[0].1;
    let p1 = p0 + ",\"duration\":"@ + ms[1].1;
    let p2 = p1 + ",\"start_time\":"@ + ms[2].1;
    let p3 = p2 + ",\"end_time\":"@ + ms[3].1;
    let p4 = p3 + ",\"exit_status\":"@ + ms[4].1;
    let p5 = p4 + ",\"stdout\":"@ + ms[5].1;
    let p6 = p5 + ",\"stderr\":"@ + ms[6].1;
    let p7 = p6 + ",\"error\":"@ + ms[7].1;
    assert(seq!['{'] + t0 =~= p0 + t1);
    assert(t1 == ",\"duration\":"@ + ms[1].1 + t2);
    lemma_shift(p0, ",\"duration\":"@, ms[1].1, t2);
    assert(t2 == ",\"start_time\":"@ + ms[2].1 + t3);
    lemma_shift(p1, ",\"start_time\":"@, ms[2].1, t3);
    assert(t3 == ",\"end_time\":"@ + ms[3].1 + t4);
    lemma_shift(p2, ",\"end_time\":"@, ms[3].1, t4);
    assert(t4 == ",\"exit_status\":"@ + ms[4].1 + t5);
    lemma_shift(p3, ",\"exit_status\":"@, ms[4].1, t5);
    assert(t5 == ",\"stdout\":"@ + ms[5].1 + t6);
    lemma_shift(p4, ",\"stdout\":"@, ms[5].1, t6);
    assert(t6 == ",\"stderr\":"@ + ms[6].1 + t7);
    lemma_shift(p5, ",\"stderr\":"@, ms[6].1, t7);
    assert(t7 == ",\"error\":"@ + ms[7].1 + t8);
    lemma_shift(p6, ",\"error\":"@, ms[7].1, t8);
    assert(json::object_text(ms) == p7 + t8);
}

/// The JSON line of a result is the object text of its members.
proof fn lemma_exec_result_json_is_object_text(r: ExecResult)
    ensures
        exec_result_json(r) == json::object_text(exec_result_members(r)),
{
    let ms = exec_result_members(r);
    lemma_result_object_text(ms);
}

/// Every value text of a result's JSON line reads as its value.
proof fn lemma_result_values_read(
    target: Seq<char>,
    duration: Seq<char>,
    start: Seq<char>,
    end: Seq<char>,
    status: int,
    stdout: Seq<char>,
    stderr: Seq<char>,
    error: Seq<char>,
)
    ensures
        forall|j: int|
            0 <= j < 8 ==> json::reads_as(
                (#[trigger] result_members(target, duration, start, end, status, stdout, stderr, error)[j]).1,
                result_members(target, duration, start, end, status, stdout, stderr, error)[j].2,
            ),
{
    json::lemma_string_reads_as(target);
    json::lemma_string_reads_as(duration);
    json::lemma_string_reads_as(start);
    json::lemma_string_reads_as(end);
    json::lemma_decimal_reads_as(status);
    json::lemma_string_reads_as(stdout);
    json::lemma_string_reads_as(stderr);
    json::lemma_string_reads_as(error);
}

/// A JSON line with a result's keys reads back as its members, keeping each.
proof fn lemma_result_line_reads_back(
    target: Seq<char>,
    duration: Seq<char>,
    start: Seq<char>,
    end: Seq<char>,
    status: int,
    stdout: Seq<char>,
    stderr: Seq<char>,
    error: Seq<char>,
)
    ensures
        ({
            let ms = result_members(target, duration, start, end, status, stdout, stderr, error);
            &&& json::value_at(json::object_text(ms), 0) == Some(
                (Json::Obj(json::members_json(ms)), json::object_text(ms).len()),
            )
            &&& json::last_wins(json::members_json(ms)) == json::members_json(ms)
        }),
{
    let ms = result_members(target, duration, start, end, status, stdout, stderr, error);
    lemma_result_values_read(target, duration, start, end, status, stdout, stderr, error);
    json::lemma_object_text_parses(ms, seq![]);
    assert(json::object_text(ms) + Seq::<char>::empty() =~= json::object_text(ms));
    let fs = json::members_json(ms);
    assert(fs.len() == 8);
    assert(fs[0].0 == ms[0].0 && fs[1].0 == ms[1].0 && fs[2].0 == ms[2].0 && fs[3].0 == ms[3].0);
    assert(fs[4].0 == ms[4].0 && fs[5].0 == ms[5].0 && fs[6].0 == ms[6].0 && fs[7].0 == ms[7].0);
    lemma_result_keys_distinct(fs);
    json::lemma_last_wins_distinct(fs);
}

/// Fields with a result's keys, in order, have distinct keys.
proof fn lemma_result_keys_distinct(fs: Seq<(Seq<char>, Json)>)
    requires
        fs.len() == 8,
        fs[0].0 == "target"@,
        fs[1].0 == "duration"@,
        fs[2].0 == "start_time"@,
        fs[3].0 == "end_time"@,
        fs[4].0 == "exit_status"@,
        fs[5].0 == "stdout"@,
        fs[6].0 == "stderr"@,
        fs[7].0 == "error"@,
    ensures
        forall|i: int, j: int| 0 <= i < j < fs.len() ==> (#[trigger] fs[i]).0 != (#[trigger] fs[j]).0,
{
    reveal_strlit("target");
    reveal_strlit("duration");
    reveal_strlit("start_time");
    reveal_strlit("end_time");
    reveal_strlit("exit_status");
    reveal_strlit("stdout");
    reveal_strlit("stderr");
    reveal_strlit("error");
    assert forall|i: int, j: int| 0 <= i < j < fs.len() implies (#[trigger] fs[i]).0 != (#[trigger] fs[j]).0 by {
        if i == 0 && j == 1 {
            assert(fs[0].0.len() != fs[1].0.len());
        } else if i == 0 && j == 2 {
            assert(fs[0].0.len() != fs[2].0.len());
        } else if i == 0 && j == 3 {
            assert(fs[0].0.len() != fs[3].0.len());
        } else if i == 0 && j == 4 {
            assert(fs[0].0.len() != fs[4].0.len());
        } else if i == 0 && j == 5 {
            assert(fs[0].0[0] != fs[5].0[0]);
        } else if i == 0 && j == 6 {
            assert(fs[0].0[0] != fs[6].0[0]);
        } else if i == 0 && j == 7 {
            assert(fs[0].0.len() != fs[7].0.len());
        } else if i == 1 && j == 2 {
            assert(fs[1].0.len() != fs[2].0.len());
        } else if i == 1 && j == 3 {
            assert(fs[1].0[0] != fs[3].0[0]);
        } else if i == 1 && j == 4 {
            assert(fs[1].0.len() != fs[4].0.len());
        } else if i == 1 && j == 5 {
            assert(fs[1].0.len() != fs[5].0.len());
        } else if i == 1 && j == 6 {
            assert(fs[1].0.len() != fs[6].0.len());
        } else if i == 1 && j == 7 {
            assert(fs[1].0.len() != fs[7].0.len());
        } else if i == 2 && j == 3 {
            assert(fs[2].0.len() != fs[3].0.len());
        } else if i == 2 && j == 4 {
            assert(fs[2].0.len() != fs[4].0.len());
        } else if i == 2 && j == 5 {
            assert(fs[2].0.len() != fs[5].0.len());
        } else if i == 2 && j == 6 {
            assert(fs[2].0.len() != fs[6].0.len());
        } else if i == 2 && j == 7 {
            assert(fs[2].0.len() != fs[7].0.len());
        } else if i == 3 && j == 4 {
            assert(fs[3].0.len() != fs[4].0.len());
        } else if i == 3 && j == 5 {
            assert(fs[3].0.len() != fs[5].0.len());
        } else if i == 3 && j == 6 {
            assert(fs[3].0.len() != fs[6].0.len());
        } else if i == 3 && j == 7 {
            assert(fs[3].0.len() != fs[7].0.len());
        } else if i == 4 && j == 5 {
            assert(fs[4].0.len() != fs[5].0.len());
        } else if i == 4 && j == 6 {
            assert(fs[4].0.len() != fs[6].0.len());
        } else if i == 4 && j == 7 {
            assert(fs[4].0.len() != fs[7].0.len());
        } else if i == 5 && j == 6 {
            assert(fs[5].0[3] != fs[6].0[3]);
        } else if i == 5 && j == 7 {
            assert(fs[5].0.len() != fs[7].0.len());
        } else if i == 6 && j == 7 {
            assert(fs[6].0.len() != fs[7].0.len());
        }
    }
}

/// Reading the JSON line of a result back with the JSON value parser gives an
/// object holding the result's fields in order (each text as a string, the exit
/// status as a number) and consumes the whole line; `parse_exec_result` then keeps
/// every field.
#[verifier::spinoff_prover]
pub proof fn lemma_exec_result_json_reads_back(r: ExecResult)
    ensures
        json::value_at(exec_result_json(r), 0) == Some(
            (Json::Obj(exec_result_fields(r)), exec_result_json(r).len()),
        ),
        json::last_wins(exec_result_fields(r)) == exec_result_fields(r),
{
    lemma_exec_result_json_is_object_text(r);
    lemma_result_line_reads_back(
        r.target@,
        r.duration@,
        time::rfc3339_nano(r.start_time@),
        time::rfc3339_nano(r.end_time@),
        r.exit_status as int,
        r.stdout@,
        r.stderr@,
        r.error@,
    );
}

} // verus!
