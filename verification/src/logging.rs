//! What the log leaves out, and where it goes.

use vstd::prelude::*;
use vstd::utf8::{decode_utf8, encode_utf8, encode_utf8_decode_utf8, valid_utf8};

use crate::utils::text::{push_text, string_of, utf8_text};

verus! {

/// What in a log line is taken for an IPv4 address.
pub const IPV4_PATTERN: &'static str = r"\b(?:\d{1,3}\.){3}\d{1,3}\b";

/// What stands in its place.
pub const REDACTED: &'static str = "[redacted]";

/// The text with every match of a pattern replaced.
pub uninterp spec fn regex_replaced(
    pattern: Seq<char>,
    text: Seq<char>,
    with: Seq<char>,
) -> Seq<char>;

/// `Regex::new` and `Regex::replace_all` on it: the text with every match of the pattern
/// replaced. `None` when the pattern is none, which the one for addresses is not.
#[verifier::external_body]
fn regex_replace(pattern: &str, text: &str, with: &str) -> (r: Option<String>)
    ensures
        pattern@ == IPV4_PATTERN@ ==> r is Some,
        r matches Some(t) ==> t@ == regex_replaced(pattern@, text@, with@),
{
    let regex = regex::Regex::new(pattern).ok()?;
    Some(regex.replace_all(text, with).into_owned())
}

/// The bytes that a log line comes to: those of the redacted text, or the raw ones where
/// there is no text.
pub fn log_bytes(raw: &[u8], redacted: Option<String>) -> (r: Vec<u8>)
    ensures
        r@ == match redacted {
            Some(text) => encode_utf8(text@),
            None => raw@,
        },
{
    let mut out: Vec<u8> = Vec::new();
    match redacted {
        Some(text) => out.extend_from_slice(text.as_str().as_bytes()),
        None => out.extend_from_slice(raw),
    }
    out
}

/// A log line without IPv4 addresses. Bytes that are no text stay as they are.
pub fn redact(raw: &[u8]) -> (r: Vec<u8>)
    ensures
        r@ == if valid_utf8(raw@) {
            encode_utf8(regex_replaced(IPV4_PATTERN@, decode_utf8(raw@), REDACTED@))
        } else {
            raw@
        },
{
    match utf8_text(raw) {
        Some(text) => {
            let redacted: Option<String> = regex_replace(IPV4_PATTERN, text.as_str(), REDACTED);
            proof {
                encode_utf8_decode_utf8(text@);
            }
            log_bytes(raw, redacted)
        },
        None => log_bytes(raw, None),
    }
}

/// Where the log goes, and in which form.
#[derive(Debug, Clone, Copy, PartialEq, Eq, Structural)]
pub enum LogSink {
    /// JSON, into a file per day.
    JsonFile,
    /// JSON, to the standard output.
    JsonStdout,
    /// Lines with colours, to the console.
    Console,
}

/// Where the log goes. A directory counts only in production.
pub open spec fn sink_of(has_dir: bool, is_production: bool) -> LogSink {
    if !is_production {
        LogSink::Console
    } else if has_dir {
        LogSink::JsonFile
    } else {
        LogSink::JsonStdout
    }
}

/// Where the log goes. A directory counts only in production.
pub fn sink_for(has_dir: bool, is_production: bool) -> (r: LogSink)
    ensures
        r == sink_of(has_dir, is_production),
{
    if !is_production {
        LogSink::Console
    } else if has_dir {
        LogSink::JsonFile
    } else {
        LogSink::JsonStdout
    }
}

/// Whether panics are logged before they take the process down: in production, wherever the
/// log goes.
pub fn logs_panics(is_production: bool) -> (r: bool)
    ensures
        r == is_production,
{
    is_production
}

/// How the logger is set up.
#[derive(Debug, Clone, Copy, PartialEq, Eq, Structural)]
pub struct LogSetup {
    /// Where the log goes.
    pub sink: LogSink,
    /// Whether panics are logged.
    pub panics: bool,
}

/// A request to set the logger up.
#[derive(Debug, Clone, Copy, PartialEq, Eq, Structural)]
pub struct InitCall {
    /// Whether it names a directory.
    pub has_dir: bool,
    /// Whether it is for production.
    pub is_production: bool,
}

impl InitCall {
    /// What the request asks for.
    pub open spec fn setup(self) -> LogSetup {
        LogSetup {
            sink: sink_of(self.has_dir, self.is_production),
            panics: self.is_production,
        }
    }
}

/// How the logger is set up after a request, when it was set up as `current` before: a logger
/// that is there stays as it is.
pub open spec fn after_init(current: Option<LogSetup>, call: InitCall) -> LogSetup {
    match current {
        Some(setup) => setup,
        None => call.setup(),
    }
}

/// How the logger is set up after requests one after the other.
pub open spec fn after_inits(current: Option<LogSetup>, calls: Seq<InitCall>) -> Option<LogSetup>
    decreases calls.len(),
{
    if calls.len() == 0 {
        current
    } else {
        Some(after_init(after_inits(current, calls.drop_last()), calls.last()))
    }
}

/// Decides what a request to set the logger up comes to: how the logger is set up then, and
/// whether that has to be done now.
pub fn init_step(current: Option<LogSetup>, call: InitCall) -> (r: (LogSetup, bool))
    ensures
        r.0 == after_init(current, call),
        r.1 == (current is None),
{
    match current {
        Some(setup) => (setup, false),
        None => (
            LogSetup {
                sink: sink_for(call.has_dir, call.is_production),
                panics: logs_panics(call.is_production),
            },
            true,
        ),
    }
}

/// Only the first request counts: whatever is asked for later, the logger stays as the first
/// one set it up. In production that is with JSON, and panics are logged.
pub proof fn lemma_only_first_init_counts(first: InitCall, later: Seq<InitCall>)
    ensures
        after_inits(None, seq![first] + later) == Some(first.setup()),
        first.is_production ==> first.setup().sink != LogSink::Console && first.setup().panics,
    decreases later.len(),
{
    let calls = seq![first] + later;
    if later.len() == 0 {
        assert(calls.drop_last() =~= Seq::empty());
        assert(after_inits(None, calls.drop_last()) is None);
    } else {
        lemma_only_first_init_counts(first, later.drop_last());
        assert(calls.drop_last() =~= seq![first] + later.drop_last());
    }
}

/// What is said once the logger is there.
pub fn banner(has_dir: bool, is_production: bool) -> (r: String)
    ensures
        r@ == "--- [DEBUG] Netrunner Logger initialized (Mode: "@ + (if is_production {
            "PROD"@
        } else {
            "DEBUG"@
        }) + ", File: "@ + (if has_dir {
            "true"@
        } else {
            "false"@
        }) + ") ---"@,
{
    let mut out: Vec<char> = Vec::new();
    push_text(&mut out, "--- [DEBUG] Netrunner Logger initialized (Mode: ");
    push_text(
        &mut out,
        if is_production {
            "PROD"
        } else {
            "DEBUG"
        },
    );
    push_text(&mut out, ", File: ");
    push_text(
        &mut out,
        if has_dir {
            "true"
        } else {
            "false"
        },
    );
    push_text(&mut out, ") ---");
    assert(out@ =~= "--- [DEBUG] Netrunner Logger initialized (Mode: "@ + (if is_production {
        "PROD"@
    } else {
        "DEBUG"@
    }) + ", File: "@ + (if has_dir {
        "true"@
    } else {
        "false"@
    }) + ") ---"@);
    string_of(&out)
}

/// In production the log is JSON, into files where there is a directory and to the standard
/// output where there is none. Otherwise it goes to the console, directory or not.
pub proof fn lemma_sinks(has_dir: bool)
    ensures
        sink_of(has_dir, false) == LogSink::Console,
        sink_of(true, true) == LogSink::JsonFile,
        sink_of(false, true) == LogSink::JsonStdout,
{
}

/// What is taken out of log lines are four numbers of one to three digits with dots between
/// them, at the borders of words.
pub proof fn lemma_redacted_pattern(text: Seq<char>)
    ensures
        regex_replaced(IPV4_PATTERN@, text, REDACTED@) == regex_replaced(
            r"\b(?:\d{1,3}\.){3}\d{1,3}\b"@,
            text,
            "[redacted]"@,
        ),
{
}

} // verus!
