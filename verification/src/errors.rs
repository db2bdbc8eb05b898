//! Protocol errors, each with the reaction that it calls for.
//!
//! An error says where the protocol broke ([`ErrorStage`]) and what to do about it
//! ([`ErrorAction`]), so that callers never decide by themselves.

use bytes::Bytes;
use vstd::prelude::*;

use crate::buffers::{bytes_slice, bytes_view};
use crate::utils::text::{hex_byte, push_hex, push_text, string_of};

verus! {

/// What to do with the connection.
#[derive(Debug, Clone, Copy, PartialEq, Eq, Structural)]
pub enum ErrorAction {
    /// Not enough bytes yet: wait for the next read.
    Wait,
    /// Relay as ordinary TLS instead of closing.
    Redirect,
    /// Tampering or loss of synchronisation: close and reconnect.
    Drop,
}

/// The layer at which the error came up, with the reason.
#[derive(Debug)]
pub enum ErrorStage {
    /// Records and encryption.
    Tls(&'static str),
    /// The hello messages and the key exchange.
    Handshake(&'static str),
    /// The data phase.
    ApplicationData(&'static str),
}

/// An error of the protocol.
#[derive(Debug)]
pub struct TlsError {
    /// Where and why it broke.
    pub stage: ErrorStage,
    /// What to do about it.
    pub action: ErrorAction,
    /// The raw bytes to relay or to look at; often none.
    pub data: Bytes,
}

/// How loudly an error is logged.
#[derive(Debug, Clone, Copy, PartialEq, Eq, Structural)]
pub enum Severity {
    /// Of interest while tracing only.
    Trace,
    /// An error.
    Error,
}

/// What is logged of an error.
#[derive(Debug)]
pub struct ErrorReport {
    /// How loudly.
    pub severity: Severity,
    /// The name of the layer.
    pub stage: &'static str,
    /// The first bytes of the data, in hexadecimal.
    pub preview: String,
    /// The reason, marked by the action.
    pub message: String,
}

impl ErrorStage {
    /// The name of the layer.
    pub open spec fn layer(self) -> Seq<char> {
        match self {
            ErrorStage::Tls(_) => "TLS"@,
            ErrorStage::Handshake(_) => "Handshake"@,
            ErrorStage::ApplicationData(_) => "AppData"@,
        }
    }

    /// The reason.
    pub open spec fn reason(self) -> Seq<char> {
        match self {
            ErrorStage::Tls(m) => m@,
            ErrorStage::Handshake(m) => m@,
            ErrorStage::ApplicationData(m) => m@,
        }
    }
}

/// Bytes in hexadecimal, with commas between them.
pub open spec fn hex_items(s: Seq<u8>) -> Seq<char>
    decreases s.len(),
{
    if s.len() == 0 {
        Seq::empty()
    } else if s.len() == 1 {
        hex_byte(s[0])
    } else {
        hex_items(s.drop_last()) + ", "@ + hex_byte(s.last())
    }
}

/// What is shown of the data of an error: at most eight bytes.
pub open spec fn preview_text(data: Seq<u8>) -> Seq<char> {
    if data.len() == 0 {
        "No data"@
    } else if data.len() > 8 {
        "Hex: ["@ + hex_items(data.subrange(0, 8)) + "]..."@
    } else {
        "Hex: ["@ + hex_items(data) + "]"@
    }
}

/// The mark that the action puts in front of the reason.
pub open spec fn action_mark(action: ErrorAction) -> Seq<char> {
    match action {
        ErrorAction::Wait => Seq::empty(),
        ErrorAction::Redirect => "⚠️ "@,
        ErrorAction::Drop => "🚨 "@,
    }
}

impl TlsError {
    /// Whether this is the given error, with the given data.
    pub open spec fn is_error(self, stage: ErrorStage, action: ErrorAction, data: Seq<u8>) -> bool {
        self.stage == stage && self.action == action && bytes_view(self.data) == data
    }

    /// Puts an error together.
    pub fn new(stage: ErrorStage, action: ErrorAction, data: Bytes) -> (r: Self)
        ensures
            r.stage == stage,
            r.action == action,
            r.data == data,
    {
        Self { stage, action, data }
    }

    /// What is logged of this error: the layer, the reason with the mark of the action,
    /// a preview of the data, and how loudly.
    pub fn log_error(&self) -> (r: ErrorReport)
        ensures
            r.severity == (if self.action == ErrorAction::Wait {
                Severity::Trace
            } else {
                Severity::Error
            }),
            r.stage@ == self.stage.layer(),
            r.preview@ == preview_text(bytes_view(self.data)),
            r.message@ == action_mark(self.action) + self.stage.reason(),
    {
        let stage: &'static str = match &self.stage {
            ErrorStage::Tls(_) => "TLS",
            ErrorStage::Handshake(_) => "Handshake",
            ErrorStage::ApplicationData(_) => "AppData",
        };
        let reason: &'static str = match &self.stage {
            ErrorStage::Tls(m) => *m,
            ErrorStage::Handshake(m) => *m,
            ErrorStage::ApplicationData(m) => *m,
        };
        let preview: Vec<char> = Self::data_preview(bytes_slice(&self.data));
        let mut message: Vec<char> = Vec::new();
        let severity: Severity = match self.action {
            ErrorAction::Wait => Severity::Trace,
            ErrorAction::Redirect => {
                push_text(&mut message, "⚠️ ");
                Severity::Error
            },
            ErrorAction::Drop => {
                push_text(&mut message, "🚨 ");
                Severity::Error
            },
        };
        assert(message@ =~= action_mark(self.action));
        push_text(&mut message, reason);
        ErrorReport { severity, stage, preview: string_of(&preview), message: string_of(&message) }
    }

    fn data_preview(data: &[u8]) -> (r: Vec<char>)
        ensures
            r@ == preview_text(data@),
    {
        let mut out: Vec<char> = Vec::new();
        if data.len() == 0 {
            push_text(&mut out, "No data");
            assert(out@ =~= "No data"@);
            return out;
        }
        let limit: usize = if data.len() > 8 { 8 } else { data.len() };
        push_text(&mut out, "Hex: [");
        let ghost head = out@;
        assert(head =~= "Hex: ["@);
        let mut i: usize = 0;
        while i < limit
            invariant
                i <= limit <= data@.len(),
                out@ == head + hex_items(data@.subrange(0, i as int)),
            decreases limit - i,
        {
            let ghost now = data@.subrange(0, i + 1);
            assert(now.drop_last() =~= data@.subrange(0, i as int));
            if i > 0 {
                push_text(&mut out, ", ");
            }
            push_hex(&mut out, data[i]);
            i = i + 1;
            assert(out@ =~= head + hex_items(now));
        }
        assert(data@.subrange(0, data@.len() as int) =~= data@);
        if data.len() > 8 {
            push_text(&mut out, "]...");
        } else {
            push_text(&mut out, "]");
        }
        out
    }

    /// The reaction that this error calls for. What is logged with it is in
    /// [`log_error`](TlsError::log_error).
    pub fn execute_strategy(&self) -> (r: ErrorAction)
        ensures
            r == self.action,
    {
        self.action
    }
}

/// Bytes in hexadecimal take two digits each, the high one first, with a comma and a space
/// between each two bytes.
pub proof fn lemma_items_in_hex(s: Seq<u8>, i: int)
    requires
        0 <= i < s.len(),
    ensures
        hex_items(s).len() == 4 * s.len() - 2,
        hex_items(s)[4 * i] == hex_byte(s[i])[0],
        hex_items(s)[4 * i + 1] == hex_byte(s[i])[1],
        i < s.len() - 1 ==> hex_items(s)[4 * i + 2] == ',' && hex_items(s)[4 * i + 3] == ' ',
    decreases s.len(),
{
    reveal_strlit(", ");
    if s.len() > 1 {
        let front = s.drop_last();
        if i < front.len() {
            lemma_items_in_hex(front, i);
        } else {
            lemma_items_in_hex(front, i - 1);
        }
    }
}

/// At most eight bytes of the data are shown, and dots where there are more.
pub proof fn lemma_preview(data: Seq<u8>)
    ensures
        data.len() == 0 ==> preview_text(data) == "No data"@,
        1 <= data.len() <= 8 ==> preview_text(data) == "Hex: ["@ + hex_items(data) + "]"@,
        data.len() > 8 ==> preview_text(data) == "Hex: ["@ + hex_items(data.subrange(0, 8))
            + "]..."@,
{
}

/// How an error is named: by its layer, its reason as it is, and a mark for what it calls for.
pub proof fn lemma_report_words(stage: ErrorStage, action: ErrorAction)
    ensures
        match stage {
            ErrorStage::Tls(m) => stage.layer() == "TLS"@ && stage.reason() == m@,
            ErrorStage::Handshake(m) => stage.layer() == "Handshake"@ && stage.reason() == m@,
            ErrorStage::ApplicationData(m) => stage.layer() == "AppData"@ && stage.reason() == m@,
        },
        match action {
            ErrorAction::Wait => action_mark(action).len() == 0,
            ErrorAction::Redirect => action_mark(action) == "⚠️ "@,
            ErrorAction::Drop => action_mark(action) == "🚨 "@,
        },
{
}

} // verus!
