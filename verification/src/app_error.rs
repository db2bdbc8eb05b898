//! The application's error: a stable code, a text for people, a text for logs, and
//! whatever context was added on the way.

use vstd::prelude::*;

use crate::utils::text::{push_text, same_str, string_of};

verus! {

/// The infrastructure did not answer in time.
pub const ERR_INFRA_TIMEOUT: &'static str = "INFRA_TIMEOUT";

/// Authentication failed.
pub const ERR_AUTH_FAILED: &'static str = "AUTH_FAILED";

/// A packet was dropped because of the tunnel's MTU.
pub const ERR_NET_MTU_DROP: &'static str = "NET_TUNNEL_MTU_DROP";

/// The disguise or the integrity of the TLS layer was violated.
pub const ERR_NET_TLS_TAMPER: &'static str = "NET_TLS_TAMPER";

/// A panic that nothing caught.
pub const ERR_SYS_PANIC: &'static str = "SYS_UNHANDLED_PANIC";

/// An error of the application.
#[derive(Debug)]
pub struct AppError {
    /// The stable code of this class of errors.
    pub code: &'static str,
    /// The text for people.
    pub user_msg: String,
    /// The text for logs.
    pub internal_msg: String,
    /// Context, at most one value for each key.
    pub metadata: Vec<(String, String)>,
    /// What caused it, in words.
    pub cause: Option<String>,
}

/// Whether no key occurs twice.
pub open spec fn distinct_keys(entries: Seq<(String, String)>) -> bool {
    forall|i: int, j: int|
        0 <= i < j < entries.len() ==> (#[trigger] entries[i]).0@ != (#[trigger] entries[j]).0@
}

/// The value that stands at a key.
pub open spec fn value_at(entries: Seq<(String, String)>, key: Seq<char>) -> Option<Seq<char>>
    decreases entries.len(),
{
    if entries.len() == 0 {
        None
    } else if entries.last().0@ == key {
        Some(entries.last().1@)
    } else {
        value_at(entries.drop_last(), key)
    }
}

/// With distinct keys, a value is the one of the only entry that has the key.
pub proof fn lemma_value_at(entries: Seq<(String, String)>, i: int)
    requires
        distinct_keys(entries),
        0 <= i < entries.len(),
    ensures
        value_at(entries, entries[i].0@) == Some(entries[i].1@),
    decreases entries.len(),
{
    if i < entries.len() - 1 {
        assert(entries[i].0@ != entries[entries.len() - 1].0@);
        assert(entries.drop_last()[i] == entries[i]);
        lemma_value_at(entries.drop_last(), i);
    }
}

/// A key that no entry has has no value.
pub proof fn lemma_no_value(entries: Seq<(String, String)>, key: Seq<char>)
    requires
        forall|i: int| 0 <= i < entries.len() ==> (#[trigger] entries[i]).0@ != key,
    ensures
        value_at(entries, key) is None,
    decreases entries.len(),
{
    if entries.len() > 0 {
        assert forall|i: int| 0 <= i < entries.drop_last().len() implies (
        #[trigger] entries.drop_last()[i]).0@ != key by {
            assert(entries.drop_last()[i] == entries[i]);
        }
        lemma_no_value(entries.drop_last(), key);
    }
}

/// Entries that differ in the value of one key only agree on every other key.
proof fn lemma_value_elsewhere(
    before: Seq<(String, String)>,
    after: Seq<(String, String)>,
    at: int,
    key: Seq<char>,
)
    requires
        before.len() == after.len(),
        0 <= at < before.len(),
        before[at].0@ == after[at].0@,
        before[at].0@ != key,
        forall|i: int| 0 <= i < before.len() && i != at ==> before[i] == after[i],
    ensures
        value_at(before, key) == value_at(after, key),
    decreases before.len(),
{
    if at < before.len() - 1 {
        assert(before.last() == after.last());
        lemma_value_elsewhere(before.drop_last(), after.drop_last(), at, key);
    } else {
        assert(before.drop_last() =~= after.drop_last());
    }
}

impl AppError {
    /// Whether every key of the context occurs once.
    pub open spec fn wf(self) -> bool {
        distinct_keys(self.metadata@)
    }

    /// The context's value at a key.
    pub open spec fn context(self, key: Seq<char>) -> Option<Seq<char>> {
        value_at(self.metadata@, key)
    }

    /// Whether this is a fresh error of the given code and texts.
    pub open spec fn is_plain(self, code: Seq<char>, user: Seq<char>, internal: Seq<char>) -> bool {
        &&& self.code@ == code
        &&& self.user_msg@ == user
        &&& self.internal_msg@ == internal
        &&& self.metadata@.len() == 0
        &&& self.cause is None
    }

    /// An error without context or cause.
    pub fn new(code: &'static str, user_msg: &str, internal_msg: &str) -> (r: Self)
        ensures
            r.is_plain(code@, user_msg@, internal_msg@),
            r.wf(),
    {
        Self {
            code,
            user_msg: user_msg.to_owned(),
            internal_msg: internal_msg.to_owned(),
            metadata: Vec::new(),
            cause: None,
        }
    }

    /// Adds a value to the context; an earlier value at the same key is replaced.
    pub fn with_context(self, key: &str, value: &str) -> (r: Self)
        requires
            self.wf(),
        ensures
            r.wf(),
            r.code == self.code,
            r.user_msg == self.user_msg,
            r.internal_msg == self.internal_msg,
            r.cause == self.cause,
            r.context(key@) == Some(value@),
            forall|other: Seq<char>| other != key@ ==> r.context(other) == self.context(other),
    {
        let mut out: Self = self;
        let ghost before = out.metadata@;
        let mut i: usize = 0;
        while i < out.metadata.len()
            invariant
                i <= out.metadata@.len(),
                out.metadata@ == before,
                distinct_keys(before),
                forall|k: int| 0 <= k < i ==> (#[trigger] before[k]).0@ != key@,
            ensures
                i <= before.len(),
                out.metadata@ == before,
                i < before.len() ==> before[i as int].0@ == key@,
                forall|k: int| 0 <= k < i ==> (#[trigger] before[k]).0@ != key@,
            decreases out.metadata@.len() - i,
        {
            if same_str(out.metadata[i].0.as_str(), key) {
                break;
            }
            i = i + 1;
        }
        if i < out.metadata.len() {
            let entry: (String, String) = (key.to_owned(), value.to_owned());
            out.metadata.set(i, entry);
            proof {
                let after = out.metadata@;
                assert forall|a: int, b: int| 0 <= a < b < after.len() implies (
                #[trigger] after[a]).0@ != (#[trigger] after[b]).0@ by {
                    assert(before[a].0@ != before[b].0@);
                }
                lemma_value_at(after, i as int);
                assert forall|other: Seq<char>| other != key@ implies value_at(after, other)
                    == value_at(before, other) by {
                    lemma_value_elsewhere(before, after, i as int, other);
                }
            }
        } else {
            out.metadata.push((key.to_owned(), value.to_owned()));
            proof {
                let after = out.metadata@;
                assert(after.drop_last() =~= before);
                assert forall|a: int, b: int| 0 <= a < b < after.len() implies (
                #[trigger] after[a]).0@ != (#[trigger] after[b]).0@ by {
                    assert(before[a].0@ != key@);
                    if b < before.len() {
                        assert(before[a].0@ != before[b].0@);
                    }
                }
            }
        }
        out
    }

    /// Attaches what caused the error, in words.
    pub fn with_cause(self, err: String) -> (r: Self)
        ensures
            r.code == self.code,
            r.user_msg == self.user_msg,
            r.internal_msg == self.internal_msg,
            r.metadata == self.metadata,
            r.cause == Some(err),
    {
        let mut out: Self = self;
        out.cause = Some(err);
        out
    }

    /// The error in words, for a log.
    pub fn message(&self) -> (r: String)
        ensures
            r@ == "["@ + self.code@ + "] "@ + self.internal_msg@,
    {
        let mut out: Vec<char> = Vec::new();
        push_text(&mut out, "[");
        push_text(&mut out, self.code);
        push_text(&mut out, "] ");
        push_text(&mut out, self.internal_msg.as_str());
        assert(out@ =~= "["@ + self.code@ + "] "@ + self.internal_msg@);
        string_of(&out)
    }
}

/// The codes of errors are stable: others read them.
pub proof fn lemma_codes()
    ensures
        ERR_INFRA_TIMEOUT@ == "INFRA_TIMEOUT"@,
        ERR_AUTH_FAILED@ == "AUTH_FAILED"@,
        ERR_NET_MTU_DROP@ == "NET_TUNNEL_MTU_DROP"@,
        ERR_NET_TLS_TAMPER@ == "NET_TLS_TAMPER"@,
        ERR_SYS_PANIC@ == "SYS_UNHANDLED_PANIC"@,
{
}

/// A fresh error has its code and both texts, no context and no cause.
pub proof fn lemma_plain_error(e: AppError, code: Seq<char>, user: Seq<char>, internal: Seq<char>)
    requires
        e.is_plain(code, user, internal),
    ensures
        e.code@ == code,
        e.user_msg@ == user,
        e.internal_msg@ == internal,
        e.metadata@.len() == 0,
        e.cause is None,
        forall|key: Seq<char>| #[trigger] e.context(key) is None,
{
}

} // verus!
