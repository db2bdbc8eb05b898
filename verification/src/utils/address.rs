//! Literal IP addresses in text.

use vstd::prelude::*;

use crate::utils::text::{char_range, lemma_split_nonempty, split_on, split_text};

verus! {

/// Whether the character is a decimal digit.
pub open spec fn is_digit(c: char) -> bool {
    '0' <= c <= '9'
}

/// Whether the character is a hexadecimal digit.
pub open spec fn is_hex_digit(c: char) -> bool {
    is_digit(c) || 'a' <= c <= 'f' || 'A' <= c <= 'F'
}

/// The number that decimal digits stand for.
pub open spec fn digits_value(s: Seq<char>) -> int
    decreases s.len(),
{
    if s.len() == 0 {
        0
    } else {
        digits_value(s.drop_last()) * 10 + (s.last() as int - 48)
    }
}

/// A number from 0 to 255 in decimal, without a zero in front.
pub open spec fn is_octet(s: Seq<char>) -> bool {
    &&& 1 <= s.len() <= 3
    &&& forall|i: int| 0 <= i < s.len() ==> is_digit(#[trigger] s[i])
    &&& s.len() > 1 ==> s[0] != '0'
    &&& digits_value(s) <= 255
}

/// An IPv4 address: four octets between dots.
pub open spec fn is_ipv4(s: Seq<char>) -> bool {
    let parts = split_on(s, '.');
    &&& parts.len() == 4
    &&& forall|i: int| 0 <= i < parts.len() ==> is_octet(#[trigger] parts[i])
}

/// One group of an IPv6 address: up to four hexadecimal digits.
pub open spec fn is_group(s: Seq<char>) -> bool {
    &&& 1 <= s.len() <= 4
    &&& forall|i: int| 0 <= i < s.len() ==> is_hex_digit(#[trigger] s[i])
}

/// How many groups of an IPv6 address a text with colons between them stands for. The last
/// two may be an IPv4 address, where that is allowed. `None` when it is no such text.
pub open spec fn group_count(s: Seq<char>, ipv4_allowed: bool) -> Option<int> {
    let parts = split_on(s, ':');
    let n = parts.len() as int;
    if s.len() == 0 {
        Some(0)
    } else if exists|i: int| 0 <= i < n - 1 && !is_group(#[trigger] parts[i]) {
        None
    } else if is_group(parts[n - 1]) {
        Some(n)
    } else if ipv4_allowed && is_ipv4(parts[n - 1]) {
        Some(n + 1)
    } else {
        None
    }
}

/// Whether two colons at `at` stand for one or more groups of zeros.
pub open spec fn is_shortened_at(s: Seq<char>, at: int) -> bool {
    &&& 0 <= at
    &&& at + 2 <= s.len()
    &&& s[at] == ':'
    &&& s[at + 1] == ':'
    &&& match (
        group_count(s.subrange(0, at), false),
        group_count(s.subrange(at + 2, s.len() as int), true),
    ) {
        (Some(head), Some(tail)) => head + tail <= 7,
        _ => false,
    }
}

/// An IPv6 address: eight groups, or fewer around two colons.
pub open spec fn is_ipv6(s: Seq<char>) -> bool {
    ||| group_count(s, true) == Some(8int)
    ||| exists|at: int| #[trigger] is_shortened_at(s, at)
}

/// A literal IP address.
pub open spec fn is_ip_literal(s: Seq<char>) -> bool {
    is_ipv4(s) || is_ipv6(s)
}

fn octet(s: &Vec<char>) -> (r: bool)
    ensures
        r == is_octet(s@),
{
    if s.len() < 1 || s.len() > 3 {
        return false;
    }
    let mut value: u32 = 0;
    let mut i: usize = 0;
    assert(s@.subrange(0, 0) =~= Seq::empty());
    while i < s.len()
        invariant
            i <= s@.len() <= 3,
            value == digits_value(s@.subrange(0, i as int)),
            i == 0 ==> value == 0,
            i == 1 ==> value <= 9,
            i == 2 ==> value <= 99,
            i == 3 ==> value <= 999,
            forall|k: int| 0 <= k < i ==> is_digit(#[trigger] s@[k]),
        decreases s@.len() - i,
    {
        let c: char = s[i];
        if !('0' <= c && c <= '9') {
            return false;
        }
        assert(s@.subrange(0, i + 1).drop_last() =~= s@.subrange(0, i as int));
        value = value * 10 + (c as u32 - 48);
        i = i + 1;
    }
    assert(s@.subrange(0, s@.len() as int) =~= s@);
    if s.len() > 1 && s[0] == '0' {
        return false;
    }
    value <= 255
}

fn group(s: &Vec<char>) -> (r: bool)
    ensures
        r == is_group(s@),
{
    if s.len() < 1 || s.len() > 4 {
        return false;
    }
    let mut i: usize = 0;
    while i < s.len()
        invariant
            i <= s@.len(),
            forall|k: int| 0 <= k < i ==> is_hex_digit(#[trigger] s@[k]),
        decreases s@.len() - i,
    {
        let c: char = s[i];
        if !(('0' <= c && c <= '9') || ('a' <= c && c <= 'f') || ('A' <= c && c <= 'F')) {
            return false;
        }
        i = i + 1;
    }
    true
}

/// Whether the text is an IPv4 address.
pub fn ipv4(s: &Vec<char>) -> (r: bool)
    ensures
        r == is_ipv4(s@),
{
    let parts: Vec<Vec<char>> = split_text(s, '.');
    if parts.len() != 4 {
        return false;
    }
    let mut i: usize = 0;
    while i < parts.len()
        invariant
            i <= parts@.len() == 4,
            parts@.len() == split_on(s@, '.').len(),
            forall|k: int| 0 <= k < 4 ==> (#[trigger] parts@[k])@ == split_on(s@, '.')[k],
            forall|k: int| 0 <= k < i ==> is_octet(#[trigger] split_on(s@, '.')[k]),
        decreases parts@.len() - i,
    {
        if !octet(&parts[i]) {
            assert(!is_octet(split_on(s@, '.')[i as int]));
            return false;
        }
        i = i + 1;
    }
    true
}

fn groups(s: &Vec<char>, ipv4_allowed: bool) -> (r: Option<usize>)
    ensures
        match group_count(s@, ipv4_allowed) {
            Some(n) => r matches Some(m) && m == n,
            None => r is None,
        },
{
    if s.len() == 0 {
        return Some(0);
    }
    let parts: Vec<Vec<char>> = split_text(s, ':');
    let ghost want = split_on(s@, ':');
    proof {
        lemma_split_nonempty(s@, ':');
        lemma_split_len(s@, ':');
    }
    let last: usize = parts.len() - 1;
    let mut i: usize = 0;
    while i < last
        invariant
            i <= last < parts@.len(),
            parts@.len() == want.len(),
            s@.len() > 0,
            want == split_on(s@, ':'),
            last == parts@.len() - 1,
            forall|k: int| 0 <= k < parts@.len() ==> (#[trigger] parts@[k])@ == want[k],
            forall|k: int| 0 <= k < i ==> is_group(#[trigger] want[k]),
        decreases last - i,
    {
        if !group(&parts[i]) {
            assert(!is_group(want[i as int]));
            return None;
        }
        i = i + 1;
    }
    if group(&parts[last]) {
        Some(last + 1)
    } else if ipv4_allowed && ipv4(&parts[last]) {
        proof {
            lemma_ipv4_len(want[last as int]);
            lemma_last_piece_len(s@, ':');
        }
        Some(last + 2)
    } else {
        None
    }
}

/// No text has more pieces than characters, but for one.
proof fn lemma_split_len(s: Seq<char>, sep: char)
    ensures
        split_on(s, sep).len() <= s.len() + 1,
    decreases s.len(),
{
    if s.len() > 0 {
        lemma_split_len(s.drop_last(), sep);
        lemma_split_nonempty(s.drop_last(), sep);
    }
}

/// The last piece and the separators together are no longer than the text.
proof fn lemma_last_piece_len(s: Seq<char>, sep: char)
    ensures
        split_on(s, sep).last().len() + split_on(s, sep).len() <= s.len() + 1,
    decreases s.len(),
{
    if s.len() > 0 {
        lemma_last_piece_len(s.drop_last(), sep);
        lemma_split_nonempty(s.drop_last(), sep);
    }
}

/// An IPv4 address is not empty.
proof fn lemma_ipv4_len(s: Seq<char>)
    requires
        is_ipv4(s),
    ensures
        s.len() >= 3,
{
    lemma_split_len(s, '.');
}

/// Whether the text is an IPv6 address.
pub fn ipv6(s: &Vec<char>) -> (r: bool)
    ensures
        r == is_ipv6(s@),
{
    match groups(s, true) {
        Some(8) => {
            return true;
        },
        _ => {},
    }
    let mut at: usize = 0;
    while at < s.len() && at + 1 < s.len()
        invariant
            at <= s@.len(),
            group_count(s@, true) != Some(8int),
            forall|k: int| 0 <= k < at ==> !#[trigger] is_shortened_at(s@, k),
        decreases s@.len() - at,
    {
        if s[at] == ':' && s[at + 1] == ':' {
            let head: Vec<char> = char_range(s, 0, at);
            let tail: Vec<char> = char_range(s, at + 2, s.len());
            match (groups(&head, false), groups(&tail, true)) {
                (Some(h), Some(t)) => {
                    if h <= 7 && t <= 7 - h {
                        assert(is_shortened_at(s@, at as int));
                        return true;
                    }
                },
                _ => {},
            }
        }
        assert(!is_shortened_at(s@, at as int));
        at = at + 1;
    }
    false
}

/// Whether the text is a literal IP address.
pub fn ip_literal(s: &Vec<char>) -> (r: bool)
    ensures
        r == is_ip_literal(s@),
{
    ipv4(s) || ipv6(s)
}

} // verus!
