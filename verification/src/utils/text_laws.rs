//! What trimming, splitting, letter case and the ways of writing numbers come to.

use vstd::prelude::*;

use crate::utils::address::{
    digits_value, group_count, is_digit, is_group, is_hex_digit, is_ip_literal, is_ipv4, is_ipv6,
    is_octet, is_shortened_at,
};
use crate::utils::text::{
    decimal, hex_byte, is_white_space, lemma_split_nonempty, lowered, split_on, trim_end,
    trim_end_of, trim_start, trimmed,
};

verus! {

/// What is trimmed in front is white space, and nothing else is left out.
proof fn lemma_trim_start(s: Seq<char>) -> (from: int)
    ensures
        0 <= from <= s.len(),
        trim_start(s) == s.subrange(from, s.len() as int),
        forall|i: int| 0 <= i < from ==> is_white_space(#[trigger] s[i]),
        from < s.len() ==> !is_white_space(s[from]),
    decreases s.len(),
{
    if s.len() > 0 && is_white_space(s[0]) {
        let rest = s.subrange(1, s.len() as int);
        let n = lemma_trim_start(rest);
        assert(rest.subrange(n, rest.len() as int) =~= s.subrange(n + 1, s.len() as int));
        assert forall|i: int| 0 <= i < n + 1 implies is_white_space(#[trigger] s[i]) by {
            if i > 0 {
                assert(rest[i - 1] == s[i]);
            }
        }
        n + 1
    } else {
        assert(s.subrange(0, s.len() as int) =~= s);
        0
    }
}

/// What is trimmed behind is white space, and nothing else is left out.
proof fn lemma_trim_end(s: Seq<char>) -> (to: int)
    ensures
        0 <= to <= s.len(),
        trim_end(s) == s.subrange(0, to),
        forall|i: int| to <= i < s.len() ==> is_white_space(#[trigger] s[i]),
        to > 0 ==> !is_white_space(s[to - 1]),
    decreases s.len(),
{
    if s.len() > 0 && is_white_space(s.last()) {
        let n = lemma_trim_end(s.drop_last());
        assert(s.drop_last().subrange(0, n) =~= s.subrange(0, n));
        assert forall|i: int| n <= i < s.len() implies is_white_space(#[trigger] s[i]) by {
            if i < s.len() - 1 {
                assert(s.drop_last()[i] == s[i]);
            }
        }
        n
    } else {
        assert(s.subrange(0, s.len() as int) =~= s);
        s.len() as int
    }
}

/// Trimming a text takes white space off both its ends, and nothing but that: what is left
/// starts and ends with something else, or is empty.
pub proof fn lemma_trimmed(s: Seq<char>) -> (r: (int, int))
    ensures
        0 <= r.0 <= r.1 <= s.len(),
        trimmed(s) == s.subrange(r.0, r.1),
        forall|i: int| 0 <= i < r.0 || r.1 <= i < s.len() ==> is_white_space(#[trigger] s[i]),
        r.0 < r.1 ==> !is_white_space(s[r.0]) && !is_white_space(s[r.1 - 1]),
{
    let from = lemma_trim_start(s);
    let mid = trim_start(s);
    let n = lemma_trim_end(mid);
    assert(mid.subrange(0, n) =~= s.subrange(from, from + n));
    assert forall|i: int| from + n <= i < s.len() implies is_white_space(#[trigger] s[i]) by {
        assert(mid[i - from] == s[i]);
    }
    if n > 0 {
        assert(mid[0] == s[from]);
        assert(mid[n - 1] == s[from + n - 1]);
    }
    (from, from + n)
}

/// White space around a text that has none at its ends is all that trimming takes off.
pub proof fn lemma_trim_undoes_spaces(front: Seq<char>, s: Seq<char>, behind: Seq<char>)
    requires
        forall|i: int| 0 <= i < front.len() ==> is_white_space(#[trigger] front[i]),
        forall|i: int| 0 <= i < behind.len() ==> is_white_space(#[trigger] behind[i]),
        s.len() > 0,
        !is_white_space(s[0]),
        !is_white_space(s.last()),
    ensures
        trimmed(front + s + behind) == s,
{
    let all = front + s + behind;
    let (from, to) = lemma_trimmed(all);
    let f = front.len() as int;
    let t = f + s.len();
    assert(all[f] == s[0]);
    assert(all[t - 1] == s.last());
    assert(from <= f && t <= to);
    if from < f {
        assert(all[from] == front[from]);
    }
    if to > t {
        assert(all[to - 1] == behind[to - 1 - t]);
    }
    assert(all.subrange(from, to) =~= s);
}

/// White space is what Unicode says it is: tab to carriage return, the space, and the wider
/// and narrower ones.
pub proof fn lemma_white_space(c: char)
    ensures
        is_white_space(c) <==> {
            let n = c as u32;
            ||| 9 <= n <= 13
            ||| n == 32
            ||| n == 133
            ||| n == 160
            ||| n == 5760
            ||| 8192 <= n <= 8202
            ||| n == 8232
            ||| n == 8233
            ||| n == 8239
            ||| n == 8287
            ||| n == 12288
        },
{
}

/// Taking a character off the end takes all of it off, and nothing else.
pub proof fn lemma_trim_end_of(s: Seq<char>, c: char) -> (to: int)
    ensures
        0 <= to <= s.len(),
        trim_end_of(s, c) == s.subrange(0, to),
        forall|i: int| to <= i < s.len() ==> #[trigger] s[i] == c,
        to > 0 ==> s[to - 1] != c,
    decreases s.len(),
{
    if s.len() > 0 && s.last() == c {
        let n = lemma_trim_end_of(s.drop_last(), c);
        assert(s.drop_last().subrange(0, n) =~= s.subrange(0, n));
        assert forall|i: int| n <= i < s.len() implies #[trigger] s[i] == c by {
            if i < s.len() - 1 {
                assert(s.drop_last()[i] == s[i]);
            }
        }
        n
    } else {
        assert(s.subrange(0, s.len() as int) =~= s);
        s.len() as int
    }
}

/// In small letters the capitals of ASCII are the letters 32 further on, and everything else
/// is as it was.
pub proof fn lemma_lowered(s: Seq<char>, i: int)
    requires
        0 <= i < s.len(),
    ensures
        lowered(s).len() == s.len(),
        'A' <= s[i] <= 'Z' ==> lowered(s)[i] as u32 == s[i] as u32 + 32,
        !('A' <= s[i] <= 'Z') ==> lowered(s)[i] == s[i],
{
}

/// Pieces with a separator between each two.
pub open spec fn joined(pieces: Seq<Seq<char>>, sep: char) -> Seq<char>
    decreases pieces.len(),
{
    if pieces.len() == 0 {
        Seq::empty()
    } else if pieces.len() == 1 {
        pieces[0]
    } else {
        joined(pieces.drop_last(), sep).push(sep) + pieces.last()
    }
}

/// Splitting loses nothing: the pieces with separators between them are the text again, and no
/// piece has a separator in it.
pub proof fn lemma_split_joins(s: Seq<char>, sep: char)
    ensures
        joined(split_on(s, sep), sep) == s,
        forall|k: int, i: int|
            0 <= k < split_on(s, sep).len() && 0 <= i < split_on(s, sep)[k].len()
                ==> #[trigger] split_on(s, sep)[k][i] != sep,
    decreases s.len(),
{
    let parts = split_on(s, sep);
    if s.len() == 0 {
        assert(parts[0] =~= s);
    } else {
        let front = s.drop_last();
        let before = split_on(front, sep);
        lemma_split_joins(front, sep);
        lemma_split_nonempty(front, sep);
        if s.last() == sep {
            assert(parts.drop_last() =~= before);
            assert(joined(parts, sep) =~= front.push(sep));
            assert(front.push(sep) =~= s);
        } else {
            let last = before.last().push(s.last());
            assert(parts.drop_last() =~= before.drop_last());
            assert(parts.last() == last);
            if parts.len() == 1 {
                assert(before.len() == 1);
                assert(joined(parts, sep) =~= before[0].push(s.last()));
            } else {
                assert(joined(parts, sep) =~= (joined(before.drop_last(), sep).push(sep)
                    + before.last()).push(s.last()));
            }
            assert(joined(parts, sep) =~= front.push(s.last()));
            assert(front.push(s.last()) =~= s);
            assert forall|k: int, i: int|
                0 <= k < parts.len() && 0 <= i < parts[k].len() implies #[trigger] parts[k][i]
                != sep by {
                if k < parts.len() - 1 {
                    assert(parts[k] == before[k]);
                    assert(before[k][i] != sep);
                } else if i < before.last().len() {
                    assert(before[k][i] != sep);
                }
            }
        }
    }
}

/// A text without a separator is one piece, and behind a separator a new one starts.
proof fn lemma_split_more(s: Seq<char>, sep: char, more: Seq<char>)
    requires
        forall|i: int| 0 <= i < more.len() ==> #[trigger] more[i] != sep,
    ensures
        split_on(s.push(sep) + more, sep) == split_on(s, sep).push(more),
    decreases more.len(),
{
    let all = s.push(sep) + more;
    lemma_split_nonempty(s, sep);
    if more.len() == 0 {
        assert(all =~= s.push(sep));
        assert(all.drop_last() =~= s);
        assert(more =~= Seq::empty());
    } else {
        let less = more.drop_last();
        assert forall|i: int| 0 <= i < less.len() implies #[trigger] less[i] != sep by {
            assert(less[i] == more[i]);
        }
        lemma_split_more(s, sep, less);
        assert(all.drop_last() =~= s.push(sep) + less);
        assert(all.last() == more.last());
        let before = split_on(s, sep).push(less);
        assert(before.drop_last() =~= split_on(s, sep));
        assert(less.push(more.last()) =~= more);
        assert(split_on(all, sep) == before.drop_last().push(before.last().push(more.last())));
    }
}

proof fn lemma_split_single(s: Seq<char>, sep: char)
    requires
        forall|i: int| 0 <= i < s.len() ==> #[trigger] s[i] != sep,
    ensures
        split_on(s, sep) == seq![s],
    decreases s.len(),
{
    if s.len() == 0 {
        assert(s =~= Seq::empty());
    } else {
        let less = s.drop_last();
        assert forall|i: int| 0 <= i < less.len() implies #[trigger] less[i] != sep by {
            assert(less[i] == s[i]);
        }
        lemma_split_single(less, sep);
        assert(less.push(s.last()) =~= s);
        assert(split_on(s, sep) =~= seq![s]);
    }
}

/// Splitting finds the pieces again: joined with separators between them, pieces that have none
/// come apart as they were.
pub proof fn lemma_joined_splits(pieces: Seq<Seq<char>>, sep: char)
    requires
        pieces.len() > 0,
        forall|k: int, i: int|
            0 <= k < pieces.len() && 0 <= i < pieces[k].len() ==> #[trigger] pieces[k][i] != sep,
    ensures
        split_on(joined(pieces, sep), sep) == pieces,
    decreases pieces.len(),
{
    if pieces.len() == 1 {
        assert forall|i: int| 0 <= i < pieces[0].len() implies #[trigger] pieces[0][i] != sep by {}
        lemma_split_single(pieces[0], sep);
        assert(seq![pieces[0]] =~= pieces);
    } else {
        let less = pieces.drop_last();
        assert forall|k: int, i: int|
            0 <= k < less.len() && 0 <= i < less[k].len() implies #[trigger] less[k][i] != sep by {
            assert(pieces[k][i] != sep);
        }
        lemma_joined_splits(less, sep);
        let more = pieces.last();
        assert forall|i: int| 0 <= i < more.len() implies #[trigger] more[i] != sep by {
            assert(pieces[pieces.len() - 1][i] != sep);
        }
        lemma_split_more(joined(less, sep), sep, more);
        assert(less.push(more) =~= pieces);
    }
}

/// A number in decimal is made of digits that stand for it, without a zero in front.
pub proof fn lemma_decimal(n: nat)
    ensures
        decimal(n).len() >= 1,
        digits_value(decimal(n)) == n,
        forall|i: int| 0 <= i < decimal(n).len() ==> '0' <= #[trigger] decimal(n)[i] <= '9',
        decimal(n).len() > 1 ==> decimal(n)[0] != '0',
    decreases n,
{
    if n < 10 {
        let d = decimal(n);
        assert(d.drop_last() =~= Seq::<char>::empty());
        assert(digits_value(d.drop_last()) == 0);
        assert(d.last() as int - 48 == n);
    } else {
        lemma_decimal(n / 10);
        let front = decimal(n / 10);
        let d = decimal(n);
        assert(d.drop_last() =~= front);
        assert(d.last() as int - 48 == n % 10);
        assert(n == (n / 10) * 10 + n % 10);
        assert forall|i: int| 0 <= i < d.len() implies '0' <= #[trigger] d[i] <= '9' by {
            if i < front.len() {
                assert(d[i] == front[i]);
            }
        }
        if front.len() == 1 {
            lemma_single_digit(front);
        }
        assert(d[0] == front[0]);
    }
}

/// One digit of a number that is not zero is not zero.
proof fn lemma_single_digit(s: Seq<char>)
    requires
        s.len() == 1,
    ensures
        digits_value(s) == s[0] as int - 48,
{
    assert(s.drop_last() =~= Seq::<char>::empty());
    assert(digits_value(s.drop_last()) == 0);
}

/// A byte in hexadecimal is two digits, the high one first, in small letters.
pub proof fn lemma_hex_byte(b: u8)
    ensures
        hex_byte(b).len() == 2,
        b / 16 < 10 ==> hex_byte(b)[0] as u32 == 48 + b / 16,
        b / 16 >= 10 ==> hex_byte(b)[0] as u32 == 97 + (b / 16 - 10),
        b % 16 < 10 ==> hex_byte(b)[1] as u32 == 48 + b % 16,
        b % 16 >= 10 ==> hex_byte(b)[1] as u32 == 97 + (b % 16 - 10),
{
}

/// The value of at most three digits.
proof fn lemma_octet_value(s: Seq<char>)
    requires
        1 <= s.len() <= 3,
    ensures
        s.len() == 1 ==> digits_value(s) == s[0] as int - 48,
        s.len() == 2 ==> digits_value(s) == (s[0] as int - 48) * 10 + (s[1] as int - 48),
        s.len() == 3 ==> digits_value(s) == (s[0] as int - 48) * 100 + (s[1] as int - 48) * 10 + (
        s[2] as int - 48),
{
    reveal_with_fuel(digits_value, 4);
    if s.len() == 1 {
        lemma_single_digit(s);
    } else if s.len() == 2 {
        lemma_single_digit(s.drop_last());
    } else {
        lemma_single_digit(s.drop_last().drop_last());
    }
}

/// An octet is a number from 0 to 255 as it is written in decimal, and nothing else is one.
pub proof fn lemma_octets(s: Seq<char>)
    ensures
        is_octet(s) <==> exists|n: nat| n <= 255 && s == #[trigger] decimal(n),
{
    if is_octet(s) {
        lemma_octet_value(s);
        assert(is_digit(s[0]));
        if s.len() > 1 {
            assert(is_digit(s[1]));
        }
        if s.len() > 2 {
            assert(is_digit(s[2]));
        }
        let n = digits_value(s) as nat;
        reveal_with_fuel(decimal, 4);
        assert(s =~= decimal(n));
    }
    if exists|n: nat| n <= 255 && s == #[trigger] decimal(n) {
        let n = choose|n: nat| n <= 255 && s == #[trigger] decimal(n);
        lemma_decimal(n);
        reveal_with_fuel(decimal, 4);
        assert(s.len() <= 3);
        assert forall|i: int| 0 <= i < s.len() implies is_digit(#[trigger] s[i]) by {
            assert('0' <= decimal(n)[i] <= '9');
        }
    }
}

/// Four numbers from 0 to 255 with dots between them are an IPv4 address, and nothing else is
/// one.
pub proof fn lemma_ipv4_texts(s: Seq<char>)
    ensures
        is_ipv4(s) <==> exists|parts: Seq<Seq<char>>|
            parts.len() == 4 && (forall|i: int| 0 <= i < 4 ==> is_octet(#[trigger] parts[i])) && s
                == #[trigger] joined(parts, '.'),
{
    if is_ipv4(s) {
        lemma_split_joins(s, '.');
        assert(s == joined(split_on(s, '.'), '.'));
    }
    if exists|parts: Seq<Seq<char>>|
        parts.len() == 4 && (forall|i: int| 0 <= i < 4 ==> is_octet(#[trigger] parts[i])) && s
            == #[trigger] joined(parts, '.') {
        let parts = choose|parts: Seq<Seq<char>>|
            parts.len() == 4 && (forall|i: int| 0 <= i < 4 ==> is_octet(#[trigger] parts[i])) && s
                == #[trigger] joined(parts, '.');
        assert forall|k: int, i: int|
            0 <= k < parts.len() && 0 <= i < parts[k].len() implies #[trigger] parts[k][i]
            != '.' by {
            assert(is_octet(parts[k]));
            assert(is_digit(parts[k][i]));
        }
        lemma_joined_splits(parts, '.');
    }
}

/// Whether every piece is a group of an IPv6 address: one to four hexadecimal digits.
pub open spec fn are_groups(parts: Seq<Seq<char>>) -> bool {
    forall|k: int|
        0 <= k < parts.len() ==> 1 <= (#[trigger] parts[k]).len() <= 4 && forall|i: int|
            0 <= i < parts[k].len() ==> ('0' <= #[trigger] parts[k][i] <= '9' || 'a'
                <= parts[k][i] <= 'f' || 'A' <= parts[k][i] <= 'F')
}

/// Groups with colons between them are as many groups as there are.
proof fn lemma_groups_counted(parts: Seq<Seq<char>>, ipv4_allowed: bool)
    requires
        are_groups(parts),
    ensures
        group_count(joined(parts, ':'), ipv4_allowed) == Some(parts.len() as int),
{
    if parts.len() > 0 {
        assert forall|k: int, i: int|
            0 <= k < parts.len() && 0 <= i < parts[k].len() implies #[trigger] parts[k][i]
            != ':' by {
            assert(1 <= parts[k].len() <= 4);
        }
        lemma_joined_splits(parts, ':');
        assert forall|k: int| 0 <= k < parts.len() implies is_group(#[trigger] parts[k]) by {
            assert(1 <= parts[k].len() <= 4);
            assert forall|i: int| 0 <= i < parts[k].len() implies is_hex_digit(
                #[trigger] parts[k][i],
            ) by {}
        }
        let s = joined(parts, ':');
        if s.len() == 0 {
            assert(split_on(s, ':') =~= seq![Seq::<char>::empty()]);
            assert(parts[0].len() == 0);
        }
    }
}

/// Eight groups of one to four hexadecimal digits with colons between them are an IPv6
/// address.
pub proof fn lemma_ipv6_texts(parts: Seq<Seq<char>>)
    requires
        parts.len() == 8,
        are_groups(parts),
    ensures
        is_ipv6(joined(parts, ':')),
        is_ip_literal(joined(parts, ':')),
{
    lemma_groups_counted(parts, true);
}

/// Two colons between groups stand for the groups that are missing, at least one of them: such
/// a text is an IPv6 address as well.
pub proof fn lemma_short_ipv6_texts(head: Seq<Seq<char>>, tail: Seq<Seq<char>>)
    requires
        are_groups(head),
        are_groups(tail),
        head.len() + tail.len() <= 7,
    ensures
        is_ipv6(joined(head, ':') + seq![':', ':'] + joined(tail, ':')),
{
    let a = joined(head, ':');
    let b = joined(tail, ':');
    let s = a + seq![':', ':'] + b;
    let at = a.len() as int;
    lemma_groups_counted(head, false);
    lemma_groups_counted(tail, true);
    assert(s.subrange(0, at) =~= a);
    assert(s.subrange(at + 2, s.len() as int) =~= b);
    assert(s[at] == ':' && s[at + 1] == ':');
    assert(is_shortened_at(s, at));
}

/// Without a colon a text is no IPv6 address, and without a dot no IPv4 address.
pub proof fn lemma_addresses_have_separators(s: Seq<char>)
    ensures
        is_ipv6(s) ==> s.contains(':'),
        is_ipv4(s) ==> s.contains('.'),
{
    if is_ipv6(s) && !s.contains(':') {
        assert forall|i: int| 0 <= i < s.len() implies #[trigger] s[i] != ':' by {
            assert(s.contains(s[i]));
        }
        lemma_split_single(s, ':');
        if exists|at: int| #[trigger] is_shortened_at(s, at) {
            let at = choose|at: int| #[trigger] is_shortened_at(s, at);
            assert(s[at] == ':');
        }
    }
    if is_ipv4(s) && !s.contains('.') {
        assert forall|i: int| 0 <= i < s.len() implies #[trigger] s[i] != '.' by {
            assert(s.contains(s[i]));
        }
        lemma_split_single(s, '.');
    }
}

/// A group is one to four hexadecimal digits, small or capital, and nothing else is one.
pub proof fn lemma_group_texts(s: Seq<char>)
    ensures
        is_group(s) <==> 1 <= s.len() <= 4 && forall|i: int|
            0 <= i < s.len() ==> ('0' <= #[trigger] s[i] <= '9' || 'a' <= s[i] <= 'f' || 'A'
                <= s[i] <= 'F'),
{
    if is_group(s) {
        assert forall|i: int| 0 <= i < s.len() implies ('0' <= #[trigger] s[i] <= '9' || 'a'
            <= s[i] <= 'f' || 'A' <= s[i] <= 'F') by {
            assert(is_hex_digit(s[i]));
        }
    }
    if 1 <= s.len() <= 4 && forall|i: int|
        0 <= i < s.len() ==> ('0' <= #[trigger] s[i] <= '9' || 'a' <= s[i] <= 'f' || 'A' <= s[i]
            <= 'F') {
        assert forall|i: int| 0 <= i < s.len() implies is_hex_digit(#[trigger] s[i]) by {}
    }
}

/// Whatever counts as groups is made of groups with colons between them. Only the last piece
/// may be an IPv4 address, where that is allowed, and stands for two.
pub proof fn lemma_counted_groups(s: Seq<char>, ipv4_allowed: bool)
    ensures
        s.len() == 0 ==> group_count(s, ipv4_allowed) == Some(0int),
        s.len() > 0 ==> (group_count(s, ipv4_allowed) matches Some(n) ==> exists|
            parts: Seq<Seq<char>>,
        |
            {
                &&& parts.len() > 0
                &&& s == #[trigger] joined(parts, ':')
                &&& forall|k: int| 0 <= k < parts.len() - 1 ==> is_group(#[trigger] parts[k])
                &&& is_group(parts.last()) ==> n == parts.len()
                &&& !is_group(parts.last()) ==> ipv4_allowed && is_ipv4(parts.last()) && n
                    == parts.len() + 1
            }),
{
    if s.len() > 0 {
        lemma_split_joins(s, ':');
        lemma_split_nonempty(s, ':');
        let parts = split_on(s, ':');
        assert(s == joined(parts, ':'));
        assert(parts.last() == parts[parts.len() - 1]);
    }
}

/// An IPv6 address is eight groups, or two pieces around two colons that together stand for at
/// most seven, of which only the second may end in an IPv4 address.
pub proof fn lemma_ipv6_forms(s: Seq<char>)
    ensures
        is_ipv6(s) <==> (group_count(s, true) == Some(8int) || exists|
            head: Seq<char>,
            tail: Seq<char>,
        |
            s == head + seq![':', ':'] + tail && (#[trigger] group_count(head, false) matches Some(a)
                && #[trigger] group_count(tail, true) matches Some(b) && a + b <= 7)),
        is_ip_literal(s) <==> is_ipv4(s) || is_ipv6(s),
{
    if exists|at: int| #[trigger] is_shortened_at(s, at) {
        let at = choose|at: int| #[trigger] is_shortened_at(s, at);
        let head = s.subrange(0, at);
        let tail = s.subrange(at + 2, s.len() as int);
        assert(s =~= head + seq![':', ':'] + tail);
        assert(group_count(head, false) is Some && group_count(tail, true) is Some);
    }
    if exists|head: Seq<char>, tail: Seq<char>|
        s == head + seq![':', ':'] + tail && (#[trigger] group_count(head, false) matches Some(a)
            && #[trigger] group_count(tail, true) matches Some(b) && a + b <= 7) {
        let (head, tail) = choose|head: Seq<char>, tail: Seq<char>|
            s == head + seq![':', ':'] + tail && (#[trigger] group_count(head, false) matches Some(a)
                && #[trigger] group_count(tail, true) matches Some(b) && a + b <= 7);
        let at = head.len() as int;
        assert(s.subrange(0, at) =~= head);
        assert(s.subrange(at + 2, s.len() as int) =~= tail);
        assert(is_shortened_at(s, at));
    }
}

} // verus!
