//! Under which name a node appears, and with which records it answers a hello.
//!
//! A node can relay strangers to someone else's site, or be a site of its own. Only names
//! that the node owns can be chosen: for any other there is no certificate, and the first
//! probe would show it.

use vstd::prelude::*;
use vstd::utf8::encode_utf8;

use crate::utils::address::{ip_literal, is_ip_literal};
use crate::utils::text::{
    ascii_lower, chars_of, decimal, is_white_space, lowercase, lowered, push_decimal, push_text,
    same_text, split_on, split_text, string_of, trim, trim_end, trim_end_matches, trim_end_of,
    trim_start, trimmed,
};

verus! {

/// The environment variable that holds the node's domains, between commas.
pub const DECOY_DOMAINS_ENV: &'static str = "NETRUNNER_DECOY_DOMAINS";

/// The longest host name, in bytes.
pub const MAX_HOST_LEN: usize = 253;

/// How a node disguises itself.
#[derive(Debug, Clone, Copy, PartialEq, Eq, Structural)]
pub enum DecoyMode {
    /// Strangers are relayed to a site that someone else runs.
    Relay,
    /// The node is a site of its own.
    SelfHosted,
}

impl Default for DecoyMode {
    fn default() -> (r: Self)
        ensures
            r == DecoyMode::Relay,
    {
        Self::Relay
    }
}

/// The mode that a text names.
pub open spec fn mode_of(s: Seq<char>) -> Option<DecoyMode> {
    let word = lowered(trimmed(s));
    if word == "relay"@ || word == "reality"@ || word == "borrowed"@ {
        Some(DecoyMode::Relay)
    } else if word == "self-hosted"@ || word == "self_hosted"@ || word == "selfhosted"@ || word
        == "owned"@ || word == "utp"@ {
        Some(DecoyMode::SelfHosted)
    } else {
        None
    }
}

impl DecoyMode {
    /// The mode that a text names. An unknown name is an error, not the default.
    pub fn parse(s: &str) -> (r: Result<Self, DecoyError>)
        ensures
            match mode_of(s@) {
                Some(mode) => r == Ok::<Self, DecoyError>(mode),
                None => r == Err::<Self, DecoyError>(DecoyError::UnknownMode),
            },
    {
        let chars: Vec<char> = chars_of(s);
        let word: Vec<char> = lowercase(&trim(&chars));
        if same_text(&word, &chars_of("relay")) || same_text(&word, &chars_of("reality"))
            || same_text(&word, &chars_of("borrowed")) {
            Ok(Self::Relay)
        } else if same_text(&word, &chars_of("self-hosted")) || same_text(
            &word,
            &chars_of("self_hosted"),
        ) || same_text(&word, &chars_of("selfhosted")) || same_text(&word, &chars_of("owned"))
            || same_text(&word, &chars_of("utp")) {
            Ok(Self::SelfHosted)
        } else {
            Err(DecoyError::UnknownMode)
        }
    }

    /// Whether a stranger is relayed to the name that they asked for.
    pub fn honor_requested_sni(self) -> (r: bool)
        ensures
            r == (self == DecoyMode::Relay),
    {
        match self {
            Self::Relay => true,
            Self::SelfHosted => false,
        }
    }

    /// The name of the mode.
    pub fn as_str(self) -> (r: &'static str)
        ensures
            r@ == match self {
                DecoyMode::Relay => "relay"@,
                DecoyMode::SelfHosted => "self-hosted"@,
            },
    {
        match self {
            Self::Relay => "relay",
            Self::SelfHosted => "self-hosted",
        }
    }
}

/// Why a name is refused.
#[derive(Debug, PartialEq, Eq, Structural)]
pub enum DecoyError {
    /// Nothing but white space.
    Empty,
    /// Longer than a host name can be.
    TooLong,
    /// A literal IP address, which no browser puts there.
    IpLiteral,
    /// Characters that no host name has.
    BadSyntax,
    /// A host name, but none of the node's.
    NotOwned {
        /// How many the node has.
        available: usize,
    },
    /// No known mode.
    UnknownMode,
}

impl DecoyError {
    /// The error in words.
    pub open spec fn words(self) -> Seq<char> {
        match self {
            DecoyError::Empty => "SNI не задан"@,
            DecoyError::TooLong => "SNI длиннее 253 байт"@,
            DecoyError::IpLiteral => "SNI обязан быть именем хоста, а не IP-адресом"@,
            DecoyError::BadSyntax => "SNI содержит недопустимые для hostname символы"@,
            DecoyError::UnknownMode => {
                "неизвестный режим маскировки (ожидалось relay | self-hosted)"@
            },
            DecoyError::NotOwned { available } => {
                "домен не принадлежит узлу; доступно доменов: "@ + decimal(available as nat)
                    + ". Мимикрия валидна только под собственный домен с собственным сертификатом — иначе активный зонд получит чужой сертификат с нашего адреса"@
            },
        }
    }

    /// The error in words.
    pub fn message(&self) -> (r: String)
        ensures
            r@ == self.words(),
    {
        let mut out: Vec<char> = Vec::new();
        match self {
            Self::Empty => push_text(&mut out, "SNI не задан"),
            Self::TooLong => push_text(&mut out, "SNI длиннее 253 байт"),
            Self::IpLiteral => push_text(
                &mut out,
                "SNI обязан быть именем хоста, а не IP-адресом",
            ),
            Self::BadSyntax => push_text(
                &mut out,
                "SNI содержит недопустимые для hostname символы",
            ),
            Self::UnknownMode => push_text(
                &mut out,
                "неизвестный режим маскировки (ожидалось relay | self-hosted)",
            ),
            Self::NotOwned { available } => {
                push_text(&mut out, "домен не принадлежит узлу; доступно доменов: ");
                push_decimal(&mut out, *available);
                push_text(
                    &mut out,
                    ". Мимикрия валидна только под собственный домен с собственным сертификатом — иначе активный зонд получит чужой сертификат с нашего адреса",
                );
            },
        }
        assert(out@ =~= self.words());
        string_of(&out)
    }
}

/// A name that was checked. Only [`DecoyCatalog::validate`] makes one.
#[derive(Debug, Clone, PartialEq, Eq)]
pub struct DecoySni(String);

impl View for DecoySni {
    type V = Seq<char>;

    closed spec fn view(&self) -> Seq<char> {
        self.0@
    }
}

impl DecoySni {
    /// The name.
    pub fn as_str(&self) -> (r: &str)
        ensures
            r@ == self@,
    {
        self.0.as_str()
    }
}

/// A host name as names are compared: without white space around it, without dots at the
/// end, in small letters.
pub open spec fn normalised(s: Seq<char>) -> Seq<char> {
    lowered(trim_end_of(trimmed(s), '.'))
}

/// Whether a host name can hold the character.
pub open spec fn is_host_char(c: char) -> bool {
    '0' <= c <= '9' || 'a' <= c <= 'z' || 'A' <= c <= 'Z' || c == '.' || c == '-'
}

/// Whether a host name can hold the characters.
pub open spec fn has_host_syntax(s: Seq<char>) -> bool {
    forall|i: int| 0 <= i < s.len() ==> is_host_char(#[trigger] s[i])
}

/// Whether a text is a host name: not too long, no IP address, and without characters that
/// no host name has.
pub open spec fn is_host_name(s: Seq<char>) -> bool {
    &&& encode_utf8(s).len() <= MAX_HOST_LEN
    &&& !is_ip_literal(s)
    &&& has_host_syntax(s)
}

/// Whether `a` comes before `b` in the order of their characters.
pub open spec fn text_before(a: Seq<char>, b: Seq<char>) -> bool
    decreases a.len(),
{
    if b.len() == 0 {
        false
    } else if a.len() == 0 {
        true
    } else if a[0] == b[0] {
        text_before(a.drop_first(), b.drop_first())
    } else {
        a[0] < b[0]
    }
}

/// Whether the names are in order, and none comes twice.
pub open spec fn is_ordered(names: Seq<Seq<char>>) -> bool {
    forall|i: int, j: int|
        0 <= i < j < names.len() ==> text_before(#[trigger] names[i], #[trigger] names[j])
}

/// Whether `name` is one of a list between commas.
pub open spec fn listed(list: Seq<char>, name: Seq<char>) -> bool {
    name.len() > 0 && exists|k: int|
        0 <= k < split_on(list, ',').len() && normalised(#[trigger] split_on(list, ',')[k]) == name
}

/// Whether a result is what checking a name against the node's names gives.
pub open spec fn checked(
    names: Seq<Seq<char>>,
    sni: Seq<char>,
    r: Result<DecoySni, DecoyError>,
) -> bool {
    let host = normalised(sni);
    if host.len() == 0 {
        r == Err::<DecoySni, DecoyError>(DecoyError::Empty)
    } else if encode_utf8(host).len() > MAX_HOST_LEN {
        r == Err::<DecoySni, DecoyError>(DecoyError::TooLong)
    } else if is_ip_literal(host) {
        r == Err::<DecoySni, DecoyError>(DecoyError::IpLiteral)
    } else if !has_host_syntax(host) {
        r == Err::<DecoySni, DecoyError>(DecoyError::BadSyntax)
    } else if !names.contains(host) {
        r == Err::<DecoySni, DecoyError>(
            DecoyError::NotOwned { available: names.len() as usize },
        )
    } else {
        r matches Ok(name) && name@ == host
    }
}

/// The names that a node owns, as they are offered for choice: every one of them passes
/// [`DecoyCatalog::validate`].
#[derive(Debug)]
pub struct DecoyCatalog {
    domains: Vec<String>,
}

impl Clone for DecoyCatalog {
    fn clone(&self) -> (r: Self)
        ensures
            r.names() == self.names(),
    {
        proof {
            use_type_invariant(self);
        }
        let domains: Vec<String> = self.domains.clone();
        assert(texts(domains@) =~= self.names());
        Self { domains }
    }
}

impl Default for DecoyCatalog {
    fn default() -> (r: Self)
        ensures
            r.wf(),
            r.names() == Seq::<Seq<char>>::empty(),
    {
        let r: Self = Self { domains: Vec::new() };
        assert(r.names() =~= Seq::empty());
        r
    }
}

/// The texts of strings.
pub open spec fn texts(list: Seq<String>) -> Seq<Seq<char>> {
    Seq::new(list.len(), |i: int| list[i]@)
}

impl DecoyCatalog {
    /// The names.
    pub closed spec fn names(self) -> Seq<Seq<char>> {
        texts(self.domains@)
    }

    /// The names are in order and each is there once, they are host names, and they are
    /// written the way in which names are compared.
    #[verifier::type_invariant]
    pub open spec fn wf(self) -> bool {
        &&& is_ordered(self.names())
        &&& forall|name: Seq<char>| #[trigger]
            self.names().contains(name) ==> name.len() > 0 && normalised(name) == name
                && is_host_name(name)
    }

    /// The host names of a list between commas, in order and each once. What is no host name
    /// could never be chosen, and is left out.
    pub fn from_list(list: &str) -> (r: Self)
        ensures
            r.wf(),
            forall|name: Seq<char>| #[trigger]
                r.names().contains(name) <==> listed(list@, name) && is_host_name(name),
    {
        let chars: Vec<char> = chars_of(list);
        let pieces: Vec<Vec<char>> = split_text(&chars, ',');
        let ghost parts = split_on(list@, ',');
        let mut found: Vec<Vec<char>> = Vec::new();
        let mut i: usize = 0;
        while i < pieces.len()
            invariant
                i <= pieces@.len(),
                parts == split_on(list@, ','),
                pieces@.len() == parts.len(),
                forall|k: int| 0 <= k < pieces@.len() ==> (#[trigger] pieces@[k])@ == parts[k],
                is_ordered(views(found@)),
                forall|name: Seq<char>| #[trigger]
                    views(found@).contains(name) <==> listed_until(list@, i as int, name)
                        && is_host_name(name),
            decreases pieces@.len() - i,
        {
            let name: Vec<char> = normalise(&pieces[i]);
            let ghost before = found@;
            if name.len() > 0 && host_name(&name) {
                insert(&mut found, name);
            }
            proof {
                assert forall|other: Seq<char>| #[trigger]
                    views(found@).contains(other) <==> listed_until(list@, i + 1, other)
                        && is_host_name(other) by {
                    assert(listed_until(list@, i + 1, other) <==> listed_until(
                        list@,
                        i as int,
                        other,
                    ) || other.len() > 0 && normalised(parts[i as int]) == other);
                }
            }
            i = i + 1;
        }
        let mut domains: Vec<String> = Vec::new();
        let mut k: usize = 0;
        while k < found.len()
            invariant
                k <= found@.len(),
                domains@.len() == k,
                forall|j: int| 0 <= j < k ==> (#[trigger] domains@[j])@ == found@[j]@,
            decreases found@.len() - k,
        {
            domains.push(string_of(&found[k]));
            k = k + 1;
        }
        proof {
            assert(texts(domains@) =~= views(found@));
            assert forall|name: Seq<char>| #[trigger]
                texts(domains@).contains(name) <==> listed(list@, name) && is_host_name(name) by {
                assert(listed_until(list@, parts.len() as int, name) <==> listed(list@, name));
            }
            assert forall|name: Seq<char>| #[trigger]
                texts(domains@).contains(name) implies normalised(name) == name by {
                lemma_listed_is_normalised(list@, name);
            }
        }
        Self { domains }
    }

    /// The names, in order: exactly those that pass [`DecoyCatalog::validate`].
    pub fn domains(&self) -> (r: &[String])
        ensures
            self.wf(),
            texts(r@) == self.names(),
    {
        proof {
            use_type_invariant(self);
        }
        self.domains.as_slice()
    }

    /// Whether there are none.
    pub fn is_empty(&self) -> (r: bool)
        ensures
            r == (self.names().len() == 0),
    {
        self.domains.len() == 0
    }

    /// Checks that a name can be used: that it is a host name, and one of the node's.
    pub fn validate(&self, sni: &str) -> (r: Result<DecoySni, DecoyError>)
        ensures
            checked(self.names(), sni@, r),
    {
        let chars: Vec<char> = chars_of(sni);
        let host: Vec<char> = normalise(&chars);
        if host.len() == 0 {
            return Err(DecoyError::Empty);
        }
        let text: String = string_of(&host);
        if text.as_str().as_bytes().len() > MAX_HOST_LEN {
            return Err(DecoyError::TooLong);
        }
        if ip_literal(&host) {
            return Err(DecoyError::IpLiteral);
        }
        if !host_syntax(&host) {
            return Err(DecoyError::BadSyntax);
        }
        let mut i: usize = 0;
        while i < self.domains.len()
            invariant
                i <= self.domains@.len(),
                text@ == host@,
                host@ == normalised(sni@),
                host@.len() > 0,
                encode_utf8(host@).len() <= MAX_HOST_LEN,
                !is_ip_literal(host@),
                has_host_syntax(host@),
                forall|k: int| 0 <= k < i ==> (#[trigger] self.domains@[k])@ != host@,
            decreases self.domains@.len() - i,
        {
            let domain: Vec<char> = chars_of(self.domains[i].as_str());
            if same_text(&domain, &host) {
                assert(self.names()[i as int] == host@);
                return Ok(DecoySni(text));
            }
            i = i + 1;
        }
        Err(DecoyError::NotOwned { available: self.domains.len() })
    }
}

/// The texts of vectors of characters.
spec fn views(list: Seq<Vec<char>>) -> Seq<Seq<char>> {
    Seq::new(list.len(), |i: int| list[i]@)
}

/// Whether a text is a host name.
fn host_name(s: &Vec<char>) -> (r: bool)
    ensures
        r == is_host_name(s@),
{
    string_of(s).as_str().as_bytes().len() <= MAX_HOST_LEN && !ip_literal(s) && host_syntax(s)
}

/// Whether `name` is one of the first `n` of a list between commas.
spec fn listed_until(list: Seq<char>, n: int, name: Seq<char>) -> bool {
    name.len() > 0 && exists|k: int|
        0 <= k < n && normalised(#[trigger] split_on(list, ',')[k]) == name
}

fn normalise(s: &Vec<char>) -> (r: Vec<char>)
    ensures
        r@ == normalised(s@),
{
    lowercase(&trim_end_matches(&trim(s), '.'))
}

fn host_syntax(s: &Vec<char>) -> (r: bool)
    ensures
        r == has_host_syntax(s@),
{
    let mut i: usize = 0;
    while i < s.len()
        invariant
            i <= s@.len(),
            forall|k: int| 0 <= k < i ==> is_host_char(#[trigger] s@[k]),
        decreases s@.len() - i,
    {
        let c: char = s[i];
        if !(('0' <= c && c <= '9') || ('a' <= c && c <= 'z') || ('A' <= c && c <= 'Z') || c == '.'
            || c == '-') {
            return false;
        }
        i = i + 1;
    }
    true
}

/// Of two texts one comes first, or they are the same.
proof fn lemma_text_total(a: Seq<char>, b: Seq<char>)
    ensures
        a == b || text_before(a, b) || text_before(b, a),
    decreases a.len(),
{
    if a.len() > 0 && b.len() > 0 && a[0] == b[0] {
        lemma_text_total(a.drop_first(), b.drop_first());
        if a.drop_first() == b.drop_first() {
            assert(a =~= seq![a[0]] + a.drop_first());
            assert(b =~= seq![b[0]] + b.drop_first());
        }
    } else if a.len() == 0 && b.len() == 0 {
        assert(a =~= b);
    }
}

/// What comes before something that comes before a third comes before the third.
proof fn lemma_text_transitive(a: Seq<char>, b: Seq<char>, c: Seq<char>)
    requires
        text_before(a, b),
        text_before(b, c),
    ensures
        text_before(a, c),
    decreases a.len(),
{
    if a.len() > 0 && b.len() > 0 && c.len() > 0 && a[0] == b[0] && b[0] == c[0] {
        lemma_text_transitive(a.drop_first(), b.drop_first(), c.drop_first());
    }
}

fn before(a: &Vec<char>, b: &Vec<char>) -> (r: bool)
    ensures
        r == text_before(a@, b@),
{
    let mut i: usize = 0;
    assert(a@.subrange(0, a@.len() as int) =~= a@);
    assert(b@.subrange(0, b@.len() as int) =~= b@);
    while i < a.len() && i < b.len()
        invariant
            i <= a@.len(),
            i <= b@.len(),
            text_before(a@, b@) == text_before(
                a@.subrange(i as int, a@.len() as int),
                b@.subrange(i as int, b@.len() as int),
            ),
        decreases a@.len() - i,
    {
        let ghost x = a@.subrange(i as int, a@.len() as int);
        let ghost y = b@.subrange(i as int, b@.len() as int);
        if a[i] != b[i] {
            return a[i] < b[i];
        }
        assert(x.drop_first() =~= a@.subrange(i + 1, a@.len() as int));
        assert(y.drop_first() =~= b@.subrange(i + 1, b@.len() as int));
        i = i + 1;
    }
    i < b.len()
}

/// Puts a name where it belongs, unless it is there.
fn insert(found: &mut Vec<Vec<char>>, name: Vec<char>)
    requires
        is_ordered(views(old(found)@)),
    ensures
        is_ordered(views(final(found)@)),
        forall|other: Seq<char>| #[trigger]
            views(final(found)@).contains(other) <==> views(old(found)@).contains(other) || other
                == name@,
{
    let ghost all = views(found@);
    let mut at: usize = 0;
    while at < found.len() && before(&found[at], &name)
        invariant
            at <= found@.len(),
            all == views(found@),
            forall|k: int| 0 <= k < at ==> text_before(#[trigger] all[k], name@),
        decreases found@.len() - at,
    {
        at = at + 1;
    }
    if at < found.len() && same_text(&found[at], &name) {
        proof {
            assert(all[at as int] == name@);
        }
        return;
    }
    found.insert(at, name);
    proof {
        assert(views(found@) =~= all.insert(at as int, name@));
        lemma_insert_ordered(all, at as int, name@);
    }
}

/// A name between those before it and those after it keeps the order.
proof fn lemma_insert_ordered(all: Seq<Seq<char>>, at: int, name: Seq<char>)
    requires
        is_ordered(all),
        0 <= at <= all.len(),
        forall|k: int| 0 <= k < at ==> text_before(#[trigger] all[k], name),
        at < all.len() ==> !text_before(all[at], name) && all[at] != name,
    ensures
        is_ordered(all.insert(at, name)),
        forall|other: Seq<char>| #[trigger]
            all.insert(at, name).contains(other) <==> all.contains(other) || other == name,
{
    let more = all.insert(at, name);
    if at < all.len() {
        lemma_text_total(all[at], name);
    }
    assert forall|i: int, j: int| 0 <= i < j < more.len() implies text_before(
        #[trigger] more[i],
        #[trigger] more[j],
    ) by {
        if i == at && j > at + 1 {
            lemma_text_transitive(name, all[at], all[j - 1]);
        }
    }
    assert forall|other: Seq<char>| #[trigger]
        more.contains(other) <==> all.contains(other) || other == name by {
        if all.contains(other) {
            let k = choose|k: int| 0 <= k < all.len() && all[k] == other;
            if k < at {
                assert(more[k] == other);
            } else {
                assert(more[k + 1] == other);
            }
        }
        if other == name {
            assert(more[at] == other);
        }
        if more.contains(other) {
            let k = choose|k: int| 0 <= k < more.len() && more[k] == other;
            if k < at {
                assert(all[k] == other);
            } else if k > at {
                assert(all[k - 1] == other);
            }
        }
    }
}

/// A node's site: its name, and the blocks that its page is made of.
#[derive(Debug, Clone)]
pub struct Decoy {
    /// The name.
    pub sni: DecoySni,
    /// The names of the blocks, in order.
    pub elements: Vec<String>,
}

/// The lengths of certificates, each with what surrounds it in the message.
pub open spec fn chain_len(certs: Seq<usize>) -> nat
    decreases certs.len(),
{
    if certs.len() == 0 {
        0
    } else {
        chain_len(certs.drop_last()) + certs.last() as nat + 5
    }
}

/// The lengths of the records after `ServerHello`: `EncryptedExtensions`, `Certificate`,
/// `CertificateVerify` and `Finished`.
pub open spec fn flight_of(certs: Seq<usize>, signature_len: int, hash_len: int) -> Seq<int> {
    seq![
        13 + CoverFlight::SEALED,
        8 + chain_len(certs) + CoverFlight::SEALED,
        8 + signature_len + CoverFlight::SEALED,
        4 + hash_len + CoverFlight::SEALED,
    ]
}

/// The lengths of the records with which a node answers after `ServerHello`. They follow
/// from its certificates, and so are the same every time.
#[derive(Debug, Clone, PartialEq, Eq)]
pub struct CoverFlight {
    /// The lengths, in order.
    pub records: Vec<usize>,
}

impl CoverFlight {
    /// What encryption adds to a record: the tag, and the inner type.
    pub const SEALED: usize = 17;

    /// Whether the lengths are the given ones.
    pub open spec fn is_flight(self, lens: Seq<int>) -> bool {
        &&& self.records@.len() == lens.len()
        &&& forall|i: int| 0 <= i < lens.len() ==> (#[trigger] self.records@[i]) == lens[i]
    }

    /// The flight of an ordinary chain, for a node that has not measured its own.
    pub fn node_default() -> (r: Self)
        ensures
            r.records@ == seq![30usize, 2385, 97, 53],
    {
        let chain: [usize; 2] = [1250, 1100];
        proof {
            reveal_with_fuel(chain_len, 3);
            assert(chain@.drop_last().drop_last() =~= Seq::empty());
            assert(chain_len(chain@) == 2360);
        }
        let r: Self = Self::from_chain(chain.as_slice(), 72, 32);
        assert(r.records@ =~= seq![30usize, 2385, 97, 53]);
        r
    }

    /// The lengths.
    pub fn as_records(&self) -> (r: &[usize])
        ensures
            r@ == self.records@,
    {
        self.records.as_slice()
    }

    /// The flight of a chain of certificates, of which the lengths are given, with a signature
    /// and a hash of the given lengths.
    pub fn from_chain(cert_der_lens: &[usize], signature_len: usize, hash_len: usize) -> (r: Self)
        requires
            chain_len(cert_der_lens@) + 25 <= usize::MAX,
            signature_len + 25 <= usize::MAX,
            hash_len + 21 <= usize::MAX,
        ensures
            r.is_flight(flight_of(cert_der_lens@, signature_len as int, hash_len as int)),
    {
        let encrypted_extensions: usize = 4 + 2 + 7 + Self::SEALED;
        let mut cert_body: usize = 0;
        let mut i: usize = 0;
        assert(cert_der_lens@.subrange(0, 0) =~= Seq::empty());
        while i < cert_der_lens.len()
            invariant
                i <= cert_der_lens@.len(),
                chain_len(cert_der_lens@) + 25 <= usize::MAX,
                cert_body == chain_len(cert_der_lens@.subrange(0, i as int)),
            decreases cert_der_lens@.len() - i,
        {
            proof {
                let now = cert_der_lens@.subrange(0, i + 1);
                assert(now.drop_last() =~= cert_der_lens@.subrange(0, i as int));
                lemma_chain_len_front(cert_der_lens@, i + 1);
            }
            cert_body = cert_body + (3 + cert_der_lens[i] + 2);
            i = i + 1;
        }
        assert(cert_der_lens@.subrange(0, cert_der_lens@.len() as int) =~= cert_der_lens@);
        let certificate: usize = 4 + 1 + 3 + cert_body + Self::SEALED;
        let certificate_verify: usize = 4 + 2 + 2 + signature_len + Self::SEALED;
        let finished: usize = 4 + hash_len + Self::SEALED;
        let mut records: Vec<usize> = Vec::new();
        records.push(encrypted_extensions);
        records.push(certificate);
        records.push(certificate_verify);
        records.push(finished);
        Self { records }
    }
}

/// The front of a chain is no longer than the chain.
proof fn lemma_chain_len_front(certs: Seq<usize>, n: int)
    requires
        0 <= n <= certs.len(),
    ensures
        chain_len(certs.subrange(0, n)) <= chain_len(certs),
    decreases certs.len(),
{
    if n == certs.len() {
        assert(certs.subrange(0, n) =~= certs);
    } else {
        lemma_chain_len_front(certs.drop_last(), n);
        assert(certs.drop_last().subrange(0, n) =~= certs.subrange(0, n));
    }
}

/// A chain with one certificate more gives a `Certificate` record that is longer by that
/// certificate and five bytes, and leaves the other records as they are.
pub proof fn lemma_flight_grows_with_chain(
    certs: Seq<usize>,
    more: usize,
    signature_len: int,
    hash_len: int,
)
    ensures
        ({
            let a = flight_of(certs, signature_len, hash_len);
            let b = flight_of(certs.push(more), signature_len, hash_len);
            b == a.update(1, a[1] + more + 5)
        }),
{
    assert(certs.push(more).drop_last() =~= certs);
    let a = flight_of(certs, signature_len, hash_len);
    let b = flight_of(certs.push(more), signature_len, hash_len);
    assert(b =~= a.update(1, a[1] + more + 5));
}

/// Letter case makes no difference to the check of a name.
pub proof fn lemma_case_is_ignored(
    names: Seq<Seq<char>>,
    sni: Seq<char>,
    r: Result<DecoySni, DecoyError>,
)
    ensures
        checked(names, lowered(sni), r) == checked(names, sni, r),
{
    lemma_trim_start_lowered(sni);
    lemma_trim_end_lowered(trim_start(sni));
    lemma_trim_dots_lowered(trimmed(sni));
    let t = trim_end_of(trimmed(sni), '.');
    assert(lowered(lowered(t)) =~= lowered(t));
    assert(normalised(lowered(sni)) == normalised(sni));
}

/// A catalog offers exactly what passes its check: each name that it offers is accepted as
/// it is, and each name that is accepted is one that it offers.
pub proof fn lemma_offered_names_pass(
    catalog: DecoyCatalog,
    sni: Seq<char>,
    r: Result<DecoySni, DecoyError>,
)
    requires
        catalog.wf(),
        checked(catalog.names(), sni, r),
    ensures
        catalog.names().contains(sni) ==> (r matches Ok(name) && name@ == sni),
        r matches Ok(name) ==> catalog.names().contains(name@),
{
}

/// A host name of a list is written the way in which names are compared.
proof fn lemma_listed_is_normalised(list: Seq<char>, name: Seq<char>)
    requires
        listed(list, name),
        is_host_name(name),
    ensures
        normalised(name) == name,
{
    let k = choose|k: int|
        0 <= k < split_on(list, ',').len() && normalised(#[trigger] split_on(list, ',')[k]) == name;
    let piece = split_on(list, ',')[k];
    let t = trim_end_of(trimmed(piece), '.');
    lemma_no_dot_at_end(trimmed(piece));
    assert(t.len() == name.len());
    assert(name.last() == ascii_lower(t.last()));
    assert(name.last() != '.');
    assert(is_host_char(name[0]));
    assert(is_host_char(name.last()));
    assert(trim_start(name) == name);
    assert(trim_end(name) == name);
    assert(trim_end_of(name, '.') == name);
    assert(lowered(name) =~= name);
}

proof fn lemma_no_dot_at_end(s: Seq<char>)
    ensures
        trim_end_of(s, '.').len() > 0 ==> trim_end_of(s, '.').last() != '.',
    decreases s.len(),
{
    if s.len() > 0 && s.last() == '.' {
        lemma_no_dot_at_end(s.drop_last());
    }
}

proof fn lemma_trim_start_lowered(s: Seq<char>)
    ensures
        trim_start(lowered(s)) == lowered(trim_start(s)),
    decreases s.len(),
{
    if s.len() > 0 {
        assert(lowered(s)[0] == ascii_lower(s[0]));
        if is_white_space(s[0]) {
            let rest = s.subrange(1, s.len() as int);
            lemma_trim_start_lowered(rest);
            assert(lowered(s).subrange(1, s.len() as int) =~= lowered(rest));
        }
    }
}

proof fn lemma_trim_end_lowered(s: Seq<char>)
    ensures
        trim_end(lowered(s)) == lowered(trim_end(s)),
    decreases s.len(),
{
    if s.len() > 0 {
        assert(lowered(s).last() == ascii_lower(s.last()));
        if is_white_space(s.last()) {
            lemma_trim_end_lowered(s.drop_last());
            assert(lowered(s).drop_last() =~= lowered(s.drop_last()));
        }
    }
}

proof fn lemma_trim_dots_lowered(s: Seq<char>)
    ensures
        trim_end_of(lowered(s), '.') == lowered(trim_end_of(s, '.')),
    decreases s.len(),
{
    if s.len() > 0 {
        assert(lowered(s).last() == ascii_lower(s.last()));
        if s.last() == '.' {
            lemma_trim_dots_lowered(s.drop_last());
            assert(lowered(s).drop_last() =~= lowered(s.drop_last()));
        }
    }
}

} // verus!
