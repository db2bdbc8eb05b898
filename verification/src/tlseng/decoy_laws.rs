//! Under which names a node appears, and what the lengths of its answer are.

use vstd::prelude::*;
use vstd::utf8::encode_utf8;

use crate::tlseng::decoy::{
    chain_len, checked, flight_of, has_host_syntax, is_host_name, listed, mode_of, normalised,
    text_before, DecoyCatalog, DecoyError, DecoyMode, DecoySni,
};
use crate::utils::address::is_ip_literal;
use crate::utils::text::{decimal, lowered, split_on, trim_end_of, trimmed};

verus! {

/// Two modes have names, in whatever letter case and with whatever white space around them,
/// and no other text names one.
pub proof fn lemma_mode_names(s: Seq<char>)
    ensures
        ({
            let word = lowered(trimmed(s));
            &&& mode_of(s) == Some(DecoyMode::Relay) <==> word == "relay"@ || word == "reality"@
                || word == "borrowed"@
            &&& mode_of(s) == Some(DecoyMode::SelfHosted) <==> word != "relay"@ && word
                != "reality"@ && word != "borrowed"@ && (word == "self-hosted"@ || word
                == "self_hosted"@ || word == "selfhosted"@ || word == "owned"@ || word == "utp"@)
        }),
{
}

/// A name is accepted exactly when, without white space around it, without dots at its end and
/// in small letters, it is one of the node's names and a host name at all: at most 253 bytes,
/// no IP address, and nothing but letters, digits, dots and hyphens. What comes out is the name
/// in that form, and each reason to refuse it is told apart, the first one that applies.
pub proof fn lemma_name_checked(
    names: Seq<Seq<char>>,
    sni: Seq<char>,
    r: Result<DecoySni, DecoyError>,
)
    requires
        checked(names, sni, r),
    ensures
        ({
            let host = lowered(trim_end_of(trimmed(sni), '.'));
            let short = encode_utf8(host).len() <= 253;
            let clean = forall|i: int|
                0 <= i < host.len() ==> ('0' <= #[trigger] host[i] <= '9' || 'a' <= host[i] <= 'z'
                    || 'A' <= host[i] <= 'Z' || host[i] == '.' || host[i] == '-');
            let address = is_ip_literal(host);
            &&& host.len() == 0 ==> r == Err::<DecoySni, DecoyError>(DecoyError::Empty)
            &&& host.len() > 0 && !short ==> r == Err::<DecoySni, DecoyError>(DecoyError::TooLong)
            &&& host.len() > 0 && short && address ==> r == Err::<DecoySni, DecoyError>(
                DecoyError::IpLiteral,
            )
            &&& host.len() > 0 && short && !address && !clean ==> r == Err::<DecoySni, DecoyError>(
                DecoyError::BadSyntax,
            )
            &&& host.len() > 0 && short && !address && clean && !names.contains(host) ==> r == Err::<
                DecoySni,
                DecoyError,
            >(DecoyError::NotOwned { available: names.len() as usize })
            &&& host.len() > 0 && short && !address && clean && names.contains(host) ==> (
            r matches Ok(name) && name@ == host)
        }),
{
    let host = normalised(sni);
    let clean = forall|i: int|
        0 <= i < host.len() ==> ('0' <= #[trigger] host[i] <= '9' || 'a' <= host[i] <= 'z' || 'A'
            <= host[i] <= 'Z' || host[i] == '.' || host[i] == '-');
    lemma_host_syntax(host);
    assert(has_host_syntax(host) == clean);
}

/// A host name has nothing but letters, digits, dots and hyphens.
pub proof fn lemma_host_syntax(host: Seq<char>)
    ensures
        has_host_syntax(host) <==> forall|i: int|
            0 <= i < host.len() ==> ('0' <= #[trigger] host[i] <= '9' || 'a' <= host[i] <= 'z'
                || 'A' <= host[i] <= 'Z' || host[i] == '.' || host[i] == '-'),
{
    if has_host_syntax(host) {
        assert forall|i: int| 0 <= i < host.len() implies ('0' <= #[trigger] host[i] <= '9' || 'a'
            <= host[i] <= 'z' || 'A' <= host[i] <= 'Z' || host[i] == '.' || host[i] == '-') by {
            assert(crate::tlseng::decoy::is_host_char(host[i]));
        }
    }
}

/// What a list offers: each of its pieces between commas, in the form in which names are
/// compared, unless nothing is left of it or it is no host name.
pub proof fn lemma_listed_names(list: Seq<char>, name: Seq<char>)
    ensures
        listed(list, name) <==> name.len() > 0 && exists|k: int|
            0 <= k < split_on(list, ',').len() && name == lowered(
                trim_end_of(trimmed(#[trigger] split_on(list, ',')[k]), '.'),
            ),
        is_host_name(name) <==> encode_utf8(name).len() <= 253 && !is_ip_literal(name)
            && has_host_syntax(name),
{
    if listed(list, name) {
        let k = choose|k: int|
            0 <= k < split_on(list, ',').len() && normalised(#[trigger] split_on(list, ',')[k])
                == name;
        assert(name == lowered(trim_end_of(trimmed(split_on(list, ',')[k]), '.')));
    }
    if name.len() > 0 && exists|k: int|
        0 <= k < split_on(list, ',').len() && name == lowered(
            trim_end_of(trimmed(#[trigger] split_on(list, ',')[k]), '.'),
        ) {
        let k = choose|k: int|
            0 <= k < split_on(list, ',').len() && name == lowered(
                trim_end_of(trimmed(#[trigger] split_on(list, ',')[k]), '.'),
            );
        assert(normalised(split_on(list, ',')[k]) == name);
    }
}

/// Names are in the order of a dictionary: the first character in which they differ decides,
/// and a name that goes on comes after the one that ends.
pub proof fn lemma_text_order(a: Seq<char>, b: Seq<char>, n: int)
    requires
        0 <= n <= a.len(),
        n <= b.len(),
        forall|i: int| 0 <= i < n ==> a[i] == b[i],
    ensures
        n == a.len() && n < b.len() ==> text_before(a, b),
        n == b.len() ==> !text_before(a, b),
        n < a.len() && n < b.len() && a[n] < b[n] ==> text_before(a, b),
        n < a.len() && n < b.len() && a[n] > b[n] ==> !text_before(a, b),
    decreases n,
{
    if n > 0 {
        assert(a[0] == b[0]);
        lemma_text_order(a.drop_first(), b.drop_first(), n - 1);
    }
}

/// The lengths of the records after `ServerHello`: 30 bytes of encrypted extensions, the chain
/// with 25 bytes around it and five around each certificate, the signature with 25 bytes around
/// it, and the hash with 21.
pub proof fn lemma_flight_lengths(certs: Seq<usize>, signature_len: int, hash_len: int)
    ensures
        ({
            let f = flight_of(certs, signature_len, hash_len);
            &&& f.len() == 4
            &&& f[0] == 30
            &&& f[1] == 25 + chain_len(certs)
            &&& f[2] == 25 + signature_len
            &&& f[3] == 21 + hash_len
        }),
        certs.len() == 0 ==> chain_len(certs) == 0,
        certs.len() > 0 ==> chain_len(certs) == chain_len(certs.drop_last()) + certs.last() + 5,
{
}

/// What a catalog offers is in the order of a dictionary, nothing twice, and every name is in
/// the form in which names are compared and a host name.
pub proof fn lemma_catalog_names(catalog: DecoyCatalog, i: int, j: int)
    requires
        catalog.wf(),
        0 <= i < catalog.names().len(),
        0 <= j < catalog.names().len(),
    ensures
        i < j ==> text_before(catalog.names()[i], catalog.names()[j]),
        i != j ==> catalog.names()[i] != catalog.names()[j],
        catalog.names()[i].len() > 0,
        lowered(trim_end_of(trimmed(catalog.names()[i]), '.')) == catalog.names()[i],
        encode_utf8(catalog.names()[i]).len() <= 253,
        !is_ip_literal(catalog.names()[i]),
        has_host_syntax(catalog.names()[i]),
{
    let names = catalog.names();
    assert(names.contains(names[i]));
    lemma_text_order(names[i], names[i], names[i].len() as int);
    if i < j {
        assert(text_before(names[i], names[j]));
    } else if j < i {
        assert(text_before(names[j], names[i]));
    }
}

/// What is said of a name that is refused, with the number of names that there are.
pub proof fn lemma_refusal_words(e: DecoyError)
    ensures
        match e {
            DecoyError::Empty => e.words() == "SNI не задан"@,
            DecoyError::TooLong => e.words() == "SNI длиннее 253 байт"@,
            DecoyError::IpLiteral => e.words()
                == "SNI обязан быть именем хоста, а не IP-адресом"@,
            DecoyError::BadSyntax => e.words()
                == "SNI содержит недопустимые для hostname символы"@,
            DecoyError::UnknownMode => e.words()
                == "неизвестный режим маскировки (ожидалось relay | self-hosted)"@,
            DecoyError::NotOwned { available } => e.words()
                == "домен не принадлежит узлу; доступно доменов: "@ + decimal(available as nat)
                + ". Мимикрия валидна только под собственный домен с собственным сертификатом — иначе активный зонд получит чужой сертификат с нашего адреса"@,
        },
{
}

} // verus!
