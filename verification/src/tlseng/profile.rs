//! Profiles: which lists, in which order, make a hello look like a given browser's.

use std::collections::hash_map::DefaultHasher;
use std::hash::Hasher;

use vstd::prelude::*;
use vstd::std_specs::hash::DefaultHasherAdditionalSpecFns;
use vstd::utf8::encode_utf8;

use crate::tlseng::types::{
    ExtensionOrder, ProtocolVersion, TlsGroups, TlsSignatures, TlsVersions,
};

verus! {

/// What the `ClientHello` of one browser looks like.
#[derive(Debug, Clone, Copy, PartialEq, Eq, Hash)]
pub struct BrowserProfile {
    /// The groups of `supported_groups`.
    pub groups: TlsGroups,
    /// The algorithms of `signature_algorithms`.
    pub signatures: TlsSignatures,
    /// The algorithms of `delegated_credentials`.
    pub delegated_signatures: TlsSignatures,
    /// The versions of `supported_versions`.
    pub versions: TlsVersions,
    /// The protocols of ALPN.
    pub alpn: &'static [&'static str],
    /// The order of the extensions.
    pub extension_order: ExtensionOrder,
    /// The cipher suites, in order.
    pub cipher_suites: &'static [u16],
    /// The version in the record header.
    pub record_layer_version: ProtocolVersion,
    /// The size to pad the hello to; 0 for no padding.
    pub target_padding_len: u16,
    /// The protocols of `application_settings`.
    pub alps_protocols: &'static [&'static str],
    /// Whether GREASE numbers are mixed in.
    pub has_grease: bool,
    /// Whether the extensions between the first and the last are shuffled.
    pub shuffle_extensions: bool,
}

/// The algorithms that most browsers list.
pub open spec fn standard_signatures() -> Seq<u16> {
    seq![0x0403u16, 0x0804u16, 0x0401u16, 0x0503u16, 0x0805u16, 0x0501u16, 0x0806u16]
}

/// How many profiles sessions are spread over.
pub const POOL_SIZE: usize = 1;

impl BrowserProfile {
    /// The fields that a profile of Chrome 140 has.
    pub open spec fn is_chrome_140(self) -> bool {
        &&& self.groups.0@ == seq![0x11ecu16, 0x001du16]
        &&& self.signatures.0@ == seq![0x0904u16, 0x0403u16, 0x0804u16]
        &&& self.delegated_signatures.0@ == seq![0x0904u16, 0x0403u16, 0x0804u16]
        &&& self.versions.0@ == seq![0x0304u16, 0x0303u16]
        &&& self.extension_order.0@ == seq![
            0x0a0au16,
            0x0000u16,
            0x000au16,
            0x0033u16,
            0x002bu16,
            0x000du16,
            0x2a2au16,
        ]
        &&& self.record_layer_version == ProtocolVersion::Tls10
        &&& self.cipher_suites@ == seq![0x1301u16, 0x1302u16, 0x1303u16]
        &&& self.alpn@ == seq!["h2", "http/1.1"]
        &&& self.alps_protocols@ == seq!["h2"]
        &&& self.has_grease
        &&& self.shuffle_extensions
        &&& self.target_padding_len == 0
    }

    /// Chrome 140.
    pub fn chrome_140() -> (r: Self)
        ensures
            r.is_chrome_140(),
    {
        let r: Self = Self {
            groups: TlsGroups::chromium_pq(),
            signatures: TlsSignatures::chrome_pq(),
            delegated_signatures: TlsSignatures::chrome_pq(),
            versions: TlsVersions::modern(),
            record_layer_version: ProtocolVersion::Tls10,
            cipher_suites: &[0x1301, 0x1302, 0x1303],
            alpn: &["h2", "http/1.1"],
            extension_order: ExtensionOrder::chrome_140(),
            has_grease: true,
            shuffle_extensions: true,
            alps_protocols: &["h2"],
            target_padding_len: 0,
        };
        assert(r.cipher_suites@ =~= seq![0x1301u16, 0x1302u16, 0x1303u16]);
        assert(r.alpn@ =~= seq!["h2", "http/1.1"]);
        assert(r.alps_protocols@ =~= seq!["h2"]);
        r
    }

    /// The fields that the two padded profiles of the Chromium family share.
    pub open spec fn is_padded_chromium(self) -> bool {
        &&& self.groups.0@ == seq![0x001du16, 0x0017u16]
        &&& self.signatures.0@ == standard_signatures()
        &&& self.delegated_signatures.0@ == standard_signatures()
        &&& self.versions.0@ == seq![0x0304u16]
        &&& self.record_layer_version == ProtocolVersion::Tls10
        &&& self.cipher_suites@ == seq![0x1301u16, 0x1302u16, 0x1303u16]
        &&& self.alpn@ == seq!["h2", "http/1.1"]
        &&& self.alps_protocols@ == seq!["h2"]
        &&& self.has_grease
        &&& self.shuffle_extensions
        &&& self.target_padding_len == 512
    }

    /// Chrome 131.
    pub fn chrome_131() -> (r: Self)
        ensures
            r.is_padded_chromium(),
            r.extension_order.0@ == seq![
                0xaaaau16,
                0x0000u16,
                0x000au16,
                0x000du16,
                0x0033u16,
                0x002bu16,
                0x0015u16,
            ],
    {
        let r: Self = Self {
            groups: TlsGroups::chromium(),
            signatures: TlsSignatures::browser_standard(),
            delegated_signatures: TlsSignatures::browser_standard(),
            versions: TlsVersions::tls_13_only(),
            record_layer_version: ProtocolVersion::Tls10,
            cipher_suites: &[0x1301, 0x1302, 0x1303],
            alpn: &["h2", "http/1.1"],
            extension_order: ExtensionOrder::chromium_131(),
            has_grease: true,
            shuffle_extensions: true,
            alps_protocols: &["h2"],
            target_padding_len: 512,
        };
        assert(r.cipher_suites@ =~= seq![0x1301u16, 0x1302u16, 0x1303u16]);
        assert(r.alpn@ =~= seq!["h2", "http/1.1"]);
        assert(r.alps_protocols@ =~= seq!["h2"]);
        r
    }

    /// Edge 130.
    pub fn edge_130() -> (r: Self)
        ensures
            r.is_padded_chromium(),
            r.extension_order.0@ == seq![
                0x1a1au16,
                0x0000u16,
                0x000au16,
                0x000du16,
                0x0033u16,
                0x002bu16,
                0x3a3au16,
                0x0015u16,
            ],
    {
        let r: Self = Self {
            groups: TlsGroups::chromium(),
            signatures: TlsSignatures::browser_standard(),
            delegated_signatures: TlsSignatures::browser_standard(),
            versions: TlsVersions::tls_13_only(),
            record_layer_version: ProtocolVersion::Tls10,
            cipher_suites: &[0x1301, 0x1302, 0x1303],
            alpn: &["h2", "http/1.1"],
            extension_order: ExtensionOrder::edge_130(),
            has_grease: true,
            shuffle_extensions: true,
            alps_protocols: &["h2"],
            target_padding_len: 512,
        };
        assert(r.cipher_suites@ =~= seq![0x1301u16, 0x1302u16, 0x1303u16]);
        assert(r.alpn@ =~= seq!["h2", "http/1.1"]);
        assert(r.alps_protocols@ =~= seq!["h2"]);
        r
    }

    /// The fields that the profiles outside the Chromium family share.
    pub open spec fn is_plain(self) -> bool {
        &&& self.signatures.0@ == standard_signatures()
        &&& self.delegated_signatures.0@ == standard_signatures()
        &&& self.versions.0@ == seq![0x0304u16, 0x0303u16]
        &&& self.record_layer_version == ProtocolVersion::Tls12
        &&& self.cipher_suites@ == seq![0x1301u16, 0x1302u16, 0x1303u16]
        &&& self.alpn@ == seq!["h2", "http/1.1"]
        &&& self.alps_protocols@.len() == 0
        &&& !self.has_grease
        &&& !self.shuffle_extensions
        &&& self.target_padding_len == 0
    }

    /// Firefox 130.
    pub fn firefox_130() -> (r: Self)
        ensures
            r.is_plain(),
            r.groups.0@ == seq![0x001du16, 0x0017u16, 0x0019u16],
            r.extension_order.0@ == seq![
                0x0000u16,
                0xff01u16,
                0x000au16,
                0x0033u16,
                0x002bu16,
                0x000du16,
            ],
    {
        let r: Self = Self {
            groups: TlsGroups::firefox(),
            signatures: TlsSignatures::browser_standard(),
            delegated_signatures: TlsSignatures::browser_standard(),
            versions: TlsVersions::modern(),
            record_layer_version: ProtocolVersion::Tls12,
            cipher_suites: &[0x1301, 0x1302, 0x1303],
            alpn: &["h2", "http/1.1"],
            extension_order: ExtensionOrder::firefox_133(),
            has_grease: false,
            shuffle_extensions: false,
            alps_protocols: &[],
            target_padding_len: 0,
        };
        assert(r.cipher_suites@ =~= seq![0x1301u16, 0x1302u16, 0x1303u16]);
        assert(r.alpn@ =~= seq!["h2", "http/1.1"]);
        r
    }

    /// Safari 17.
    pub fn safari_17() -> (r: Self)
        ensures
            r.is_plain(),
            r.groups.0@ == seq![0x001du16, 0x0017u16],
            r.extension_order.0@ == seq![0x0000u16, 0xff01u16, 0x000au16, 0x0033u16, 0x002bu16],
    {
        let r: Self = Self {
            groups: TlsGroups::safari(),
            signatures: TlsSignatures::browser_standard(),
            delegated_signatures: TlsSignatures::browser_standard(),
            versions: TlsVersions::modern(),
            record_layer_version: ProtocolVersion::Tls12,
            cipher_suites: &[0x1301, 0x1302, 0x1303],
            alpn: &["h2", "http/1.1"],
            extension_order: ExtensionOrder::safari_17(),
            has_grease: false,
            shuffle_extensions: false,
            alps_protocols: &[],
            target_padding_len: 0,
        };
        assert(r.cipher_suites@ =~= seq![0x1301u16, 0x1302u16, 0x1303u16]);
        assert(r.alpn@ =~= seq!["h2", "http/1.1"]);
        r
    }

    /// Whether this is the profile at place `i` of the pool.
    pub open spec fn in_pool_at(self, i: int) -> bool {
        i == 0 && self.is_chrome_140()
    }

    /// The profiles that sessions are spread over. Only those belong here that nothing
    /// tells apart from a living browser; at present that is one.
    pub fn all() -> (r: Vec<Self>)
        ensures
            r@.len() == POOL_SIZE,
            forall|i: int| 0 <= i < r@.len() ==> (#[trigger] r@[i]).in_pool_at(i),
    {
        let mut pool: Vec<Self> = Vec::new();
        pool.push(Self::chrome_140());
        pool
    }

    /// The place in the pool that a session has: the hash of its name.
    pub open spec fn place_of(session_id: Seq<char>) -> int {
        (DefaultHasher::spec_finish(seq![encode_utf8(session_id), seq![0xffu8]]) as usize
            % POOL_SIZE) as int
    }

    /// The profile of a session: the same for all its connections.
    pub fn for_session(session_id: &str) -> (r: Self)
        ensures
            r.in_pool_at(Self::place_of(session_id@)),
    {
        let mut hasher: DefaultHasher = DefaultHasher::new();
        hasher.write(session_id.as_bytes());
        let end: [u8; 1] = [0xff];
        hasher.write(end.as_slice());
        proof {
            assert(end@ =~= seq![0xffu8]);
        }
        let pool: Vec<Self> = Self::all();
        let idx: usize = hasher.finish() as usize % POOL_SIZE;
        assert(hasher@ =~= seq![encode_utf8(session_id@), seq![0xffu8]]);
        pool[idx]
    }
}

/// How the server answers. Some fields are not written anywhere yet.
#[derive(Debug, Clone, Copy, PartialEq, Eq, Hash)]
pub struct ServerProfile {
    /// The versions of `supported_versions`.
    pub versions: TlsVersions,
    /// The version in the record header.
    pub record_layer_version: ProtocolVersion,
    /// The cipher suites to choose from.
    pub cipher_suites: &'static [u16],
    pub _groups: TlsGroups,
    pub _signatures: TlsSignatures,
    pub _alpn: &'static [&'static str],
    pub _session_tickets: bool,
    /// Whether the server's order of cipher suites counts, not the client's.
    pub honor_cipher_order: bool,
}

impl ServerProfile {
    /// TLS 1.3 or 1.2, the suite by the server's order.
    pub fn modern() -> (r: Self)
        ensures
            r.versions.0@ == seq![0x0304u16, 0x0303u16],
            r.record_layer_version == ProtocolVersion::Tls12,
            r.cipher_suites@ == seq![0x1301u16, 0x1302u16, 0x1303u16],
            r._groups.0@ == seq![0x001du16, 0x0017u16],
            r._signatures.0@ == seq![
                0x0403u16,
                0x0804u16,
                0x0401u16,
                0x0503u16,
                0x0805u16,
                0x0501u16,
                0x0806u16,
            ],
            r._alpn@ == seq!["h2", "http/1.1"],
            r._session_tickets,
            r.honor_cipher_order,
    {
        Self {
            versions: TlsVersions::modern(),
            record_layer_version: ProtocolVersion::Tls12,
            cipher_suites: &[0x1301, 0x1302, 0x1303],
            _groups: TlsGroups::modern(),
            _signatures: TlsSignatures::browser_standard(),
            _alpn: &["h2", "http/1.1"],
            _session_tickets: true,
            honor_cipher_order: true,
        }
    }

    /// The same with more suites, for clients that offer none of the modern ones.
    pub fn compat() -> (r: Self)
        ensures
            r.versions.0@ == seq![0x0304u16, 0x0303u16],
            r.record_layer_version == ProtocolVersion::Tls12,
            r.cipher_suites@ == seq![
                0x1301u16,
                0x1302u16,
                0x1303u16,
                0xc02bu16,
                0xc02fu16,
                0xc02cu16,
                0xc030u16,
            ],
            r._groups.0@ == seq![0x001du16, 0x0017u16],
            r._signatures.0@ == seq![
                0x0403u16,
                0x0804u16,
                0x0401u16,
                0x0503u16,
                0x0805u16,
                0x0501u16,
                0x0806u16,
            ],
            r._alpn@ == seq!["h2", "http/1.1"],
            r._session_tickets,
            r.honor_cipher_order,
    {
        Self {
            versions: TlsVersions::modern(),
            record_layer_version: ProtocolVersion::Tls12,
            cipher_suites: &[0x1301, 0x1302, 0x1303, 0xc02b, 0xc02f, 0xc02c, 0xc030],
            _groups: TlsGroups::modern(),
            _signatures: TlsSignatures::browser_standard(),
            _alpn: &["h2", "http/1.1"],
            _session_tickets: true,
            honor_cipher_order: true,
        }
    }
}

/// What the profile of Chrome 140 says, list by list.
pub proof fn lemma_chrome_140(p: BrowserProfile)
    requires
        p.is_chrome_140(),
    ensures
        p.groups.0@ == seq![0x11ecu16, 0x001du16],
        p.signatures.0@ == seq![0x0904u16, 0x0403u16, 0x0804u16],
        p.delegated_signatures.0@ == seq![0x0904u16, 0x0403u16, 0x0804u16],
        p.versions.0@ == seq![0x0304u16, 0x0303u16],
        p.extension_order.0@ == seq![
            0x0a0au16,
            0x0000u16,
            0x000au16,
            0x0033u16,
            0x002bu16,
            0x000du16,
            0x2a2au16,
        ],
        p.record_layer_version == ProtocolVersion::Tls10,
        p.cipher_suites@ == seq![0x1301u16, 0x1302u16, 0x1303u16],
        p.alpn@ == seq!["h2", "http/1.1"],
        p.alps_protocols@ == seq!["h2"],
        p.has_grease,
        p.shuffle_extensions,
        p.target_padding_len == 0,
{
}

/// What the padded profiles of the Chromium family say, list by list.
pub proof fn lemma_padded_chromium(p: BrowserProfile)
    requires
        p.is_padded_chromium(),
    ensures
        p.groups.0@ == seq![0x001du16, 0x0017u16],
        p.signatures.0@ == seq![
            0x0403u16,
            0x0804u16,
            0x0401u16,
            0x0503u16,
            0x0805u16,
            0x0501u16,
            0x0806u16,
        ],
        p.delegated_signatures.0@ == p.signatures.0@,
        p.versions.0@ == seq![0x0304u16],
        p.record_layer_version == ProtocolVersion::Tls10,
        p.cipher_suites@ == seq![0x1301u16, 0x1302u16, 0x1303u16],
        p.alpn@ == seq!["h2", "http/1.1"],
        p.alps_protocols@ == seq!["h2"],
        p.has_grease,
        p.shuffle_extensions,
        p.target_padding_len == 512,
{
}

/// What the profiles outside the Chromium family say, list by list.
pub proof fn lemma_plain(p: BrowserProfile)
    requires
        p.is_plain(),
    ensures
        p.signatures.0@ == seq![
            0x0403u16,
            0x0804u16,
            0x0401u16,
            0x0503u16,
            0x0805u16,
            0x0501u16,
            0x0806u16,
        ],
        p.delegated_signatures.0@ == p.signatures.0@,
        p.versions.0@ == seq![0x0304u16, 0x0303u16],
        p.record_layer_version == ProtocolVersion::Tls12,
        p.cipher_suites@ == seq![0x1301u16, 0x1302u16, 0x1303u16],
        p.alpn@ == seq!["h2", "http/1.1"],
        p.alps_protocols@.len() == 0,
        !p.has_grease,
        !p.shuffle_extensions,
        p.target_padding_len == 0,
{
}

/// Whatever its name, a session gets a profile of the pool: Chrome 140.
pub proof fn lemma_pool(p: BrowserProfile, session_id: Seq<char>)
    requires
        p.in_pool_at(BrowserProfile::place_of(session_id)),
    ensures
        p.is_chrome_140(),
{
}

} // verus!
