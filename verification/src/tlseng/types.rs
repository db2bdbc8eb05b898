//! Numbers and types of the TLS wire format that the disguise is made of.

use vstd::prelude::*;

verus! {

/// The type of a record, its first byte.
#[derive(Debug, Clone, Copy, PartialEq, Eq, Structural)]
pub enum ContentType {
    /// The record that TLS 1.3 sends for the sake of middleboxes only.
    ChangeCipherSpec,
    /// Hello messages.
    Handshake,
    /// Frames, encrypted.
    ApplicationData,
    /// Alerts; known, not used.
    Alert,
}

impl ContentType {
    /// The byte on the wire.
    pub open spec fn wire(self) -> u8 {
        match self {
            ContentType::ChangeCipherSpec => 0x14,
            ContentType::Handshake => 0x16,
            ContentType::ApplicationData => 0x17,
            ContentType::Alert => 0x15,
        }
    }

    /// What a number on the wire stands for.
    pub open spec fn of_wire(v: u8) -> Option<Self> {
        if v == 0x14 {
            Some(ContentType::ChangeCipherSpec)
        } else if v == 0x16 {
            Some(ContentType::Handshake)
        } else if v == 0x17 {
            Some(ContentType::ApplicationData)
        } else if v == 0x15 {
            Some(ContentType::Alert)
        } else {
            None
        }
    }

    /// The byte on the wire.
    pub fn code(self) -> (r: u8)
        ensures
            r == self.wire(),
    {
        match self {
            ContentType::ChangeCipherSpec => 0x14,
            ContentType::Handshake => 0x16,
            ContentType::ApplicationData => 0x17,
            ContentType::Alert => 0x15,
        }
    }

    /// What a number on the wire stands for.
    pub fn try_from(value: u8) -> (r: Result<Self, &'static str>)
        ensures
            match Self::of_wire(value) {
                Some(t) => r == Ok::<Self, &'static str>(t),
                None => r == Err::<Self, &'static str>("This is not ContentType"),
            },
    {
        match value {
            0x14 => Ok(ContentType::ChangeCipherSpec),
            0x16 => Ok(ContentType::Handshake),
            0x17 => Ok(ContentType::ApplicationData),
            0x15 => Ok(ContentType::Alert),
            _ => Err("This is not ContentType"),
        }
    }
}

/// A TLS version on the wire. TLS 1.3 poses as 1.2 in the record header.
#[derive(Debug, Clone, Copy, PartialEq, Eq, Hash, Structural)]
pub enum ProtocolVersion {
    /// TLS 1.0.
    Tls10,
    /// TLS 1.2.
    Tls12,
    /// TLS 1.3.
    Tls13,
}

impl ProtocolVersion {
    /// The number on the wire.
    pub open spec fn wire(self) -> u16 {
        match self {
            ProtocolVersion::Tls10 => 0x0301,
            ProtocolVersion::Tls12 => 0x0303,
            ProtocolVersion::Tls13 => 0x0304,
        }
    }

    /// What a number on the wire stands for.
    pub open spec fn of_wire(v: u16) -> Option<Self> {
        if v == 0x0301 {
            Some(ProtocolVersion::Tls10)
        } else if v == 0x0303 {
            Some(ProtocolVersion::Tls12)
        } else if v == 0x0304 {
            Some(ProtocolVersion::Tls13)
        } else {
            None
        }
    }

    /// The number on the wire.
    pub fn code(self) -> (r: u16)
        ensures
            r == self.wire(),
    {
        match self {
            ProtocolVersion::Tls10 => 0x0301,
            ProtocolVersion::Tls12 => 0x0303,
            ProtocolVersion::Tls13 => 0x0304,
        }
    }

    /// What a number on the wire stands for.
    pub fn try_from(value: u16) -> (r: Result<Self, &'static str>)
        ensures
            match Self::of_wire(value) {
                Some(t) => r == Ok::<Self, &'static str>(t),
                None => r == Err::<Self, &'static str>("This is not Protocol Version"),
            },
    {
        match value {
            0x0301 => Ok(ProtocolVersion::Tls10),
            0x0303 => Ok(ProtocolVersion::Tls12),
            0x0304 => Ok(ProtocolVersion::Tls13),
            _ => Err("This is not Protocol Version"),
        }
    }
}

/// The type of a handshake message, the first byte of its body.
#[derive(Debug, Clone, Copy, PartialEq, Eq, Structural)]
pub enum HelloType {
    /// `ClientHello`.
    Client,
    /// `ServerHello`.
    Server,
}

impl HelloType {
    /// The byte on the wire.
    pub open spec fn wire(self) -> u8 {
        match self {
            HelloType::Client => 0x01,
            HelloType::Server => 0x02,
        }
    }

    /// What a number on the wire stands for.
    pub open spec fn of_wire(v: u8) -> Option<Self> {
        if v == 0x01 {
            Some(HelloType::Client)
        } else if v == 0x02 {
            Some(HelloType::Server)
        } else {
            None
        }
    }

    /// The byte on the wire.
    pub fn code(self) -> (r: u8)
        ensures
            r == self.wire(),
    {
        match self {
            HelloType::Client => 0x01,
            HelloType::Server => 0x02,
        }
    }

    /// What a number on the wire stands for.
    pub fn try_from(value: u8) -> (r: Result<Self, &'static str>)
        ensures
            match Self::of_wire(value) {
                Some(t) => r == Ok::<Self, &'static str>(t),
                None => r == Err::<Self, &'static str>("This is not Hello header"),
            },
    {
        match value {
            0x01 => Ok(HelloType::Client),
            0x02 => Ok(HelloType::Server),
            _ => Err("This is not Hello header"),
        }
    }
}

/// Record types, versions and handshake types are read back from their numbers.
pub proof fn lemma_wire_numbers_round_trip(t: ContentType, v: ProtocolVersion, h: HelloType)
    ensures
        ContentType::of_wire(t.wire()) == Some(t),
        ProtocolVersion::of_wire(v.wire()) == Some(v),
        HelloType::of_wire(h.wire()) == Some(h),
{
}

/// Whether a list of numbers holds a number.
pub fn holds(list: &[u16], x: u16) -> (r: bool)
    ensures
        r == list@.contains(x),
{
    let mut i: usize = 0;
    while i < list.len()
        invariant
            i <= list@.len(),
            forall|k: int| 0 <= k < i ==> list@[k] != x,
        decreases list@.len() - i,
    {
        if list[i] == x {
            assert(list@.contains(x));
            return true;
        }
        i = i + 1;
    }
    false
}

/// The groups of `supported_groups`. The exchange itself uses X25519.
#[derive(Debug, Clone, Copy, PartialEq, Eq, Hash)]
pub struct TlsGroups(pub &'static [u16]);

impl TlsGroups {
    pub const X25519: u16 = 0x001d;

    pub const SECP256R1: u16 = 0x0017;

    pub const SECP384R1: u16 = 0x0018;

    pub const SECP521R1: u16 = 0x0019;

    /// The hybrid post-quantum group.
    pub const X25519_MLKEM768: u16 = 0x11ec;

    pub fn chromium() -> (r: Self)
        ensures
            r.0@ == seq![0x001du16, 0x0017u16],
    {
        Self(&[0x001d, 0x0017])
    }

    pub fn chromium_pq() -> (r: Self)
        ensures
            r.0@ == seq![0x11ecu16, 0x001du16],
    {
        Self(&[0x11ec, 0x001d])
    }

    pub fn modern() -> (r: Self)
        ensures
            r.0@ == seq![0x001du16, 0x0017u16],
    {
        Self(&[0x001d, 0x0017])
    }

    pub fn firefox() -> (r: Self)
        ensures
            r.0@ == seq![0x001du16, 0x0017u16, 0x0019u16],
    {
        Self(&[0x001d, 0x0017, 0x0019])
    }

    pub fn safari() -> (r: Self)
        ensures
            r.0@ == seq![0x001du16, 0x0017u16],
    {
        Self(&[0x001d, 0x0017])
    }
}

/// The algorithms of `signature_algorithms`: decoration, no certificate is checked.
#[derive(Debug, Clone, Copy, PartialEq, Eq, Hash)]
pub struct TlsSignatures(pub &'static [u16]);

impl TlsSignatures {
    pub const ECDSA_SECP256R1_SHA256: u16 = 0x0403;

    pub const RSA_PSS_RSAE_SHA256: u16 = 0x0804;

    pub const RSA_PKCS1_SHA256: u16 = 0x0401;

    pub const ECDSA_SECP384R1_SHA384: u16 = 0x0503;

    pub const RSA_PSS_RSAE_SHA384: u16 = 0x0805;

    pub const RSA_PKCS1_SHA384: u16 = 0x0501;

    pub const RSA_PSS_RSAE_SHA512: u16 = 0x0806;

    pub const MLDSA44: u16 = 0x0904;

    pub const MLDSA65: u16 = 0x0905;

    pub const MLDSA87: u16 = 0x0906;

    pub const RSA_PKCS1_SHA512: u16 = 0x0601;

    pub fn chrome_pq() -> (r: Self)
        ensures
            r.0@ == seq![0x0904u16, 0x0403u16, 0x0804u16],
    {
        Self(&[0x0904, 0x0403, 0x0804])
    }

    pub fn browser_standard() -> (r: Self)
        ensures
            r.0@ == seq![
                0x0403u16,
                0x0804u16,
                0x0401u16,
                0x0503u16,
                0x0805u16,
                0x0501u16,
                0x0806u16,
            ],
    {
        Self(&[0x0403, 0x0804, 0x0401, 0x0503, 0x0805, 0x0501, 0x0806])
    }
}

/// The versions of `supported_versions`.
#[derive(Debug, Clone, Copy, PartialEq, Eq, Hash)]
pub struct TlsVersions(pub &'static [u16]);

impl TlsVersions {
    pub const TLS_1_3: u16 = 0x0304;

    pub const TLS_1_2: u16 = 0x0303;

    pub fn tls_13_only() -> (r: Self)
        ensures
            r.0@ == seq![0x0304u16],
    {
        Self(&[0x0304])
    }

    pub fn modern() -> (r: Self)
        ensures
            r.0@ == seq![0x0304u16, 0x0303u16],
    {
        Self(&[0x0304, 0x0303])
    }

    /// The highest version of the set: 1.3 or 1.2 when listed, 1.0 otherwise.
    pub open spec fn highest(self) -> ProtocolVersion {
        if self.0@.contains(0x0304) {
            ProtocolVersion::Tls13
        } else if self.0@.contains(0x0303) {
            ProtocolVersion::Tls12
        } else {
            ProtocolVersion::Tls10
        }
    }

    /// The highest version of the set.
    pub fn max(&self) -> (r: ProtocolVersion)
        ensures
            r == self.highest(),
    {
        if holds(self.0, Self::TLS_1_3) {
            ProtocolVersion::Tls13
        } else if holds(self.0, Self::TLS_1_2) {
            ProtocolVersion::Tls12
        } else {
            ProtocolVersion::Tls10
        }
    }
}

/// The highest version of a set is in the set, as soon as any version is, and none in the set
/// is above it. Of a set without a known version it is 1.0.
pub proof fn lemma_highest_version(set: TlsVersions)
    ensures
        forall|v: u16| #[trigger]
            set.0@.contains(v) && (v == 0x0301 || v == 0x0303 || v == 0x0304) ==> v
                <= set.highest().wire(),
        set.0@.contains(0x0301) || set.0@.contains(0x0303) || set.0@.contains(0x0304)
            ==> set.0@.contains(set.highest().wire()),
        set.highest().wire() == 0x0301 || set.highest().wire() == 0x0303 || set.highest().wire()
            == 0x0304,
        !(set.0@.contains(0x0301) || set.0@.contains(0x0303) || set.0@.contains(0x0304))
            ==> set.highest().wire() == 0x0301,
{
}

/// Record types, versions and handshake types have the numbers of TLS, and no other number
/// stands for one of them.
pub proof fn lemma_wire_numbers(t: ContentType, v: ProtocolVersion, h: HelloType, b: u8, w: u16)
    ensures
        t.wire() == match t {
            ContentType::ChangeCipherSpec => 20u8,
            ContentType::Alert => 21,
            ContentType::Handshake => 22,
            ContentType::ApplicationData => 23,
        },
        v.wire() == match v {
            ProtocolVersion::Tls10 => 0x0301u16,
            ProtocolVersion::Tls12 => 0x0303,
            ProtocolVersion::Tls13 => 0x0304,
        },
        h.wire() == match h {
            HelloType::Client => 1u8,
            HelloType::Server => 2,
        },
        ContentType::of_wire(b) is Some <==> 20 <= b <= 23,
        ContentType::of_wire(b) matches Some(known) ==> known.wire() == b,
        ProtocolVersion::of_wire(w) is Some <==> w == 0x0301 || w == 0x0303 || w == 0x0304,
        ProtocolVersion::of_wire(w) matches Some(known) ==> known.wire() == w,
        HelloType::of_wire(b) is Some <==> b == 1 || b == 2,
        HelloType::of_wire(b) matches Some(known) ==> known.wire() == b,
{
}

/// The GREASE numbers are 0x0a0a, 0x1a1a and so on up to 0xfafa.
pub proof fn lemma_grease_numbers(id: u16)
    ensures
        TlsExtensions::grease_number(id) <==> exists|i: int|
            0 <= i < 16 && id == 0x0a0a + #[trigger] (0x1010 * i),
{
    if TlsExtensions::grease_number(id) {
        let i = (id % 256) / 16;
        assert(id % 256 == 16 * i + 10);
        assert(id == 0x0a0a + 0x1010 * i);
    }
    if exists|i: int| 0 <= i < 16 && id == 0x0a0a + #[trigger] (0x1010 * i) {
        let i = choose|i: int| 0 <= i < 16 && id == 0x0a0a + #[trigger] (0x1010 * i);
        assert(id == (16 * i + 10) * 256 + (16 * i + 10));
    }
}

/// The numbers of the TLS extensions.
pub struct TlsExtensions;

impl TlsExtensions {
    pub const SNI: u16 = 0x0000;

    pub const STATUS_REQUEST: u16 = 0x0005;

    pub const SUPPORTED_GROUPS: u16 = 0x000a;

    pub const EC_POINT_FORMATS: u16 = 0x000b;

    pub const SIGNATURE_ALGORITHMS: u16 = 0x000d;

    pub const ALPN: u16 = 0x0010;

    pub const SCT: u16 = 0x0012;

    pub const PADDING: u16 = 0x0015;

    pub const EMS: u16 = 0x0017;

    pub const COMPRESS_CERT: u16 = 0x001b;

    pub const DELEGATED_CREDENTIAL: u16 = 0x0022;

    pub const SESSION_TICKET: u16 = 0x0023;

    pub const SUPPORTED_VERSIONS: u16 = 0x002b;

    pub const PSK_MODES: u16 = 0x002d;

    pub const KEY_SHARE: u16 = 0x0033;

    pub const ALPS: u16 = 0x44cd;

    /// `encrypted_client_hello`.
    pub const ECH: u16 = 0xfe0d;

    pub const RENEGOTIATION_INFO: u16 = 0xff01;

    /// The place of the opening GREASE extension in an order; its number is drawn.
    pub const GREASE_SLOT_FIRST: u16 = 0x0a0a;

    /// The place of the closing GREASE extension in an order; its number is drawn.
    pub const GREASE_SLOT_LAST: u16 = 0x2a2a;

    /// The GREASE numbers: both bytes are the same and end in the digit `a`.
    pub open spec fn grease_number(id: u16) -> bool {
        id / 256 == id % 256 && (id % 256) % 16 == 0x0a
    }

    /// Whether the number is a GREASE number.
    pub fn is_grease(id: u16) -> (r: bool)
        ensures
            r == Self::grease_number(id),
    {
        assert((id & 0x0f0f) == 0x0a0a && (id & 0xff) == (id >> 8) <==> id / 256 == id % 256 && (id
            % 256) % 16 == 0x0a) by (bit_vector);
        if (id & 0x0f0f) != 0x0a0a {
            return false;
        }
        (id & 0xff) == (id >> 8)
    }
}

/// The order of the extensions in a `ClientHello`.
#[derive(Debug, Clone, Copy, PartialEq, Eq, Hash)]
pub struct ExtensionOrder(pub &'static [u16]);

impl ExtensionOrder {
    pub fn chromium_131() -> (r: Self)
        ensures
            r.0@ == seq![0xaaaau16, 0x0000u16, 0x000au16, 0x000du16, 0x0033u16, 0x002bu16, 0x0015u16],
    {
        Self(&[0xaaaa, 0x0000, 0x000a, 0x000d, 0x0033, 0x002b, 0x0015])
    }

    pub fn chrome_140() -> (r: Self)
        ensures
            r.0@ == seq![0x0a0au16, 0x0000u16, 0x000au16, 0x0033u16, 0x002bu16, 0x000du16, 0x2a2au16],
    {
        Self(&[0x0a0a, 0x0000, 0x000a, 0x0033, 0x002b, 0x000d, 0x2a2a])
    }

    pub fn edge_130() -> (r: Self)
        ensures
            r.0@ == seq![
                0x1a1au16,
                0x0000u16,
                0x000au16,
                0x000du16,
                0x0033u16,
                0x002bu16,
                0x3a3au16,
                0x0015u16,
            ],
    {
        Self(&[0x1a1a, 0x0000, 0x000a, 0x000d, 0x0033, 0x002b, 0x3a3a, 0x0015])
    }

    pub fn firefox_133() -> (r: Self)
        ensures
            r.0@ == seq![0x0000u16, 0xff01u16, 0x000au16, 0x0033u16, 0x002bu16, 0x000du16],
    {
        Self(&[0x0000, 0xff01, 0x000a, 0x0033, 0x002b, 0x000d])
    }

    pub fn safari_17() -> (r: Self)
        ensures
            r.0@ == seq![0x0000u16, 0xff01u16, 0x000au16, 0x0033u16, 0x002bu16],
    {
        Self(&[0x0000, 0xff01, 0x000a, 0x0033, 0x002b])
    }
}

} // verus!
