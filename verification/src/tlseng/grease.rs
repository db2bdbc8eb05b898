//! GREASE: numbers that no server knows, which Chromium mixes into its hello.
//!
//! Five places take one, each drawn once for a connection. The one for the groups stands
//! in two lists, `supported_groups` and `key_share`, and has to be the same in both; so
//! all five live in one value.

use vstd::prelude::*;

use crate::entropy::system_bytes;
use crate::tlseng::types::TlsExtensions;

verus! {

/// The `i`-th of the sixteen GREASE numbers.
pub open spec fn grease_value(i: int) -> u16 {
    (0x0a0a + 0x1010 * i) as u16
}

/// The number that one random byte picks.
pub open spec fn grease_pick(b: u8) -> u16 {
    grease_value((b % 16) as int)
}

/// Whatever is picked is a GREASE number.
pub proof fn lemma_pick_is_grease(b: u8)
    ensures
        TlsExtensions::grease_number(grease_pick(b)),
{
    let i = b % 16;
    assert(0x0a0a + 0x1010 * i == (0x0a + 0x10 * i) * 256 + (0x0a + 0x10 * i));
}

/// Each number of a set is picked by a byte of its own: the low four bits say which of the
/// sixteen it is, so that all sixteen are equally likely in every place.
pub proof fn lemma_set_by_bytes(draw: Seq<u8>)
    ensures
        GreaseSet::picked(draw).cipher == 0x0a0a + 0x1010 * (draw[0] % 16),
        GreaseSet::picked(draw).group == 0x0a0a + 0x1010 * (draw[1] % 16),
        GreaseSet::picked(draw).ext_first == 0x0a0a + 0x1010 * (draw[2] % 16),
        GreaseSet::picked(draw).ext_last == 0x0a0a + 0x1010 * (draw[3] % 16),
        GreaseSet::picked(draw).version == 0x0a0a + 0x1010 * (draw[4] % 16),
{
}

/// The numbers drawn for one connection.
#[derive(Debug, Clone, Copy, PartialEq, Eq)]
pub struct GreaseSet {
    /// The first cipher suite.
    pub cipher: u16,
    /// The first group, and the first entry of `key_share`.
    pub group: u16,
    /// The opening extension, without data.
    pub ext_first: u16,
    /// The closing extension, with one zero byte.
    pub ext_last: u16,
    /// The first of `supported_versions`.
    pub version: u16,
}

impl GreaseSet {
    /// What five random bytes pick, in the order of the fields.
    pub open spec fn picked(draw: Seq<u8>) -> Self {
        GreaseSet {
            cipher: grease_pick(draw[0]),
            group: grease_pick(draw[1]),
            ext_first: grease_pick(draw[2]),
            ext_last: grease_pick(draw[3]),
            version: grease_pick(draw[4]),
        }
    }

    /// Whether every number is a GREASE number.
    pub open spec fn wf(self) -> bool {
        &&& TlsExtensions::grease_number(self.cipher)
        &&& TlsExtensions::grease_number(self.group)
        &&& TlsExtensions::grease_number(self.ext_first)
        &&& TlsExtensions::grease_number(self.ext_last)
        &&& TlsExtensions::grease_number(self.version)
    }

    fn pick(b: u8) -> (r: u16)
        ensures
            r == grease_pick(b),
    {
        0x0a0a + 0x1010 * (b % 16) as u16
    }

    /// The set that five random bytes pick.
    pub fn from_draw(draw: &[u8]) -> (r: Self)
        requires
            draw@.len() == 5,
        ensures
            r == Self::picked(draw@),
            r.wf(),
    {
        proof {
            lemma_pick_is_grease(draw@[0]);
            lemma_pick_is_grease(draw@[1]);
            lemma_pick_is_grease(draw@[2]);
            lemma_pick_is_grease(draw@[3]);
            lemma_pick_is_grease(draw@[4]);
        }
        Self {
            cipher: Self::pick(draw[0]),
            group: Self::pick(draw[1]),
            ext_first: Self::pick(draw[2]),
            ext_last: Self::pick(draw[3]),
            version: Self::pick(draw[4]),
        }
    }

    /// A fresh set.
    pub fn random() -> (r: Self)
        ensures
            exists|draw: Vec<u8>| #[trigger]
                call_ensures(system_bytes, (5usize,), draw) && draw@.len() == 5 && r
                    == Self::picked(draw@),
            r.wf(),
    {
        let draw: Vec<u8> = system_bytes(5);
        assert(call_ensures(system_bytes, (5usize,), draw));
        Self::from_draw(draw.as_slice())
    }

    /// One set that never changes, for what has to be reproducible.
    pub fn fixed() -> (r: Self)
        ensures
            r == (GreaseSet {
                cipher: 0xcaca,
                group: 0x8a8a,
                ext_first: 0xdada,
                ext_last: 0x8a8a,
                version: 0xfafa,
            }),
            r.wf(),
    {
        Self { cipher: 0xcaca, group: 0x8a8a, ext_first: 0xdada, ext_last: 0x8a8a, version: 0xfafa }
    }
}

} // verus!
