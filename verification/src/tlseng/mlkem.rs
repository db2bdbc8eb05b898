//! The post-quantum share of `key_share`: ballast that has to look right.
//!
//! The keys are agreed with X25519, so nobody ever uses the 1216 bytes of an
//! `X25519MLKEM768` share. But they cannot be just random: whoever receives an ML-KEM key
//! first decodes its 768 coefficients of 12 bits and checks that each is below 3329, which
//! random bytes practically never pass. So the coefficients are sampled in range and packed
//! by the rules of FIPS 203.

use vstd::prelude::*;

use crate::entropy::{from_system, number_between, system_bytes};

verus! {

/// The modulus of ML-KEM.
pub const Q: u16 = 3329;

/// Coefficients in one polynomial.
pub const N: usize = 256;

/// The rank of ML-KEM-768.
pub const K: usize = 3;

/// The number of coefficients.
pub const COEFFICIENTS: usize = K * N;

/// The bytes that the packed coefficients take: 12 bits each.
pub const T_HAT_LEN: usize = 1152;

/// The length of the seed behind them.
pub const RHO_LEN: usize = 32;

/// The length of an ML-KEM-768 encapsulation key.
pub const ML_KEM_768_EK_LEN: usize = T_HAT_LEN + RHO_LEN;

/// The length of an X25519 public key.
pub const X25519_PK_LEN: usize = 32;

/// The length of the whole share.
pub const X25519_MLKEM768_SHARE_LEN: usize = ML_KEM_768_EK_LEN + X25519_PK_LEN;

/// Byte `i` of packed coefficients: two of them take three bytes, low bits first.
pub open spec fn packed_byte(coeffs: Seq<u16>, i: int) -> u8 {
    let a = coeffs[2 * (i / 3)];
    let b = coeffs[2 * (i / 3) + 1];
    if i % 3 == 0 {
        (a % 256) as u8
    } else if i % 3 == 1 {
        ((a / 256) % 16 + (b % 16) * 16) as u8
    } else {
        ((b / 16) % 256) as u8
    }
}

/// Coefficients packed in pairs.
pub open spec fn packed(coeffs: Seq<u16>) -> Seq<u8> {
    Seq::new((coeffs.len() / 2) * 3, |i: int| packed_byte(coeffs, i))
}

/// Coefficient `j` of packed bytes.
pub open spec fn coefficient(bytes: Seq<u8>, j: int) -> u16 {
    let p = 3 * (j / 2);
    if j % 2 == 0 {
        (bytes[p] + (bytes[p + 1] % 16) * 256) as u16
    } else {
        (bytes[p + 1] / 16 + bytes[p + 2] * 16) as u16
    }
}

/// Whether the bytes are a share that passes the check of the modulus.
pub open spec fn valid_share(share: Seq<u8>) -> bool {
    &&& share.len() == X25519_MLKEM768_SHARE_LEN
    &&& forall|j: int| 0 <= j < COEFFICIENTS ==> #[trigger] coefficient(share, j) < Q
}

/// Coefficients of 12 bits are read back from their packed form.
pub proof fn lemma_packing_round_trip(coeffs: Seq<u16>, tail: Seq<u8>, j: int)
    requires
        coeffs.len() % 2 == 0,
        0 <= j < coeffs.len(),
        forall|k: int| 0 <= k < coeffs.len() ==> coeffs[k] < 4096,
    ensures
        coefficient(packed(coeffs) + tail, j) == coeffs[j],
{
    let h = j / 2;
    let s = packed(coeffs) + tail;
    assert(3 * h + 2 < packed(coeffs).len());
    assert((3 * h) / 3 == h && (3 * h) % 3 == 0);
    assert((3 * h + 1) / 3 == h && (3 * h + 1) % 3 == 1);
    assert((3 * h + 2) / 3 == h && (3 * h + 2) % 3 == 2);
    assert(s[3 * h] == packed_byte(coeffs, 3 * h));
    assert(s[3 * h + 1] == packed_byte(coeffs, 3 * h + 1));
    assert(s[3 * h + 2] == packed_byte(coeffs, 3 * h + 2));
    let a = coeffs[2 * h];
    let b = coeffs[2 * h + 1];
    assert(a < 4096 && b < 4096);
    if j % 2 == 0 {
        assert(coeffs[j] == a);
    } else {
        assert(coeffs[j] == b);
    }
}

/// A share is 1216 bytes, and of the first 1152 each three hold two numbers of 12 bits, low
/// bits first, that are below 3329.
pub proof fn lemma_share_by_triples(share: Seq<u8>)
    requires
        valid_share(share),
    ensures
        share.len() == 1216,
        forall|p: int|
            0 <= p < 384 ==> (#[trigger] share[3 * p]) + (share[3 * p + 1] % 16) * 256 < 3329
                && share[3 * p + 1] / 16 + share[3 * p + 2] * 16 < 3329,
{
    assert forall|p: int| 0 <= p < 384 implies (#[trigger] share[3 * p]) + (share[3 * p + 1] % 16)
        * 256 < 3329 && share[3 * p + 1] / 16 + share[3 * p + 2] * 16 < 3329 by {
        assert(coefficient(share, 2 * p) < Q);
        assert(coefficient(share, 2 * p + 1) < Q);
        assert((2 * p) / 2 == p && (2 * p + 1) / 2 == p);
    }
}

/// The coefficients that random bytes give: of each 16-bit word, low byte first, the low
/// 12 bits, unless they reach the modulus.
pub open spec fn accepted(entropy: Seq<u8>) -> Seq<u16>
    decreases entropy.len(),
{
    if entropy.len() < 2 {
        Seq::empty()
    } else {
        let n = if entropy.len() % 2 == 0 {
            entropy.len() as int
        } else {
            entropy.len() - 1
        };
        let before = accepted(entropy.subrange(0, n - 2));
        let word = (entropy[n - 2] + 256 * entropy[n - 1]) as u16;
        if word % 4096 < Q {
            before.push((word % 4096) as u16)
        } else {
            before
        }
    }
}

/// Packs coefficients into `out`, which has just the room.
pub fn byte_encode_12(coeffs: &[u16], out: &mut Vec<u8>)
    requires
        coeffs@.len() % 2 == 0,
        old(out)@.len() == (coeffs@.len() / 2) * 3,
    ensures
        final(out)@ == packed(coeffs@),
{
    let pairs: usize = coeffs.len() / 2;
    let room: usize = out.len();
    let mut p: usize = 0;
    while p < pairs
        invariant
            p <= pairs,
            coeffs@.len() == 2 * pairs,
            out@.len() == 3 * pairs,
            3 * pairs == room,
            forall|i: int| 0 <= i < 3 * p ==> out@[i] == packed_byte(coeffs@, i),
        decreases pairs - p,
    {
        let a: u16 = coeffs[2 * p];
        let b: u16 = coeffs[2 * p + 1];
        out.set(3 * p, (a % 256) as u8);
        out.set(3 * p + 1, ((a / 256) % 16 + (b % 16) * 16) as u8);
        out.set(3 * p + 2, ((b / 16) % 256) as u8);
        proof {
            let q = p as int;
            assert((3 * q) / 3 == q && (3 * q) % 3 == 0);
            assert((3 * q + 1) / 3 == q && (3 * q + 1) % 3 == 1);
            assert((3 * q + 2) / 3 == q && (3 * q + 2) % 3 == 2);
        }
        p = p + 1;
    }
    assert(out@ =~= packed(coeffs@));
}

/// The coefficient that a random word gives, if it is below the modulus. Words are
/// rejected rather than reduced: a remainder would favour small coefficients.
pub fn sample_coefficient(word: u16) -> (r: Option<u16>)
    ensures
        r == (if word % 4096 < Q {
            Some((word % 4096) as u16)
        } else {
            None
        }),
{
    let v: u16 = word % 4096;
    if v < Q {
        Some(v)
    } else {
        None
    }
}

/// Appends the coefficients that the random bytes give, until there are enough.
pub fn take_coefficients(entropy: &[u8], coeffs: &mut Vec<u16>)
    requires
        old(coeffs)@.len() <= COEFFICIENTS,
    ensures
        ({
            let all = old(coeffs)@ + accepted(entropy@);
            final(coeffs)@ == if all.len() <= COEFFICIENTS {
                all
            } else {
                all.subrange(0, COEFFICIENTS as int)
            }
        }),
{
    let ghost before = coeffs@;
    let mut cursor: usize = 0;
    assert(before + accepted(entropy@.subrange(0, 0)) =~= before);
    while cursor < entropy.len() && entropy.len() - cursor >= 2 && coeffs.len() < COEFFICIENTS
        invariant
            cursor % 2 == 0,
            cursor <= entropy@.len(),
            coeffs@.len() <= COEFFICIENTS,
            coeffs@ == before + accepted(entropy@.subrange(0, cursor as int)),
        decreases entropy@.len() - cursor,
    {
        let word: u16 = entropy[cursor] as u16 + 256 * entropy[cursor + 1] as u16;
        proof {
            let now = entropy@.subrange(0, cursor + 2);
            assert(now.subrange(0, cursor as int) =~= entropy@.subrange(0, cursor as int));
        }
        if let Some(c) = sample_coefficient(word) {
            coeffs.push(c);
        }
        cursor = cursor + 2;
        assert(coeffs@ =~= before + accepted(entropy@.subrange(0, cursor as int)));
    }
    proof {
        lemma_accepted_prefix(entropy@, cursor as int);
        if coeffs@.len() < COEFFICIENTS {
            lemma_accepted_even(entropy@, cursor as int);
        }
        assert((before + accepted(entropy@)).subrange(0, coeffs@.len() as int) =~= coeffs@);
    }
}

/// A byte without a partner gives nothing.
proof fn lemma_accepted_even(entropy: Seq<u8>, n: int)
    requires
        0 <= n <= entropy.len(),
        n % 2 == 0,
        entropy.len() - n < 2,
    ensures
        accepted(entropy) == accepted(entropy.subrange(0, n)),
{
    if n == entropy.len() {
        assert(entropy.subrange(0, n) =~= entropy);
    } else if n > 0 {
        assert(entropy.subrange(0, n).subrange(0, n - 2) =~= entropy.subrange(0, n - 2));
    }
}

/// What a front part of the random bytes gives comes first.
proof fn lemma_accepted_prefix(entropy: Seq<u8>, n: int)
    requires
        0 <= n <= entropy.len(),
        n % 2 == 0,
    ensures
        accepted(entropy.subrange(0, n)).len() <= accepted(entropy).len(),
        accepted(entropy).subrange(0, accepted(entropy.subrange(0, n)).len() as int) == accepted(
            entropy.subrange(0, n),
        ),
    decreases entropy.len(),
{
    if entropy.len() - n < 2 {
        lemma_accepted_even(entropy, n);
        assert(accepted(entropy).subrange(0, accepted(entropy).len() as int) =~= accepted(entropy));
    } else {
        let m = if entropy.len() % 2 == 0 {
            entropy.len() as int
        } else {
            entropy.len() - 1
        };
        let shorter = entropy.subrange(0, m - 2);
        assert(shorter.subrange(0, n) =~= entropy.subrange(0, n));
        lemma_accepted_prefix(shorter, n);
        let k = accepted(entropy.subrange(0, n)).len() as int;
        assert(accepted(entropy).subrange(0, k) =~= accepted(shorter).subrange(0, k));
    }
}

/// What is accepted is below the modulus.
proof fn lemma_accepted_in_range(entropy: Seq<u8>, i: int)
    requires
        0 <= i < accepted(entropy).len(),
    ensures
        accepted(entropy)[i] < Q,
    decreases entropy.len(),
{
    let n = if entropy.len() % 2 == 0 {
        entropy.len() as int
    } else {
        entropy.len() - 1
    };
    let shorter = entropy.subrange(0, n - 2);
    if i < accepted(shorter).len() {
        lemma_accepted_in_range(shorter, i);
    }
}

/// The coefficients that draws give one after the other.
pub open spec fn gathered(draws: Seq<Seq<u8>>) -> Seq<u16>
    decreases draws.len(),
{
    if draws.len() == 0 {
        Seq::empty()
    } else {
        gathered(draws.drop_last()) + accepted(draws.last())
    }
}

/// Whether coefficients are the first that draws from the operating system give. The draws
/// give enough, or there were as many as there can be.
pub open spec fn first_gathered(draws: Seq<Seq<u8>>, coeffs: Seq<u16>) -> bool {
    let all = gathered(draws);
    &&& forall|i: int| 0 <= i < draws.len() ==> from_system(#[trigger] draws[i])
    &&& forall|j: int| 0 <= j < all.len() && j < COEFFICIENTS ==> coeffs[j] == #[trigger] all[j]
    &&& all.len() >= COEFFICIENTS || draws.len() == u64::MAX
}

/// All coefficients of a key, drawn until there are enough. Each draw gives about
/// 1248 of them, so the bound on the draws is never met; behind it the drawing goes on, one
/// coefficient at a time.
fn sample_coefficients() -> (r: Vec<u16>)
    ensures
        r@.len() == COEFFICIENTS,
        forall|j: int| 0 <= j < r@.len() ==> #[trigger] r@[j] < Q,
        exists|seen: Seq<Seq<u8>>| #[trigger] first_gathered(seen, r@),
{
    let mut coeffs: Vec<u16> = Vec::new();
    let mut draws: u64 = u64::MAX;
    let ghost mut seen: Seq<Seq<u8>> = Seq::empty();
    while coeffs.len() < COEFFICIENTS && draws > 0
        invariant
            seen.len() == u64::MAX - draws,
            forall|i: int| 0 <= i < seen.len() ==> from_system(#[trigger] seen[i]),
            coeffs@.len() < COEFFICIENTS ==> coeffs@ == gathered(seen),
            coeffs@.len() == COEFFICIENTS ==> gathered(seen).len() >= COEFFICIENTS && coeffs@
                == gathered(seen).subrange(0, COEFFICIENTS as int),
            coeffs@.len() <= COEFFICIENTS,
            forall|j: int| 0 <= j < coeffs@.len() ==> #[trigger] coeffs@[j] < Q,
        decreases draws,
    {
        let entropy: Vec<u8> = system_bytes(COEFFICIENTS * 4);
        let ghost before = coeffs@;
        take_coefficients(entropy.as_slice(), &mut coeffs);
        proof {
            assert forall|j: int| 0 <= j < coeffs@.len() implies #[trigger] coeffs@[j] < Q by {
                if j < before.len() {
                    assert(coeffs@[j] == before[j]);
                } else {
                    lemma_accepted_in_range(entropy@, j - before.len());
                }
            }
            assert(seen.push(entropy@).drop_last() =~= seen);
            seen = seen.push(entropy@);
            let all = before + accepted(entropy@);
            assert(all.subrange(0, all.len() as int) =~= all);
        }
        draws = draws - 1;
    }
    let ghost found = coeffs@;
    while coeffs.len() < COEFFICIENTS
        invariant
            found.len() <= coeffs@.len(),
            forall|j: int| 0 <= j < found.len() ==> coeffs@[j] == #[trigger] found[j],
            coeffs@.len() <= COEFFICIENTS,
            forall|j: int| 0 <= j < coeffs@.len() ==> #[trigger] coeffs@[j] < Q,
        decreases COEFFICIENTS - coeffs@.len(),
    {
        coeffs.push(number_between(0, (Q - 1) as usize) as u16);
    }
    proof {
        assert forall|j: int| 0 <= j < gathered(seen).len() && j < COEFFICIENTS implies coeffs@[j]
            == #[trigger] gathered(seen)[j] by {
            assert(coeffs@[j] == found[j]);
        }
        assert(first_gathered(seen, coeffs@));
    }
    coeffs
}

/// The share of coefficients and what stands behind them.
pub open spec fn share_of(coeffs: Seq<u16>, tail: Seq<u8>) -> Seq<u8> {
    packed(coeffs) + tail
}

/// The share of given coefficients and given bytes for the seed and the X25519 point.
pub fn assemble_share(coeffs: &[u16], tail: &[u8]) -> (r: Vec<u8>)
    requires
        coeffs@.len() == COEFFICIENTS,
        tail@.len() == RHO_LEN + X25519_PK_LEN,
    ensures
        r@ == packed(coeffs@) + tail@,
        (forall|j: int| 0 <= j < COEFFICIENTS ==> coeffs@[j] < Q) ==> valid_share(r@),
{
    let mut share: Vec<u8> = vec![0u8; T_HAT_LEN];
    byte_encode_12(coeffs, &mut share);
    share.extend_from_slice(tail);
    proof {
        assert(share@ =~= packed(coeffs@) + tail@);
        if forall|j: int| 0 <= j < COEFFICIENTS ==> coeffs@[j] < Q {
            assert forall|j: int| 0 <= j < COEFFICIENTS implies #[trigger] coefficient(share@, j)
                < Q by {
                lemma_packing_round_trip(coeffs@, tail@, j);
            }
        }
    }
    share
}

/// Whether a share was drawn in full: its coefficients and what stands behind them.
pub open spec fn sampled_share(share: Seq<u8>) -> bool {
    exists|seen: Seq<Seq<u8>>, coeffs: Seq<u16>, tail: Seq<u8>|
        coeffs.len() == COEFFICIENTS && #[trigger] first_gathered(seen, coeffs) && from_system(tail)
            && share == #[trigger] share_of(coeffs, tail)
}

/// A fresh share: a well-formed ML-KEM-768 key in front, a random X25519 point behind.
pub fn sample_x25519_mlkem768_share() -> (r: Vec<u8>)
    ensures
        valid_share(r@),
        sampled_share(r@),
        exists|seen: Seq<Seq<u8>>, coeffs: Seq<u16>, tail: Seq<u8>|
            coeffs.len() == COEFFICIENTS && #[trigger] first_gathered(seen, coeffs) && from_system(
                tail,
            ) && r@ == #[trigger] share_of(coeffs, tail),
{
    let coeffs: Vec<u16> = sample_coefficients();
    let tail: Vec<u8> = system_bytes(RHO_LEN + X25519_PK_LEN);
    let r: Vec<u8> = assemble_share(coeffs.as_slice(), tail.as_slice());
    proof {
        let seen = choose|seen: Seq<Seq<u8>>| #[trigger] first_gathered(seen, coeffs@);
        assert(first_gathered(seen, coeffs@));
        assert(r@ == share_of(coeffs@, tail@));
    }
    r
}

/// Of each two random bytes the low twelve bits of their number, low byte first, are a
/// coefficient, unless they reach the modulus: then they are passed over.
pub proof fn lemma_accepted_words(entropy: Seq<u8>, low: u8, high: u8)
    requires
        entropy.len() % 2 == 0,
    ensures
        ({
            let v = low + 256 * (high % 16);
            let all = accepted(entropy.push(low).push(high));
            &&& v < 3329 ==> all == accepted(entropy).push(v as u16)
            &&& v >= 3329 ==> all == accepted(entropy)
        }),
        accepted(Seq::empty()).len() == 0,
{
    let more = entropy.push(low).push(high);
    let n = more.len() as int;
    assert(n % 2 == 0);
    assert(more.subrange(0, n - 2) =~= entropy);
    assert(more[n - 2] == low && more[n - 1] == high);
    let word = (low + 256 * high) as u16;
    assert(word % 4096 == low + 256 * (high % 16));
}

/// The coefficients of a share are the first that random bytes of the operating system give, as
/// far as those go, and what stands behind them is random.
pub proof fn lemma_sampled_share(share: Seq<u8>)
    requires
        sampled_share(share),
    ensures
        exists|seen: Seq<Seq<u8>>, coeffs: Seq<u16>, tail: Seq<u8>|
            {
                &&& coeffs.len() == 768
                &&& share == #[trigger] share_of(coeffs, tail)
                &&& from_system(tail)
                &&& forall|i: int| 0 <= i < seen.len() ==> from_system(#[trigger] seen[i])
                &&& forall|j: int|
                    0 <= j < 768 && j < gathered(seen).len() ==> coeffs[j] == #[trigger] gathered(
                        seen,
                    )[j]
                &&& (#[trigger] gathered(seen)).len() >= 768 || seen.len() == u64::MAX
            },
{
    let (seen, coeffs, tail) = choose|seen: Seq<Seq<u8>>, coeffs: Seq<u16>, tail: Seq<u8>|
        coeffs.len() == COEFFICIENTS && #[trigger] first_gathered(seen, coeffs) && from_system(tail)
            && share == #[trigger] share_of(coeffs, tail);
    assert(share == share_of(coeffs, tail));
    assert(gathered(seen).len() >= 768 || seen.len() == u64::MAX);
}

/// What draws give is what each gives, one after the other.
pub proof fn lemma_gathered(draws: Seq<Seq<u8>>, more: Seq<u8>)
    ensures
        gathered(Seq::empty()).len() == 0,
        gathered(draws.push(more)) == gathered(draws) + accepted(more),
{
    assert(draws.push(more).drop_last() =~= draws);
}

/// The coefficients of a share are read back from it, pair by pair from three bytes, and the
/// rest stands behind 1152 bytes.
pub proof fn lemma_share_layout(coeffs: Seq<u16>, tail: Seq<u8>, p: int)
    requires
        coeffs.len() == 768,
        forall|k: int| 0 <= k < 768 ==> coeffs[k] < 4096,
        0 <= p < 384,
    ensures
        ({
            let share = share_of(coeffs, tail);
            &&& share[3 * p] + (share[3 * p + 1] % 16) * 256 == coeffs[2 * p]
            &&& share[3 * p + 1] / 16 + share[3 * p + 2] * 16 == coeffs[2 * p + 1]
            &&& share.subrange(1152, share.len() as int) == tail
        }),
{
    let share = share_of(coeffs, tail);
    lemma_packing_round_trip(coeffs, tail, 2 * p);
    lemma_packing_round_trip(coeffs, tail, 2 * p + 1);
    assert((2 * p) / 2 == p && (2 * p + 1) / 2 == p);
    assert((2 * p) % 2 == 0 && (2 * p + 1) % 2 == 1);
    assert(share.subrange(1152, share.len() as int) =~= tail);
}

} // verus!
