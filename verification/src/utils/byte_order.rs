//! Big-endian integers as byte sequences, and reading fixed fields out of slices.

use vstd::prelude::*;

verus! {

/// The two bytes of `x`, most significant first.
pub open spec fn be16(x: u16) -> Seq<u8> {
    seq![(x / 256) as u8, (x % 256) as u8]
}

/// The three low bytes of `x`, most significant first.
pub open spec fn be24(x: u32) -> Seq<u8> {
    seq![((x / 65536) % 256) as u8, ((x / 256) % 256) as u8, (x % 256) as u8]
}

/// The four bytes of `x`, most significant first.
pub open spec fn be32(x: u32) -> Seq<u8> {
    seq![
        (x / 16777216) as u8,
        ((x / 65536) % 256) as u8,
        ((x / 256) % 256) as u8,
        (x % 256) as u8,
    ]
}

/// The eight bytes of `x`, most significant first.
pub open spec fn be64(x: u64) -> Seq<u8> {
    be32((x / 4294967296) as u32) + be32((x % 4294967296) as u32)
}

/// The 16-bit number whose bytes stand at `i` and `i + 1`.
pub open spec fn u16_at(s: Seq<u8>, i: int) -> u16 {
    (s[i] * 256 + s[i + 1]) as u16
}

/// The 24-bit number whose bytes stand at `i`, `i + 1` and `i + 2`.
pub open spec fn u24_at(s: Seq<u8>, i: int) -> u32 {
    (s[i] * 65536 + s[i + 1] * 256 + s[i + 2]) as u32
}

/// The 32-bit number whose bytes stand at `i` to `i + 3`.
pub open spec fn u32_at(s: Seq<u8>, i: int) -> u32 {
    (s[i] * 16777216 + s[i + 1] * 65536 + s[i + 2] * 256 + s[i + 3]) as u32
}

/// What is left of a length when it is written into a 16-bit field.
pub open spec fn low16(n: nat) -> u16 {
    (n % 65536) as u16
}

/// What is left of a length when it is written into an 8-bit field.
pub open spec fn low8(n: nat) -> u8 {
    (n % 256) as u8
}

/// `n` zero bytes.
pub open spec fn zeros(n: nat) -> Seq<u8> {
    Seq::new(n, |i: int| 0u8)
}

/// A list of 16-bit numbers, one after the other.
pub open spec fn be16_list(values: Seq<u16>) -> Seq<u8>
    decreases values.len(),
{
    if values.len() == 0 {
        Seq::empty()
    } else {
        be16_list(values.drop_last()) + be16(values.last())
    }
}

/// A list of 16-bit numbers takes two bytes for each.
pub proof fn lemma_be16_list_len(values: Seq<u16>)
    ensures
        be16_list(values).len() == 2 * values.len(),
    decreases values.len(),
{
    if values.len() > 0 {
        lemma_be16_list_len(values.drop_last());
    }
}

/// Writing a 64-bit number big-endian loses nothing.
pub proof fn lemma_be64_injective(a: u64, b: u64)
    requires
        be64(a) == be64(b),
    ensures
        a == b,
{
    let (ah, al) = ((a / 4294967296) as u32, (a % 4294967296) as u32);
    let (bh, bl) = ((b / 4294967296) as u32, (b % 4294967296) as u32);
    assert(be64(a).subrange(0, 4) =~= be32(ah));
    assert(be64(b).subrange(0, 4) =~= be32(bh));
    assert(be64(a).subrange(4, 8) =~= be32(al));
    assert(be64(b).subrange(4, 8) =~= be32(bl));
    lemma_be32_injective(ah, bh);
    lemma_be32_injective(al, bl);
}

/// A number is the sum of its four bytes, each at its weight.
proof fn lemma_be32_sum(x: u32)
    ensures
        x == (x / 16777216) * 16777216 + ((x / 65536) % 256) * 65536 + ((x / 256) % 256) * 256 + x
            % 256,
{
    let h: u32 = x / 65536;
    let l: u32 = x % 65536;
    assert(x == h * 65536 + l);
    assert(x / 16777216 == h / 256);
    assert((x / 256) % 256 == l / 256) by (nonlinear_arith)
        requires
            x == h * 65536 + l,
            l < 65536,
    {
        assert(x / 256 == h * 256 + l / 256);
    }
    assert(x % 256 == l % 256);
}

/// Writing a 32-bit number big-endian loses nothing.
pub proof fn lemma_be32_injective(a: u32, b: u32)
    requires
        be32(a) == be32(b),
    ensures
        a == b,
{
    assert(be32(a)[0] == be32(b)[0]);
    assert(be32(a)[1] == be32(b)[1]);
    assert(be32(a)[2] == be32(b)[2]);
    assert(be32(a)[3] == be32(b)[3]);
    lemma_be32_sum(a);
    lemma_be32_sum(b);
}

/// Reading back a 32-bit number gives the number.
pub proof fn lemma_be32_read(x: u32)
    ensures
        be32(x).len() == 4,
        u32_at(be32(x), 0) == x,
{
    lemma_be32_sum(x);
}

/// Every number is the sum of its bytes, each at its weight, the heaviest first; of a number
/// that is written with three bytes the low 24 bits are.
pub proof fn lemma_bytes_by_weight(a: u16, b: u32, c: u32, d: u64)
    ensures
        be16(a).len() == 2,
        a == be16(a)[0] * 0x100 + be16(a)[1],
        be24(b).len() == 3,
        b % 0x100_0000 == be24(b)[0] * 0x1_0000 + be24(b)[1] * 0x100 + be24(b)[2],
        be32(c).len() == 4,
        c == be32(c)[0] * 0x100_0000 + be32(c)[1] * 0x1_0000 + be32(c)[2] * 0x100 + be32(c)[3],
        be64(d).len() == 8,
        d == be64(d)[0] * 0x100_0000_0000_0000 + be64(d)[1] * 0x1_0000_0000_0000 + be64(d)[2]
            * 0x100_0000_0000 + be64(d)[3] * 0x1_0000_0000 + be64(d)[4] * 0x100_0000 + be64(d)[5]
            * 0x1_0000 + be64(d)[6] * 0x100 + be64(d)[7],
{
    lemma_be32_sum(b);
    lemma_be32_sum(c);
    let h = (d / 4294967296) as u32;
    let l = (d % 4294967296) as u32;
    lemma_be32_sum(h);
    lemma_be32_sum(l);
    assert(be64(d) =~= be32(h) + be32(l));
    assert(d == h * 4294967296 + l);
}

/// A number that is read is the sum of the bytes at its place, each at its weight, the
/// heaviest first.
pub proof fn lemma_read_by_weight(s: Seq<u8>, i: int)
    ensures
        u16_at(s, i) == s[i] * 0x100 + s[i + 1],
        u24_at(s, i) == s[i] * 0x1_0000 + s[i + 1] * 0x100 + s[i + 2],
        u32_at(s, i) == s[i] * 0x100_0000 + s[i + 1] * 0x1_0000 + s[i + 2] * 0x100 + s[i + 3],
{
}

/// In a list of numbers each takes the two bytes of its place.
pub proof fn lemma_list_by_place(values: Seq<u16>, i: int)
    requires
        0 <= i < values.len(),
    ensures
        be16_list(values).len() == 2 * values.len(),
        be16_list(values)[2 * i] * 0x100 + be16_list(values)[2 * i + 1] == values[i],
    decreases values.len(),
{
    lemma_be16_list_len(values);
    lemma_be16_list_len(values.drop_last());
    if i < values.len() - 1 {
        lemma_list_by_place(values.drop_last(), i);
        assert(be16_list(values)[2 * i] == be16_list(values.drop_last())[2 * i]);
        assert(be16_list(values)[2 * i + 1] == be16_list(values.drop_last())[2 * i + 1]);
    }
}

/// Reads the 16-bit number at `i`.
pub fn read_u16(s: &[u8], i: usize) -> (r: u16)
    requires
        i + 2 <= s@.len(),
    ensures
        r == u16_at(s@, i as int),
{
    let _len: usize = s.len();
    s[i] as u16 * 256 + s[i + 1] as u16
}

/// Reads the 32-bit number at `i`.
pub fn read_u32(s: &[u8], i: usize) -> (r: u32)
    requires
        i + 4 <= s@.len(),
    ensures
        r == u32_at(s@, i as int),
{
    let _len: usize = s.len();
    s[i] as u32 * 16777216 + s[i + 1] as u32 * 65536 + s[i + 2] as u32 * 256 + s[i + 3] as u32
}

/// The four bytes of `x`, most significant first.
pub fn u32_bytes(x: u32) -> (r: [u8; 4])
    ensures
        r@ == be32(x),
{
    [
        (x / 16777216) as u8,
        ((x / 65536) % 256) as u8,
        ((x / 256) % 256) as u8,
        (x % 256) as u8,
    ]
}

/// The eight bytes of `x`, most significant first.
pub fn u64_bytes(x: u64) -> (r: [u8; 8])
    ensures
        r@ == be64(x),
{
    let hi: [u8; 4] = u32_bytes((x / 4294967296) as u32);
    let lo: [u8; 4] = u32_bytes((x % 4294967296) as u32);
    let r: [u8; 8] = [hi[0], hi[1], hi[2], hi[3], lo[0], lo[1], lo[2], lo[3]];
    assert(r@ =~= be64(x));
    r
}

/// The low 16 bits of a length.
pub fn low_u16(n: usize) -> (r: u16)
    ensures
        r == low16(n as nat),
{
    (n % 65536) as u16
}

/// The low 8 bits of a length.
pub fn low_u8(n: usize) -> (r: u8)
    ensures
        r == low8(n as nat),
{
    (n % 256) as u8
}

/// Copies the `N` bytes that start at `at` into an array.
pub fn take_array<const N: usize>(s: &[u8], at: usize) -> (r: [u8; N])
    requires
        at + N <= s@.len(),
    ensures
        r@ == s@.subrange(at as int, at + N),
{
    let _len: usize = s.len();
    let mut a: [u8; N] = [0u8; N];
    let mut i: usize = 0;
    while i < N
        invariant
            i <= N,
            at + N <= s@.len(),
            s@.len() <= usize::MAX,
            forall|k: int| 0 <= k < i ==> a@[k] == s@[at + k],
        decreases N - i,
    {
        a[i] = s[at + i];
        i = i + 1;
    }
    assert(a@ =~= s@.subrange(at as int, at + N));
    a
}

/// The bytes from `from` up to, not including, `to`.
pub fn slice_range(s: &[u8], from: usize, to: usize) -> (r: &[u8])
    requires
        from <= to <= s@.len(),
    ensures
        r@ == s@.subrange(from as int, to as int),
{
    vstd::slice::slice_subrange(s, from, to)
}

} // verus!
