//! Byte/bit conversions (least significant bit first within each byte), byte-wise xor,
//! and big-endian integer encodings.

use vstd::prelude::*;
use vstd::arithmetic::div_mod::lemma_fundamental_div_mod_converse;

verus! {

/// Bit `j` of the byte string `bs`, least significant bit first within each byte.
pub open spec fn bit_at(bs: Seq<u8>, j: int) -> u8 {
    (bs[j / 8] >> ((j % 8) as u8)) & 1u8
}

/// The bits of `bs`, eight per byte, least significant bit first; each is 0 or 1.
pub open spec fn to_bits(bs: Seq<u8>) -> Seq<u8> {
    Seq::new(8 * bs.len(), |j: int| bit_at(bs, j))
}

/// The byte whose bit `t` (for `t < n`) is set exactly when `bits[base + t]` exists and
/// is non-zero.
pub open spec fn pack_byte(bits: Seq<u8>, base: int, n: nat) -> u8
    decreases n,
{
    if n == 0 {
        0u8
    } else {
        pack_byte(bits, base, (n - 1) as nat) | (if base + n - 1 < bits.len() && bits[base + n - 1] != 0 {
            1u8 << ((n - 1) as u8)
        } else {
            0u8
        })
    }
}

/// Number of bytes needed for `n` bits.
pub open spec fn bytes_for(n: nat) -> nat {
    n / 8 + if n % 8 == 0 { 0nat } else { 1nat }
}

/// The bytes whose bits are `bits` (any non-zero entry counts as a set bit; a final
/// partial byte is padded with zero bits).
pub open spec fn from_bits(bits: Seq<u8>) -> Seq<u8> {
    Seq::new(bytes_for(bits.len()), |j: int| pack_byte(bits, 8 * j, 8))
}

/// Byte-wise xor of `a` and `b`, as long as the shorter of the two.
pub open spec fn xor_bytes(a: Seq<u8>, b: Seq<u8>) -> Seq<u8> {
    Seq::new(if a.len() <= b.len() { a.len() } else { b.len() }, |i: int| a[i] ^ b[i])
}

/// The eight big-endian bytes of `x`.
pub open spec fn be_u64_bytes(x: u64) -> Seq<u8> {
    seq![
        (x >> 56u64) as u8, (x >> 48u64) as u8, (x >> 40u64) as u8, (x >> 32u64) as u8,
        (x >> 24u64) as u8, (x >> 16u64) as u8, (x >> 8u64) as u8, x as u8,
    ]
}

/// The four big-endian bytes of `x`.
pub open spec fn be_u32_bytes(x: u32) -> Seq<u8> {
    seq![(x >> 24u32) as u8, (x >> 16u32) as u8, (x >> 8u32) as u8, x as u8]
}

/// The `u64` whose big-endian bytes are `b[0..8]`.
pub open spec fn be_u64_value(b: Seq<u8>) -> u64 {
    ((b[0] as u64) << 56u64) | ((b[1] as u64) << 48u64) | ((b[2] as u64) << 40u64) | ((b[3] as u64) << 32u64)
        | ((b[4] as u64) << 24u64) | ((b[5] as u64) << 16u64) | ((b[6] as u64) << 8u64) | (b[7] as u64)
}

/// The `u32` whose big-endian bytes are `b[0..4]`.
pub open spec fn be_u32_value(b: Seq<u8>) -> u32 {
    ((b[0] as u32) << 24u32) | ((b[1] as u32) << 16u32) | ((b[2] as u32) << 8u32) | (b[3] as u32)
}

proof fn lemma_byte_index(j: int, q: int, r: int)
    requires
        0 <= r < 8,
        j == 8 * q + r,
    ensures
        j / 8 == q,
        j % 8 == r,
{
    lemma_fundamental_div_mod_converse(j, 8, q, r);
}

proof fn lemma_pack_unpack_byte(b: u8)
    ensures
        b == ((((((((0u8 | (if (b >> 0u8) & 1u8 != 0 { 1u8 << 0u8 } else { 0u8 }))
            | (if (b >> 1u8) & 1u8 != 0 { 1u8 << 1u8 } else { 0u8 }))
            | (if (b >> 2u8) & 1u8 != 0 { 1u8 << 2u8 } else { 0u8 }))
            | (if (b >> 3u8) & 1u8 != 0 { 1u8 << 3u8 } else { 0u8 }))
            | (if (b >> 4u8) & 1u8 != 0 { 1u8 << 4u8 } else { 0u8 }))
            | (if (b >> 5u8) & 1u8 != 0 { 1u8 << 5u8 } else { 0u8 }))
            | (if (b >> 6u8) & 1u8 != 0 { 1u8 << 6u8 } else { 0u8 }))
            | (if (b >> 7u8) & 1u8 != 0 { 1u8 << 7u8 } else { 0u8 })),
{
    assert(b == ((((((((0u8 | (if (b >> 0u8) & 1u8 != 0 { 1u8 << 0u8 } else { 0u8 }))
            | (if (b >> 1u8) & 1u8 != 0 { 1u8 << 1u8 } else { 0u8 }))
            | (if (b >> 2u8) & 1u8 != 0 { 1u8 << 2u8 } else { 0u8 }))
            | (if (b >> 3u8) & 1u8 != 0 { 1u8 << 3u8 } else { 0u8 }))
            | (if (b >> 4u8) & 1u8 != 0 { 1u8 << 4u8 } else { 0u8 }))
            | (if (b >> 5u8) & 1u8 != 0 { 1u8 << 5u8 } else { 0u8 }))
            | (if (b >> 6u8) & 1u8 != 0 { 1u8 << 6u8 } else { 0u8 }))
            | (if (b >> 7u8) & 1u8 != 0 { 1u8 << 7u8 } else { 0u8 }))) by (bit_vector);
}

/// Every bit produced by `to_bits` is 0 or 1.
pub proof fn lemma_bit_at_is_bit(bs: Seq<u8>, j: int)
    ensures
        bit_at(bs, j) == 0 || bit_at(bs, j) == 1,
{
    let b = bs[j / 8];
    let s = (j % 8) as u8;
    assert((b >> s) & 1u8 == 0 || (b >> s) & 1u8 == 1) by (bit_vector);
}

/// Packing the bits of a byte string gives the byte string back.
pub proof fn lemma_from_to_bits(x: Seq<u8>)
    ensures
        from_bits(to_bits(x)) == x,
{
    let bits = to_bits(x);
    assert(bytes_for(bits.len()) == x.len()) by {
        lemma_byte_index(8 * x.len() as int, x.len() as int, 0);
    }
    assert forall|j: int| 0 <= j < x.len() implies #[trigger] pack_byte(bits, 8 * j, 8) == x[j] by {
        reveal_with_fuel(pack_byte, 9);
        assert forall|t: int| 0 <= t < 8 implies #[trigger] bits[8 * j + t] == (x[j] >> (t as u8)) & 1u8 by {
            lemma_byte_index(8 * j + t, j, t);
        }
        assert(bits[8 * j + 0] == (x[j] >> 0u8) & 1u8);
        assert(bits[8 * j + 1] == (x[j] >> 1u8) & 1u8);
        assert(bits[8 * j + 2] == (x[j] >> 2u8) & 1u8);
        assert(bits[8 * j + 3] == (x[j] >> 3u8) & 1u8);
        assert(bits[8 * j + 4] == (x[j] >> 4u8) & 1u8);
        assert(bits[8 * j + 5] == (x[j] >> 5u8) & 1u8);
        assert(bits[8 * j + 6] == (x[j] >> 6u8) & 1u8);
        assert(bits[8 * j + 7] == (x[j] >> 7u8) & 1u8);
        lemma_pack_unpack_byte(x[j]);
    }
    assert(from_bits(bits) =~= x);
}

/// The bits of a byte range are the matching range of the bits.
pub proof fn lemma_to_bits_subrange(x: Seq<u8>, lo: int, hi: int)
    requires
        0 <= lo <= hi <= x.len(),
    ensures
        to_bits(x).subrange(8 * lo, 8 * hi) == to_bits(x.subrange(lo, hi)),
{
    assert forall|j: int| 0 <= j < 8 * (hi - lo) implies #[trigger] to_bits(x).subrange(8 * lo, 8 * hi)[j] == to_bits(x.subrange(lo, hi))[j] by {
        let q = j / 8;
        let r = j % 8;
        lemma_byte_index(j, q, r);
        lemma_byte_index(j + 8 * lo, q + lo, r);
    }
    assert(to_bits(x).subrange(8 * lo, 8 * hi) =~= to_bits(x.subrange(lo, hi)));
}

/// Xoring twice with the same mask gives the input back.
pub proof fn lemma_xor_twice(a: Seq<u8>, m: Seq<u8>)
    requires
        a.len() <= m.len(),
    ensures
        xor_bytes(xor_bytes(a, m), m) == a,
{
    assert forall|i: int| 0 <= i < a.len() implies #[trigger] xor_bytes(xor_bytes(a, m), m)[i] == a[i] by {
        let x = a[i];
        let y = m[i];
        assert((x ^ y) ^ y == x) by (bit_vector);
    }
    assert(xor_bytes(xor_bytes(a, m), m) =~= a);
}

/// Decoding the big-endian bytes of `x` gives `x`.
pub proof fn lemma_be_u32_roundtrip(x: u32)
    ensures
        be_u32_value(be_u32_bytes(x)) == x,
{
    let b = be_u32_bytes(x);
    assert(b[0] == (x >> 24u32) as u8 && b[1] == (x >> 16u32) as u8 && b[2] == (x >> 8u32) as u8 && b[3] == x as u8);
    assert(((((x >> 24u32) as u8) as u32) << 24u32) | ((((x >> 16u32) as u8) as u32) << 16u32)
        | ((((x >> 8u32) as u8) as u32) << 8u32) | ((x as u8) as u32) == x) by (bit_vector);
}

/// The bits of `bs`, eight per byte, least significant bit first.
pub(crate) fn bytes_to_bits(bs: &[u8]) -> (bits: Vec<u8>)
    requires
        bs@.len() * 8 <= usize::MAX,
    ensures
        bits@ == to_bits(bs@),
{
    let mut v: Vec<u8> = Vec::with_capacity(bs.len() * 8);
    let n = bs.len();
    let mut j: usize = 0;
    while j < n
        invariant
            n == bs@.len(),
            n * 8 <= usize::MAX,
            j <= n,
            v@.len() == 8 * j,
            forall|t: int| 0 <= t < 8 * j ==> #[trigger] v@[t] == bit_at(bs@, t),
        decreases n - j,
    {
        let b = bs[j];
        let mut i: u8 = 0;
        while i < 8
            invariant
                n == bs@.len(),
                j < n,
                b == bs@[j as int],
                i <= 8,
                v@.len() == 8 * j + i,
                forall|t: int| 0 <= t < 8 * j + i ==> #[trigger] v@[t] == bit_at(bs@, t),
            decreases 8 - i,
        {
            proof {
                lemma_byte_index(8 * j + i, j as int, i as int);
            }
            v.push((b >> i) & 1);
            i = i + 1;
        }
        j = j + 1;
    }
    assert(v@ =~= to_bits(bs@));
    v
}

proof fn lemma_or_zero(b: u8)
    ensures
        b | 0u8 == b,
{
    assert(b | 0u8 == b) by (bit_vector);
}

/// The bytes whose bits are `bits`: bit `i` of the result is set when `bits[i] != 0`.
pub(crate) fn bits_to_bytes(bits: &[u8]) -> (out: Vec<u8>)
    ensures
        out@ == from_bits(bits@),
{
    let len = bits.len();
    let nbytes = len / 8 + if len % 8 == 0 { 0 } else { 1 };
    let mut out: Vec<u8> = Vec::with_capacity(nbytes);
    let mut j: usize = 0;
    while j < nbytes
        invariant
            len == bits@.len(),
            nbytes == bytes_for(len as nat),
            j <= nbytes,
            out@.len() == j,
            forall|t: int| 0 <= t < j ==> #[trigger] out@[t] == pack_byte(bits@, 8 * t, 8),
        decreases nbytes - j,
    {
        let mut b: u8 = 0;
        let mut t: usize = 0;
        while t < 8
            invariant
                len == bits@.len(),
                nbytes == bytes_for(len as nat),
                j < nbytes,
                t <= 8,
                b == pack_byte(bits@, 8 * j, t as nat),
            decreases 8 - t,
        {
            let idx = 8 * j + t;
            if idx < len && bits[idx] != 0 {
                b = b | (1u8 << (t as u8));
            } else {
                proof {
                    lemma_or_zero(b);
                }
            }
            t = t + 1;
        }
        out.push(b);
        j = j + 1;
    }
    assert(out@ =~= from_bits(bits@));
    out
}

/// Byte-wise xor of `a` and `b` over the length of the shorter one.
pub(crate) fn xor(a: &[u8], b: &[u8]) -> (out: Vec<u8>)
    ensures
        out@ == xor_bytes(a@, b@),
{
    let n = if a.len() <= b.len() { a.len() } else { b.len() };
    let mut out: Vec<u8> = Vec::with_capacity(n);
    let mut i: usize = 0;
    while i < n
        invariant
            n == (if a@.len() <= b@.len() { a@.len() } else { b@.len() }),
            i <= n,
            out@.len() == i,
            forall|t: int| 0 <= t < i ==> #[trigger] out@[t] == a@[t] ^ b@[t],
        decreases n - i,
    {
        out.push(a[i] ^ b[i]);
        i = i + 1;
    }
    assert(out@ =~= xor_bytes(a@, b@));
    out
}

/// The eight big-endian bytes of `x`.
pub(crate) fn u64_to_be(x: u64) -> (out: Vec<u8>)
    ensures
        out@ == be_u64_bytes(x),
{
    let out = vec![
        (x >> 56u64) as u8, (x >> 48u64) as u8, (x >> 40u64) as u8, (x >> 32u64) as u8,
        (x >> 24u64) as u8, (x >> 16u64) as u8, (x >> 8u64) as u8, x as u8,
    ];
    assert(out@ =~= be_u64_bytes(x));
    out
}

/// The four big-endian bytes of `x`.
pub(crate) fn u32_to_be(x: u32) -> (out: Vec<u8>)
    ensures
        out@ == be_u32_bytes(x),
{
    let out = vec![(x >> 24u32) as u8, (x >> 16u32) as u8, (x >> 8u32) as u8, x as u8];
    assert(out@ =~= be_u32_bytes(x));
    out
}

/// The `u64` whose big-endian bytes are `b[0..8]`.
pub(crate) fn be_to_u64(b: &[u8]) -> (x: u64)
    requires
        b@.len() >= 8,
    ensures
        x == be_u64_value(b@),
{
    ((b[0] as u64) << 56u64) | ((b[1] as u64) << 48u64) | ((b[2] as u64) << 40u64) | ((b[3] as u64) << 32u64)
        | ((b[4] as u64) << 24u64) | ((b[5] as u64) << 16u64) | ((b[6] as u64) << 8u64) | (b[7] as u64)
}

/// The `u32` whose big-endian bytes are `b[0..4]`.
pub(crate) fn be_to_u32(b: &[u8]) -> (x: u32)
    requires
        b@.len() >= 4,
    ensures
        x == be_u32_value(b@),
{
    ((b[0] as u32) << 24u32) | ((b[1] as u32) << 16u32) | ((b[2] as u32) << 8u32) | (b[3] as u32)
}

} // verus!
