//! Bit-plane geometry. Plane `p` of a block of `nbits` bits owns the global bit indices
//! `g` with `g % K == p`; its `s`-th slot is the global bit `s * K + p`.

use vstd::prelude::*;
use vstd::arithmetic::div_mod::lemma_fundamental_div_mod_converse;
use vstd::arithmetic::div_mod::lemma_fundamental_div_mod;
use vstd::arithmetic::div_mod::lemma_div_is_ordered;

use crate::bits::bit_at;

verus! {

/// Number of slots of plane `p` (for `p < k <= nbits`).
pub open spec fn plane_slots(nbits: nat, k: nat, p: nat) -> nat {
    ((nbits - 1 - p) as nat) / k + 1
}

/// The global bit index of slot `s` of plane `p`.
pub open spec fn global_bit(s: nat, k: nat, p: nat) -> nat {
    s * k + p
}

/// Slot `s` of plane `p` is a bit of the block, in plane `p`, and slot `s` is recovered
/// from it by division.
pub proof fn lemma_global_in_range(nbits: nat, k: nat, p: nat, s: nat)
    requires
        1 <= k <= nbits,
        p < k,
        s < plane_slots(nbits, k, p),
    ensures
        global_bit(s, k, p) < nbits,
        global_bit(s, k, p) % k == p,
        global_bit(s, k, p) / k == s,
{
    let q = ((nbits - 1 - p) as nat) / k;
    lemma_fundamental_div_mod((nbits - 1 - p) as int, k as int);
    assert(s <= q);
    assert(s * k <= q * k) by (nonlinear_arith)
        requires s <= q;
    assert(q * k <= (nbits - 1 - p)) by (nonlinear_arith)
        requires q == ((nbits - 1 - p) as nat) / k, k >= 1, (nbits - 1 - p) == k * q + ((nbits - 1 - p) as nat) % k, ((nbits - 1 - p) as nat) % k >= 0;
    lemma_fundamental_div_mod_converse((s * k + p) as int, k as int, s as int, p as int);
}

/// Distinct (slot, plane) pairs are distinct bits.
pub proof fn lemma_global_injective(k: nat, s1: nat, p1: nat, s2: nat, p2: nat)
    requires
        1 <= k,
        p1 < k,
        p2 < k,
        global_bit(s1, k, p1) == global_bit(s2, k, p2),
    ensures
        s1 == s2,
        p1 == p2,
{
    lemma_fundamental_div_mod_converse((s1 * k + p1) as int, k as int, s1 as int, p1 as int);
    lemma_fundamental_div_mod_converse((s2 * k + p2) as int, k as int, s2 as int, p2 as int);
}

/// The planes partition the block: bit `g` is slot `g / k` of plane `g % k`, a slot that
/// plane has. With `lemma_global_injective`, every bit lies on exactly one plane.
pub proof fn lemma_bit_on_one_plane(nbits: nat, k: nat, g: nat)
    requires
        1 <= k <= nbits,
        g < nbits,
    ensures
        g % k < k,
        g / k < plane_slots(nbits, k, g % k),
        global_bit(g / k, k, g % k) == g,
{
    let p = g % k;
    let s = g / k;
    lemma_fundamental_div_mod(g as int, k as int);
    assert(g == s * k + p);
    lemma_div_is_ordered((s * k) as int, (nbits - 1 - p) as int, k as int);
    lemma_fundamental_div_mod_converse((s * k) as int, k as int, s as int, 0);
}

/// The byte at index `g / 8` with bit `g % 8` set to `b != 0`.
pub open spec fn with_bit(block: Seq<u8>, g: nat, b: u8) -> Seq<u8> {
    block.update(
        (g / 8) as int,
        if b != 0 {
            block[(g / 8) as int] | (1u8 << ((g % 8) as u8))
        } else {
            block[(g / 8) as int] & !(1u8 << ((g % 8) as u8))
        },
    )
}

proof fn lemma_byte_bit_update(x: u8, i: u8, j: u8)
    requires
        i < 8,
        j < 8,
    ensures
        ((x | (1u8 << i)) >> j) & 1u8 == (if i == j { 1u8 } else { (x >> j) & 1u8 }),
        ((x & !(1u8 << i)) >> j) & 1u8 == (if i == j { 0u8 } else { (x >> j) & 1u8 }),
{
    assert(((x | (1u8 << i)) >> j) & 1u8 == (if i == j { 1u8 } else { (x >> j) & 1u8 })) by (bit_vector)
        requires i < 8, j < 8;
    assert(((x & !(1u8 << i)) >> j) & 1u8 == (if i == j { 0u8 } else { (x >> j) & 1u8 })) by (bit_vector)
        requires i < 8, j < 8;
}

/// Setting bit `g` changes bit `g` to `b` (as 0/1) and no other bit.
pub proof fn lemma_with_bit(block: Seq<u8>, g: nat, b: u8, h: nat)
    requires
        g < 8 * block.len(),
        h < 8 * block.len(),
    ensures
        with_bit(block, g, b).len() == block.len(),
        bit_at(with_bit(block, g, b), h as int) == (if h == g {
            if b != 0 { 1u8 } else { 0u8 }
        } else {
            bit_at(block, h as int)
        }),
{
    let nb = with_bit(block, g, b);
    lemma_fundamental_div_mod(g as int, 8);
    lemma_fundamental_div_mod(h as int, 8);
    if h / 8 == g / 8 {
        lemma_byte_bit_update(block[(g / 8) as int], (g % 8) as u8, (h % 8) as u8);
        if h % 8 == g % 8 {
            assert(h == g);
        }
    }
}

/// Two blocks with the same bits are the same block.
pub proof fn lemma_bits_determine_block(a: Seq<u8>, b: Seq<u8>)
    requires
        a.len() == b.len(),
        forall|h: nat| h < 8 * a.len() ==> #[trigger] bit_at(a, h as int) == bit_at(b, h as int),
    ensures
        a == b,
{
    assert forall|i: int| 0 <= i < a.len() implies a[i] == b[i] by {
        let x = a[i];
        let y = b[i];
        assert forall|t: u8| t < 8 implies (#[trigger] (x >> t) & 1u8) == (y >> t) & 1u8 by {
            let h = (8 * i + t) as nat;
            lemma_fundamental_div_mod_converse(h as int, 8, i, t as int);
            assert(bit_at(a, h as int) == bit_at(b, h as int));
        }
        assert(x == y) by (bit_vector)
            requires
                (x >> 0u8) & 1u8 == (y >> 0u8) & 1u8,
                (x >> 1u8) & 1u8 == (y >> 1u8) & 1u8,
                (x >> 2u8) & 1u8 == (y >> 2u8) & 1u8,
                (x >> 3u8) & 1u8 == (y >> 3u8) & 1u8,
                (x >> 4u8) & 1u8 == (y >> 4u8) & 1u8,
                (x >> 5u8) & 1u8 == (y >> 5u8) & 1u8,
                (x >> 6u8) & 1u8 == (y >> 6u8) & 1u8,
                (x >> 7u8) & 1u8 == (y >> 7u8) & 1u8,
        ;
    }
    assert(a =~= b);
}

} // verus!
