//! The K-plane deniable container (KPDC).
//!
//! The block's bits are sliced into `K` disjoint planes (bit index `g` belongs to plane
//! `g % K`). A payload written under a password lives on one plane: its salt (masked),
//! recognition token, length (masked), ciphertext and HMAC tag are scattered, bit by
//! bit, along a pseudo-random walk of distinct slots of that plane. A password hashes to
//! a home plane and is found by probing `home, home + 1, ...` (mod `K`).

use vstd::prelude::*;
use vstd::string::{StringExecFns, StringSliceAdditionalSpecFns};
use crate::text::{dec_str, decimal};

use crate::bits::{
    lemma_bit_at_is_bit,
    bytes_to_bits, u32_to_be, be_u32_bytes, be_u32_value, bit_at, bits_to_bytes, from_bits, to_bits, xor, xor_bytes, be_to_u32,
    lemma_be_u32_roundtrip, lemma_from_to_bits, lemma_to_bits_subrange, lemma_xor_twice,
};
use crate::derive::{
    byte_range, home_seed, home_seed_exec, u8_copy, kdf_valid, keystream, lenmask, mackey, mk, prk, slot_seed,
    slot_seed_exec, smask, spec_keystream, spec_lenmask, spec_mackey, spec_mk, spec_prk,
    spec_smask, spec_token, token, Cipher, KdfParams, label, Label, cat, HEAD_BYTES,
    SALT_BYTES, TAG_BYTES,
};
use crate::plane::{global_bit, lemma_bits_determine_block, lemma_global_in_range, lemma_global_injective, lemma_with_bit, plane_slots, with_bit};
use crate::primitives::{argon2_params_ok, ct_eq, fill_random, hmac_sha256, hmac_sha256_tag, secret_bytes, secret_new, Secret};
use crate::walk::{
    first_accepted, first_accepted_exec, lemma_walk_slots_prefix, lemma_walk_slots_props, walk_slots,
    SlotWalk,
};
use vstd::arithmetic::div_mod::lemma_fundamental_div_mod;
use vstd::set_lib::{lemma_int_range, lemma_len_subset, set_int_range};
use std::collections::HashSet;

verus! {

broadcast use vstd::std_specs::hash::group_hash_axioms;

/// Bits before the ciphertext: salt, token and length field.
pub const HEAD_BITS: u64 = 288;
/// Bits of the HMAC-SHA256 tag.
pub const TAG_BITS: u64 = 256;
/// Default open-addressing probe bound for reads.
pub const DEFAULT_MAXPROBE: usize = 64;
/// The largest block, in bytes, whose bit count and plane arithmetic fit the machine
/// integers used here.
pub const MAX_BLOCK_BYTES: u64 = 0x1000_0000_0000_0000;

/// A block length whose bit indices fit both `usize` and `u64` arithmetic.
pub open spec fn block_len_ok(n: nat) -> bool {
    n * 8 <= usize::MAX && n <= MAX_BLOCK_BYTES
}

/// The abstract state of a container: its bytes and its credential parameters.
pub struct KpdcState {
    pub block: Seq<u8>,
    pub k: u64,
    pub kdf: KdfParams,
    pub cipher: Cipher,
}

/// Number of bits of the block.
pub open spec fn nbits(s: KpdcState) -> nat {
    8 * s.block.len()
}

/// The invariant of a container: a sane size, `2 <= K <= bits`, `K` odd, and costs that
/// Argon2id accepts.
pub open spec fn state_wf(s: KpdcState) -> bool {
    &&& block_len_ok(s.block.len())
    &&& 2 <= s.k <= nbits(s)
    &&& s.k % 2 == 1
    &&& kdf_valid(s.kdf)
}

/// Slots of plane `p` in this container.
pub open spec fn slots_of(s: KpdcState, p: u64) -> nat {
    plane_slots(nbits(s), s.k as nat, p as nat)
}

/// The bits of `block` at the given slots of plane `p`.
pub open spec fn plane_bits(block: Seq<u8>, k: u64, p: u64, slots: Seq<u64>) -> Seq<u8> {
    Seq::new(slots.len(), |j: int| bit_at(block, global_bit(slots[j] as nat, k as nat, p as nat) as int))
}

/// The length field decoded under the master key.
pub open spec fn decoded_len(head: Seq<u8>, mk: Seq<u8>) -> u32 {
    be_u32_value(xor_bytes(head.subrange(32, 36), spec_lenmask(mk)))
}

/// Bits occupied on a plane by a payload of `l` bytes.
pub open spec fn record_bits(l: nat) -> nat {
    (HEAD_BITS + 8 * l + TAG_BITS) as nat
}

/// What plane `p` yields for password `pw`: the plaintext if a record written under the
/// same `(pw, K, KDF cost, cipher)` lies on its slot walk with a matching token and tag,
/// otherwise `None`.
pub open spec fn spec_probe(s: KpdcState, pw: Seq<u8>, p: u64) -> Option<Seq<u8>> {
    let prk = spec_prk(pw, s.k);
    let m = slots_of(s, p);
    let seed = slot_seed(prk, p);
    if (HEAD_BITS as nat) > m {
        None
    } else {
        match walk_slots(seed, m as u64, HEAD_BITS as nat) {
            None => None,
            Some(hs) => {
                let head = from_bits(plane_bits(s.block, s.k, p, hs));
                let salt = xor_bytes(head.subrange(0, 16), spec_smask(prk));
                let mk = spec_mk(pw, s.k, salt, s.kdf);
                if spec_token(mk, s.cipher) != head.subrange(16, 32) {
                    None
                } else {
                    let l = decoded_len(head, mk) as int;
                    if record_bits(l as nat) > m {
                        None
                    } else {
                        match walk_slots(seed, m as u64, record_bits(l as nat)) {
                            None => None,
                            Some(ts) => {
                                let body = from_bits(plane_bits(s.block, s.k, p, ts));
                                let ct = body.subrange(36, 36 + l);
                                let tag = body.subrange(36 + l, 68 + l);
                                if hmac_sha256_tag(spec_mackey(mk, s.cipher), ct) != tag {
                                    None
                                } else {
                                    Some(xor_bytes(ct, spec_keystream(mk, s.cipher, l as nat)))
                                }
                            },
                        }
                    }
                }
            },
        }
    }
}

/// The salt that a probe of plane `p` for `pw` reads from the record head, or `None` when
/// the plane has no room for a head.
pub open spec fn probe_salt(s: KpdcState, pw: Seq<u8>, p: u64) -> Option<Seq<u8>> {
    let prk = spec_prk(pw, s.k);
    let m = slots_of(s, p);
    if (HEAD_BITS as nat) > m {
        None
    } else {
        match walk_slots(slot_seed(prk, p), m as u64, HEAD_BITS as nat) {
            None => None,
            Some(hs) => Some(xor_bytes(from_bits(plane_bits(s.block, s.k, p, hs)).subrange(0, 16), spec_smask(prk))),
        }
    }
}

/// What plane `p` yields for `pw` once the master key `mk` is given: the steps of
/// `spec_probe` that follow the key derivation (token, length, tag, decryption).
pub open spec fn spec_probe_keyed(s: KpdcState, pw: Seq<u8>, p: u64, mk: Seq<u8>) -> Option<Seq<u8>> {
    let prk = spec_prk(pw, s.k);
    let m = slots_of(s, p);
    let seed = slot_seed(prk, p);
    if (HEAD_BITS as nat) > m {
        None
    } else {
        match walk_slots(seed, m as u64, HEAD_BITS as nat) {
            None => None,
            Some(hs) => {
                let head = from_bits(plane_bits(s.block, s.k, p, hs));
                if spec_token(mk, s.cipher) != head.subrange(16, 32) {
                    None
                } else {
                    let l = decoded_len(head, mk) as int;
                    if record_bits(l as nat) > m {
                        None
                    } else {
                        match walk_slots(seed, m as u64, record_bits(l as nat)) {
                            None => None,
                            Some(ts) => {
                                let body = from_bits(plane_bits(s.block, s.k, p, ts));
                                let ct = body.subrange(36, 36 + l);
                                let tag = body.subrange(36 + l, 68 + l);
                                if hmac_sha256_tag(spec_mackey(mk, s.cipher), ct) != tag {
                                    None
                                } else {
                                    Some(xor_bytes(ct, spec_keystream(mk, s.cipher, l as nat)))
                                }
                            },
                        }
                    }
                }
            },
        }
    }
}

/// A probe is the keyed probe under the master key of the salt it reads.
pub proof fn lemma_probe_keyed(s: KpdcState, pw: Seq<u8>, p: u64)
    ensures
        spec_probe(s, pw, p) == match probe_salt(s, pw, p) {
            None => None,
            Some(salt) => spec_probe_keyed(s, pw, p, spec_mk(pw, s.k, salt, s.kdf)),
        },
{
}

/// The home plane of a password.
pub open spec fn spec_home(pw: Seq<u8>, k: u64) -> u64 {
    first_accepted(home_seed(spec_prk(pw, k)), k, 0)
}

/// How many planes a read probes: `min(maxprobe, K)`.
pub open spec fn window(maxprobe: usize, k: u64) -> nat {
    if (maxprobe as nat) < (k as nat) { maxprobe as nat } else { k as nat }
}

/// The `i`-th probed plane from `home`.
pub open spec fn probe_plane(home: u64, k: u64, i: nat) -> u64 {
    ((home + i) % (k as int)) as u64
}

/// The first plane among probes `i .. n` that yields a plaintext, with that plaintext.
pub open spec fn locate_from(s: KpdcState, pw: Seq<u8>, home: u64, i: nat, n: nat) -> Option<(u64, Seq<u8>)>
    decreases n - i,
{
    if i >= n {
        None
    } else {
        let p = probe_plane(home, s.k, i);
        match spec_probe(s, pw, p) {
            Some(pt) => Some((p, pt)),
            None => locate_from(s, pw, home, i + 1, n),
        }
    }
}

/// Where the payload of `pw` is found, and what it decrypts to.
pub open spec fn spec_locate(s: KpdcState, pw: Seq<u8>, maxprobe: usize) -> Option<(u64, Seq<u8>)> {
    locate_from(s, pw, spec_home(pw, s.k), 0, window(maxprobe, s.k))
}

/// The payload of `pw`, if found.
pub open spec fn spec_read(s: KpdcState, pw: Seq<u8>, maxprobe: usize) -> Option<Seq<u8>> {
    match spec_locate(s, pw, maxprobe) {
        Some((_, pt)) => Some(pt),
        None => None,
    }
}

/// The plane holding the payload of `pw`, if found.
pub open spec fn spec_plane_of(s: KpdcState, pw: Seq<u8>, maxprobe: usize) -> Option<u64> {
    match spec_locate(s, pw, maxprobe) {
        Some((p, _)) => Some(p),
        None => None,
    }
}

/// The bytes a write lays on its plane: the masked salt, the token, the masked length, the
/// ciphertext and its HMAC tag.
pub open spec fn spec_record(pw: Seq<u8>, s: KpdcState, salt: Seq<u8>, pt: Seq<u8>) -> Seq<u8> {
    let prk = spec_prk(pw, s.k);
    let mk = spec_mk(pw, s.k, salt, s.kdf);
    let ct = xor_bytes(pt, spec_keystream(mk, s.cipher, pt.len()));
    xor_bytes(salt, spec_smask(prk)) + spec_token(mk, s.cipher) + xor_bytes(
        be_u32_bytes(pt.len() as u32),
        spec_lenmask(mk),
    ) + ct + hmac_sha256_tag(spec_mackey(mk, s.cipher), ct)
}

/// `new` is `old` with `bits[j]` at slot `slots[j]` of plane `p`, and every other bit kept.
pub open spec fn record_placed(old: Seq<u8>, new: Seq<u8>, k: u64, p: u64, slots: Seq<u64>, bits: Seq<u8>) -> bool {
    &&& new.len() == old.len()
    &&& slots.len() == bits.len()
    &&& forall|j: int| 0 <= j < slots.len() ==> #[trigger] bit_at(new, global_bit(slots[j] as nat, k as nat, p as nat) as int) == bits[j]
    &&& forall|h: nat| h < 8 * old.len() && (forall|j: int| 0 <= j < slots.len() ==> h != #[trigger] global_bit(slots[j] as nat, k as nat, p as nat))
        ==> #[trigger] bit_at(new, h as int) == bit_at(old, h as int)
}

/// The planes where the known passwords' payloads are found.
pub open spec fn known_planes(s: KpdcState, known: Seq<Seq<u8>>, maxprobe: usize) -> Set<u64> {
    Set::new(|p: u64| exists|i: int| 0 <= i < known.len() && spec_plane_of(s, #[trigger] known[i], maxprobe) == Some(p))
}

/// The first probed plane among probes `i .. n` that is not occupied.
pub open spec fn first_free(home: u64, k: u64, occ: Set<u64>, i: nat, n: nat) -> Option<u64>
    decreases n - i,
{
    if i >= n {
        None
    } else if !occ.contains(probe_plane(home, k, i)) {
        Some(probe_plane(home, k, i))
    } else {
        first_free(home, k, occ, i + 1, n)
    }
}

/// The plane a write of `pw` uses: its own plane if its payload is found, else the first
/// probed plane not holding a known password's payload.
pub open spec fn spec_write_plane(s: KpdcState, pw: Seq<u8>, known: Seq<Seq<u8>>, maxprobe: usize) -> Option<u64> {
    match spec_locate(s, pw, maxprobe) {
        Some((p, _)) => Some(p),
        None => first_free(spec_home(pw, s.k), s.k, known_planes(s, known, maxprobe), 0, window(maxprobe, s.k)),
    }
}

/// Two different probes of one window reach different planes.
pub proof fn lemma_probe_planes_distinct(home: u64, k: u64, i: nat, j: nat)
    requires
        k >= 1,
        i < j < k,
    ensures
        probe_plane(home, k, i) != probe_plane(home, k, j),
{
    let a = home + i;
    let b = home + j;
    lemma_fundamental_div_mod(a as int, k as int);
    lemma_fundamental_div_mod(b as int, k as int);
    if a % (k as int) == b % (k as int) {
        let qa = a / (k as int);
        let qb = b / (k as int);
        assert(b - a == (k as int) * (qb - qa)) by (nonlinear_arith)
            requires a == (k as int) * qa + a % (k as int), b == (k as int) * qb + b % (k as int), a % (k as int) == b % (k as int);
        assert(false) by (nonlinear_arith)
            requires b - a == (k as int) * (qb - qa), 0 < b - a < k;
    }
}

/// Probes are below `K`.
pub proof fn lemma_probe_plane_bound(home: u64, k: u64, i: nat)
    requires
        k >= 1,
    ensures
        probe_plane(home, k, i) < k,
{
}

/// A found payload comes from the first probe that yields one.
pub proof fn lemma_locate_found(s: KpdcState, pw: Seq<u8>, home: u64, i: nat, n: nat)
    requires
        locate_from(s, pw, home, i, n) is Some,
    ensures
        exists|r: nat| #![trigger probe_plane(home, s.k, r)]
            i <= r < n
            && locate_from(s, pw, home, i, n) == Some((probe_plane(home, s.k, r), spec_probe(s, pw, probe_plane(home, s.k, r)).unwrap()))
            && spec_probe(s, pw, probe_plane(home, s.k, r)) is Some
            && forall|j: nat| i <= j < r ==> spec_probe(s, pw, #[trigger] probe_plane(home, s.k, j)) is None,
    decreases n - i,
{
    if spec_probe(s, pw, probe_plane(home, s.k, i)) is Some {
        assert(probe_plane(home, s.k, i) == probe_plane(home, s.k, i));
    } else {
        lemma_locate_found(s, pw, home, i + 1, n);
        let r = choose|r: nat| #![trigger probe_plane(home, s.k, r)]
            i + 1 <= r < n
            && locate_from(s, pw, home, i + 1, n) == Some((probe_plane(home, s.k, r), spec_probe(s, pw, probe_plane(home, s.k, r)).unwrap()))
            && spec_probe(s, pw, probe_plane(home, s.k, r)) is Some
            && forall|j: nat| i + 1 <= j < r ==> spec_probe(s, pw, #[trigger] probe_plane(home, s.k, j)) is None;
        assert(forall|j: nat| i <= j < r ==> spec_probe(s, pw, #[trigger] probe_plane(home, s.k, j)) is None);
    }
}

/// Nothing found means every probe yields nothing.
pub proof fn lemma_locate_none(s: KpdcState, pw: Seq<u8>, home: u64, i: nat, n: nat)
    requires
        locate_from(s, pw, home, i, n) is None,
    ensures
        forall|j: nat| i <= j < n ==> spec_probe(s, pw, #[trigger] probe_plane(home, s.k, j)) is None,
    decreases n - i,
{
    if i < n {
        lemma_locate_none(s, pw, home, i + 1, n);
    }
}

/// A probe that yields a plaintext, after probes that yield nothing, is what is found.
pub proof fn lemma_locate_at(s: KpdcState, pw: Seq<u8>, home: u64, i: nat, n: nat, r: nat)
    requires
        i <= r < n,
        spec_probe(s, pw, probe_plane(home, s.k, r)) is Some,
        forall|j: nat| i <= j < r ==> spec_probe(s, pw, #[trigger] probe_plane(home, s.k, j)) is None,
    ensures
        locate_from(s, pw, home, i, n) == Some((probe_plane(home, s.k, r), spec_probe(s, pw, probe_plane(home, s.k, r)).unwrap())),
    decreases r - i,
{
    if i < r {
        assert(spec_probe(s, pw, probe_plane(home, s.k, i)) is None);
        lemma_locate_at(s, pw, home, i + 1, n, r);
    }
}

/// What a probe yields is at most the block's length less the record's overhead.
proof fn lemma_probe_len(s: KpdcState, pw: Seq<u8>, p: u64)
    requires
        state_wf(s),
        p < s.k,
        spec_probe(s, pw, p) is Some,
    ensures
        spec_probe(s, pw, p).unwrap().len() + 68 <= s.block.len(),
{
    let prk = spec_prk(pw, s.k);
    let m = slots_of(s, p);
    let seed = slot_seed(prk, p);
    let hs = walk_slots(seed, m as u64, HEAD_BITS as nat).unwrap();
    let head = from_bits(plane_bits(s.block, s.k, p, hs));
    let salt = xor_bytes(head.subrange(0, 16), spec_smask(prk));
    let mk = spec_mk(pw, s.k, salt, s.kdf);
    let l = decoded_len(head, mk) as nat;
    let ts = walk_slots(seed, m as u64, record_bits(l)).unwrap();
    assert(m <= nbits(s)) by {
        let x = (nbits(s) - 1 - p) as nat;
        assert(x / (s.k as nat) <= x) by (nonlinear_arith)
            requires
                s.k >= 2,
        ;
    }
    assert(m >= 1);
    lemma_walk_slots_props(seed, m as u64, record_bits(l));
    let body = from_bits(plane_bits(s.block, s.k, p, ts));
    assert(body.len() == 68 + l) by {
        assert(record_bits(l) == 8 * (68 + l));
        assert((8 * (68 + l)) / 8 == 68 + l && (8 * (68 + l)) % 8 == 0) by (nonlinear_arith);
    }
}

/// A payload that reads back is at most the block's length less the record's overhead.
pub proof fn lemma_read_len(s: KpdcState, pw: Seq<u8>, maxprobe: usize)
    requires
        state_wf(s),
        spec_read(s, pw, maxprobe) is Some,
    ensures
        spec_read(s, pw, maxprobe).unwrap().len() + 68 <= s.block.len(),
{
    let home = spec_home(pw, s.k);
    let n = window(maxprobe, s.k);
    lemma_locate_found(s, pw, home, 0, n);
    let r = choose|r: nat| #![trigger probe_plane(home, s.k, r)]
        0 <= r < n
        && locate_from(s, pw, home, 0, n) == Some((probe_plane(home, s.k, r), spec_probe(s, pw, probe_plane(home, s.k, r)).unwrap()))
        && spec_probe(s, pw, probe_plane(home, s.k, r)) is Some
        && forall|j: nat| 0 <= j < r ==> spec_probe(s, pw, #[trigger] probe_plane(home, s.k, j)) is None;
    lemma_probe_plane_bound(home, s.k, r);
    lemma_probe_len(s, pw, probe_plane(home, s.k, r));
}

/// A free plane is the first unoccupied probe.
pub proof fn lemma_first_free(home: u64, k: u64, occ: Set<u64>, i: nat, n: nat)
    requires
        first_free(home, k, occ, i, n) is Some,
    ensures
        exists|r: nat| #![trigger probe_plane(home, k, r)]
            i <= r < n && first_free(home, k, occ, i, n) == Some(probe_plane(home, k, r))
            && !occ.contains(probe_plane(home, k, r)),
    decreases n - i,
{
    if occ.contains(probe_plane(home, k, i)) {
        lemma_first_free(home, k, occ, i + 1, n);
    } else {
        assert(probe_plane(home, k, i) == probe_plane(home, k, i));
    }
}

/// A plane's yield depends only on that plane's bits.
pub proof fn lemma_probe_frame(s1: KpdcState, s2: KpdcState, pw: Seq<u8>, q: u64)
    requires
        state_wf(s1),
        s2.k == s1.k,
        s2.kdf == s1.kdf,
        s2.cipher == s1.cipher,
        s2.block.len() == s1.block.len(),
        q < s1.k,
        forall|t: nat| t < slots_of(s1, q) ==> #[trigger] bit_at(s1.block, global_bit(t, s1.k as nat, q as nat) as int)
            == bit_at(s2.block, global_bit(t, s1.k as nat, q as nat) as int),
    ensures
        spec_probe(s1, pw, q) == spec_probe(s2, pw, q),
{
    let prk = spec_prk(pw, s1.k);
    let m = slots_of(s1, q);
    let seed = slot_seed(prk, q);
    if (HEAD_BITS as nat) <= m {
        if walk_slots(seed, m as u64, HEAD_BITS as nat) is Some {
            let hs = walk_slots(seed, m as u64, HEAD_BITS as nat).unwrap();
            lemma_walk_slots_props(seed, m as u64, HEAD_BITS as nat);
            assert(plane_bits(s1.block, s1.k, q, hs) =~= plane_bits(s2.block, s2.k, q, hs));
            let head = from_bits(plane_bits(s1.block, s1.k, q, hs));
            let salt = xor_bytes(head.subrange(0, 16), spec_smask(prk));
            let mk = spec_mk(pw, s1.k, salt, s1.kdf);
            let l = decoded_len(head, mk) as int;
            if record_bits(l as nat) <= m && walk_slots(seed, m as u64, record_bits(l as nat)) is Some {
                let ts = walk_slots(seed, m as u64, record_bits(l as nat)).unwrap();
                lemma_walk_slots_props(seed, m as u64, record_bits(l as nat));
                assert(plane_bits(s1.block, s1.k, q, ts) =~= plane_bits(s2.block, s2.k, q, ts));
            }
        }
    }
}

/// A record laid at the walk of its plane is read back: the plane yields its plaintext.
pub proof fn lemma_record_readable(s: KpdcState, pw: Seq<u8>, p: u64, salt: Seq<u8>, pt: Seq<u8>, ts: Seq<u64>)
    requires
        state_wf(s),
        p < s.k,
        pt.len() <= u32::MAX,
        salt.len() == 16,
        record_bits(pt.len()) <= slots_of(s, p),
        walk_slots(slot_seed(spec_prk(pw, s.k), p), slots_of(s, p) as u64, record_bits(pt.len())) == Some(ts),
        plane_bits(s.block, s.k, p, ts) == to_bits(spec_record(pw, s, salt, pt)),
        spec_keystream(spec_mk(pw, s.k, salt, s.kdf), s.cipher, pt.len()).len() == pt.len(),
        hmac_sha256_tag(
            spec_mackey(spec_mk(pw, s.k, salt, s.kdf), s.cipher),
            xor_bytes(pt, spec_keystream(spec_mk(pw, s.k, salt, s.kdf), s.cipher, pt.len())),
        ).len() == 32,
    ensures
        spec_probe(s, pw, p) == Some(pt),
{
    let prk = spec_prk(pw, s.k);
    let m = slots_of(s, p);
    let seed = slot_seed(prk, p);
    let mk = spec_mk(pw, s.k, salt, s.kdf);
    let ks = spec_keystream(mk, s.cipher, pt.len());
    let ct = xor_bytes(pt, ks);
    let l = pt.len();
    let sf = xor_bytes(salt, spec_smask(prk));
    let tok = spec_token(mk, s.cipher);
    let lf = xor_bytes(be_u32_bytes(l as u32), spec_lenmask(mk));
    let tag = hmac_sha256_tag(spec_mackey(mk, s.cipher), ct);
    let rec = spec_record(pw, s, salt, pt);
    assert(rec == sf + tok + lf + ct + tag);
    assert(rec.len() == 68 + l);
    lemma_walk_slots_prefix(seed, m as u64, HEAD_BITS as nat, record_bits(l));
    let hs = ts.take(288);
    assert(walk_slots(seed, m as u64, HEAD_BITS as nat) == Some(hs));
    assert(plane_bits(s.block, s.k, p, hs) =~= to_bits(rec).subrange(0, 288));
    lemma_to_bits_subrange(rec, 0, 36);
    lemma_from_to_bits(rec.subrange(0, 36));
    let head = from_bits(plane_bits(s.block, s.k, p, hs));
    assert(head == rec.subrange(0, 36));
    assert(head.subrange(0, 16) =~= sf);
    lemma_xor_twice(salt, spec_smask(prk));
    assert(xor_bytes(head.subrange(0, 16), spec_smask(prk)) == salt);
    assert(head.subrange(16, 32) =~= tok);
    assert(head.subrange(32, 36) =~= lf);
    lemma_xor_twice(be_u32_bytes(l as u32), spec_lenmask(mk));
    lemma_be_u32_roundtrip(l as u32);
    assert(decoded_len(head, mk) == l as u32);
    lemma_from_to_bits(rec);
    let body = from_bits(plane_bits(s.block, s.k, p, ts));
    assert(body == rec);
    assert(body.subrange(36, 36 + l as int) =~= ct);
    assert(body.subrange(36 + l as int, 68 + l as int) =~= tag);
    lemma_xor_twice(pt, ks);
}

/// The byte strings of the passwords `ks`.
pub open spec fn pw_bytes_seq(ks: Seq<&str>) -> Seq<Seq<u8>> {
    ks.map_values(|q: &str| q.spec_bytes())
}

/// The view of an optional byte slice.
pub open spec fn opt_bytes(x: Option<&[u8]>) -> Option<Seq<u8>> {
    match x {
        Some(v) => Some(v@),
        None => None,
    }
}

/// A successful write of `pt` under `pw` turned `old` into `new` using plane `p`: the
/// plane is the one `spec_write_plane` chooses, the payload fits it, and `new` is `old`
/// with the record (under some 16-byte salt, the given one if any) laid along the
/// plane's slot walk, every other bit unchanged.
pub open spec fn spec_write_ok(
    old: KpdcState,
    new: KpdcState,
    pw: Seq<u8>,
    pt: Seq<u8>,
    known: Seq<Seq<u8>>,
    maxprobe: usize,
    salt: Option<Seq<u8>>,
    p: u64,
) -> bool {
    &&& pt.len() <= u32::MAX
    &&& spec_write_plane(old, pw, known, maxprobe) == Some(p)
    &&& record_bits(pt.len()) <= slots_of(old, p)
    &&& new.k == old.k
    &&& new.kdf == old.kdf
    &&& new.cipher == old.cipher
    &&& exists|sv: Seq<u8>, ts: Seq<u64>|
        #![trigger record_placed(old.block, new.block, old.k, p, ts, to_bits(spec_record(pw, old, sv, pt)))]
        sv.len() == 16 && (salt matches Some(x) ==> sv == x)
        && walk_slots(slot_seed(spec_prk(pw, old.k), p), slots_of(old, p) as u64, record_bits(pt.len())) == Some(ts)
        && record_placed(old.block, new.block, old.k, p, ts, to_bits(spec_record(pw, old, sv, pt)))
}

/// The error a write of `pt` under `pw` may fail with: a payload longer than the 32-bit
/// length field; a given salt of the wrong length; no plane (or a slot walk that gives
/// out); a payload larger than its plane; or a failing random source for the salt.
pub open spec fn write_error(
    s: KpdcState,
    pw: Seq<u8>,
    pt: Seq<u8>,
    known: Seq<Seq<u8>>,
    maxprobe: usize,
    salt: Option<Seq<u8>>,
    e: Error,
) -> bool {
    if pt.len() > u32::MAX {
        e == Error::PayloadTooLong { len: pt.len() as usize }
    } else if salt matches Some(x) && x.len() != 16 {
        e == Error::BadSaltLen { got: salt->0.len() as usize, expected: 16 }
    } else {
        match spec_write_plane(s, pw, known, maxprobe) {
            None => e is ContainerFull,
            Some(p) => if record_bits(pt.len()) > slots_of(s, p) {
                e == Error::PayloadTooLarge { need_bits: record_bits(pt.len()) as u64, plane_bits: slots_of(s, p) as u64 }
            } else {
                ||| (e is Rng && salt is None)
                ||| (e is ContainerFull && walk_slots(
                    slot_seed(spec_prk(pw, s.k), p),
                    slots_of(s, p) as u64,
                    record_bits(pt.len()),
                ) is None)
            },
        }
    }
}

/// The passwords of a list of payloads.
pub open spec fn payload_pws(ps: Seq<(&str, &[u8])>) -> Seq<Seq<u8>> {
    ps.map_values(|e: (&str, &[u8])| e.0.spec_bytes())
}

/// The plaintexts of a list of payloads.
pub open spec fn payload_pts(ps: Seq<(&str, &[u8])>) -> Seq<Seq<u8>> {
    ps.map_values(|e: (&str, &[u8])| e.1@)
}

/// The first `n` writes of a whole-block rewrite of `old`: `states[0]` is a block of the
/// same size and parameters (fresh randomness, not stated), and each `states[i + 1]` is
/// `states[i]` after a successful write of payload `i` (fresh salt, the earlier
/// passwords known) on plane `planes[i]`, after which payload `i` reads back.
pub open spec fn rewrite_chain(
    old: KpdcState,
    states: Seq<KpdcState>,
    planes: Seq<u64>,
    pws: Seq<Seq<u8>>,
    pts: Seq<Seq<u8>>,
    maxprobe: usize,
    n: nat,
) -> bool {
    &&& states.len() == n + 1
    &&& planes.len() == n
    &&& n <= pws.len()
    &&& pws.len() == pts.len()
    &&& states[0].block.len() == old.block.len()
    &&& states[0].k == old.k
    &&& states[0].kdf == old.kdf
    &&& states[0].cipher == old.cipher
    &&& forall|i: int| 0 <= i <= n ==> state_wf(#[trigger] states[i])
    &&& forall|i: int| 0 <= i < n ==> {
        &&& spec_write_ok(states[i], states[i + 1], pws[i], pts[i], pws.take(i), maxprobe, None, #[trigger] planes[i])
        &&& spec_read(states[i + 1], pws[i], maxprobe) == Some(pts[i])
        &&& spec_plane_of(states[i + 1], pws[i], maxprobe) == Some(planes[i])
    }
}

/// The bits of a byte string are 0 or 1.
pub proof fn lemma_bits_are_bits(x: Seq<u8>)
    ensures
        forall|t: int| 0 <= t < to_bits(x).len() ==> #[trigger] to_bits(x)[t] == 0 || to_bits(x)[t] == 1,
{
    assert forall|t: int| 0 <= t < to_bits(x).len() implies #[trigger] to_bits(x)[t] == 0 || to_bits(x)[t] == 1 by {
        lemma_bit_at_is_bit(x, t);
    }
}

/// Read-after-write: when a write lays its record on the plane `spec_write_plane`
/// chooses, the new block yields the plaintext there, and no earlier probe yields
/// anything.
pub proof fn lemma_placed_readable(
    s0: KpdcState,
    s2: KpdcState,
    pw: Seq<u8>,
    pt: Seq<u8>,
    known: Seq<Seq<u8>>,
    maxprobe: usize,
    plane: u64,
    sv: Seq<u8>,
    ts: Seq<u64>,
)
    requires
        state_wf(s0),
        state_wf(s2),
        s2.k == s0.k,
        s2.kdf == s0.kdf,
        s2.cipher == s0.cipher,
        spec_write_plane(s0, pw, known, maxprobe) == Some(plane),
        pt.len() <= u32::MAX,
        sv.len() == 16,
        record_bits(pt.len()) <= slots_of(s0, plane),
        walk_slots(slot_seed(spec_prk(pw, s0.k), plane), slots_of(s0, plane) as u64, record_bits(pt.len())) == Some(ts),
        record_placed(s0.block, s2.block, s0.k, plane, ts, to_bits(spec_record(pw, s0, sv, pt))),
        spec_keystream(spec_mk(pw, s0.k, sv, s0.kdf), s0.cipher, pt.len()).len() == pt.len(),
        hmac_sha256_tag(
            spec_mackey(spec_mk(pw, s0.k, sv, s0.kdf), s0.cipher),
            xor_bytes(pt, spec_keystream(spec_mk(pw, s0.k, sv, s0.kdf), s0.cipher, pt.len())),
        ).len() == 32,
    ensures
        spec_locate(s2, pw, maxprobe) == Some((plane, pt)),
{
    let home = spec_home(pw, s0.k);
    let n = window(maxprobe, s0.k);
    let rec = spec_record(pw, s0, sv, pt);
    let r = if spec_locate(s0, pw, maxprobe) is Some {
        lemma_locate_found(s0, pw, home, 0, n);
        choose|r: nat| #![trigger probe_plane(home, s0.k, r)]
            0 <= r < n
            && locate_from(s0, pw, home, 0, n) == Some((probe_plane(home, s0.k, r), spec_probe(s0, pw, probe_plane(home, s0.k, r)).unwrap()))
            && spec_probe(s0, pw, probe_plane(home, s0.k, r)) is Some
            && forall|jj: nat| 0 <= jj < r ==> spec_probe(s0, pw, #[trigger] probe_plane(home, s0.k, jj)) is None
    } else {
        lemma_locate_none(s0, pw, home, 0, n);
        lemma_first_free(home, s0.k, known_planes(s0, known, maxprobe), 0, n);
        choose|r: nat| #![trigger probe_plane(home, s0.k, r)]
            0 <= r < n && first_free(home, s0.k, known_planes(s0, known, maxprobe), 0, n) == Some(probe_plane(home, s0.k, r))
            && !known_planes(s0, known, maxprobe).contains(probe_plane(home, s0.k, r))
    };
    assert(r < n && plane == probe_plane(home, s0.k, r));
    lemma_probe_plane_bound(home, s0.k, r);
    lemma_walk_slots_props(slot_seed(spec_prk(pw, s0.k), plane), slots_of(s0, plane) as u64, record_bits(pt.len()));
    assert forall|jj: nat| jj < r implies spec_probe(s2, pw, #[trigger] probe_plane(home, s0.k, jj)) is None by {
        let q = probe_plane(home, s0.k, jj);
        lemma_probe_planes_distinct(home, s0.k, jj, r);
        lemma_probe_plane_bound(home, s0.k, jj);
        assert forall|t: nat| t < slots_of(s0, q) implies #[trigger] bit_at(s0.block, global_bit(t, s0.k as nat, q as nat) as int)
            == bit_at(s2.block, global_bit(t, s0.k as nat, q as nat) as int) by {
            let h = global_bit(t, s0.k as nat, q as nat);
            lemma_global_in_range(nbits(s0), s0.k as nat, q as nat, t);
            assert forall|tt: int| 0 <= tt < ts.len() implies h != #[trigger] global_bit(ts[tt] as nat, s0.k as nat, plane as nat) by {
                if h == global_bit(ts[tt] as nat, s0.k as nat, plane as nat) {
                    lemma_global_injective(s0.k as nat, t, q as nat, ts[tt] as nat, plane as nat);
                }
            }
        }
        lemma_probe_frame(s0, s2, pw, q);
    }
    assert(plane_bits(s2.block, s2.k, plane, ts) =~= to_bits(rec));
    lemma_record_readable(s2, pw, plane, sv, pt, ts);
    lemma_locate_at(s2, pw, home, 0, n, r);
}

/// Errors of container construction and writes.
#[derive(Debug)]
pub enum Error {
    /// `K` is outside `2 ..= nbits`.
    InvalidK { k: u64, nbits: u64 },
    /// `K` is even, so its planes would sit at fixed positions within each byte.
    NonCoprimeK { k: u64 },
    /// No free plane within the probe bound (or the plane's slot walk gave out).
    ContainerFull,
    /// The payload needs more bits than its plane has.
    PayloadTooLarge { need_bits: u64, plane_bits: u64 },
    /// The payload length does not fit the 32-bit length field.
    PayloadTooLong { len: usize },
    /// A caller-supplied salt of the wrong length.
    BadSaltLen { got: usize, expected: usize },
    /// The operating system's random source failed.
    Rng,
    /// The KDF cost is not accepted by Argon2id.
    Kdf,
}

/// The human-readable text of an error.
pub open spec fn error_message(e: Error) -> Seq<char> {
    match e {
        Error::InvalidK { k, nbits } => "invalid K="@ + dec_str(k as nat)
            + ": must satisfy 2 <= K <= block bit-count ("@ + dec_str(nbits as nat) + ")"@,
        Error::NonCoprimeK { k } => "invalid K="@ + dec_str(k as nat) + NON_COPRIME_TAIL@,
        Error::ContainerFull => "container full: no free plane within probe bound"@,
        Error::PayloadTooLarge { need_bits, plane_bits } => "payload too large: needs "@
            + dec_str(need_bits as nat) + " bits but plane holds "@ + dec_str(plane_bits as nat)
            + " (raise block size or lower K)"@,
        Error::PayloadTooLong { len } => "payload length "@ + dec_str(len as nat)
            + " exceeds u32 length field (max ~4 GiB)"@,
        Error::BadSaltLen { got, expected } => "salt must be exactly "@ + dec_str(expected as nat)
            + " bytes, got "@ + dec_str(got as nat),
        Error::Rng => "failed to gather randomness"@,
        Error::Kdf => KDF_FAILURE@,
    }
}

/// The explanation that follows the value of an even `K`.
pub const NON_COPRIME_TAIL: &'static str = ": must be coprime to 8 (i.e. odd) or the bit-planes collapse onto fixed within-byte positions and the container is no longer indistinguishable from random \u{2014} use `azoth prime <n>` for a good K";

/// The text of a rejected KDF cost.
pub const KDF_FAILURE: &'static str = "KDF (Argon2id) failure \u{2014} check parameters";

impl Error {
    /// The error's text, as shown to a user.
    pub fn message(&self) -> (m: String)
        ensures
            m@ == error_message(*self),
    {
        match self {
            Error::InvalidK { k, nbits } => {
                let mut m = String::from_str("invalid K=");
                m.append(decimal(*k).as_str());
                m.append(": must satisfy 2 <= K <= block bit-count (");
                m.append(decimal(*nbits).as_str());
                m.append(")");
                m
            },
            Error::NonCoprimeK { k } => {
                let mut m = String::from_str("invalid K=");
                m.append(decimal(*k).as_str());
                m.append(NON_COPRIME_TAIL);
                m
            },
            Error::ContainerFull => String::from_str("container full: no free plane within probe bound"),
            Error::PayloadTooLarge { need_bits, plane_bits } => {
                let mut m = String::from_str("payload too large: needs ");
                m.append(decimal(*need_bits).as_str());
                m.append(" bits but plane holds ");
                m.append(decimal(*plane_bits).as_str());
                m.append(" (raise block size or lower K)");
                m
            },
            Error::PayloadTooLong { len } => {
                let mut m = String::from_str("payload length ");
                m.append(decimal(*len as u64).as_str());
                m.append(" exceeds u32 length field (max ~4 GiB)");
                m
            },
            Error::BadSaltLen { got, expected } => {
                let mut m = String::from_str("salt must be exactly ");
                m.append(decimal(*expected as u64).as_str());
                m.append(" bytes, got ");
                m.append(decimal(*got as u64).as_str());
                m
            },
            Error::Rng => String::from_str("failed to gather randomness"),
            Error::Kdf => String::from_str(KDF_FAILURE),
        }
    }
}

/// Checks the KDF cost up front, so that a read can never fail inside Argon2id (which
/// would look like a wrong password).
pub fn validate_kdf(p: KdfParams) -> (r: Result<(), Error>)
    ensures
        match r {
            Ok(()) => kdf_valid(p),
            Err(e) => !kdf_valid(p) && e is Kdf,
        },
{
    if p.lanes > 0xFF_FFFF {
        return Err(Error::Kdf);
    }
    if argon2_params_ok(p.mem_kib, p.iters, p.lanes) {
        Ok(())
    } else {
        Err(Error::Kdf)
    }
}

/// The outcome of checking `K` and the KDF cost for a block of `len` bytes: `None` when
/// they are accepted, else the error.
pub open spec fn params_error(len: nat, k: u64, kdf: KdfParams) -> Option<Error> {
    if k < 2 || k > 8 * len {
        Some(Error::InvalidK { k, nbits: (8 * len) as u64 })
    } else if k % 2 == 0 {
        Some(Error::NonCoprimeK { k })
    } else if !kdf_valid(kdf) {
        Some(Error::Kdf)
    } else {
        None
    }
}

fn check_params(len: usize, k: u64, kdf: KdfParams) -> (r: Result<(), Error>)
    requires
        block_len_ok(len as nat),
    ensures
        match r {
            Ok(()) => params_error(len as nat, k, kdf) is None,
            Err(e) => params_error(len as nat, k, kdf) == Some(e),
        },
{
    let nbits = (len as u64) * 8;
    if k < 2 || k > nbits {
        return Err(Error::InvalidK { k, nbits });
    }
    // K must be coprime to 8 (odd): otherwise each plane touches only a fixed subset of
    // the 8 within-byte bit positions, which is visible without any password.
    if k % 2 == 0 {
        return Err(Error::NonCoprimeK { k });
    }
    validate_kdf(kdf)
}

/// The first unoccupied plane among the first `n` probes from `home`.
fn first_free_exec(home: u64, k: u64, occupied: &HashSet<u64>, n: u64) -> (r: Option<u64>)
    requires
        1 <= k <= 0x8000_0000_0000_0000,
        home < k,
        n <= k,
    ensures
        r == first_free(home, k, occupied@, 0, n as nat),
{
    let mut i: u64 = 0;
    while i < n
        invariant
            1 <= k <= 0x8000_0000_0000_0000,
            home < k,
            n <= k,
            i <= n,
            first_free(home, k, occupied@, 0, n as nat) == first_free(home, k, occupied@, i as nat, n as nat),
        decreases n - i,
    {
        let cand = (home + i) % k;
        assert(cand == probe_plane(home, k, i as nat));
        if !occupied.contains(&cand) {
            return Some(cand);
        }
        i = i + 1;
    }
    None
}

/// A K-plane deniable container backed by a mutable byte block.
pub struct Kpdc {
    block: Vec<u8>,
    k: u64,
    kdf: KdfParams,
    cipher: Cipher,
}

impl View for Kpdc {
    type V = KpdcState;

    closed spec fn view(&self) -> KpdcState {
        KpdcState { block: self.block@, k: self.k, kdf: self.kdf, cipher: self.cipher }
    }
}

impl Kpdc {
    /// The container's invariant holds.
    pub open spec fn wf(&self) -> bool {
        state_wf(self@)
    }

    fn nbits_exec(&self) -> (n: u64)
        requires
            self.wf(),
        ensures
            n == nbits(self@),
    {
        (self.block.len() as u64) * 8
    }

    fn plane_slots_exec(&self, p: u64) -> (m: u64)
        requires
            self.wf(),
            p < self@.k,
        ensures
            m == slots_of(self@, p),
            m >= 1,
            m <= nbits(self@),
    {
        let n = self.nbits_exec();
        proof {
            assert(((n - 1 - p) as nat) / (self.k as nat) <= (n - 1 - p) as nat) by (nonlinear_arith)
                requires self.k >= 1;
        }
        (n - 1 - p) / self.k + 1
    }

    fn get_bit(&self, g: u64) -> (b: u8)
        requires
            self.wf(),
            g < nbits(self@),
        ensures
            b == bit_at(self@.block, g as int),
    {
        (self.block[(g / 8) as usize] >> ((g % 8) as u8)) & 1
    }

    /// The bits at the first `n` slots of `walk`, which walks plane `p`.
    fn read_plane_bits(&self, walk: &SlotWalk, p: u64, n: usize) -> (bits: Vec<u8>)
        requires
            self.wf(),
            p < self@.k,
            walk.inv(),
            walk.modulus() == slots_of(self@, p),
            n <= walk.slots().len(),
            forall|j: int| 0 <= j < walk.slots().len() ==> #[trigger] walk.slots()[j] < slots_of(self@, p),
        ensures
            bits@ == plane_bits(self@.block, self@.k, p, walk.slots().take(n as int)),
    {
        let mut bits: Vec<u8> = Vec::with_capacity(n);
        let mut j: usize = 0;
        while j < n
            invariant
                self.wf(),
                p < self@.k,
                n <= walk.slots().len(),
                forall|t: int| 0 <= t < walk.slots().len() ==> #[trigger] walk.slots()[t] < slots_of(self@, p),
                j <= n,
                bits@ == plane_bits(self@.block, self@.k, p, walk.slots().take(j as int)),
            decreases n - j,
        {
            let s = walk.slot(j);
            proof {
                lemma_global_in_range(nbits(self@), self.k as nat, p as nat, s as nat);
            }
            let g = s * self.k + p;
            bits.push(self.get_bit(g));
            j = j + 1;
            assert(bits@ =~= plane_bits(self@.block, self@.k, p, walk.slots().take(j as int)));
        }
        bits
    }

    /// What plane `p` yields for `pw` (see `spec_probe`).
    fn probe(&self, pw: &[u8], prk_v: &[u8], smask_v: &[u8], p: u64) -> (r: Option<Vec<u8>>)
        requires
            self.wf(),
            p < self@.k,
            pw@.len() + 8 <= 0xFFFF_FFFF,
            prk_v@ == spec_prk(pw@, self@.k),
            smask_v@ == spec_smask(prk_v@),
        ensures
            match r {
                Some(v) => spec_probe(self@, pw@, p) == Some(v@),
                None => spec_probe(self@, pw@, p) is None,
            },
    {
        proof {
            lemma_probe_keyed(self@, pw@, p);
        }
        let m = self.plane_slots_exec(p);
        if HEAD_BITS > m {
            return None;
        }
        let seed = slot_seed_exec(prk_v, p);
        let mut walk = SlotWalk::new(seed.as_slice(), m);
        if !walk.ensure(HEAD_BITS as usize) {
            return None;
        }
        proof {
            walk.lemma_slots();
        }
        let head_bits = self.read_plane_bits(&walk, p, HEAD_BITS as usize);
        let head = bits_to_bytes(head_bits.as_slice());
        assert(head@.len() == 36);
        let salt_field = byte_range(head.as_slice(), 0, 16);
        let salt = xor(salt_field.as_slice(), smask_v);
        assert(probe_salt(self@, pw@, p) == Some(salt@));
        let mkey = mk(pw, self.k, salt.as_slice(), self.kdf);
        self.probe_keyed(pw, prk_v, p, mkey.as_slice())
    }

    /// What plane `p` yields for `pw` under the master key `mkey` (see `spec_probe_keyed`).
    fn probe_keyed(&self, pw: &[u8], prk_v: &[u8], p: u64, mkey: &[u8]) -> (r: Option<Vec<u8>>)
        requires
            self.wf(),
            p < self@.k,
            prk_v@ == spec_prk(pw@, self@.k),
        ensures
            match r {
                Some(v) => spec_probe_keyed(self@, pw@, p, mkey@) == Some(v@),
                None => spec_probe_keyed(self@, pw@, p, mkey@) is None,
            },
    {
        let m = self.plane_slots_exec(p);
        if HEAD_BITS > m {
            return None;
        }
        let seed = slot_seed_exec(prk_v, p);
        let mut walk = SlotWalk::new(seed.as_slice(), m);
        if !walk.ensure(HEAD_BITS as usize) {
            return None;
        }
        proof {
            walk.lemma_slots();
        }
        let head_bits = self.read_plane_bits(&walk, p, HEAD_BITS as usize);
        let head = bits_to_bytes(head_bits.as_slice());
        assert(head@.len() == 36);
        let tok = token(mkey, self.cipher);
        let stored = byte_range(head.as_slice(), 16, 32);
        if !ct_eq(tok.as_slice(), stored.as_slice()) {
            return None;
        }
        let lm = lenmask(mkey);
        let len_field = byte_range(head.as_slice(), 32, 36);
        let len_plain = xor(len_field.as_slice(), lm.as_slice());
        let l = be_to_u32(len_plain.as_slice());
        let total: u64 = HEAD_BITS + 8 * (l as u64) + TAG_BITS;
        if total > m {
            return None;
        }
        if !walk.ensure(total as usize) {
            return None;
        }
        proof {
            walk.lemma_slots();
        }
        let body_bits = self.read_plane_bits(&walk, p, total as usize);
        let body = bits_to_bytes(body_bits.as_slice());
        let lu = l as usize;
        assert(body@.len() == 68 + lu);
        let ct = byte_range(body.as_slice(), 36, 36 + lu);
        let tag = byte_range(body.as_slice(), 36 + lu, 68 + lu);
        let mac_key = mackey(mkey, self.cipher);
        let expect = hmac_sha256(mac_key.as_slice(), ct.as_slice());
        if !ct_eq(expect.as_slice(), tag.as_slice()) {
            return None;
        }
        let ks = keystream(mkey, self.cipher, lu);
        Some(xor(ct.as_slice(), ks.as_slice()))
    }

    /// The first probed plane that yields a plaintext for `pw`, with the plaintext.
    fn locate(&self, pw: &[u8], maxprobe: usize) -> (r: Option<(u64, Secret)>)
        requires
            self.wf(),
            pw@.len() + 8 <= 0xFFFF_FFFF,
        ensures
            match r {
                Some((p, v)) => spec_locate(self@, pw@, maxprobe) == Some((p, secret_bytes(v))),
                None => spec_locate(self@, pw@, maxprobe) is None,
            },
    {
        let prk_v = prk(pw, self.k);
        let hs = home_seed_exec(prk_v.as_slice());
        let home = first_accepted_exec(hs.as_slice(), self.k);
        let mask = smask(prk_v.as_slice());
        let n: u64 = if (maxprobe as u64) < self.k { maxprobe as u64 } else { self.k };
        let ghost w = window(maxprobe, self@.k);
        assert(n == w);
        let mut i: u64 = 0;
        while i < n
            invariant
                self.wf(),
                pw@.len() + 8 <= 0xFFFF_FFFF,
                secret_bytes(prk_v) == spec_prk(pw@, self@.k),
                mask@ == spec_smask(secret_bytes(prk_v)),
                home == spec_home(pw@, self@.k),
                home < self@.k,
                n == w,
                n <= self@.k,
                i <= n,
                spec_locate(self@, pw@, maxprobe) == locate_from(self@, pw@, home, i as nat, n as nat),
            decreases n - i,
        {
            let p = (home + i) % self.k;
            assert(p == probe_plane(home, self@.k, i as nat));
            match self.probe(pw, prk_v.as_slice(), mask.as_slice(), p) {
                Some(pt) => {
                    return Some((p, secret_new(pt)));
                },
                None => {},
            }
            i = i + 1;
        }
        None
    }

    /// Decrypt the payload for `pw`, or `None` (wrong credential / not present). The
    /// plaintext is handed out in a `Secret`, which wipes it when dropped.
    pub fn read(&self, pw: &str, maxprobe: usize) -> (r: Option<Secret>)
        requires
            self.wf(),
            pw.spec_bytes().len() + 8 <= 0xFFFF_FFFF,
        ensures
            match r {
                Some(v) => spec_read(self@, pw.spec_bytes(), maxprobe) == Some(secret_bytes(v)),
                None => spec_read(self@, pw.spec_bytes(), maxprobe) is None,
            },
    {
        match self.locate(pw.as_bytes(), maxprobe) {
            Some((_, pt)) => Some(pt),
            None => None,
        }
    }

    /// The plane index holding `pw`'s payload, or `None`.
    pub fn plane_of(&self, pw: &str, maxprobe: usize) -> (r: Option<u64>)
        requires
            self.wf(),
            pw.spec_bytes().len() + 8 <= 0xFFFF_FFFF,
        ensures
            r == spec_plane_of(self@, pw.spec_bytes(), maxprobe),
    {
        match self.locate(pw.as_bytes(), maxprobe) {
            Some((p, _)) => Some(p),
            None => None,
        }
    }

    /// What plane `p` holds for `pw` when the master key is supplied: `master_key` stands
    /// for the Argon2id output over `pw || K` and the salt stored on that plane, and
    /// everything a read does after that derivation is done here (token, length, tag,
    /// decryption). A read of plane `p` is this with the key that the KDF gives.
    pub fn read_plane_with_key(&self, pw: &str, p: u64, master_key: &[u8]) -> (r: Option<Secret>)
        requires
            self.wf(),
            p < self@.k,
        ensures
            match r {
                Some(v) => spec_probe_keyed(self@, pw.spec_bytes(), p, master_key@) == Some(secret_bytes(v)),
                None => spec_probe_keyed(self@, pw.spec_bytes(), p, master_key@) is None,
            },
    {
        let pw_v = pw.as_bytes();
        let prk_v = prk(pw_v, self.k);
        match self.probe_keyed(pw_v, prk_v.as_slice(), p, master_key) {
            Some(pt) => Some(secret_new(pt)),
            None => None,
        }
    }

    /// Wrap an existing block (e.g. read from disk) with its credential parameters, using
    /// the default payload cipher (AES-256-CTR).
    pub fn from_bytes(block: Vec<u8>, k: u64, kdf: KdfParams) -> (r: Result<Kpdc, Error>)
        requires
            block_len_ok(block@.len()),
        ensures
            match r {
                Ok(c) => c.wf() && c@ == (KpdcState { block: block@, k, kdf, cipher: Cipher::Aes256Ctr })
                    && params_error(block@.len(), k, kdf) is None,
                Err(e) => params_error(block@.len(), k, kdf) == Some(e),
            },
    {
        Kpdc::from_bytes_with(block, k, kdf, Cipher::Aes256Ctr)
    }

    /// Wrap an existing block with its credential parameters and an explicit cipher.
    pub fn from_bytes_with(block: Vec<u8>, k: u64, kdf: KdfParams, cipher: Cipher) -> (r: Result<Kpdc, Error>)
        requires
            block_len_ok(block@.len()),
        ensures
            match r {
                Ok(c) => c.wf() && c@ == (KpdcState { block: block@, k, kdf, cipher })
                    && params_error(block@.len(), k, kdf) is None,
                Err(e) => params_error(block@.len(), k, kdf) == Some(e),
            },
    {
        check_params(block.len(), k, kdf)?;
        Ok(Kpdc { block, k, kdf, cipher })
    }

    /// Create a fresh container of `size` random bytes, using the default payload cipher.
    /// A fresh block is pure noise whatever the cipher.
    pub fn create(size: usize, k: u64, kdf: KdfParams) -> (r: Result<Kpdc, Error>)
        requires
            block_len_ok(size as nat),
        ensures
            match r {
                Ok(c) => c.wf() && c@.block.len() == size && c@.k == k && c@.kdf == kdf
                    && c@.cipher == Cipher::Aes256Ctr && params_error(size as nat, k, kdf) is None,
                Err(Error::Rng) => params_error(size as nat, k, kdf) is None,
                Err(e) => params_error(size as nat, k, kdf) == Some(e),
            },
    {
        Kpdc::create_with(size, k, kdf, Cipher::Aes256Ctr)
    }

    /// Create a fresh container of `size` random bytes with an explicit cipher. The bytes
    /// come from the operating system's random source and are not stated.
    pub fn create_with(size: usize, k: u64, kdf: KdfParams, cipher: Cipher) -> (r: Result<Kpdc, Error>)
        requires
            block_len_ok(size as nat),
        ensures
            match r {
                Ok(c) => c.wf() && c@.block.len() == size && c@.k == k && c@.kdf == kdf
                    && c@.cipher == cipher && params_error(size as nat, k, kdf) is None,
                Err(Error::Rng) => params_error(size as nat, k, kdf) is None,
                Err(e) => params_error(size as nat, k, kdf) == Some(e),
            },
    {
        check_params(size, k, kdf)?;
        let mut block: Vec<u8> = vec![0u8; size];
        match fill_random(&mut block) {
            Ok(()) => {},
            Err(_) => {
                return Err(Error::Rng);
            },
        }
        Ok(Kpdc { block, k, kdf, cipher })
    }

    /// The container's bytes.
    pub fn as_bytes(&self) -> (b: &[u8])
        ensures
            b@ == self@.block,
    {
        self.block.as_slice()
    }

    /// The container's bytes, consuming it.
    pub fn into_bytes(self) -> (b: Vec<u8>)
        ensures
            b@ == self@.block,
    {
        self.block
    }

    /// The plane count `K`.
    pub fn k(&self) -> (k: u64)
        ensures
            k == self@.k,
    {
        self.k
    }

    /// The payload cipher this container reads and writes with.
    pub fn cipher(&self) -> (c: Cipher)
        ensures
            c == self@.cipher,
    {
        self.cipher
    }

    fn set_bit(&mut self, g: u64, b: u8)
        requires
            old(self).wf(),
            g < nbits(old(self)@),
        ensures
            final(self).wf(),
            final(self)@.block == with_bit(old(self)@.block, g as nat, b),
            final(self)@.k == old(self)@.k,
            final(self)@.kdf == old(self)@.kdf,
            final(self)@.cipher == old(self)@.cipher,
    {
        let idx = (g / 8) as usize;
        let byte = self.block[idx];
        let nb = if b != 0 {
            byte | (1u8 << ((g % 8) as u8))
        } else {
            byte & !(1u8 << ((g % 8) as u8))
        };
        self.block.set(idx, nb);
        assert(self.block@ =~= with_bit(old(self)@.block, g as nat, b));
    }

    /// The planes of the known passwords' payloads.
    fn known_planes_exec(&self, known_pws: &[&str], maxprobe: usize) -> (occ: HashSet<u64>)
        requires
            self.wf(),
            forall|i: int| 0 <= i < known_pws@.len() ==> (#[trigger] known_pws@[i]).spec_bytes().len() + 8 <= 0xFFFF_FFFF,
        ensures
            occ@ == known_planes(self@, pw_bytes_seq(known_pws@), maxprobe),
    {
        let ghost kn = pw_bytes_seq(known_pws@);
        let mut occ: HashSet<u64> = HashSet::new();
        let mut j: usize = 0;
        while j < known_pws.len()
            invariant
                self.wf(),
                forall|i: int| 0 <= i < known_pws@.len() ==> (#[trigger] known_pws@[i]).spec_bytes().len() + 8 <= 0xFFFF_FFFF,
                kn == pw_bytes_seq(known_pws@),
                j <= known_pws@.len(),
                forall|p: u64| occ@.contains(p) <==> exists|i: int| 0 <= i < j && spec_plane_of(self@, #[trigger] kn[i], maxprobe) == Some(p),
            decreases known_pws@.len() - j,
        {
            let q = known_pws[j];
            assert(kn[j as int] == q.spec_bytes());
            match self.plane_of(q, maxprobe) {
                Some(p) => {
                    occ.insert(p);
                },
                None => {},
            }
            j = j + 1;
        }
        assert(occ@ =~= known_planes(self@, kn, maxprobe));
        occ
    }

    /// Lays `bits` along the first slots of `walk`, which walks plane `p`.
    fn place_record(&mut self, walk: &SlotWalk, p: u64, bits: &Vec<u8>)
        requires
            old(self).wf(),
            p < old(self)@.k,
            walk.inv(),
            bits@.len() <= walk.slots().len(),
            forall|t: int| 0 <= t < walk.slots().len() ==> #[trigger] walk.slots()[t] < slots_of(old(self)@, p),
            forall|a: int, b: int| 0 <= a < b < walk.slots().len() ==> walk.slots()[a] != walk.slots()[b],
            forall|t: int| 0 <= t < bits@.len() ==> #[trigger] bits@[t] == 0 || bits@[t] == 1,
        ensures
            final(self).wf(),
            final(self)@.k == old(self)@.k,
            final(self)@.kdf == old(self)@.kdf,
            final(self)@.cipher == old(self)@.cipher,
            record_placed(old(self)@.block, final(self)@.block, old(self)@.k, p, walk.slots().take(bits@.len() as int), bits@),
    {
        let ghost s0 = self@;
        let ghost ts = walk.slots().take(bits@.len() as int);
        let nb = bits.len();
        let mut j: usize = 0;
        while j < nb
            invariant
                self.wf(),
                self@.block.len() == s0.block.len(),
                self@.k == s0.k,
                self@.kdf == s0.kdf,
                self@.cipher == s0.cipher,
                p < self@.k,
                nb == bits@.len(),
                nb <= walk.slots().len(),
                ts == walk.slots().take(nb as int),
                forall|t: int| 0 <= t < walk.slots().len() ==> #[trigger] walk.slots()[t] < slots_of(s0, p),
                forall|a: int, b: int| 0 <= a < b < walk.slots().len() ==> walk.slots()[a] != walk.slots()[b],
                forall|t: int| 0 <= t < bits@.len() ==> #[trigger] bits@[t] == 0 || bits@[t] == 1,
                j <= nb,
                forall|t: int| 0 <= t < j ==> #[trigger] bit_at(self@.block, global_bit(ts[t] as nat, s0.k as nat, p as nat) as int) == bits@[t],
                forall|h: nat| h < 8 * s0.block.len() && (forall|t: int| 0 <= t < j ==> h != #[trigger] global_bit(ts[t] as nat, s0.k as nat, p as nat))
                    ==> #[trigger] bit_at(self@.block, h as int) == bit_at(s0.block, h as int),
            decreases nb - j,
        {
            let sl = walk.slot(j);
            proof {
                lemma_global_in_range(nbits(self@), self.k as nat, p as nat, sl as nat);
            }
            let g = sl * self.k + p;
            let ghost before = self@.block;
            let bit = bits[j];
            self.set_bit(g, bit);
            proof {
                assert forall|t: int| 0 <= t < j + 1 implies #[trigger] bit_at(self@.block, global_bit(ts[t] as nat, s0.k as nat, p as nat) as int) == bits@[t] by {
                    let gt = global_bit(ts[t] as nat, s0.k as nat, p as nat);
                    lemma_global_in_range(nbits(s0), s0.k as nat, p as nat, ts[t] as nat);
                    lemma_with_bit(before, g as nat, bit, gt);
                    if t < j {
                        if gt == g as nat {
                            lemma_global_injective(s0.k as nat, ts[t] as nat, p as nat, sl as nat, p as nat);
                        }
                    }
                }
                assert forall|h: nat| h < 8 * s0.block.len() && (forall|t: int| 0 <= t < j + 1 ==> h != #[trigger] global_bit(ts[t] as nat, s0.k as nat, p as nat))
                    implies #[trigger] bit_at(self@.block, h as int) == bit_at(s0.block, h as int) by {
                    lemma_with_bit(before, g as nat, bit, h);
                    assert(h != global_bit(ts[j as int] as nat, s0.k as nat, p as nat));
                }
            }
            j = j + 1;
        }
    }

    /// Write `plaintext` under `pw`. Pass every *other* known password in `known_pws`
    /// so that their planes are avoided. Reuses `pw`'s own plane if it already holds a
    /// payload. Returns the plane used. With `salt` the write is deterministic (used by
    /// known-answer tests); otherwise a fresh random salt is drawn.
    #[verifier::rlimit(40)]
    #[verifier::spinoff_prover]
    pub fn write(
        &mut self,
        pw: &str,
        plaintext: &[u8],
        known_pws: &[&str],
        maxprobe: usize,
        salt: Option<&[u8]>,
    ) -> (r: Result<u64, Error>)
        requires
            old(self).wf(),
            pw.spec_bytes().len() + 8 <= 0xFFFF_FFFF,
            forall|i: int| 0 <= i < known_pws@.len() ==> (#[trigger] known_pws@[i]).spec_bytes().len() + 8 <= 0xFFFF_FFFF,
            plaintext@.len() <= u32::MAX ==> 8 * (plaintext@.len() + 68) <= usize::MAX,
        ensures
            final(self).wf(),
            final(self)@.block.len() == old(self)@.block.len(),
            match r {
                Ok(p) => {
                    &&& spec_write_ok(old(self)@, final(self)@, pw.spec_bytes(), plaintext@, pw_bytes_seq(known_pws@), maxprobe, opt_bytes(salt), p)
                    &&& spec_read(final(self)@, pw.spec_bytes(), maxprobe) == Some(plaintext@)
                    &&& spec_plane_of(final(self)@, pw.spec_bytes(), maxprobe) == Some(p)
                },
                Err(e) => {
                    &&& final(self)@ == old(self)@
                    &&& write_error(old(self)@, pw.spec_bytes(), plaintext@, pw_bytes_seq(known_pws@), maxprobe, opt_bytes(salt), e)
                },
            },
    {
        let ghost s0 = self@;
        let ghost pwb = pw.spec_bytes();
        let ghost kn = pw_bytes_seq(known_pws@);
        if plaintext.len() as u64 > u32::MAX as u64 {
            return Err(Error::PayloadTooLong { len: plaintext.len() });
        }
        match salt {
            Some(sv) => {
                if sv.len() != SALT_BYTES {
                    return Err(Error::BadSaltLen { got: sv.len(), expected: SALT_BYTES });
                }
            },
            None => {},
        }
        let pw_v = pw.as_bytes();
        let prk_v = prk(pw_v, self.k);
        let plane = match self.locate(pw_v, maxprobe) {
            Some((p, _)) => p,
            None => {
                let hs = home_seed_exec(prk_v.as_slice());
                let home = first_accepted_exec(hs.as_slice(), self.k);
                let occupied = self.known_planes_exec(known_pws, maxprobe);
                // Search only the window a read probes: a payload placed beyond
                // min(maxprobe, K) could never be read back.
                let n: u64 = if (maxprobe as u64) < self.k { maxprobe as u64 } else { self.k };
                match first_free_exec(home, self.k, &occupied, n) {
                    Some(c) => c,
                    None => {
                        return Err(Error::ContainerFull);
                    },
                }
            },
        };
        assert(spec_write_plane(s0, pwb, kn, maxprobe) == Some(plane));
        proof {
            if spec_locate(s0, pwb, maxprobe) is Some {
                lemma_locate_found(s0, pwb, spec_home(pwb, s0.k), 0, window(maxprobe, s0.k));
            } else {
                lemma_first_free(spec_home(pwb, s0.k), s0.k, known_planes(s0, kn, maxprobe), 0, window(maxprobe, s0.k));
            }
            lemma_probe_plane_bound(spec_home(pwb, s0.k), s0.k, 0);
        }
        assert(plane < self.k);
        let len = plaintext.len() as u64;
        let total: u64 = HEAD_BITS + 8 * len + TAG_BITS;
        let cap = self.plane_slots_exec(plane);
        if total > cap {
            return Err(Error::PayloadTooLarge { need_bits: total, plane_bits: cap });
        }
        let salt_v: Vec<u8> = match salt {
            Some(sv) => u8_copy(sv),
            None => {
                let mut fresh: Vec<u8> = vec![0u8; SALT_BYTES];
                match fill_random(&mut fresh) {
                    Ok(()) => fresh,
                    Err(_) => {
                        return Err(Error::Rng);
                    },
                }
            },
        };
        let mask = smask(prk_v.as_slice());
        let mkey = mk(pw_v, self.k, salt_v.as_slice(), self.kdf);
        let tok = token(mkey.as_slice(), self.cipher);
        let lm = lenmask(mkey.as_slice());
        let ks = keystream(mkey.as_slice(), self.cipher, plaintext.len());
        let mac_key = mackey(mkey.as_slice(), self.cipher);
        let ct = xor(plaintext, ks.as_slice());
        let tag = hmac_sha256(mac_key.as_slice(), ct.as_slice());
        let len_be = u32_to_be(len as u32);
        let len_field = xor(len_be.as_slice(), lm.as_slice());
        let salt_field = xor(salt_v.as_slice(), mask.as_slice());
        let r1 = cat(salt_field.as_slice(), tok.as_slice());
        let r2 = cat(r1.as_slice(), len_field.as_slice());
        let r3 = cat(r2.as_slice(), ct.as_slice());
        let rec = cat(r3.as_slice(), tag.as_slice());
        let ghost rec_spec = spec_record(pwb, s0, salt_v@, plaintext@);
        assert(rec@ =~= rec_spec);
        let bits = bytes_to_bits(rec.as_slice());
        assert(bits@.len() == total);
        let seed = slot_seed_exec(prk_v.as_slice(), plane);
        let mut walk = SlotWalk::new(seed.as_slice(), cap);
        if !walk.ensure(bits.len()) {
            return Err(Error::ContainerFull);
        }
        proof {
            walk.lemma_slots();
        }
        let ghost ts = walk.slots().take(bits@.len() as int);
        proof {
            lemma_bits_are_bits(rec_spec);
        }
        self.place_record(&walk, plane, &bits);
        proof {
            assert(ts == walk_slots(secret_bytes(seed), cap, bits@.len() as nat).unwrap());
            lemma_placed_readable(s0, self@, pwb, plaintext@, kn, maxprobe, plane, salt_v@, ts);
        }
        Ok(plane)
    }

    /// Re-randomize the **entire** container: discard the current block, fill a fresh
    /// random one, and write every supplied payload again with new salts, each later
    /// payload avoiding the planes of the earlier ones. Every bit changes on every call,
    /// so snapshots taken before and after cannot be diffed.
    ///
    /// Every payload the container should keep must be passed: anything omitted is gone.
    /// On any error the block is left as it was.
    pub fn write_all_fresh(&mut self, payloads: &[(&str, &[u8])], maxprobe: usize) -> (r: Result<(), Error>)
        requires
            old(self).wf(),
            forall|i: int| 0 <= i < payloads@.len() ==> (#[trigger] payloads@[i]).0.spec_bytes().len() + 8 <= 0xFFFF_FFFF,
            forall|i: int| 0 <= i < payloads@.len() ==> ((#[trigger] payloads@[i]).1@.len() <= u32::MAX
                ==> 8 * (payloads@[i].1@.len() + 68) <= usize::MAX),
        ensures
            final(self).wf(),
            match r {
                Ok(()) => exists|states: Seq<KpdcState>, planes: Seq<u64>|
                    rewrite_chain(old(self)@, states, planes, payload_pws(payloads@), payload_pts(payloads@), maxprobe, payloads@.len())
                    && final(self)@ == states.last(),
                Err(e) => {
                    &&& final(self)@ == old(self)@
                    &&& (e is Rng || exists|states: Seq<KpdcState>, planes: Seq<u64>, n: nat|
                        n < payloads@.len()
                        && rewrite_chain(old(self)@, states, planes, payload_pws(payloads@), payload_pts(payloads@), maxprobe, n)
                        && write_error(states.last(), payload_pws(payloads@)[n as int], payload_pts(payloads@)[n as int],
                            payload_pws(payloads@).take(n as int), maxprobe, None, e))
                },
            },
    {
        let ghost s0 = self@;
        let ghost pws = payload_pws(payloads@);
        let ghost pts = payload_pts(payloads@);
        let mut fresh: Vec<u8> = vec![0u8; self.block.len()];
        match fill_random(&mut fresh) {
            Ok(()) => {},
            Err(_) => {
                return Err(Error::Rng);
            },
        }
        let mut tmp = Kpdc { block: fresh, k: self.k, kdf: self.kdf, cipher: self.cipher };
        let ghost mut states: Seq<KpdcState> = seq![tmp@];
        let ghost mut planes: Seq<u64> = Seq::empty();
        let mut known: Vec<&str> = Vec::new();
        let mut i: usize = 0;
        while i < payloads.len()
            invariant
                self@ == s0,
                self.wf(),
                tmp.wf(),
                pws == payload_pws(payloads@),
                pts == payload_pts(payloads@),
                forall|t: int| 0 <= t < payloads@.len() ==> (#[trigger] payloads@[t]).0.spec_bytes().len() + 8 <= 0xFFFF_FFFF,
                forall|t: int| 0 <= t < payloads@.len() ==> ((#[trigger] payloads@[t]).1@.len() <= u32::MAX
                    ==> 8 * (payloads@[t].1@.len() + 68) <= usize::MAX),
                i <= payloads@.len(),
                known@.len() == i,
                pw_bytes_seq(known@) == pws.take(i as int),
                forall|t: int| 0 <= t < i ==> (#[trigger] known@[t]).spec_bytes().len() + 8 <= 0xFFFF_FFFF,
                rewrite_chain(s0, states, planes, pws, pts, maxprobe, i as nat),
                tmp@ == states.last(),
                tmp@.k == s0.k,
                tmp@.kdf == s0.kdf,
                tmp@.cipher == s0.cipher,
                tmp@.block.len() == s0.block.len(),
            decreases payloads@.len() - i,
        {
            let (pw, pt) = payloads[i];
            assert(pws[i as int] == pw.spec_bytes());
            assert(pts[i as int] == pt@);
            let ghost before = tmp@;
            match tmp.write(pw, pt, known.as_slice(), maxprobe, None) {
                Ok(p) => {
                    proof {
                        let ghost nstates = states.push(tmp@);
                        let ghost nplanes = planes.push(p);
                        assert forall|t: int| 0 <= t < i + 1 implies {
                            &&& spec_write_ok(nstates[t], nstates[t + 1], pws[t], pts[t], pws.take(t), maxprobe, None, #[trigger] nplanes[t])
                            &&& spec_read(nstates[t + 1], pws[t], maxprobe) == Some(pts[t])
                            &&& spec_plane_of(nstates[t + 1], pws[t], maxprobe) == Some(nplanes[t])
                        } by {
                            if t < i {
                                assert(nplanes[t] == planes[t]);
                                assert(nstates[t] == states[t]);
                                assert(nstates[t + 1] == states[t + 1]);
                            } else {
                                assert(nstates[t] == before);
                                assert(nstates[t + 1] == tmp@);
                            }
                        }
                        states = nstates;
                        planes = nplanes;
                    }
                },
                Err(e) => {
                    assert(rewrite_chain(s0, states, planes, pws, pts, maxprobe, i as nat));
                    return Err(e);
                },
            }
            known.push(pw);
            i = i + 1;
            assert(pw_bytes_seq(known@) =~= pws.take(i as int));
        }
        self.block = tmp.block;
        assert(self@ == states.last());
        Ok(())
    }
}

/// A write keeps a payload found before it, as long as the two records do not accept
/// each other's password: if `q` (a known password) read `x` at plane `pq`, the new
/// record on `p` is not accepted under `q`, and `q`'s record is not accepted under the
/// writer's password `pw`, then `q` still reads `x` at `pq` afterwards.
pub proof fn lemma_write_keeps_payload(
    old: KpdcState,
    new: KpdcState,
    pw: Seq<u8>,
    pt: Seq<u8>,
    known: Seq<Seq<u8>>,
    maxprobe: usize,
    salt: Option<Seq<u8>>,
    p: u64,
    q: Seq<u8>,
    pq: u64,
    x: Seq<u8>,
)
    requires
        state_wf(old),
        spec_write_ok(old, new, pw, pt, known, maxprobe, salt, p),
        known.contains(q),
        spec_locate(old, q, maxprobe) == Some((pq, x)),
        spec_probe(new, q, p) is None,
        spec_probe(old, pw, pq) is None,
    ensures
        spec_locate(new, q, maxprobe) == Some((pq, x)),
{
    let home_q = spec_home(q, old.k);
    let n = window(maxprobe, old.k);
    lemma_locate_found(old, q, home_q, 0, n);
    let r = choose|r: nat| #![trigger probe_plane(home_q, old.k, r)]
        0 <= r < n
        && locate_from(old, q, home_q, 0, n) == Some((probe_plane(home_q, old.k, r), spec_probe(old, q, probe_plane(home_q, old.k, r)).unwrap()))
        && spec_probe(old, q, probe_plane(home_q, old.k, r)) is Some
        && forall|jj: nat| 0 <= jj < r ==> spec_probe(old, q, #[trigger] probe_plane(home_q, old.k, jj)) is None;
    assert(pq == probe_plane(home_q, old.k, r));
    // the written plane is not q's plane
    let i = choose|i: int| 0 <= i < known.len() && known[i] == q;
    assert(spec_plane_of(old, known[i], maxprobe) == Some(pq));
    assert(known_planes(old, known, maxprobe).contains(pq));
    if spec_locate(old, pw, maxprobe) is Some {
        let home_w = spec_home(pw, old.k);
        lemma_locate_found(old, pw, home_w, 0, n);
    } else {
        lemma_first_free(spec_home(pw, old.k), old.k, known_planes(old, known, maxprobe), 0, n);
    }
    assert(p != pq);
    let (sv, ts) = choose|sv: Seq<u8>, ts: Seq<u64>|
        #![trigger record_placed(old.block, new.block, old.k, p, ts, to_bits(spec_record(pw, old, sv, pt)))]
        sv.len() == 16 && (salt matches Some(xx) ==> sv == xx)
        && walk_slots(slot_seed(spec_prk(pw, old.k), p), slots_of(old, p) as u64, record_bits(pt.len())) == Some(ts)
        && record_placed(old.block, new.block, old.k, p, ts, to_bits(spec_record(pw, old, sv, pt)));
    // every plane other than p keeps its bits, hence its yield
    assert forall|qq: u64| qq < old.k && qq != p implies spec_probe(new, q, qq) == spec_probe(old, q, qq) by {
        assert forall|t: nat| t < slots_of(old, qq) implies #[trigger] bit_at(old.block, global_bit(t, old.k as nat, qq as nat) as int)
            == bit_at(new.block, global_bit(t, old.k as nat, qq as nat) as int) by {
            let h = global_bit(t, old.k as nat, qq as nat);
            lemma_global_in_range(nbits(old), old.k as nat, qq as nat, t);
            assert forall|tt: int| 0 <= tt < ts.len() implies h != #[trigger] global_bit(ts[tt] as nat, old.k as nat, p as nat) by {
                if h == global_bit(ts[tt] as nat, old.k as nat, p as nat) {
                    lemma_global_injective(old.k as nat, t, qq as nat, ts[tt] as nat, p as nat);
                }
            }
        }
        lemma_probe_frame(old, new, q, qq);
    }
    assert forall|jj: nat| jj < r implies spec_probe(new, q, #[trigger] probe_plane(home_q, old.k, jj)) is None by {
        lemma_probe_plane_bound(home_q, old.k, jj);
    }
    lemma_probe_plane_bound(home_q, old.k, r);
    lemma_locate_at(new, q, home_q, 0, n, r);
}

/// A write under a given salt is deterministic: two successful writes of the same payload
/// under the same password, known passwords, probe bound and salt into the same container
/// use the same plane and give the same container.
pub proof fn lemma_salted_write_deterministic(
    old: KpdcState,
    new1: KpdcState,
    new2: KpdcState,
    pw: Seq<u8>,
    pt: Seq<u8>,
    known: Seq<Seq<u8>>,
    maxprobe: usize,
    salt: Seq<u8>,
    p1: u64,
    p2: u64,
)
    requires
        spec_write_ok(old, new1, pw, pt, known, maxprobe, Some(salt), p1),
        spec_write_ok(old, new2, pw, pt, known, maxprobe, Some(salt), p2),
    ensures
        p1 == p2,
        new1 == new2,
{
    let p = p1;
    let bits = to_bits(spec_record(pw, old, salt, pt));
    let (sv1, ts1) = choose|sv: Seq<u8>, ts: Seq<u64>|
        #![trigger record_placed(old.block, new1.block, old.k, p, ts, to_bits(spec_record(pw, old, sv, pt)))]
        sv.len() == 16 && (Some(salt) matches Some(x) ==> sv == x)
        && walk_slots(slot_seed(spec_prk(pw, old.k), p), slots_of(old, p) as u64, record_bits(pt.len())) == Some(ts)
        && record_placed(old.block, new1.block, old.k, p, ts, to_bits(spec_record(pw, old, sv, pt)));
    let (sv2, ts2) = choose|sv: Seq<u8>, ts: Seq<u64>|
        #![trigger record_placed(old.block, new2.block, old.k, p, ts, to_bits(spec_record(pw, old, sv, pt)))]
        sv.len() == 16 && (Some(salt) matches Some(x) ==> sv == x)
        && walk_slots(slot_seed(spec_prk(pw, old.k), p), slots_of(old, p) as u64, record_bits(pt.len())) == Some(ts)
        && record_placed(old.block, new2.block, old.k, p, ts, to_bits(spec_record(pw, old, sv, pt)));
    assert(sv1 == salt && sv2 == salt && ts1 == ts2);
    assert forall|h: nat| h < 8 * new1.block.len() implies #[trigger] bit_at(new1.block, h as int) == bit_at(new2.block, h as int) by {
        if exists|j: int| 0 <= j < ts1.len() && h == #[trigger] global_bit(ts1[j] as nat, old.k as nat, p as nat) {
            let j = choose|j: int| 0 <= j < ts1.len() && h == #[trigger] global_bit(ts1[j] as nat, old.k as nat, p as nat);
            assert(bit_at(new1.block, global_bit(ts1[j] as nat, old.k as nat, p as nat) as int) == bits[j]);
            assert(bit_at(new2.block, global_bit(ts2[j] as nat, old.k as nat, p as nat) as int) == bits[j]);
        }
    }
    lemma_bits_determine_block(new1.block, new2.block);
}

/// Where a password is found: on one of the planes its read probes (below `K`), and
/// exactly when its payload reads; a zero probe bound finds nothing.
pub proof fn lemma_found_in_window(s: KpdcState, pw: Seq<u8>, maxprobe: usize)
    requires
        state_wf(s),
    ensures
        spec_plane_of(s, pw, maxprobe) is Some <==> spec_read(s, pw, maxprobe) is Some,
        maxprobe == 0 ==> spec_plane_of(s, pw, maxprobe) is None,
        spec_plane_of(s, pw, maxprobe) matches Some(p) ==> p < s.k && exists|i: nat|
            i < window(maxprobe, s.k) && p == #[trigger] probe_plane(spec_home(pw, s.k), s.k, i),
{
    let home = spec_home(pw, s.k);
    let w = window(maxprobe, s.k);
    if spec_locate(s, pw, maxprobe) is Some {
        lemma_locate_found(s, pw, home, 0, w);
        let r = choose|r: nat| #![trigger probe_plane(home, s.k, r)]
            0 <= r < w
            && locate_from(s, pw, home, 0, w) == Some((probe_plane(home, s.k, r), spec_probe(s, pw, probe_plane(home, s.k, r)).unwrap()))
            && spec_probe(s, pw, probe_plane(home, s.k, r)) is Some
            && forall|jj: nat| 0 <= jj < r ==> spec_probe(s, pw, #[trigger] probe_plane(home, s.k, jj)) is None;
        lemma_probe_plane_bound(home, s.k, r);
    }
}

/// A larger probe bound finds a password where a smaller one does, with the same payload.
pub proof fn lemma_locate_monotone(s: KpdcState, pw: Seq<u8>, m1: usize, m2: usize)
    requires
        state_wf(s),
        m1 <= m2,
        spec_locate(s, pw, m1) is Some,
    ensures
        spec_locate(s, pw, m2) == spec_locate(s, pw, m1),
        spec_plane_of(s, pw, m2) == spec_plane_of(s, pw, m1),
        spec_read(s, pw, m2) == spec_read(s, pw, m1),
{
    let home = spec_home(pw, s.k);
    let w1 = window(m1, s.k);
    let w2 = window(m2, s.k);
    lemma_locate_found(s, pw, home, 0, w1);
    let r = choose|r: nat| #![trigger probe_plane(home, s.k, r)]
        0 <= r < w1
        && locate_from(s, pw, home, 0, w1) == Some((probe_plane(home, s.k, r), spec_probe(s, pw, probe_plane(home, s.k, r)).unwrap()))
        && spec_probe(s, pw, probe_plane(home, s.k, r)) is Some
        && forall|jj: nat| 0 <= jj < r ==> spec_probe(s, pw, #[trigger] probe_plane(home, s.k, jj)) is None;
    lemma_locate_at(s, pw, home, 0, w2, r);
}

/// A successful write changes bits of its own plane only: `p < K`, the block keeps its
/// length, and every bit `g` with `g % K != p` is unchanged.
pub proof fn lemma_write_touches_one_plane(
    old: KpdcState,
    new: KpdcState,
    pw: Seq<u8>,
    pt: Seq<u8>,
    known: Seq<Seq<u8>>,
    maxprobe: usize,
    salt: Option<Seq<u8>>,
    p: u64,
)
    requires
        state_wf(old),
        spec_write_ok(old, new, pw, pt, known, maxprobe, salt, p),
    ensures
        p < old.k,
        new.block.len() == old.block.len(),
        forall|g: nat| g < 8 * old.block.len() && g % (old.k as nat) != p ==> #[trigger] bit_at(new.block, g as int) == bit_at(old.block, g as int),
{
    let home = spec_home(pw, old.k);
    let w = window(maxprobe, old.k);
    if spec_locate(old, pw, maxprobe) is Some {
        lemma_locate_found(old, pw, home, 0, w);
        let r = choose|r: nat| #![trigger probe_plane(home, old.k, r)]
            0 <= r < w
            && locate_from(old, pw, home, 0, w) == Some((probe_plane(home, old.k, r), spec_probe(old, pw, probe_plane(home, old.k, r)).unwrap()))
            && spec_probe(old, pw, probe_plane(home, old.k, r)) is Some
            && forall|jj: nat| 0 <= jj < r ==> spec_probe(old, pw, #[trigger] probe_plane(home, old.k, jj)) is None;
        lemma_probe_plane_bound(home, old.k, r);
    } else {
        let occ = known_planes(old, known, maxprobe);
        lemma_first_free(home, old.k, occ, 0, w);
        let r = choose|r: nat| #![trigger probe_plane(home, old.k, r)]
            0 <= r < w && first_free(home, old.k, occ, 0, w) == Some(probe_plane(home, old.k, r))
            && !occ.contains(probe_plane(home, old.k, r));
        lemma_probe_plane_bound(home, old.k, r);
    }
    let (sv, ts) = choose|sv: Seq<u8>, ts: Seq<u64>|
        #![trigger record_placed(old.block, new.block, old.k, p, ts, to_bits(spec_record(pw, old, sv, pt)))]
        sv.len() == 16 && (salt matches Some(x) ==> sv == x)
        && walk_slots(slot_seed(spec_prk(pw, old.k), p), slots_of(old, p) as u64, record_bits(pt.len())) == Some(ts)
        && record_placed(old.block, new.block, old.k, p, ts, to_bits(spec_record(pw, old, sv, pt)));
    lemma_walk_slots_props(slot_seed(spec_prk(pw, old.k), p), slots_of(old, p) as u64, record_bits(pt.len()));
    assert forall|g: nat| g < 8 * old.block.len() && g % (old.k as nat) != p implies #[trigger] bit_at(new.block, g as int) == bit_at(old.block, g as int) by {
        assert forall|j: int| 0 <= j < ts.len() implies g != #[trigger] global_bit(ts[j] as nat, old.k as nat, p as nat) by {
            lemma_global_in_range(nbits(old), old.k as nat, p as nat, ts[j] as nat);
        }
    }
}

/// Records of a rewrite that do not accept each other's passwords: for earlier payload
/// `i` and later payload `j`, `j`'s record is not accepted under `i`'s password and `i`'s
/// record is not accepted under `j`'s password (a password given twice breaks this).
pub open spec fn rewrite_separated(states: Seq<KpdcState>, planes: Seq<u64>, pws: Seq<Seq<u8>>, n: nat) -> bool {
    forall|i: int, j: int| 0 <= i < j < n ==> {
        &&& spec_probe(states[j + 1], pws[i], #[trigger] planes[j]) is None
        &&& spec_probe(states[j], pws[j], #[trigger] planes[i]) is None
    }
}

proof fn lemma_rewrite_keeps_one(
    old: KpdcState,
    states: Seq<KpdcState>,
    planes: Seq<u64>,
    pws: Seq<Seq<u8>>,
    pts: Seq<Seq<u8>>,
    maxprobe: usize,
    n: nat,
    i: int,
    m: int,
)
    requires
        rewrite_chain(old, states, planes, pws, pts, maxprobe, n),
        rewrite_separated(states, planes, pws, n),
        0 <= i < m <= n,
    ensures
        spec_locate(states[m], pws[i], maxprobe) == Some((planes[i], pts[i])),
    decreases m - i,
{
    if m == i + 1 {
        assert(planes[i] == planes[i]);
    } else {
        lemma_rewrite_keeps_one(old, states, planes, pws, pts, maxprobe, n, i, m - 1);
        let j = m - 1;
        assert(planes[j] == planes[j]);
        assert(pws.take(j)[i] == pws[i]);
        assert(pws.take(j).contains(pws[i]));
        assert(spec_probe(states[j + 1], pws[i], planes[j]) is None);
        assert(spec_probe(states[j], pws[j], planes[i]) is None);
        lemma_write_keeps_payload(
            states[j], states[j + 1], pws[j], pts[j], pws.take(j), maxprobe, None, planes[j],
            pws[i], planes[i], pts[i],
        );
    }
}

/// The states of a rewrite keep the container's credential parameters.
pub(crate) proof fn lemma_chain_params(
    old: KpdcState,
    states: Seq<KpdcState>,
    planes: Seq<u64>,
    pws: Seq<Seq<u8>>,
    pts: Seq<Seq<u8>>,
    maxprobe: usize,
    n: nat,
    i: int,
)
    requires
        rewrite_chain(old, states, planes, pws, pts, maxprobe, n),
        0 <= i <= n,
    ensures
        states[i].k == old.k,
        states[i].kdf == old.kdf,
        states[i].cipher == old.cipher,
    decreases i,
{
    if i > 0 {
        lemma_chain_params(old, states, planes, pws, pts, maxprobe, n, i - 1);
        assert(spec_write_ok(states[i - 1], states[i], pws[i - 1], pts[i - 1], pws.take(i - 1), maxprobe, None, planes[i - 1]));
    }
}

/// The payloads of a whole-block rewrite whose records do not accept each other's
/// passwords lie on distinct planes below `K`, so a rewrite places at most `K` of them.
pub proof fn lemma_rewrite_planes_distinct(
    old: KpdcState,
    states: Seq<KpdcState>,
    planes: Seq<u64>,
    pws: Seq<Seq<u8>>,
    pts: Seq<Seq<u8>>,
    maxprobe: usize,
    n: nat,
)
    requires
        rewrite_chain(old, states, planes, pws, pts, maxprobe, n),
        rewrite_separated(states, planes, pws, n),
    ensures
        forall|i: int, j: int| 0 <= i < j < n ==> planes[i] != planes[j],
        forall|i: int| 0 <= i < n ==> planes[i] < old.k,
        n <= old.k,
{
    assert forall|j: int| 0 <= j < n implies #[trigger] planes[j] < old.k by {
        lemma_chain_params(old, states, planes, pws, pts, maxprobe, n, j);
        let s = states[j];
        assert(spec_write_ok(states[j], states[j + 1], pws[j], pts[j], pws.take(j), maxprobe, None, planes[j]));
        let home = spec_home(pws[j], s.k);
        let w = window(maxprobe, s.k);
        if spec_locate(s, pws[j], maxprobe) is Some {
            lemma_locate_found(s, pws[j], home, 0, w);
            let r = choose|r: nat| #![trigger probe_plane(home, s.k, r)]
                0 <= r < w
                && locate_from(s, pws[j], home, 0, w) == Some((probe_plane(home, s.k, r), spec_probe(s, pws[j], probe_plane(home, s.k, r)).unwrap()))
                && spec_probe(s, pws[j], probe_plane(home, s.k, r)) is Some
                && forall|jj: nat| 0 <= jj < r ==> spec_probe(s, pws[j], #[trigger] probe_plane(home, s.k, jj)) is None;
            lemma_probe_plane_bound(home, s.k, r);
        } else {
            let occ = known_planes(s, pws.take(j), maxprobe);
            lemma_first_free(home, s.k, occ, 0, w);
            let r = choose|r: nat| #![trigger probe_plane(home, s.k, r)]
                0 <= r < w && first_free(home, s.k, occ, 0, w) == Some(probe_plane(home, s.k, r))
                && !occ.contains(probe_plane(home, s.k, r));
            lemma_probe_plane_bound(home, s.k, r);
        }
    }
    assert forall|i: int, j: int| 0 <= i < j < n implies planes[i] != planes[j] by {
        lemma_rewrite_keeps_one(old, states, planes, pws, pts, maxprobe, n, i, j);
        let s = states[j];
        assert(spec_write_ok(states[j], states[j + 1], pws[j], pts[j], pws.take(j), maxprobe, None, planes[j]));
        let occ = known_planes(s, pws.take(j), maxprobe);
        assert(pws.take(j)[i] == pws[i]);
        assert(spec_plane_of(s, pws.take(j)[i], maxprobe) == Some(planes[i]));
        assert(occ.contains(planes[i]));
        let home = spec_home(pws[j], s.k);
        let w = window(maxprobe, s.k);
        if spec_locate(s, pws[j], maxprobe) is Some {
            lemma_locate_found(s, pws[j], home, 0, w);
            let r = choose|r: nat| #![trigger probe_plane(home, s.k, r)]
                0 <= r < w
                && locate_from(s, pws[j], home, 0, w) == Some((probe_plane(home, s.k, r), spec_probe(s, pws[j], probe_plane(home, s.k, r)).unwrap()))
                && spec_probe(s, pws[j], probe_plane(home, s.k, r)) is Some
                && forall|jj: nat| 0 <= jj < r ==> spec_probe(s, pws[j], #[trigger] probe_plane(home, s.k, jj)) is None;
            assert(spec_probe(states[j], pws[j], planes[i]) is None);
        } else {
            lemma_first_free(home, s.k, occ, 0, w);
        }
    }
    let ps = planes.take(n as int).map_values(|p: u64| p as int);
    assert(ps.no_duplicates()) by {
        assert forall|a: int, b: int| 0 <= a < ps.len() && 0 <= b < ps.len() && a != b implies ps[a] != ps[b] by {
            if a < b {
                assert(planes[a] != planes[b]);
            } else {
                assert(planes[b] != planes[a]);
            }
        }
    }
    ps.unique_seq_to_set();
    lemma_int_range(0, old.k as int);
    assert(ps.to_set().subset_of(set_int_range(0, old.k as int))) by {
        assert forall|x: int| ps.to_set().contains(x) implies set_int_range(0, old.k as int).contains(x) by {
            let a = choose|a: int| 0 <= a < ps.len() && ps[a] == x;
            assert(planes[a] < old.k);
        }
    }
    lemma_len_subset(ps.to_set(), set_int_range(0, old.k as int));
}

/// After a whole-block rewrite whose records do not accept each other's passwords, every
/// payload reads back from the plane it was written to.
pub proof fn lemma_rewrite_all_readable(
    old: KpdcState,
    states: Seq<KpdcState>,
    planes: Seq<u64>,
    pws: Seq<Seq<u8>>,
    pts: Seq<Seq<u8>>,
    maxprobe: usize,
)
    requires
        rewrite_chain(old, states, planes, pws, pts, maxprobe, pws.len()),
        rewrite_separated(states, planes, pws, pws.len()),
    ensures
        forall|i: int| 0 <= i < pws.len() ==> spec_read(states.last(), #[trigger] pws[i], maxprobe) == Some(pts[i]),
        forall|i: int| 0 <= i < pws.len() ==> spec_plane_of(states.last(), #[trigger] pws[i], maxprobe) == Some(planes[i]),
{
    assert forall|i: int| 0 <= i < pws.len() implies spec_locate(states.last(), #[trigger] pws[i], maxprobe) == Some((planes[i], pts[i])) by {
        lemma_rewrite_keeps_one(old, states, planes, pws, pts, maxprobe, pws.len(), i, pws.len() as int);
    }
}

} // verus!
