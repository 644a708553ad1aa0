//! The cryptographic primitives the container is built from, each one a thin call into
//! its RustCrypto crate. The functions here are trusted: Verus believes their contracts.
//! Every contract says only what the crate's source shows, and names the result of a
//! primitive whose output takes pages to define.

use vstd::prelude::*;

use sha3::digest::{ExtendableOutput, Update, XofReader};
use sha2::Digest;
use hmac::Mac;
use ctr::cipher::{KeyIvInit, StreamCipher};
use subtle::ConstantTimeEq;
use getrandom::Error as RandomSourceError;
use zeroize::Zeroizing;

verus! {

/// Byte `i` of the SHAKE256 output stream on `input` (an extendable-output function: the
/// stream is infinite and each byte depends on `input` and its position only).
pub uninterp spec fn shake256_byte(input: Seq<u8>, i: nat) -> u8;

/// The SHA-256 digest of `data`.
pub uninterp spec fn sha256_digest(data: Seq<u8>) -> Seq<u8>;

/// The HMAC-SHA256 tag of `msg` under `key`.
pub uninterp spec fn hmac_sha256_tag(key: Seq<u8>, msg: Seq<u8>) -> Seq<u8>;

/// The 32-byte Argon2id (version 0x13) hash of `pwd` under `salt` with the given
/// memory (KiB), time and parallelism costs.
pub uninterp spec fn argon2id_hash(pwd: Seq<u8>, salt: Seq<u8>, m_cost: u32, t_cost: u32, p_cost: u32) -> Seq<u8>;

/// Byte `i` of the AES-256-CTR keystream (128-bit big-endian counter) for `key` and
/// initial counter block `iv`: a counter-mode stream, so each byte depends on the key,
/// the initial block and its position only.
pub uninterp spec fn aes256_ctr_byte(key: Seq<u8>, iv: Seq<u8>, i: nat) -> u8;

/// The first `len` bytes of the AES-256-CTR keystream for `key` and `iv`.
pub open spec fn aes256_ctr_keystream(key: Seq<u8>, iv: Seq<u8>, len: nat) -> Seq<u8> {
    Seq::new(len, |i: int| aes256_ctr_byte(key, iv, i as nat))
}

/// Byte `i` of the IETF ChaCha20 keystream (block counter from 0) for `key` and `nonce`:
/// each byte depends on the key, the nonce and its position only.
pub uninterp spec fn chacha20_byte(key: Seq<u8>, nonce: Seq<u8>, i: nat) -> u8;

/// The first `len` bytes of the IETF ChaCha20 keystream for `key` and `nonce`.
pub open spec fn chacha20_keystream(key: Seq<u8>, nonce: Seq<u8>, len: nat) -> Seq<u8> {
    Seq::new(len, |i: int| chacha20_byte(key, nonce, i as nat))
}

/// The first `n` bytes of the SHAKE256 stream on `input`.
pub open spec fn shake256_prefix(input: Seq<u8>, n: nat) -> Seq<u8> {
    Seq::new(n, |i: int| shake256_byte(input, i as nat))
}

/// A SHAKE256 output stream in the middle of being read (a `sha3::Shake256Reader`).
#[verifier::external_body]
pub struct XofStream {
    reader: sha3::Shake256Reader,
}

/// The bytes absorbed before the stream was opened.
pub uninterp spec fn xof_absorbed(s: XofStream) -> Seq<u8>;

/// The output bytes already read from the stream.
pub uninterp spec fn xof_squeezed(s: XofStream) -> Seq<u8>;

/// Absorbs `input` into a fresh `sha3::Shake256` and finalizes it
/// (`Update::update`, `ExtendableOutput::finalize_xof`): a stream at position 0.
#[verifier::external_body]
pub(crate) fn xof_open(input: &[u8]) -> (s: XofStream)
    ensures
        xof_absorbed(s) == input@,
        xof_squeezed(s) == Seq::<u8>::empty(),
{
    let mut h = sha3::Shake256::default();
    h.update(input);
    XofStream { reader: h.finalize_xof() }
}

/// Reads the next `n` bytes of the stream (`XofReader::read`): they are the stream's
/// bytes at the current position, which then advances by `n`.
#[verifier::external_body]
pub(crate) fn xof_squeeze(s: &mut XofStream, n: usize) -> (out: Vec<u8>)
    ensures
        out@ == Seq::new(n as nat, |i: int| shake256_byte(xof_absorbed(*old(s)), (xof_squeezed(*old(s)).len() + i) as nat)),
        xof_absorbed(*final(s)) == xof_absorbed(*old(s)),
        xof_squeezed(*final(s)) == xof_squeezed(*old(s)) + out@,
{
    let mut out = vec![0u8; n];
    s.reader.read(&mut out);
    out
}

/// SHA-256 of `data` (`sha2::Sha256::digest`); the digest is 32 bytes.
#[verifier::external_body]
pub(crate) fn sha256(data: &[u8]) -> (d: Vec<u8>)
    ensures
        d@ == sha256_digest(data@),
        d@.len() == 32,
{
    sha2::Sha256::digest(data).to_vec()
}

/// HMAC-SHA256 of `msg` under `key` (`hmac::Hmac<Sha256>`). `new_from_slice` accepts a key
/// of any length (longer keys are hashed first), so it never fails; the tag is 32 bytes.
#[verifier::external_body]
pub(crate) fn hmac_sha256(key: &[u8], msg: &[u8]) -> (tag: Vec<u8>)
    ensures
        tag@ == hmac_sha256_tag(key@, msg@),
        tag@.len() == 32,
{
    let mut m = <hmac::Hmac<sha2::Sha256> as Mac>::new_from_slice(key).unwrap();
    Mac::update(&mut m, msg);
    m.finalize().into_bytes().to_vec()
}

/// Whether `argon2::Params::new(m_cost, t_cost, p_cost, Some(32))` accepts the costs.
/// Its source checks `m_cost >= 8` (two blocks per sync point), `m_cost >= 8 * p_cost`,
/// `t_cost >= 1`, `1 <= p_cost <= 0xFFFFFF`, and `4 <= 32 <= 0xFFFFFFFF` for the output.
/// The product `8 * p_cost` is formed before the upper bound on `p_cost` is checked, so
/// the call is only made for `p_cost <= 0xFFFFFF`.
#[verifier::external_body]
pub(crate) fn argon2_params_ok(m_cost: u32, t_cost: u32, p_cost: u32) -> (ok: bool)
    requires
        p_cost <= 0xFF_FFFF,
    ensures
        ok == (m_cost >= 8 && m_cost >= 8 * p_cost && t_cost >= 1 && p_cost >= 1),
{
    argon2::Params::new(m_cost, t_cost, p_cost, Some(32)).is_ok()
}

/// Argon2id v0x13 (`argon2::Argon2::hash_password_into`) of `pwd` under `salt` into a
/// 32-byte output. The call fails only on invalid costs, a password longer than
/// 0xFFFFFFFF bytes, or a salt outside 8..=0xFFFFFFFF bytes; all are excluded here.
/// How much memory the call allocates (`m_cost` KiB) is not stated.
#[verifier::external_body]
pub(crate) fn argon2id(pwd: &[u8], salt: &[u8], m_cost: u32, t_cost: u32, p_cost: u32) -> (out: Vec<u8>)
    requires
        m_cost >= 8,
        m_cost >= 8 * p_cost,
        t_cost >= 1,
        1 <= p_cost <= 0xFF_FFFF,
        pwd@.len() <= 0xFFFF_FFFF,
        8 <= salt@.len() <= 0xFFFF_FFFF,
    ensures
        out@ == argon2id_hash(pwd@, salt@, m_cost, t_cost, p_cost),
        out@.len() == 32,
{
    let params = argon2::Params::new(m_cost, t_cost, p_cost, Some(32)).unwrap();
    let a = argon2::Argon2::new(argon2::Algorithm::Argon2id, argon2::Version::V0x13, params);
    let mut out = vec![0u8; 32];
    a.hash_password_into(pwd, salt, &mut out).unwrap();
    out
}

/// `len` bytes of AES-256-CTR keystream: `ctr::Ctr128BE<aes::Aes256>` keyed with `key`
/// and initial counter block `iv`, applied to `len` zero bytes.
#[verifier::external_body]
pub(crate) fn aes256_ctr(key: &[u8], iv: &[u8], len: usize) -> (ks: Vec<u8>)
    requires
        key@.len() == 32,
        iv@.len() == 16,
    ensures
        ks@ == Seq::new(len as nat, |i: int| aes256_ctr_byte(key@, iv@, i as nat)),
        ks@.len() == len,
{
    let mut ks = vec![0u8; len];
    let mut c = ctr::Ctr128BE::<aes::Aes256>::new_from_slices(key, iv).unwrap();
    c.apply_keystream(&mut ks);
    ks
}

/// `len` bytes of IETF ChaCha20 keystream (`chacha20::ChaCha20`, 96-bit nonce, block
/// counter from 0) applied to `len` zero bytes. The 32-bit counter allows
/// `u32::MAX` blocks of 64 bytes, so any `len` below 2^32 fits.
#[verifier::external_body]
pub(crate) fn chacha20(key: &[u8], nonce: &[u8], len: usize) -> (ks: Vec<u8>)
    requires
        key@.len() == 32,
        nonce@.len() == 12,
        len <= 0xFFFF_FFFF,
    ensures
        ks@ == Seq::new(len as nat, |i: int| chacha20_byte(key@, nonce@, i as nat)),
        ks@.len() == len,
{
    let mut ks = vec![0u8; len];
    let mut c = chacha20::ChaCha20::new_from_slices(key, nonce).unwrap();
    c.apply_keystream(&mut ks);
    ks
}

/// Constant-time equality of two byte slices (`subtle::ConstantTimeEq` on `[u8]`): true
/// exactly when the lengths and all bytes agree.
#[verifier::external_body]
pub(crate) fn ct_eq(a: &[u8], b: &[u8]) -> (eq: bool)
    ensures
        eq == (a@ == b@),
{
    a.ct_eq(b).into()
}

#[verifier::external_type_specification]
#[verifier::external_body]
pub struct ExRandomSourceError(RandomSourceError);

/// Fills `buf` from the operating system's random source (`getrandom::getrandom`). The
/// bytes it writes are not stated (they are random); only the length is kept.
#[verifier::external_body]
pub(crate) fn fill_random(buf: &mut Vec<u8>) -> (r: Result<(), RandomSourceError>)
    ensures
        final(buf)@.len() == old(buf)@.len(),
{
    getrandom::getrandom(buf.as_mut_slice())
}

/// Plaintext bytes held in a `zeroize::Zeroizing<Vec<u8>>`, which wipes them when dropped.
/// Verus does not accept a declaration of `Zeroizing` (its `Zeroize` bound), so the wrapper
/// is held in a private field and its contents are named by `secret_bytes`.
#[verifier::external_body]
pub struct Secret {
    bytes: Zeroizing<Vec<u8>>,
}

/// The bytes a `Secret` holds.
pub uninterp spec fn secret_bytes(z: Secret) -> Seq<u8>;

/// Moves `v` into a `zeroize::Zeroizing` wrapper (`Zeroizing::new`), which holds it
/// unchanged and zeroes it on drop.
#[verifier::external_body]
pub(crate) fn secret_new(v: Vec<u8>) -> (z: Secret)
    ensures
        secret_bytes(z) == v@,
{
    Secret { bytes: Zeroizing::new(v) }
}

/// The bytes held by `z`, borrowed through `Zeroizing`'s `Deref` to the inner vector.
#[verifier::external_body]
pub(crate) fn secret_view(z: &Secret) -> (s: &[u8])
    ensures
        s@ == secret_bytes(*z),
{
    z.bytes.as_slice()
}

impl Secret {
    /// The plaintext bytes.
    pub fn as_slice(&self) -> (s: &[u8])
        ensures
            s@ == secret_bytes(*self),
    {
        secret_view(self)
    }

    /// A plain copy of the plaintext bytes (not wiped on drop).
    pub fn to_vec(&self) -> (v: Vec<u8>)
        ensures
            v@ == secret_bytes(*self),
    {
        let s = secret_view(self);
        let mut v: Vec<u8> = Vec::with_capacity(s.len());
        let mut i: usize = 0;
        while i < s.len()
            invariant
                i <= s@.len(),
                v@ == s@.subrange(0, i as int),
            decreases s@.len() - i,
        {
            v.push(s[i]);
            i = i + 1;
        }
        v
    }
}

} // verus!
