//! Key and mask derivations of the container format. Every derived value comes from
//! SHA-256, SHAKE256 or Argon2id over the password, `K`, a per-write salt and an ASCII
//! domain-separation label. Key material (the locator, the master key, the token, the
//! length mask, the MAC key, the keystream, and the buffers they are hashed from) is held
//! in a [`Secret`], which wipes it when dropped.

use vstd::prelude::*;

use crate::bits::{be_u64_bytes, u64_to_be};
use crate::primitives::{
    aes256_ctr, aes256_ctr_keystream, argon2id, argon2id_hash, chacha20, chacha20_keystream,
    secret_bytes, secret_new, sha256, sha256_digest, shake256_prefix, xof_open, xof_squeeze,
    Secret,
};

verus! {

/// Bytes of a per-write salt.
pub const SALT_BYTES: usize = 16;
/// Bytes of the recognition token.
pub const TOKEN_BYTES: usize = 16;
/// Bytes of the payload length field.
pub const LEN_BYTES: usize = 4;
/// Bytes of the HMAC-SHA256 integrity tag.
pub const TAG_BYTES: usize = 32;
/// Bytes before the ciphertext: salt, token and length field.
pub const HEAD_BYTES: usize = 36;

/// The ASCII domain-separation labels.
#[derive(Clone, Copy)]
pub enum Label {
    Home,
    Slots,
    SaltMask,
    Token,
    Len,
    Mac,
    Stream,
    StreamAes256Ctr,
    StreamChaCha20,
    CipherAes256Ctr,
    CipherChaCha20,
}

/// The ASCII bytes of a label.
pub open spec fn label_bytes(l: Label) -> Seq<u8> {
    match l {
        // "home"
        Label::Home => seq![0x68u8, 0x6f, 0x6d, 0x65],
        // "slots"
        Label::Slots => seq![0x73u8, 0x6c, 0x6f, 0x74, 0x73],
        // "saltmask"
        Label::SaltMask => seq![0x73u8, 0x61, 0x6c, 0x74, 0x6d, 0x61, 0x73, 0x6b],
        // "token"
        Label::Token => seq![0x74u8, 0x6f, 0x6b, 0x65, 0x6e],
        // "len"
        Label::Len => seq![0x6cu8, 0x65, 0x6e],
        // "mac"
        Label::Mac => seq![0x6du8, 0x61, 0x63],
        // "stream"
        Label::Stream => seq![0x73u8, 0x74, 0x72, 0x65, 0x61, 0x6d],
        // "stream-aes256ctr"
        Label::StreamAes256Ctr => seq![0x73u8, 0x74, 0x72, 0x65, 0x61, 0x6d, 0x2d, 0x61, 0x65, 0x73, 0x32, 0x35, 0x36, 0x63, 0x74, 0x72],
        // "stream-chacha20"
        Label::StreamChaCha20 => seq![0x73u8, 0x74, 0x72, 0x65, 0x61, 0x6d, 0x2d, 0x63, 0x68, 0x61, 0x63, 0x68, 0x61, 0x32, 0x30],
        // "aes256ctr"
        Label::CipherAes256Ctr => seq![0x61u8, 0x65, 0x73, 0x32, 0x35, 0x36, 0x63, 0x74, 0x72],
        // "chacha20"
        Label::CipherChaCha20 => seq![0x63u8, 0x68, 0x61, 0x63, 0x68, 0x61, 0x32, 0x30],
    }
}

pub(crate) fn label(l: Label) -> (v: Vec<u8>)
    ensures
        v@ == label_bytes(l),
{
    let v = match l {
        Label::Home => vec![0x68u8, 0x6f, 0x6d, 0x65],
        Label::Slots => vec![0x73u8, 0x6c, 0x6f, 0x74, 0x73],
        Label::SaltMask => vec![0x73u8, 0x61, 0x6c, 0x74, 0x6d, 0x61, 0x73, 0x6b],
        Label::Token => vec![0x74u8, 0x6f, 0x6b, 0x65, 0x6e],
        Label::Len => vec![0x6cu8, 0x65, 0x6e],
        Label::Mac => vec![0x6du8, 0x61, 0x63],
        Label::Stream => vec![0x73u8, 0x74, 0x72, 0x65, 0x61, 0x6d],
        Label::StreamAes256Ctr => vec![0x73u8, 0x74, 0x72, 0x65, 0x61, 0x6d, 0x2d, 0x61, 0x65, 0x73, 0x32, 0x35, 0x36, 0x63, 0x74, 0x72],
        Label::StreamChaCha20 => vec![0x73u8, 0x74, 0x72, 0x65, 0x61, 0x6d, 0x2d, 0x63, 0x68, 0x61, 0x63, 0x68, 0x61, 0x32, 0x30],
        Label::CipherAes256Ctr => vec![0x61u8, 0x65, 0x73, 0x32, 0x35, 0x36, 0x63, 0x74, 0x72],
        Label::CipherChaCha20 => vec![0x63u8, 0x68, 0x61, 0x63, 0x68, 0x61, 0x32, 0x30],
    };
    assert(v@ =~= label_bytes(l));
    v
}

/// `a` followed by `b`.
pub(crate) fn cat(a: &[u8], b: &[u8]) -> (v: Vec<u8>)
    ensures
        v@ == a@ + b@,
{
    let mut v: Vec<u8> = Vec::new();
    v.extend_from_slice(a);
    v.extend_from_slice(b);
    assert(v@ =~= a@ + b@);
    v
}

/// Bytes `lo .. hi` of `a`.
pub(crate) fn byte_range(a: &[u8], lo: usize, hi: usize) -> (v: Vec<u8>)
    requires
        lo <= hi <= a@.len(),
    ensures
        v@ == a@.subrange(lo as int, hi as int),
{
    let mut v: Vec<u8> = Vec::with_capacity(hi - lo);
    let mut i = lo;
    while i < hi
        invariant
            lo <= i <= hi <= a@.len(),
            v@ == a@.subrange(lo as int, i as int),
        decreases hi - i,
    {
        v.push(a[i]);
        i = i + 1;
        assert(v@ =~= a@.subrange(lo as int, i as int));
    }
    v
}

/// A copy of `a`.
pub(crate) fn u8_copy(a: &[u8]) -> (v: Vec<u8>)
    ensures
        v@ == a@,
{
    let v = byte_range(a, 0, a.len());
    assert(v@ =~= a@);
    v
}

/// The first `n` bytes of SHAKE256 on `input`.
pub(crate) fn shake(input: &[u8], n: usize) -> (out: Vec<u8>)
    ensures
        out@ == shake256_prefix(input@, n as nat),
{
    let mut s = xof_open(input);
    let out = xof_squeeze(&mut s, n);
    assert(out@ =~= shake256_prefix(input@, n as nat));
    out
}

/// The payload cipher, chosen with the credential and never stored.
#[derive(Clone, Copy, Debug, PartialEq, Eq, Structural, Default)]
pub enum Cipher {
    /// AES-256 in CTR mode (the default), key and 128-bit big-endian counter derived
    /// from the master key.
    #[default]
    Aes256Ctr,
    /// IETF ChaCha20, key and 96-bit nonce derived from the master key.
    ChaCha20,
    /// SHAKE256 read directly as the keystream.
    Shake256,
}

/// The label that binds the cipher into the token and MAC key (empty for SHAKE256).
pub open spec fn cipher_tag(c: Cipher) -> Seq<u8> {
    match c {
        Cipher::Aes256Ctr => label_bytes(Label::CipherAes256Ctr),
        Cipher::ChaCha20 => label_bytes(Label::CipherChaCha20),
        Cipher::Shake256 => Seq::empty(),
    }
}

pub(crate) fn cipher_tag_exec(c: Cipher) -> (v: Vec<u8>)
    ensures
        v@ == cipher_tag(c),
{
    match c {
        Cipher::Aes256Ctr => label(Label::CipherAes256Ctr),
        Cipher::ChaCha20 => label(Label::CipherChaCha20),
        Cipher::Shake256 => {
            let v: Vec<u8> = Vec::new();
            assert(v@ =~= Seq::<u8>::empty());
            v
        },
    }
}

/// The password's public key-locator: SHA-256 of `pw || K` (big-endian).
pub open spec fn spec_prk(pw: Seq<u8>, k: u64) -> Seq<u8> {
    sha256_digest(pw + be_u64_bytes(k))
}

pub(crate) fn prk(pw: &[u8], k: u64) -> (r: Secret)
    ensures
        secret_bytes(r) == spec_prk(pw@, k),
        secret_bytes(r).len() == 32,
{
    let kb = u64_to_be(k);
    let input = secret_new(cat(pw, kb.as_slice()));
    secret_new(sha256(input.as_slice()))
}

/// The stream that chooses the password's home plane.
pub open spec fn home_seed(prk: Seq<u8>) -> Seq<u8> {
    prk + label_bytes(Label::Home)
}

/// The stream that walks the slots of one plane.
pub open spec fn slot_seed(prk: Seq<u8>, plane: u64) -> Seq<u8> {
    prk + label_bytes(Label::Slots) + be_u64_bytes(plane)
}

pub(crate) fn slot_seed_exec(prk: &[u8], plane: u64) -> (s: Secret)
    ensures
        secret_bytes(s) == slot_seed(prk@, plane),
{
    let l = label(Label::Slots);
    let a = secret_new(cat(prk, l.as_slice()));
    let pb = u64_to_be(plane);
    secret_new(cat(a.as_slice(), pb.as_slice()))
}

/// The stream that chooses the home plane, from the locator.
pub(crate) fn home_seed_exec(prk: &[u8]) -> (s: Secret)
    ensures
        secret_bytes(s) == home_seed(prk@),
{
    let l = label(Label::Home);
    secret_new(cat(prk, l.as_slice()))
}

/// The 16-byte mask that hides the stored salt.
pub open spec fn spec_smask(prk: Seq<u8>) -> Seq<u8> {
    shake256_prefix(prk + label_bytes(Label::SaltMask), 16)
}

pub(crate) fn smask(prk: &[u8]) -> (m: Vec<u8>)
    ensures
        m@ == spec_smask(prk@),
        m@.len() == 16,
{
    let l = label(Label::SaltMask);
    let input = secret_new(cat(prk, l.as_slice()));
    shake(input.as_slice(), 16)
}

/// Memory-hard KDF cost. Part of the credential: read and write must use the same
/// values, since nothing is stored in the block.
#[derive(Clone, Copy, Debug)]
pub struct KdfParams {
    pub mem_kib: u32,
    pub iters: u32,
    pub lanes: u32,
}

impl KdfParams {
    /// Recommended production cost (256 MiB, 3 passes, 1 lane), the default. Deliberately
    /// heavy to make offline guessing against the recognition token impractical.
    pub fn recommended() -> (p: KdfParams)
        ensures
            p.mem_kib == 262_144,
            p.iters == 3,
            p.lanes == 1,
    {
        KdfParams { mem_kib: 262_144, iters: 3, lanes: 1 }
    }

    /// **Insecure.** A low cost (8 MiB, 1 pass) for high-volume statistical and fuzz tests
    /// only, whose properties do not depend on the KDF cost. Never use for real data.
    pub fn insecure_fast_test() -> (p: KdfParams)
        ensures
            p.mem_kib == 8_192,
            p.iters == 1,
            p.lanes == 1,
    {
        KdfParams { mem_kib: 8_192, iters: 1, lanes: 1 }
    }
}

impl Default for KdfParams {
    fn default() -> (p: KdfParams)
        ensures
            p.mem_kib == 262_144,
            p.iters == 3,
            p.lanes == 1,
    {
        KdfParams::recommended()
    }
}

/// The costs that Argon2id accepts (see `primitives::argon2_params_ok`).
pub open spec fn kdf_valid(p: KdfParams) -> bool {
    p.mem_kib >= 8 && p.mem_kib >= 8 * p.lanes && p.iters >= 1 && 1 <= p.lanes <= 0xFF_FFFF
}

/// The master key of one write: Argon2id over `pw || K` (big-endian) with the salt.
pub open spec fn spec_mk(pw: Seq<u8>, k: u64, salt: Seq<u8>, kdf: KdfParams) -> Seq<u8> {
    argon2id_hash(pw + be_u64_bytes(k), salt, kdf.mem_kib, kdf.iters, kdf.lanes)
}

pub(crate) fn mk(pw: &[u8], k: u64, salt: &[u8], kdf: KdfParams) -> (r: Secret)
    requires
        kdf_valid(kdf),
        pw@.len() + 8 <= 0xFFFF_FFFF,
        salt@.len() == SALT_BYTES,
    ensures
        secret_bytes(r) == spec_mk(pw@, k, salt@, kdf),
        secret_bytes(r).len() == 32,
{
    let kb = u64_to_be(k);
    let input = secret_new(cat(pw, kb.as_slice()));
    secret_new(argon2id(input.as_slice(), salt, kdf.mem_kib, kdf.iters, kdf.lanes))
}

/// The recognition token (fast reject of a wrong credential or cipher).
pub open spec fn spec_token(mk: Seq<u8>, c: Cipher) -> Seq<u8> {
    shake256_prefix(mk + label_bytes(Label::Token) + cipher_tag(c), 16)
}

pub(crate) fn token(mk: &[u8], c: Cipher) -> (t: Secret)
    ensures
        secret_bytes(t) == spec_token(mk@, c),
        secret_bytes(t).len() == 16,
{
    let l = label(Label::Token);
    let ct = cipher_tag_exec(c);
    let a = secret_new(cat(mk, l.as_slice()));
    let input = secret_new(cat(a.as_slice(), ct.as_slice()));
    secret_new(shake(input.as_slice(), 16))
}

/// The 4-byte mask that hides the length field.
pub open spec fn spec_lenmask(mk: Seq<u8>) -> Seq<u8> {
    shake256_prefix(mk + label_bytes(Label::Len), 4)
}

pub(crate) fn lenmask(mk: &[u8]) -> (m: Secret)
    ensures
        secret_bytes(m) == spec_lenmask(mk@),
        secret_bytes(m).len() == 4,
{
    let l = label(Label::Len);
    let input = secret_new(cat(mk, l.as_slice()));
    secret_new(shake(input.as_slice(), 4))
}

/// The HMAC key.
pub open spec fn spec_mackey(mk: Seq<u8>, c: Cipher) -> Seq<u8> {
    shake256_prefix(mk + label_bytes(Label::Mac) + cipher_tag(c), 32)
}

pub(crate) fn mackey(mk: &[u8], c: Cipher) -> (m: Secret)
    ensures
        secret_bytes(m) == spec_mackey(mk@, c),
        secret_bytes(m).len() == 32,
{
    let l = label(Label::Mac);
    let ct = cipher_tag_exec(c);
    let a = secret_new(cat(mk, l.as_slice()));
    let input = secret_new(cat(a.as_slice(), ct.as_slice()));
    secret_new(shake(input.as_slice(), 32))
}

/// The first `n` keystream bytes for master key `mk` under cipher `c`.
pub open spec fn spec_keystream(mk: Seq<u8>, c: Cipher, n: nat) -> Seq<u8> {
    match c {
        Cipher::Shake256 => shake256_prefix(mk + label_bytes(Label::Stream), n),
        Cipher::Aes256Ctr => {
            let kn = shake256_prefix(mk + label_bytes(Label::StreamAes256Ctr), 48);
            aes256_ctr_keystream(kn.subrange(0, 32), kn.subrange(32, 48), n)
        },
        Cipher::ChaCha20 => {
            let kn = shake256_prefix(mk + label_bytes(Label::StreamChaCha20), 44);
            chacha20_keystream(kn.subrange(0, 32), kn.subrange(32, 44), n)
        },
    }
}

pub(crate) fn keystream(mk: &[u8], c: Cipher, n: usize) -> (ks: Secret)
    requires
        n <= 0xFFFF_FFFF,
    ensures
        secret_bytes(ks) == spec_keystream(mk@, c, n as nat),
        secret_bytes(ks).len() == n,
{
    match c {
        Cipher::Shake256 => {
            let l = label(Label::Stream);
            let input = secret_new(cat(mk, l.as_slice()));
            secret_new(shake(input.as_slice(), n))
        },
        Cipher::Aes256Ctr => {
            let l = label(Label::StreamAes256Ctr);
            let input = secret_new(cat(mk, l.as_slice()));
            let kn = secret_new(shake(input.as_slice(), 48));
            let key = secret_new(byte_range(kn.as_slice(), 0, 32));
            let iv = secret_new(byte_range(kn.as_slice(), 32, 48));
            secret_new(aes256_ctr(key.as_slice(), iv.as_slice(), n))
        },
        Cipher::ChaCha20 => {
            let l = label(Label::StreamChaCha20);
            let input = secret_new(cat(mk, l.as_slice()));
            let kn = secret_new(shake(input.as_slice(), 44));
            let key = secret_new(byte_range(kn.as_slice(), 0, 32));
            let nonce = secret_new(byte_range(kn.as_slice(), 32, 44));
            secret_new(chacha20(key.as_slice(), nonce.as_slice(), n))
        },
    }
}

/// The keystream is a stream: the first `m` bytes of a longer keystream are the
/// keystream of length `m`, whatever the cipher.
pub proof fn lemma_keystream_prefix(mk: Seq<u8>, c: Cipher, m: nat, n: nat)
    requires
        m <= n,
    ensures
        spec_keystream(mk, c, n).take(m as int) == spec_keystream(mk, c, m),
{
    assert(spec_keystream(mk, c, n).take(m as int) =~= spec_keystream(mk, c, m));
}

} // verus!
