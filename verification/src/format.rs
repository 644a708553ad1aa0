//! Laws of the wire format: every derivation a read or a write makes, stated over the
//! outside primitives (SHA-256, SHAKE256, Argon2id), the literal ASCII labels and the
//! big-endian bytes of the integers involved. A container written elsewhere in this
//! format opens here, and one written here opens elsewhere, exactly when these hold.

use vstd::prelude::*;

use crate::app::{opened, Kdf};
use crate::bits::be_u64_bytes;
use crate::bits::be_u64_value;
use crate::derive::{
    cipher_tag, home_seed, label_bytes, slot_seed, spec_keystream, spec_lenmask, spec_mackey, spec_mk, spec_prk,
    spec_smask, spec_token, Cipher, KdfParams, Label,
};
use crate::kpdc::spec_home;
use crate::primitives::{
    aes256_ctr_keystream, argon2id_hash, chacha20_keystream, sha256_digest, shake256_byte, shake256_prefix,
};
use crate::walk::{draw, first_accepted, zone, DRAW_CAP};

verus! {

/// The weight of byte `i` (0 = most significant) of an 8-byte big-endian integer.
pub open spec fn weight(i: int) -> int {
    if i == 0 {
        0x100_0000_0000_0000
    } else if i == 1 {
        0x1_0000_0000_0000
    } else if i == 2 {
        0x100_0000_0000
    } else if i == 3 {
        0x1_0000_0000
    } else if i == 4 {
        0x100_0000
    } else if i == 5 {
        0x1_0000
    } else if i == 6 {
        0x100
    } else {
        1
    }
}

/// `x` is `pw` followed by the eight big-endian bytes of `k`.
pub open spec fn followed_by_be64(x: Seq<u8>, pw: Seq<u8>, k: u64) -> bool {
    &&& x.len() == pw.len() + 8
    &&& x.take(pw.len() as int) == pw
    &&& forall|i: int| 0 <= i < 8 ==> #[trigger] x[pw.len() + i] as int == (k as int / weight(i)) % 256
}

/// The eight bytes of `be_u64_bytes(x)` are those of `x`, most significant first.
pub proof fn lemma_be_u64_bytes(x: u64)
    ensures
        be_u64_bytes(x).len() == 8,
        forall|i: int| 0 <= i < 8 ==> #[trigger] be_u64_bytes(x)[i] as int == (x as int / weight(i)) % 256,
{
    assert(((x >> 56u64) as u8) as u64 == (x / 0x100_0000_0000_0000u64) % 256) by (bit_vector);
    assert(((x >> 48u64) as u8) as u64 == (x / 0x1_0000_0000_0000u64) % 256) by (bit_vector);
    assert(((x >> 40u64) as u8) as u64 == (x / 0x100_0000_0000u64) % 256) by (bit_vector);
    assert(((x >> 32u64) as u8) as u64 == (x / 0x1_0000_0000u64) % 256) by (bit_vector);
    assert(((x >> 24u64) as u8) as u64 == (x / 0x100_0000u64) % 256) by (bit_vector);
    assert(((x >> 16u64) as u8) as u64 == (x / 0x1_0000u64) % 256) by (bit_vector);
    assert(((x >> 8u64) as u8) as u64 == (x / 0x100u64) % 256) by (bit_vector);
    assert((x as u8) as u64 == x % 256) by (bit_vector);
}

proof fn lemma_followed_by_be64(x: Seq<u8>, pw: Seq<u8>, k: u64)
    requires
        followed_by_be64(x, pw, k),
    ensures
        x == pw + be_u64_bytes(k),
{
    lemma_be_u64_bytes(k);
    assert forall|j: int| 0 <= j < x.len() implies x[j] == (pw + be_u64_bytes(k))[j] by {
        if j < pw.len() {
            assert(x.take(pw.len() as int)[j] == pw[j]);
        } else {
            let i = j - pw.len();
            assert(x[pw.len() + i] as int == (k as int / weight(i)) % 256);
            assert(be_u64_bytes(k)[i] as int == (k as int / weight(i)) % 256);
        }
    }
    assert(x =~= pw + be_u64_bytes(k));
}

/// The locator of a password is SHA-256 over the password bytes followed by the eight
/// big-endian bytes of `K`.
pub proof fn lemma_locator(pw: Seq<u8>, k: u64, x: Seq<u8>)
    requires
        followed_by_be64(x, pw, k),
    ensures
        spec_prk(pw, k) == sha256_digest(x),
{
    lemma_followed_by_be64(x, pw, k);
}

/// The master key a read or write derives for a password, `K`, a salt and a KDF cost is
/// Argon2id, at that cost, over the password bytes followed by the eight big-endian bytes
/// of `K`, with the salt.
pub proof fn lemma_master_key(pw: Seq<u8>, k: u64, salt: Seq<u8>, kdf: KdfParams, x: Seq<u8>)
    requires
        followed_by_be64(x, pw, k),
    ensures
        spec_mk(pw, k, salt, kdf) == argon2id_hash(x, salt, kdf.mem_kib, kdf.iters, kdf.lanes),
{
    lemma_followed_by_be64(x, pw, k);
}

/// The mask over the stored salt is the first 16 bytes of SHAKE256 over the locator
/// followed by the ASCII bytes of "saltmask".
pub proof fn lemma_salt_mask(prk: Seq<u8>)
    ensures
        spec_smask(prk) == shake256_prefix(prk + seq![0x73u8, 0x61, 0x6c, 0x74, 0x6d, 0x61, 0x73, 0x6b], 16),
{
    assert(label_bytes(Label::SaltMask) =~= seq![0x73u8, 0x61, 0x6c, 0x74, 0x6d, 0x61, 0x73, 0x6b]);
}

/// The block-level front-ends (`app::read_block`, `app::write_block`, the desktop form's
/// write) open a block the way `Kpdc::from_bytes` does: with the default cipher AES-256-CTR,
/// the user's `K`, the memory cost in KiB (1024 per MiB, capped at `u32::MAX`), the
/// user's pass count and one lane.
pub proof fn lemma_blocks_open_with_default_cipher(block: Seq<u8>, k: u64, kdf: Kdf)
    ensures
        opened(block, k, kdf).cipher == Cipher::Aes256Ctr,
        opened(block, k, kdf).block == block,
        opened(block, k, kdf).k == k,
        opened(block, k, kdf).kdf.mem_kib as int == if kdf.mem_mib * 1024 > u32::MAX { u32::MAX as int } else { kdf.mem_mib * 1024 },
        opened(block, k, kdf).kdf.iters == kdf.iters,
        opened(block, k, kdf).kdf.lanes == 1,
{
}

/// Draw `d` of the SHAKE256 stream on `seed`: output bytes `8d .. 8d + 8` read as a
/// big-endian integer.
pub open spec fn stream_word(seed: Seq<u8>, d: nat) -> int {
    shake256_byte(seed, 8 * d) as int * weight(0) + shake256_byte(seed, 8 * d + 1) as int * weight(1)
        + shake256_byte(seed, 8 * d + 2) as int * weight(2) + shake256_byte(seed, 8 * d + 3) as int * weight(3)
        + shake256_byte(seed, 8 * d + 4) as int * weight(4) + shake256_byte(seed, 8 * d + 5) as int * weight(5)
        + shake256_byte(seed, 8 * d + 6) as int * weight(6) + shake256_byte(seed, 8 * d + 7) as int * weight(7)
}

/// The draws of a walk and of the home choice are the stream's 8-byte big-endian words.
pub proof fn lemma_draw_is_stream_word(seed: Seq<u8>, d: nat)
    ensures
        draw(seed, d) as int == stream_word(seed, d),
{
    let b = Seq::new(8, |i: int| shake256_byte(seed, (8 * d + i) as nat));
    let b0 = b[0];
    let b1 = b[1];
    let b2 = b[2];
    let b3 = b[3];
    let b4 = b[4];
    let b5 = b[5];
    let b6 = b[6];
    let b7 = b[7];
    assert(((b0 as u64) << 56u64) | ((b1 as u64) << 48u64) | ((b2 as u64) << 40u64) | ((b3 as u64) << 32u64)
        | ((b4 as u64) << 24u64) | ((b5 as u64) << 16u64) | ((b6 as u64) << 8u64) | (b7 as u64)
        == b0 as u64 * 0x100_0000_0000_0000u64 + b1 as u64 * 0x1_0000_0000_0000u64 + b2 as u64 * 0x100_0000_0000u64
        + b3 as u64 * 0x1_0000_0000u64 + b4 as u64 * 0x100_0000u64 + b5 as u64 * 0x1_0000u64 + b6 as u64 * 0x100u64
        + b7 as u64) by (bit_vector);
    assert(8 * d + 0 == 8 * d);
}

/// The accepted zone of a rejection draw mod `k`: below the largest multiple of `k` that
/// fits in 64 bits.
pub proof fn lemma_zone(k: u64)
    requires
        k >= 1,
    ensures
        zone(k) as int == (u64::MAX as int / k as int) * k as int,
{
    assert((u64::MAX as int / k as int) * k as int <= u64::MAX as int) by (nonlinear_arith)
        requires k >= 1;
    assert(0 <= (u64::MAX as int / k as int) * k as int) by (nonlinear_arith)
        requires k >= 1;
}

proof fn lemma_first_accepted_from(seed: Seq<u8>, k: u64, j: nat, d: nat)
    requires
        k >= 1,
        j <= d < DRAW_CAP,
        forall|e: nat| j <= e < d ==> #[trigger] draw(seed, e) >= zone(k),
        draw(seed, d) < zone(k),
    ensures
        first_accepted(seed, k, j) == draw(seed, d) % k,
    decreases d - j,
{
    if j < d {
        lemma_first_accepted_from(seed, k, j + 1, d);
    }
}

/// The input of the stream that chooses a password's home plane: its locator followed by
/// the ASCII bytes of "home".
pub open spec fn home_input(pw: Seq<u8>, k: u64) -> Seq<u8> {
    spec_prk(pw, k) + seq![0x68u8, 0x6f, 0x6d, 0x65]
}

/// A password's home plane is the first draw of SHAKE256 over its locator followed by the
/// ASCII bytes of "home" that falls below the largest multiple of `K` in 64 bits, reduced
/// mod `K` (draw `d` is output bytes `8d .. 8d + 8`, big-endian).
pub proof fn lemma_home_plane(pw: Seq<u8>, k: u64, d: nat)
    requires
        k >= 1,
        d < DRAW_CAP,
        forall|e: nat| e < d ==> #[trigger] stream_word(home_input(pw, k), e)
            >= (u64::MAX as int / k as int) * k as int,
        stream_word(home_input(pw, k), d) < (u64::MAX as int / k as int) * k as int,
    ensures
        spec_home(pw, k) as int == stream_word(home_input(pw, k), d) % (k as int),
{
    let seed = home_input(pw, k);
    assert(label_bytes(Label::Home) =~= seq![0x68u8, 0x6f, 0x6d, 0x65]);
    assert(home_seed(spec_prk(pw, k)) == seed);
    lemma_zone(k);
    assert forall|e: nat| 0 <= e < d implies #[trigger] draw(seed, e) >= zone(k) by {
        lemma_draw_is_stream_word(seed, e);
    }
    lemma_draw_is_stream_word(seed, d);
    lemma_first_accepted_from(seed, k, 0, d);
}

/// The ASCII label that binds the cipher into the token and the MAC key: "aes256ctr",
/// "chacha20", and nothing for SHAKE256.
pub open spec fn cipher_label(c: Cipher) -> Seq<u8> {
    match c {
        Cipher::Aes256Ctr => seq![0x61u8, 0x65, 0x73, 0x32, 0x35, 0x36, 0x63, 0x74, 0x72],
        Cipher::ChaCha20 => seq![0x63u8, 0x68, 0x61, 0x63, 0x68, 0x61, 0x32, 0x30],
        Cipher::Shake256 => Seq::empty(),
    }
}

/// The keys of a record under master key `mk`: the token is SHAKE256 over `mk`, "token"
/// and the cipher label (16 bytes); the length mask is SHAKE256 over `mk` and "len"
/// (4 bytes); the MAC key is SHAKE256 over `mk`, "mac" and the cipher label (32 bytes).
pub proof fn lemma_record_keys(mk: Seq<u8>, c: Cipher)
    ensures
        spec_token(mk, c) == shake256_prefix(mk + seq![0x74u8, 0x6f, 0x6b, 0x65, 0x6e] + cipher_label(c), 16),
        spec_lenmask(mk) == shake256_prefix(mk + seq![0x6cu8, 0x65, 0x6e], 4),
        spec_mackey(mk, c) == shake256_prefix(mk + seq![0x6du8, 0x61, 0x63] + cipher_label(c), 32),
{
    assert(cipher_tag(c) =~= cipher_label(c));
    assert(label_bytes(Label::Token) =~= seq![0x74u8, 0x6f, 0x6b, 0x65, 0x6e]);
    assert(label_bytes(Label::Len) =~= seq![0x6cu8, 0x65, 0x6e]);
    assert(label_bytes(Label::Mac) =~= seq![0x6du8, 0x61, 0x63]);
}

/// The keystream under master key `mk`: for SHAKE256 the stream of SHAKE256 over `mk` and
/// "stream"; for AES-256-CTR the key and initial counter block are bytes 0..32 and 32..48
/// of SHAKE256 over `mk` and "stream-aes256ctr"; for ChaCha20 the key and nonce are bytes
/// 0..32 and 32..44 of SHAKE256 over `mk` and "stream-chacha20".
pub proof fn lemma_keystream_source(mk: Seq<u8>, c: Cipher, n: nat)
    ensures
        c == Cipher::Shake256 ==> spec_keystream(mk, c, n)
            == shake256_prefix(mk + seq![0x73u8, 0x74, 0x72, 0x65, 0x61, 0x6d], n),
        c == Cipher::Aes256Ctr ==> ({
            let kn = shake256_prefix(mk + seq![0x73u8, 0x74, 0x72, 0x65, 0x61, 0x6d, 0x2d, 0x61, 0x65, 0x73, 0x32, 0x35, 0x36, 0x63, 0x74, 0x72], 48);
            spec_keystream(mk, c, n) == aes256_ctr_keystream(kn.subrange(0, 32), kn.subrange(32, 48), n)
        }),
        c == Cipher::ChaCha20 ==> ({
            let kn = shake256_prefix(mk + seq![0x73u8, 0x74, 0x72, 0x65, 0x61, 0x6d, 0x2d, 0x63, 0x68, 0x61, 0x63, 0x68, 0x61, 0x32, 0x30], 44);
            spec_keystream(mk, c, n) == chacha20_keystream(kn.subrange(0, 32), kn.subrange(32, 44), n)
        }),
{
    assert(label_bytes(Label::Stream) =~= seq![0x73u8, 0x74, 0x72, 0x65, 0x61, 0x6d]);
    assert(label_bytes(Label::StreamAes256Ctr) =~= seq![0x73u8, 0x74, 0x72, 0x65, 0x61, 0x6d, 0x2d, 0x61, 0x65, 0x73, 0x32, 0x35, 0x36, 0x63, 0x74, 0x72]);
    assert(label_bytes(Label::StreamChaCha20) =~= seq![0x73u8, 0x74, 0x72, 0x65, 0x61, 0x6d, 0x2d, 0x63, 0x68, 0x61, 0x63, 0x68, 0x61, 0x32, 0x30]);
}

/// The stream that walks the slots of plane `p` is SHAKE256 over the locator, the ASCII
/// bytes of "slots" and the eight big-endian bytes of `p`.
pub proof fn lemma_slot_stream(prk: Seq<u8>, p: u64, x: Seq<u8>)
    requires
        followed_by_be64(x, prk + seq![0x73u8, 0x6c, 0x6f, 0x74, 0x73], p),
    ensures
        slot_seed(prk, p) == x,
{
    assert(label_bytes(Label::Slots) =~= seq![0x73u8, 0x6c, 0x6f, 0x74, 0x73]);
    lemma_followed_by_be64(x, prk + seq![0x73u8, 0x6c, 0x6f, 0x74, 0x73], p);
}

} // verus!
