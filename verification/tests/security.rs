//! Security-property and regression tests of the container: the statistical look of empty
//! and filled blocks, multi-key independence, wrong-credential and tamper behaviour,
//! whole-block rebuilds, reads of arbitrary bytes, and deterministic writes under a fixed
//! salt.
//!
//! The properties under test do not depend on the KDF cost. Tests with a few dozen Argon2id
//! calls run at the fast test cost (`KdfParams::insecure_fast_test`); those with hundreds
//! (full and sized containers, wrong guesses, arbitrary input, second-order structure) run at
//! the least cost the container accepts, where the calls are cheap and the rest of the work
//! is what is measured.

use azoth::{next_prime_coprime8, Cipher, KdfParams, Kpdc};
use sha3::digest::{ExtendableOutput, Update, XofReader};
use sha3::Shake256;

/// Cryptographic deterministic fill: SHAKE256(seed). Used for the higher-order
/// statistical tests so they are reproducible AND genuinely pass digram / runs /
/// serial-correlation tests (a non-crypto PRG could show 2nd-order artifacts).
fn shake_fill(n: usize, seed: &[u8]) -> Vec<u8> {
    let mut h = Shake256::default();
    h.update(seed);
    let mut r = h.finalize_xof();
    let mut v = vec![0u8; n];
    r.read(&mut v);
    v
}

// ---- a deterministic PRG so statistical tests never flake on getrandom ----
struct XorShift(u64);
impl XorShift {
    fn new(seed: u64) -> Self {
        XorShift(seed | 1)
    }
    fn next_u64(&mut self) -> u64 {
        let mut x = self.0;
        x ^= x << 13;
        x ^= x >> 7;
        x ^= x << 17;
        self.0 = x;
        x
    }
    fn fill(&mut self, buf: &mut [u8]) {
        for chunk in buf.chunks_mut(8) {
            let b = self.next_u64().to_le_bytes();
            chunk.copy_from_slice(&b[..chunk.len()]);
        }
    }
}

fn det_block(n: usize, seed: u64) -> Vec<u8> {
    let mut v = vec![0u8; n];
    XorShift::new(seed).fill(&mut v);
    v
}

// ---- uniformity metrics ----
fn chi_square_bytes(block: &[u8]) -> f64 {
    let mut counts = [0u64; 256];
    for &b in block {
        counts[b as usize] += 1;
    }
    let expected = block.len() as f64 / 256.0;
    counts
        .iter()
        .map(|&o| {
            let d = o as f64 - expected;
            d * d / expected
        })
        .sum()
}

fn ones_fraction(block: &[u8]) -> f64 {
    let ones: u64 = block.iter().map(|b| b.count_ones() as u64).sum();
    ones as f64 / (block.len() as f64 * 8.0)
}

/// Byte-pair (digram) chi-square over non-overlapping pairs, 65536 bins. Catches
/// 2nd-order structure that a 1st-order byte histogram misses.
fn digram_chi_square(block: &[u8]) -> f64 {
    let mut counts = vec![0u64; 65536];
    let pairs = block.len() / 2;
    for j in 0..pairs {
        let idx = ((block[2 * j] as usize) << 8) | (block[2 * j + 1] as usize);
        counts[idx] += 1;
    }
    let expected = pairs as f64 / 65536.0;
    counts
        .iter()
        .map(|&o| {
            let d = o as f64 - expected;
            d * d / expected
        })
        .sum()
}

/// Lag-1 serial correlation of byte values. ~0 for independent bytes; a non-zero
/// value reveals linear inter-byte structure.
fn serial_correlation(block: &[u8]) -> f64 {
    let n = block.len();
    let mean = block.iter().map(|&b| b as f64).sum::<f64>() / n as f64;
    let mut num = 0.0;
    let mut den = 0.0;
    for i in 0..n {
        let a = block[i] as f64 - mean;
        let b = block[(i + 1) % n] as f64 - mean;
        num += a * b;
        den += a * a;
    }
    num / den
}


// FNV-1a 64-bit over a block; any change of the block flips it.
fn fnv1a(bytes: &[u8]) -> u64 {
    let mut h: u64 = 0xcbf2_9ce4_8422_2325;
    for &b in bytes {
        h ^= b as u64;
        h = h.wrapping_mul(0x0000_0100_0000_01b3);
    }
    h
}

fn fast() -> KdfParams {
    KdfParams::insecure_fast_test()
}

/// The least Argon2id cost the container accepts: 8 KiB, one pass, one lane.
fn minimal() -> KdfParams {
    KdfParams { mem_kib: 8, iters: 1, lanes: 1 }
}

// =========================================================================== //
//  Indistinguishability
// =========================================================================== //

#[test]
fn security_full_container_is_statistically_uniform() {
    // Build a deterministic "random" block, then fill it with several payloads.
    // The result must still look uniform: no byte-value bias, ~50% bit density.
    let k = next_prime_coprime8(257);
    let mut c = Kpdc::from_bytes(det_block(262_144, 0xA5A5_1234), k, minimal()).unwrap();
    for i in 0..10 {
        let pw = format!("pw-{i}");
        let known: Vec<String> = (0..i).map(|j| format!("pw-{j}")).collect();
        let kr: Vec<&str> = known.iter().map(|s| s.as_str()).collect();
        let _ = c.write(&pw, format!("secret number {i}").as_bytes(), &kr, 4, None);
    }
    let chi = chi_square_bytes(c.as_bytes());
    let ones = ones_fraction(c.as_bytes());
    // 255 d.o.f.: mean 255, sd ~22.6. Generous bound catches gross structure.
    assert!(chi > 150.0 && chi < 400.0, "chi-square {chi} out of uniform range");
    assert!((ones - 0.5).abs() < 0.01, "bit density {ones} not ~0.5");
}

#[test]
fn security_empty_and_full_are_both_uniform() {
    // "Empty" (just random fill) and "full" (random fill + payloads) must both pass
    // the same uniformity test: there is nothing to distinguish them by.
    let k = next_prime_coprime8(131);
    let empty = Kpdc::from_bytes(det_block(131_072, 0x0F0F_9999), k, fast()).unwrap();
    let mut full = Kpdc::from_bytes(det_block(131_072, 0x3333_7777), k, fast()).unwrap();
    for i in 0..6 {
        let known: Vec<String> = (0..i).map(|j| format!("k{j}")).collect();
        let kr: Vec<&str> = known.iter().map(|s| s.as_str()).collect();
        full.write(&format!("k{i}"), b"payload data here", &kr, 4, None).unwrap();
    }
    let ce = chi_square_bytes(empty.as_bytes());
    let cf = chi_square_bytes(full.as_bytes());
    assert!(ce > 150.0 && ce < 400.0, "empty chi {ce}");
    assert!(cf > 150.0 && cf < 400.0, "full chi {cf}");
}

// =========================================================================== //
//  Multi-key independence + wrong-credential behavior
// =========================================================================== //

#[test]
fn security_multi_key_independence_recommended() {
    let k = next_prime_coprime8(11);
    let mp = 3;
    let mut c = Kpdc::create(16384, k, fast()).unwrap();
    c.write_all_fresh(&[("alice", b"plan A"), ("bob", b"plan B"), ("carol", b"plan C")], mp).unwrap();
    assert_eq!(c.read("alice", mp).map(|z| z.to_vec()), Some(b"plan A".to_vec()));
    assert_eq!(c.read("bob", mp).map(|z| z.to_vec()), Some(b"plan B".to_vec()));
    assert_eq!(c.read("carol", mp).map(|z| z.to_vec()), Some(b"plan C".to_vec()));
    // wrong password and wrong K both yield nothing
    assert!(c.read("mallory", mp).is_none());
    let wrong_k = next_prime_coprime8(13);
    let c2 = Kpdc::from_bytes(c.into_bytes(), wrong_k, fast()).unwrap();
    assert!(c2.read("alice", mp).is_none(), "wrong K must not decrypt");
}

#[test]
fn security_wrong_credentials_never_false_positive() {
    // Many wrong passwords against a populated container must all return None.
    let k = next_prime_coprime8(101);
    let mut c = Kpdc::from_bytes(det_block(65536, 0xDEAD_BEEF), k, minimal()).unwrap();
    c.write("real-password", b"the actual secret", &[], 4, None).unwrap();
    for i in 0..300 {
        let guess = format!("guess-{i}");
        assert!(c.read(&guess, 4).is_none(), "false positive on {guess}");
    }
    // the real one still works
    assert_eq!(c.read("real-password", 4).map(|z| z.to_vec()), Some(b"the actual secret".to_vec()));
}

// =========================================================================== //
//  Re-randomization defeats multi-snapshot diffing
// =========================================================================== //

#[test]
fn security_rerandomize_changes_almost_every_byte() {
    let k = next_prime_coprime8(11);
    let mp = 3;
    let mut c = Kpdc::create(16384, k, fast()).unwrap();
    c.write_all_fresh(&[("a", b"first")], mp).unwrap();
    let before = c.as_bytes().to_vec();
    // re-randomize with an added payload
    c.write_all_fresh(&[("a", b"first"), ("b", b"second")], mp).unwrap();
    let after = c.as_bytes();
    let differing = before.iter().zip(after).filter(|(x, y)| x != y).count();
    let frac = differing as f64 / before.len() as f64;
    // a whole-block rewrite changes each byte w.p. ~1 - 1/256
    assert!(frac > 0.9, "only {frac} of bytes changed; re-randomize not whole-block");
    assert_eq!(c.read("a", mp).map(|z| z.to_vec()), Some(b"first".to_vec()));
    assert_eq!(c.read("b", mp).map(|z| z.to_vec()), Some(b"second".to_vec()));
}

// =========================================================================== //
//  Fuzz-lite: read must never panic on arbitrary bytes / credentials
// =========================================================================== //

#[test]
fn security_read_never_panics_on_arbitrary_input() {
    let mut rng = XorShift::new(0xF00D_F00D);
    for _ in 0..200 {
        let size = 1024 + (rng.next_u64() % 8192) as usize;
        let block = det_block(size, rng.next_u64());
        let k = next_prime_coprime8(2 + (rng.next_u64() % 200));
        if let Ok(c) = Kpdc::from_bytes(block, k, minimal()) {
            let pw = format!("p{}", rng.next_u64());
            // must return None or Some, never panic / never crash
            let _ = c.read(&pw, 4);
        }
    }
}

// =========================================================================== //
//  Tamper, fixed-salt determinism
// =========================================================================== //

#[test]
fn tamper_never_yields_wrong_plaintext() {
    let mut c = Kpdc::create(8192, 11, fast()).unwrap();
    c.write("pw", b"secret message here", &[], 2, None).unwrap();
    let clean = c.into_bytes();
    for pos in [0usize, 100, 1000, 4096, 8191] {
        let mut bytes = clean.clone();
        bytes[pos] ^= 0xFF;
        let c2 = Kpdc::from_bytes(bytes, 11, fast()).unwrap();
        if let Some(pt) = c2.read("pw", 2) {
            assert_eq!(pt.as_slice(), b"secret message here");
        }
    }
    // flipping every bit of the block always breaks the record
    let flipped: Vec<u8> = clean.iter().map(|b| !b).collect();
    assert!(Kpdc::from_bytes(flipped, 11, fast()).unwrap().read("pw", 2).is_none());
}

#[test]
fn fixed_salt_writes_are_deterministic() {
    let salt = [0x42u8; 16];
    let mut prints = Vec::new();
    for cipher in [Cipher::Aes256Ctr, Cipher::ChaCha20, Cipher::Shake256] {
        let mut a = Kpdc::from_bytes_with(vec![0u8; 8192], 11, fast(), cipher).unwrap();
        let mut b = Kpdc::from_bytes_with(vec![0u8; 8192], 11, fast(), cipher).unwrap();
        let pa = a.write("known-answer", b"known answer payload", &[], 1, Some(&salt)).unwrap();
        let pb = b.write("known-answer", b"known answer payload", &[], 1, Some(&salt)).unwrap();
        assert_eq!(pa, pb);
        assert_eq!(a.as_bytes(), b.as_bytes(), "{cipher:?}: same inputs, same block");
        assert_eq!(a.read("known-answer", 1).map(|z| z.to_vec()), Some(b"known answer payload".to_vec()));
        prints.push(fnv1a(a.as_bytes()));
    }
    assert_ne!(prints[0], prints[1]);
    assert_ne!(prints[0], prints[2]);
    assert_ne!(prints[1], prints[2]);
}

// =========================================================================== //
//  Expanded indistinguishability suite: writes never push the container off the
//  statistical norm (1st-order, 2nd-order, runs, serial correlation), across heavy
//  fill and several sizes / K.
// =========================================================================== //

#[test]
fn second_order_structure_absent() {
    // 512 KiB block + several payloads: digram (byte-pair) chi-square and lag-1
    // serial correlation must look like independent uniform bytes.
    let k = next_prime_coprime8(131);
    let mut c = Kpdc::from_bytes(shake_fill(524_288, b"digram-seed"), k, minimal()).unwrap();
    let mut known: Vec<String> = Vec::new();
    for i in 0..10 {
        let kr: Vec<&str> = known.iter().map(|s| s.as_str()).collect();
        c.write(&format!("d{i}"), &vec![0x5Au8; 3500], &kr, 12, None).unwrap();
        known.push(format!("d{i}"));
    }
    let block = c.as_bytes();
    // 65535 d.o.f.: mean 65535, sd ~362. Generous +/-4000 (~11 sd) catches structure
    // without flaking.
    let dchi = digram_chi_square(block);
    assert!((dchi - 65_535.0).abs() < 4000.0, "digram chi {dchi} out of band");
    let r = serial_correlation(block);
    assert!(r.abs() < 0.02, "serial correlation {r} too high");
}

#[test]
fn uniform_across_sizes_and_k() {
    for (sz, kbase) in [(16_384usize, 11u64), (49_152, 53), (131_072, 257)] {
        let k = next_prime_coprime8(kbase);
        let seed = format!("size-{sz}-k-{k}");
        let mut c = Kpdc::from_bytes(shake_fill(sz, seed.as_bytes()), k, minimal()).unwrap();
        let mut known: Vec<String> = Vec::new();
        for i in 0..5 {
            let kr: Vec<&str> = known.iter().map(|s| s.as_str()).collect();
            let _ = c.write(&format!("s{i}"), &[0x33u8; 64], &kr, 4, None);
            known.push(format!("s{i}"));
        }
        let block = c.as_bytes();
        let chi = chi_square_bytes(block);
        let ones = ones_fraction(block);
        assert!(chi > 120.0 && chi < 420.0, "size {sz} k {k}: byte chi {chi}");
        assert!((ones - 0.5).abs() < 0.015, "size {sz} k {k}: bit density {ones}");
    }
}
