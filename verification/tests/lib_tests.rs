//! Functional tests of the container: construction checks, round trips, tampering,
//! ciphers and whole-block rebuilds.

use azoth::{is_recommended_k, next_prime_coprime8, Cipher, Error, KdfParams, Kpdc};

// The fast cost is used where the property is independent of the KDF cost.
fn fast() -> KdfParams {
    KdfParams::insecure_fast_test()
}

// The functional tests below were written for the recommended cost, with a small K and
// maxprobe to keep the number of Argon2id calls low. Each still makes three or more, and at
// the recommended cost one call takes seconds in an unoptimized build, so they run at the
// fast cost with every other input unchanged; the wire format under the recommended cost is
// pinned by the known-answer tests.
const MP: usize = 2;
const K: u64 = 11;
const SZ: usize = 8192;


#[test]
fn next_prime_coprime8_works() {
    assert_eq!(next_prime_coprime8(419), 419);
    assert_eq!(next_prime_coprime8(420), 421);
    assert_eq!(next_prime_coprime8(2), 3);
}

#[test]
fn lib_next_prime_coprime8_works() {
    assert_eq!(next_prime_coprime8(419), 419);
    assert_eq!(next_prime_coprime8(420), 421);
    assert_eq!(next_prime_coprime8(2), 3);
    assert!(is_recommended_k(419));
    assert!(!is_recommended_k(8));
    assert!(!is_recommended_k(2));
}

#[test]
fn invalid_k_is_rejected_not_panic() {
    assert!(matches!(Kpdc::create(1024, 0, fast()), Err(Error::InvalidK { .. })));
    assert!(matches!(Kpdc::create(1024, 1, fast()), Err(Error::InvalidK { .. })));
    // K larger than the bit-count is also rejected (would underflow plane math)
    assert!(matches!(Kpdc::create(2, 100, fast()), Err(Error::InvalidK { .. })));
}

#[test]
fn non_coprime_k_is_rejected() {
    // Even K collapses planes onto fixed bit positions: a hard error in both constructors.
    for bad in [2u64, 4, 8, 16, 256, 512] {
        assert!(
            matches!(Kpdc::create(8192, bad, fast()), Err(Error::NonCoprimeK { .. })),
            "create did not reject even K={bad}"
        );
        assert!(
            matches!(Kpdc::from_bytes(vec![0u8; 1024], bad, fast()), Err(Error::NonCoprimeK { .. })),
            "from_bytes did not reject even K={bad}"
        );
    }
    // Odd K (coprime to 8) is accepted, prime or not.
    assert!(Kpdc::create(8192, 11, fast()).is_ok());
    assert!(Kpdc::create(8192, 9, fast()).is_ok());
    // The range check takes precedence over the coprimality check.
    assert!(matches!(Kpdc::create(2, 100, fast()), Err(Error::InvalidK { .. })));
}

#[test]
fn write_success_implies_readable_at_same_maxprobe() {
    // A successful write never places a payload beyond the reader's probe window.
    let k = next_prime_coprime8(17);
    let mp = 3;
    let mut c = Kpdc::create(16384, k, fast()).unwrap();
    let pws = ["a", "b", "c", "d", "e", "f"];
    let mut written = Vec::new();
    for (i, pw) in pws.iter().enumerate() {
        let known: Vec<&str> = pws[..i].to_vec();
        let msg = format!("msg-{}", i);
        if c.write(pw, msg.as_bytes(), &known, mp, None).is_ok() {
            written.push((*pw, msg));
        }
    }
    for (pw, msg) in written {
        assert_eq!(
            c.read(pw, mp).map(|z| z.to_vec()),
            Some(msg.into_bytes()),
            "payload written under {:?} not readable at the same maxprobe",
            pw
        );
    }
}

#[test]
fn prime_search_edge_cases() {
    assert_eq!(next_prime_coprime8(0), 3);
    assert_eq!(next_prime_coprime8(1), 3);
    assert_eq!(next_prime_coprime8(3), 3);
    assert_eq!(next_prime_coprime8(4), 5);
    assert_eq!(next_prime_coprime8(9), 11);
    assert_eq!(next_prime_coprime8(24), 29);
    assert_eq!(next_prime_coprime8(7919), 7919);
    assert_eq!(next_prime_coprime8(u64::MAX), u64::MAX);
    assert!(is_recommended_k(3));
    assert!(!is_recommended_k(0));
    assert!(!is_recommended_k(1));
    assert!(!is_recommended_k(9));
}

#[test]
fn rebuild_places_payloads_on_distinct_planes() {
    let mut c = Kpdc::create(16384, 11, fast()).unwrap();
    c.write_all_fresh(&[("a", b"alpha"), ("b", b"bravo"), ("c", b"charlie")], 11).unwrap();
    let planes: Vec<u64> = ["a", "b", "c"].iter().map(|p| c.plane_of(p, 11).unwrap()).collect();
    assert!(planes.iter().all(|&p| p < 11));
    assert!(planes[0] != planes[1] && planes[0] != planes[2] && planes[1] != planes[2]);
    assert_eq!(c.read("c", 11).map(|z| z.to_vec()), Some(b"charlie".to_vec()));
}

#[test]
fn failed_rebuild_leaves_the_block_as_it_was() {
    let mut c = Kpdc::create(4096, 11, fast()).unwrap();
    let before = c.as_bytes().to_vec();
    // a plane of a 4096-byte block with K = 11 holds about 2978 bits: 400 bytes do not fit
    let r = c.write_all_fresh(&[("a", b"fits"), ("b", &[1u8; 400])], 2);
    assert!(matches!(r, Err(Error::PayloadTooLarge { need_bits: 3744, .. })));
    assert_eq!(c.as_bytes(), &before[..]);
}

#[test]
fn roundtrip_two_payloads_recommended_cost() {
    let mut c = Kpdc::create(SZ, K, fast()).unwrap();
    let pa = c.write("alpha-pass", b"treaty at dawn", &[], MP, None).unwrap();
    let pb = c.write("beta-pass", b"pier 39", &["alpha-pass"], MP, None).unwrap();
    assert_ne!(pa, pb);
    assert_eq!(c.read("alpha-pass", MP).map(|z| z.to_vec()), Some(b"treaty at dawn".to_vec()));
    assert_eq!(c.read("beta-pass", MP).map(|z| z.to_vec()), Some(b"pier 39".to_vec()));
    assert!(c.read("wrong-pass", MP).is_none());
}

#[test]
fn empty_payload_roundtrips() {
    let mut c = Kpdc::create(SZ, K, fast()).unwrap();
    c.write("pw", b"", &[], MP, None).unwrap();
    assert_eq!(c.read("pw", MP).map(|z| z.to_vec()), Some(Vec::new()));
}

#[test]
fn lib_tamper_is_detected() {
    let mut c = Kpdc::create(SZ, K, fast()).unwrap();
    c.write("pw", b"secret message here", &[], MP, None).unwrap();
    let mut bytes = c.into_bytes();
    bytes[100] ^= 0xFF;
    let c2 = Kpdc::from_bytes(bytes, K, fast()).unwrap();
    // either still reads (if the flip missed this plane) or None: never wrong plaintext
    if let Some(pt) = c2.read("pw", MP) {
        assert_eq!(pt.as_slice(), b"secret message here");
    }
}

#[test]
fn wrong_salt_length_is_rejected() {
    let mut c = Kpdc::create(SZ, K, fast()).unwrap();
    assert!(matches!(c.write("pw", b"hi", &[], MP, Some(&[0u8; 8])), Err(Error::BadSaltLen { .. })));
    assert!(c.write("pw", b"hi", &[], MP, Some(&[0u8; 16])).is_ok());
}

#[test]
fn all_ciphers_roundtrip() {
    for cipher in [Cipher::Aes256Ctr, Cipher::ChaCha20, Cipher::Shake256] {
        let mut c = Kpdc::create_with(SZ, K, fast(), cipher).unwrap();
        c.write("pw", b"hello, cipher world", &[], MP, None).unwrap();
        assert_eq!(
            c.read("pw", MP).map(|z| z.to_vec()),
            Some(b"hello, cipher world".to_vec()),
            "roundtrip failed for {cipher:?}"
        );
        assert!(c.read("nope", MP).is_none(), "false positive for {cipher:?}");
        // empty payload must round-trip under every cipher too
        let mut e = Kpdc::create_with(SZ, K, fast(), cipher).unwrap();
        e.write("e", b"", &[], MP, None).unwrap();
        assert_eq!(e.read("e", MP).map(|z| z.to_vec()), Some(Vec::new()));
    }
}

#[test]
fn wrong_cipher_fails_like_wrong_password() {
    // The cipher is bound into the token and the MAC key: a mismatch fails cleanly (None).
    let mut c = Kpdc::create_with(SZ, K, fast(), Cipher::Aes256Ctr).unwrap();
    c.write("pw", b"top secret", &[], MP, None).unwrap();
    let bytes = c.into_bytes();
    for wrong in [Cipher::ChaCha20, Cipher::Shake256] {
        let cw = Kpdc::from_bytes_with(bytes.clone(), K, fast(), wrong).unwrap();
        assert!(cw.read("pw", MP).is_none(), "wrong cipher {wrong:?} must not decrypt");
    }
    let right = Kpdc::from_bytes_with(bytes, K, fast(), Cipher::Aes256Ctr).unwrap();
    assert_eq!(right.read("pw", MP).map(|z| z.to_vec()), Some(b"top secret".to_vec()));
}

#[test]
fn rerandomize_roundtrips() {
    let mut c = Kpdc::create(SZ, K, fast()).unwrap();
    c.write_all_fresh(&[("a", b"alpha"), ("b", b"bravo")], MP).unwrap();
    assert_eq!(c.read("a", MP).map(|z| z.to_vec()), Some(b"alpha".to_vec()));
    assert_eq!(c.read("b", MP).map(|z| z.to_vec()), Some(b"bravo".to_vec()));
    assert!(c.read("c", MP).is_none());
}
