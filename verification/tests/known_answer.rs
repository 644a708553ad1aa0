//! Known-answer tests: the wire format pinned under the recommended KDF cost.
//!
//! Each block below is what a write of ("known-answer", "known answer payload") with K = 11,
//! maxprobe 1 and the salt 0x42 repeated 16 times leaves in an all-zero 8192-byte block, one
//! per cipher, at the recommended cost. A block is listed by its non-zero bytes and
//! fingerprinted with FNV-1a; any change to a derivation, the record layout or the slot walk
//! changes it. The master key of that write (the Argon2id output at the recommended cost) is
//! pinned too, so the blocks are read back through `read_plane_with_key` without running
//! the 256 MiB derivation in every test.

use azoth::{Cipher, KdfParams, Kpdc};

const KAT_K: u64 = 11;
const KAT_PW: &str = "known-answer";
const KAT_PT: &[u8] = b"known answer payload";
const KAT_BLOCK_LEN: usize = 8192;
// Pinned wire-format vectors (FNV-1a of the block) under the recommended cost, one per cipher.
const KAT_FNV_AES256CTR: u64 = 0xd61dda5b3299391e;
const KAT_FNV_CHACHA20: u64 = 0xa3b6600350515b5e;
const KAT_FNV_SHAKE256: u64 = 0xeabe2c5067fdcf54;
/// Argon2id (v1.3, 256 MiB, 3 passes, 1 lane, 32 bytes) over "known-answer" followed by
/// K = 11 as 8 big-endian bytes, with the salt 0x42 repeated 16 times: the master key of
/// the known-answer write.
const KAT_MASTER_KEY: [u8; 32] = [
    0xf3, 0x7c, 0x24, 0xab, 0xc2, 0xf5, 0x6f, 0x7e, 0xda, 0x91, 0xaf, 0x30, 0x59, 0x5b, 0x9a, 0x86,
    0x51, 0x79, 0xbf, 0x34, 0x21, 0x61, 0x9a, 0x20, 0xcd, 0xb0, 0x1a, 0x0b, 0xde, 0xf6, 0x4d, 0xa1,
];

// FNV-1a 64-bit over the block.
fn fnv1a(bytes: &[u8]) -> u64 {
    let mut h: u64 = 0xcbf2_9ce4_8422_2325;
    for &b in bytes {
        h ^= b as u64;
        h = h.wrapping_mul(0x0000_0100_0000_01b3);
    }
    h
}

fn pinned_block(nonzero: &[(u16, u8)]) -> Vec<u8> {
    let mut block = vec![0u8; KAT_BLOCK_LEN];
    for &(i, b) in nonzero {
        block[i as usize] = b;
    }
    block
}

fn pinned(cipher: Cipher, nonzero: &[(u16, u8)]) -> Kpdc {
    Kpdc::from_bytes_with(pinned_block(nonzero), KAT_K, KdfParams::recommended(), cipher).unwrap()
}

#[test]
fn security_known_answer_write_and_read() {
    // The listed blocks are the pinned ones.
    assert_eq!(fnv1a(&pinned_block(KAT_BLOCK_AES256CTR)), KAT_FNV_AES256CTR);
    assert_eq!(fnv1a(&pinned_block(KAT_BLOCK_CHACHA20)), KAT_FNV_CHACHA20);
    assert_eq!(fnv1a(&pinned_block(KAT_BLOCK_SHAKE256)), KAT_FNV_SHAKE256);
    // The three ciphers produce different containers from identical (pw, K, KDF, salt, plaintext).
    let fnvs = [KAT_FNV_AES256CTR, KAT_FNV_CHACHA20, KAT_FNV_SHAKE256];
    for i in 0..fnvs.len() {
        for j in (i + 1)..fnvs.len() {
            assert_ne!(fnvs[i], fnvs[j], "two ciphers produced identical KAT blocks");
        }
    }
    // Each reads back under its cipher, on plane 0, with the pinned master key.
    for (cipher, block) in [
        (Cipher::Aes256Ctr, KAT_BLOCK_AES256CTR),
        (Cipher::ChaCha20, KAT_BLOCK_CHACHA20),
        (Cipher::Shake256, KAT_BLOCK_SHAKE256),
    ] {
        let c = pinned(cipher, block);
        assert_eq!(
            c.read_plane_with_key(KAT_PW, 0, &KAT_MASTER_KEY).map(|z| z.to_vec()),
            Some(KAT_PT.to_vec()),
            "{cipher:?}"
        );
    }
}

#[test]
fn known_answer_needs_the_whole_credential() {
    let c = pinned(Cipher::Aes256Ctr, KAT_BLOCK_AES256CTR);
    // another plane, another password, a wrong key, a wrong cipher: nothing
    assert!(c.read_plane_with_key(KAT_PW, 1, &KAT_MASTER_KEY).is_none());
    assert!(c.read_plane_with_key("known-answer!", 0, &KAT_MASTER_KEY).is_none());
    let mut key = KAT_MASTER_KEY;
    key[31] ^= 1;
    assert!(c.read_plane_with_key(KAT_PW, 0, &key).is_none());
    for wrong in [Cipher::ChaCha20, Cipher::Shake256] {
        let cw = pinned(wrong, KAT_BLOCK_AES256CTR);
        assert!(cw.read_plane_with_key(KAT_PW, 0, &KAT_MASTER_KEY).is_none(), "{wrong:?}");
    }
    // with every bit flipped the record is gone
    let block: Vec<u8> = pinned_block(KAT_BLOCK_AES256CTR).iter().map(|b| !b).collect();
    let ct = Kpdc::from_bytes_with(block, KAT_K, KdfParams::recommended(), Cipher::Aes256Ctr).unwrap();
    assert!(ct.read_plane_with_key(KAT_PW, 0, &KAT_MASTER_KEY).is_none());
}

const KAT_BLOCK_AES256CTR: &[(u16, u8)] = &[
    (0x000d, 0x40), (0x0040, 0x20), (0x004b, 0x20), (0x0059, 0x08), (0x008c, 0x04), (0x00b8, 0x04), (0x00c1, 0x80), (0x00da, 0x20),
    (0x00f2, 0x01), (0x011e, 0x01), (0x0143, 0x02), (0x0147, 0x04), (0x014a, 0x01), (0x016f, 0x02), (0x0178, 0x40), (0x017f, 0x20),
    (0x0190, 0x02), (0x0192, 0x80), (0x019c, 0x10), (0x01a6, 0x02), (0x01c8, 0x10), (0x01d3, 0x10), (0x01df, 0x80), (0x01e8, 0x02),
    (0x0209, 0x02), (0x0210, 0x01), (0x0218, 0x04), (0x021c, 0x08), (0x0220, 0x10), (0x0224, 0x20), (0x025a, 0x04), (0x026c, 0x02),
    (0x0282, 0x02), (0x02a4, 0x10), (0x02cd, 0x40), (0x02d6, 0x01), (0x02ec, 0x01), (0x02f8, 0x08), (0x02ff, 0x04), (0x031d, 0x10),
    (0x0330, 0x40), (0x0349, 0x10), (0x03c6, 0x20), (0x0401, 0x40), (0x0415, 0x01), (0x0424, 0x02), (0x042d, 0x40), (0x0481, 0x20),
    (0x0489, 0x80), (0x04b3, 0x02), (0x04bb, 0x08), (0x04d1, 0x08), (0x04dd, 0x40), (0x04fd, 0x08), (0x04fe, 0x40), (0x0508, 0x08),
    (0x0543, 0x10), (0x054f, 0x80), (0x0564, 0x10), (0x056e, 0x02), (0x05c0, 0x20), (0x05cd, 0x01), (0x05d9, 0x08), (0x05ef, 0x08),
    (0x060f, 0x01), (0x0613, 0x02), (0x0618, 0x20), (0x0639, 0x20), (0x064a, 0x02), (0x0677, 0x10), (0x068c, 0x02), (0x0697, 0x02),
    (0x0699, 0x80), (0x069e, 0x01), (0x06e1, 0x08), (0x06eb, 0x01), (0x06fa, 0x02), (0x0724, 0x40), (0x0731, 0x02), (0x075b, 0x40),
    (0x076a, 0x80), (0x07a7, 0x08), (0x07c2, 0x80), (0x07d6, 0x02), (0x07e3, 0x80), (0x081f, 0x01), (0x0840, 0x01), (0x085a, 0x02),
    (0x085f, 0x20), (0x0865, 0x02), (0x0866, 0x10), (0x086a, 0x20), (0x0875, 0x20), (0x0883, 0x08), (0x08a8, 0x10), (0x08af, 0x08),
    (0x08bb, 0x40), (0x08cd, 0x20), (0x08cf, 0x01), (0x08fc, 0x08), (0x090a, 0x02), (0x0946, 0x20), (0x094c, 0x02), (0x0990, 0x80),
    (0x0995, 0x01), (0x09a1, 0x08), (0x09a5, 0x10), (0x09af, 0x02), (0x09d7, 0x01), (0x0a08, 0x10), (0x0a1a, 0x08), (0x0a22, 0x20),
    (0x0a28, 0x02), (0x0a2a, 0x80), (0x0a6e, 0x04), (0x0a8f, 0x04), (0x0a98, 0x80), (0x0aa9, 0x08), (0x0ab5, 0x40), (0x0abf, 0x08),
    (0x0b0d, 0x40), (0x0b1f, 0x20), (0x0b2e, 0x40), (0x0b86, 0x40), (0x0b97, 0x04), (0x0b9e, 0x02), (0x0ba5, 0x01), (0x0bfd, 0x01),
    (0x0c3f, 0x01), (0x0c4f, 0x10), (0x0c5e, 0x20), (0x0cc4, 0x08), (0x0cc7, 0x02), (0x0cd0, 0x40), (0x0cfa, 0x01), (0x0d02, 0x04),
    (0x0d0d, 0x04), (0x0d37, 0x80), (0x0d3a, 0x20), (0x0d42, 0x80), (0x0d48, 0x08), (0x0d4f, 0x04), (0x0d70, 0x04), (0x0d78, 0x10),
    (0x0da4, 0x10), (0x0dba, 0x10), (0x0dbb, 0x80), (0x0dc2, 0x40), (0x0ddc, 0x80), (0x0e00, 0x20), (0x0e18, 0x01), (0x0e24, 0x08),
    (0x0e30, 0x40), (0x0e42, 0x20), (0x0e4f, 0x01), (0x0e6e, 0x20), (0x0e74, 0x02), (0x0e7f, 0x02), (0x0e8a, 0x02), (0x0ebe, 0x08),
    (0x0ee6, 0x04), (0x0f08, 0x20), (0x0f25, 0x10), (0x0f4a, 0x20), (0x0f64, 0x40), (0x0f88, 0x10), (0x0fdf, 0x02), (0x1033, 0x01),
    (0x103b, 0x04), (0x1044, 0x80), (0x107d, 0x04), (0x1097, 0x08), (0x10a6, 0x10), (0x10c8, 0x80), (0x10e4, 0x08), (0x10f3, 0x10),
    (0x10f9, 0x01), (0x1108, 0x02), (0x1114, 0x10), (0x114f, 0x20), (0x115a, 0x20), (0x1162, 0x80), (0x1169, 0x40), (0x11ad, 0x02),
    (0x11b9, 0x10), (0x11c7, 0x04), (0x11f6, 0x01), (0x11ff, 0x20), (0x1210, 0x02), (0x121b, 0x02), (0x121d, 0x80), (0x1222, 0x01),
    (0x1228, 0x80), (0x122e, 0x08), (0x1240, 0x04), (0x124b, 0x04), (0x124f, 0x08), (0x1254, 0x80), (0x126c, 0x04), (0x1274, 0x10),
    (0x1290, 0x01), (0x1298, 0x04), (0x12b7, 0x80), (0x12c9, 0x40), (0x12e6, 0x20), (0x12ea, 0x40), (0x130a, 0x08), (0x130d, 0x02),
    (0x131f, 0x01), (0x132a, 0x01), (0x134c, 0x08), (0x1362, 0x08), (0x1375, 0x20), (0x138d, 0x01), (0x139a, 0x40), (0x139d, 0x10),
    (0x13d0, 0x08), (0x13e2, 0x04), (0x13e6, 0x08), (0x1412, 0x08), (0x143a, 0x04), (0x1445, 0x04), (0x1455, 0x40), (0x1466, 0x04),
    (0x1476, 0x40), (0x1495, 0x01), (0x1496, 0x08), (0x14a2, 0x40), (0x14a8, 0x04), (0x14ac, 0x08), (0x14c7, 0x80), (0x14d4, 0x04),
    (0x14dc, 0x10), (0x14df, 0x04), (0x150f, 0x08), (0x152f, 0x01), (0x1563, 0x04), (0x1576, 0x10), (0x1584, 0x04), (0x1590, 0x20),
    (0x15a8, 0x01), (0x15ad, 0x10), (0x15bc, 0x20), (0x15c4, 0x80), (0x15e5, 0x80), (0x163d, 0x80), (0x1651, 0x02), (0x1658, 0x01),
    (0x1686, 0x40), (0x169e, 0x02), (0x16f6, 0x02), (0x1702, 0x10), (0x1719, 0x80), (0x1738, 0x02), (0x1741, 0x40), (0x174e, 0x02),
    (0x177c, 0x80), (0x1790, 0x02), (0x1795, 0x20), (0x17a0, 0x20), (0x17a3, 0x08), (0x17b9, 0x08), (0x17bd, 0x10), (0x17c4, 0x08),
    (0x17e5, 0x08), (0x17f5, 0x80), (0x180e, 0x20), (0x1831, 0x01), (0x183d, 0x08), (0x184b, 0x02), (0x187f, 0x08), (0x1894, 0x01),
    (0x18aa, 0x01), (0x18b5, 0x01), (0x18b6, 0x08), (0x18dc, 0x80), (0x18f8, 0x08), (0x193b, 0x40), (0x193f, 0x80), (0x195a, 0x01),
    (0x1963, 0x20), (0x198f, 0x20), (0x19c3, 0x80), (0x1a17, 0x40), (0x1a1a, 0x10), (0x1a2d, 0x40), (0x1a71, 0x02), (0x1a80, 0x04),
    (0x1acd, 0x04), (0x1ad5, 0x10), (0x1aea, 0x02), (0x1af3, 0x40), (0x1afc, 0x01), (0x1b0b, 0x02), (0x1b1d, 0x01), (0x1b1f, 0x40),
    (0x1b67, 0x04), (0x1ba7, 0x80), (0x1bc3, 0x08), (0x1c04, 0x01), (0x1c08, 0x02), (0x1c09, 0x10), (0x1c22, 0x04), (0x1c4a, 0x02),
    (0x1c4c, 0x80), (0x1c73, 0x08), (0x1c81, 0x02), (0x1c8e, 0x80), (0x1c95, 0x40), (0x1c9f, 0x08), (0x1cb1, 0x04), (0x1ccf, 0x10),
    (0x1cdd, 0x04), (0x1ce0, 0x01), (0x1ce2, 0x40), (0x1d4b, 0x04), (0x1d4c, 0x20), (0x1d5b, 0x40), (0x1d80, 0x80), (0x1d85, 0x01),
    (0x1d9b, 0x01), (0x1da8, 0x40), (0x1dac, 0x80), (0x1db2, 0x08), (0x1e11, 0x04), (0x1e1f, 0x01), (0x1e78, 0x08), (0x1e80, 0x20),
    (0x1eba, 0x08), (0x1ecf, 0x01), (0x1ed3, 0x02), (0x1f0e, 0x04), (0x1f12, 0x08), (0x1f22, 0x80), (0x1f99, 0x02), (0x1fa4, 0x02),
    (0x1fa8, 0x04), (0x1fba, 0x02), (0x1fbe, 0x04), (0x1ff3, 0x80),
];

const KAT_BLOCK_CHACHA20: &[(u16, u8)] = &[
    (0x000d, 0x40), (0x0072, 0x02), (0x00b8, 0x04), (0x00c0, 0x10), (0x00da, 0x20), (0x00f2, 0x01), (0x0141, 0x40), (0x0143, 0x02),
    (0x0147, 0x04), (0x014a, 0x01), (0x016f, 0x02), (0x0178, 0x40), (0x017f, 0x20), (0x0190, 0x02), (0x019c, 0x10), (0x01a6, 0x02),
    (0x01ae, 0x08), (0x01c8, 0x10), (0x01c9, 0x80), (0x01d3, 0x10), (0x01e8, 0x02), (0x0209, 0x02), (0x0218, 0x04), (0x021c, 0x08),
    (0x0224, 0x20), (0x026c, 0x02), (0x0282, 0x02), (0x02a4, 0x10), (0x02ac, 0x40), (0x02cc, 0x08), (0x02cd, 0x40), (0x02d6, 0x01),
    (0x02e6, 0x10), (0x02ec, 0x01), (0x02f5, 0x20), (0x02f8, 0x08), (0x02ff, 0x04), (0x031d, 0x10), (0x0320, 0x04), (0x0329, 0x80),
    (0x0330, 0x40), (0x0349, 0x10), (0x034c, 0x04), (0x0387, 0x08), (0x03e7, 0x20), (0x0401, 0x40), (0x0415, 0x01), (0x0424, 0x02),
    (0x043f, 0x20), (0x0471, 0x02), (0x04a8, 0x02), (0x04bb, 0x08), (0x04d1, 0x08), (0x04dd, 0x40), (0x04ec, 0x80), (0x04fe, 0x40),
    (0x0508, 0x08), (0x050c, 0x10), (0x050f, 0x04), (0x054f, 0x80), (0x056a, 0x01), (0x056c, 0x40), (0x05bb, 0x02), (0x05c0, 0x20),
    (0x05d9, 0x08), (0x05ef, 0x08), (0x060f, 0x01), (0x0623, 0x20), (0x0630, 0x01), (0x0639, 0x20), (0x0662, 0x80), (0x068c, 0x02),
    (0x0697, 0x02), (0x06e1, 0x08), (0x06e5, 0x10), (0x06e6, 0x80), (0x06eb, 0x01), (0x076f, 0x01), (0x07c2, 0x80), (0x07d6, 0x02),
    (0x07e3, 0x80), (0x07e5, 0x04), (0x081a, 0x80), (0x081f, 0x01), (0x0823, 0x02), (0x085a, 0x02), (0x085f, 0x20), (0x0863, 0x40),
    (0x0867, 0x80), (0x086a, 0x20), (0x086c, 0x01), (0x0875, 0x20), (0x08a8, 0x10), (0x08be, 0x10), (0x08cd, 0x20), (0x08cf, 0x01),
    (0x08df, 0x10), (0x08e7, 0x40), (0x08fc, 0x08), (0x0904, 0x20), (0x0927, 0x01), (0x092f, 0x04), (0x094c, 0x02), (0x096a, 0x08),
    (0x0992, 0x04), (0x09a1, 0x08), (0x09a5, 0x10), (0x09d7, 0x01), (0x09d8, 0x08), (0x0a01, 0x20), (0x0a08, 0x10), (0x0a0f, 0x08),
    (0x0a14, 0x80), (0x0a1a, 0x08), (0x0a28, 0x02), (0x0a2a, 0x80), (0x0a35, 0x80), (0x0a6c, 0x80), (0x0a8f, 0x04), (0x0a98, 0x80),
    (0x0aa9, 0x08), (0x0ab5, 0x40), (0x0abf, 0x08), (0x0ae0, 0x08), (0x0af9, 0x02), (0x0b16, 0x01), (0x0b1f, 0x20), (0x0b23, 0x40),
    (0x0b34, 0x04), (0x0b48, 0x80), (0x0b53, 0x80), (0x0ba5, 0x01), (0x0bb8, 0x04), (0x0bef, 0x04), (0x0bf2, 0x01), (0x0c0d, 0x10),
    (0x0c3f, 0x01), (0x0c5e, 0x20), (0x0c6d, 0x40), (0x0c90, 0x02), (0x0ca0, 0x20), (0x0cc4, 0x08), (0x0cd0, 0x40), (0x0d02, 0x04),
    (0x0d0d, 0x04), (0x0d26, 0x01), (0x0d37, 0x80), (0x0d3a, 0x20), (0x0d42, 0x80), (0x0d68, 0x01), (0x0d70, 0x04), (0x0da4, 0x10),
    (0x0da7, 0x04), (0x0dba, 0x10), (0x0dbb, 0x80), (0x0dd6, 0x01), (0x0ddc, 0x80), (0x0ddf, 0x20), (0x0e04, 0x40), (0x0e12, 0x10),
    (0x0e24, 0x08), (0x0e30, 0x40), (0x0e42, 0x20), (0x0e4f, 0x01), (0x0e6e, 0x20), (0x0ebd, 0x01), (0x0ebe, 0x08), (0x0ec5, 0x04),
    (0x0ecd, 0x10), (0x0ee0, 0x40), (0x0ee6, 0x04), (0x0ef4, 0x01), (0x0efa, 0x80), (0x0f59, 0x40), (0x0f64, 0x40), (0x0f88, 0x10),
    (0x0fdf, 0x02), (0x0fee, 0x04), (0x103b, 0x04), (0x106a, 0x01), (0x10ad, 0x08), (0x10c4, 0x40), (0x10c8, 0x80), (0x10e0, 0x04),
    (0x10f3, 0x10), (0x110c, 0x04), (0x1114, 0x10), (0x112d, 0x04), (0x114f, 0x20), (0x115a, 0x20), (0x1162, 0x80), (0x11ad, 0x02),
    (0x11b9, 0x10), (0x11c7, 0x04), (0x1205, 0x02), (0x1210, 0x02), (0x121b, 0x02), (0x1222, 0x01), (0x1228, 0x80), (0x122e, 0x08),
    (0x123c, 0x02), (0x1240, 0x04), (0x1243, 0x01), (0x124b, 0x04), (0x126c, 0x04), (0x1274, 0x10), (0x1289, 0x02), (0x1290, 0x01),
    (0x1298, 0x04), (0x12bd, 0x08), (0x12c9, 0x40), (0x12f7, 0x02), (0x130a, 0x08), (0x131f, 0x01), (0x1325, 0x80), (0x134c, 0x08),
    (0x1362, 0x08), (0x1375, 0x20), (0x138d, 0x01), (0x13d0, 0x08), (0x13db, 0x08), (0x13e2, 0x04), (0x13e6, 0x08), (0x13fc, 0x08),
    (0x1412, 0x08), (0x143a, 0x04), (0x1445, 0x04), (0x1455, 0x40), (0x1466, 0x04), (0x1495, 0x01), (0x14a2, 0x40), (0x14a8, 0x04),
    (0x14ac, 0x08), (0x14c6, 0x10), (0x14c7, 0x80), (0x14d4, 0x04), (0x14df, 0x04), (0x150f, 0x08), (0x152f, 0x01), (0x1563, 0x04),
    (0x1576, 0x10), (0x1584, 0x04), (0x15a8, 0x01), (0x15bc, 0x20), (0x163d, 0x80), (0x1651, 0x02), (0x1655, 0x04), (0x167f, 0x80),
    (0x1685, 0x08), (0x1698, 0x20), (0x169c, 0x40), (0x169e, 0x02), (0x16e1, 0x10), (0x16f4, 0x40), (0x16ff, 0x40), (0x1702, 0x10),
    (0x1719, 0x80), (0x173f, 0x01), (0x1741, 0x40), (0x174e, 0x02), (0x177c, 0x80), (0x178e, 0x40), (0x1790, 0x02), (0x1795, 0x20),
    (0x17a0, 0x20), (0x17a3, 0x08), (0x17b9, 0x08), (0x17bd, 0x10), (0x17c4, 0x08), (0x17f0, 0x08), (0x184b, 0x02), (0x1894, 0x01),
    (0x18b2, 0x04), (0x18b5, 0x01), (0x18b6, 0x08), (0x18dc, 0x80), (0x192e, 0x01), (0x193f, 0x80), (0x195a, 0x01), (0x1980, 0x10),
    (0x198c, 0x80), (0x198f, 0x20), (0x19b6, 0x02), (0x1a17, 0x40), (0x1a1a, 0x10), (0x1a2d, 0x40), (0x1a33, 0x04), (0x1a6e, 0x08),
    (0x1a71, 0x02), (0x1a9a, 0x08), (0x1ad5, 0x10), (0x1aea, 0x02), (0x1af3, 0x40), (0x1afc, 0x01), (0x1b1d, 0x01), (0x1b1f, 0x40),
    (0x1b28, 0x01), (0x1b4b, 0x40), (0x1b67, 0x04), (0x1b70, 0x80), (0x1ba7, 0x80), (0x1bc3, 0x08), (0x1bc8, 0x80), (0x1c04, 0x01),
    (0x1c09, 0x10), (0x1c22, 0x04), (0x1c4a, 0x02), (0x1c4f, 0x20), (0x1c73, 0x08), (0x1c8a, 0x40), (0x1c8e, 0x80), (0x1c98, 0x10),
    (0x1ca6, 0x04), (0x1cab, 0x40), (0x1ccf, 0x10), (0x1cdd, 0x04), (0x1ce0, 0x01), (0x1ce2, 0x40), (0x1ceb, 0x01), (0x1d0c, 0x01),
    (0x1d27, 0x10), (0x1d4c, 0x20), (0x1d82, 0x04), (0x1d85, 0x01), (0x1d9b, 0x01), (0x1da8, 0x40), (0x1dac, 0x80), (0x1db2, 0x08),
    (0x1e1f, 0x01), (0x1e3d, 0x04), (0x1e44, 0x02), (0x1e78, 0x08), (0x1e80, 0x20), (0x1e8d, 0x01), (0x1eba, 0x08), (0x1ecf, 0x01),
    (0x1ed3, 0x02), (0x1f0e, 0x04), (0x1f22, 0x80), (0x1f55, 0x40), (0x1f64, 0x80), (0x1f99, 0x02), (0x1fba, 0x02), (0x1fe3, 0x08),
    (0x1ff3, 0x80),
];

const KAT_BLOCK_SHAKE256: &[(u16, u8)] = &[
    (0x0037, 0x01), (0x0053, 0x80), (0x0059, 0x08), (0x006c, 0x20), (0x0072, 0x02), (0x008c, 0x04), (0x00b8, 0x04), (0x00f2, 0x01),
    (0x011e, 0x01), (0x0141, 0x40), (0x0161, 0x08), (0x0178, 0x40), (0x017f, 0x20), (0x0190, 0x02), (0x01ae, 0x08), (0x01c8, 0x10),
    (0x01d3, 0x10), (0x01df, 0x80), (0x01e8, 0x02), (0x0209, 0x02), (0x021c, 0x08), (0x021f, 0x02), (0x025f, 0x40), (0x026c, 0x02),
    (0x027b, 0x04), (0x0282, 0x02), (0x029a, 0x80), (0x02a4, 0x10), (0x02ac, 0x40), (0x02cd, 0x40), (0x02d4, 0x20), (0x02d6, 0x01),
    (0x02ec, 0x01), (0x02f8, 0x08), (0x02ff, 0x04), (0x031c, 0x02), (0x031d, 0x10), (0x0329, 0x80), (0x0330, 0x40), (0x0349, 0x10),
    (0x034c, 0x04), (0x03c6, 0x20), (0x0401, 0x40), (0x0415, 0x01), (0x0421, 0x08), (0x0424, 0x02), (0x042d, 0x40), (0x043f, 0x20),
    (0x0481, 0x20), (0x04a6, 0x40), (0x04b8, 0x20), (0x04bb, 0x08), (0x04ec, 0x80), (0x04fd, 0x08), (0x04fe, 0x40), (0x050f, 0x04),
    (0x0526, 0x20), (0x054f, 0x80), (0x0564, 0x10), (0x056a, 0x01), (0x056b, 0x08), (0x056e, 0x02), (0x0572, 0x04), (0x057d, 0x04),
    (0x05bb, 0x02), (0x05c3, 0x08), (0x05ef, 0x08), (0x0613, 0x02), (0x0618, 0x20), (0x0623, 0x20), (0x062e, 0x20), (0x0630, 0x01),
    (0x0639, 0x20), (0x065c, 0x01), (0x0662, 0x80), (0x0677, 0x10), (0x0699, 0x80), (0x06af, 0x80), (0x06e1, 0x08), (0x06e5, 0x10),
    (0x06e6, 0x80), (0x06eb, 0x01), (0x06fa, 0x02), (0x0724, 0x40), (0x075b, 0x40), (0x076a, 0x80), (0x07c2, 0x80), (0x07e5, 0x04),
    (0x081a, 0x80), (0x081f, 0x01), (0x0823, 0x02), (0x085a, 0x02), (0x085f, 0x20), (0x086a, 0x20), (0x0875, 0x20), (0x08a8, 0x10),
    (0x08af, 0x08), (0x08bb, 0x40), (0x08be, 0x10), (0x08c5, 0x08), (0x08cd, 0x20), (0x08df, 0x10), (0x08e7, 0x40), (0x08fc, 0x08),
    (0x090a, 0x02), (0x0916, 0x10), (0x0927, 0x01), (0x092f, 0x04), (0x094c, 0x02), (0x0958, 0x10), (0x096a, 0x08), (0x096b, 0x40),
    (0x0990, 0x80), (0x09a1, 0x08), (0x09af, 0x02), (0x09d0, 0x02), (0x09d7, 0x01), (0x0a01, 0x20), (0x0a08, 0x10), (0x0a1a, 0x08),
    (0x0a1d, 0x02), (0x0a28, 0x02), (0x0a2a, 0x80), (0x0a46, 0x08), (0x0a98, 0x80), (0x0ab5, 0x40), (0x0abf, 0x08), (0x0b16, 0x01),
    (0x0b1f, 0x20), (0x0b23, 0x40), (0x0b34, 0x04), (0x0b48, 0x80), (0x0b53, 0x80), (0x0b6f, 0x08), (0x0b73, 0x10), (0x0b97, 0x04),
    (0x0b9c, 0x40), (0x0ba2, 0x04), (0x0bb8, 0x04), (0x0bfd, 0x01), (0x0c18, 0x10), (0x0c5e, 0x20), (0x0c6d, 0x40), (0x0c78, 0x40),
    (0x0ca0, 0x20), (0x0cc7, 0x02), (0x0cd0, 0x40), (0x0d0d, 0x04), (0x0d3a, 0x20), (0x0d68, 0x01), (0x0d70, 0x04), (0x0d73, 0x01),
    (0x0d9a, 0x80), (0x0da4, 0x10), (0x0da7, 0x04), (0x0dba, 0x10), (0x0dbb, 0x80), (0x0dc2, 0x40), (0x0dd6, 0x01), (0x0ddc, 0x80),
    (0x0de6, 0x10), (0x0e12, 0x10), (0x0e24, 0x08), (0x0e8e, 0x04), (0x0ebe, 0x08), (0x0ec5, 0x04), (0x0ecd, 0x10), (0x0ece, 0x80),
    (0x0f25, 0x10), (0x0f4a, 0x20), (0x0f88, 0x10), (0x0fdf, 0x02), (0x1033, 0x01), (0x103b, 0x04), (0x1097, 0x08), (0x10a3, 0x40),
    (0x10a6, 0x10), (0x10aa, 0x20), (0x10c8, 0x80), (0x10e4, 0x08), (0x1114, 0x10), (0x114f, 0x20), (0x1169, 0x40), (0x11ad, 0x02),
    (0x11c7, 0x04), (0x11f6, 0x01), (0x11ff, 0x20), (0x1205, 0x02), (0x121b, 0x02), (0x1222, 0x01), (0x1228, 0x80), (0x122e, 0x08),
    (0x1243, 0x01), (0x124b, 0x04), (0x124f, 0x08), (0x1254, 0x80), (0x126c, 0x04), (0x1290, 0x01), (0x1298, 0x04), (0x12b7, 0x80),
    (0x12bd, 0x08), (0x12e6, 0x20), (0x12ea, 0x40), (0x131f, 0x01), (0x1325, 0x80), (0x132a, 0x01), (0x134c, 0x08), (0x1362, 0x08),
    (0x138d, 0x01), (0x1396, 0x20), (0x139a, 0x40), (0x139d, 0x10), (0x13d5, 0x80), (0x13db, 0x08), (0x13e2, 0x04), (0x13e6, 0x08),
    (0x1445, 0x04), (0x1455, 0x40), (0x1476, 0x40), (0x14a8, 0x04), (0x14c6, 0x10), (0x14cd, 0x08), (0x14d4, 0x04), (0x14dc, 0x10),
    (0x14df, 0x04), (0x14e3, 0x08), (0x150f, 0x08), (0x151a, 0x08), (0x1526, 0x40), (0x1563, 0x04), (0x15a8, 0x01), (0x15bc, 0x20),
    (0x15ce, 0x10), (0x15da, 0x80), (0x15e5, 0x80), (0x163d, 0x80), (0x1658, 0x01), (0x165e, 0x80), (0x167f, 0x80), (0x1685, 0x08),
    (0x168d, 0x20), (0x1698, 0x20), (0x16f4, 0x40), (0x16f6, 0x02), (0x16ff, 0x40), (0x1719, 0x80), (0x1738, 0x02), (0x173f, 0x01),
    (0x1741, 0x40), (0x174e, 0x02), (0x1759, 0x02), (0x177c, 0x80), (0x17a0, 0x20), (0x17a3, 0x08), (0x17b6, 0x20), (0x17b9, 0x08),
    (0x17c4, 0x08), (0x17f0, 0x08), (0x17f4, 0x10), (0x180e, 0x20), (0x181b, 0x01), (0x184b, 0x02), (0x187f, 0x08), (0x1894, 0x01),
    (0x18aa, 0x01), (0x18b6, 0x08), (0x18c6, 0x80), (0x18dc, 0x80), (0x1920, 0x04), (0x193b, 0x40), (0x193f, 0x80), (0x1954, 0x10),
    (0x195a, 0x01), (0x198c, 0x80), (0x198f, 0x20), (0x19b6, 0x02), (0x19c3, 0x80), (0x19ef, 0x80), (0x1a17, 0x40), (0x1a1a, 0x10),
    (0x1a2d, 0x40), (0x1a6e, 0x08), (0x1a80, 0x04), (0x1a94, 0x80), (0x1ad1, 0x08), (0x1ad5, 0x10), (0x1aea, 0x02), (0x1afc, 0x01),
    (0x1b0b, 0x02), (0x1b1f, 0x40), (0x1b28, 0x01), (0x1b5d, 0x20), (0x1b63, 0x02), (0x1b67, 0x04), (0x1ba7, 0x80), (0x1bc3, 0x08),
    (0x1be9, 0x80), (0x1c04, 0x01), (0x1c08, 0x02), (0x1c1c, 0x40), (0x1c30, 0x01), (0x1c46, 0x01), (0x1c4a, 0x02), (0x1c4c, 0x80),
    (0x1c4f, 0x20), (0x1c73, 0x08), (0x1c8e, 0x80), (0x1c9f, 0x08), (0x1cab, 0x40), (0x1cdd, 0x04), (0x1ce2, 0x40), (0x1d0c, 0x01),
    (0x1d28, 0x80), (0x1d38, 0x01), (0x1d44, 0x08), (0x1d4b, 0x04), (0x1d7a, 0x01), (0x1d80, 0x80), (0x1d9b, 0x01), (0x1dba, 0x20),
    (0x1e19, 0x10), (0x1e78, 0x08), (0x1e99, 0x08), (0x1eba, 0x08), (0x1ecf, 0x01), (0x1ed3, 0x02), (0x1edf, 0x10), (0x1f0e, 0x04),
    (0x1f12, 0x08), (0x1f55, 0x40), (0x1f5c, 0x20), (0x1fa8, 0x04), (0x1ff3, 0x80),
];
