//! Tests of the command-line front-end's decisions.

use azoth::app::{create_block, Kdf};
use azoth::Cipher;
use azoth::cli::{
    check_kdf_args, create_size, created_line, k_warning, kdf_warning, read_command,
    shortfall_warning, write_command,
};

fn cheap() -> Kdf {
    Kdf { mem_mib: 8, iters: 1 }
}

#[test]
fn kdf_floor() {
    assert_eq!(check_kdf_args(256, 3), Ok(()));
    assert_eq!(check_kdf_args(19, 1), Ok(()));
    assert_eq!(check_kdf_args(256, 0), Err("--kdf-iters must be >= 1".to_string()));
    assert_eq!(
        check_kdf_args(18, 3),
        Err("--kdf-mem-mib 18 is below the 19 MiB minimum (OWASP Argon2id floor); a weaker gate makes offline guessing of the verification oracle cheap. The recommended cost is 256 MiB.".to_string())
    );
    assert_eq!(check_kdf_args(0, 0), Err("--kdf-iters must be >= 1".to_string()));
}

#[test]
fn cli_warnings() {
    assert_eq!(k_warning(419), None);
    assert_eq!(
        k_warning(12),
        Some("warning: K=12 is not a prime coprime to 8; plane geometry may be skewed and deniability weakened. Get a good K with `azoth prime <n>`.".to_string())
    );
    assert_eq!(kdf_warning(256, 3), None);
    assert_eq!(
        kdf_warning(512, 3),
        Some("warning: custom KDF cost (mem=512 MiB, iters=3). This is part of the credential and is NOT stored \u{2014} you must supply these EXACT values to decrypt, or the payload is unrecoverable and indistinguishable from a wrong password.".to_string())
    );
    assert_eq!(shortfall_warning(100, 100), None);
    assert_eq!(shortfall_warning(200, 100), None);
    assert_eq!(
        shortfall_warning(100, 164),
        Some("warning: size 100 is smaller than the target (164 bytes); the remaining 64 bytes keep their old contents \u{2014} a structure-after-noise tell. Fill the whole device for best deniability.".to_string())
    );
}

#[test]
fn create_steps() {
    assert_eq!(create_size(Some(4096), false), Ok(Some(4096)));
    assert_eq!(create_size(Some(4096), true), Ok(Some(4096)));
    assert_eq!(create_size(None, true), Ok(None));
    assert_eq!(
        create_size(None, false),
        Err("--size is required (or use --raw on a block device to auto-detect its size)".to_string())
    );
    assert_eq!(created_line("vault.bin", 65536, 419, false), "created vault.bin (65536 bytes, K=419)");
    assert_eq!(created_line("/dev/sdz", 1024, 11, true), "created /dev/sdz (1024 bytes, K=11, raw)");
}

#[test]
fn write_and_read_commands() {
    let block = create_block(8192, 11, cheap()).unwrap();
    let refused = write_command(block.clone(), "a", b"x", &[], 11, cheap(), Cipher::Aes256Ctr, 4, false, false).unwrap_err();
    assert!(refused.starts_with("default write re-randomizes the WHOLE container"));
    let (block, log) = write_command(block, "a", b"alpha", &[], 11, cheap(), Cipher::Aes256Ctr, 4, false, true).unwrap();
    assert_eq!(log, "re-randomized container with 1 payload(s) \u{2014} whole block rewritten (multi-snapshot safe)");
    let bad = write_command(block.clone(), "b", b"bravo", &["nope".to_string()], 11, cheap(), Cipher::Aes256Ctr, 4, false, true);
    assert_eq!(
        bad.unwrap_err(),
        "a --known password did not decrypt any payload (wrong password, or wrong K / KDF cost). Aborting so re-randomize does not destroy data."
    );
    let (block, log) = write_command(block, "b", b"bravo", &[], 11, cheap(), Cipher::Aes256Ctr, 4, true, false).unwrap();
    assert!(log.starts_with("wrote 5 bytes into plane "));
    assert_eq!(read_command(block.clone(), "a", 11, cheap(), Cipher::Aes256Ctr, 4).unwrap().to_vec(), b"alpha".to_vec());
    assert_eq!(read_command(block.clone(), "b", 11, cheap(), Cipher::Aes256Ctr, 4).unwrap().to_vec(), b"bravo".to_vec());
    assert_eq!(
        read_command(block.clone(), "c", 11, cheap(), Cipher::Aes256Ctr, 4).err(),
        Some("no payload for that (password, K, KDF cost) \u{2014} just noise".to_string())
    );
    assert_eq!(
        read_command(block, "a", 4, cheap(), Cipher::Aes256Ctr, 4).err(),
        Some("invalid K=4: must be coprime to 8 (i.e. odd) or the bit-planes collapse onto fixed within-byte positions and the container is no longer indistinguishable from random \u{2014} use `azoth prime <n>` for a good K".to_string())
    );
}

#[test]
fn cipher_is_part_of_the_credential() {
    let block = create_block(8192, 11, cheap()).unwrap();
    let (block, _) = write_command(block, "a", b"alpha", &[], 11, cheap(), Cipher::ChaCha20, 4, true, false).unwrap();
    assert_eq!(read_command(block.clone(), "a", 11, cheap(), Cipher::ChaCha20, 4).unwrap().to_vec(), b"alpha".to_vec());
    for wrong in [Cipher::Aes256Ctr, Cipher::Shake256] {
        assert_eq!(
            read_command(block.clone(), "a", 11, cheap(), wrong, 4).err(),
            Some("no payload for that (password, K, KDF cost) \u{2014} just noise".to_string())
        );
    }
    // a rebuild under the same cipher carries the payload over
    let (block, _) = write_command(block, "b", b"bravo", &["a".to_string()], 11, cheap(), Cipher::ChaCha20, 4, false, true).unwrap();
    assert_eq!(read_command(block.clone(), "a", 11, cheap(), Cipher::ChaCha20, 4).unwrap().to_vec(), b"alpha".to_vec());
    assert_eq!(read_command(block, "b", 11, cheap(), Cipher::ChaCha20, 4).unwrap().to_vec(), b"bravo".to_vec());
}
