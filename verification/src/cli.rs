//! The decisions of the command-line front-end: its KDF floor, its warnings, and its
//! create / write / read steps on in-memory blocks. The front-end itself only reads and
//! writes files, prompts for passwords and prints.

use vstd::prelude::*;
use vstd::string::{StringExecFns, StringSliceAdditionalSpecFns};
use vstd::utf8::encode_utf8;

use crate::app::{
    bad_k_text, kdf_params, texts, write_block_error, write_done, write_opened, Kdf,
    REC_ITERS, REC_MEM_MIB,
};
use crate::derive::Cipher;
use crate::kpdc::{block_len_ok, error_message, params_error, spec_read, Kpdc, KpdcState};
use crate::primitives::{secret_bytes, Secret};
use crate::text::{dec_str, decimal};

verus! {

/// The lowest memory cost the command line accepts, in MiB (the OWASP Argon2id floor):
/// below it the memory-hard gate makes offline guessing cheap.
pub const MIN_KDF_MEM_MIB: u32 = 19;

/// The refusal of a zero pass count.
pub const ITERS_ZERO: &'static str = "--kdf-iters must be >= 1";

/// The text after the value in the refusal of a memory cost below the floor.
pub const MEM_FLOOR_MIDDLE: &'static str = " MiB minimum (OWASP Argon2id floor); a weaker gate makes offline guessing of the verification oracle cheap. The recommended cost is ";

/// Why the command line refuses a KDF cost, or `None` if it accepts it.
pub open spec fn kdf_args_error(mem_mib: u32, iters: u32) -> Option<Seq<char>> {
    if iters == 0 {
        Some(ITERS_ZERO@)
    } else if mem_mib < MIN_KDF_MEM_MIB {
        Some("--kdf-mem-mib "@ + dec_str(mem_mib as nat) + " is below the "@ + dec_str(MIN_KDF_MEM_MIB as nat)
            + MEM_FLOOR_MIDDLE@ + dec_str(REC_MEM_MIB as nat) + " MiB."@)
    } else {
        None
    }
}

/// Checks a KDF cost given on the command line: at least one pass and at least
/// [`MIN_KDF_MEM_MIB`] MiB.
pub fn check_kdf_args(mem_mib: u32, iters: u32) -> (r: Result<(), String>)
    ensures
        match r {
            Ok(()) => kdf_args_error(mem_mib, iters) is None,
            Err(m) => kdf_args_error(mem_mib, iters) == Some(m@),
        },
{
    if iters == 0 {
        return Err(String::from_str(ITERS_ZERO));
    }
    if mem_mib < MIN_KDF_MEM_MIB {
        let mut m = String::from_str("--kdf-mem-mib ");
        m.append(decimal(mem_mib as u64).as_str());
        m.append(" is below the ");
        m.append(decimal(MIN_KDF_MEM_MIB as u64).as_str());
        m.append(MEM_FLOOR_MIDDLE);
        m.append(decimal(REC_MEM_MIB as u64).as_str());
        m.append(" MiB.");
        return Err(m);
    }
    Ok(())
}

/// The warning for a `K` that is not recommended, as the command line prints it.
pub fn k_warning(k: u64) -> (r: Option<String>)
    ensures
        match r {
            None => crate::primes::is_odd_prime(k as nat),
            Some(m) => !crate::primes::is_odd_prime(k as nat) && m@ == "warning: "@ + bad_k_text(k),
        },
{
    match crate::app::bad_k_warning(k) {
        None => None,
        Some(t) => {
            let mut m = String::from_str("warning: ");
            m.append(t.as_str());
            Some(m)
        },
    }
}

/// The text after the pass count in the command line's warning for a custom KDF cost.
pub const CUSTOM_KDF_CLI_TAIL: &'static str = "). This is part of the credential and is NOT stored \u{2014} you must supply these EXACT values to decrypt, or the payload is unrecoverable and indistinguishable from a wrong password.";

/// The command line's warning for a custom KDF cost.
pub open spec fn kdf_cli_warning_text(mem_mib: u32, iters: u32) -> Seq<char> {
    "warning: custom KDF cost (mem="@ + dec_str(mem_mib as nat) + " MiB, iters="@ + dec_str(iters as nat)
        + CUSTOM_KDF_CLI_TAIL@
}

/// The warning for a KDF cost other than the recommended one, as the command line
/// prints it, or `None`.
pub fn kdf_warning(mem_mib: u32, iters: u32) -> (r: Option<String>)
    ensures
        match r {
            None => mem_mib == REC_MEM_MIB && iters == REC_ITERS,
            Some(m) => (mem_mib != REC_MEM_MIB || iters != REC_ITERS) && m@ == kdf_cli_warning_text(mem_mib, iters),
        },
{
    if mem_mib != REC_MEM_MIB || iters != REC_ITERS {
        let mut m = String::from_str("warning: custom KDF cost (mem=");
        m.append(decimal(mem_mib as u64).as_str());
        m.append(" MiB, iters=");
        m.append(decimal(iters as u64).as_str());
        m.append(CUSTOM_KDF_CLI_TAIL);
        Some(m)
    } else {
        None
    }
}

/// The warning printed when a password is given as an argument.
pub const PASSWORD_ARG_WARNING: &'static str = "warning: passing --password on the command line leaks it via `ps`/history; prefer the prompt.";

/// The refusal of a create without a size on a target that is not raw.
pub const SIZE_REQUIRED: &'static str = "--size is required (or use --raw on a block device to auto-detect its size)";

/// The size to create: the given one; `None` (measure the raw target) when none is given
/// and the target is raw; otherwise the refusal.
pub fn create_size(size: Option<usize>, raw: bool) -> (r: Result<Option<usize>, String>)
    ensures
        match r {
            Ok(Some(n)) => size == Some(n),
            Ok(None) => size is None && raw,
            Err(m) => size is None && !raw && m@ == SIZE_REQUIRED@,
        },
{
    match size {
        Some(n) => Ok(Some(n)),
        None => if raw {
            Ok(None)
        } else {
            Err(String::from_str(SIZE_REQUIRED))
        },
    }
}

/// The text after the unused byte count in the warning for a raw target larger than the
/// container.
pub const SHORTFALL_TAIL: &'static str = " bytes keep their old contents \u{2014} a structure-after-noise tell. Fill the whole device for best deniability.";

/// The warning for a container smaller than its raw target of `dev` bytes.
pub open spec fn shortfall_text(size: nat, dev: nat) -> Seq<char> {
    "warning: size "@ + dec_str(size) + " is smaller than the target ("@ + dec_str(dev)
        + " bytes); the remaining "@ + dec_str((dev - size) as nat) + SHORTFALL_TAIL@
}

/// A warning when a container of `size` bytes does not fill its raw target of `dev` bytes.
pub fn shortfall_warning(size: usize, dev: u64) -> (r: Option<String>)
    ensures
        match r {
            None => dev <= size,
            Some(m) => size < dev && m@ == shortfall_text(size as nat, dev as nat),
        },
{
    if (size as u64) < dev {
        let mut m = String::from_str("warning: size ");
        m.append(decimal(size as u64).as_str());
        m.append(" is smaller than the target (");
        m.append(decimal(dev).as_str());
        m.append(" bytes); the remaining ");
        m.append(decimal(dev - size as u64).as_str());
        m.append(SHORTFALL_TAIL);
        Some(m)
    } else {
        None
    }
}

/// The line reporting a created container.
pub open spec fn created_text(out: Seq<char>, size: nat, k: u64, raw: bool) -> Seq<char> {
    "created "@ + out + " ("@ + dec_str(size) + " bytes, K="@ + dec_str(k as nat)
        + (if raw { ", raw"@ } else { Seq::<char>::empty() }) + ")"@
}

/// The line reporting a created container.
pub fn created_line(out: &str, size: usize, k: u64, raw: bool) -> (m: String)
    ensures
        m@ == created_text(out@, size as nat, k, raw),
{
    let mut m = String::from_str("created ");
    m.append(out);
    m.append(" (");
    m.append(decimal(size as u64).as_str());
    m.append(" bytes, K=");
    m.append(decimal(k).as_str());
    if raw {
        m.append(", raw");
    }
    m.append(")");
    m
}

/// The refusal of a whole-block rewrite without `--all-keys`.
pub const CLI_ALL_KEYS_REQUIRED: &'static str = "default write re-randomizes the WHOLE container and destroys any payload whose password you don't supply. Pass --known <pw> for every other payload, then re-run with --all-keys to confirm. (Or --no-rerandomize for an in-place write that leaves a multi-snapshot diffing fingerprint.)";

/// The refusal of a whole-block rewrite when a `--known` password reads nothing.
pub const CLI_KNOWN_UNREADABLE: &'static str = "a --known password did not decrypt any payload (wrong password, or wrong K / KDF cost). Aborting so re-randomize does not destroy data.";

/// The message a block is refused with under `k` and `kdf`, or `None` when it opens.
pub open spec fn cli_open_error(len: nat, k: u64, kdf: Kdf) -> Option<Seq<char>> {
    match params_error(len, k, kdf_params(kdf)) {
        Some(e) => Some(error_message(e)),
        None => None,
    }
}

/// The container a block makes under the credential `k`, `kdf` and `cipher`.
pub open spec fn opened_as(block: Seq<u8>, k: u64, kdf: Kdf, cipher: Cipher) -> KpdcState {
    KpdcState { block, k, kdf: kdf_params(kdf), cipher }
}

/// The `write` command on a block: by default a whole-block rewrite from every `known`
/// payload plus `plaintext` under `pw` (which needs `all_keys`); with `no_rerandomize` an
/// in-place write, the block opened under `k`, `kdf` and `cipher`. Returns the new block
/// and the line to report.
pub fn write_command(
    block: Vec<u8>,
    pw: &str,
    plaintext: &[u8],
    known: &[String],
    k: u64,
    kdf: Kdf,
    cipher: Cipher,
    maxprobe: usize,
    no_rerandomize: bool,
    all_keys: bool,
) -> (r: Result<(Vec<u8>, String), String>)
    requires
        block_len_ok(block@.len()),
        pw.spec_bytes().len() + 8 <= 0xFFFF_FFFF,
        forall|i: int| 0 <= i < known@.len() ==> encode_utf8((#[trigger] known@[i])@).len() + 8 <= 0xFFFF_FFFF,
        plaintext@.len() <= u32::MAX ==> 8 * (plaintext@.len() + 68) <= usize::MAX,
    ensures
        match r {
            Ok((b, log)) => cli_open_error(block@.len(), k, kdf) is None
                && write_done(opened_as(block@, k, kdf, cipher), b@, log@, pw@, plaintext@, texts(known@), maxprobe, !no_rerandomize, all_keys),
            Err(m) => match cli_open_error(block@.len(), k, kdf) {
                Some(t) => m@ == t,
                None => write_block_error(opened_as(block@, k, kdf, cipher), pw@, plaintext@, texts(known@), maxprobe,
                    !no_rerandomize, all_keys, CLI_ALL_KEYS_REQUIRED@, CLI_KNOWN_UNREADABLE@, m@),
            },
        },
{
    let c = match Kpdc::from_bytes_with(block, k, kdf.params(), cipher) {
        Ok(c) => c,
        Err(e) => {
            return Err(e.message());
        },
    };
    write_opened(c, pw, plaintext, known, maxprobe, !no_rerandomize, all_keys, CLI_ALL_KEYS_REQUIRED, CLI_KNOWN_UNREADABLE)
}

/// The refusal of a read that finds nothing.
pub const NO_PAYLOAD: &'static str = "no payload for that (password, K, KDF cost) \u{2014} just noise";

/// The `read` command on a block, opened under `k`, `kdf` and `cipher`: the payload of
/// `pw`, or the refusal.
pub fn read_command(block: Vec<u8>, pw: &str, k: u64, kdf: Kdf, cipher: Cipher, maxprobe: usize) -> (r: Result<Secret, String>)
    requires
        block_len_ok(block@.len()),
        pw.spec_bytes().len() + 8 <= 0xFFFF_FFFF,
    ensures
        match r {
            Ok(v) => cli_open_error(block@.len(), k, kdf) is None
                && spec_read(opened_as(block@, k, kdf, cipher), pw.spec_bytes(), maxprobe) == Some(secret_bytes(v)),
            Err(m) => match cli_open_error(block@.len(), k, kdf) {
                Some(t) => m@ == t,
                None => spec_read(opened_as(block@, k, kdf, cipher), pw.spec_bytes(), maxprobe) is None && m@ == NO_PAYLOAD@,
            },
        },
{
    let c = match Kpdc::from_bytes_with(block, k, kdf.params(), cipher) {
        Ok(c) => c,
        Err(e) => {
            return Err(e.message());
        },
    };
    match c.read(pw, maxprobe) {
        Some(pt) => Ok(pt),
        None => Err(String::from_str(NO_PAYLOAD)),
    }
}

} // verus!
