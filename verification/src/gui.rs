//! The decisions of the desktop front-end: its form fields checked and parsed into a
//! request for the worker, and the lines it logs. Drawing the window, running the worker
//! and reading or writing files stay with the front-end.

use vstd::prelude::*;
use vstd::string::{StrSliceExecFns, StringExecFns};

use vstd::string::StringSliceAdditionalSpecFns;
use vstd::utf8::encode_utf8;

use crate::app::{
    chars_of, opened, open_error, parse_size, parse_u64, parse_u64_chars, size_message,
    size_value, trim, trim_bounds, trim_string, trimmed, texts, write_block_error, write_done,
    write_opened, Kdf, KDF_ZERO, KNOWN_UNREADABLE,
};
use crate::kpdc::{block_len_ok, Kpdc, DEFAULT_MAXPROBE};
use crate::text::{debug_quoted, dec_str, decimal};

verus! {

/// The refusal of a K field that is not a whole number.
pub const K_NOT_A_NUMBER: &'static str = "K must be a whole number >= 2";

/// The refusal of a memory field that is not a whole number.
pub const MEM_NOT_A_NUMBER: &'static str = "KDF memory (MiB) must be a whole number";

/// The refusal of a pass-count field that is not a whole number.
pub const ITERS_NOT_A_NUMBER: &'static str = "KDF iterations must be a whole number";

/// What `str::parse::<u32>` gives (see [`parse_u64`]).
pub open spec fn parse_u32(s: Seq<char>) -> Option<u32> {
    match parse_u64(s) {
        Some(v) => if v <= u32::MAX {
            Some(v as u32)
        } else {
            None
        },
        None => None,
    }
}

/// The K field, trimmed, as a whole number.
pub fn parse_k(text: &str) -> (r: Result<u64, String>)
    ensures
        match r {
            Ok(k) => parse_u64(trim(text@)) == Some(k),
            Err(m) => parse_u64(trim(text@)) is None && m@ == K_NOT_A_NUMBER@,
        },
{
    let cs = chars_of(text);
    let t = trimmed(cs.as_slice());
    match parse_u64_chars(t.as_slice()) {
        Some(k) => Ok(k),
        None => Err(String::from_str(K_NOT_A_NUMBER)),
    }
}

fn parse_u32_field(text: &str) -> (r: Option<u32>)
    ensures
        r == parse_u32(trim(text@)),
{
    let cs = chars_of(text);
    let t = trimmed(cs.as_slice());
    match parse_u64_chars(t.as_slice()) {
        Some(v) => if v <= u32::MAX as u64 {
            Some(v as u32)
        } else {
            None
        },
        None => None,
    }
}

/// The KDF cost the two fields denote, or the message refusing them: each a whole number
/// (trimmed), and the cost not zero.
pub open spec fn kdf_fields(mem: Seq<char>, iters: Seq<char>) -> Result<Kdf, Seq<char>> {
    match parse_u32(trim(mem)) {
        None => Err(MEM_NOT_A_NUMBER@),
        Some(m) => match parse_u32(trim(iters)) {
            None => Err(ITERS_NOT_A_NUMBER@),
            Some(i) => if m == 0 || i == 0 {
                Err(KDF_ZERO@)
            } else {
                Ok(Kdf { mem_mib: m, iters: i })
            },
        },
    }
}

/// The KDF cost fields as a checked cost.
pub fn parse_kdf(mem: &str, iters: &str) -> (r: Result<Kdf, String>)
    ensures
        match r {
            Ok(kdf) => kdf_fields(mem@, iters@) == Ok::<Kdf, Seq<char>>(kdf),
            Err(m) => kdf_fields(mem@, iters@) == Err::<Kdf, Seq<char>>(m@),
        },
{
    let mem_mib = match parse_u32_field(mem) {
        Some(v) => v,
        None => {
            return Err(String::from_str(MEM_NOT_A_NUMBER));
        },
    };
    let iters_v = match parse_u32_field(iters) {
        Some(v) => v,
        None => {
            return Err(String::from_str(ITERS_NOT_A_NUMBER));
        },
    };
    let kdf = Kdf { mem_mib, iters: iters_v };
    match kdf.validate() {
        Ok(()) => Ok(kdf),
        Err(m) => Err(m),
    }
}

/// `line` trimmed, appended to `d` unless it is blank.
pub open spec fn keep_line(d: Seq<Seq<char>>, line: Seq<char>) -> Seq<Seq<char>> {
    if trim(line).len() > 0 {
        d.push(trim(line))
    } else {
        d
    }
}

/// The index where the line holding position `i` of `s` starts.
pub open spec fn line_start(s: Seq<char>, i: int) -> int
    decreases i,
{
    if i <= 0 {
        0
    } else if s[i - 1] == '\n' {
        i
    } else {
        line_start(s, i - 1)
    }
}

/// The non-blank lines of `s` ended by a newline before position `i`, trimmed.
pub open spec fn lines_before(s: Seq<char>, i: int) -> Seq<Seq<char>>
    decreases i,
{
    if i <= 0 {
        Seq::empty()
    } else if s[i - 1] == '\n' {
        keep_line(lines_before(s, i - 1), s.subrange(line_start(s, i - 1), i - 1))
    } else {
        lines_before(s, i - 1)
    }
}

/// The non-blank lines of `s`, trimmed (one known password per line).
pub open spec fn known_lines(s: Seq<char>) -> Seq<Seq<char>> {
    keep_line(lines_before(s, s.len() as int), s.subrange(line_start(s, s.len() as int), s.len() as int))
}

/// The known passwords of the multi-line field: its non-blank lines, trimmed.
pub fn known_list(text: &str) -> (r: Vec<String>)
    ensures
        texts(r@) == known_lines(text@),
{
    let cs = chars_of(text);
    let n = cs.len();
    let mut out: Vec<String> = Vec::new();
    let mut start: usize = 0;
    let mut i: usize = 0;
    while i < n
        invariant
            n == cs@.len(),
            cs@ == text@,
            start <= i <= n,
            start == line_start(text@, i as int),
            texts(out@) == lines_before(text@, i as int),
        decreases n - i,
    {
        if cs[i] == '\n' {
            let (lo, hi) = trim_bounds(cs.as_slice(), start, i);
            let ghost out0 = out@;
            if lo < hi {
                out.push(String::from_str(text.substring_char(lo, hi)));
                assert(texts(out@) =~= texts(out0).push(trim(cs@.subrange(start as int, i as int))));
            }
            start = i + 1;
        }
        i = i + 1;
    }
    let (lo, hi) = trim_bounds(cs.as_slice(), start, n);
    let ghost out0 = out@;
    if lo < hi {
        out.push(String::from_str(text.substring_char(lo, hi)));
        assert(texts(out@) =~= texts(out0).push(trim(cs@.subrange(start as int, n as int))));
    }
    out
}

/// A create the form asks for.
pub struct CreatePlan {
    pub path: String,
    pub size: usize,
    pub k: u64,
    pub kdf: Kdf,
}

/// The refusal of a create without a container path.
pub const NO_PATH_TO_CREATE: &'static str = "error: choose a container file path first (Browse\u{2026}).";

/// The refusal of a write or read without a container file.
pub const NO_CONTAINER: &'static str = "error: choose a container file first (Browse\u{2026}).";

/// The refusal of a write without a password.
pub const NO_WRITE_PASSWORD: &'static str = "error: enter a password to write under.";

/// The refusal of a read without a password.
pub const NO_READ_PASSWORD: &'static str = "error: enter a password to read.";

/// The log line of a refusal.
pub open spec fn error_line(e: Seq<char>) -> Seq<char> {
    "error: "@ + e
}

/// The log line of a refusal with message `e`.
pub fn error_line_of(e: &str) -> (m: String)
    ensures
        m@ == error_line(e@),
{
    let mut m = String::from_str("error: ");
    m.append(e);
    m
}

/// The log line refusing the K or KDF fields, if either is refused.
pub open spec fn credential_fields_error(k_text: Seq<char>, mem: Seq<char>, iters: Seq<char>) -> Option<Seq<char>> {
    if parse_u64(trim(k_text)) is None {
        Some(error_line(K_NOT_A_NUMBER@))
    } else if kdf_fields(mem, iters) is Err {
        Some(error_line(kdf_fields(mem, iters)->Err_0))
    } else {
        None
    }
}

fn credential_fields(k_text: &str, mem: &str, iters: &str) -> (r: Result<(u64, Kdf), String>)
    ensures
        match r {
            Ok((k, kdf)) => credential_fields_error(k_text@, mem@, iters@) is None
                && parse_u64(trim(k_text@)) == Some(k) && kdf_fields(mem@, iters@) == Ok::<Kdf, Seq<char>>(kdf),
            Err(m) => credential_fields_error(k_text@, mem@, iters@) == Some(m@),
        },
{
    let k = match parse_k(k_text) {
        Ok(k) => k,
        Err(e) => {
            return Err(error_line_of(e.as_str()));
        },
    };
    let kdf = match parse_kdf(mem, iters) {
        Ok(kdf) => kdf,
        Err(e) => {
            return Err(error_line_of(e.as_str()));
        },
    };
    Ok((k, kdf))
}

/// The log line refusing a create form, or `None` if it is accepted.
pub open spec fn create_form_error(container: Seq<char>, size_text: Seq<char>, k_text: Seq<char>, mem: Seq<char>, iters: Seq<char>) -> Option<Seq<char>> {
    if trim(container).len() == 0 {
        Some(NO_PATH_TO_CREATE@)
    } else if size_value(size_text) is Err {
        Some(error_line(size_message(size_value(size_text)->Err_0, debug_quoted(size_text))))
    } else {
        credential_fields_error(k_text, mem, iters)
    }
}

/// The create form (container path, size, K, KDF cost) checked and parsed.
pub fn plan_create(container: &str, size_text: &str, k_text: &str, mem: &str, iters: &str) -> (r: Result<CreatePlan, String>)
    ensures
        match r {
            Ok(p) => {
                &&& create_form_error(container@, size_text@, k_text@, mem@, iters@) is None
                &&& p.path@ == trim(container@)
                &&& size_value(size_text@) == Ok::<usize, crate::app::SizeFault>(p.size)
                &&& parse_u64(trim(k_text@)) == Some(p.k)
                &&& kdf_fields(mem@, iters@) == Ok::<Kdf, Seq<char>>(p.kdf)
            },
            Err(m) => create_form_error(container@, size_text@, k_text@, mem@, iters@) == Some(m@),
        },
{
    let path = trim_string(container);
    if path.as_str().unicode_len() == 0 {
        return Err(String::from_str(NO_PATH_TO_CREATE));
    }
    let size = match parse_size(size_text) {
        Ok(s) => s,
        Err(e) => {
            return Err(error_line_of(e.as_str()));
        },
    };
    let (k, kdf) = credential_fields(k_text, mem, iters)?;
    Ok(CreatePlan { path, size, k, kdf })
}

/// A write the form asks for. With `data_file` the plaintext is that file's bytes,
/// otherwise the text box's.
pub struct WritePlan {
    pub path: String,
    pub pw: String,
    pub k: u64,
    pub kdf: Kdf,
    pub data_file: Option<String>,
    pub known: Vec<String>,
}

/// The log line refusing a write form, or `None` if it is accepted.
pub open spec fn write_form_error(container: Seq<char>, pw: Seq<char>, k_text: Seq<char>, mem: Seq<char>, iters: Seq<char>) -> Option<Seq<char>> {
    if trim(container).len() == 0 {
        Some(NO_CONTAINER@)
    } else if pw.len() == 0 {
        Some(NO_WRITE_PASSWORD@)
    } else {
        credential_fields_error(k_text, mem, iters)
    }
}

/// The write form (container, password, K, KDF cost, data file, known passwords) checked
/// and parsed.
pub fn plan_write(
    container: &str,
    pw: &str,
    k_text: &str,
    mem: &str,
    iters: &str,
    data_file: &str,
    known: &str,
) -> (r: Result<WritePlan, String>)
    ensures
        match r {
            Ok(p) => {
                &&& write_form_error(container@, pw@, k_text@, mem@, iters@) is None
                &&& p.path@ == trim(container@)
                &&& p.pw@ == pw@
                &&& parse_u64(trim(k_text@)) == Some(p.k)
                &&& kdf_fields(mem@, iters@) == Ok::<Kdf, Seq<char>>(p.kdf)
                &&& match p.data_file {
                    Some(f) => trim(data_file@).len() > 0 && f@ == trim(data_file@),
                    None => trim(data_file@).len() == 0,
                }
                &&& texts(p.known@) == known_lines(known@)
            },
            Err(m) => write_form_error(container@, pw@, k_text@, mem@, iters@) == Some(m@),
        },
{
    let path = trim_string(container);
    if path.as_str().unicode_len() == 0 {
        return Err(String::from_str(NO_CONTAINER));
    }
    if pw.unicode_len() == 0 {
        return Err(String::from_str(NO_WRITE_PASSWORD));
    }
    let (k, kdf) = credential_fields(k_text, mem, iters)?;
    let file = trim_string(data_file);
    let data_file = if file.as_str().unicode_len() == 0 {
        None
    } else {
        Some(file)
    };
    Ok(WritePlan { path, pw: String::from_str(pw), k, kdf, data_file, known: known_list(known) })
}

/// A read the form asks for.
pub struct ReadPlan {
    pub path: String,
    pub pw: String,
    pub k: u64,
    pub kdf: Kdf,
}

/// The log line refusing a read form, or `None` if it is accepted.
pub open spec fn read_form_error(container: Seq<char>, pw: Seq<char>, k_text: Seq<char>, mem: Seq<char>, iters: Seq<char>) -> Option<Seq<char>> {
    if trim(container).len() == 0 {
        Some(NO_CONTAINER@)
    } else if pw.len() == 0 {
        Some(NO_READ_PASSWORD@)
    } else {
        credential_fields_error(k_text, mem, iters)
    }
}

/// The read form (container, password, K, KDF cost) checked and parsed.
pub fn plan_read(container: &str, pw: &str, k_text: &str, mem: &str, iters: &str) -> (r: Result<ReadPlan, String>)
    ensures
        match r {
            Ok(p) => {
                &&& read_form_error(container@, pw@, k_text@, mem@, iters@) is None
                &&& p.path@ == trim(container@)
                &&& p.pw@ == pw@
                &&& parse_u64(trim(k_text@)) == Some(p.k)
                &&& kdf_fields(mem@, iters@) == Ok::<Kdf, Seq<char>>(p.kdf)
            },
            Err(m) => read_form_error(container@, pw@, k_text@, mem@, iters@) == Some(m@),
        },
{
    let path = trim_string(container);
    if path.as_str().unicode_len() == 0 {
        return Err(String::from_str(NO_CONTAINER));
    }
    if pw.unicode_len() == 0 {
        return Err(String::from_str(NO_READ_PASSWORD));
    }
    let (k, kdf) = credential_fields(k_text, mem, iters)?;
    Ok(ReadPlan { path, pw: String::from_str(pw), k, kdf })
}

/// The line logged when a create starts.
pub fn creating_line(path: &str) -> (m: String)
    ensures
        m@ == "working\u{2026} creating "@ + path@,
{
    let mut m = String::from_str("working\u{2026} creating ");
    m.append(path);
    m
}

/// The line logged when a write starts.
pub const WRITING_LINE: &'static str = "working\u{2026} writing payload";

/// The line logged when a read starts.
pub const READING_LINE: &'static str = "working\u{2026} reading payload";

/// The line logged when a read finds nothing.
pub const NOTHING_FOUND_LINE: &'static str = "no payload for that password / K / KDF cost \u{2014} just noise.";

/// The text after the byte count in the line logged when a read succeeds.
pub const READ_OK_TAIL: &'static str = " byte(s) \u{2014} shown below; use \"Save to file\u{2026}\" for exact bytes";

/// The line logged when a read decrypts `n` bytes.
pub fn read_ok_line(n: usize) -> (m: String)
    ensures
        m@ == "read OK: decrypted "@ + dec_str(n as nat) + READ_OK_TAIL@,
{
    let mut m = String::from_str("read OK: decrypted ");
    m.append(decimal(n as u64).as_str());
    m.append(READ_OK_TAIL);
    m
}

/// The line logged for a finished create or write: its report, or its refusal.
pub fn job_line(r: Result<String, String>) -> (m: String)
    ensures
        match r {
            Ok(t) => m@ == t@,
            Err(e) => m@ == error_line(e@),
        },
{
    match r {
        Ok(t) => t,
        Err(e) => error_line_of(e.as_str()),
    }
}

/// Appends `s` to the status log, on a new line unless the log is empty.
pub fn log_line(log: &mut String, s: &str)
    ensures
        final(log)@ == if old(log)@.len() == 0 {
            s@
        } else {
            old(log)@ + "\n"@ + s@
        },
{
    if log.as_str().unicode_len() != 0 {
        log.append("\n");
    }
    log.append(s);
}

/// The desktop front-end's refusal of a whole-block rewrite without confirmation that
/// every other password was given.
pub const FORM_ALL_KEYS_REQUIRED: &'static str = "re-randomize rebuilds the WHOLE container and destroys any payload whose password you don't supply. List every OTHER password under \"Known passwords\", then tick \"I have supplied ALL passwords\" to confirm. (Or turn off re-randomize for an in-place write that leaves a multi-snapshot diffing fingerprint.)";

/// The desktop front-end's write on a block, at the default probe bound: the same steps
/// as [`crate::app::write_block`], with the form's own refusal text.
pub fn write_form_block(
    block: Vec<u8>,
    pw: &str,
    plaintext: &[u8],
    known: &[String],
    k: u64,
    kdf: Kdf,
    rerandomize: bool,
    all_keys: bool,
) -> (r: Result<(Vec<u8>, String), String>)
    requires
        block_len_ok(block@.len()),
        pw.spec_bytes().len() + 8 <= 0xFFFF_FFFF,
        forall|i: int| 0 <= i < known@.len() ==> encode_utf8((#[trigger] known@[i])@).len() + 8 <= 0xFFFF_FFFF,
        plaintext@.len() <= u32::MAX ==> 8 * (plaintext@.len() + 68) <= usize::MAX,
    ensures
        match r {
            Ok((b, log)) => open_error(block@.len(), k, kdf) is None
                && write_done(opened(block@, k, kdf), b@, log@, pw@, plaintext@, texts(known@), DEFAULT_MAXPROBE,
                    rerandomize, all_keys),
            Err(m) => match open_error(block@.len(), k, kdf) {
                Some(t) => m@ == t,
                None => write_block_error(opened(block@, k, kdf), pw@, plaintext@, texts(known@), DEFAULT_MAXPROBE,
                    rerandomize, all_keys, FORM_ALL_KEYS_REQUIRED@, KNOWN_UNREADABLE@, m@),
            },
        },
{
    match kdf.validate() {
        Ok(()) => {},
        Err(m) => {
            return Err(m);
        },
    }
    let c = match Kpdc::from_bytes(block, k, kdf.params()) {
        Ok(c) => c,
        Err(e) => {
            return Err(e.message());
        },
    };
    write_opened(c, pw, plaintext, known, DEFAULT_MAXPROBE, rerandomize, all_keys, FORM_ALL_KEYS_REQUIRED, KNOWN_UNREADABLE)
}

} // verus!
