//! Create / write / read on in-memory blocks, shared by every front-end: the size parser,
//! the KDF cost as a user enters it, and the advisory warnings. No cryptography lives
//! here; the operations compose the container's own. Front-ends add their own I/O.

use vstd::prelude::*;
use vstd::string::{StringExecFns, StringSliceAdditionalSpecFns, StrSliceExecFns};
use vstd::utf8::encode_utf8;

use crate::derive::{u8_copy, Cipher, KdfParams};
use crate::kpdc::{
    block_len_ok, error_message, lemma_chain_params, lemma_read_len, lemma_rewrite_all_readable, params_error,
    payload_pts, payload_pws, pw_bytes_seq, rewrite_chain, rewrite_separated, spec_read,
    spec_write_ok, write_error, Error, Kpdc, KpdcState,
};
use crate::primes::{is_odd_prime, is_recommended_k};
use crate::primitives::{secret_bytes, Secret};
use crate::text::{debug_quoted, debug_str, dec_str, decimal};

verus! {

/// Recommended Argon2id memory cost (the default), in MiB.
pub const REC_MEM_MIB: u32 = 256;

/// Recommended Argon2id pass count (the default).
pub const REC_ITERS: u32 = 3;

/// Advice shown after a container is created.
pub const CREATE_TIP: &'static str = "Tip: a brand-new container is pure noise. Before storing your real secret,
consider writing one or two *genuine but innocuous* secrets (an old password,
a mundane note) under their own passwords. If ever compelled, you can reveal
those \u{2014} they are real, so they're believable \u{2014} while the existence of anything
else stays hidden (computationally deniable to anyone without its password).";

/// The error for a zero KDF cost.
pub const KDF_ZERO: &'static str = "KDF memory (MiB) and iterations must each be >= 1";

/// KDF cost as a user enters it (memory in MiB, passes). Part of the credential: it is not
/// stored in the container, so it must match between write and read.
#[derive(Clone, Copy, Debug, PartialEq, Eq, Structural)]
pub struct Kdf {
    pub mem_mib: u32,
    pub iters: u32,
}

/// `mib` MiB in KiB, saturating at `u32::MAX`.
pub open spec fn mib_to_kib(mib: u32) -> u32 {
    if mib * 1024 > u32::MAX {
        u32::MAX
    } else {
        (mib * 1024) as u32
    }
}

/// A cost with a zero memory or pass count, which is refused.
pub open spec fn kdf_is_zero(kdf: Kdf) -> bool {
    kdf.mem_mib == 0 || kdf.iters == 0
}

/// The library's cost for a user's: lanes fixed at 1.
pub open spec fn kdf_params(kdf: Kdf) -> KdfParams {
    KdfParams { mem_kib: mib_to_kib(kdf.mem_mib), iters: kdf.iters, lanes: 1 }
}

impl Kdf {
    /// The recommended (default) cost: 256 MiB / 3 passes.
    pub fn recommended() -> (r: Kdf)
        ensures
            r == (Kdf { mem_mib: REC_MEM_MIB, iters: REC_ITERS }),
    {
        Kdf { mem_mib: REC_MEM_MIB, iters: REC_ITERS }
    }

    /// Converts to the library's [`KdfParams`] (lanes fixed at 1).
    pub fn params(self) -> (p: KdfParams)
        ensures
            p == kdf_params(self),
    {
        let mem_kib = if self.mem_mib > u32::MAX / 1024 {
            u32::MAX
        } else {
            self.mem_mib * 1024
        };
        KdfParams { mem_kib, iters: self.iters, lanes: 1 }
    }

    /// True when the cost differs from the recommended 256 MiB / 3.
    pub fn is_custom(self) -> (b: bool)
        ensures
            b == (self.mem_mib != REC_MEM_MIB || self.iters != REC_ITERS),
    {
        self.mem_mib != REC_MEM_MIB || self.iters != REC_ITERS
    }

    /// Rejects a zero cost.
    pub fn validate(self) -> (r: Result<(), String>)
        ensures
            match r {
                Ok(()) => !kdf_is_zero(self),
                Err(m) => kdf_is_zero(self) && m@ == KDF_ZERO@,
            },
    {
        if self.mem_mib == 0 || self.iters == 0 {
            return Err(String::from_str(KDF_ZERO));
        }
        Ok(())
    }
}

impl Default for Kdf {
    fn default() -> (r: Kdf)
        ensures
            r == (Kdf { mem_mib: REC_MEM_MIB, iters: REC_ITERS }),
    {
        Kdf::recommended()
    }
}

/// Result of a read attempt. `Found` keeps the plaintext in a [`Secret`], wiped on drop.
pub enum ReadOutcome {
    Found(Secret),
    NotFound,
}

/// The text after the value in the warning for a `K` that is not recommended.
pub const BAD_K_TAIL: &'static str = " is not a prime coprime to 8; plane geometry may be skewed and deniability weakened. Get a good K with `azoth prime <n>`.";

/// The warning for a `K` that is not recommended.
pub open spec fn bad_k_text(k: u64) -> Seq<char> {
    "K="@ + dec_str(k as nat) + BAD_K_TAIL@
}

/// Warning text when `k` is not a recommended plane count (an odd prime), or `None` if
/// it is fine.
pub fn bad_k_warning(k: u64) -> (r: Option<String>)
    ensures
        match r {
            None => is_odd_prime(k as nat),
            Some(m) => !is_odd_prime(k as nat) && m@ == bad_k_text(k),
        },
{
    if is_recommended_k(k) {
        None
    } else {
        let mut m = String::from_str("K=");
        m.append(decimal(k).as_str());
        m.append(BAD_K_TAIL);
        Some(m)
    }
}

/// The text after the pass count in the warning for a custom KDF cost.
pub const CUSTOM_KDF_TAIL: &'static str = ") is part of the credential and is NOT stored \u{2014} you must supply these EXACT values to decrypt, or the payload is unrecoverable and indistinguishable from a wrong password.";

/// The warning for a custom KDF cost.
pub open spec fn custom_kdf_text(kdf: Kdf) -> Seq<char> {
    "custom KDF cost (mem="@ + dec_str(kdf.mem_mib as nat) + " MiB, iters="@
        + dec_str(kdf.iters as nat) + CUSTOM_KDF_TAIL@
}

/// Warning text when the KDF cost is not the recommended one, or `None` if it is.
pub fn custom_kdf_warning(kdf: Kdf) -> (r: Option<String>)
    ensures
        match r {
            None => kdf.mem_mib == REC_MEM_MIB && kdf.iters == REC_ITERS,
            Some(m) => (kdf.mem_mib != REC_MEM_MIB || kdf.iters != REC_ITERS) && m@ == custom_kdf_text(kdf),
        },
{
    if kdf.is_custom() {
        let mut m = String::from_str("custom KDF cost (mem=");
        m.append(decimal(kdf.mem_mib as u64).as_str());
        m.append(" MiB, iters=");
        m.append(decimal(kdf.iters as u64).as_str());
        m.append(CUSTOM_KDF_TAIL);
        Some(m)
    } else {
        None
    }
}

/// Unicode `White_Space`, the property `char::is_whitespace` and `str::trim` test.
pub open spec fn is_ws(c: char) -> bool {
    let u = c as u32;
    ||| 0x09 <= u <= 0x0D
    ||| u == 0x20
    ||| u == 0x85
    ||| u == 0xA0
    ||| u == 0x1680
    ||| 0x2000 <= u <= 0x200A
    ||| u == 0x2028
    ||| u == 0x2029
    ||| u == 0x202F
    ||| u == 0x205F
    ||| u == 0x3000
}

/// `s` without its leading whitespace.
pub open spec fn trim_start(s: Seq<char>) -> Seq<char>
    decreases s.len(),
{
    if s.len() > 0 && is_ws(s[0]) {
        trim_start(s.drop_first())
    } else {
        s
    }
}

/// `s` without its trailing whitespace.
pub open spec fn trim_end(s: Seq<char>) -> Seq<char>
    decreases s.len(),
{
    if s.len() > 0 && is_ws(s.last()) {
        trim_end(s.drop_last())
    } else {
        s
    }
}

/// `s` without leading and trailing whitespace (`str::trim`).
pub open spec fn trim(s: Seq<char>) -> Seq<char> {
    trim_end(trim_start(s))
}

/// `c` with `A`..`Z` mapped to `a`..`z`.
pub open spec fn ascii_lower(c: char) -> char {
    if 'A' <= c <= 'Z' {
        ((c as u32) + 32) as char
    } else {
        c
    }
}

/// `s` with ASCII letters lower-cased (`str::to_ascii_lowercase`).
pub open spec fn lower(s: Seq<char>) -> Seq<char> {
    Seq::new(s.len(), |i: int| ascii_lower(s[i]))
}

/// `s` without one trailing `c`, if it ends with one (`str::strip_suffix`, kept if absent).
pub open spec fn strip_last(s: Seq<char>, c: char) -> Seq<char> {
    if s.len() > 0 && s.last() == c {
        s.drop_last()
    } else {
        s
    }
}

/// The number part of a size and its multiplier for a `k`, `m`, `g` or `t` suffix.
pub open spec fn size_unit(t: Seq<char>) -> (Seq<char>, u64) {
    if t.len() > 0 && t.last() == 'k' {
        (t.drop_last(), 1024)
    } else if t.len() > 0 && t.last() == 'm' {
        (t.drop_last(), 1048576)
    } else if t.len() > 0 && t.last() == 'g' {
        (t.drop_last(), 1073741824)
    } else if t.len() > 0 && t.last() == 't' {
        (t.drop_last(), 1099511627776)
    } else {
        (t, 1)
    }
}

/// Every character of `d` is an ASCII digit.
pub open spec fn all_digits(d: Seq<char>) -> bool {
    forall|i: int| 0 <= i < d.len() ==> '0' <= #[trigger] d[i] <= '9'
}

/// The value of the decimal digits `d`.
pub open spec fn digits_value(d: Seq<char>) -> nat
    decreases d.len(),
{
    if d.len() == 0 {
        0
    } else {
        digits_value(d.drop_last()) * 10 + ((d.last() as u32) - ('0' as u32)) as nat
    }
}

/// What `str::parse::<u64>` gives: an optional `+`, then one or more ASCII digits whose
/// value fits in 64 bits.
pub open spec fn parse_u64(s: Seq<char>) -> Option<u64> {
    let d = if s.len() > 0 && s[0] == '+' { s.drop_first() } else { s };
    if d.len() == 0 || !all_digits(d) || digits_value(d) > u64::MAX {
        None
    } else {
        Some(digits_value(d) as u64)
    }
}

/// Why a size is refused.
#[derive(Clone, Copy, Debug, PartialEq, Eq, Structural)]
pub enum SizeFault {
    /// Not a number with an optional unit.
    Invalid,
    /// The byte count exceeds 64 bits.
    Overflow,
    /// The byte count exceeds this platform's `usize`.
    TooLarge,
}

/// The byte count a size text denotes: trimmed, lower-cased, an optional `b`, an optional
/// `k`/`m`/`g`/`t` (powers of 1024), then a decimal number (trimmed again).
pub open spec fn size_value(s: Seq<char>) -> Result<usize, SizeFault> {
    let u = size_unit(strip_last(lower(trim(s)), 'b'));
    match parse_u64(trim(u.0)) {
        None => Err(SizeFault::Invalid),
        Some(v) => if v * u.1 > u64::MAX {
            Err(SizeFault::Overflow)
        } else if v * u.1 > usize::MAX {
            Err(SizeFault::TooLarge)
        } else {
            Ok((v * u.1) as usize)
        },
    }
}

/// The text after the quoted input in the message for an unreadable size.
pub const SIZE_INVALID_TAIL: &'static str = ": use a number, optionally with k/kb/m/mb/g/gb (1024-based)";

/// The message for a refused size, around the quoted input.
pub open spec fn size_message(f: SizeFault, quoted: Seq<char>) -> Seq<char> {
    match f {
        SizeFault::Invalid => "invalid size "@ + quoted + SIZE_INVALID_TAIL@,
        SizeFault::Overflow => "size "@ + quoted + " overflows"@,
        SizeFault::TooLarge => "size "@ + quoted + " too large for this platform"@,
    }
}

/// The message for a refused size, given the input already quoted.
pub fn size_error_message(f: SizeFault, quoted: &str) -> (m: String)
    ensures
        m@ == size_message(f, quoted@),
{
    match f {
        SizeFault::Invalid => {
            let mut m = String::from_str("invalid size ");
            m.append(quoted);
            m.append(SIZE_INVALID_TAIL);
            m
        },
        SizeFault::Overflow => {
            let mut m = String::from_str("size ");
            m.append(quoted);
            m.append(" overflows");
            m
        },
        SizeFault::TooLarge => {
            let mut m = String::from_str("size ");
            m.append(quoted);
            m.append(" too large for this platform");
            m
        },
    }
}

fn is_ws_char(c: char) -> (b: bool)
    ensures
        b == is_ws(c),
{
    let u = c as u32;
    (0x09 <= u && u <= 0x0D) || u == 0x20 || u == 0x85 || u == 0xA0 || u == 0x1680
        || (0x2000 <= u && u <= 0x200A) || u == 0x2028 || u == 0x2029 || u == 0x202F
        || u == 0x205F || u == 0x3000
}

pub(crate) fn chars_of(s: &str) -> (v: Vec<char>)
    ensures
        v@ == s@,
{
    let n = s.unicode_len();
    let mut v: Vec<char> = Vec::new();
    let mut i: usize = 0;
    while i < n
        invariant
            n == s@.len(),
            i <= n,
            v@ == s@.subrange(0, i as int),
        decreases n - i,
    {
        v.push(s.get_char(i));
        i = i + 1;
    }
    v
}

fn sub_chars(v: &[char], lo: usize, hi: usize) -> (t: Vec<char>)
    requires
        lo <= hi <= v@.len(),
    ensures
        t@ == v@.subrange(lo as int, hi as int),
{
    let mut t: Vec<char> = Vec::new();
    let mut i: usize = lo;
    while i < hi
        invariant
            lo <= i <= hi <= v@.len(),
            t@ == v@.subrange(lo as int, i as int),
        decreases hi - i,
    {
        t.push(v[i]);
        i = i + 1;
    }
    t
}

/// The bounds of `v[a..b]` without leading and trailing whitespace.
pub(crate) fn trim_bounds(v: &[char], a: usize, b: usize) -> (r: (usize, usize))
    requires
        a <= b <= v@.len(),
    ensures
        a <= r.0 <= r.1 <= b,
        v@.subrange(r.0 as int, r.1 as int) == trim(v@.subrange(a as int, b as int)),
{
    let ghost u = v@.subrange(a as int, b as int);
    let mut lo: usize = a;
    while lo < b && is_ws_char(v[lo])
        invariant
            a <= lo <= b <= v@.len(),
            u == v@.subrange(a as int, b as int),
            trim_start(u) == trim_start(v@.subrange(lo as int, b as int)),
        decreases b - lo,
    {
        assert(v@.subrange(lo as int, b as int).drop_first() =~= v@.subrange(lo + 1, b as int));
        lo = lo + 1;
    }
    assert(trim_start(u) == v@.subrange(lo as int, b as int));
    let mut hi: usize = b;
    while hi > lo && is_ws_char(v[hi - 1])
        invariant
            a <= lo <= hi <= b <= v@.len(),
            trim(u) == trim_end(v@.subrange(lo as int, hi as int)),
        decreases hi - lo,
    {
        assert(v@.subrange(lo as int, hi as int).drop_last() =~= v@.subrange(lo as int, hi - 1));
        hi = hi - 1;
    }
    (lo, hi)
}

pub(crate) fn trimmed(v: &[char]) -> (t: Vec<char>)
    ensures
        t@ == trim(v@),
{
    let (lo, hi) = trim_bounds(v, 0, v.len());
    assert(v@.subrange(0, v@.len() as int) =~= v@);
    sub_chars(v, lo, hi)
}

/// `s` without leading and trailing whitespace, as a new string.
pub(crate) fn trim_string(s: &str) -> (t: String)
    ensures
        t@ == trim(s@),
{
    let cs = chars_of(s);
    let (lo, hi) = trim_bounds(cs.as_slice(), 0, cs.len());
    assert(cs@.subrange(0, cs@.len() as int) =~= cs@);
    String::from_str(s.substring_char(lo, hi))
}

fn lowered(v: &[char]) -> (t: Vec<char>)
    ensures
        t@ == lower(v@),
{
    let mut t: Vec<char> = Vec::new();
    let mut i: usize = 0;
    while i < v.len()
        invariant
            i <= v@.len(),
            t@ == lower(v@).subrange(0, i as int),
        decreases v@.len() - i,
    {
        let c = v[i];
        let l = if 'A' <= c && c <= 'Z' {
            ((c as u8) + 32) as char
        } else {
            c
        };
        assert(l == ascii_lower(c));
        t.push(l);
        i = i + 1;
        assert(t@ =~= lower(v@).subrange(0, i as int));
    }
    assert(t@ =~= lower(v@));
    t
}

proof fn lemma_digits_prefix(d: Seq<char>, i: int, j: int)
    requires
        0 <= i <= j <= d.len(),
        all_digits(d),
    ensures
        digits_value(d.subrange(0, i)) <= digits_value(d.subrange(0, j)),
    decreases j - i,
{
    if i < j {
        lemma_digits_prefix(d, i, j - 1);
        assert(d.subrange(0, j).drop_last() =~= d.subrange(0, j - 1));
    }
}

pub(crate) fn parse_u64_chars(s: &[char]) -> (r: Option<u64>)
    ensures
        r == parse_u64(s@),
{
    let n = s.len();
    let start: usize = if n > 0 && s[0] == '+' { 1 } else { 0 };
    let ghost d = if s@.len() > 0 && s@[0] == '+' { s@.drop_first() } else { s@ };
    assert(d =~= s@.subrange(start as int, n as int));
    if start == n {
        return None;
    }
    let mut acc: u64 = 0;
    let mut i: usize = start;
    while i < n
        invariant
            n == s@.len(),
            start <= i <= n,
            d == s@.subrange(start as int, n as int),
            d == (if s@.len() > 0 && s@[0] == '+' { s@.drop_first() } else { s@ }),
            all_digits(d.subrange(0, i - start)),
            acc == digits_value(d.subrange(0, i - start)),
        decreases n - i,
    {
        let c = s[i];
        if c < '0' || c > '9' {
            assert(d[i - start] == c);
            assert(!all_digits(d));
            return None;
        }
        let dv = (c as u32 - '0' as u32) as u64;
        assert(d.subrange(0, i + 1 - start).drop_last() =~= d.subrange(0, i - start));
        let ghost pre = d.subrange(0, i + 1 - start);
        assert(pre.last() == c);
        assert(all_digits(pre));
        assert(digits_value(pre) == acc * 10 + dv);
        if acc > (u64::MAX - dv) / 10 {
            proof {
                assert(acc * 10 + dv > u64::MAX) by (nonlinear_arith)
                    requires
                        acc > (u64::MAX - dv) / 10,
                        dv <= 9,
                ;
                if all_digits(d) {
                    lemma_digits_prefix(d, i + 1 - start, d.len() as int);
                    assert(d.subrange(0, d.len() as int) =~= d);
                }
            }
            return None;
        }
        acc = acc * 10 + dv;
        i = i + 1;
    }
    assert(d.subrange(0, n - start) =~= d);
    Some(acc)
}

/// The byte count a size text denotes, or why it is refused (see [`size_value`]).
pub fn size_of_text(s: &str) -> (r: Result<usize, SizeFault>)
    ensures
        r == size_value(s@),
{
    let cs = chars_of(s);
    let t0 = trimmed(cs.as_slice());
    let t = lowered(t0.as_slice());
    let n = t.len();
    let end_b: usize = if n > 0 && t[n - 1] == 'b' { n - 1 } else { n };
    let ghost tb = strip_last(lower(trim(s@)), 'b');
    assert(tb =~= t@.subrange(0, end_b as int));
    let (end_num, mult): (usize, u64) = if end_b > 0 && t[end_b - 1] == 'k' {
        (end_b - 1, 1024)
    } else if end_b > 0 && t[end_b - 1] == 'm' {
        (end_b - 1, 1048576)
    } else if end_b > 0 && t[end_b - 1] == 'g' {
        (end_b - 1, 1073741824)
    } else if end_b > 0 && t[end_b - 1] == 't' {
        (end_b - 1, 1099511627776)
    } else {
        (end_b, 1)
    };
    let ghost u = size_unit(tb);
    assert(u.0 =~= t@.subrange(0, end_num as int) && u.1 == mult);
    let num = sub_chars(t.as_slice(), 0, end_num);
    let num_t = trimmed(num.as_slice());
    match parse_u64_chars(num_t.as_slice()) {
        None => Err(SizeFault::Invalid),
        Some(v) => match v.checked_mul(mult) {
            None => Err(SizeFault::Overflow),
            Some(bytes) => if bytes > usize::MAX as u64 {
                Err(SizeFault::TooLarge)
            } else {
                Ok(bytes as usize)
            },
        },
    }
}

/// Parses a size like `65536`, `64k`, `512mb`, `2gb` (binary, 1024-based) into bytes.
/// A refused size is reported with the input quoted as `{:?}` prints it.
pub fn parse_size(s: &str) -> (r: Result<usize, String>)
    ensures
        match r {
            Ok(n) => size_value(s@) == Ok::<usize, SizeFault>(n),
            Err(m) => size_value(s@) is Err && m@ == size_message(size_value(s@)->Err_0, debug_quoted(s@)),
        },
{
    match size_of_text(s) {
        Ok(n) => Ok(n),
        Err(f) => {
            let q = debug_str(s);
            Err(size_error_message(f, q.as_str()))
        },
    }
}

/// The container a block is opened as: a user's KDF cost and the default cipher.
pub open spec fn opened(block: Seq<u8>, k: u64, kdf: Kdf) -> KpdcState {
    KpdcState { block, k, kdf: kdf_params(kdf), cipher: Cipher::Aes256Ctr }
}

/// The message a block of `len` bytes is refused with under `k` and `kdf`: a zero cost,
/// or the container's own refusal; `None` when it opens.
pub open spec fn open_error(len: nat, k: u64, kdf: Kdf) -> Option<Seq<char>> {
    if kdf_is_zero(kdf) {
        Some(KDF_ZERO@)
    } else {
        match params_error(len, k, kdf_params(kdf)) {
            Some(e) => Some(error_message(e)),
            None => None,
        }
    }
}

/// A fresh container of `size` random bytes, returned as a byte block.
pub fn create_block(size: usize, k: u64, kdf: Kdf) -> (r: Result<Vec<u8>, String>)
    requires
        block_len_ok(size as nat),
    ensures
        match r {
            Ok(b) => open_error(size as nat, k, kdf) is None && b@.len() == size,
            Err(m) => match open_error(size as nat, k, kdf) {
                Some(t) => m@ == t,
                None => m@ == error_message(Error::Rng),
            },
        },
{
    match kdf.validate() {
        Ok(()) => {},
        Err(m) => {
            return Err(m);
        },
    }
    match Kpdc::create(size, k, kdf.params()) {
        Ok(c) => Ok(c.into_bytes()),
        Err(e) => Err(e.message()),
    }
}

/// The report of a container of `size` bytes created at `path`, with the advice that
/// follows it.
pub open spec fn created_report_text(path: Seq<char>, size: nat, k: u64) -> Seq<char> {
    "created "@ + path + " ("@ + dec_str(size) + " bytes, K="@ + dec_str(k as nat) + ")\n\n"@ + CREATE_TIP@
}

/// The report of a container of `size` bytes created at `path`, with the advice that
/// follows it.
pub fn created_report(path: &str, size: usize, k: u64) -> (m: String)
    ensures
        m@ == created_report_text(path@, size as nat, k),
{
    let mut m = String::from_str("created ");
    m.append(path);
    m.append(" (");
    m.append(decimal(size as u64).as_str());
    m.append(" bytes, K=");
    m.append(decimal(k).as_str());
    m.append(")\n\n");
    m.append(CREATE_TIP);
    m
}

/// Attempts to decrypt the payload for `pw` from `block`.
pub fn read_block(block: &[u8], pw: &str, k: u64, kdf: Kdf, maxprobe: usize) -> (r: Result<ReadOutcome, String>)
    requires
        block_len_ok(block@.len()),
        pw.spec_bytes().len() + 8 <= 0xFFFF_FFFF,
    ensures
        match r {
            Ok(ReadOutcome::Found(v)) => open_error(block@.len(), k, kdf) is None
                && spec_read(opened(block@, k, kdf), pw.spec_bytes(), maxprobe) == Some(secret_bytes(v)),
            Ok(ReadOutcome::NotFound) => open_error(block@.len(), k, kdf) is None
                && spec_read(opened(block@, k, kdf), pw.spec_bytes(), maxprobe) is None,
            Err(m) => open_error(block@.len(), k, kdf) == Some(m@),
        },
{
    match kdf.validate() {
        Ok(()) => {},
        Err(m) => {
            return Err(m);
        },
    }
    let c = match Kpdc::from_bytes(u8_copy(block), k, kdf.params()) {
        Ok(c) => c,
        Err(e) => {
            return Err(e.message());
        },
    };
    match c.read(pw, maxprobe) {
        Some(pt) => Ok(ReadOutcome::Found(pt)),
        None => Ok(ReadOutcome::NotFound),
    }
}

/// The texts of a list of passwords.
pub open spec fn texts(known: Seq<String>) -> Seq<Seq<char>> {
    known.map_values(|q: String| q@)
}

/// The UTF-8 bytes of a list of passwords.
pub open spec fn texts_bytes(known: Seq<Seq<char>>) -> Seq<Seq<u8>> {
    known.map_values(|q: Seq<char>| encode_utf8(q))
}

/// The known passwords a rebuild carries over: every one other than `pw`, in order.
pub open spec fn carried(known: Seq<Seq<char>>, pw: Seq<char>) -> Seq<Seq<char>>
    decreases known.len(),
{
    if known.len() == 0 {
        Seq::empty()
    } else {
        let r = carried(known.drop_last(), pw);
        if known.last() == pw {
            r
        } else {
            r.push(known.last())
        }
    }
}

/// Every known password reads back from `s`.
pub open spec fn all_read(s: KpdcState, known: Seq<Seq<char>>, maxprobe: usize) -> bool {
    forall|i: int| 0 <= i < known.len() ==> spec_read(s, encode_utf8(#[trigger] known[i]), maxprobe) is Some
}

/// The passwords a rebuild writes, in order: the carried ones, then `pw`.
pub open spec fn rebuild_pws(known: Seq<Seq<char>>, pw: Seq<char>) -> Seq<Seq<u8>> {
    texts_bytes(carried(known, pw)).push(encode_utf8(pw))
}

/// The plaintexts a rebuild writes: what each carried password reads in `s`, then `pt`.
pub open spec fn rebuild_pts(s: KpdcState, known: Seq<Seq<char>>, pw: Seq<char>, pt: Seq<u8>, maxprobe: usize) -> Seq<Seq<u8>> {
    carried(known, pw).map_values(|q: Seq<char>| spec_read(s, encode_utf8(q), maxprobe).unwrap()).push(pt)
}

/// The error of a whole-block rebuild of `s`: the random source, or a write that fails
/// after the ones before it succeeded.
pub open spec fn rebuild_error(s: KpdcState, pws: Seq<Seq<u8>>, pts: Seq<Seq<u8>>, maxprobe: usize, e: Error) -> bool {
    ||| e is Rng
    ||| exists|states: Seq<KpdcState>, planes: Seq<u64>, n: nat|
        n < pws.len()
        && rewrite_chain(s, states, planes, pws, pts, maxprobe, n)
        && write_error(states.last(), pws[n as int], pts[n as int], pws.take(n as int), maxprobe, None, e)
}

/// The refusal of a rebuild without confirmation that every other password was given.
pub const ALL_KEYS_REQUIRED: &'static str = "re-randomize rebuilds the WHOLE container and destroys any payload whose password you don't supply. Provide every OTHER password as a known password and confirm all-keys. (Or disable re-randomize for an in-place write that leaves a multi-snapshot diffing fingerprint.)";

/// The refusal of a rebuild when a known password reads nothing.
pub const KNOWN_UNREADABLE: &'static str = "a known password didn't decrypt any payload (wrong password, or wrong K / KDF cost). Aborting so re-randomize doesn't destroy data.";

/// The text after the count in the log line of a rebuild.
pub const REBUILD_LOG_TAIL: &'static str = " payload(s) \u{2014} whole block rewritten (multi-snapshot safe)";

/// The log line of a rebuild of `n` payloads.
pub open spec fn rebuild_log(n: nat) -> Seq<char> {
    "re-randomized container with "@ + dec_str(n) + REBUILD_LOG_TAIL@
}

/// The text after the plane in the log line of an in-place write.
pub const IN_PLACE_LOG_TAIL: &'static str = " (in-place; multi-snapshot diffing NOT defended)";

/// The log line of an in-place write of `len` bytes on plane `p`.
pub open spec fn in_place_log(len: nat, p: u64) -> Seq<char> {
    "wrote "@ + dec_str(len) + " bytes into plane "@ + dec_str(p as nat) + IN_PLACE_LOG_TAIL@
}

/// The message a write into an opened container `s` fails with, given the messages of a
/// rebuild without `all_keys` (`refused`) and of a known password that reads nothing
/// (`unreadable`).
pub open spec fn write_block_error(
    s: KpdcState,
    pw: Seq<char>,
    pt: Seq<u8>,
    known: Seq<Seq<char>>,
    maxprobe: usize,
    rerandomize: bool,
    all_keys: bool,
    refused: Seq<char>,
    unreadable: Seq<char>,
    m: Seq<char>,
) -> bool {
    if rerandomize {
        if !all_keys {
            m == refused
        } else if !all_read(s, known, maxprobe) {
            m == unreadable
        } else {
            exists|e: Error| m == #[trigger] error_message(e)
                && rebuild_error(s, rebuild_pws(known, pw), rebuild_pts(s, known, pw, pt, maxprobe), maxprobe, e)
        }
    } else {
        exists|e: Error| m == #[trigger] error_message(e)
            && write_error(s, encode_utf8(pw), pt, texts_bytes(known), maxprobe, None, e)
    }
}

/// The container a block `b` becomes with the credential parameters of `s`.
pub open spec fn with_block(s: KpdcState, b: Seq<u8>) -> KpdcState {
    KpdcState { block: b, k: s.k, kdf: s.kdf, cipher: s.cipher }
}

/// An in-place write through the block API reads back: the new block, read with the same
/// credential and probe bound, gives the plaintext.
pub proof fn lemma_in_place_write_reads_back(
    s0: KpdcState,
    b: Seq<u8>,
    log: Seq<char>,
    pw: Seq<char>,
    pt: Seq<u8>,
    kn: Seq<Seq<char>>,
    maxprobe: usize,
    all_keys: bool,
)
    requires
        write_done(s0, b, log, pw, pt, kn, maxprobe, false, all_keys),
    ensures
        spec_read(with_block(s0, b), encode_utf8(pw), maxprobe) == Some(pt),
{
    let (s1, p) = choose|s1: KpdcState, p: u64|
        spec_write_ok(s0, s1, encode_utf8(pw), pt, texts_bytes(kn), maxprobe, None, p)
        && spec_read(s1, encode_utf8(pw), maxprobe) == Some(pt)
        && b == s1.block
        && log == in_place_log(pt.len(), p);
    assert(with_block(s0, b) == s1);
}

/// A whole-block rebuild through the block API keeps every payload: in the new block, read
/// with the same credential and probe bound, `pw` gives `pt` and every other known
/// password gives what it gave before, as long as the rebuilt records do not accept each
/// other's passwords.
pub proof fn lemma_rebuild_reads_back(
    s0: KpdcState,
    b: Seq<u8>,
    states: Seq<KpdcState>,
    planes: Seq<u64>,
    pw: Seq<char>,
    pt: Seq<u8>,
    kn: Seq<Seq<char>>,
    maxprobe: usize,
)
    requires
        all_read(s0, kn, maxprobe),
        rewrite_chain(s0, states, planes, rebuild_pws(kn, pw), rebuild_pts(s0, kn, pw, pt, maxprobe), maxprobe,
            rebuild_pws(kn, pw).len()),
        rewrite_separated(states, planes, rebuild_pws(kn, pw), rebuild_pws(kn, pw).len()),
        b == states.last().block,
    ensures
        spec_read(with_block(s0, b), encode_utf8(pw), maxprobe) == Some(pt),
        forall|i: int| 0 <= i < kn.len() && kn[i] != pw ==>
            spec_read(with_block(s0, b), encode_utf8(#[trigger] kn[i]), maxprobe) == spec_read(s0, encode_utf8(kn[i]), maxprobe),
{
    let pws = rebuild_pws(kn, pw);
    let pts = rebuild_pts(s0, kn, pw, pt, maxprobe);
    let n = pws.len();
    lemma_rewrite_all_readable(s0, states, planes, pws, pts, maxprobe);
    lemma_chain_params(s0, states, planes, pws, pts, maxprobe, n, n as int);
    assert(with_block(s0, b) == states.last());
    assert(pws[n - 1] == encode_utf8(pw) && pts[n - 1] == pt);
    assert(spec_read(states.last(), pws[n - 1], maxprobe) == Some(pts[n - 1]));
    assert forall|i: int| 0 <= i < kn.len() && kn[i] != pw implies
        spec_read(with_block(s0, b), encode_utf8(#[trigger] kn[i]), maxprobe) == spec_read(s0, encode_utf8(kn[i]), maxprobe) by {
        lemma_carried_has(kn, pw, i);
        let j = choose|j: int| 0 <= j < carried(kn, pw).len() && carried(kn, pw)[j] == kn[i];
        assert(pws[j] == encode_utf8(kn[i]));
        assert(pts[j] == spec_read(s0, encode_utf8(kn[i]), maxprobe).unwrap());
        assert(spec_read(states.last(), pws[j], maxprobe) == Some(pts[j]));
    }
}

proof fn lemma_carried_has(kn: Seq<Seq<char>>, pw: Seq<char>, i: int)
    requires
        0 <= i < kn.len(),
        kn[i] != pw,
    ensures
        exists|j: int| 0 <= j < carried(kn, pw).len() && carried(kn, pw)[j] == kn[i],
    decreases kn.len(),
{
    let r = carried(kn.drop_last(), pw);
    if i == kn.len() - 1 {
        assert(carried(kn, pw)[r.len() as int] == kn[i]);
    } else {
        lemma_carried_has(kn.drop_last(), pw, i);
        let j = choose|j: int| 0 <= j < r.len() && r[j] == kn.drop_last()[i];
        assert(carried(kn, pw)[j] == kn[i]);
    }
}

pub(crate) fn same_text(a: &str, b: &str) -> (r: bool)
    ensures
        r == (a@ == b@),
{
    let n = a.unicode_len();
    if n != b.unicode_len() {
        return false;
    }
    let mut i: usize = 0;
    while i < n
        invariant
            n == a@.len(),
            n == b@.len(),
            i <= n,
            a@.subrange(0, i as int) =~= b@.subrange(0, i as int),
        decreases n - i,
    {
        if a.get_char(i) != b.get_char(i) {
            return false;
        }
        i = i + 1;
        assert(a@.subrange(0, i as int) =~= b@.subrange(0, i as int));
    }
    assert(a@ =~= a@.subrange(0, n as int));
    assert(b@ =~= b@.subrange(0, n as int));
    true
}

/// A write into an opened container `s0` that produced block `b` and log line `log`:
/// with `rerandomize`, a whole-block rebuild from the payloads every known password reads
/// plus `pt` under `pw`; otherwise an in-place write of `pt` under `pw`.
pub open spec fn write_done(
    s0: KpdcState,
    b: Seq<u8>,
    log: Seq<char>,
    pw: Seq<char>,
    pt: Seq<u8>,
    kn: Seq<Seq<char>>,
    maxprobe: usize,
    rerandomize: bool,
    all_keys: bool,
) -> bool {
    if rerandomize {
        &&& all_keys
        &&& all_read(s0, kn, maxprobe)
        &&& log == rebuild_log(rebuild_pws(kn, pw).len())
        &&& exists|states: Seq<KpdcState>, planes: Seq<u64>|
            rewrite_chain(s0, states, planes, rebuild_pws(kn, pw), rebuild_pts(s0, kn, pw, pt, maxprobe), maxprobe, rebuild_pws(kn, pw).len())
            && b == states.last().block
    } else {
        exists|s1: KpdcState, p: u64|
            spec_write_ok(s0, s1, encode_utf8(pw), pt, texts_bytes(kn), maxprobe, None, p)
            && spec_read(s1, encode_utf8(pw), maxprobe) == Some(pt)
            && b == s1.block
            && log == in_place_log(pt.len(), p)
    }
}

/// Reads the payload of every known password in turn, keeping those of the passwords
/// other than `pw` (in order); `None` as soon as one reads nothing.
fn carry_known(c: &Kpdc, pw: &str, known: &[String], maxprobe: usize) -> (r: Option<(Vec<String>, Vec<Secret>)>)
    requires
        c.wf(),
        forall|i: int| 0 <= i < known@.len() ==> encode_utf8((#[trigger] known@[i])@).len() + 8 <= 0xFFFF_FFFF,
    ensures
        match r {
            None => !all_read(c@, texts(known@), maxprobe),
            Some((names, texts_v)) => {
                &&& all_read(c@, texts(known@), maxprobe)
                &&& names@.len() == texts_v@.len()
                &&& texts(names@) == carried(texts(known@), pw@)
                &&& forall|j: int| 0 <= j < names@.len() ==> spec_read(c@, encode_utf8((#[trigger] names@[j])@), maxprobe)
                    == Some(secret_bytes(texts_v@[j]))
                &&& forall|j: int| 0 <= j < names@.len() ==> encode_utf8((#[trigger] names@[j])@).len() + 8 <= 0xFFFF_FFFF
                &&& forall|j: int| 0 <= j < texts_v@.len() ==> secret_bytes(#[trigger] texts_v@[j]).len() + 68 <= c@.block.len()
            },
        },
{
    let ghost kn = texts(known@);
    let mut names: Vec<String> = Vec::new();
    let mut texts_v: Vec<Secret> = Vec::new();
    let mut i: usize = 0;
    while i < known.len()
        invariant
            c.wf(),
            kn == texts(known@),
            i <= known@.len(),
            names@.len() == texts_v@.len(),
            texts(names@) == carried(kn.take(i as int), pw@),
            all_read(c@, kn.take(i as int), maxprobe),
            forall|j: int| 0 <= j < names@.len() ==> spec_read(c@, encode_utf8((#[trigger] names@[j])@), maxprobe)
                == Some(secret_bytes(texts_v@[j])),
            forall|j: int| 0 <= j < names@.len() ==> encode_utf8((#[trigger] names@[j])@).len() + 8 <= 0xFFFF_FFFF,
            forall|j: int| 0 <= j < texts_v@.len() ==> secret_bytes(#[trigger] texts_v@[j]).len() + 68 <= c@.block.len(),
            forall|j: int| 0 <= j < known@.len() ==> encode_utf8((#[trigger] known@[j])@).len() + 8 <= 0xFFFF_FFFF,
        decreases known@.len() - i,
    {
        let q = &known[i];
        let ghost tk = kn.take(i + 1);
        assert(tk.drop_last() =~= kn.take(i as int));
        assert(tk.last() == q@);
        match c.read(q.as_str(), maxprobe) {
            Some(pt) => {
                proof {
                    lemma_read_len(c@, encode_utf8(q@), maxprobe);
                }
                let ghost names0 = names@;
                if !same_text(q.as_str(), pw) {
                    names.push(q.clone());
                    texts_v.push(pt);
                    assert(texts(names@) =~= texts(names0).push(q@));
                }
                assert(texts(names@) =~= carried(tk, pw@));
                assert forall|j: int| 0 <= j < i + 1 implies spec_read(c@, encode_utf8(#[trigger] tk[j]), maxprobe) is Some by {
                    if j < i {
                        assert(tk[j] == kn.take(i as int)[j]);
                    }
                }
            },
            None => {
                assert(!all_read(c@, kn, maxprobe)) by {
                    assert(kn[i as int] == q@);
                }
                return None;
            },
        }
        i = i + 1;
    }
    assert(kn.take(known@.len() as int) =~= kn);
    Some((names, texts_v))
}

/// Writes `plaintext` under `pw` into the opened container `c` and returns its block and
/// a log line; `refused` and `unreadable` are the messages of a rebuild without
/// `all_keys` and of a known password that reads nothing.
pub(crate) fn write_opened(
    c: Kpdc,
    pw: &str,
    plaintext: &[u8],
    known: &[String],
    maxprobe: usize,
    rerandomize: bool,
    all_keys: bool,
    refused: &str,
    unreadable: &str,
) -> (r: Result<(Vec<u8>, String), String>)
    requires
        c.wf(),
        pw.spec_bytes().len() + 8 <= 0xFFFF_FFFF,
        forall|i: int| 0 <= i < known@.len() ==> encode_utf8((#[trigger] known@[i])@).len() + 8 <= 0xFFFF_FFFF,
        plaintext@.len() <= u32::MAX ==> 8 * (plaintext@.len() + 68) <= usize::MAX,
    ensures
        match r {
            Ok((b, log)) => write_done(c@, b@, log@, pw@, plaintext@, texts(known@), maxprobe, rerandomize, all_keys),
            Err(m) => write_block_error(c@, pw@, plaintext@, texts(known@), maxprobe, rerandomize, all_keys, refused@, unreadable@, m@),
        },
{
    let ghost s0 = c@;
    let ghost kn = texts(known@);
    let mut c = c;
    let log = if rerandomize {
        if !all_keys {
            return Err(String::from_str(refused));
        }
        let (names, texts_v) = match carry_known(&c, pw, known, maxprobe) {
            Some(x) => x,
            None => {
                return Err(String::from_str(unreadable));
            },
        };
        let mut refs: Vec<(&str, &[u8])> = Vec::new();
        let mut j: usize = 0;
        while j < names.len()
            invariant
                j <= names@.len(),
                names@.len() == texts_v@.len(),
                refs@.len() == j,
                forall|t: int| 0 <= t < j ==> (#[trigger] refs@[t]).0@ == names@[t]@ && refs@[t].1@ == secret_bytes(texts_v@[t]),
            decreases names@.len() - j,
        {
            refs.push((names[j].as_str(), texts_v[j].as_slice()));
            j = j + 1;
        }
        refs.push((pw, plaintext));
        let ghost pws = rebuild_pws(kn, pw@);
        let ghost pts = rebuild_pts(s0, kn, pw@, plaintext@, maxprobe);
        assert(payload_pws(refs@) =~= pws) by {
            assert forall|t: int| 0 <= t < names@.len() implies payload_pws(refs@)[t] == pws[t] by {
                assert(carried(kn, pw@)[t] == texts(names@)[t]);
            }
        }
        assert(payload_pts(refs@) =~= pts) by {
            assert forall|t: int| 0 <= t < names@.len() implies payload_pts(refs@)[t] == pts[t] by {
                assert(carried(kn, pw@)[t] == texts(names@)[t]);
                assert(spec_read(s0, encode_utf8(names@[t]@), maxprobe) == Some(secret_bytes(texts_v@[t])));
            }
        }
        assert forall|t: int| 0 <= t < refs@.len() && (#[trigger] refs@[t]).1@.len() <= u32::MAX
            implies 8 * (refs@[t].1@.len() + 68) <= usize::MAX by {
            if t < names@.len() {
                assert(secret_bytes(texts_v@[t]).len() + 68 <= s0.block.len());
            }
        }
        assert forall|t: int| 0 <= t < refs@.len() implies (#[trigger] refs@[t]).0.spec_bytes().len() + 8 <= 0xFFFF_FFFF by {
            if t < names@.len() {
                assert(encode_utf8(names@[t]@).len() + 8 <= 0xFFFF_FFFF);
            }
        }
        match c.write_all_fresh(refs.as_slice(), maxprobe) {
            Ok(()) => {},
            Err(e) => {
                return Err(e.message());
            },
        }
        let mut m = String::from_str("re-randomized container with ");
        m.append(decimal(refs.len() as u64).as_str());
        m.append(REBUILD_LOG_TAIL);
        m
    } else {
        let mut known_refs: Vec<&str> = Vec::new();
        let mut i: usize = 0;
        while i < known.len()
            invariant
                i <= known@.len(),
                known_refs@.len() == i,
                forall|t: int| 0 <= t < i ==> (#[trigger] known_refs@[t])@ == known@[t]@,
            decreases known@.len() - i,
        {
            known_refs.push(known[i].as_str());
            i = i + 1;
        }
        assert(pw_bytes_seq(known_refs@) =~= texts_bytes(kn));
        let p = match c.write(pw, plaintext, known_refs.as_slice(), maxprobe, None) {
            Ok(p) => p,
            Err(e) => {
                return Err(e.message());
            },
        };
        let mut m = String::from_str("wrote ");
        m.append(decimal(plaintext.len() as u64).as_str());
        m.append(" bytes into plane ");
        m.append(decimal(p).as_str());
        m.append(IN_PLACE_LOG_TAIL);
        m
    };
    Ok((c.into_bytes(), log))
}

/// Writes `plaintext` under `pw` into `block`, returning the new block and a log line.
///
/// * `rerandomize` on: rebuild the WHOLE block from every supplied payload (safe against
///   comparing snapshots). Requires `all_keys`; every `known` password must still
///   decrypt, or it aborts before changing anything, so a rebuild cannot destroy data.
/// * `rerandomize` off: in-place write (faster, but two snapshots show where it wrote).
pub fn write_block(
    block: Vec<u8>,
    pw: &str,
    plaintext: &[u8],
    known: &[String],
    k: u64,
    kdf: Kdf,
    maxprobe: usize,
    rerandomize: bool,
    all_keys: bool,
) -> (r: Result<(Vec<u8>, String), String>)
    requires
        block_len_ok(block@.len()),
        pw.spec_bytes().len() + 8 <= 0xFFFF_FFFF,
        forall|i: int| 0 <= i < known@.len() ==> encode_utf8((#[trigger] known@[i])@).len() + 8 <= 0xFFFF_FFFF,
        plaintext@.len() <= u32::MAX ==> 8 * (plaintext@.len() + 68) <= usize::MAX,
    ensures
        match r {
            Ok((b, log)) => open_error(block@.len(), k, kdf) is None
                && write_done(opened(block@, k, kdf), b@, log@, pw@, plaintext@, texts(known@), maxprobe, rerandomize, all_keys),
            Err(m) => match open_error(block@.len(), k, kdf) {
                Some(t) => m@ == t,
                None => write_block_error(opened(block@, k, kdf), pw@, plaintext@, texts(known@), maxprobe,
                    rerandomize, all_keys, ALL_KEYS_REQUIRED@, KNOWN_UNREADABLE@, m@),
            },
        },
{
    match kdf.validate() {
        Ok(()) => {},
        Err(m) => {
            return Err(m);
        },
    }
    let c = match Kpdc::from_bytes(block, k, kdf.params()) {
        Ok(c) => c,
        Err(e) => {
            return Err(e.message());
        },
    };
    write_opened(c, pw, plaintext, known, maxprobe, rerandomize, all_keys, ALL_KEYS_REQUIRED, KNOWN_UNREADABLE)
}

} // verus!
