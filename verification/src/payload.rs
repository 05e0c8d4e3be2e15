//! The launcher's embedded application: footer, archive paths and extraction limits.
use vstd::prelude::*;
use crate::text_util::{chars_of, owned, push_char};
use sha2::Digest;

verus! {

/// The size of the footer at the end of the launcher, in bytes.
pub const FOOTER_SIZE: u64 = 64;

/// The most entries an application archive may hold.
pub const MAX_ARCHIVE_ENTRIES: usize = 5000;

/// The most bytes an application archive may unpack to.
pub const MAX_ARCHIVE_BYTES: u64 = 2147483648;

/// Why an archive entry name was refused.
#[derive(Clone, Copy, Debug, PartialEq, Eq, Structural)]
pub enum ArchivePathError {
    /// The name is absolute, drive-qualified, holds a NUL or climbs out with `..`.
    Unsafe,
    /// The name is empty.
    Invalid,
}

impl ArchivePathError {
    /// The text shown for the error.
    pub fn message(&self) -> (r: &'static str)
        ensures
            *self == ArchivePathError::Unsafe ==> r@ == "Unsafe path in application archive"@,
            *self == ArchivePathError::Invalid ==> r@ == "Invalid path in application archive"@,
    {
        match self {
            ArchivePathError::Unsafe => {
                let r = "Unsafe path in application archive";
                proof {
                    reveal_strlit("Unsafe path in application archive");
                }
                r
            },
            ArchivePathError::Invalid => {
                let r = "Invalid path in application archive";
                proof {
                    reveal_strlit("Invalid path in application archive");
                }
                r
            },
        }
    }
}

/// A path separator in an archive entry name.
pub open spec fn is_separator(c: char) -> bool {
    c == '/' || c == '\\'
}

/// Some piece of `s` between separators is exactly `..`.
pub open spec fn has_parent_part(s: Seq<char>) -> bool {
    exists|i: int|
        0 <= i && i + 1 < s.len() && #[trigger] s[i] == '.' && s[i + 1] == '.' && (i == 0
            || is_separator(s[i - 1])) && (i + 2 == s.len() || is_separator(s[i + 2]))
}

/// A name that could reach outside the extraction directory.
pub open spec fn is_unsafe_name(s: Seq<char>) -> bool {
    ||| (s.len() > 0 && is_separator(s[0]))
    ||| s.contains(':')
    ||| s.contains('\0')
    ||| has_parent_part(s)
}

/// The relative path an archive entry is written to: `name` itself, unless it is
/// unsafe (absolute, drive-qualified, with a NUL or a `..` piece) or empty.
pub fn safe_path(name: &str) -> (r: Result<String, ArchivePathError>)
    ensures
        is_unsafe_name(name@) ==> r == Err::<String, _>(ArchivePathError::Unsafe),
        !is_unsafe_name(name@) && name@.len() == 0 ==> r == Err::<String, _>(
            ArchivePathError::Invalid,
        ),
        !is_unsafe_name(name@) && name@.len() > 0 ==> (r matches Ok(p) && p@ == name@),
{
    let cs = chars_of(name);
    let n = cs.len();
    if n > 0 && (cs[0] == '/' || cs[0] == '\\') {
        return Err(ArchivePathError::Unsafe);
    }
    let mut i: usize = 0;
    while i < n
        invariant
            n == cs.len(),
            cs@ == name@,
            i <= n,
            forall|j: int| 0 <= j < i ==> cs@[j] != ':' && cs@[j] != '\0',
            forall|j: int|
                0 <= j < i ==> !(#[trigger] cs@[j] == '.' && j + 1 < n && cs@[j + 1] == '.' && (j == 0
                    || is_separator(cs@[j - 1])) && (j + 2 == n || is_separator(cs@[j + 2]))),
        decreases n - i,
    {
        let c = cs[i];
        if c == ':' || c == '\0' {
            proof {
                assert(name@[i as int] == c);
            }
            return Err(ArchivePathError::Unsafe);
        }
        if c == '.' && i + 1 < n && cs[i + 1] == '.' && (i == 0 || cs[i - 1] == '/' || cs[i
            - 1] == '\\') && (i + 2 == n || cs[i + 2] == '/' || cs[i + 2] == '\\') {
            proof {
                assert(name@[i as int] == '.');
            }
            return Err(ArchivePathError::Unsafe);
        }
        i += 1;
    }
    proof {
        assert(!name@.contains(':'));
        assert(!name@.contains('\0'));
        assert(!has_parent_part(name@));
    }
    if n == 0 {
        return Err(ArchivePathError::Invalid);
    }
    Ok(owned(name))
}

/// The first bytes of a launcher footer: `RTOWER01`.
pub open spec fn magic() -> Seq<u8> {
    seq![82u8, 84u8, 79u8, 87u8, 69u8, 82u8, 48u8, 49u8]
}

/// The number that `b` writes in little-endian order.
pub open spec fn le_value(b: Seq<u8>) -> nat
    decreases b.len(),
{
    if b.len() == 0 {
        0
    } else {
        b[0] as nat + 256 * le_value(b.drop_first())
    }
}

/// 256 to the power `n`.
pub open spec fn pow256(n: nat) -> nat
    decreases n,
{
    if n == 0 {
        1
    } else {
        256 * pow256((n - 1) as nat)
    }
}

/// Where the embedded application lies in the launcher and the SHA-256 digest it must have.
#[derive(Clone, Debug, PartialEq, Eq)]
pub struct PayloadFooter {
    pub start: u64,
    pub length: u64,
    pub digest: Vec<u8>,
}

/// Why the launcher's footer was refused.
#[derive(Clone, Copy, Debug, PartialEq, Eq, Structural)]
pub enum FooterError {
    /// The launcher is shorter than a footer.
    Missing,
    /// The footer does not start with the magic bytes.
    Invalid,
    /// The payload does not end right before the footer, or is empty.
    Incomplete,
}

impl FooterError {
    /// The text shown for the error.
    pub fn message(&self) -> (r: &'static str)
        ensures
            *self == FooterError::Missing ==> r@ == "Missing application payload"@,
            *self == FooterError::Invalid ==> r@ == "Invalid application payload"@,
            *self == FooterError::Incomplete ==> r@ == "Incomplete application download"@,
    {
        match self {
            FooterError::Missing => {
                let r = "Missing application payload";
                proof {
                    reveal_strlit("Missing application payload");
                }
                r
            },
            FooterError::Invalid => {
                let r = "Invalid application payload";
                proof {
                    reveal_strlit("Invalid application payload");
                }
                r
            },
            FooterError::Incomplete => {
                let r = "Incomplete application download";
                proof {
                    reveal_strlit("Incomplete application download");
                }
                r
            },
        }
    }
}

/// The little-endian number in the eight bytes of `b` from `at`.
fn le_u64(b: &[u8], at: usize) -> (r: u64)
    requires
        at + 8 <= b@.len(),
    ensures
        r as nat == le_value(b@.subrange(at as int, at + 8)),
{
    let n = b.len();
    let mut v: u64 = 0;
    let mut k: usize = 8;
    proof {
        reveal_with_fuel(pow256, 9);
        assert(pow256(8) == 18446744073709551616nat);
        assert(b@.subrange(at + 8, at + 8) =~= Seq::<u8>::empty());
    }
    while k > 0
        invariant
            k <= 8,
            n == b@.len(),
            at + 8 <= b@.len(),
            v as nat == le_value(b@.subrange(at + k, at + 8)),
            (v as nat) < pow256((8 - k) as nat),
            pow256(8) == 18446744073709551616nat,
        decreases k,
    {
        k -= 1;
        let x: u8 = b[at + k];
        let ghost p = pow256((7 - k) as nat);
        proof {
            assert(pow256((8 - k) as nat) == 256 * p);
            assert((v as nat) * 256 + (x as nat) < 256 * p) by (nonlinear_arith)
                requires
                    (v as nat) < p,
                    (x as nat) < 256,
            ;
            if k > 0 {
                lemma_pow256_grows((8 - k) as nat, 8);
            }
            let t = b@.subrange(at + k, at + 8);
            assert(t.drop_first() =~= b@.subrange(at + k + 1, at + 8));
            assert(t[0] == x);
        }
        v = v * 256 + x as u64;
    }
    v
}

/// Powers of 256 grow with the exponent.
proof fn lemma_pow256_grows(m: nat, n: nat)
    requires
        m <= n,
    ensures
        pow256(m) <= pow256(n),
    decreases n - m,
{
    if m < n {
        lemma_pow256_grows(m, (n - 1) as nat);
        assert(pow256(n) == 256 * pow256((n - 1) as nat));
    }
}

/// Reads the 64-byte footer at the end of a launcher of `size` bytes: magic bytes,
/// the payload's start and length (little-endian), then its SHA-256 digest.
pub fn payload_footer(size: u64, footer: &[u8]) -> (r: Result<PayloadFooter, FooterError>)
    requires
        size < FOOTER_SIZE || footer@.len() == FOOTER_SIZE,
    ensures
        size < FOOTER_SIZE ==> r == Err::<PayloadFooter, _>(FooterError::Missing),
        size >= FOOTER_SIZE && footer@.subrange(0, 8) != magic() ==> r == Err::<
            PayloadFooter,
            _,
        >(FooterError::Invalid),
        size >= FOOTER_SIZE && footer@.subrange(0, 8) == magic() ==> ({
            let start = le_value(footer@.subrange(8, 16));
            let length = le_value(footer@.subrange(16, 24));
            if start + length + FOOTER_SIZE != size || length == 0 {
                r == Err::<PayloadFooter, _>(FooterError::Incomplete)
            } else {
                r matches Ok(f) && f.start == start && f.length == length && f.digest@
                    == footer@.subrange(24, 56)
            }
        }),
{
    if size < FOOTER_SIZE {
        return Err(FooterError::Missing);
    }
    let magic_bytes: [u8; 8] = [82u8, 84u8, 79u8, 87u8, 69u8, 82u8, 48u8, 49u8];
    let mut i: usize = 0;
    while i < 8
        invariant
            i <= 8,
            size >= FOOTER_SIZE,
            footer@.len() == 64,
            magic_bytes@ == magic(),
            forall|j: int| 0 <= j < i ==> footer@[j] == magic()[j],
        decreases 8 - i,
    {
        if footer[i] != magic_bytes[i] {
            proof {
                assert(footer@.subrange(0, 8)[i as int] != magic()[i as int]);
            }
            return Err(FooterError::Invalid);
        }
        i += 1;
    }
    assert(footer@.subrange(0, 8) =~= magic());
    let start = le_u64(footer, 8);
    let length = le_u64(footer, 16);
    let total = match start.checked_add(length) {
        None => {
            return Err(FooterError::Incomplete);
        },
        Some(t) => t,
    };
    let total = match total.checked_add(FOOTER_SIZE) {
        None => {
            return Err(FooterError::Incomplete);
        },
        Some(t) => t,
    };
    if total != size || length == 0 {
        return Err(FooterError::Incomplete);
    }
    let mut digest: Vec<u8> = Vec::new();
    let mut k: usize = 24;
    while k < 56
        invariant
            24 <= k <= 56,
            footer@.len() == 64,
            digest@ == footer@.subrange(24, k as int),
        decreases 56 - k,
    {
        digest.push(footer[k]);
        k += 1;
        assert(digest@ =~= footer@.subrange(24, k as int));
    }
    Ok(PayloadFooter { start, length, digest })
}

/// The lower-case hexadecimal digit of `d`.
pub open spec fn hex_digit(d: u8) -> char {
    if d < 10 {
        ((d + 48) as u8) as char
    } else {
        ((d + 87) as u8) as char
    }
}

/// Two lower-case hexadecimal digits for each byte of `b`.
pub open spec fn hex_of(b: Seq<u8>) -> Seq<char>
    decreases b.len(),
{
    if b.len() == 0 {
        Seq::empty()
    } else {
        hex_of(b.drop_last()).push(hex_digit(b.last() / 16)).push(hex_digit(b.last() % 16))
    }
}

fn hex_char(d: u8) -> (r: char)
    requires
        d < 16,
    ensures
        r == hex_digit(d),
{
    if d < 10 {
        (d + 48) as char
    } else {
        (d + 87) as char
    }
}

/// The cache key of a payload: its digest in lower-case hexadecimal.
pub fn digest_key(digest: &[u8]) -> (r: String)
    ensures
        r@ == hex_of(digest@),
{
    let mut r = String::new();
    let mut i: usize = 0;
    while i < digest.len()
        invariant
            i <= digest@.len(),
            r@ == hex_of(digest@.subrange(0, i as int)),
        decreases digest@.len() - i,
    {
        let b = digest[i];
        push_char(&mut r, hex_char(b / 16));
        push_char(&mut r, hex_char(b % 16));
        proof {
            let s = digest@.subrange(0, i + 1);
            assert(s.drop_last() =~= digest@.subrange(0, i as int));
            assert(s.last() == b);
        }
        i += 1;
    }
    assert(digest@.subrange(0, digest@.len() as int) =~= digest@);
    r
}

/// Where a seek inside the payload is measured from.
#[derive(Clone, Copy, Debug, PartialEq, Eq, Structural)]
pub enum SeekFrom {
    Start(u64),
    Current(i64),
    End(i64),
}

/// The position a seek asks for, measured from the payload's start.
pub open spec fn seek_target(length: u64, position: u64, from: SeekFrom) -> int {
    match from {
        SeekFrom::Start(v) => v as int,
        SeekFrom::Current(v) => position + v,
        SeekFrom::End(v) => length + v,
    }
}

/// The new position of a seek inside a payload of `length` bytes read up to
/// `position`; `None` where it would fall before the start or after the end.
pub fn seek_position(length: u64, position: u64, from: SeekFrom) -> (r: Option<u64>)
    ensures
        0 <= seek_target(length, position, from) <= length ==> r == Some(
            seek_target(length, position, from) as u64,
        ),
        !(0 <= seek_target(length, position, from) <= length) ==> r is None,
{
    let target: i128 = match from {
        SeekFrom::Start(v) => v as i128,
        SeekFrom::Current(v) => position as i128 + v as i128,
        SeekFrom::End(v) => length as i128 + v as i128,
    };
    if target < 0 || target > length as i128 {
        None
    } else {
        Some(target as u64)
    }
}

/// How many bytes the next read of the payload may take into a buffer of `buffer` bytes.
pub fn read_limit(buffer: usize, length: u64, position: u64) -> (r: u64)
    requires
        position <= length,
    ensures
        r == if (buffer as int) < length - position {
            buffer as int
        } else {
            length - position
        },
{
    let left = length - position;
    if (buffer as u64) < left {
        buffer as u64
    } else {
        left
    }
}

/// The SHA-256 digest of `data`.
pub uninterp spec fn sha256(data: Seq<u8>) -> Seq<u8>;

/// Calls `sha2::Sha256::digest`; claims that the digest is the value named
/// `sha256` of the bytes and is 32 bytes long.
#[verifier::external_body]
fn sha256_digest(data: &[u8]) -> (r: Vec<u8>)
    ensures
        r@ == sha256(data@),
        r@.len() == 32,
{
    sha2::Sha256::digest(data).to_vec()
}

/// Whether the payload bytes have the digest that the footer records.
pub fn payload_intact(payload: &[u8], digest: &[u8]) -> (r: bool)
    ensures
        r == (sha256(payload@) == digest@),
{
    let actual = sha256_digest(payload);
    if actual.len() != digest.len() {
        return false;
    }
    let mut i: usize = 0;
    while i < actual.len()
        invariant
            i <= actual@.len(),
            actual@.len() == digest@.len(),
            actual@ == sha256(payload@),
            forall|j: int| 0 <= j < i ==> actual@[j] == digest@[j],
        decreases actual@.len() - i,
    {
        if actual[i] != digest[i] {
            return false;
        }
        i += 1;
    }
    assert(actual@ =~= digest@);
    true
}

/// The CRC-32 checksum of `data`.
pub uninterp spec fn crc32(data: Seq<u8>) -> u32;

/// Calls `crc32fast::hash`; claims that the result is the value named `crc32` of the bytes.
#[verifier::external_body]
fn crc32_of(data: &[u8]) -> (r: u32)
    ensures
        r == crc32(data@),
{
    crc32fast::hash(data)
}

/// Whether a cached file still matches its archive entry: same size, same CRC-32.
pub fn cached_file_valid(content: &[u8], size: u64, checksum: u32) -> (r: bool)
    ensures
        r == (content@.len() == size && crc32(content@) == checksum),
{
    if content.len() as u64 != size {
        return false;
    }
    crc32_of(content) == checksum
}

/// Why an archive could not be extracted.
#[derive(Clone, Copy, Debug, PartialEq, Eq, Structural)]
pub enum ExtractError {
    /// The archive holds more than `MAX_ARCHIVE_ENTRIES` entries.
    TooManyEntries,
    /// An entry is a symbolic link.
    Link,
    /// The sizes of the entries overflow.
    SizeOverflow,
    /// The entries unpack to more than `MAX_ARCHIVE_BYTES`.
    TooLarge,
}

impl ExtractError {
    /// The text shown for the error.
    pub fn message(&self) -> (r: &'static str)
        ensures
            *self == ExtractError::TooManyEntries ==> r@
                == "Application archive has too many entries"@,
            *self == ExtractError::Link ==> r@ == "Links are not supported in the Windows payload"@,
            *self == ExtractError::SizeOverflow ==> r@ == "Archive size overflow"@,
            *self == ExtractError::TooLarge ==> r@ == "Application archive exceeds size limit"@,
    {
        match self {
            ExtractError::TooManyEntries => {
                let r = "Application archive has too many entries";
                proof {
                    reveal_strlit("Application archive has too many entries");
                }
                r
            },
            ExtractError::Link => {
                let r = "Links are not supported in the Windows payload";
                proof {
                    reveal_strlit("Links are not supported in the Windows payload");
                }
                r
            },
            ExtractError::SizeOverflow => {
                let r = "Archive size overflow";
                proof {
                    reveal_strlit("Archive size overflow");
                }
                r
            },
            ExtractError::TooLarge => {
                let r = "Application archive exceeds size limit";
                proof {
                    reveal_strlit("Application archive exceeds size limit");
                }
                r
            },
        }
    }
}

/// Whether an archive of `entries` entries may be extracted at all.
pub fn archive_admitted(entries: usize) -> (r: Result<(), ExtractError>)
    ensures
        entries <= MAX_ARCHIVE_ENTRIES ==> r is Ok,
        entries > MAX_ARCHIVE_ENTRIES ==> r == Err::<(), _>(ExtractError::TooManyEntries),
{
    if entries > MAX_ARCHIVE_ENTRIES {
        Err(ExtractError::TooManyEntries)
    } else {
        Ok(())
    }
}

/// A Unix mode that marks a symbolic link.
pub open spec fn is_link_mode(mode: Option<u32>) -> bool {
    mode matches Some(m) && m & 0o170000u32 == 0o120000u32
}

/// Admits one archive entry of `size` bytes with Unix mode `mode` after entries of
/// `total` bytes: the new running total, unless the entry is a link or the total
/// overflows or passes `MAX_ARCHIVE_BYTES`.
pub fn entry_admitted(total: u64, size: u64, mode: Option<u32>) -> (r: Result<u64, ExtractError>)
    ensures
        is_link_mode(mode) ==> r == Err::<u64, _>(ExtractError::Link),
        !is_link_mode(mode) && total + size > u64::MAX ==> r == Err::<u64, _>(
            ExtractError::SizeOverflow,
        ),
        !is_link_mode(mode) && total + size <= u64::MAX && total + size > MAX_ARCHIVE_BYTES
            ==> r == Err::<u64, _>(ExtractError::TooLarge),
        !is_link_mode(mode) && total + size <= MAX_ARCHIVE_BYTES ==> r == Ok::<u64, ExtractError>(
            (total + size) as u64,
        ),
{
    if let Some(m) = mode {
        if m & 0o170000u32 == 0o120000u32 {
            return Err(ExtractError::Link);
        }
    }
    let next = match total.checked_add(size) {
        None => {
            return Err(ExtractError::SizeOverflow);
        },
        Some(n) => n,
    };
    if next > MAX_ARCHIVE_BYTES {
        return Err(ExtractError::TooLarge);
    }
    Ok(next)
}

} // verus!
