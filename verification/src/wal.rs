//! Parsers for SQLite write-ahead-log data: the line-oriented frame batch
//! format of the replay harness, and the binary WAL file format.
use vstd::prelude::*;
use vstd::string::{StringExecFns, StringSliceAdditionalSpecFns};
use vstd::utf8::{decode_utf8, valid_utf8};
use crate::text::{
    lemma_decimal_digits, lemma_parse_decimal, lemma_split_append_plain, lemma_split_push_sep,
    lemma_trim_plain,
    decimal, hex_digits, parse_unsigned, parse_unsigned_chars, push_decimal, push_hex,
    split_chars, split_on, text_chars, trim, trim_chars, NumberError,
};

verus! {

broadcast use vstd::string::group_string_axioms;

/// The magic number of a WAL whose checksums are computed over big-endian
/// words (its low bit set).
pub const WAL_MAGIC_BE: u32 = 0x377f0683;

/// The magic number of a WAL whose checksums are computed over
/// little-endian words.
pub const WAL_MAGIC_LE: u32 = 0x377f0682;

pub const WAL_HEADER_SIZE: usize = 32;

pub const WAL_FRAME_HEADER_SIZE: usize = 24;

/// One frame of a WAL: its position, its checksum and its size.
#[derive(Debug, Clone, PartialEq, Eq, Structural)]
pub struct WalFrameMeta {
    pub index: u64,
    pub checksum: u64,
    pub size_bytes: u32,
}

/// The 32-byte header of a WAL file.
#[derive(Debug, Clone, PartialEq, Eq, Structural)]
pub struct WalHeader {
    pub magic: u32,
    pub format_version: u32,
    pub page_size: u32,
    pub checkpoint_seq: u32,
    pub salt1: u32,
    pub salt2: u32,
    pub checksum1: u32,
    pub checksum2: u32,
    pub big_endian_checksums: bool,
}

/// The 24-byte header of one WAL frame.
#[derive(Debug, Clone, PartialEq, Eq, Structural)]
pub struct WalFrameHeader {
    pub page_number: u32,
    pub db_size_after_commit: u32,
    pub salt1: u32,
    pub salt2: u32,
    pub checksum1: u32,
    pub checksum2: u32,
}

/// Why WAL data was refused.
#[derive(Debug, Clone, Copy, PartialEq, Eq, Structural)]
pub enum WalError {
    /// The frame batch is not valid UTF-8: the longest valid prefix, and
    /// the length of the invalid sequence after it (`None` where the input
    /// ends inside a sequence).
    InvalidUtf8 { valid_up_to: usize, error_len: Option<usize> },
    /// A batch line does not hold three comma-separated fields.
    InvalidFrameFormat { line: usize },
    /// A batch field is not a number of its type.
    InvalidNumber(NumberError),
    /// The batch's frame indices do not strictly increase.
    NonMonotonicIndex,
    HeaderTooSmall,
    InvalidMagic { magic: u32 },
    NotFrameAligned { remaining: u64, frame_size: u64 },
    SaltMismatch { frame: u64 },
    FrameHeaderTooSmall,
}

impl WalError {
    /// The error's message.
    pub open spec fn message(self) -> Seq<char> {
        match self {
            WalError::InvalidUtf8 { valid_up_to, error_len } => match error_len {
                Some(n) => "invalid utf-8 sequence of "@ + decimal(n as nat) + " bytes from index "@
                    + decimal(valid_up_to as nat),
                None => "incomplete utf-8 byte sequence from index "@ + decimal(valid_up_to as nat),
            },
            WalError::InvalidFrameFormat { line } => "invalid frame format at line "@ + decimal(
                line as nat,
            ),
            WalError::InvalidNumber(e) => e.message(),
            WalError::NonMonotonicIndex => "non-monotonic frame index detected"@,
            WalError::HeaderTooSmall => "wal header too small"@,
            WalError::InvalidMagic { magic } => "invalid wal magic: 0x"@ + hex_digits(
                magic as nat,
                8,
            ),
            WalError::NotFrameAligned { remaining, frame_size } =>
                "wal size not aligned to frame boundary: remaining="@ + decimal(remaining as nat)
                + " frame_size="@ + decimal(frame_size as nat),
            WalError::SaltMismatch { frame } => "salt mismatch at frame "@ + decimal(frame as nat),
            WalError::FrameHeaderTooSmall => "wal frame header too small"@,
        }
    }

    pub fn to_string(&self) -> (r: String)
        ensures
            r@ == self.message(),
    {
        match self {
            WalError::InvalidUtf8 { valid_up_to, error_len } => match error_len {
                Some(n) => {
                    let mut s = "invalid utf-8 sequence of ".to_string();
                    push_decimal(&mut s, *n as u64);
                    s.append(" bytes from index ");
                    push_decimal(&mut s, *valid_up_to as u64);
                    s
                },
                None => {
                    let mut s = "incomplete utf-8 byte sequence from index ".to_string();
                    push_decimal(&mut s, *valid_up_to as u64);
                    s
                },
            },
            WalError::InvalidFrameFormat { line } => {
                let mut s = "invalid frame format at line ".to_string();
                push_decimal(&mut s, *line as u64);
                s
            },
            WalError::InvalidNumber(e) => e.to_string(),
            WalError::NonMonotonicIndex => "non-monotonic frame index detected".to_string(),
            WalError::HeaderTooSmall => "wal header too small".to_string(),
            WalError::InvalidMagic { magic } => {
                let mut s = "invalid wal magic: 0x".to_string();
                push_hex(&mut s, *magic as u64, 8);
                s
            },
            WalError::NotFrameAligned { remaining, frame_size } => {
                let mut s = "wal size not aligned to frame boundary: remaining=".to_string();
                push_decimal(&mut s, *remaining);
                s.append(" frame_size=");
                push_decimal(&mut s, *frame_size);
                s
            },
            WalError::SaltMismatch { frame } => {
                let mut s = "salt mismatch at frame ".to_string();
                push_decimal(&mut s, *frame);
                s
            },
            WalError::FrameHeaderTooSmall => "wal frame header too small".to_string(),
        }
    }
}

/// What one batch line holds.
pub enum LineOutcome {
    Blank,
    Frame(WalFrameMeta),
    Fail(WalError),
}

/// One line `index,checksum,size` of a frame batch, the line numbered
/// `line_no` from one. White space around the line and around each field is
/// ignored; a line of white space is blank.
pub open spec fn parse_frame_line(line: Seq<char>, line_no: nat) -> LineOutcome {
    let t = trim(line);
    if t.len() == 0 {
        LineOutcome::Blank
    } else {
        let parts = split_on(t, ',');
        if parts.len() != 3 {
            LineOutcome::Fail(WalError::InvalidFrameFormat { line: line_no as usize })
        } else {
            match parse_unsigned(trim(parts[0]), u64::MAX as nat) {
                Err(e) => LineOutcome::Fail(WalError::InvalidNumber(e)),
                Ok(index) => match parse_unsigned(trim(parts[1]), u64::MAX as nat) {
                    Err(e) => LineOutcome::Fail(WalError::InvalidNumber(e)),
                    Ok(checksum) => match parse_unsigned(trim(parts[2]), u32::MAX as nat) {
                        Err(e) => LineOutcome::Fail(WalError::InvalidNumber(e)),
                        Ok(size) => LineOutcome::Frame(
                            WalFrameMeta {
                                index: index as u64,
                                checksum: checksum as u64,
                                size_bytes: size as u32,
                            },
                        ),
                    },
                },
            }
        }
    }
}

/// The frames of a sequence of batch lines, or the failure of the first line
/// that fails.
pub open spec fn parse_frame_lines(lines: Seq<Seq<char>>) -> Result<Seq<WalFrameMeta>, WalError>
    decreases lines.len(),
{
    if lines.len() == 0 {
        Ok(Seq::empty())
    } else {
        match parse_frame_lines(lines.drop_last()) {
            Err(e) => Err(e),
            Ok(frames) => match parse_frame_line(lines.last(), lines.len()) {
                LineOutcome::Blank => Ok(frames),
                LineOutcome::Frame(f) => Ok(frames.push(f)),
                LineOutcome::Fail(e) => Err(e),
            },
        }
    }
}

/// A batch line `index,checksum,size` of decimal numbers reads as the frame
/// with exactly those values, for every index and checksum up to
/// `u64::MAX` and every size up to `u32::MAX`.
pub proof fn law_frame_line_values(index: u64, checksum: u64, size: u32, line_no: nat)
    ensures
        parse_frame_line(
            decimal(index as nat) + seq![','] + decimal(checksum as nat) + seq![','] + decimal(
                size as nat,
            ),
            line_no,
        ) == LineOutcome::Frame(WalFrameMeta { index, checksum, size_bytes: size }),
{
    let d1 = decimal(index as nat);
    let d2 = decimal(checksum as nat);
    let d3 = decimal(size as nat);
    let line = d1 + seq![','] + d2 + seq![','] + d3;
    lemma_decimal_digits(index as nat);
    lemma_decimal_digits(checksum as nat);
    lemma_decimal_digits(size as nat);
    lemma_parse_decimal(index as nat, u64::MAX as nat);
    lemma_parse_decimal(checksum as nat, u64::MAX as nat);
    lemma_parse_decimal(size as nat, u32::MAX as nat);
    // the line and each field are their own trim
    assert(line[0] == d1[0]);
    assert(line.last() == d3.last()) by {
        assert(line.last() == line[line.len() - 1]);
        assert(line[line.len() - 1] == d3[d3.len() - 1]);
    }
    lemma_trim_plain(line);
    lemma_trim_plain(d1);
    lemma_trim_plain(d2);
    lemma_trim_plain(d3);
    // the pieces between commas are the three numbers
    assert(split_on(Seq::<char>::empty(), ',') == seq![Seq::<char>::empty()]);
    lemma_split_append_plain(Seq::<char>::empty(), d1, ',');
    assert(Seq::<char>::empty() + d1 =~= d1);
    assert(split_on(d1, ',') =~= seq![d1]);
    lemma_split_push_sep(d1, ',');
    assert(d1 + seq![','] =~= d1.push(','));
    lemma_split_append_plain(d1 + seq![','], d2, ',');
    assert(split_on(d1 + seq![','] + d2, ',') =~= seq![d1, d2]) by {
        assert(seq![d1].push(Seq::<char>::empty()) =~= seq![d1, Seq::<char>::empty()]);
        assert(Seq::<char>::empty() + d2 =~= d2);
    }
    lemma_split_push_sep(d1 + seq![','] + d2, ',');
    assert(d1 + seq![','] + d2 + seq![','] =~= (d1 + seq![','] + d2).push(','));
    lemma_split_append_plain(d1 + seq![','] + d2 + seq![','], d3, ',');
    assert(split_on(line, ',') =~= seq![d1, d2, d3]) by {
        assert(seq![d1, d2].push(Seq::<char>::empty()) =~= seq![d1, d2, Seq::<char>::empty()]);
        assert(Seq::<char>::empty() + d3 =~= d3);
    }
    assert(parse_unsigned(d1, u64::MAX as nat) == Ok::<nat, NumberError>(index as nat));
    assert(parse_unsigned(d2, u64::MAX as nat) == Ok::<nat, NumberError>(checksum as nat));
    assert(parse_unsigned(d3, u32::MAX as nat) == Ok::<nat, NumberError>(size as nat));
}

/// Whether `k` is the length of the longest prefix of `raw` that is valid
/// UTF-8.
pub open spec fn longest_valid_prefix(raw: Seq<u8>, k: int) -> bool {
    &&& 0 <= k <= raw.len()
    &&& valid_utf8(raw.take(k))
    &&& forall|j: int| k < j <= raw.len() ==> !valid_utf8(#[trigger] raw.take(j))
}

/// The length of the longest prefix of `raw` that is valid UTF-8.
pub open spec fn utf8_valid_up_to(raw: Seq<u8>) -> int {
    choose|k: int| longest_valid_prefix(raw, k)
}

/// What `std::str::Utf8Error::error_len` gives for the error that
/// `std::str::from_utf8` reports on `raw`: the length of the invalid
/// sequence after the longest valid prefix, or `None` where the input ends
/// inside a sequence.
pub uninterp spec fn utf8_error_len(raw: Seq<u8>) -> Option<usize>;

/// Whether frame indices strictly increase.
pub open spec fn strictly_increasing(frames: Seq<WalFrameMeta>) -> bool {
    forall|i: int, j: int| 0 <= i < j < frames.len() ==> frames[i].index < frames[j].index
}

/// What a frame batch holds: valid UTF-8 text whose lines each hold a frame
/// or nothing, with strictly increasing indices.
pub open spec fn frame_batch(raw: Seq<u8>) -> Result<Seq<WalFrameMeta>, WalError> {
    if !valid_utf8(raw) {
        Err(
            WalError::InvalidUtf8 {
                valid_up_to: utf8_valid_up_to(raw) as usize,
                error_len: utf8_error_len(raw),
            },
        )
    } else {
        match parse_frame_lines(split_on(decode_utf8(raw), '\n')) {
            Err(e) => Err(e),
            Ok(frames) => if strictly_increasing(frames) {
                Ok(frames)
            } else {
                Err(WalError::NonMonotonicIndex)
            },
        }
    }
}

proof fn lemma_frame_lines_error_sticks(lines: Seq<Seq<char>>, i: int, e: WalError)
    requires
        0 <= i <= lines.len(),
        parse_frame_lines(lines.take(i)) == Err::<Seq<WalFrameMeta>, WalError>(e),
    ensures
        parse_frame_lines(lines) == Err::<Seq<WalFrameMeta>, WalError>(e),
    decreases lines.len() - i,
{
    if i < lines.len() {
        assert(lines.take(i + 1).drop_last() =~= lines.take(i));
        lemma_frame_lines_error_sticks(lines, i + 1, e);
    } else {
        assert(lines.take(i) =~= lines);
    }
}

/// The text of bytes that are valid UTF-8, by `std::str::from_utf8`, which
/// accepts exactly the valid encodings and keeps their bytes. On other
/// bytes it gives the error's `valid_up_to` (documented as the largest
/// index up to which the bytes are valid UTF-8) and `error_len` (named, and
/// documented as `None` only where the input ends one to three bytes after
/// that index).
#[verifier::external_body]
fn utf8_text(raw: &[u8]) -> (r: Result<&str, (usize, Option<usize>)>)
    ensures
        match r {
            Ok(t) => valid_utf8(raw@) && t.spec_bytes() == raw@,
            Err((v, len)) => {
                &&& !valid_utf8(raw@)
                &&& longest_valid_prefix(raw@, v as int)
                &&& len == utf8_error_len(raw@)
                &&& len is None ==> 1 <= raw@.len() - v <= 3
            },
        },
{
    match std::str::from_utf8(raw) {
        Ok(t) => Ok(t),
        Err(e) => Err((e.valid_up_to(), e.error_len())),
    }
}

proof fn lemma_longest_valid_prefix_unique(raw: Seq<u8>, k: int, c: int)
    requires
        longest_valid_prefix(raw, k),
        c == utf8_valid_up_to(raw),
    ensures
        c == k,
{
    assert(longest_valid_prefix(raw, c));
    if c < k {
        assert(!valid_utf8(raw.take(k)));
    } else if k < c {
        assert(!valid_utf8(raw.take(c)));
    }
}

/// Reads one batch line.
fn parse_line_chars(line: &Vec<char>, line_no: usize) -> (r: Result<Option<WalFrameMeta>, WalError>)
    ensures
        match parse_frame_line(line@, line_no as nat) {
            LineOutcome::Blank => r == Ok::<Option<WalFrameMeta>, WalError>(None),
            LineOutcome::Frame(f) => r == Ok::<Option<WalFrameMeta>, WalError>(Some(f)),
            LineOutcome::Fail(e) => r == Err::<Option<WalFrameMeta>, WalError>(e),
        },
{
    let t = trim_chars(line, 0, line.len());
    assert(line@.subrange(0, line@.len() as int) =~= line@);
    if t.len() == 0 {
        return Ok(None);
    }
    let parts = split_chars(&t, ',');
    if parts.len() != 3 {
        return Err(WalError::InvalidFrameFormat { line: line_no });
    }
    assert(parts@.map_values(|p: Vec<char>| p@)[0] == parts@[0]@);
    assert(parts@.map_values(|p: Vec<char>| p@)[1] == parts@[1]@);
    assert(parts@.map_values(|p: Vec<char>| p@)[2] == parts@[2]@);
    let p0 = trim_chars(&parts[0], 0, parts[0].len());
    let p1 = trim_chars(&parts[1], 0, parts[1].len());
    let p2 = trim_chars(&parts[2], 0, parts[2].len());
    assert(parts@[0]@.subrange(0, parts@[0]@.len() as int) =~= parts@[0]@);
    assert(parts@[1]@.subrange(0, parts@[1]@.len() as int) =~= parts@[1]@);
    assert(parts@[2]@.subrange(0, parts@[2]@.len() as int) =~= parts@[2]@);
    let index = match parse_unsigned_chars(&p0, u64::MAX) {
        Ok(v) => v,
        Err(e) => return Err(WalError::InvalidNumber(e)),
    };
    let checksum = match parse_unsigned_chars(&p1, u64::MAX) {
        Ok(v) => v,
        Err(e) => return Err(WalError::InvalidNumber(e)),
    };
    let size = match parse_unsigned_chars(&p2, u32::MAX as u64) {
        Ok(v) => v,
        Err(e) => return Err(WalError::InvalidNumber(e)),
    };
    let ghost parts_v = split_on(trim(line@), ',');
    assert(parts_v[0] == parts@[0]@);
    assert(trim(parts_v[0]) == p0@);
    assert(trim(parts_v[1]) == p1@);
    assert(trim(parts_v[2]) == p2@);
    Ok(Some(WalFrameMeta { index, checksum, size_bytes: size as u32 }))
}

/// The big-endian 32-bit number at `raw[off..off + 4]`.
pub open spec fn be32(raw: Seq<u8>, off: int) -> u32 {
    (raw[off] as nat * 16777216 + raw[off + 1] as nat * 65536 + raw[off + 2] as nat * 256
        + raw[off + 3] as nat) as u32
}

/// The WAL header at the start of `raw`: big-endian fields after a magic
/// number whose low bit says in which byte order checksums are computed.
pub open spec fn wal_header(raw: Seq<u8>) -> Result<WalHeader, WalError> {
    if raw.len() < 32 {
        Err(WalError::HeaderTooSmall)
    } else {
        let magic = be32(raw, 0);
        if magic != WAL_MAGIC_BE && magic != WAL_MAGIC_LE {
            Err(WalError::InvalidMagic { magic })
        } else {
            Ok(
                WalHeader {
                    magic,
                    format_version: be32(raw, 4),
                    page_size: be32(raw, 8),
                    checkpoint_seq: be32(raw, 12),
                    salt1: be32(raw, 16),
                    salt2: be32(raw, 20),
                    checksum1: be32(raw, 24),
                    checksum2: be32(raw, 28),
                    big_endian_checksums: magic == WAL_MAGIC_BE,
                },
            )
        }
    }
}

/// The frame header at the start of `raw`: six big-endian fields.
pub open spec fn wal_frame_header(raw: Seq<u8>) -> Result<WalFrameHeader, WalError> {
    if raw.len() < 24 {
        Err(WalError::FrameHeaderTooSmall)
    } else {
        Ok(
            WalFrameHeader {
                page_number: be32(raw, 0),
                db_size_after_commit: be32(raw, 4),
                salt1: be32(raw, 8),
                salt2: be32(raw, 12),
                checksum1: be32(raw, 16),
                checksum2: be32(raw, 20),
            },
        )
    }
}

/// The page size a header announces; 0 stands for 65536.
pub open spec fn page_size_of(h: WalHeader) -> nat {
    if h.page_size == 0 {
        65536
    } else {
        h.page_size as nat
    }
}

/// The header of frame `i` (from zero) of a WAL with header `h`.
pub open spec fn frame_header_of(raw: Seq<u8>, h: WalHeader, i: nat) -> WalFrameHeader {
    let base: int = (32 + i * (24 + page_size_of(h))) as int;
    wal_frame_header(raw.subrange(base, base + 24))->Ok_0
}

/// The metadata of frame `i` (from zero): its position from one, its two
/// checksums joined high word first, and the page size.
pub open spec fn frame_meta_of(raw: Seq<u8>, h: WalHeader, i: nat) -> WalFrameMeta {
    let fh = frame_header_of(raw, h, i);
    WalFrameMeta {
        index: (i + 1) as u64,
        checksum: (fh.checksum1 as nat * 4294967296 + fh.checksum2 as nat) as u64,
        size_bytes: page_size_of(h) as u32,
    }
}

/// Whether frame `i` carries the header's salts.
pub open spec fn salts_match(raw: Seq<u8>, h: WalHeader, i: nat) -> bool {
    let fh = frame_header_of(raw, h, i);
    fh.salt1 == h.salt1 && fh.salt2 == h.salt2
}

/// The first frame from `i` on, below `count`, whose salts differ from the
/// header's.
pub open spec fn first_salt_mismatch(raw: Seq<u8>, h: WalHeader, i: nat, count: nat) -> Option<nat>
    decreases count - i,
{
    if i >= count {
        None
    } else if !salts_match(raw, h, i) {
        Some(i)
    } else {
        first_salt_mismatch(raw, h, i + 1, count)
    }
}

/// What a WAL file holds: a valid header and whole frames whose salts are
/// the header's.
pub open spec fn wal_bytes(raw: Seq<u8>) -> Result<(WalHeader, Seq<WalFrameMeta>), WalError> {
    match wal_header(raw) {
        Err(e) => Err(e),
        Ok(h) => {
            let frame_size = 24 + page_size_of(h);
            let remaining = (raw.len() - 32) as nat;
            if remaining % frame_size != 0 {
                Err(
                    WalError::NotFrameAligned {
                        remaining: remaining as u64,
                        frame_size: frame_size as u64,
                    },
                )
            } else {
                let count = remaining / frame_size;
                match first_salt_mismatch(raw, h, 0, count) {
                    Some(i) => Err(WalError::SaltMismatch { frame: (i + 1) as u64 }),
                    None => Ok((h, Seq::new(count, |i: int| frame_meta_of(raw, h, i as nat)))),
                }
            }
        }
    }
}

/// The size of one frame of the WAL in `raw`, by the page size its header
/// announces.
pub open spec fn frame_size_in(raw: Seq<u8>) -> nat {
    24 + if be32(raw, 8) == 0 {
        65536
    } else {
        be32(raw, 8) as nat
    }
}

/// Whether byte `j` of the WAL in `raw` holds a checksum or page contents:
/// the header's two checksum words, or in a frame its two checksum words or
/// its page.
pub open spec fn checksum_or_page_byte(raw: Seq<u8>, j: int) -> bool {
    ||| 24 <= j < 32
    ||| (j >= 32 && (j - 32) % (frame_size_in(raw) as int) >= 16)
}

proof fn lemma_salts_agree(raw: Seq<u8>, raw2: Seq<u8>, h: WalHeader, h2: WalHeader, i: nat, count: nat)
    requires
        raw.len() == raw2.len(),
        raw.len() >= 32,
        page_size_of(h) == page_size_of(h2),
        frame_size_in(raw) == 24 + page_size_of(h),
        h.salt1 == h2.salt1 && h.salt2 == h2.salt2,
        32 + count * (24 + page_size_of(h)) <= raw.len(),
        forall|j: int| 0 <= j < raw.len() && !checksum_or_page_byte(raw, j) ==> raw2[j] == raw[j],
    ensures
        first_salt_mismatch(raw2, h2, i, count) == first_salt_mismatch(raw, h, i, count),
        forall|k: nat| k < count ==> {
            let a = #[trigger] frame_header_of(raw, h, k);
            let b = frame_header_of(raw2, h2, k);
            &&& a.page_number == b.page_number
            &&& a.db_size_after_commit == b.db_size_after_commit
            &&& a.salt1 == b.salt1
            &&& a.salt2 == b.salt2
        },
    decreases count - i,
{
    let f = (24 + page_size_of(h)) as int;
    assert forall|k: nat| k < count implies {
        let a = #[trigger] frame_header_of(raw, h, k);
        let b = frame_header_of(raw2, h2, k);
        &&& a.page_number == b.page_number
        &&& a.db_size_after_commit == b.db_size_after_commit
        &&& a.salt1 == b.salt1
        &&& a.salt2 == b.salt2
    } by {
        let base: int = 32 + k * f;
        assert(base + 24 <= raw.len()) by (nonlinear_arith)
            requires
                k < count,
                32 + count * f <= raw.len(),
                f >= 24,
                base == 32 + k * f,
        ;
        assert forall|d: int| 0 <= d < 16 implies #[trigger] raw2[base + d] == raw[base + d] by {
            vstd::arithmetic::div_mod::lemma_mod_multiples_vanish(k as int, d, f);
            vstd::arithmetic::div_mod::lemma_small_mod(d as nat, f as nat);
            assert(base + d - 32 == f * k + d) by (nonlinear_arith)
                requires
                    base == 32 + k * f,
            ;
            assert(!checksum_or_page_byte(raw, base + d));
        }
        let s1 = raw.subrange(base, base + 24);
        let s2 = raw2.subrange(base, base + 24);
        assert forall|d: int| 0 <= d < 16 implies s2[d] == s1[d] by {
            assert(s1[d] == raw[base + d]);
            assert(s2[d] == raw2[base + d]);
        }
    }
    if i < count {
        lemma_salts_agree(raw, raw2, h, h2, i + 1, count);
        assert(salts_match(raw2, h2, i) == salts_match(raw, h, i));
    }
}

/// Rolling checksums are not validated: two WALs of one length that differ
/// only in checksum words and page contents parse alike. Both are refused
/// with the same error, or both are read, with the same header and frames
/// apart from their checksums.
pub proof fn law_wal_checksums_not_checked(raw: Seq<u8>, raw2: Seq<u8>)
    requires
        raw.len() == raw2.len(),
        forall|j: int| 0 <= j < raw.len() && !checksum_or_page_byte(raw, j) ==> raw2[j] == raw[j],
    ensures
        match wal_bytes(raw) {
            Err(e) => wal_bytes(raw2) == Err::<(WalHeader, Seq<WalFrameMeta>), WalError>(e),
            Ok((h, ms)) => wal_bytes(raw2) matches Ok((h2, ms2)) && h2 == (WalHeader {
                checksum1: h2.checksum1,
                checksum2: h2.checksum2,
                ..h
            }) && ms2.len() == ms.len() && forall|i: int|
                0 <= i < ms.len() ==> #[trigger] ms2[i] == (WalFrameMeta {
                    checksum: ms2[i].checksum,
                    ..ms[i]
                }),
        },
{
    if raw.len() >= 32 {
        assert forall|j: int| 0 <= j < 24 implies raw2[j] == raw[j] by {
            assert(!checksum_or_page_byte(raw, j));
        }
        match wal_header(raw) {
            Err(e) => {},
            Ok(h) => {
                let h2 = wal_header(raw2)->Ok_0;
                let f = 24 + page_size_of(h);
                let remaining = (raw.len() - 32) as nat;
                if remaining % f == 0 {
                    let count = remaining / f;
                    assert(32 + count * f <= raw.len()) by (nonlinear_arith)
                        requires
                            count == remaining / f,
                            remaining == raw.len() - 32,
                            f > 0,
                    ;
                    lemma_salts_agree(raw, raw2, h, h2, 0, count);
                }
            },
        }
    }
}

/// A WAL header is read at SQLite's fixed offsets: each of its eight fields
/// is the big-endian 32-bit word at its place in the first 32 bytes (magic,
/// format version, page size, checkpoint sequence, two salts, two
/// checksums), and checksums are big-endian exactly when the magic's low
/// bit is set. Every WAL that parses has that header.
pub proof fn law_wal_header_offsets(raw: Seq<u8>)
    requires
        raw.len() >= 32,
    ensures
        ({
            let w = |o: int|
                (raw[o] as nat * 16777216 + raw[o + 1] as nat * 65536 + raw[o + 2] as nat * 256
                    + raw[o + 3] as nat) as u32;
            &&& (w(0) == 0x377f0682u32 || w(0) == 0x377f0683u32) ==> (wal_header(raw) matches Ok(h)
                && h.magic == w(0) && h.format_version == w(4) && h.page_size == w(8)
                && h.checkpoint_seq == w(12) && h.salt1 == w(16) && h.salt2 == w(20)
                && h.checksum1 == w(24) && h.checksum2 == w(28) && h.big_endian_checksums == (w(0)
                == 0x377f0683u32))
            &&& !(w(0) == 0x377f0682u32 || w(0) == 0x377f0683u32) ==> wal_header(raw)
                == Err::<WalHeader, WalError>(WalError::InvalidMagic { magic: w(0) })
            &&& (wal_bytes(raw) matches Ok((h, frames)) ==> wal_header(raw) == Ok::<WalHeader, WalError>(h))
        }),
{
}

/// The frames a WAL reads as: one per `24 + page size` bytes after the
/// 32-byte header (page size 0 standing for 65536), numbered from 1, each
/// sized as a page, with a checksum made of the big-endian words at bytes
/// 16 and 20 of its frame header, the first as the high half (for any WAL
/// whose length a machine word can hold).
pub proof fn law_wal_frames_read(raw: Seq<u8>)
    requires
        raw.len() <= u64::MAX,
    ensures
        wal_bytes(raw) matches Ok((h, frames)) ==> ({
            let ps: int = if h.page_size == 0 {
                65536
            } else {
                h.page_size as int
            };
            let w = |o: int|
                raw[o] as int * 16777216 + raw[o + 1] as int * 65536 + raw[o + 2] as int * 256
                    + raw[o + 3] as int;
            &&& frames.len() * (24 + ps) == raw.len() - 32
            &&& forall|i: int|
                0 <= i < frames.len() ==> {
                    let base = 32 + i * (24 + ps);
                    &&& (#[trigger] frames[i]).index == i + 1
                    &&& frames[i].size_bytes == ps
                    &&& frames[i].checksum == w(base + 16) * 4294967296 + w(base + 20)
                }
        }),
{
    if let Ok((h, frames)) = wal_bytes(raw) {
        let ps: int = if h.page_size == 0 {
            65536
        } else {
            h.page_size as int
        };
        let f = 24 + ps;
        let remaining = raw.len() - 32;
        let count = remaining / f;
        assert(frames.len() == count);
        assert(count * f == remaining) by (nonlinear_arith)
            requires
                remaining % f == 0,
                count == remaining / f,
                f > 0,
        ;
        assert forall|i: int| 0 <= i < frames.len() implies {
            let base = 32 + i * (24 + ps);
            let w = |o: int|
                raw[o] as int * 16777216 + raw[o + 1] as int * 65536 + raw[o + 2] as int * 256
                    + raw[o + 3] as int;
            &&& (#[trigger] frames[i]).index == i + 1
            &&& frames[i].size_bytes == ps
            &&& frames[i].checksum == w(base + 16) * 4294967296 + w(base + 20)
        } by {
            let base = 32 + i * f;
            assert(base + 24 <= raw.len()) by (nonlinear_arith)
                requires
                    0 <= i < count,
                    count * f == remaining,
                    remaining == raw.len() - 32,
                    base == 32 + i * f,
                    f >= 24,
            ;
            assert(i + 1 <= raw.len()) by (nonlinear_arith)
                requires
                    0 <= i < count,
                    count * f == remaining,
                    remaining == raw.len() - 32,
                    f >= 24,
            ;
            let sub = raw.subrange(base, base + 24);
            assert(sub[16] == raw[base + 16] && sub[17] == raw[base + 17] && sub[18] == raw[base + 18]
                && sub[19] == raw[base + 19]);
            assert(sub[20] == raw[base + 20] && sub[21] == raw[base + 21] && sub[22] == raw[base + 22]
                && sub[23] == raw[base + 23]);
        }
    }
}

/// Reads the big-endian 32-bit number at `raw[off..off + 4]`.
fn read_be32(raw: &[u8], off: usize) -> (r: u32)
    requires
        off + 4 <= raw.len(),
    ensures
        r == be32(raw@, off as int),
{
    (raw[off] as u32) * 16777216 + (raw[off + 1] as u32) * 65536 + (raw[off + 2] as u32) * 256
        + (raw[off + 3] as u32)
}

fn parse_wal_header(raw: &[u8]) -> (r: Result<WalHeader, WalError>)
    ensures
        r == wal_header(raw@),
{
    if raw.len() < WAL_HEADER_SIZE {
        return Err(WalError::HeaderTooSmall);
    }
    let magic_be = read_be32(raw, 0);
    let big_endian_checksums = if magic_be == WAL_MAGIC_BE {
        true
    } else if magic_be == WAL_MAGIC_LE {
        false
    } else {
        return Err(WalError::InvalidMagic { magic: magic_be });
    };
    // WAL header fields are stored big-endian per SQLite WAL format.
    Ok(
        WalHeader {
            magic: magic_be,
            format_version: read_be32(raw, 4),
            page_size: read_be32(raw, 8),
            checkpoint_seq: read_be32(raw, 12),
            salt1: read_be32(raw, 16),
            salt2: read_be32(raw, 20),
            checksum1: read_be32(raw, 24),
            checksum2: read_be32(raw, 28),
            big_endian_checksums,
        },
    )
}

/// Reads a frame header; all six of its fields are stored big-endian,
/// whichever byte order the checksums are computed in.
fn parse_wal_frame_header(raw: &[u8]) -> (r: Result<WalFrameHeader, WalError>)
    ensures
        r == wal_frame_header(raw@),
{
    if raw.len() < WAL_FRAME_HEADER_SIZE {
        return Err(WalError::FrameHeaderTooSmall);
    }
    Ok(
        WalFrameHeader {
            page_number: read_be32(raw, 0),
            db_size_after_commit: read_be32(raw, 4),
            salt1: read_be32(raw, 8),
            salt2: read_be32(raw, 12),
            checksum1: read_be32(raw, 16),
            checksum2: read_be32(raw, 20),
        },
    )
}

proof fn lemma_first_mismatch_none(raw: Seq<u8>, h: WalHeader, i: nat, count: nat)
    requires
        i <= count,
        forall|j: nat| i <= j < count ==> salts_match(raw, h, j),
    ensures
        first_salt_mismatch(raw, h, i, count) == None::<nat>,
    decreases count - i,
{
    if i < count {
        lemma_first_mismatch_none(raw, h, i + 1, count);
    }
}

proof fn lemma_first_mismatch_at(raw: Seq<u8>, h: WalHeader, i: nat, k: nat, count: nat)
    requires
        i <= k < count,
        forall|j: nat| i <= j < k ==> salts_match(raw, h, j),
        !salts_match(raw, h, k),
    ensures
        first_salt_mismatch(raw, h, i, count) == Some(k),
    decreases k - i,
{
    if i < k {
        lemma_first_mismatch_at(raw, h, i + 1, k, count);
    }
}

/// Reads the frame header that starts at `base`, the offset of frame `i` of
/// a WAL with header `header`.
fn read_frame_header(raw: &[u8], header: &WalHeader, i: u64, base: usize, end: usize) -> (r: Result<
    WalFrameHeader,
    WalError,
>)
    requires
        base == 32 + (i as nat) * (24 + page_size_of(*header)),
        end == base + 24,
        end <= raw@.len(),
    ensures
        r == Ok::<WalFrameHeader, WalError>(frame_header_of(raw@, *header, i as nat)),
{
    let fh_bytes = vstd::slice::slice_subrange(raw, base, end);
    parse_wal_frame_header(fh_bytes)
}

pub struct WalReplicator;

impl WalReplicator {
    pub fn new() -> Self {
        WalReplicator
    }

    pub fn name(&self) -> (r: &'static str)
        ensures
            r@ == "wal-replicator"@,
    {
        "wal-replicator"
    }

    /// Parser for the replay harness line format:
    /// index,checksum,size
    pub fn parse_frame_batch(&self, raw: &[u8]) -> (r: Result<Vec<WalFrameMeta>, WalError>)
        ensures
            match frame_batch(raw@) {
                Ok(frames) => r matches Ok(v) && v@ == frames,
                Err(e) => r == Err::<Vec<WalFrameMeta>, WalError>(e),
            },
    {
        let text = match utf8_text(raw) {
            Ok(t) => t,
            Err((v, len)) => {
                proof {
                    lemma_longest_valid_prefix_unique(raw@, v as int, utf8_valid_up_to(raw@));
                }
                return Err(WalError::InvalidUtf8 { valid_up_to: v, error_len: len });
            },
        };
        proof {
            vstd::utf8::encode_utf8_decode_utf8(text@);
        }
        let chars = text_chars(text);
        assert(chars@ == decode_utf8(raw@));
        let lines = split_chars(&chars, '\n');
        let ghost lines_v = lines@.map_values(|p: Vec<char>| p@);
        let mut frames: Vec<WalFrameMeta> = Vec::new();
        let mut ln: usize = 0;
        assert(lines_v.take(0) =~= Seq::<Seq<char>>::empty());
        while ln < lines.len()
            invariant
                ln <= lines.len(),
                lines_v == lines@.map_values(|p: Vec<char>| p@),
                lines_v == split_on(decode_utf8(raw@), '\n'),
                valid_utf8(raw@),
                parse_frame_lines(lines_v.take(ln as int)) == Ok::<Seq<WalFrameMeta>, WalError>(
                    frames@,
                ),
            decreases lines.len() - ln,
        {
            assert(lines_v.take(ln as int + 1).drop_last() =~= lines_v.take(ln as int));
            assert(lines_v.take(ln as int + 1).last() == lines@[ln as int]@);
            match parse_line_chars(&lines[ln], ln + 1) {
                Ok(None) => {},
                Ok(Some(f)) => {
                    frames.push(f);
                },
                Err(e) => {
                    proof {
                        assert(parse_frame_lines(lines_v.take(ln as int + 1)) == Err::<
                            Seq<WalFrameMeta>,
                            WalError,
                        >(e));
                        lemma_frame_lines_error_sticks(lines_v, ln as int + 1, e);
                    }
                    return Err(e);
                },
            }
            ln = ln + 1;
        }
        assert(lines_v.take(lines.len() as int) =~= lines_v);
        let mut k: usize = 1;
        while k < frames.len()
            invariant
                1 <= k,
                k <= frames.len() || frames.len() == 0,
                valid_utf8(raw@),
                parse_frame_lines(split_on(decode_utf8(raw@), '\n')) == Ok::<
                    Seq<WalFrameMeta>,
                    WalError,
                >(frames@),
                forall|i: int, j: int|
                    0 <= i < j < k && j < frames.len() ==> frames@[i].index < frames@[j].index,
            decreases frames.len() - k,
        {
            if frames[k].index <= frames[k - 1].index {
                assert(!strictly_increasing(frames@)) by {
                    assert(!(frames@[k - 1].index < frames@[k as int].index));
                }
                return Err(WalError::NonMonotonicIndex);
            }
            k = k + 1;
        }
        assert(strictly_increasing(frames@));
        Ok(frames)
    }

    /// Parse SQLite WAL binary header + frame headers to frame metadata.
    /// Notes:
    /// - Validates basic WAL shape and salts.
    /// - Does NOT validate rolling checksums.
    pub fn parse_wal_bytes(&self, raw: &[u8]) -> (r: Result<(WalHeader, Vec<WalFrameMeta>), WalError>)
        ensures
            match wal_bytes(raw@) {
                Ok((h, frames)) => r matches Ok((rh, v)) && rh == h && v@ == frames,
                Err(e) => r == Err::<(WalHeader, Vec<WalFrameMeta>), WalError>(e),
            },
    {
        let header = match parse_wal_header(raw) {
            Ok(h) => h,
            Err(e) => return Err(e),
        };
        let ghost h = header;
        let page_size: u64 = if header.page_size == 0 {
            65536
        } else {
            header.page_size as u64
        };
        let frame_size: u64 = WAL_FRAME_HEADER_SIZE as u64 + page_size;
        let remaining: u64 = (raw.len() - WAL_HEADER_SIZE) as u64;
        if remaining % frame_size != 0 {
            return Err(WalError::NotFrameAligned { remaining, frame_size });
        }
        let frame_count: u64 = remaining / frame_size;
        proof {
            assert(frame_count * frame_size == remaining) by (nonlinear_arith)
                requires
                    frame_count == remaining / frame_size,
                    remaining % frame_size == 0,
                    frame_size > 0,
            ;
        }
        let mut metas: Vec<WalFrameMeta> = Vec::new();
        let mut i: u64 = 0;
        let mut base: u64 = WAL_HEADER_SIZE as u64;
        while i < frame_count
            invariant
                base == 32 + i * frame_size,
                base <= raw.len(),
                i <= frame_count,
                h == header,
                wal_header(raw@) == Ok::<WalHeader, WalError>(h),
                page_size == page_size_of(h),
                frame_size == 24 + page_size,
                remaining == raw.len() - 32,
                frame_count * frame_size == remaining,
                frame_count == remaining / frame_size,
                remaining % frame_size == 0,
                metas@.len() == i,
                forall|j: int| 0 <= j < i ==> #[trigger] metas@[j] == frame_meta_of(raw@, h, j as nat),
                forall|j: nat| j < i ==> salts_match(raw@, h, j),
            decreases frame_count - i,
        {
            proof {
                assert(i * frame_size + frame_size <= frame_count * frame_size) by (nonlinear_arith)
                    requires
                        i < frame_count,
                ;
                assert((i + 1) * frame_size == i * frame_size + frame_size) by (nonlinear_arith);
            }
            let end = base + WAL_FRAME_HEADER_SIZE as u64;
            let fh = match read_frame_header(raw, &header, i, base as usize, end as usize) {
                Ok(fh) => fh,
                Err(e) => return Err(e),
            };
            if fh.salt1 != header.salt1 || fh.salt2 != header.salt2 {
                assert(!salts_match(raw@, h, i as nat));
                assert(wal_header(raw@) == Ok::<WalHeader, WalError>(h));
                assert(raw@.len() - 32 == remaining);
                proof {
                    lemma_first_mismatch_at(raw@, h, 0, i as nat, frame_count as nat);
                    let fsz = 24 + page_size_of(h);
                    let rem = (raw@.len() - 32) as nat;
                    assert(fsz == frame_size);
                    assert(rem == remaining);
                    assert(rem % fsz == 0);
                    assert(rem / fsz == frame_count);
                    assert(first_salt_mismatch(raw@, h, 0, rem / fsz) == Some(i as nat));
                }
                return Err(WalError::SaltMismatch { frame: i + 1 });
            }
            let checksum: u64 = (fh.checksum1 as u64) * 4294967296 + (fh.checksum2 as u64);
            metas.push(WalFrameMeta { index: i + 1, checksum, size_bytes: page_size as u32 });
            i = i + 1;
            base = base + frame_size;
        }
        proof {
            lemma_first_mismatch_none(raw@, h, 0, frame_count as nat);
            assert(metas@ =~= Seq::new(frame_count as nat, |j: int| frame_meta_of(raw@, h, j as nat)));
        }
        Ok((header, metas))
    }
}

} // verus!
