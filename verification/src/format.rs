//! The segment format: footer and metadata.
//!
//! ```text
//! [data blocks] [membership filter] [directory] [footer: 64 bytes]
//! ```
//!
//! The footer is always the last 64 bytes. Readers start there to learn where each section is.

use vstd::prelude::*;
use vstd::slice::slice_subrange;
use crate::bytes::{
    append_slice, append_u16, append_u32, append_u64, le_bytes, le_value, lemma_le_bounded,
    lemma_le_bounds, lemma_le_injective, lemma_le_len, lemma_le_round_trip, read_u16, read_u32,
    read_u64,
};
use crate::checksum::{checksum, crc32, law_crc32_differs};
use crate::numerals::{append_decimal, append_hexadecimal, decimal, hexadecimal};

verus! {

/// The first four bytes of every footer: "S3IX" in ASCII.
pub const MAGIC: [u8; 4] = [0x53, 0x33, 0x49, 0x58];

/// The format version.
pub const FORMAT_VERSION: u16 = 1;

/// Size of the footer in bytes.
pub const FOOTER_SIZE: usize = 64;

/// Block size by default: 64 KB.
pub const DEFAULT_BLOCK_SIZE: u32 = 65536;

/// Entries from one restart point to the next by default.
pub const DEFAULT_RESTART_INTERVAL: u32 = 16;

/// The footer of a segment.
///
/// ```text
/// [0..4]    magic "S3IX"
/// [4..6]    format_version: u16
/// [6..8]    reserved
/// [8..16]   data_blocks_offset: u64
/// [16..24]  data_blocks_length: u64
/// [24..32]  bloom_offset: u64
/// [32..40]  bloom_length: u64
/// [40..48]  fst_offset: u64
/// [48..56]  fst_length: u64
/// [56..60]  key_count: u32
/// [60..64]  checksum: u32, the CRC-32 of bytes [0..60]
/// ```
///
/// All numbers are little-endian.
#[derive(Debug, Clone, Copy, PartialEq, Eq, Structural)]
pub struct Footer {
    pub format_version: u16,
    pub data_blocks_offset: u64,
    pub data_blocks_length: u64,
    pub bloom_offset: u64,
    pub bloom_length: u64,
    pub fst_offset: u64,
    pub fst_length: u64,
    pub key_count: u32,
    pub checksum: u32,
}

/// Why a footer cannot be read.
#[derive(Debug, Clone, Copy, PartialEq, Eq, Structural)]
pub enum FormatError {
    /// The magic bytes are missing.
    InvalidMagic,
    /// The format version is not the one this library knows.
    UnsupportedVersion(u16),
    /// The checksum does not match the contents.
    ChecksumMismatch { stored: u32, computed: u32 },
    /// There are too few bytes for a footer.
    TooSmall { size: u64 },
}

impl FormatError {
    /// The text of the error.
    pub open spec fn text(self) -> Seq<char> {
        match self {
            FormatError::InvalidMagic => "Invalid magic bytes — not an s3-index segment"@,
            FormatError::UnsupportedVersion(version) => "Unsupported format version: "@ + decimal(
                version as nat,
            ) + " (expected "@ + decimal(FORMAT_VERSION as nat) + ")"@,
            FormatError::ChecksumMismatch { stored, computed } =>
                "Footer checksum mismatch: stored=0x"@ + hexadecimal(stored as nat)
                    + ", computed=0x"@ + hexadecimal(computed as nat),
            FormatError::TooSmall { size } => "Segment too small: "@ + decimal(size as nat)
                + " bytes (minimum is "@ + decimal(FOOTER_SIZE as nat) + ")"@,
        }
    }

    /// Describes the error.
    pub fn message(&self) -> (r: String)
        ensures
            r@ == self.text(),
    {
        match self {
            FormatError::InvalidMagic => String::from_str(
                "Invalid magic bytes — not an s3-index segment",
            ),
            FormatError::UnsupportedVersion(version) => {
                let mut text = String::from_str("Unsupported format version: ");
                append_decimal(&mut text, *version as u64);
                text.append(" (expected ");
                append_decimal(&mut text, FORMAT_VERSION as u64);
                text.append(")");
                text
            },
            FormatError::ChecksumMismatch { stored, computed } => {
                let mut text = String::from_str("Footer checksum mismatch: stored=0x");
                append_hexadecimal(&mut text, *stored as u64);
                text.append(", computed=0x");
                append_hexadecimal(&mut text, *computed as u64);
                text
            },
            FormatError::TooSmall { size } => {
                let mut text = String::from_str("Segment too small: ");
                append_decimal(&mut text, *size);
                text.append(" bytes (minimum is ");
                append_decimal(&mut text, FOOTER_SIZE as u64);
                text.append(")");
                text
            },
        }
    }
}

/// Metadata of a segment, kept outside it.
#[derive(Debug, Clone)]
pub struct SegmentMeta {
    /// Generation number, ascending.
    pub generation: u64,
    /// Where the segment is stored.
    pub path: String,
    /// Size of the segment in bytes.
    pub size_bytes: u64,
    /// Number of keys.
    pub key_count: u32,
    /// Smallest key.
    pub min_key: Vec<u8>,
    /// Largest key.
    pub max_key: Vec<u8>,
}

/// What the errors of footers say.
pub proof fn law_format_error_texts(version: u16, stored: u32, computed: u32, size: u64)
    ensures
        FormatError::InvalidMagic.text() == "Invalid magic bytes — not an s3-index segment"@,
        FormatError::UnsupportedVersion(version).text() == "Unsupported format version: "@
            + decimal(version as nat) + " (expected "@ + decimal(1) + ")"@,
        (FormatError::ChecksumMismatch { stored, computed }).text()
            == "Footer checksum mismatch: stored=0x"@ + hexadecimal(stored as nat)
            + ", computed=0x"@ + hexadecimal(computed as nat),
        (FormatError::TooSmall { size }).text() == "Segment too small: "@ + decimal(size as nat)
            + " bytes (minimum is "@ + decimal(64) + ")"@,
{
}

/// The footer's bytes in front of its checksum.
pub open spec fn footer_head(f: Footer) -> Seq<u8> {
    MAGIC@ + le_bytes(f.format_version as nat, 2) + le_bytes(0, 2) + le_bytes(
        f.data_blocks_offset as nat,
        8,
    ) + le_bytes(f.data_blocks_length as nat, 8) + le_bytes(f.bloom_offset as nat, 8) + le_bytes(
        f.bloom_length as nat,
        8,
    ) + le_bytes(f.fst_offset as nat, 8) + le_bytes(f.fst_length as nat, 8) + le_bytes(
        f.key_count as nat,
        4,
    )
}

/// The footer's bytes. The checksum is computed; the field of that name does not matter.
pub open spec fn footer_bytes(f: Footer) -> Seq<u8> {
    footer_head(f) + le_bytes(crc32(footer_head(f)) as nat, 4)
}

/// The footer that 64 bytes hold, or why they hold none.
pub open spec fn parse_footer(s: Seq<u8>) -> Result<Footer, FormatError> {
    let version = le_value(s.subrange(4, 6)) as u16;
    let stored = le_value(s.subrange(60, 64)) as u32;
    let computed = crc32(s.subrange(0, 60));
    if s.subrange(0, 4) != MAGIC@ {
        Err(FormatError::InvalidMagic)
    } else if version != FORMAT_VERSION {
        Err(FormatError::UnsupportedVersion(version))
    } else if stored != computed {
        Err(FormatError::ChecksumMismatch { stored, computed })
    } else {
        Ok(
            Footer {
                format_version: version,
                data_blocks_offset: le_value(s.subrange(8, 16)) as u64,
                data_blocks_length: le_value(s.subrange(16, 24)) as u64,
                bloom_offset: le_value(s.subrange(24, 32)) as u64,
                bloom_length: le_value(s.subrange(32, 40)) as u64,
                fst_offset: le_value(s.subrange(40, 48)) as u64,
                fst_length: le_value(s.subrange(48, 56)) as u64,
                key_count: le_value(s.subrange(56, 60)) as u32,
                checksum: stored,
            },
        )
    }
}

/// The footer takes 64 bytes.
pub proof fn lemma_footer_len(f: Footer)
    ensures
        footer_head(f).len() == 60,
        footer_bytes(f).len() == 64,
{
    lemma_le_len(f.format_version as nat, 2);
    lemma_le_len(0, 2);
    lemma_le_len(f.data_blocks_offset as nat, 8);
    lemma_le_len(f.data_blocks_length as nat, 8);
    lemma_le_len(f.bloom_offset as nat, 8);
    lemma_le_len(f.bloom_length as nat, 8);
    lemma_le_len(f.fst_offset as nat, 8);
    lemma_le_len(f.fst_length as nat, 8);
    lemma_le_len(f.key_count as nat, 4);
    lemma_le_len(crc32(footer_head(f)) as nat, 4);
}

/// A footer of the known version is read back from its bytes, with the checksum filled in.
pub proof fn law_footer_round_trip(f: Footer)
    requires
        f.format_version == FORMAT_VERSION,
    ensures
        parse_footer(footer_bytes(f)) == Ok::<Footer, FormatError>(
            Footer { checksum: crc32(footer_head(f)), ..f },
        ),
{
    let s = footer_bytes(f);
    lemma_footer_len(f);
    lemma_le_bounds();
    lemma_le_len(0, 2);
    lemma_le_round_trip(f.format_version as nat, 2);
    lemma_le_round_trip(f.data_blocks_offset as nat, 8);
    lemma_le_round_trip(f.data_blocks_length as nat, 8);
    lemma_le_round_trip(f.bloom_offset as nat, 8);
    lemma_le_round_trip(f.bloom_length as nat, 8);
    lemma_le_round_trip(f.fst_offset as nat, 8);
    lemma_le_round_trip(f.fst_length as nat, 8);
    lemma_le_round_trip(f.key_count as nat, 4);
    lemma_le_round_trip(crc32(footer_head(f)) as nat, 4);
    assert(s.subrange(0, 60) =~= footer_head(f));
    assert(s.subrange(0, 4) =~= MAGIC@);
    assert(s.subrange(4, 6) =~= le_bytes(f.format_version as nat, 2));
    assert(s.subrange(8, 16) =~= le_bytes(f.data_blocks_offset as nat, 8));
    assert(s.subrange(16, 24) =~= le_bytes(f.data_blocks_length as nat, 8));
    assert(s.subrange(24, 32) =~= le_bytes(f.bloom_offset as nat, 8));
    assert(s.subrange(32, 40) =~= le_bytes(f.bloom_length as nat, 8));
    assert(s.subrange(40, 48) =~= le_bytes(f.fst_offset as nat, 8));
    assert(s.subrange(48, 56) =~= le_bytes(f.fst_length as nat, 8));
    assert(s.subrange(56, 60) =~= le_bytes(f.key_count as nat, 4));
    assert(s.subrange(60, 64) =~= le_bytes(crc32(footer_head(f)) as nat, 4));
}

/// Where the fields of a footer are: "S3IX", the version and two bytes of zeros; the offsets and
/// lengths of blocks, filter and directory, eight bytes each; the number of keys and the CRC-32 of
/// all bytes in front, four bytes each.
pub proof fn law_footer_layout(f: Footer)
    ensures
        ({
            let s = footer_bytes(f);
            &&& s.len() == 64
            &&& s[0] == 0x53 && s[1] == 0x33 && s[2] == 0x49 && s[3] == 0x58
            &&& s.subrange(4, 6) == le_bytes(f.format_version as nat, 2)
            &&& s[6] == 0 && s[7] == 0
            &&& s.subrange(8, 16) == le_bytes(f.data_blocks_offset as nat, 8)
            &&& s.subrange(16, 24) == le_bytes(f.data_blocks_length as nat, 8)
            &&& s.subrange(24, 32) == le_bytes(f.bloom_offset as nat, 8)
            &&& s.subrange(32, 40) == le_bytes(f.bloom_length as nat, 8)
            &&& s.subrange(40, 48) == le_bytes(f.fst_offset as nat, 8)
            &&& s.subrange(48, 56) == le_bytes(f.fst_length as nat, 8)
            &&& s.subrange(56, 60) == le_bytes(f.key_count as nat, 4)
            &&& s.subrange(60, 64) == le_bytes(crc32(s.subrange(0, 60)) as nat, 4)
        }),
{
    let s = footer_bytes(f);
    lemma_footer_len(f);
    lemma_le_len(f.format_version as nat, 2);
    lemma_le_len(0, 2);
    lemma_le_len(f.data_blocks_offset as nat, 8);
    lemma_le_len(f.data_blocks_length as nat, 8);
    lemma_le_len(f.bloom_offset as nat, 8);
    lemma_le_len(f.bloom_length as nat, 8);
    lemma_le_len(f.fst_offset as nat, 8);
    lemma_le_len(f.fst_length as nat, 8);
    lemma_le_len(f.key_count as nat, 4);
    lemma_le_len(crc32(footer_head(f)) as nat, 4);
    reveal_with_fuel(le_bytes, 3);
    assert(s.subrange(0, 60) =~= footer_head(f));
    assert(s.subrange(4, 6) =~= le_bytes(f.format_version as nat, 2));
    assert(s.subrange(6, 8) =~= le_bytes(0, 2));
    assert(s[6] == s.subrange(6, 8)[0] && s[7] == s.subrange(6, 8)[1]);
    assert(s.subrange(8, 16) =~= le_bytes(f.data_blocks_offset as nat, 8));
    assert(s.subrange(16, 24) =~= le_bytes(f.data_blocks_length as nat, 8));
    assert(s.subrange(24, 32) =~= le_bytes(f.bloom_offset as nat, 8));
    assert(s.subrange(32, 40) =~= le_bytes(f.bloom_length as nat, 8));
    assert(s.subrange(40, 48) =~= le_bytes(f.fst_offset as nat, 8));
    assert(s.subrange(48, 56) =~= le_bytes(f.fst_length as nat, 8));
    assert(s.subrange(56, 60) =~= le_bytes(f.key_count as nat, 4));
    assert(s.subrange(60, 64) =~= le_bytes(crc32(footer_head(f)) as nat, 4));
    assert(s.subrange(0, 4) =~= MAGIC@);
    assert(s[0] == s.subrange(0, 4)[0] && s[1] == s.subrange(0, 4)[1]);
    assert(s[2] == s.subrange(0, 4)[2] && s[3] == s.subrange(0, 4)[3]);
}

/// Which 64 bytes are a footer, and what it says. "S3IX" must come first, then the version 1; the
/// last four bytes must be the CRC-32 of the others. These are looked at in this order.
pub proof fn law_parse_footer(s: Seq<u8>)
    requires
        s.len() == 64,
    ensures
        ({
            let magic = s[0] == 0x53 && s[1] == 0x33 && s[2] == 0x49 && s[3] == 0x58;
            let version = le_value(s.subrange(4, 6));
            let stored = le_value(s.subrange(60, 64));
            let computed = crc32(s.subrange(0, 60));
            match parse_footer(s) {
                Err(FormatError::InvalidMagic) => !magic,
                Err(FormatError::UnsupportedVersion(v)) => magic && v as nat == version && v != 1,
                Err(FormatError::ChecksumMismatch { stored: x, computed: y }) => {
                    magic && version == 1 && x as nat == stored && y == computed && x != y
                },
                Err(_) => false,
                Ok(f) => {
                    &&& magic && version == 1 && stored == computed
                    &&& f.format_version == 1
                    &&& f.data_blocks_offset as nat == le_value(s.subrange(8, 16))
                    &&& f.data_blocks_length as nat == le_value(s.subrange(16, 24))
                    &&& f.bloom_offset as nat == le_value(s.subrange(24, 32))
                    &&& f.bloom_length as nat == le_value(s.subrange(32, 40))
                    &&& f.fst_offset as nat == le_value(s.subrange(40, 48))
                    &&& f.fst_length as nat == le_value(s.subrange(48, 56))
                    &&& f.key_count as nat == le_value(s.subrange(56, 60))
                    &&& f.checksum as nat == stored
                },
            }
        }),
{
    let m = s.subrange(0, 4);
    assert(m[0] == s[0] && m[1] == s[1] && m[2] == s[2] && m[3] == s[3]);
    if s[0] == 0x53 && s[1] == 0x33 && s[2] == 0x49 && s[3] == 0x58 {
        assert(m =~= MAGIC@);
    }
    lemma_le_bounds();
    lemma_le_bounded(s.subrange(4, 6));
    lemma_le_bounded(s.subrange(8, 16));
    lemma_le_bounded(s.subrange(16, 24));
    lemma_le_bounded(s.subrange(24, 32));
    lemma_le_bounded(s.subrange(32, 40));
    lemma_le_bounded(s.subrange(40, 48));
    lemma_le_bounded(s.subrange(48, 56));
    lemma_le_bounded(s.subrange(56, 60));
    lemma_le_bounded(s.subrange(60, 64));
}

/// A footer of which exactly one byte was changed is refused: the magic bytes are missing, or the
/// version is unknown, or else the checksum does not match.
pub proof fn law_footer_damage(s: Seq<u8>, i: int, b: u8)
    requires
        s.len() == FOOTER_SIZE,
        parse_footer(s) is Ok,
        0 <= i < FOOTER_SIZE,
        b != s[i],
    ensures
        ({
            let other = s.update(i, b);
            parse_footer(other) == Err::<Footer, FormatError>(
                if i < 4 {
                    FormatError::InvalidMagic
                } else if i < 6 {
                    FormatError::UnsupportedVersion(le_value(other.subrange(4, 6)) as u16)
                } else {
                    FormatError::ChecksumMismatch {
                        stored: le_value(other.subrange(60, 64)) as u32,
                        computed: crc32(other.subrange(0, 60)),
                    }
                },
            )
        }),
{
    let other = s.update(i, b);
    if i < 4 {
        assert(other.subrange(0, 4)[i] != s.subrange(0, 4)[i]);
    } else {
        assert(other.subrange(0, 4) =~= s.subrange(0, 4));
        if i < 6 {
            lemma_part_differs(s, i, b, 4, 6);
        } else {
            assert(other.subrange(4, 6) =~= s.subrange(4, 6));
            if i < 60 {
                assert(other.subrange(60, 64) =~= s.subrange(60, 64));
                assert(other.subrange(0, 60) =~= s.subrange(0, 60).update(i, b));
                law_crc32_differs(s.subrange(0, 60), i, b);
            } else {
                assert(other.subrange(0, 60) =~= s.subrange(0, 60));
                lemma_part_differs(s, i, b, 60, 64);
            }
        }
    }
}

/// A changed byte changes the number that it is part of.
proof fn lemma_part_differs(s: Seq<u8>, i: int, b: u8, from: int, to: int)
    requires
        0 <= from <= i < to <= s.len(),
        b != s[i],
        to - from == 2 || to - from == 4,
    ensures
        to - from == 2 ==> le_value(s.update(i, b).subrange(from, to)) as u16 != le_value(
            s.subrange(from, to),
        ) as u16,
        to - from == 4 ==> le_value(s.update(i, b).subrange(from, to)) as u32 != le_value(
            s.subrange(from, to),
        ) as u32,
{
    let (x, y) = (s.subrange(from, to), s.update(i, b).subrange(from, to));
    assert(x[i - from] != y[i - from]);
    if le_value(x) == le_value(y) {
        lemma_le_injective(x, y);
    }
    lemma_le_bounds();
    lemma_le_bounded(x);
    lemma_le_bounded(y);
}

impl Footer {
    /// The footer as 64 bytes, with a fresh checksum.
    pub fn to_bytes(&self) -> (out: [u8; FOOTER_SIZE])
        ensures
            out@ == footer_bytes(*self),
    {
        let mut buf: Vec<u8> = Vec::with_capacity(FOOTER_SIZE);
        append_slice(&mut buf, MAGIC.as_slice());
        append_u16(&mut buf, self.format_version);
        append_u16(&mut buf, 0);
        append_u64(&mut buf, self.data_blocks_offset);
        append_u64(&mut buf, self.data_blocks_length);
        append_u64(&mut buf, self.bloom_offset);
        append_u64(&mut buf, self.bloom_length);
        append_u64(&mut buf, self.fst_offset);
        append_u64(&mut buf, self.fst_length);
        append_u32(&mut buf, self.key_count);
        assert(buf@ =~= footer_head(*self));
        let sum: u32 = checksum(buf.as_slice());
        append_u32(&mut buf, sum);
        proof {
            lemma_footer_len(*self);
        }
        let mut out: [u8; 64] = [0u8;64];
        let mut i: usize = 0;
        while i < FOOTER_SIZE
            invariant
                i <= FOOTER_SIZE,
                buf@.len() == FOOTER_SIZE,
                out@.len() == FOOTER_SIZE,
                forall|j: int| 0 <= j < i ==> out@[j] == buf@[j],
            decreases FOOTER_SIZE - i,
        {
            out[i] = buf[i];
            i += 1;
        }
        assert(out@ =~= buf@);
        out
    }

    /// Reads a footer after checking magic, version and checksum, in this order.
    pub fn from_bytes(buf: &[u8; FOOTER_SIZE]) -> (r: Result<Self, FormatError>)
        ensures
            r == parse_footer(buf@),
    {
        let s = buf.as_slice();
        let magic = slice_subrange(s, 0, 4);
        if magic[0] != MAGIC[0] || magic[1] != MAGIC[1] || magic[2] != MAGIC[2] || magic[3]
            != MAGIC[3] {
            return Err(FormatError::InvalidMagic);
        }
        assert(s@.subrange(0, 4) =~= MAGIC@);
        let format_version: u16 = read_u16(s, 4);
        if format_version != FORMAT_VERSION {
            return Err(FormatError::UnsupportedVersion(format_version));
        }
        let stored: u32 = read_u32(s, 60);
        let computed: u32 = checksum(slice_subrange(s, 0, 60));
        if stored != computed {
            return Err(FormatError::ChecksumMismatch { stored, computed });
        }
        Ok(
            Footer {
                format_version,
                data_blocks_offset: read_u64(s, 8),
                data_blocks_length: read_u64(s, 16),
                bloom_offset: read_u64(s, 24),
                bloom_length: read_u64(s, 32),
                fst_offset: read_u64(s, 40),
                fst_length: read_u64(s, 48),
                key_count: read_u32(s, 56),
                checksum: stored,
            },
        )
    }
}

} // verus!
