//! The fixed 512-byte tar header record.
//!
//! A `Header` wraps one raw record. Numeric fields are octal ASCII or
//! base-256 binary (see `num`); the checksum is the unsigned sum of all 512
//! bytes with the 8-byte checksum field read as ASCII spaces. Classic, POSIX
//! ustar and GNU dialects are distinguished by the magic and version bytes.
#![verifier::loop_isolation(false)]

use crate::num::copy_range;
use crate::num::lemma_parse_format_octal;
use crate::num::lemma_parse_spec_num_field;
use crate::num::lemma_pow256_ge_2_64;
use crate::num::lemma_run_len_is;
use crate::num::pow256;
use crate::num::spec_num_field;
use crate::num::write_bytes_field;
use crate::num::write_num_field;
use crate::num::zeros;
use crate::num::lemma_parse_octal_bound;
use crate::num::lemma_pow8_pos;
use crate::num::parse_num_field;
use crate::num::parse_octal_field;
use crate::num::pow8;
use crate::num::run_len;
use crate::num::scan_run;
use crate::num::spec_format_octal;
use crate::num::spec_parse_num;
use crate::num::spec_parse_octal;
use crate::num::write_octal;
use crate::num::ByteClass;
use crate::TarError;
use vstd::prelude::*;

verus! {

// Field layout of a 512-byte record: name 0..100, mode 100..108, uid
// 108..116, gid 116..124, size 124..136, mtime 136..148, cksum 148..156,
// typeflag 156, linkname 157..257, magic 257..263, version 263..265, uname
// 265..297, gname 297..329, devmajor 329..337, devminor 337..345, prefix
// 345..500, padding 500..512.

/// The type of file described by a header.
///
/// The on-disk type byte maps onto this enumeration; an unrecognized byte
/// reads as `Regular`, matching historical tar readers' leniency.
#[derive(Clone, Copy, Debug, PartialEq, Eq, Structural)]
pub enum EntryType {
    /// Regular file
    Regular,
    /// Hard link
    Link,
    /// Symbolic link
    Symlink,
    /// Character device
    Char,
    /// Block device
    Block,
    /// Directory
    Directory,
    /// Named pipe (fifo)
    Fifo,
    /// Implementation-defined 'high-performance' type, treated as regular
    Continuous,
    /// GNU extension - long file name
    GNULongName,
    /// GNU extension - long link name (link target)
    GNULongLink,
    /// GNU extension - sparse file
    GNUSparse,
    /// Global extended header
    XGlobalHeader,
    /// Extended header
    XHeader,
}

pub open spec fn entry_type_from_byte(b: u8) -> EntryType {
    if b == 0x31 {
        EntryType::Link
    } else if b == 0x32 {
        EntryType::Symlink
    } else if b == 0x33 {
        EntryType::Char
    } else if b == 0x34 {
        EntryType::Block
    } else if b == 0x35 {
        EntryType::Directory
    } else if b == 0x36 {
        EntryType::Fifo
    } else if b == 0x37 {
        EntryType::Continuous
    } else if b == 0x4c {
        EntryType::GNULongName
    } else if b == 0x4b {
        EntryType::GNULongLink
    } else if b == 0x53 {
        EntryType::GNUSparse
    } else if b == 0x67 {
        EntryType::XGlobalHeader
    } else if b == 0x78 {
        EntryType::XHeader
    } else {
        EntryType::Regular
    }
}

pub open spec fn entry_type_to_byte(t: EntryType) -> u8 {
    match t {
        EntryType::Regular => 0x30,
        EntryType::Link => 0x31,
        EntryType::Symlink => 0x32,
        EntryType::Char => 0x33,
        EntryType::Block => 0x34,
        EntryType::Directory => 0x35,
        EntryType::Fifo => 0x36,
        EntryType::Continuous => 0x37,
        EntryType::GNULongName => 0x4c,
        EntryType::GNULongLink => 0x4b,
        EntryType::GNUSparse => 0x53,
        EntryType::XGlobalHeader => 0x67,
        EntryType::XHeader => 0x78,
    }
}

/// Every entry type survives a trip through its on-disk byte.
pub proof fn lemma_entry_type_byte_roundtrip(t: EntryType)
    ensures
        entry_type_from_byte(entry_type_to_byte(t)) == t,
{
}

impl EntryType {
    pub fn from_byte(b: u8) -> (r: EntryType)
        ensures
            r == entry_type_from_byte(b),
    {
        if b == 0x31 {
            EntryType::Link
        } else if b == 0x32 {
            EntryType::Symlink
        } else if b == 0x33 {
            EntryType::Char
        } else if b == 0x34 {
            EntryType::Block
        } else if b == 0x35 {
            EntryType::Directory
        } else if b == 0x36 {
            EntryType::Fifo
        } else if b == 0x37 {
            EntryType::Continuous
        } else if b == 0x4c {
            EntryType::GNULongName
        } else if b == 0x4b {
            EntryType::GNULongLink
        } else if b == 0x53 {
            EntryType::GNUSparse
        } else if b == 0x67 {
            EntryType::XGlobalHeader
        } else if b == 0x78 {
            EntryType::XHeader
        } else {
            EntryType::Regular
        }
    }

    pub fn to_byte(self) -> (r: u8)
        ensures
            r == entry_type_to_byte(self),
    {
        match self {
            EntryType::Regular => 0x30,
            EntryType::Link => 0x31,
            EntryType::Symlink => 0x32,
            EntryType::Char => 0x33,
            EntryType::Block => 0x34,
            EntryType::Directory => 0x35,
            EntryType::Fifo => 0x36,
            EntryType::Continuous => 0x37,
            EntryType::GNULongName => 0x4c,
            EntryType::GNULongLink => 0x4b,
            EntryType::GNUSparse => 0x53,
            EntryType::XGlobalHeader => 0x67,
            EntryType::XHeader => 0x78,
        }
    }
}

// ---------------------------------------------------------------------------
// Header field specifications
// ---------------------------------------------------------------------------

/// Sum of all byte values of a sequence.
pub open spec fn sum_bytes(s: Seq<u8>) -> nat
    decreases s.len(),
{
    if s.len() == 0 {
        0
    } else {
        sum_bytes(s.drop_last()) + s.last() as nat
    }
}

/// The checksum of a 512-byte record: the sum of all bytes with the 8-byte
/// checksum field read as ASCII spaces (8 * 0x20 = 256).
pub open spec fn spec_checksum(s: Seq<u8>) -> nat {
    sum_bytes(s.subrange(0, 148)) + 256 + sum_bytes(s.subrange(156, 512))
}

/// The stored checksum field parses and matches the computed checksum.
pub open spec fn spec_cksum_ok(s: Seq<u8>) -> bool {
    spec_parse_octal(s.subrange(148, 156)) == Some(spec_checksum(s))
}

/// The bytes of a NUL-terminated field up to (not including) its first NUL.
pub open spec fn spec_cstr(s: Seq<u8>) -> Seq<u8> {
    s.take(run_len(ByteClass::NonNul, s) as int)
}

pub open spec fn spec_is_ustar(s: Seq<u8>) -> bool {
    &&& s[257] == 0x75
    &&& s[258] == 0x73
    &&& s[259] == 0x74
    &&& s[260] == 0x61
    &&& s[261] == 0x72
    &&& s[262] == 0x00
    &&& s[263] == 0x30
    &&& s[264] == 0x30
}

pub open spec fn spec_is_gnu(s: Seq<u8>) -> bool {
    &&& s[257] == 0x75
    &&& s[258] == 0x73
    &&& s[259] == 0x74
    &&& s[260] == 0x61
    &&& s[261] == 0x72
    &&& s[262] == 0x20
    &&& s[263] == 0x20
    &&& s[264] == 0x00
}

/// The stored path: the name field, prefixed by the ustar prefix field when
/// that dialect is in use and the prefix is nonempty.
pub open spec fn spec_header_path(s: Seq<u8>) -> Seq<u8> {
    let name = spec_cstr(s.subrange(0, 100));
    if spec_is_ustar(s) && s[345] != 0 {
        spec_cstr(s.subrange(345, 500)) + seq![0x2fu8] + name
    } else {
        name
    }
}

pub open spec fn spec_header_link(s: Seq<u8>) -> Seq<u8> {
    spec_cstr(s.subrange(157, 257))
}

pub open spec fn spec_header_mode(s: Seq<u8>) -> Option<nat> {
    spec_parse_octal(s.subrange(100, 108))
}

pub open spec fn spec_header_uid(s: Seq<u8>) -> Option<nat> {
    spec_parse_num(s.subrange(108, 116))
}

pub open spec fn spec_header_gid(s: Seq<u8>) -> Option<nat> {
    spec_parse_num(s.subrange(116, 124))
}

pub open spec fn spec_header_size(s: Seq<u8>) -> Option<nat> {
    spec_parse_num(s.subrange(124, 136))
}

pub open spec fn spec_header_mtime(s: Seq<u8>) -> Option<nat> {
    spec_parse_num(s.subrange(136, 148))
}

pub open spec fn spec_header_cksum(s: Seq<u8>) -> Option<nat> {
    spec_parse_octal(s.subrange(148, 156))
}

pub open spec fn spec_header_type(s: Seq<u8>) -> EntryType {
    entry_type_from_byte(s[156])
}

// ---------------------------------------------------------------------------
// Supporting lemmas
// ---------------------------------------------------------------------------

pub proof fn lemma_sum_bytes_bound(s: Seq<u8>)
    ensures
        sum_bytes(s) <= 255 * s.len(),
    decreases s.len(),
{
    if s.len() > 0 {
        lemma_sum_bytes_bound(s.drop_last());
    }
}

pub proof fn lemma_checksum_bound(s: Seq<u8>)
    requires
        s.len() == 512,
    ensures
        spec_checksum(s) < 131072,
{
    lemma_sum_bytes_bound(s.subrange(0, 148));
    lemma_sum_bytes_bound(s.subrange(156, 512));
}

/// Replacing one byte shifts the sum by exactly the byte difference.
pub proof fn lemma_sum_bytes_update(s: Seq<u8>, j: int, b: u8)
    requires
        0 <= j < s.len(),
    ensures
        sum_bytes(s.update(j, b)) == sum_bytes(s) - s[j] + b,
    decreases s.len(),
{
    let t = s.update(j, b);
    if j == s.len() - 1 {
        assert(t.drop_last() =~= s.drop_last());
        assert(t.last() == b);
    } else {
        assert(t.drop_last() =~= s.drop_last().update(j, b));
        assert(t.last() == s.last());
        lemma_sum_bytes_update(s.drop_last(), j, b);
    }
}

/// The checksum does not depend on the checksum field's own bytes.
pub proof fn lemma_checksum_ignores_cksum_field(s1: Seq<u8>, s2: Seq<u8>)
    requires
        s1.len() == 512,
        s2.len() == 512,
        forall|i: int| 0 <= i < 512 && !(148 <= i < 156) ==> s1[i] == s2[i],
    ensures
        spec_checksum(s1) == spec_checksum(s2),
{
    assert(s1.subrange(0, 148) =~= s2.subrange(0, 148));
    assert(s1.subrange(156, 512) =~= s2.subrange(156, 512));
}

/// Corrupting any single byte outside the checksum field of a record whose
/// checksum was valid makes the checksum check fail.
pub proof fn lemma_checksum_detects_corruption(s1: Seq<u8>, s2: Seq<u8>, i: int)
    requires
        s1.len() == 512,
        s2.len() == 512,
        0 <= i < 512,
        !(148 <= i < 156),
        s1[i] != s2[i],
        forall|j: int| 0 <= j < 512 && j != i ==> s1[j] == s2[j],
        spec_cksum_ok(s1),
    ensures
        !spec_cksum_ok(s2),
{
    assert(s1.subrange(148, 156) =~= s2.subrange(148, 156));
    if i < 148 {
        let a = s1.subrange(0, 148);
        let b = s2.subrange(0, 148);
        assert(b =~= a.update(i, s2[i]));
        lemma_sum_bytes_update(a, i, s2[i]);
        assert(s1.subrange(156, 512) =~= s2.subrange(156, 512));
    } else {
        let a = s1.subrange(156, 512);
        let b = s2.subrange(156, 512);
        assert(b =~= a.update(i - 156, s2[i]));
        lemma_sum_bytes_update(a, i - 156, s2[i]);
        assert(s1.subrange(0, 148) =~= s2.subrange(0, 148));
    }
    assert(spec_checksum(s2) != spec_checksum(s1));
}

// ---------------------------------------------------------------------------
// The Header type
// ---------------------------------------------------------------------------

/// A raw 512-byte tar header record.
pub struct Header {
    bytes: Vec<u8>,
}

impl View for Header {
    type V = Seq<u8>;

    closed spec fn view(&self) -> Seq<u8> {
        self.bytes@
    }
}

impl Header {
    /// A header occupies exactly 512 bytes.
    pub open spec fn wf(&self) -> bool {
        self@.len() == 512
    }

    /// Creates a new blank header in the classic (pre-POSIX) dialect: all
    /// zero but for an encoded zero modification time.
    pub fn new_old() -> (h: Header)
        ensures
            h.wf(),
            forall|i: int| 0 <= i < 512 && !(136 <= i < 148) ==> h@[i] == 0u8,
            h@.subrange(136, 148) == spec_format_octal(0, 12),
    {
        let mut bytes: Vec<u8> = vec![0u8; 512];
        proof {
            lemma_pow8_pos(11);
        }
        write_octal(&mut bytes, 136, 12, 0);
        Header { bytes }
    }

    /// Creates a new blank header in the GNU dialect (magic `ustar `,
    /// version ` \0`).
    pub fn new_gnu() -> (h: Header)
        ensures
            h.wf(),
            spec_is_gnu(h@),
            !spec_is_ustar(h@),
            forall|i: int|
                0 <= i < 512 && !(136 <= i < 148) && !(257 <= i < 265) ==> h@[i] == 0u8,
            h@.subrange(136, 148) == spec_format_octal(0, 12),
            h@[257] == 0x75u8,
            h@[258] == 0x73u8,
            h@[259] == 0x74u8,
            h@[260] == 0x61u8,
            h@[261] == 0x72u8,
            h@[262] == 0x20u8,
            h@[263] == 0x20u8,
            h@[264] == 0x00u8,
    {
        let mut bytes: Vec<u8> = vec![0u8; 512];
        proof {
            lemma_pow8_pos(11);
        }
        write_octal(&mut bytes, 136, 12, 0);
        bytes.set(257, 0x75);
        bytes.set(258, 0x73);
        bytes.set(259, 0x74);
        bytes.set(260, 0x61);
        bytes.set(261, 0x72);
        bytes.set(262, 0x20);
        bytes.set(263, 0x20);
        bytes.set(264, 0x00);
        proof {
            assert(bytes@.subrange(136, 148) =~= spec_format_octal(0, 12));
        }
        Header { bytes }
    }

    /// Creates a new blank header in the POSIX ustar dialect (magic
    /// `ustar\0`, version `00`).
    pub fn new_ustar() -> (h: Header)
        ensures
            h.wf(),
            spec_is_ustar(h@),
            !spec_is_gnu(h@),
            forall|i: int|
                0 <= i < 512 && !(136 <= i < 148) && !(257 <= i < 265) ==> h@[i] == 0u8,
            h@.subrange(136, 148) == spec_format_octal(0, 12),
    {
        let mut bytes: Vec<u8> = vec![0u8; 512];
        proof {
            lemma_pow8_pos(11);
        }
        write_octal(&mut bytes, 136, 12, 0);
        bytes.set(257, 0x75);
        bytes.set(258, 0x73);
        bytes.set(259, 0x74);
        bytes.set(260, 0x61);
        bytes.set(261, 0x72);
        bytes.set(262, 0x00);
        bytes.set(263, 0x30);
        bytes.set(264, 0x30);
        proof {
            assert(bytes@.subrange(136, 148) =~= spec_format_octal(0, 12));
        }
        Header { bytes }
    }

    /// Wrap a raw 512-byte record after validating its checksum; a record of
    /// the wrong length or with a mismatched checksum is corrupt.
    pub fn decode(block: &Vec<u8>) -> (r: Result<Header, TarError>)
        ensures
            match r {
                Ok(h) => h.wf() && h@ == block@ && block@.len() == 512 && spec_cksum_ok(block@),
                Err(e) => e == TarError::CorruptHeader && !(block@.len() == 512 && spec_cksum_ok(
                    block@,
                )),
            },
    {
        if block.len() != 512 {
            return Err(TarError::CorruptHeader);
        }
        let sum = checksum_of_block(block);
        let stored = parse_octal_field(block, 148, 156);
        proof {
            assert(pow8(21) <= 0x8000000000000000) by {
                reveal_with_fuel(pow8, 22);
            }
            assert(block@.subrange(0, 512) =~= block@);
        }
        match stored {
            Some(n) => {
                if n == sum {
                    Ok(Header { bytes: copy_range(block, 0, 512) })
                } else {
                    Err(TarError::CorruptHeader)
                }
            },
            None => Err(TarError::CorruptHeader),
        }
    }

    /// Returns a copy of this header as a byte vector.
    pub fn as_bytes(&self) -> (r: Vec<u8>)
        ensures
            r@ == self@,
    {
        copy_range(&self.bytes, 0, self.bytes.len())
    }

    /// Returns the file size this header declares.
    ///
    /// May return an error if the field is corrupted or does not fit 64
    /// bits. For GNU sparse entries the real file size lives in GNU-specific
    /// fields that this library treats as an opaque passthrough, so this
    /// equals `entry_size`.
    pub fn size(&self) -> (r: Result<u64, TarError>)
        requires
            self.wf(),
        ensures
            match spec_header_size(self@) {
                Some(n) => if n <= u64::MAX {
                    r == Ok::<u64, TarError>(n as u64)
                } else {
                    r == Err::<u64, TarError>(TarError::CorruptHeader)
                },
                None => r == Err::<u64, TarError>(TarError::CorruptHeader),
            },
    {
        match parse_num_field(&self.bytes, 124, 136) {
            Some(n) => Ok(n),
            None => Err(TarError::CorruptHeader),
        }
    }

    /// Returns the number of bytes the entry's body occupies in the archive.
    ///
    /// This and `size` both read the size field: they diverge only for
    /// sparse entries, whose GNU real-size field this library passes
    /// through unread.
    pub fn entry_size(&self) -> (r: Result<u64, TarError>)
        requires
            self.wf(),
        ensures
            match spec_header_size(self@) {
                Some(n) => if n <= u64::MAX {
                    r == Ok::<u64, TarError>(n as u64)
                } else {
                    r == Err::<u64, TarError>(TarError::CorruptHeader)
                },
                None => r == Err::<u64, TarError>(TarError::CorruptHeader),
            },
    {
        self.size()
    }

    /// Returns the mode bits for this file.
    pub fn mode(&self) -> (r: Result<u32, TarError>)
        requires
            self.wf(),
        ensures
            match spec_header_mode(self@) {
                Some(n) => r == Ok::<u32, TarError>(n as u32) && n < 0x1000000,
                None => r == Err::<u32, TarError>(TarError::CorruptHeader),
            },
    {
        proof {
            lemma_parse_octal_bound(self@.subrange(100, 108));
            assert(pow8(8) == 0x1000000) by {
                reveal_with_fuel(pow8, 9);
            }
        }
        match parse_octal_field(&self.bytes, 100, 108) {
            Some(n) => Ok(n as u32),
            None => Err(TarError::CorruptHeader),
        }
    }

    /// Returns the owner's user ID.
    pub fn uid(&self) -> (r: Result<u64, TarError>)
        requires
            self.wf(),
        ensures
            match spec_header_uid(self@) {
                Some(n) => if n <= u64::MAX {
                    r == Ok::<u64, TarError>(n as u64)
                } else {
                    r == Err::<u64, TarError>(TarError::CorruptHeader)
                },
                None => r == Err::<u64, TarError>(TarError::CorruptHeader),
            },
    {
        match parse_num_field(&self.bytes, 108, 116) {
            Some(n) => Ok(n),
            None => Err(TarError::CorruptHeader),
        }
    }

    /// Returns the group ID.
    pub fn gid(&self) -> (r: Result<u64, TarError>)
        requires
            self.wf(),
        ensures
            match spec_header_gid(self@) {
                Some(n) => if n <= u64::MAX {
                    r == Ok::<u64, TarError>(n as u64)
                } else {
                    r == Err::<u64, TarError>(TarError::CorruptHeader)
                },
                None => r == Err::<u64, TarError>(TarError::CorruptHeader),
            },
    {
        match parse_num_field(&self.bytes, 116, 124) {
            Some(n) => Ok(n),
            None => Err(TarError::CorruptHeader),
        }
    }

    /// Returns the modification time in seconds since the Unix epoch.
    pub fn mtime(&self) -> (r: Result<u64, TarError>)
        requires
            self.wf(),
        ensures
            match spec_header_mtime(self@) {
                Some(n) => if n <= u64::MAX {
                    r == Ok::<u64, TarError>(n as u64)
                } else {
                    r == Err::<u64, TarError>(TarError::CorruptHeader)
                },
                None => r == Err::<u64, TarError>(TarError::CorruptHeader),
            },
    {
        match parse_num_field(&self.bytes, 136, 148) {
            Some(n) => Ok(n),
            None => Err(TarError::CorruptHeader),
        }
    }

    /// Returns the stored checksum field.
    pub fn cksum(&self) -> (r: Result<u32, TarError>)
        requires
            self.wf(),
        ensures
            match spec_header_cksum(self@) {
                Some(n) => r == Ok::<u32, TarError>(n as u32) && n < 0x1000000,
                None => r == Err::<u32, TarError>(TarError::CorruptHeader),
            },
    {
        proof {
            lemma_parse_octal_bound(self@.subrange(148, 156));
            assert(pow8(8) == 0x1000000) by {
                reveal_with_fuel(pow8, 9);
            }
        }
        match parse_octal_field(&self.bytes, 148, 156) {
            Some(n) => Ok(n as u32),
            None => Err(TarError::CorruptHeader),
        }
    }

    /// Returns the type of file described by this header.
    pub fn entry_type(&self) -> (r: EntryType)
        requires
            self.wf(),
        ensures
            r == spec_header_type(self@),
    {
        EntryType::from_byte(self.bytes[156])
    }

    /// Returns the raw path name stored in this header, joining the ustar
    /// prefix field when present. Long names carried by GNU or PAX
    /// extension records live on the entry, not here.
    pub fn path(&self) -> (r: Vec<u8>)
        requires
            self.wf(),
        ensures
            r@ == spec_header_path(self@),
    {
        let name_end = scan_run(&self.bytes, 0, 100, ByteClass::NonNul);
        proof {
            assert(self@.subrange(0, 100).take(name_end as int) =~= self@.subrange(
                0,
                name_end as int,
            ));
        }
        if self.is_ustar() && self.bytes[345] != 0 {
            let pfx_end = scan_run(&self.bytes, 345, 500, ByteClass::NonNul);
            proof {
                assert(self@.subrange(345, 500).take(pfx_end - 345) =~= self@.subrange(
                    345,
                    pfx_end as int,
                ));
            }
            let mut out = copy_range(&self.bytes, 345, pfx_end);
            out.push(0x2f);
            let mut k: usize = 0;
            while k < name_end
                invariant
                    0 <= k <= name_end <= 100,
                    out@ =~= spec_cstr(self@.subrange(345, 500)) + seq![0x2fu8] + self@.subrange(
                        0,
                        k as int,
                    ),
                decreases name_end - k,
            {
                out.push(self.bytes[k]);
                proof {
                    assert(out@ =~= spec_cstr(self@.subrange(345, 500)) + seq![0x2fu8]
                        + self@.subrange(0, (k + 1) as int));
                }
                k = k + 1;
            }
            out
        } else {
            copy_range(&self.bytes, 0, name_end)
        }
    }

    /// Returns the link name stored in this header, if any.
    pub fn link_name(&self) -> (r: Option<Vec<u8>>)
        requires
            self.wf(),
        ensures
            match r {
                Some(l) => l@ == spec_header_link(self@) && spec_header_link(self@).len() > 0,
                None => spec_header_link(self@).len() == 0,
            },
    {
        let e = scan_run(&self.bytes, 157, 257, ByteClass::NonNul);
        proof {
            assert(self@.subrange(157, 257).take(e - 157) =~= self@.subrange(157, e as int));
        }
        if e == 157 {
            None
        } else {
            Some(copy_range(&self.bytes, 157, e))
        }
    }

    /// Whether this record carries the POSIX ustar magic and version.
    pub fn is_ustar(&self) -> (r: bool)
        requires
            self.wf(),
        ensures
            r == spec_is_ustar(self@),
    {
        self.bytes[257] == 0x75 && self.bytes[258] == 0x73 && self.bytes[259] == 0x74
            && self.bytes[260] == 0x61 && self.bytes[261] == 0x72 && self.bytes[262] == 0x00
            && self.bytes[263] == 0x30 && self.bytes[264] == 0x30
    }

    /// Whether this record carries the GNU magic and version.
    pub fn is_gnu(&self) -> (r: bool)
        requires
            self.wf(),
        ensures
            r == spec_is_gnu(self@),
    {
        self.bytes[257] == 0x75 && self.bytes[258] == 0x73 && self.bytes[259] == 0x74
            && self.bytes[260] == 0x61 && self.bytes[261] == 0x72 && self.bytes[262] == 0x20
            && self.bytes[263] == 0x20 && self.bytes[264] == 0x00
    }

    /// Returns the user name, if this dialect stores one.
    pub fn username(&self) -> (r: Option<Vec<u8>>)
        requires
            self.wf(),
        ensures
            if spec_is_ustar(self@) || spec_is_gnu(self@) {
                r matches Some(u) && u@ == spec_cstr(self@.subrange(265, 297))
            } else {
                r is None
            },
    {
        if self.is_ustar() || self.is_gnu() {
            let e = scan_run(&self.bytes, 265, 297, ByteClass::NonNul);
            proof {
                assert(self@.subrange(265, 297).take(e - 265) =~= self@.subrange(265, e as int));
            }
            Some(copy_range(&self.bytes, 265, e))
        } else {
            None
        }
    }

    /// Returns the group name, if this dialect stores one.
    pub fn groupname(&self) -> (r: Option<Vec<u8>>)
        requires
            self.wf(),
        ensures
            if spec_is_ustar(self@) || spec_is_gnu(self@) {
                r matches Some(g) && g@ == spec_cstr(self@.subrange(297, 329))
            } else {
                r is None
            },
    {
        if self.is_ustar() || self.is_gnu() {
            let e = scan_run(&self.bytes, 297, 329, ByteClass::NonNul);
            proof {
                assert(self@.subrange(297, 329).take(e - 297) =~= self@.subrange(297, e as int));
            }
            Some(copy_range(&self.bytes, 297, e))
        } else {
            None
        }
    }

    /// Returns the device major number: absent in dialects without the
    /// field, an error when present but unparseable.
    pub fn device_major(&self) -> (r: Result<Option<u32>, TarError>)
        requires
            self.wf(),
        ensures
            if spec_is_ustar(self@) || spec_is_gnu(self@) {
                match spec_parse_octal(self@.subrange(329, 337)) {
                    Some(n) => r == Ok::<Option<u32>, TarError>(Some(n as u32)) && n < 0x1000000,
                    None => r == Err::<Option<u32>, TarError>(TarError::CorruptHeader),
                }
            } else {
                r == Ok::<Option<u32>, TarError>(None::<u32>)
            },
    {
        if self.is_ustar() || self.is_gnu() {
            proof {
                lemma_parse_octal_bound(self@.subrange(329, 337));
                assert(pow8(8) == 0x1000000) by {
                    reveal_with_fuel(pow8, 9);
                }
            }
            match parse_octal_field(&self.bytes, 329, 337) {
                Some(n) => Ok(Some(n as u32)),
                None => Err(TarError::CorruptHeader),
            }
        } else {
            Ok(None)
        }
    }

    /// Returns the device minor number: absent in dialects without the
    /// field, an error when present but unparseable.
    pub fn device_minor(&self) -> (r: Result<Option<u32>, TarError>)
        requires
            self.wf(),
        ensures
            if spec_is_ustar(self@) || spec_is_gnu(self@) {
                match spec_parse_octal(self@.subrange(337, 345)) {
                    Some(n) => r == Ok::<Option<u32>, TarError>(Some(n as u32)) && n < 0x1000000,
                    None => r == Err::<Option<u32>, TarError>(TarError::CorruptHeader),
                }
            } else {
                r == Ok::<Option<u32>, TarError>(None::<u32>)
            },
    {
        if self.is_ustar() || self.is_gnu() {
            proof {
                lemma_parse_octal_bound(self@.subrange(337, 345));
                assert(pow8(8) == 0x1000000) by {
                    reveal_with_fuel(pow8, 9);
                }
            }
            match parse_octal_field(&self.bytes, 337, 345) {
                Some(n) => Ok(Some(n as u32)),
                None => Err(TarError::CorruptHeader),
            }
        } else {
            Ok(None)
        }
    }

    /// Encodes `size` into the size field, in octal when it fits and
    /// base-256 otherwise.
    pub fn set_size(&mut self, size: u64)
        requires
            old(self).wf(),
        ensures
            final(self).wf(),
            forall|i: int|
                0 <= i < 512 && !(124 <= i < 136) ==> final(self)@[i] == old(self)@[i],
            final(self)@.subrange(124, 136) == spec_num_field(size as nat, 12),
            spec_header_size(final(self)@) == Some(size as nat),
    {
        proof {
            lemma_pow256_ge_2_64(11);
        }
        write_num_field(&mut self.bytes, 124, 12, size);
        proof {
            lemma_parse_spec_num_field(size as nat, 12);
        }
    }

    /// Encodes `mtime` (seconds since the Unix epoch) into the
    /// modification-time field.
    pub fn set_time(&mut self, mtime: u64)
        requires
            old(self).wf(),
        ensures
            final(self).wf(),
            forall|i: int|
                0 <= i < 512 && !(136 <= i < 148) ==> final(self)@[i] == old(self)@[i],
            final(self)@.subrange(136, 148) == spec_num_field(mtime as nat, 12),
            spec_header_mtime(final(self)@) == Some(mtime as nat),
    {
        proof {
            lemma_pow256_ge_2_64(11);
        }
        write_num_field(&mut self.bytes, 136, 12, mtime);
        proof {
            lemma_parse_spec_num_field(mtime as nat, 12);
        }
    }

    /// Encodes `uid` into the owner field; a value needing 64 or more
    /// base-256 payload bits cannot be stored in the 8-byte field.
    pub fn set_uid(&mut self, uid: u64) -> (r: Result<(), TarError>)
        requires
            old(self).wf(),
        ensures
            final(self).wf(),
            r is Ok <==> uid < 0x8000000000000000,
            r is Err ==> final(self)@ == old(self)@ && r == Err::<(), TarError>(
                TarError::FieldOverflow,
            ),
            r is Ok ==> {
                &&& forall|i: int|
                    0 <= i < 512 && !(108 <= i < 116) ==> final(self)@[i] == old(self)@[i]
                &&& final(self)@.subrange(108, 116) == spec_num_field(uid as nat, 8)
                &&& spec_header_uid(final(self)@) == Some(uid as nat)
            },
    {
        if uid >= 0x8000000000000000 {
            return Err(TarError::FieldOverflow);
        }
        proof {
            assert(pow256(7) == 0x100000000000000) by {
                reveal_with_fuel(pow256, 8);
            }
        }
        write_num_field(&mut self.bytes, 108, 8, uid);
        proof {
            lemma_parse_spec_num_field(uid as nat, 8);
        }
        Ok(())
    }

    /// Encodes `gid` into the group field; same constraint as `set_uid`.
    pub fn set_gid(&mut self, gid: u64) -> (r: Result<(), TarError>)
        requires
            old(self).wf(),
        ensures
            final(self).wf(),
            r is Ok <==> gid < 0x8000000000000000,
            r is Err ==> final(self)@ == old(self)@ && r == Err::<(), TarError>(
                TarError::FieldOverflow,
            ),
            r is Ok ==> {
                &&& forall|i: int|
                    0 <= i < 512 && !(116 <= i < 124) ==> final(self)@[i] == old(self)@[i]
                &&& final(self)@.subrange(116, 124) == spec_num_field(gid as nat, 8)
                &&& spec_header_gid(final(self)@) == Some(gid as nat)
            },
    {
        if gid >= 0x8000000000000000 {
            return Err(TarError::FieldOverflow);
        }
        proof {
            assert(pow256(7) == 0x100000000000000) by {
                reveal_with_fuel(pow256, 8);
            }
        }
        write_num_field(&mut self.bytes, 116, 8, gid);
        proof {
            lemma_parse_spec_num_field(gid as nat, 8);
        }
        Ok(())
    }

    /// Encodes `mode` into the mode field, which is always octal; a mode
    /// beyond the field's seven octal digits overflows.
    pub fn set_mode(&mut self, mode: u32) -> (r: Result<(), TarError>)
        requires
            old(self).wf(),
        ensures
            final(self).wf(),
            r is Ok <==> mode < 0o10000000,
            r is Err ==> final(self)@ == old(self)@ && r == Err::<(), TarError>(
                TarError::FieldOverflow,
            ),
            r is Ok ==> {
                &&& forall|i: int|
                    0 <= i < 512 && !(100 <= i < 108) ==> final(self)@[i] == old(self)@[i]
                &&& final(self)@.subrange(100, 108) == spec_format_octal(mode as nat, 8)
                &&& spec_header_mode(final(self)@) == Some(mode as nat)
            },
    {
        proof {
            assert(pow8(7) == 0o10000000) by {
                reveal_with_fuel(pow8, 8);
            }
        }
        if mode >= 0o10000000 {
            return Err(TarError::FieldOverflow);
        }
        write_octal(&mut self.bytes, 100, 8, mode as u64);
        proof {
            lemma_parse_format_octal(mode as nat, 8);
        }
        Ok(())
    }

    /// Sets the type byte of this header.
    pub fn set_entry_type(&mut self, entry_type: EntryType)
        requires
            old(self).wf(),
        ensures
            final(self).wf(),
            final(self)@ == old(self)@.update(156, entry_type_to_byte(entry_type)),
            spec_header_type(final(self)@) == entry_type,
    {
        let b = entry_type.to_byte();
        self.bytes.set(156, b);
        proof {
            lemma_entry_type_byte_roundtrip(entry_type);
        }
    }

    /// Sets the path name for this header.
    ///
    /// The classic name field holds at most 100 bytes and is NUL
    /// terminated, so a longer name, or one containing a NUL byte, cannot
    /// be encoded; GNU or PAX long-name extension entries must be written
    /// explicitly instead.
    pub fn set_path(&mut self, name: &Vec<u8>) -> (r: Result<(), TarError>)
        requires
            old(self).wf(),
        ensures
            final(self).wf(),
            r is Ok <==> name@.len() <= 100 && (forall|i: int|
                0 <= i < name@.len() ==> name@[i] != 0),
            r is Err ==> final(self)@ == old(self)@ && r == Err::<(), TarError>(
                TarError::NameTooLong,
            ),
            r is Ok ==> {
                &&& forall|i: int|
                    0 <= i < 512 && !(0 <= i < 100) ==> final(self)@[i] == old(self)@[i]
                &&& final(self)@.subrange(0, 100) == name@ + zeros((100 - name@.len()) as nat)
                &&& spec_cstr(final(self)@.subrange(0, 100)) == name@
            },
    {
        if name.len() > 100 {
            return Err(TarError::NameTooLong);
        }
        let nn = scan_run(name, 0, name.len(), ByteClass::NonNul);
        if nn < name.len() {
            proof {
                crate::num::lemma_run_len_props(ByteClass::NonNul, name@.subrange(
                    0,
                    name@.len() as int,
                ));
                assert(name@.subrange(0, name@.len() as int) =~= name@);
            }
            return Err(TarError::NameTooLong);
        }
        proof {
            assert(name@.subrange(0, name@.len() as int) =~= name@);
            crate::num::lemma_run_len_props(ByteClass::NonNul, name@);
        }
        write_bytes_field(&mut self.bytes, 0, 100, name);
        proof {
            lemma_cstr_padded(name@, 100);
        }
        Ok(())
    }

    /// Sets the link target name, under the same constraints as `set_path`.
    pub fn set_link_name(&mut self, link: &Vec<u8>) -> (r: Result<(), TarError>)
        requires
            old(self).wf(),
        ensures
            final(self).wf(),
            r is Ok <==> link@.len() <= 100 && (forall|i: int|
                0 <= i < link@.len() ==> link@[i] != 0),
            r is Err ==> final(self)@ == old(self)@ && r == Err::<(), TarError>(
                TarError::NameTooLong,
            ),
            r is Ok ==> {
                &&& forall|i: int|
                    0 <= i < 512 && !(157 <= i < 257) ==> final(self)@[i] == old(self)@[i]
                &&& final(self)@.subrange(157, 257) == link@ + zeros((100 - link@.len()) as nat)
                &&& spec_header_link(final(self)@) == link@
            },
    {
        if link.len() > 100 {
            return Err(TarError::NameTooLong);
        }
        let nn = scan_run(link, 0, link.len(), ByteClass::NonNul);
        if nn < link.len() {
            proof {
                crate::num::lemma_run_len_props(ByteClass::NonNul, link@.subrange(
                    0,
                    link@.len() as int,
                ));
                assert(link@.subrange(0, link@.len() as int) =~= link@);
            }
            return Err(TarError::NameTooLong);
        }
        proof {
            assert(link@.subrange(0, link@.len() as int) =~= link@);
            crate::num::lemma_run_len_props(ByteClass::NonNul, link@);
        }
        write_bytes_field(&mut self.bytes, 157, 100, link);
        proof {
            lemma_cstr_padded(link@, 100);
        }
        Ok(())
    }

    /// Sets the user name; only the ustar and GNU dialects carry one, and
    /// the field holds at most 32 bytes.
    pub fn set_username(&mut self, username: &Vec<u8>) -> (r: Result<(), TarError>)
        requires
            old(self).wf(),
        ensures
            final(self).wf(),
            r is Ok <==> (spec_is_ustar(old(self)@) || spec_is_gnu(old(self)@)) && username@.len()
                <= 32 && (forall|i: int| 0 <= i < username@.len() ==> username@[i] != 0),
            r is Err ==> final(self)@ == old(self)@,
            r is Ok ==> {
                &&& forall|i: int|
                    0 <= i < 512 && !(265 <= i < 297) ==> final(self)@[i] == old(self)@[i]
                &&& spec_cstr(final(self)@.subrange(265, 297)) == username@
            },
    {
        if !(self.is_ustar() || self.is_gnu()) {
            return Err(TarError::UnsupportedFormat);
        }
        if username.len() > 32 {
            return Err(TarError::NameTooLong);
        }
        let nn = scan_run(username, 0, username.len(), ByteClass::NonNul);
        if nn < username.len() {
            proof {
                crate::num::lemma_run_len_props(ByteClass::NonNul, username@.subrange(
                    0,
                    username@.len() as int,
                ));
                assert(username@.subrange(0, username@.len() as int) =~= username@);
            }
            return Err(TarError::NameTooLong);
        }
        proof {
            assert(username@.subrange(0, username@.len() as int) =~= username@);
            crate::num::lemma_run_len_props(ByteClass::NonNul, username@);
        }
        write_bytes_field(&mut self.bytes, 265, 32, username);
        proof {
            lemma_cstr_padded(username@, 32);
        }
        Ok(())
    }

    /// Sets the group name; same constraints as `set_username`.
    pub fn set_groupname(&mut self, groupname: &Vec<u8>) -> (r: Result<(), TarError>)
        requires
            old(self).wf(),
        ensures
            final(self).wf(),
            r is Ok <==> (spec_is_ustar(old(self)@) || spec_is_gnu(old(self)@)) && groupname@.len()
                <= 32 && (forall|i: int| 0 <= i < groupname@.len() ==> groupname@[i] != 0),
            r is Err ==> final(self)@ == old(self)@,
            r is Ok ==> {
                &&& forall|i: int|
                    0 <= i < 512 && !(297 <= i < 329) ==> final(self)@[i] == old(self)@[i]
                &&& spec_cstr(final(self)@.subrange(297, 329)) == groupname@
            },
    {
        if !(self.is_ustar() || self.is_gnu()) {
            return Err(TarError::UnsupportedFormat);
        }
        if groupname.len() > 32 {
            return Err(TarError::NameTooLong);
        }
        let nn = scan_run(groupname, 0, groupname.len(), ByteClass::NonNul);
        if nn < groupname.len() {
            proof {
                crate::num::lemma_run_len_props(ByteClass::NonNul, groupname@.subrange(
                    0,
                    groupname@.len() as int,
                ));
                assert(groupname@.subrange(0, groupname@.len() as int) =~= groupname@);
            }
            return Err(TarError::NameTooLong);
        }
        proof {
            assert(groupname@.subrange(0, groupname@.len() as int) =~= groupname@);
            crate::num::lemma_run_len_props(ByteClass::NonNul, groupname@);
        }
        write_bytes_field(&mut self.bytes, 297, 32, groupname);
        proof {
            lemma_cstr_padded(groupname@, 32);
        }
        Ok(())
    }

    /// Encodes the device major number; only the ustar and GNU dialects
    /// carry the field.
    pub fn set_device_major(&mut self, device_major: u32) -> (r: Result<(), TarError>)
        requires
            old(self).wf(),
        ensures
            final(self).wf(),
            r is Ok <==> (spec_is_ustar(old(self)@) || spec_is_gnu(old(self)@)) && device_major
                < 0o10000000,
            r is Err ==> final(self)@ == old(self)@,
            r is Ok ==> {
                &&& forall|i: int|
                    0 <= i < 512 && !(329 <= i < 337) ==> final(self)@[i] == old(self)@[i]
                &&& spec_parse_octal(final(self)@.subrange(329, 337)) == Some(device_major as nat)
            },
    {
        if !(self.is_ustar() || self.is_gnu()) {
            return Err(TarError::UnsupportedFormat);
        }
        proof {
            assert(pow8(7) == 0o10000000) by {
                reveal_with_fuel(pow8, 8);
            }
        }
        if device_major >= 0o10000000 {
            return Err(TarError::FieldOverflow);
        }
        write_octal(&mut self.bytes, 329, 8, device_major as u64);
        proof {
            lemma_parse_format_octal(device_major as nat, 8);
        }
        Ok(())
    }

    /// Encodes the device minor number; same constraints as
    /// `set_device_major`.
    pub fn set_device_minor(&mut self, device_minor: u32) -> (r: Result<(), TarError>)
        requires
            old(self).wf(),
        ensures
            final(self).wf(),
            r is Ok <==> (spec_is_ustar(old(self)@) || spec_is_gnu(old(self)@)) && device_minor
                < 0o10000000,
            r is Err ==> final(self)@ == old(self)@,
            r is Ok ==> {
                &&& forall|i: int|
                    0 <= i < 512 && !(337 <= i < 345) ==> final(self)@[i] == old(self)@[i]
                &&& spec_parse_octal(final(self)@.subrange(337, 345)) == Some(device_minor as nat)
            },
    {
        if !(self.is_ustar() || self.is_gnu()) {
            return Err(TarError::UnsupportedFormat);
        }
        proof {
            assert(pow8(7) == 0o10000000) by {
                reveal_with_fuel(pow8, 8);
            }
        }
        if device_minor >= 0o10000000 {
            return Err(TarError::FieldOverflow);
        }
        write_octal(&mut self.bytes, 337, 8, device_minor as u64);
        proof {
            lemma_parse_format_octal(device_minor as nat, 8);
        }
        Ok(())
    }

    /// Computes the checksum over the current header bytes and stores it in
    /// the checksum field, making the record pass `decode`'s validation.
    pub fn set_cksum(&mut self)
        requires
            old(self).wf(),
        ensures
            final(self).wf(),
            forall|i: int|
                0 <= i < 512 && !(148 <= i < 156) ==> final(self)@[i] == old(self)@[i],
            final(self)@.subrange(148, 156) == spec_format_octal(spec_checksum(old(self)@), 8),
            spec_checksum(final(self)@) == spec_checksum(old(self)@),
            spec_cksum_ok(final(self)@),
    {
        let sum = checksum_of_block(&self.bytes);
        proof {
            assert(pow8(7) == 0o10000000) by {
                reveal_with_fuel(pow8, 8);
            }
        }
        write_octal(&mut self.bytes, 148, 8, sum);
        proof {
            lemma_checksum_ignores_cksum_field(old(self)@, self@);
            lemma_parse_format_octal(sum as nat, 8);
        }
    }
}

/// A NUL-free name padded with zeros to its field width reads back
/// unchanged.
pub proof fn lemma_cstr_padded(name: Seq<u8>, w: nat)
    requires
        name.len() <= w,
        forall|i: int| 0 <= i < name.len() ==> name[i] != 0,
    ensures
        spec_cstr(name + zeros((w - name.len()) as nat)) == name,
{
    let f = name + zeros((w - name.len()) as nat);
    assert forall|k: int| 0 <= k < name.len() implies crate::num::in_class(
        ByteClass::NonNul,
        f[k],
    ) by {
        assert(f[k] == name[k]);
    }
    if name.len() < w {
        assert(f[name.len() as int] == 0);
    }
    lemma_run_len_is(ByteClass::NonNul, f, name.len() as int);
    assert(f.take(name.len() as int) =~= name);
}

// ---------------------------------------------------------------------------
// Header encoding: the record the writer synthesizes
// ---------------------------------------------------------------------------

/// The decoded field values of a synthesized header.
pub struct HeaderFields {
    pub path: Seq<u8>,
    /// The link target; empty when the entry has none.
    pub link: Seq<u8>,
    pub mode: nat,
    pub uid: nat,
    pub gid: nat,
    pub size: nat,
    pub mtime: nat,
    pub etype: EntryType,
}

/// The values a single GNU-dialect record can carry.
pub open spec fn fields_valid(f: HeaderFields) -> bool {
    &&& f.path.len() <= 100
    &&& forall|i: int| 0 <= i < f.path.len() ==> f.path[i] != 0
    &&& f.link.len() <= 100
    &&& forall|i: int| 0 <= i < f.link.len() ==> f.link[i] != 0
    &&& f.mode < 0o10000000
    &&& f.uid < 0x8000000000000000
    &&& f.gid < 0x8000000000000000
    &&& f.size < 0x10000000000000000
    &&& f.mtime < 0x10000000000000000
}

/// A GNU-dialect record assembled from `f`, with `ck` as the raw checksum
/// field.
pub open spec fn spec_header_parts(f: HeaderFields, ck: Seq<u8>) -> Seq<u8> {
    f.path + zeros((100 - f.path.len()) as nat) + spec_format_octal(f.mode, 8) + spec_num_field(
        f.uid,
        8,
    ) + spec_num_field(f.gid, 8) + spec_num_field(f.size, 12) + spec_num_field(f.mtime, 12) + ck
        + seq![entry_type_to_byte(f.etype)] + (f.link + zeros((100 - f.link.len()) as nat)) + seq![
        0x75u8,
        0x73u8,
        0x74u8,
        0x61u8,
        0x72u8,
        0x20u8,
        0x20u8,
        0x00u8,
    ] + zeros(247)
}

/// The complete encoded record, its checksum field filled in.
pub open spec fn spec_encode_header(f: HeaderFields) -> Seq<u8> {
    spec_header_parts(
        f,
        spec_format_octal(spec_checksum(spec_header_parts(f, zeros(8))), 8),
    )
}

/// Where each field of an assembled record lies.
pub proof fn lemma_parts_layout(f: HeaderFields, ck: Seq<u8>)
    requires
        fields_valid(f),
        ck.len() == 8,
    ensures
        spec_header_parts(f, ck).len() == 512,
        spec_header_parts(f, ck).subrange(0, 100) == f.path + zeros((100 - f.path.len()) as nat),
        spec_header_parts(f, ck).subrange(100, 108) == spec_format_octal(f.mode, 8),
        spec_header_parts(f, ck).subrange(108, 116) == spec_num_field(f.uid, 8),
        spec_header_parts(f, ck).subrange(116, 124) == spec_num_field(f.gid, 8),
        spec_header_parts(f, ck).subrange(124, 136) == spec_num_field(f.size, 12),
        spec_header_parts(f, ck).subrange(136, 148) == spec_num_field(f.mtime, 12),
        spec_header_parts(f, ck).subrange(148, 156) == ck,
        spec_header_parts(f, ck)[156] == entry_type_to_byte(f.etype),
        spec_header_parts(f, ck).subrange(157, 257) == f.link + zeros(
            (100 - f.link.len()) as nat,
        ),
        spec_header_parts(f, ck)[257] == 0x75u8,
        spec_header_parts(f, ck)[258] == 0x73u8,
        spec_header_parts(f, ck)[259] == 0x74u8,
        spec_header_parts(f, ck)[260] == 0x61u8,
        spec_header_parts(f, ck)[261] == 0x72u8,
        spec_header_parts(f, ck)[262] == 0x20u8,
        spec_header_parts(f, ck)[263] == 0x20u8,
        spec_header_parts(f, ck)[264] == 0x00u8,
        forall|i: int| 265 <= i < 512 ==> spec_header_parts(f, ck)[i] == 0u8,
{
    crate::num::lemma_format_octal_len(f.mode, 8);
    crate::num::lemma_spec_num_field_len(f.uid, 8);
    crate::num::lemma_spec_num_field_len(f.gid, 8);
    crate::num::lemma_spec_num_field_len(f.size, 12);
    crate::num::lemma_spec_num_field_len(f.mtime, 12);
    let s = spec_header_parts(f, ck);
    assert(s.len() == 512);
    assert(s.subrange(0, 100) =~= f.path + zeros((100 - f.path.len()) as nat));
    assert(s.subrange(100, 108) =~= spec_format_octal(f.mode, 8));
    assert(s.subrange(108, 116) =~= spec_num_field(f.uid, 8));
    assert(s.subrange(116, 124) =~= spec_num_field(f.gid, 8));
    assert(s.subrange(124, 136) =~= spec_num_field(f.size, 12));
    assert(s.subrange(136, 148) =~= spec_num_field(f.mtime, 12));
    assert(s.subrange(148, 156) =~= ck);
    assert(s.subrange(157, 257) =~= f.link + zeros((100 - f.link.len()) as nat));
}

/// Round trip: every field of a validly assembled record decodes back to
/// the value it was assembled from, and the stored checksum is valid.
pub proof fn lemma_header_roundtrip(f: HeaderFields)
    requires
        fields_valid(f),
    ensures
        spec_encode_header(f).len() == 512,
        spec_cksum_ok(spec_encode_header(f)),
        spec_header_path(spec_encode_header(f)) == f.path,
        spec_header_link(spec_encode_header(f)) == f.link,
        spec_header_mode(spec_encode_header(f)) == Some(f.mode),
        spec_header_uid(spec_encode_header(f)) == Some(f.uid),
        spec_header_gid(spec_encode_header(f)) == Some(f.gid),
        spec_header_size(spec_encode_header(f)) == Some(f.size),
        spec_header_mtime(spec_encode_header(f)) == Some(f.mtime),
        spec_header_type(spec_encode_header(f)) == f.etype,
        spec_is_gnu(spec_encode_header(f)),
        !spec_is_ustar(spec_encode_header(f)),
{
    let pre = spec_header_parts(f, zeros(8));
    lemma_parts_layout(f, zeros(8));
    lemma_checksum_bound(pre);
    let c = spec_checksum(pre);
    assert(pow8(7) == 0o10000000) by {
        reveal_with_fuel(pow8, 8);
    }
    lemma_parse_format_octal(c, 8);
    crate::num::lemma_format_octal_len(c, 8);
    let ck = spec_format_octal(c, 8);
    let s = spec_encode_header(f);
    lemma_parts_layout(f, ck);
    // the checksum ignores its own field, so the filled-in record has the
    // same checksum as the blank one
    assert forall|i: int| 0 <= i < 512 && !(148 <= i < 156) implies s[i] == pre[i] by {
        lemma_parts_index_outside_ck(f, ck, zeros(8), i);
    }
    lemma_checksum_ignores_cksum_field(s, pre);
    assert(s.subrange(148, 156) == ck);
    assert(spec_cksum_ok(s));
    // field values
    lemma_cstr_padded(f.path, 100);
    lemma_cstr_padded(f.link, 100);
    assert(s[262] == 0x20u8);
    assert(!spec_is_ustar(s));
    assert(spec_header_path(s) == spec_cstr(s.subrange(0, 100)));
    assert(pow256(7) == 0x100000000000000) by {
        reveal_with_fuel(pow256, 8);
    }
    lemma_parse_format_octal(f.mode, 8);
    lemma_parse_spec_num_field(f.uid, 8);
    lemma_parse_spec_num_field(f.gid, 8);
    lemma_pow256_ge_2_64(11);
    lemma_parse_spec_num_field(f.size, 12);
    lemma_parse_spec_num_field(f.mtime, 12);
    lemma_entry_type_byte_roundtrip(f.etype);
}

/// Two assemblies of the same fields differ only inside the checksum field.
pub proof fn lemma_parts_index_outside_ck(f: HeaderFields, ck1: Seq<u8>, ck2: Seq<u8>, i: int)
    requires
        fields_valid(f),
        ck1.len() == 8,
        ck2.len() == 8,
        0 <= i < 512,
        !(148 <= i < 156),
    ensures
        spec_header_parts(f, ck1)[i] == spec_header_parts(f, ck2)[i],
{
    lemma_parts_layout(f, ck1);
    lemma_parts_layout(f, ck2);
    let s1 = spec_header_parts(f, ck1);
    let s2 = spec_header_parts(f, ck2);
    if i < 100 {
        assert(s1[i] == s1.subrange(0, 100)[i]);
        assert(s2[i] == s2.subrange(0, 100)[i]);
    } else if i < 108 {
        assert(s1[i] == s1.subrange(100, 108)[i - 100]);
        assert(s2[i] == s2.subrange(100, 108)[i - 100]);
    } else if i < 116 {
        assert(s1[i] == s1.subrange(108, 116)[i - 108]);
        assert(s2[i] == s2.subrange(108, 116)[i - 108]);
    } else if i < 124 {
        assert(s1[i] == s1.subrange(116, 124)[i - 116]);
        assert(s2[i] == s2.subrange(116, 124)[i - 116]);
    } else if i < 136 {
        assert(s1[i] == s1.subrange(124, 136)[i - 124]);
        assert(s2[i] == s2.subrange(124, 136)[i - 124]);
    } else if i < 148 {
        assert(s1[i] == s1.subrange(136, 148)[i - 136]);
        assert(s2[i] == s2.subrange(136, 148)[i - 136]);
    } else if i == 156 {
    } else if i < 257 {
        assert(s1[i] == s1.subrange(157, 257)[i - 157]);
        assert(s2[i] == s2.subrange(157, 257)[i - 157]);
    } else if i < 265 {
    } else {
    }
}

/// Compute the checksum of a full 512-byte record.
fn checksum_of_block(block: &Vec<u8>) -> (r: u64)
    requires
        block.len() == 512,
    ensures
        r == spec_checksum(block@),
        r < 131072,
{
    proof {
        lemma_checksum_bound(block@);
    }
    let mut acc: u64 = 0;
    let mut i: usize = 0;
    proof {
        assert(block@.subrange(0, 0) =~= Seq::<u8>::empty());
    }
    while i < 148
        invariant
            0 <= i <= 148,
            acc == sum_bytes(block@.subrange(0, i as int)),
            acc <= 255 * i,
        decreases 148 - i,
    {
        proof {
            let cur = block@.subrange(0, (i + 1) as int);
            assert(cur.drop_last() =~= block@.subrange(0, i as int));
            assert(cur.last() == block@[i as int]);
        }
        acc = acc + (block[i] as u64);
        i = i + 1;
    }
    acc = acc + 256;
    let mut j: usize = 156;
    proof {
        assert(block@.subrange(156, 156) =~= Seq::<u8>::empty());
    }
    while j < 512
        invariant
            156 <= j <= 512,
            acc == sum_bytes(block@.subrange(0, 148)) + 256 + sum_bytes(
                block@.subrange(156, j as int),
            ),
            acc <= 255 * 148 + 256 + 255 * (j - 156),
        decreases 512 - j,
    {
        proof {
            let cur = block@.subrange(156, (j + 1) as int);
            assert(cur.drop_last() =~= block@.subrange(156, j as int));
            assert(cur.last() == block@[j as int]);
        }
        acc = acc + (block[j] as u64);
        j = j + 1;
    }
    acc
}

} // verus!
