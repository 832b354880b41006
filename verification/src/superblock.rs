//! The page-0 superblock.
use vstd::prelude::*;

use crate::bytes::{le_u16, le_u32, read_u16_le, read_u32_le};
use crate::page::PAGE_SIZE;

verus! {

/// Magic value at superblock offset 0x14 (bytes `5E BA 7A DA`).
pub const SA_MAGIC: u32 = 0xDA7A_BA5E;

/// Base value of [`Superblock::flags_06`]; variant bits are set on top of it.
pub const FLAGS_06_BASE: u8 = 0x09;

/// The 33-byte copyright substring that pins the engine to SAP SQL Anywhere
/// 17.0.4 build 2182 (2015 release).
pub const SA_COPYRIGHT_MARKER: [u8; 33] = [
    0x53, 0x41, 0x50, 0x20, 0x53, 0x45, 0x2C, 0x20, 0x43, 0x6F, 0x70, 0x79, 0x72, 0x69, 0x67, 0x68, 0x74, 0x20, 0x28, 0x63, 0x29, 0x32, 0x30, 0x31, 0x35, 0x20, 0x31, 0x37, 0x2E, 0x30, 0x2E, 0x34, 0x2E
];


/// Parsed view of the page-0 superblock.
#[derive(Debug, Clone, Copy)]
pub struct Superblock {
    /// Flag byte at offset 0x06. See [`FLAGS_06_BASE`].
    pub flags_06: u8,
    /// u32_LE at offset 0x08: the file's current log sequence number.
    pub current_lsn: u32,
    /// u32_LE at offset 0x10. Always `3` in the corpus.
    pub format_major: u32,
    /// u32_LE at offset 0x14.
    pub magic: u32,
    /// u16_LE at offset 0x18. Always `201` in the corpus.
    pub version_a: u16,
    /// u16_LE at offset 0x1A. Always `12` in the corpus.
    pub version_b: u16,
    /// u32_LE at offset 0x1C. Typically `total_pages - 128`.
    pub page_count_hint: u32,
    /// `true` iff [`SA_COPYRIGHT_MARKER`] is present anywhere in page 0.
    pub sa_marker_present: bool,
}

/// `needle` occurs in `haystack` at position `p`.
pub open spec fn occurs_at(haystack: Seq<u8>, needle: Seq<u8>, p: int) -> bool {
    &&& 0 <= p
    &&& p + needle.len() <= haystack.len()
    &&& haystack.subrange(p, p + needle.len()) == needle
}

/// `needle` is a non-empty byte string that occurs somewhere in `haystack`.
pub open spec fn contains_bytes(haystack: Seq<u8>, needle: Seq<u8>) -> bool {
    needle.len() > 0 && exists|p: int| occurs_at(haystack, needle, p)
}

/// The superblock fields read from page 0.
pub open spec fn superblock_of(page0: Seq<u8>) -> Superblock {
    Superblock {
        flags_06: page0[0x06],
        current_lsn: le_u32(page0, 0x08),
        format_major: le_u32(page0, 0x10),
        magic: le_u32(page0, 0x14),
        version_a: le_u16(page0, 0x18),
        version_b: le_u16(page0, 0x1A),
        page_count_hint: le_u32(page0, 0x1C),
        sa_marker_present: contains_bytes(page0, SA_COPYRIGHT_MARKER@),
    }
}

impl Superblock {
    /// Parse the superblock from the first page of a store.
    ///
    /// `page0` must be exactly [`PAGE_SIZE`] bytes long.
    pub fn parse(page0: &[u8]) -> (sb: Superblock)
        requires
            page0@.len() == PAGE_SIZE,
        ensures
            sb == superblock_of(page0@),
            sb.flags_06 == page0@[0x06],
            sb.current_lsn == u32_at(page0@, 0x08),
            sb.format_major == u32_at(page0@, 0x10),
            sb.magic == u32_at(page0@, 0x14),
            sb.version_a == page0@[0x18] + 256 * page0@[0x19],
            sb.version_b == page0@[0x1A] + 256 * page0@[0x1B],
            sb.page_count_hint == u32_at(page0@, 0x1C),
    {
        proof {
            lemma_superblock_fields(page0@);
        }
        let flags_06 = page0[0x06];
        let current_lsn = read_u32_le(page0, 0x08);
        let format_major = read_u32_le(page0, 0x10);
        let magic = read_u32_le(page0, 0x14);
        let version_a = read_u16_le(page0, 0x18);
        let version_b = read_u16_le(page0, 0x1A);
        let page_count_hint = read_u32_le(page0, 0x1C);
        let marker = SA_COPYRIGHT_MARKER;
        let sa_marker_present = memmem(page0, &marker).is_some();
        Superblock {
            flags_06,
            current_lsn,
            format_major,
            magic,
            version_a,
            version_b,
            page_count_hint,
            sa_marker_present,
        }
    }

    /// `true` iff the 32-bit magic at offset 0x14 equals [`SA_MAGIC`].
    pub fn magic_ok(&self) -> (r: bool)
        ensures
            r == (self.magic == SA_MAGIC),
    {
        self.magic == SA_MAGIC
    }

    /// `flags_06` with [`FLAGS_06_BASE`]'s bits masked out, leaving the
    /// variant bits set on top of it.
    pub fn flags_06_variant_bits(&self) -> (r: u8)
        ensures
            r == self.flags_06 & !FLAGS_06_BASE,
    {
        self.flags_06 & !FLAGS_06_BASE
    }
}

/// The integer that the four bytes `s[off..off + 4]` spell little-endian.
pub open spec fn u32_at(s: Seq<u8>, off: int) -> int {
    s[off] + 256 * s[off + 1] + 65536 * s[off + 2] + 16777216 * s[off + 3]
}

/// Every superblock field is the little-endian value of all its bytes:
/// the `u32` fields (LSN, format, magic, page-count hint) of four bytes
/// each, the two version halves of two bytes each.
pub proof fn lemma_superblock_fields(page0: Seq<u8>)
    requires
        page0.len() == PAGE_SIZE,
    ensures
        superblock_of(page0).flags_06 == page0[0x06],
        superblock_of(page0).current_lsn == u32_at(page0, 0x08),
        superblock_of(page0).format_major == u32_at(page0, 0x10),
        superblock_of(page0).magic == u32_at(page0, 0x14),
        superblock_of(page0).version_a == page0[0x18] + 256 * page0[0x19],
        superblock_of(page0).version_b == page0[0x1A] + 256 * page0[0x1B],
        superblock_of(page0).page_count_hint == u32_at(page0, 0x1C),
{
}

/// Splitting `flags_06` into the base bits it holds and its variant bits
/// loses nothing, and the variant bits never overlap the base.
pub proof fn lemma_flags_06_split(flags: u8)
    ensures
        (flags & !FLAGS_06_BASE) | (flags & FLAGS_06_BASE) == flags,
        (flags & !FLAGS_06_BASE) & FLAGS_06_BASE == 0,
{
    assert((flags & !0x09u8) | (flags & 0x09u8) == flags) by (bit_vector);
    assert((flags & !0x09u8) & 0x09u8 == 0) by (bit_vector);
}

/// Position of the first occurrence of `needle` in `haystack`; `None` if the
/// needle is empty, longer than the haystack, or absent.
pub fn memmem(haystack: &[u8], needle: &[u8]) -> (r: Option<usize>)
    ensures
        match r {
            Some(p) => needle@.len() > 0 && occurs_at(haystack@, needle@, p as int) && forall|q: int|
                0 <= q < p ==> !occurs_at(haystack@, needle@, q),
            None => !contains_bytes(haystack@, needle@),
        },
{
    let n = needle.len();
    let h = haystack.len();
    if n == 0 || h < n {
        return None;
    }
    let mut p: usize = 0;
    while p <= h - n
        invariant
            n == needle@.len(),
            h == haystack@.len(),
            0 < n <= h,
            p <= h - n + 1,
            forall|q: int| 0 <= q < p ==> !occurs_at(haystack@, needle@, q),
        decreases h - n + 1 - p,
    {
        let mut k: usize = 0;
        let mut same = true;
        while k < n
            invariant
                n == needle@.len(),
                h == haystack@.len(),
                0 < n <= h,
                p <= h - n,
                k <= n,
                same == forall|j: int| 0 <= j < k ==> haystack@[p + j] == needle@[j],
            decreases n - k,
        {
            if haystack[p + k] != needle[k] {
                same = false;
            }
            k += 1;
        }
        if same {
            assert(haystack@.subrange(p as int, p + n) =~= needle@);
            return Some(p);
        }
        assert(!occurs_at(haystack@, needle@, p as int)) by {
            let j = choose|j: int| 0 <= j < n && haystack@[p + j] != needle@[j];
            assert(haystack@.subrange(p as int, p + n)[j] == haystack@[p + j]);
        }
        p += 1;
    }
    None
}

} // verus!
