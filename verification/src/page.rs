//! Single pages: the 12-byte trailer, the CRC footer and page types.
use vstd::prelude::*;

use crate::bytes::{le_u32, read_u32_le};
use crate::crc::{crc32_hash, crc32_of};
use crate::error::{Error, Result};

verus! {

/// Size of a single SA17 page in bytes (4 KiB, fixed).
pub const PAGE_SIZE: usize = 4096;

/// Offset of the little-endian 32-bit log sequence number in the trailer.
pub const LSN_OFF: usize = 0xFF4;

/// Offset of the little-endian CRC-32 footer.
pub const CRC_OFF: usize = 0xFFC;

/// A borrowed view of a single 4 KiB page of a [`PageStore`](crate::PageStore).
#[derive(Debug, Clone, Copy)]
pub struct Page<'a> {
    pub(crate) index: u64,
    pub(crate) bytes: &'a [u8],
}

impl<'a> Page<'a> {
    /// A page always holds exactly [`PAGE_SIZE`] bytes.
    #[verifier::type_invariant]
    spec fn page_len_inv(self) -> bool {
        self.bytes@.len() == PAGE_SIZE
    }

    /// The page number, as a specification value.
    pub closed spec fn spec_index(self) -> u64 {
        self.index
    }

    /// The page contents, as a specification value.
    pub closed spec fn spec_bytes(self) -> Seq<u8> {
        self.bytes@
    }

    /// Builds a page over a buffer of exactly one page.
    pub(crate) fn new(index: u64, bytes: &'a [u8]) -> (p: Page<'a>)
        requires
            bytes@.len() == PAGE_SIZE,
        ensures
            p.spec_index() == index,
            p.spec_bytes() == bytes@,
    {
        Page { index, bytes }
    }

    /// A page numbered `index` over `bytes`, such as a page that
    /// [`ApModel`](crate::ApModel) has deobfuscated, to hand on to
    /// [`SlottedPage::parse`](crate::SlottedPage::parse): `Some` exactly when
    /// `bytes` is one page long.
    pub fn from_bytes(index: u64, bytes: &'a [u8]) -> (r: Option<Page<'a>>)
        ensures
            bytes@.len() == PAGE_SIZE ==> (r matches Some(p) && p.spec_index() == index
                && p.spec_bytes() == bytes@),
            bytes@.len() != PAGE_SIZE ==> r is None,
    {
        if bytes.len() == PAGE_SIZE {
            Some(Page { index, bytes })
        } else {
            None
        }
    }

    /// Zero-based page number within the store.
    pub fn index(&self) -> (r: u64)
        ensures
            r == self.spec_index(),
    {
        self.index
    }

    /// Raw bytes of the page (always [`PAGE_SIZE`] long).
    pub fn bytes(&self) -> (r: &'a [u8])
        ensures
            r@ == self.spec_bytes(),
            r@.len() == PAGE_SIZE,
    {
        proof {
            use_type_invariant(self);
        }
        self.bytes
    }

    /// The 12-byte page trailer at offsets `0xFF0..0xFFB`.
    pub fn trailer(&self) -> (t: PageTrailer)
        ensures
            t.is_trailer_of(self.spec_bytes()),
    {
        proof {
            use_type_invariant(self);
        }
        let b = self.bytes;
        let zero_ff8 = [b[0xFF8], b[0xFF9], b[0xFFA], b[0xFFB]];
        assert(zero_ff8@ =~= b@.subrange(0xFF8, 0xFFC));
        PageTrailer {
            flag_ff0: b[0xFF0],
            flag_ff1: b[0xFF1],
            page_type_raw: b[0xFF2],
            zero_ff3: b[0xFF3],
            lsn: read_u32_le(b, LSN_OFF),
            zero_ff8,
        }
    }

    /// The page's log sequence number: shorthand for `page.trailer().lsn`.
    pub fn lsn(&self) -> (r: u32)
        ensures
            r == le_u32(self.spec_bytes(), LSN_OFF as int),
    {
        proof {
            use_type_invariant(self);
        }
        read_u32_le(self.bytes, LSN_OFF)
    }

    /// CRC-32 stored in the footer at `0xFFC..0x1000` (little-endian).
    pub fn stored_crc(&self) -> (r: u32)
        ensures
            r == le_u32(self.spec_bytes(), CRC_OFF as int),
    {
        proof {
            use_type_invariant(self);
        }
        read_u32_le(self.bytes, CRC_OFF)
    }

    /// CRC-32 (zlib/IEEE) computed over bytes `0..0xFFC`.
    pub fn computed_crc(&self) -> (r: u32)
        ensures
            r == crc32_of(self.spec_bytes().subrange(0, CRC_OFF as int)),
    {
        proof {
            use_type_invariant(self);
        }
        crc32_hash(&self.bytes[0..CRC_OFF])
    }

    /// `Ok(())` if the stored and computed CRCs match, [`Error::BadCrc`]
    /// otherwise.
    pub fn verify_crc(&self) -> (r: Result<()>)
        ensures
            ({
                let stored = le_u32(self.spec_bytes(), CRC_OFF as int);
                let computed = crc32_of(self.spec_bytes().subrange(0, CRC_OFF as int));
                if stored == computed {
                    r == Ok::<(), Error>(())
                } else {
                    r == Err::<(), Error>(
                        Error::BadCrc { page: self.spec_index(), stored, computed },
                    )
                }
            }),
    {
        let stored = self.stored_crc();
        let computed = self.computed_crc();
        if stored == computed {
            Ok(())
        } else {
            Err(Error::BadCrc { page: self.index, stored, computed })
        }
    }

    /// `Ok(())` if the trailer's reserved-zero regions (byte `0xFF3` and bytes
    /// `0xFF8..0xFFB`) are zero, [`Error::BadTrailer`] otherwise. The LSN at
    /// `0xFF4..0xFF8` may take any value.
    pub fn verify_trailer(&self) -> (r: Result<()>)
        ensures
            r is Ok <==> trailer_reserved_zero(self.spec_bytes()),
            r is Ok <==> ({
                let b = self.spec_bytes();
                b[0xFF3] == 0 && b[0xFF8] == 0 && b[0xFF9] == 0 && b[0xFFA] == 0 && b[0xFFB] == 0
            }),
            r is Err ==> r == Err::<(), Error>(Error::BadTrailer { page: self.spec_index() }),
    {
        let t = self.trailer();
        proof {
            use_type_invariant(self);
            let z = t.zero_ff8@;
            assert(forall|k: int| 0 <= k < 4 ==> z[k] == self.spec_bytes()[0xFF8 + k]);
            assert((forall|k: int| 0xFF8 <= k < 0xFFC ==> self.spec_bytes()[k] == 0) <==> (
            forall|k: int| 0 <= k < 4 ==> z[k] == 0)) by {
                if forall|k: int| 0 <= k < 4 ==> z[k] == 0 {
                    assert forall|k: int| 0xFF8 <= k < 0xFFC implies self.spec_bytes()[k] == 0 by {
                        assert(z[k - 0xFF8] == 0);
                    }
                }
            }
        }
        if t.zero_ff3 == 0 && t.zero_ff8[0] == 0 && t.zero_ff8[1] == 0 && t.zero_ff8[2] == 0
            && t.zero_ff8[3] == 0 {
            Ok(())
        } else {
            Err(Error::BadTrailer { page: self.index })
        }
    }
}

/// The reserved regions of the trailer of page `bytes`, byte `0xFF3` and
/// bytes `0xFF8..0xFFC`, are all zero.
pub open spec fn trailer_reserved_zero(bytes: Seq<u8>) -> bool {
    &&& bytes[0xFF3] == 0
    &&& forall|k: int| 0xFF8 <= k < 0xFFC ==> bytes[k] == 0
}

/// Parsed view of the 12-byte trailer at offsets `0xFF0..0xFFB`.
///
/// `0xFF4..0xFF8` holds the page's 32-bit log sequence number; byte
/// `0xFF3` and bytes `0xFF8..0xFFB` are reserved and always zero.
#[derive(Debug, Clone, Copy, Eq, PartialEq)]
pub struct PageTrailer {
    /// Byte at 0xFF0. Per-type variable.
    pub flag_ff0: u8,
    /// Byte at 0xFF1. Almost always 0x00.
    pub flag_ff1: u8,
    /// Raw page-type byte at 0xFF2 (ASCII).
    pub page_type_raw: u8,
    /// Byte at 0xFF3. Reserved, always 0x00.
    pub zero_ff3: u8,
    /// u32_LE at 0xFF4..0xFF8: the page's log sequence number.
    pub lsn: u32,
    /// Bytes at 0xFF8..0xFFB. Reserved, always zero.
    pub zero_ff8: [u8; 4],
}

impl PageTrailer {
    /// The fields of `self` are the trailer bytes of the page `bytes`.
    pub open spec fn is_trailer_of(self, bytes: Seq<u8>) -> bool {
        &&& self.flag_ff0 == bytes[0xFF0]
        &&& self.flag_ff1 == bytes[0xFF1]
        &&& self.page_type_raw == bytes[0xFF2]
        &&& self.zero_ff3 == bytes[0xFF3]
        &&& self.lsn == le_u32(bytes, LSN_OFF as int)
        &&& self.zero_ff8@ == bytes.subrange(0xFF8, 0xFFC)
    }

    /// Classify [`Self::page_type_raw`] into a known [`PageType`].
    pub fn page_type(&self) -> (r: PageType)
        ensures
            r == page_type_of(self.page_type_raw),
    {
        PageType::from_byte(self.page_type_raw)
    }
}

/// Known page types, from the byte at trailer offset `0xFF2`.
#[derive(Debug, Clone, Copy, Eq, PartialEq, Structural)]
pub enum PageType {
    /// `'E'` (0x45): extent / data page.
    Extent,
    /// `'A'` (0x41): allocation / free-space map.
    Alloc,
    /// `'M'` (0x4D): map / metadata.
    MapPage,
    /// `'H'` (0x48): header block.
    Header,
    /// `'C'` (0x43): catalog.
    Catalog,
    /// `'@'` (0x40): reserved / bootstrap.
    Bootstrap,
    /// `'I'` (0x49): index.
    Index,
    /// `'G'` (0x47): currently unknown.
    UnknownG,
    /// Any other byte, retained (case included) for exhaustive classification.
    Other(u8),
}

/// ASCII upper-casing of a single byte: `a..=z` map to `A..=Z`, every other
/// byte is unchanged.
pub open spec fn ascii_upper(b: u8) -> u8 {
    if 0x61 <= b <= 0x7A {
        (b - 0x20) as u8
    } else {
        b
    }
}

/// The page type that a trailer byte denotes. Letters are classified without
/// regard to case; any other byte is kept as it is in [`PageType::Other`].
pub open spec fn page_type_of(b: u8) -> PageType {
    let u = ascii_upper(b);
    if u == 0x45 {
        PageType::Extent
    } else if u == 0x41 {
        PageType::Alloc
    } else if u == 0x4D {
        PageType::MapPage
    } else if u == 0x48 {
        PageType::Header
    } else if u == 0x43 {
        PageType::Catalog
    } else if u == 0x40 {
        PageType::Bootstrap
    } else if u == 0x49 {
        PageType::Index
    } else if u == 0x47 {
        PageType::UnknownG
    } else {
        PageType::Other(b)
    }
}

/// The byte that a page type stands for.
pub open spec fn page_type_byte(t: PageType) -> u8 {
    match t {
        PageType::Extent => 0x45,
        PageType::Alloc => 0x41,
        PageType::MapPage => 0x4D,
        PageType::Header => 0x48,
        PageType::Catalog => 0x43,
        PageType::Bootstrap => 0x40,
        PageType::Index => 0x49,
        PageType::UnknownG => 0x47,
        PageType::Other(b) => b,
    }
}

impl PageType {
    /// Map a raw byte from trailer offset `0xFF2` to a [`PageType`].
    ///
    /// Classification is case-insensitive (`'e'` is an extent page as `'E'`
    /// is); a byte that names no known type is kept in [`PageType::Other`].
    pub fn from_byte(b: u8) -> (r: PageType)
        ensures
            r == page_type_of(b),
    {
        let u = if 0x61 <= b && b <= 0x7A {
            b - 0x20
        } else {
            b
        };
        if u == 0x45 {
            PageType::Extent
        } else if u == 0x41 {
            PageType::Alloc
        } else if u == 0x4D {
            PageType::MapPage
        } else if u == 0x48 {
            PageType::Header
        } else if u == 0x43 {
            PageType::Catalog
        } else if u == 0x40 {
            PageType::Bootstrap
        } else if u == 0x49 {
            PageType::Index
        } else if u == 0x47 {
            PageType::UnknownG
        } else {
            PageType::Other(b)
        }
    }

    /// Short lowercase name suitable for logs and CLI output.
    pub fn name(&self) -> (r: &'static str)
        ensures
            r@ == page_type_name(*self)@,
    {
        match self {
            PageType::Extent => "extent",
            PageType::Alloc => "alloc",
            PageType::MapPage => "map",
            PageType::Header => "header",
            PageType::Catalog => "catalog",
            PageType::Bootstrap => "bootstrap",
            PageType::Index => "index",
            PageType::UnknownG => "unknown_g",
            PageType::Other(_) => "other",
        }
    }

    /// The raw byte at trailer offset `0xFF2`.
    pub fn as_byte(&self) -> (r: u8)
        ensures
            r == page_type_byte(*self),
    {
        match self {
            PageType::Extent => 0x45,
            PageType::Alloc => 0x41,
            PageType::MapPage => 0x4D,
            PageType::Header => 0x48,
            PageType::Catalog => 0x43,
            PageType::Bootstrap => 0x40,
            PageType::Index => 0x49,
            PageType::UnknownG => 0x47,
            PageType::Other(b) => *b,
        }
    }
}

/// The short name of each page type.
pub open spec fn page_type_name(t: PageType) -> &'static str {
    match t {
        PageType::Extent => "extent",
        PageType::Alloc => "alloc",
        PageType::MapPage => "map",
        PageType::Header => "header",
        PageType::Catalog => "catalog",
        PageType::Bootstrap => "bootstrap",
        PageType::Index => "index",
        PageType::UnknownG => "unknown_g",
        PageType::Other(_) => "other",
    }
}


/// The lowercase forms of the known page-type letters: `e a m h c i g`.
pub open spec fn is_lowercase_known(b: u8) -> bool {
    b == 0x65 || b == 0x61 || b == 0x6D || b == 0x68 || b == 0x63 || b == 0x69 || b == 0x67
}

/// Classifying a byte and turning the type back into a byte gives the byte
/// back, except for the lowercase forms of known letters, which come back
/// in uppercase.
pub proof fn lemma_page_type_byte_roundtrip(b: u8)
    ensures
        !is_lowercase_known(b) ==> page_type_byte(page_type_of(b)) == b,
        is_lowercase_known(b) ==> page_type_byte(page_type_of(b)) == b - 0x20,
{
}

/// Classification ignores the case of letters: a byte and its uppercase
/// form denote the same known type, and a byte denotes a known type exactly
/// when its uppercase form does.
pub proof fn lemma_page_type_case_insensitive(b: u8)
    ensures
        page_type_of(b) is Other <==> page_type_of(ascii_upper(b)) is Other,
        !(page_type_of(b) is Other) ==> page_type_of(b) == page_type_of(ascii_upper(b)),
{
}

/// Every known page type is classified back from its own byte.
pub proof fn lemma_page_type_from_byte_of_type(t: PageType)
    requires
        !(t is Other),
    ensures
        page_type_of(page_type_byte(t)) == t,
{
}

/// The trailer check reads exactly the five reserved bytes: it passes when
/// byte `0xFF3` and bytes `0xFF8`, `0xFF9`, `0xFFA` and `0xFFB` are zero, and
/// a non-zero value in any one of them fails it; the LSN bytes
/// `0xFF4..0xFF8` and every other byte are free.
pub proof fn lemma_trailer_check_bytes(bytes: Seq<u8>)
    requires
        bytes.len() == PAGE_SIZE,
    ensures
        trailer_reserved_zero(bytes) <==> (bytes[0xFF3] == 0 && bytes[0xFF8] == 0 && bytes[0xFF9]
            == 0 && bytes[0xFFA] == 0 && bytes[0xFFB] == 0),
        forall|k: int, v: u8|
            0 <= k < PAGE_SIZE && k != 0xFF3 && !(0xFF8 <= k < 0xFFC) ==> (trailer_reserved_zero(
                #[trigger] bytes.update(k, v),
            ) <==> trailer_reserved_zero(bytes)),
{
    assert forall|k: int, v: u8|
        0 <= k < PAGE_SIZE && k != 0xFF3 && !(0xFF8 <= k < 0xFFC) implies (trailer_reserved_zero(
        #[trigger] bytes.update(k, v),
    ) <==> trailer_reserved_zero(bytes)) by {
        let u = bytes.update(k, v);
        assert(u[0xFF3] == bytes[0xFF3]);
        assert(u[0xFF8] == bytes[0xFF8] && u[0xFF9] == bytes[0xFF9] && u[0xFFA] == bytes[0xFFA]
            && u[0xFFB] == bytes[0xFFB]);
        assert(trailer_reserved_zero(u) <==> (u[0xFF3] == 0 && u[0xFF8] == 0 && u[0xFF9] == 0 && u[0xFFA] == 0 && u[0xFFB] == 0));
    }
}

} // verus!
