use vstd::prelude::*;

verus! {

/// `std::io::Error`, declared so that [`Error::Io`] can carry the error of
/// a failed read. The type is opaque: nothing is claimed of its contents.
#[verifier::external_type_specification]
#[verifier::external_body]
pub struct ExIoError(std::io::Error);

/// Convenience result type over [`enum@Error`].
pub type Result<T> = std::result::Result<T, Error>;

/// Errors returned by the page-store reader.
#[derive(Debug)]
pub enum Error {
    /// I/O error reading the page store.
    Io(std::io::Error),
    /// File size is not a multiple of the page size.
    NotPageAligned {
        /// File size in bytes.
        size: u64,
        /// Expected page size.
        page_size: usize,
    },
    /// File is smaller than one page (no superblock).
    TooSmall {
        /// File size in bytes.
        size: u64,
    },
    /// Page index out of range for this store.
    PageOutOfRange {
        /// Requested page number.
        page: u64,
        /// Total pages in the store.
        total: u64,
    },
    /// Superblock magic did not match the expected SA17 value.
    BadMagic {
        /// Magic found at superblock offset 0x14.
        got: u32,
        /// Expected magic.
        want: u32,
    },
    /// Per-page CRC-32 footer did not match the computed value.
    BadCrc {
        /// Zero-based page number.
        page: u64,
        /// CRC stored in the page footer.
        stored: u32,
        /// CRC computed over the page body.
        computed: u32,
    },
    /// One of the reserved-zero regions of the page trailer was non-zero.
    BadTrailer {
        /// Zero-based page number.
        page: u64,
    },
}

impl From<std::io::Error> for Error {
    /// Wraps an I/O error as [`Error::Io`].
    fn from(e: std::io::Error) -> (r: Error) {
        Error::Io(e)
    }
}

impl vstd::std_specs::convert::FromSpecImpl<std::io::Error> for Error {
    open spec fn obeys_from_spec() -> bool {
        true
    }

    open spec fn from_spec(v: std::io::Error) -> Error {
        Error::Io(v)
    }
}

} // verus!
