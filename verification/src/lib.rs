//! SAP SQL Anywhere page-store reader.
//!
//! The library parses the on-disk page-store format of SAP SQL Anywhere 17:
//!
//! * [`PageStore`]: random access over the 4 KiB pages of an in-memory image.
//! * [`Superblock`]: the page-0 header (magic, format version triple).
//! * [`PageTrailer`]: the 12-byte trailer at `0xFF0..0xFFB` of every page.
//! * [`Page::verify_crc`]: the per-page CRC-32 integrity check.
//! * [`SlottedPage`]: the descending row-offset directory of catalog pages.
//! * [`ApModel`]: removal of the additive-progression fill that some stores
//!   apply on top of the page layer.
//! * [`report`]: whole-store summaries (page-type histogram, integrity
//!   failures, calibration coverage) and hex listings.
//!
//! Every function here carries a contract that Verus checks against its body.

pub mod ap;
pub mod bytes;
pub mod crc;
pub mod error;
pub mod fill;
pub mod page;
pub mod report;
pub mod slotted;
pub mod store;
pub mod superblock;

pub use ap::{learn_bv_for_page, ApModel, SECTORS_PER_PAGE, SECTOR_SIZE};
pub use error::{Error, Result};
pub use fill::{ap_base, apply_stream, dominant_step, recover_base, recover_step_peak, sector_hits};
pub use page::{Page, PageTrailer, PageType, PAGE_SIZE};
pub use slotted::{SlotDirectory, SlottedPage};
pub use store::{PageStore, Pages};
pub use superblock::{Superblock, SA_COPYRIGHT_MARKER, SA_MAGIC, FLAGS_06_BASE};

use vstd::prelude::*;

verus! {

/// The page size in bytes (4 KiB), fixed across every SA17 file.
pub const PAGE_SIZE_BYTES: usize = 4096;

} // verus!
