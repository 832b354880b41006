# opensqlany

A reader for the on-disk page-store format of SAP SQL Anywhere 17, written
in Verus: every function of the library carries a contract that Verus
proves against its body.

## Layout

- `src/` — the verified library.
  - `store.rs`: an in-memory page store, page access and the page walk.
  - `page.rs`: single pages: the 12-byte trailer (with the page LSN), the
    CRC-32 footer check, page-type classification.
  - `superblock.rs`: the page-0 superblock and the copyright-marker search.
  - `slotted.rs`: the descending slot-directory search of catalog and data
    pages, live/deleted slots and row slicing.
  - `fill.rs` and `ap.rs`: the additive-progression fill that QuickBooks
    stores add on top of the page layer: recovering a sector's step and
    base, learning the calibration byte `bv` per block or per page, and
    removing the fill.
  - `report.rs`: whole-store summaries (page-type histogram, integrity
    failures, calibration coverage) and hex listings.
  - `crc.rs`: the one call into `crc32fast`, trusted.
  - `bytes.rs`, `error.rs`: little-endian reads and the error type.
- `tests/` — tests on hand-built pages and stores.
- `app/` — the `opensqlany` command-line tool (`inspect`, `dump-page`,
  `slots`, `ap-info`, `deob`): it reads files, parses arguments and prints
  what the library computes.

Each module states its specification as open spec functions over byte
sequences, and its laws as public proof functions next to the code they
are about.
