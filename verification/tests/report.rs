//! Whole-store summaries and hex listings.

use opensqlany::report::{ap_info, hexdump, inspect, printable};
use opensqlany::{ap_base, PageStore, PAGE_SIZE, SECTORS_PER_PAGE, SECTOR_SIZE};

fn page(ptype: u8) -> Vec<u8> {
    let mut p = vec![0u8; PAGE_SIZE];
    p[0xFF2] = ptype;
    stamp(&mut p);
    p
}

fn stamp(p: &mut [u8]) {
    let crc = crc32fast::hash(&p[..0xFFC]);
    p[0xFFC..0x1000].copy_from_slice(&crc.to_le_bytes());
}

/// A page holding only the fill of `bv` (zero plaintext).
fn calibration_page(pn: u64, ptype: u8, bv: u8, step: u8) -> Vec<u8> {
    let mut out = vec![0u8; PAGE_SIZE];
    for si in 0..SECTORS_PER_PAGE {
        let off = si * SECTOR_SIZE;
        let end = if si + 1 == SECTORS_PER_PAGE {
            0xFF0
        } else {
            off + SECTOR_SIZE
        };
        let base = ap_base(pn, si, bv);
        for i in 0..end - off {
            out[off + i] = base.wrapping_add((i as u8).wrapping_mul(step));
        }
    }
    out[0xFF2] = ptype;
    out
}

#[test]
fn inspect_counts_types_and_failures() {
    let mut bad_crc = page(b'A');
    bad_crc[0xFFD] ^= 0x01;
    let mut bad_trailer = page(b'E');
    bad_trailer[0xFF3] = 1;
    stamp(&mut bad_trailer);
    let pages = vec![page(b'H'), page(b'E'), bad_crc, bad_trailer, page(b'C')];
    let store = PageStore::from_bytes(pages.concat()).unwrap();

    let r = inspect(&store, true);
    assert_eq!(r.type_histogram, vec![(b'E', 2), (b'A', 1), (b'C', 1)]);
    assert_eq!(r.trailer_failures, vec![3]);
    assert_eq!(r.crc_failures, Some(vec![2]));

    let quick = inspect(&store, false);
    assert_eq!(quick.type_histogram, r.type_histogram);
    assert_eq!(quick.trailer_failures, vec![3]);
    assert_eq!(quick.crc_failures, None);
}

#[test]
fn inspect_skips_the_superblock() {
    let store = PageStore::from_bytes(page(b'X')).unwrap();
    let r = inspect(&store, true);
    assert!(r.type_histogram.is_empty());
    assert!(r.trailer_failures.is_empty());
    assert_eq!(r.crc_failures, Some(vec![]));
}

#[test]
fn histogram_ties_go_by_ascending_byte() {
    let pages = vec![
        page(0),
        page(b'M'),
        page(b'C'),
        page(b'e'),
        page(b'C'),
        page(b'M'),
        page(b'@'),
    ];
    let store = PageStore::from_bytes(pages.concat()).unwrap();
    let r = inspect(&store, false);
    assert_eq!(
        r.type_histogram,
        vec![(b'C', 2), (b'M', 2), (b'@', 1), (b'e', 1)]
    );
}

#[test]
fn printable_keeps_visible_ascii_only() {
    assert_eq!(printable(0x1F), b'.');
    assert_eq!(printable(b' '), b' ');
    assert_eq!(printable(b'A'), b'A');
    assert_eq!(printable(b'~'), b'~');
    assert_eq!(printable(0x7F), b'.');
    assert_eq!(printable(0xE9), b'.');
}

#[test]
fn hexdump_splits_into_rows_of_sixteen() {
    let buf: Vec<u8> = (0u8..20).map(|i| i + 0x3C).collect();
    let rows = hexdump(&buf, 0x100);
    assert_eq!(rows.len(), 2);
    assert_eq!(rows[0].offset, 0x100);
    assert_eq!(rows[1].offset, 0x110);
    assert_eq!(rows[0].bytes, buf[..16].to_vec());
    assert_eq!(rows[1].bytes, buf[16..].to_vec());
    assert_eq!(rows[1].text, vec![b'L', b'M', b'N', b'O']);
    let exact = hexdump(&buf[..16], 0);
    assert_eq!(exact.len(), 1);
    assert!(hexdump(&[], 7).is_empty());
    let high = hexdump(&buf, usize::MAX - 16);
    assert_eq!(high[1].offset, usize::MAX);
    let ctrl = hexdump(&[0x00, 0x41, 0x7F], 0);
    assert_eq!(ctrl[0].text, vec![b'.', b'A', b'.']);
}

#[test]
fn ap_info_summarises_coverage() {
    let mut pages = vec![calibration_page(0, b'@', 10, 3)];
    for _ in 1..16 {
        pages.push(page(b'E'));
    }
    pages.push(calibration_page(16, b'C', 99, 5));
    let store = PageStore::from_bytes(pages.concat()).unwrap();
    let info = ap_info(&store);
    assert_eq!(info.learned_blocks, 2);
    assert_eq!(info.total_blocks, 2);
    assert_eq!(info.bv_block0, 10);

    let blank = PageStore::from_bytes(page(b'E')).unwrap();
    let none = ap_info(&blank);
    assert_eq!(none.learned_blocks, 0);
    assert_eq!(none.total_blocks, 1);
    assert_eq!(none.bv_block0, 0);
}

#[test]
fn histogram_counts_every_page_but_the_superblock() {
    let types = [b'E', b'A', b'E', 0x00, b'e', b'Z', b'A', b'E'];
    let mut pages = vec![page(b'H')];
    for t in types {
        pages.push(page(t));
    }
    let store = PageStore::from_bytes(pages.concat()).unwrap();
    let r = inspect(&store, false);
    let sum: u64 = r.type_histogram.iter().map(|&(_, n)| n).sum();
    assert_eq!(sum, store.page_count() - 1);
    assert_eq!(r.type_histogram[0], (b'E', 3));
}
