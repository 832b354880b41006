//! Learning and removing the additive-progression fill on synthetic stores.

use opensqlany::{
    ap_base, apply_stream, dominant_step, learn_bv_for_page, recover_base, recover_step_peak,
    sector_hits, ApModel, Page, PageStore, SlottedPage, PAGE_SIZE, SECTORS_PER_PAGE, SECTOR_SIZE,
};

const DATA_END: usize = 0xFF0;

/// Encode `plaintext` (exactly `DATA_END` bytes) as page `pn` under
/// `(bv, step)`; the trailer holds the type and the given tail bytes.
fn encode(pn: u64, ptype: u8, bv: u8, step: u8, plaintext: &[u8], tail: &[u8; 16]) -> Vec<u8> {
    assert_eq!(plaintext.len(), DATA_END);
    let mut out = vec![0u8; PAGE_SIZE];
    for si in 0..SECTORS_PER_PAGE {
        let off = si * SECTOR_SIZE;
        let end = if si + 1 == SECTORS_PER_PAGE {
            DATA_END
        } else {
            off + SECTOR_SIZE
        };
        let base = ap_base(pn, si, bv);
        for (i, &p) in plaintext[off..end].iter().enumerate() {
            out[off + i] = base
                .wrapping_add((i as u8).wrapping_mul(step))
                .wrapping_add(p);
        }
    }
    out[DATA_END..].copy_from_slice(tail);
    out[DATA_END + 2] = ptype;
    out
}

fn zero_page(pn: u64, ptype: u8, bv: u8, step: u8) -> Vec<u8> {
    encode(pn, ptype, bv, step, &vec![0u8; DATA_END], &[0u8; 16])
}

fn page_store(pages: Vec<Vec<u8>>) -> PageStore {
    PageStore::from_bytes(pages.concat()).unwrap()
}

/// A page of type 'E' whose bytes carry no fill at all.
fn blank_extent() -> Vec<u8> {
    let mut p = vec![0u8; PAGE_SIZE];
    p[DATA_END + 2] = b'E';
    p
}

#[test]
fn ap_base_wraps_and_subtracts_the_pair_bias() {
    // pn = 255, si = 7, bv = 255: p16 = 15, bias = 28,
    // (255 + 255 + 7 - 28) mod 256 = 489 mod 256 = 233.
    assert_eq!(ap_base(255, 7, 255), 233);
    // pn = 3, si = 0, bv = 0: bias = 4, (0 + 3 + 0 - 4) mod 256 = 255.
    assert_eq!(ap_base(3, 0, 0), 255);
    // The bias repeats every 16 pages.
    assert_eq!(ap_base(17, 1, 5), ap_base(1, 1, 5).wrapping_add(16));
}

#[test]
fn fill_primitives_on_a_pure_sector() {
    let base: u8 = 0x2D;
    let step: u8 = 45;
    let sec: Vec<u8> = (0..SECTOR_SIZE)
        .map(|i| base.wrapping_add((i as u8).wrapping_mul(step)))
        .collect();
    assert_eq!(dominant_step(&sec), 45);
    assert_eq!(recover_base(&sec, 45), 0x2D);
    assert_eq!(sector_hits(&sec, 0x2D, 45), SECTOR_SIZE);
    assert_eq!(sector_hits(&sec, 0x2E, 45), 0);
    assert_eq!(recover_step_peak(&sec, 0x2D), (45, SECTOR_SIZE));
}

#[test]
fn short_sectors_have_defined_results() {
    // Fewer than two bytes: no differences, the greatest step wins.
    assert_eq!(dominant_step(&[]), 255);
    assert_eq!(dominant_step(&[7]), 255);
    // An empty sector: every base ties, the greatest wins; no hits.
    assert_eq!(recover_base(&[], 3), 255);
    assert_eq!(sector_hits(&[], 0, 0), 0);
    assert_eq!(recover_step_peak(&[], 9), (0, 0));
}

#[test]
fn apply_stream_writes_only_the_common_prefix() {
    let sec = [10u8, 13, 16, 19];
    let mut out = vec![0xEEu8; 6];
    apply_stream(&sec, 10, 3, &mut out);
    assert_eq!(out, vec![0, 0, 0, 0, 0xEE, 0xEE]);
    let mut short = vec![0xEEu8; 2];
    apply_stream(&sec, 9, 3, &mut short);
    assert_eq!(short, vec![1, 1]);
}

#[test]
fn learn_bv_for_page_needs_a_pure_type() {
    let page = zero_page(5, b'C', 42, 9);
    assert_eq!(learn_bv_for_page(&page, 5, b'C'), Some(42));
    assert_eq!(learn_bv_for_page(&page, 5, b'@'), Some(42));
    assert_eq!(learn_bv_for_page(&page, 5, b'E'), None);
    assert_eq!(learn_bv_for_page(&page, 5, b'c'), None);
    // The bytes of a page of another type are not read.
    assert_eq!(learn_bv_for_page(&[], 5, b'E'), None);
}

#[test]
fn learn_keeps_one_value_per_block() {
    // Block 0: a calibration page (bv 10) and blank extent pages.
    // Block 1: a calibration page (bv 99) at page 16.
    let mut pages = vec![zero_page(0, b'@', 10, 3)];
    for _ in 1..16 {
        pages.push(blank_extent());
    }
    pages.push(zero_page(16, b'C', 99, 5));
    let store = page_store(pages);
    let model = ApModel::learn(&store);
    assert_eq!(model.learned_block_count(), 2);
    assert_eq!(model.bv_at(0), 10);
    assert_eq!(model.bv_at(1), 99);
    // Blocks that were not learned use block 0's value.
    assert_eq!(model.bv_at(2), 10);
    assert_eq!(model.bv_at(u64::MAX), 10);
}

#[test]
fn fallback_is_the_lowest_learned_block() {
    let mut pages = Vec::new();
    for _ in 0..16 {
        pages.push(blank_extent());
    }
    pages.push(zero_page(16, b'M', 99, 5));
    let store = page_store(pages);
    let model = ApModel::learn(&store);
    assert_eq!(model.learned_block_count(), 1);
    assert_eq!(model.bv_at(1), 99);
    assert_eq!(model.bv_at(0), 99);
}

#[test]
fn a_store_without_calibration_learns_nothing() {
    let store = page_store(vec![blank_extent(), blank_extent()]);
    let model = ApModel::learn(&store);
    assert_eq!(model.learned_block_count(), 0);
    assert_eq!(model.bv_at(0), 0);
    let empty = ApModel::default();
    assert_eq!(empty.learned_block_count(), 0);
    assert_eq!(empty.bv_at(3), 0);
}

#[test]
fn deobfuscation_keeps_the_trailer_verbatim() {
    let mut plain = vec![0u8; DATA_END];
    plain[100] = 0x42;
    plain[2000] = 0x99;
    plain[DATA_END - 1] = 0x01;
    let tail: [u8; 16] = [
        0x01, 0x00, 0x00, 0x00, 0x10, 0x20, 0x30, 0x00, 0x00, 0x00, 0x00, 0x00, 0xAA, 0xBB, 0xCC,
        0xDD,
    ];
    let raw = encode(33, b'E', 0x5C, 17, &plain, &tail);
    let model = ApModel::default();
    let out = model.deobfuscate_with_bv(&raw, 33, 0x5C);
    assert_eq!(out.len(), PAGE_SIZE);
    assert_eq!(&out[..DATA_END], &plain[..]);
    assert_eq!(&out[DATA_END..DATA_END + 2], &tail[..2]);
    assert_eq!(out[DATA_END + 2], b'E');
    assert_eq!(&out[DATA_END + 3..], &tail[3..]);
}

#[test]
fn deobfuscate_uses_the_block_value() {
    let mut pages = vec![zero_page(0, b'H', 61, 11)];
    let mut plain = vec![0u8; DATA_END];
    plain[7] = 0x33;
    pages.push(encode(1, b'E', 61, 23, &plain, &[0u8; 16]));
    let store = page_store(pages);
    let model = ApModel::learn(&store);
    assert_eq!(model.bv_at(0), 61);
    let raw = store.page(1).unwrap().bytes();
    let out = model.deobfuscate(raw, 1);
    assert_eq!(&out[..DATA_END], &plain[..]);
    // Under a wrong bv the data region is not recovered.
    let wrong = model.deobfuscate_with_bv(raw, 1, 62);
    assert_ne!(&wrong[..DATA_END], &plain[..]);
}

#[test]
fn block_recovery_scores_the_first_pages_of_the_block() {
    let store = page_store(vec![zero_page(0, b'E', 77, 13), zero_page(1, b'E', 77, 29)]);
    let model = ApModel::default();
    assert_eq!(model.recover_bv_for_block(&store, 0), 77);
    // A block beyond the store gets the fallback.
    assert_eq!(model.recover_bv_for_block(&store, 1), 0);
    assert_eq!(model.recover_bv_for_block(&store, u64::MAX / 16 - 1), 0);
    // A page beyond the store gets the fallback too.
    assert_eq!(model.recover_bv_for_page(&store, 2), 0);
    assert_eq!(model.recover_bv_for_page(&store, 1), 77);
}

#[test]
fn per_page_recovery_beats_the_block_value() {
    let store = page_store(vec![zero_page(0, b'C', 5, 3), zero_page(1, b'E', 250, 41)]);
    let model = ApModel::learn(&store);
    assert_eq!(model.bv_at(0), 5);
    assert_eq!(model.recover_bv_for_page(&store, 1), 250);
    let raw = store.page(1).unwrap().bytes();
    let out = model.deobfuscate_with_store(raw, 1, &store);
    assert!(out[..DATA_END].iter().all(|&b| b == 0));
    // The pure-AP page resolves its own value without the search.
    let raw0 = store.page(0).unwrap().bytes();
    let out0 = model.deobfuscate_with_store(raw0, 0, &store);
    assert!(out0[..DATA_END].iter().all(|&b| b == 0));
}

#[test]
fn deobfuscated_pages_parse_as_slotted_pages() {
    // Plaintext with a slot directory of eight descending row offsets.
    let mut plain = vec![0u8; DATA_END];
    let slots: [u16; 9] = [
        0x0F00, 0x0E00, 0x0D00, 0x0C00, 0x0B00, 0x0A00, 0x0900, 0x0800, 0xFFFF,
    ];
    for (k, v) in slots.iter().enumerate() {
        plain[0x40 + 2 * k..0x42 + 2 * k].copy_from_slice(&v.to_le_bytes());
    }
    let raw = encode(9, b'E', 0x21, 7, &plain, &[0u8; 16]);
    let model = ApModel::default();
    let out = model.deobfuscate_with_bv(&raw, 9, 0x21);
    let page = Page::from_bytes(9, &out).expect("one page");
    assert_eq!(page.index(), 9);
    let sp = SlottedPage::parse(page);
    let dir = sp.directory.expect("directory");
    assert_eq!(dir.array_start, 0x40);
    assert_eq!(dir.live_count(), 8);
    assert!(Page::from_bytes(0, &out[..100]).is_none());
    assert!(Page::from_bytes(0, &[0u8; PAGE_SIZE + 1]).is_none());
}

#[test]
fn store_decoding_recovers_sparse_pages() {
    // Plaintext with a few non-zero bytes in several sectors.
    let mut plain = vec![0u8; DATA_END];
    for k in (0..DATA_END).step_by(37) {
        plain[k] = (k % 251) as u8 | 1;
    }
    let calib = zero_page(0, b'@', 0x10, 3);
    let catalog = encode(1, b'C', 0x80, 200, &plain, &[0u8; 16]);
    let extent = encode(2, b'E', 0xF3, 1, &plain, &[0u8; 16]);
    let store = page_store(vec![calib, catalog, extent]);
    let model = ApModel::learn(&store);
    assert_eq!(model.bv_at(0), 0x10);
    for pn in 1..3u64 {
        let raw = store.page(pn).unwrap().bytes();
        let out = model.deobfuscate_with_store(raw, pn, &store);
        assert_eq!(&out[..DATA_END], &plain[..], "page {pn}");
    }
    assert_eq!(model.recover_bv_for_page(&store, 1), 0x80);
    assert_eq!(model.recover_bv_for_page(&store, 2), 0xF3);
}

#[test]
fn the_vote_formula_inverts_the_base() {
    for pn in [0u64, 1, 7, 15, 16, 255, 4097] {
        for si in 0..SECTORS_PER_PAGE {
            for bv in [0u8, 1, 0x7F, 0x80, 0xFF] {
                let base = ap_base(pn, si, bv);
                let bias = ((pn % 16) as u8) / 2 * 4;
                let back = base
                    .wrapping_sub(pn as u8)
                    .wrapping_sub(si as u8)
                    .wrapping_add(bias);
                assert_eq!(back, bv);
            }
        }
    }
}
