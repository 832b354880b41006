use opensqlany::{
    ap_base, apply_stream, dominant_step, learn_bv_for_page, recover_base, recover_step_peak,
    sector_hits, ApModel, PageStore, PAGE_SIZE, SECTORS_PER_PAGE, SECTOR_SIZE,
};

const TRAILER_START: usize = 0xFF0;

/// Build a minimal AP-fill sector with given base and step.
fn make_ap_sector(base: u8, step: u8) -> [u8; SECTOR_SIZE] {
    let mut sec = [0u8; SECTOR_SIZE];
    for (i, b) in sec.iter_mut().enumerate() {
        *b = base.wrapping_add((i as u8).wrapping_mul(step));
    }
    sec
}

/// Encode a page's data region under a fixed `(bv, step)` for a plaintext of
/// exactly `TRAILER_START` bytes; the trailer is left zero but for the type.
fn encode_page(pn: u64, ptype: u8, bv: u8, step: u8, plaintext: &[u8]) -> Vec<u8> {
    assert_eq!(plaintext.len(), TRAILER_START);
    let mut out = vec![0u8; PAGE_SIZE];
    for si in 0..SECTORS_PER_PAGE {
        let off = si * SECTOR_SIZE;
        let data_end = if si + 1 == SECTORS_PER_PAGE {
            TRAILER_START
        } else {
            off + SECTOR_SIZE
        };
        let base = ap_base(pn, si, bv);
        for (i, &p) in plaintext[off..data_end].iter().enumerate() {
            out[off + i] = base.wrapping_add((i as u8).wrapping_mul(step)).wrapping_add(p);
        }
    }
    out[TRAILER_START + 2] = ptype;
    out
}

#[test]
fn dominant_step_pure_ap() {
    let sec = make_ap_sector(0x63, 3);
    assert_eq!(dominant_step(&sec), 3);
}

#[test]
fn recover_base_pure_ap() {
    let sec = make_ap_sector(0x71, 7);
    let step = dominant_step(&sec);
    assert_eq!(step, 7);
    assert_eq!(recover_base(&sec, step), 0x71);
}

#[test]
fn sector_purity_perfect() {
    let sec = make_ap_sector(0x40, 11);
    let step = dominant_step(&sec);
    let base = recover_base(&sec, step);
    let purity = sector_hits(&sec, base, step) as f64 / sec.len() as f64;
    assert!(purity > 0.99);
}

#[test]
fn roundtrip_zero_plaintext() {
    // If plaintext is all zeros, stored == fill; deobfuscating recovers zeros.
    let base: u8 = 0x55;
    let step: u8 = 19;
    let stored: Vec<u8> = (0..SECTOR_SIZE)
        .map(|i| base.wrapping_add((i as u8).wrapping_mul(step)))
        .collect();
    let (recovered_step, _) = recover_step_peak(&stored, base);
    let mut plain = vec![0u8; SECTOR_SIZE];
    apply_stream(&stored, base, recovered_step, &mut plain);
    assert!(plain.iter().all(|&b| b == 0));
}

#[test]
fn ap_base_formula() {
    // pn=10, si=2, bv=0xC0: p16 = 10, offset = 20, base = 192 + 12 - 20 = 0xB8.
    assert_eq!(ap_base(10, 2, 0xC0), 0xB8);
    // pn=0, si=0, bv=0x00: base = 0
    assert_eq!(ap_base(0, 0, 0x00), 0x00);
    // pn=16, si=3, bv=0x10: p16=0, offset=0, base = 0x10+16+3 = 0x23
    assert_eq!(ap_base(16, 3, 0x10), 0x23);
}

#[test]
fn deobfuscate_with_store_uses_per_page_bv_not_block_bv() {
    // Block 0: page 0 is a pure-AP calibration page with bv=10; page 1 is a
    // dense 'E' page whose true bv is 200, different from the block's value.
    let zero_plain = vec![0u8; TRAILER_START];
    let page0 = encode_page(0, b'@', 10, 3, &zero_plain);
    let page1 = encode_page(1, b'E', 200, 7, &zero_plain);

    let mut bytes = Vec::new();
    bytes.extend_from_slice(&page0);
    bytes.extend_from_slice(&page1);
    let store = PageStore::from_bytes(bytes).unwrap();

    let model = ApModel::learn(&store);
    assert_eq!(model.bv_at(0), 10, "block bv should learn from the pure-AP page");

    let page1_raw = store.page(1).unwrap().bytes();
    let plain = model.deobfuscate_with_store(page1_raw, 1, &store);
    assert!(
        plain[..TRAILER_START].iter().all(|&b| b == 0),
        "per-page recovery should find page 1's true bv (200), not the block's (10)"
    );
}

#[test]
fn recover_bv_for_page_matches_direct_learn() {
    // A single pure-AP page recovers the same bv whether learned directly or
    // brute-forced.
    let zero_plain = vec![0u8; TRAILER_START];
    let page = encode_page(0, b'H', 77, 13, &zero_plain);
    let store = PageStore::from_bytes(page.clone()).unwrap();

    assert_eq!(learn_bv_for_page(&page, 0, b'H'), Some(77));

    let model = ApModel::default();
    assert_eq!(model.recover_bv_for_page(&store, 0), 77);
}
