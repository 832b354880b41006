//! Page-layer behaviour on hand-built pages: trailer fields, integrity
//! checks, page access, superblock parsing and slot directories.

use opensqlany::superblock::memmem;
use opensqlany::{
    Error, PageStore, PageType, SlotDirectory, SlottedPage, Superblock, FLAGS_06_BASE, PAGE_SIZE,
    SA_COPYRIGHT_MARKER, SA_MAGIC,
};

/// A page of the given type whose trailer is all zero but for the type, the
/// LSN and a valid CRC footer.
fn page_with(page_type: u8, lsn: u32) -> Vec<u8> {
    let mut page = vec![0u8; PAGE_SIZE];
    page[0xFF2] = page_type;
    page[0xFF4..0xFF8].copy_from_slice(&lsn.to_le_bytes());
    stamp_crc(&mut page);
    page
}

fn stamp_crc(page: &mut [u8]) {
    let crc = crc32fast::hash(&page[..0xFFC]);
    page[0xFFC..0x1000].copy_from_slice(&crc.to_le_bytes());
}

fn store_of(pages: &[Vec<u8>]) -> PageStore {
    let mut bytes = Vec::new();
    for p in pages {
        bytes.extend_from_slice(p);
    }
    PageStore::from_bytes(bytes).unwrap()
}

#[test]
fn lowercase_page_types_are_classified() {
    assert_eq!(PageType::from_byte(b'e'), PageType::Extent);
    assert_eq!(PageType::from_byte(b'a'), PageType::Alloc);
    assert_eq!(PageType::from_byte(b'm'), PageType::MapPage);
    assert_eq!(PageType::from_byte(b'h'), PageType::Header);
    assert_eq!(PageType::from_byte(b'c'), PageType::Catalog);
    assert_eq!(PageType::from_byte(b'i'), PageType::Index);
    assert_eq!(PageType::from_byte(b'g'), PageType::UnknownG);
    // A lowercase known letter comes back as its uppercase byte.
    assert_eq!(PageType::from_byte(b'e').as_byte(), b'E');
    // Unknown bytes keep their case.
    assert_eq!(PageType::from_byte(b'z'), PageType::Other(b'z'));
    assert_eq!(PageType::from_byte(b'Z'), PageType::Other(b'Z'));
    assert_eq!(PageType::from_byte(0x60), PageType::Other(0x60));
}

#[test]
fn page_type_names() {
    assert_eq!(PageType::Extent.name(), "extent");
    assert_eq!(PageType::Alloc.name(), "alloc");
    assert_eq!(PageType::MapPage.name(), "map");
    assert_eq!(PageType::Header.name(), "header");
    assert_eq!(PageType::Catalog.name(), "catalog");
    assert_eq!(PageType::Bootstrap.name(), "bootstrap");
    assert_eq!(PageType::Index.name(), "index");
    assert_eq!(PageType::UnknownG.name(), "unknown_g");
    assert_eq!(PageType::Other(0x7F).name(), "other");
}

#[test]
fn every_byte_classifies_back() {
    for b in 0u8..=255 {
        let t = PageType::from_byte(b);
        let back = t.as_byte();
        if matches!(b, b'e' | b'a' | b'm' | b'h' | b'c' | b'i' | b'g') {
            assert_eq!(back, b - 0x20);
        } else {
            assert_eq!(back, b);
        }
        if !matches!(t, PageType::Other(_)) {
            assert_eq!(PageType::from_byte(back), t);
        }
    }
}

#[test]
fn trailer_fields_and_lsn() {
    let mut page = page_with(b'C', 0x0012_3456);
    page[0xFF0] = 0x11;
    page[0xFF1] = 0x22;
    stamp_crc(&mut page);
    let store = store_of(&[page]);
    let p = store.page(0).unwrap();
    let t = p.trailer();
    assert_eq!(t.flag_ff0, 0x11);
    assert_eq!(t.flag_ff1, 0x22);
    assert_eq!(t.page_type_raw, b'C');
    assert_eq!(t.zero_ff3, 0);
    assert_eq!(t.lsn, 0x0012_3456);
    assert_eq!(t.zero_ff8, [0u8; 4]);
    assert_eq!(t.page_type(), PageType::Catalog);
    assert_eq!(p.lsn(), 0x0012_3456);
    assert_eq!(p.index(), 0);
    assert_eq!(p.bytes().len(), PAGE_SIZE);
}

#[test]
fn large_lsn_passes_trailer_check() {
    // An LSN above 65 535 sets bytes 0xFF6..0xFF7, which are not reserved.
    let store = store_of(&[page_with(b'E', 0xFFFF_FFFF)]);
    let p = store.page(0).unwrap();
    assert!(p.verify_trailer().is_ok());
    assert!(p.verify_crc().is_ok());
}

#[test]
fn reserved_trailer_bytes_are_rejected() {
    let mut a = page_with(b'E', 1);
    a[0xFF3] = 1;
    let mut b = page_with(b'E', 1);
    b[0xFFB] = 0x80;
    let store = store_of(&[page_with(b'E', 1), a, b]);
    assert!(store.page(0).unwrap().verify_trailer().is_ok());
    assert!(matches!(
        store.page(1).unwrap().verify_trailer(),
        Err(Error::BadTrailer { page: 1 })
    ));
    assert!(matches!(
        store.page(2).unwrap().verify_trailer(),
        Err(Error::BadTrailer { page: 2 })
    ));
}

#[test]
fn crc_is_crc32_of_the_page_body() {
    let mut page = page_with(b'A', 7);
    page[0x123] = 0x5A;
    // Footer deliberately stale.
    let store = store_of(&[page.clone()]);
    let p = store.page(0).unwrap();
    let want = crc32fast::hash(&page[..0xFFC]);
    assert_eq!(p.computed_crc(), want);
    let stored = u32::from_le_bytes([page[0xFFC], page[0xFFD], page[0xFFE], page[0xFFF]]);
    assert_eq!(p.stored_crc(), stored);
    assert_ne!(stored, want);
    match p.verify_crc() {
        Err(Error::BadCrc {
            page,
            stored: s,
            computed,
        }) => {
            assert_eq!(page, 0);
            assert_eq!(s, stored);
            assert_eq!(computed, want);
        }
        other => panic!("expected BadCrc, got {:?}", other),
    }
}

#[test]
fn page_out_of_range_is_reported() {
    let store = store_of(&[page_with(b'E', 0), page_with(b'A', 0)]);
    assert_eq!(store.page_count(), 2);
    assert_eq!(store.size_bytes(), 2 * 4096);
    assert!(matches!(
        store.page(2),
        Err(Error::PageOutOfRange { page: 2, total: 2 })
    ));
    assert!(store.page(1).is_ok());
}

#[test]
fn pages_walk_every_page_once() {
    let store = store_of(&[page_with(b'H', 0), page_with(b'E', 0), page_with(b'A', 0)]);
    let mut pages = store.pages();
    assert_eq!(pages.size_hint(), (3, Some(3)));
    let mut seen = Vec::new();
    while let Some(p) = pages.next() {
        seen.push((p.index(), p.trailer().page_type()));
    }
    assert_eq!(
        seen,
        vec![
            (0, PageType::Header),
            (1, PageType::Extent),
            (2, PageType::Alloc)
        ]
    );
    assert_eq!(pages.size_hint(), (0, Some(0)));
    assert!(pages.next().is_none());
}

#[test]
fn store_sizes_at_the_edges() {
    assert!(matches!(
        PageStore::from_bytes(vec![0u8; 4095]),
        Err(Error::TooSmall { size: 4095 })
    ));
    assert!(matches!(
        PageStore::from_bytes(Vec::new()),
        Err(Error::TooSmall { size: 0 })
    ));
    assert!(matches!(
        PageStore::from_bytes(vec![0u8; 8191]),
        Err(Error::NotPageAligned {
            size: 8191,
            page_size: 4096
        })
    ));
    let store = PageStore::from_bytes(vec![0u8; 4096]).unwrap();
    assert_eq!(store.page_count(), 1);
}

#[test]
fn superblock_fields_are_read_little_endian() {
    let mut page0 = vec![0u8; PAGE_SIZE];
    page0[0x06] = 0x29;
    page0[0x08..0x0C].copy_from_slice(&0xDEAD_BEEFu32.to_le_bytes());
    page0[0x10..0x14].copy_from_slice(&3u32.to_le_bytes());
    page0[0x14..0x18].copy_from_slice(&SA_MAGIC.to_le_bytes());
    page0[0x18..0x1A].copy_from_slice(&201u16.to_le_bytes());
    page0[0x1A..0x1C].copy_from_slice(&12u16.to_le_bytes());
    page0[0x1C..0x20].copy_from_slice(&3359u32.to_le_bytes());
    let sb = Superblock::parse(&page0);
    assert_eq!(sb.flags_06, 0x29);
    assert_eq!(sb.current_lsn, 0xDEAD_BEEF);
    assert_eq!(sb.format_major, 3);
    assert_eq!(sb.magic, 0xDA7A_BA5E);
    assert_eq!(sb.version_a, 201);
    assert_eq!(sb.version_b, 12);
    assert_eq!(sb.page_count_hint, 3359);
    assert!(!sb.sa_marker_present);
    assert!(sb.magic_ok());
    assert_eq!(sb.flags_06_variant_bits(), 0x20);
}

#[test]
fn bad_magic_is_reported() {
    let store = store_of(&[page_with(b'H', 0)]);
    assert!(matches!(
        store.superblock(),
        Err(Error::BadMagic {
            got: 0,
            want: 0xDA7A_BA5E
        })
    ));
    let sb = store.try_superblock().unwrap();
    assert_eq!(sb.magic, 0);
    assert!(!sb.magic_ok());
}

#[test]
fn copyright_marker_is_found_anywhere() {
    let mut page0 = vec![0u8; PAGE_SIZE];
    let at = PAGE_SIZE - SA_COPYRIGHT_MARKER.len();
    page0[at..].copy_from_slice(&SA_COPYRIGHT_MARKER);
    assert!(Superblock::parse(&page0).sa_marker_present);
    page0[PAGE_SIZE - 1] = b'!';
    assert!(!Superblock::parse(&page0).sa_marker_present);
}

#[test]
fn memmem_finds_first_occurrence() {
    assert_eq!(memmem(b"abcabc", b"ca"), Some(2));
    assert_eq!(memmem(b"abcabc", b"abc"), Some(0));
    assert_eq!(memmem(b"abcabc", b"bc"), Some(1));
    assert_eq!(memmem(b"abcabc", b"cb"), None);
    assert_eq!(memmem(b"abc", b""), None);
    assert_eq!(memmem(b"ab", b"abc"), None);
    assert_eq!(memmem(b"abc", b"abc"), Some(0));
}

#[test]
fn flags_06_split_loses_nothing() {
    for f in 0u8..=255 {
        let sb = Superblock {
            flags_06: f,
            current_lsn: 0,
            format_major: 3,
            magic: SA_MAGIC,
            version_a: 201,
            version_b: 12,
            page_count_hint: 0,
            sa_marker_present: false,
        };
        let v = sb.flags_06_variant_bits();
        assert_eq!(v & FLAGS_06_BASE, 0);
        assert_eq!(v | (f & FLAGS_06_BASE), f);
    }
}

/// A catalog page with a slot directory at `0x12` (after a leading zero
/// word at `0x10`): eight live offsets, one deleted slot, then a word that
/// is no row offset.
fn slotted_page() -> Vec<u8> {
    let mut page = vec![0u8; PAGE_SIZE];
    let slots: [u16; 10] = [
        0x0F00, 0x0E00, 0x0000, 0x0D00, 0x0C00, 0x0B00, 0x0A00, 0x0900, 0x0800, 0xFFFF,
    ];
    for (k, s) in slots.iter().enumerate() {
        let at = 0x12 + 2 * k;
        page[at..at + 2].copy_from_slice(&s.to_le_bytes());
    }
    for (k, off) in [0x800usize, 0x900, 0xA00, 0xB00, 0xC00, 0xD00, 0xE00, 0xF00]
        .iter()
        .enumerate()
    {
        page[*off] = 0xA0 + k as u8;
    }
    page[0xFF2] = b'C';
    stamp_crc(&mut page);
    page
}

#[test]
fn slot_directory_is_found() {
    let store = store_of(&[slotted_page()]);
    let sp = SlottedPage::parse(store.page(0).unwrap());
    let dir = sp.directory.clone().expect("directory");
    assert_eq!(dir.scan_start, 0x10);
    assert_eq!(dir.array_start, 0x12);
    assert_eq!(dir.end, 0x24);
    assert!(dir.leading_zero);
    assert_eq!(
        dir.slots,
        vec![0x0F00, 0x0E00, 0, 0x0D00, 0x0C00, 0x0B00, 0x0A00, 0x0900, 0x0800]
    );
    assert_eq!(
        dir.live_slots(),
        vec![0x0F00, 0x0E00, 0x0D00, 0x0C00, 0x0B00, 0x0A00, 0x0900, 0x0800]
    );
    assert_eq!(dir.live_count(), 8);
    assert_eq!(dir.deleted_count(), 1);
    assert_eq!(dir.min_offset(), Some(0x0800));
}

#[test]
fn rows_come_in_array_order() {
    let page = slotted_page();
    let store = store_of(&[page.clone()]);
    let sp = SlottedPage::parse(store.page(0).unwrap());
    let rows = sp.row_bytes();
    assert_eq!(rows.len(), 8);
    let offs: Vec<u16> = rows.iter().map(|(o, _)| *o).collect();
    assert_eq!(
        offs,
        vec![0x0F00, 0x0E00, 0x0D00, 0x0C00, 0x0B00, 0x0A00, 0x0900, 0x0800]
    );
    for (off, body) in rows.iter() {
        let start = *off as usize;
        // Each row runs to the next greater live offset, or to the trailer.
        let end = if start == 0x0F00 { 0xFF0 } else { start + 0x100 };
        assert_eq!(*body, &page[start..end]);
        assert_eq!(body[0], 0xA0 + ((start - 0x800) / 0x100) as u8);
    }
    assert_eq!(rows[0].1.len(), 0xF0);
}

#[test]
fn free_space_after_the_directory_is_not_deleted_slots() {
    let mut page = vec![0u8; PAGE_SIZE];
    for k in 0..8usize {
        let v = 0x0F00u16 - 0x100 * k as u16;
        page[0x100 + 2 * k..0x102 + 2 * k].copy_from_slice(&v.to_le_bytes());
    }
    let store = store_of(&[page]);
    let sp = SlottedPage::parse(store.page(0).unwrap());
    let d = sp.directory.expect("directory");
    assert_eq!(d.scan_start, 0xFE);
    assert!(d.leading_zero);
    assert_eq!(d.array_start, 0x100);
    assert_eq!(d.end, 0x110);
    assert_eq!(
        d.slots,
        vec![0x0F00, 0x0E00, 0x0D00, 0x0C00, 0x0B00, 0x0A00, 0x0900, 0x0800]
    );
    assert_eq!(d.deleted_count(), 0);
}

#[test]
fn deleted_slots_lie_between_live_entries() {
    let d = SlotDirectory {
        scan_start: 0,
        array_start: 0,
        end: 16,
        slots: vec![0, 0x0900, 0, 0, 0x0800, 0, 0x0700, 0],
        leading_zero: false,
    };
    assert_eq!(d.deleted_count(), 3);
    assert_eq!(d.live_count(), 3);
    let none = SlotDirectory {
        scan_start: 0,
        array_start: 0,
        end: 6,
        slots: vec![0, 0, 0],
        leading_zero: false,
    };
    assert_eq!(none.deleted_count(), 0);
}

#[test]
fn overflow_prefix_before_the_directory() {
    let clean = slotted_page();
    let mut spill = slotted_page();
    spill[0x03] = 0x77;
    stamp_crc(&mut spill);
    let store = store_of(&[clean, spill.clone()]);
    let a = SlottedPage::parse(store.page(0).unwrap());
    assert!(a.overflow_prefix().is_none());
    let b = SlottedPage::parse(store.page(1).unwrap());
    assert_eq!(b.overflow_prefix(), Some(&spill[0..0x12]));
}

#[test]
fn too_few_live_slots_give_no_directory() {
    let mut page = vec![0u8; PAGE_SIZE];
    let slots: [u16; 8] = [0x0F00, 0x0E00, 0x0D00, 0x0C00, 0x0B00, 0x0A00, 0x0900, 0xFFFF];
    for (k, s) in slots.iter().enumerate() {
        let at = 0x40 + 2 * k;
        page[at..at + 2].copy_from_slice(&s.to_le_bytes());
    }
    let store = store_of(&[page]);
    let sp = SlottedPage::parse(store.page(0).unwrap());
    assert!(sp.directory.is_none());
    assert!(sp.row_bytes().is_empty());
    assert!(sp.overflow_prefix().is_none());
}

#[test]
fn pages_are_the_slices_of_the_image() {
    let mut image = Vec::new();
    for k in 0..3u8 {
        let mut p = vec![k; PAGE_SIZE];
        p[0] = 0xF0 | k;
        image.extend_from_slice(&p);
    }
    let store = PageStore::from_bytes(image.clone()).unwrap();
    for i in 0..3u64 {
        let start = i as usize * PAGE_SIZE;
        assert_eq!(store.page(i).unwrap().bytes(), &image[start..start + PAGE_SIZE]);
    }
}

#[test]
fn io_errors_convert_into_the_library_error() {
    let e: Error = std::io::Error::new(std::io::ErrorKind::NotFound, "missing").into();
    match e {
        Error::Io(inner) => assert_eq!(inner.kind(), std::io::ErrorKind::NotFound),
        other => panic!("expected Io, got {:?}", other),
    }
}
