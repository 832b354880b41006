use opensqlany::{Superblock, FLAGS_06_BASE, SA_MAGIC};

fn sb_with_flags(flags_06: u8) -> Superblock {
    Superblock {
        flags_06,
        current_lsn: 0,
        format_major: 3,
        magic: SA_MAGIC,
        version_a: 201,
        version_b: 12,
        page_count_hint: 0,
        sa_marker_present: true,
    }
}

#[test]
fn flags_06_variant_bits_base_is_zero() {
    assert_eq!(sb_with_flags(FLAGS_06_BASE).flags_06_variant_bits(), 0x00);
}

#[test]
fn flags_06_variant_bits_recovers_known_bits() {
    // 0x49 = base | bit 6.
    assert_eq!(sb_with_flags(0x49).flags_06_variant_bits(), 0x40);
    // 0x29 = base | bit 5.
    assert_eq!(sb_with_flags(0x29).flags_06_variant_bits(), 0x20);
}
