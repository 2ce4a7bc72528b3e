//! Parsing a header, and what is refused.

use qcow2::header::incompat;
use qcow2::header::offsets as at;
use qcow2::header::QCOW2_MAGIC;
use qcow2::{Error, Header};

#[test]
fn offsets_match_the_published_specification() {
    assert_eq!(at::MAGIC, 0);
    assert_eq!(at::VERSION, 4);
    assert_eq!(at::BACKING_FILE_OFFSET, 8);
    assert_eq!(at::BACKING_FILE_SIZE, 16);
    assert_eq!(at::CLUSTER_BITS, 20);
    assert_eq!(at::SIZE, 24);
    assert_eq!(at::CRYPT_METHOD, 32);
    assert_eq!(at::L1_SIZE, 36);
    assert_eq!(at::L1_TABLE_OFFSET, 40);
    assert_eq!(at::REFCOUNT_TABLE_OFFSET, 48);
    assert_eq!(at::REFCOUNT_TABLE_CLUSTERS, 56);
    assert_eq!(at::NB_SNAPSHOTS, 60);
    assert_eq!(at::SNAPSHOTS_OFFSET, 64);
    assert_eq!(at::INCOMPATIBLE_FEATURES, 72);
    assert_eq!(at::COMPATIBLE_FEATURES, 80);
    assert_eq!(at::AUTOCLEAR_FEATURES, 88);
    assert_eq!(at::REFCOUNT_ORDER, 96);
    assert_eq!(at::HEADER_LENGTH, 100);
    assert_eq!(at::V3_BASE_HEADER_LENGTH, 104);
    assert_eq!(at::COMPRESSION_TYPE, 104);
    assert_eq!(at::v2_implicit::REFCOUNT_ORDER, 4);
    assert_eq!(at::v2_implicit::HEADER_LENGTH, 72);
}

#[test]
fn no_header_field_overlaps_its_neighbour() {
    let fields = [
        (at::MAGIC, 4),
        (at::VERSION, 4),
        (at::BACKING_FILE_OFFSET, 8),
        (at::BACKING_FILE_SIZE, 4),
        (at::CLUSTER_BITS, 4),
        (at::SIZE, 8),
        (at::CRYPT_METHOD, 4),
        (at::L1_SIZE, 4),
        (at::L1_TABLE_OFFSET, 8),
        (at::REFCOUNT_TABLE_OFFSET, 8),
        (at::REFCOUNT_TABLE_CLUSTERS, 4),
        (at::NB_SNAPSHOTS, 4),
        (at::SNAPSHOTS_OFFSET, 8),
        (at::INCOMPATIBLE_FEATURES, 8),
        (at::COMPATIBLE_FEATURES, 8),
        (at::AUTOCLEAR_FEATURES, 8),
        (at::REFCOUNT_ORDER, 4),
        (at::HEADER_LENGTH, 4),
        (at::COMPRESSION_TYPE, 1),
    ];
    let mut reached = 0usize;
    for (start, width) in fields {
        assert!(
            start >= reached,
            "field at {start} overlaps the one ending at {reached}"
        );
        reached = start + width;
    }
    assert_eq!(at::V3_BASE_HEADER_LENGTH as usize, at::COMPRESSION_TYPE);
}


#[test]
fn rejects_bad_magic() {
    let bytes = [0u8; 104];
    assert!(matches!(Header::parse(&bytes), Err(Error::NotQcow2)));
}

#[test]
fn rejects_bad_version() {
    let mut bytes = [0u8; 104];
    bytes[0..4].copy_from_slice(&QCOW2_MAGIC.to_be_bytes());
    bytes[4..8].copy_from_slice(&7u32.to_be_bytes());
    assert!(matches!(
        Header::parse(&bytes),
        Err(Error::UnsupportedVersion(7))
    ));
}

/// A version 3 header: clusters of 64 KiB, a disk of 1 MiB.
fn valid_v3_header() -> Vec<u8> {
    let mut b = vec![0u8; 112];
    b[0..4].copy_from_slice(&QCOW2_MAGIC.to_be_bytes());
    b[4..8].copy_from_slice(&3u32.to_be_bytes());
    b[20..24].copy_from_slice(&16u32.to_be_bytes());
    b[24..32].copy_from_slice(&(1u64 << 20).to_be_bytes());
    b[36..40].copy_from_slice(&1u32.to_be_bytes());
    b[96..100].copy_from_slice(&4u32.to_be_bytes());
    b[100..104].copy_from_slice(&112u32.to_be_bytes());
    b
}

fn set_u32(b: &mut [u8], off: usize, v: u32) {
    b[off..off + 4].copy_from_slice(&v.to_be_bytes());
}
fn set_u64(b: &mut [u8], off: usize, v: u64) {
    b[off..off + 8].copy_from_slice(&v.to_be_bytes());
}

#[test]
fn parses_valid_v3_header_fields() {
    let h = Header::parse(&valid_v3_header()).unwrap();
    assert_eq!(h.version, 3);
    assert_eq!(h.cluster_bits, 16);
    assert_eq!(h.cluster_size, 1 << 16);
    assert_eq!(h.virtual_size, 1 << 20);
    assert_eq!(h.refcount_order, 4);
    assert_eq!(h.l2_entries(), (1 << 16) / 8);
    h.check_supported().unwrap();
}

#[test]
fn v2_header_uses_implicit_defaults() {
    let mut b = valid_v3_header();
    set_u32(&mut b, 4, 2);
    let h = Header::parse(&b).unwrap();
    assert_eq!(h.incompatible_features, 0);
    assert_eq!(h.refcount_order, 4);
    assert_eq!(h.header_length, 72);
    assert_eq!(h.compression_type, 0);
    h.check_supported().unwrap();
}

#[test]
fn rejects_cluster_bits_outside_9_to_21() {
    for bad in [0u32, 8, 22, 31] {
        let mut b = valid_v3_header();
        set_u32(&mut b, 20, bad);
        match Header::parse(&b) {
            Err(Error::InvalidClusterBits(v)) => assert_eq!(v, bad),
            other => panic!("cluster_bits {bad}: expected InvalidClusterBits, got {other:?}"),
        }
    }
    for ok in [9u32, 21] {
        let mut b = valid_v3_header();
        set_u32(&mut b, 20, ok);
        set_u64(&mut b, 24, 16 * 1024);
        Header::parse(&b).unwrap_or_else(|e| panic!("cluster_bits {ok} should parse: {e:?}"));
    }
}

#[test]
fn rejects_l1_size_too_small_for_virtual_size() {
    let mut b = valid_v3_header();
    set_u64(&mut b, 24, 2u64 << 30);
    match Header::parse(&b) {
        Err(Error::Corrupt(_)) => {}
        other => panic!("expected Corrupt(l1_size too small), got {other:?}"),
    }
}

#[test]
fn rejects_v3_header_shorter_than_104_bytes() {
    let mut b = valid_v3_header();
    b.truncate(96);
    match Header::parse(&b) {
        Err(Error::Corrupt(_)) => {}
        other => panic!("expected Corrupt, got {other:?}"),
    }
}

#[test]
fn compression_type_byte_only_read_when_header_is_long_enough() {
    let mut b = valid_v3_header();
    set_u32(&mut b, 100, 104);
    b[104] = 1;
    let h = Header::parse(&b).unwrap();
    assert_eq!(
        h.compression_type, 0,
        "byte past header_length must be ignored"
    );
}

#[test]
fn check_supported_rejects_encryption() {
    let mut b = valid_v3_header();
    set_u32(&mut b, 32, 1);
    let h = Header::parse(&b).unwrap();
    match h.check_supported() {
        Err(Error::Unsupported(m)) => assert!(m.contains("encryption")),
        other => panic!("expected Unsupported(encryption), got {other:?}"),
    }
}

#[test]
fn check_supported_rejects_external_data_file() {
    let mut b = valid_v3_header();
    set_u64(&mut b, 72, incompat::DATA_FILE);
    let h = Header::parse(&b).unwrap();
    match h.check_supported() {
        Err(Error::Unsupported(m)) => assert_eq!(m, "external data file"),
        other => panic!("expected Unsupported(external data file), got {other:?}"),
    }
}

#[test]
fn check_supported_rejects_extended_l2() {
    let mut b = valid_v3_header();
    set_u64(&mut b, 72, incompat::EXTENDED_L2);
    let h = Header::parse(&b).unwrap();
    match h.check_supported() {
        Err(Error::Unsupported(m)) => assert_eq!(m, "extended L2 entries"),
        other => panic!("expected Unsupported(extended L2 entries), got {other:?}"),
    }
}

#[test]
fn check_supported_rejects_unknown_incompatible_bit() {
    let mut b = valid_v3_header();
    set_u64(&mut b, 72, 1 << 20);
    let h = Header::parse(&b).unwrap();
    match h.check_supported() {
        Err(Error::Unsupported(m)) => assert_eq!(m, "unknown incompatible_features bit"),
        other => panic!("expected Unsupported(unknown bit), got {other:?}"),
    }
}

#[test]
fn check_supported_rejects_unknown_compression_type() {
    let mut b = valid_v3_header();
    set_u64(&mut b, 72, incompat::COMPRESSION_TYPE);
    b[104] = 2;
    let h = Header::parse(&b).unwrap();
    match h.check_supported() {
        Err(Error::Unsupported(m)) => assert_eq!(m, "unknown compression_type"),
        other => panic!("expected Unsupported(unknown compression_type), got {other:?}"),
    }
}

#[test]
fn check_supported_accepts_zstd_with_compression_type_bit() {
    let mut b = valid_v3_header();
    set_u64(&mut b, 72, incompat::COMPRESSION_TYPE);
    b[104] = 1;
    let h = Header::parse(&b).unwrap();
    assert_eq!(h.compression_type, 1);
    h.check_supported().expect("zstd is supported");
}

#[test]
fn check_supported_rejects_bad_compression_type_even_without_the_flag() {
    let mut b = valid_v3_header();
    b[104] = 2;
    let h = Header::parse(&b).unwrap();
    match h.check_supported() {
        Err(Error::Unsupported(m)) => assert_eq!(m, "unknown compression_type"),
        other => panic!("expected Unsupported(unknown compression_type), got {other:?}"),
    }
}

#[test]
fn check_supported_tolerates_dirty_and_corrupt_advisory_bits() {
    let mut b = valid_v3_header();
    set_u64(&mut b, 72, incompat::DIRTY | incompat::CORRUPT);
    let h = Header::parse(&b).unwrap();
    h.check_supported().expect("dirty/corrupt are tolerated");
}

#[test]
fn a_header_of_less_than_72_bytes_is_refused() {
    match Header::parse(&valid_v3_header()[..71]) {
        Err(Error::Corrupt(m)) => assert_eq!(m, "header shorter than 72 bytes"),
        other => panic!("expected Corrupt, got {other:?}"),
    }
    let mut b = valid_v3_header();
    set_u32(&mut b, 4, 2);
    b.truncate(72);
    assert_eq!(Header::parse(&b).unwrap().version, 2);
}

#[test]
fn the_l1_table_has_to_reach_the_last_byte_and_no_further() {
    let span = (1u64 << 16) * (1 << 13);
    let mut b = valid_v3_header();
    set_u64(&mut b, 24, span);
    assert_eq!(Header::parse(&b).unwrap().virtual_size, span);
    set_u64(&mut b, 24, span + 1);
    assert!(matches!(
        Header::parse(&b),
        Err(Error::Corrupt("l1_size too small for virtual_size"))
    ));
    set_u32(&mut b, 36, 2);
    Header::parse(&b).unwrap();
}

#[test]
fn every_field_is_found_where_it_is() {
    let mut b = valid_v3_header();
    set_u64(&mut b, 8, 0x1122_3344_5566_7788);
    set_u32(&mut b, 16, 7);
    set_u64(&mut b, 40, 0x30000);
    set_u64(&mut b, 48, 0x10000);
    set_u32(&mut b, 56, 5);
    set_u32(&mut b, 60, 2);
    set_u64(&mut b, 64, 0x50000);
    set_u64(&mut b, 80, 9);
    set_u64(&mut b, 88, 11);
    let h = Header::parse(&b).unwrap();
    assert_eq!(h.backing_file_offset, 0x1122_3344_5566_7788);
    assert_eq!(h.backing_file_size, 7);
    assert_eq!(h.l1_size, 1);
    assert_eq!(h.l1_table_offset, 0x30000);
    assert_eq!(h.refcount_table_offset, 0x10000);
    assert_eq!(h.refcount_table_clusters, 5);
    assert_eq!(h.nb_snapshots, 2);
    assert_eq!(h.snapshots_offset, 0x50000);
    assert_eq!(h.compatible_features, 9);
    assert_eq!(h.autoclear_features, 11);
    assert_eq!(h.header_length, 112);
}

#[test]
fn flags_are_advisory_to_a_reader_and_not_to_a_writer() {
    let mut b = valid_v3_header();
    let h = Header::parse(&b).unwrap();
    assert!(!h.is_corrupt() && !h.has_dirty_refcounts());
    h.check_writable().unwrap();
    set_u64(&mut b, 72, incompat::DIRTY);
    let h = Header::parse(&b).unwrap();
    assert!(!h.is_corrupt() && h.has_dirty_refcounts());
    match h.check_writable() {
        Err(Error::Unsupported(m)) => assert!(m.contains("dirty")),
        other => panic!("expected Unsupported, got {other:?}"),
    }
    set_u64(&mut b, 72, incompat::CORRUPT);
    let h = Header::parse(&b).unwrap();
    assert!(h.is_corrupt() && !h.has_dirty_refcounts());
    match h.check_writable() {
        Err(Error::Unsupported(m)) => assert!(m.contains("corrupt")),
        other => panic!("expected Unsupported, got {other:?}"),
    }
}

#[test]
fn tables_lie_on_clusters_and_on_the_device() {
    let mut b = valid_v3_header();
    set_u64(&mut b, 40, 0x10000);
    set_u64(&mut b, 48, 0x20000);
    set_u32(&mut b, 56, 1);
    let h = Header::parse(&b).unwrap();
    h.check_layout(0x30000).unwrap();
    assert!(matches!(
        h.check_layout(0x2ffff),
        Err(Error::Corrupt("refcount table runs past the end of the image"))
    ));
    assert!(matches!(
        h.check_layout(0x10007),
        Err(Error::Corrupt("l1 table runs past the end of the image"))
    ));
    set_u64(&mut b, 40, 0x10200);
    assert!(matches!(
        Header::parse(&b).unwrap().check_layout(0x30000),
        Err(Error::Corrupt("l1_table_offset is not cluster-aligned"))
    ));
    set_u64(&mut b, 40, 0x10000);
    set_u64(&mut b, 48, 0x20001);
    assert!(matches!(
        Header::parse(&b).unwrap().check_layout(0x40000),
        Err(Error::Corrupt("refcount_table_offset is not cluster-aligned"))
    ));
    set_u64(&mut b, 48, u64::MAX - 0xffff);
    assert!(matches!(
        Header::parse(&b).unwrap().check_layout(u64::MAX),
        Err(Error::Corrupt("refcount table runs past the end of the image"))
    ));
}

#[test]
fn the_name_of_the_backing_file_starts_in_the_first_cluster() {
    let mut b = valid_v3_header();
    assert!(!Header::parse(&b).unwrap().has_backing_name());
    set_u64(&mut b, 8, 65535);
    set_u32(&mut b, 16, 12);
    let h = Header::parse(&b).unwrap();
    assert!(h.has_backing_name());
    h.check_backing_name().unwrap();
    set_u64(&mut b, 8, 65536);
    assert!(matches!(
        Header::parse(&b).unwrap().check_backing_name(),
        Err(Error::Corrupt("backing file name is not within the first cluster"))
    ));
    set_u64(&mut b, 8, 0x100);
    set_u32(&mut b, 16, 1024);
    Header::parse(&b).unwrap().check_backing_name().unwrap();
    set_u32(&mut b, 16, 1025);
    assert!(matches!(
        Header::parse(&b).unwrap().check_backing_name(),
        Err(Error::Corrupt("backing_file_size > 1024 bytes"))
    ));
}
