//! The bits of an L2 entry.

use qcow2::entry::{
    decode_compressed_descriptor, decode_l2_entry, l2_entry_for, split_virtual, ClusterMap,
    COMPRESSED_SECTOR_SIZE, L2_FLAG_COMPRESSED, L2_FLAG_COPIED, L2_FLAG_ZERO, OFFSET_MASK,
};
use qcow2::{Error, Header};

/// The entry of a compressed cluster: what the decoder has to take apart. The count is
/// of sectors after the one that holds `host_off`.
fn encode_compressed_descriptor(host_off: u64, compressed_len: u64, cluster_bits: u32) -> u64 {
    let offset_bits = 62 - (cluster_bits - 8);
    let first_sector_start = (host_off / COMPRESSED_SECTOR_SIZE) * COMPRESSED_SECTOR_SIZE;
    let end = host_off + compressed_len;
    let sectors = (end - first_sector_start).div_ceil(COMPRESSED_SECTOR_SIZE);
    let additional = sectors - 1;
    (additional << offset_bits) | host_off | L2_FLAG_COMPRESSED
}

#[test]
fn a_single_sector_payload_decodes_to_one_sector() {
    let entry = encode_compressed_descriptor(4096 * 3, 400, 12);
    assert_eq!(decode_compressed_descriptor(entry, 12), (4096 * 3, 512));
}

#[test]
fn a_multi_sector_payload_decodes_to_every_sector_it_covers() {
    for (len, expected_span) in [(512u64, 512usize), (513, 1024), (1024, 1024), (1025, 1536)] {
        let entry = encode_compressed_descriptor(4096 * 3, len, 12);
        let (host, span) = decode_compressed_descriptor(entry, 12);
        assert_eq!(host, 4096 * 3, "host offset for len {len}");
        assert_eq!(span, expected_span, "span for len {len}");
    }
}

#[test]
fn an_unaligned_host_offset_shortens_the_span_by_its_remainder() {
    let entry = encode_compressed_descriptor(4096 * 3 + 100, 300, 12);
    assert_eq!(
        decode_compressed_descriptor(entry, 12),
        (4096 * 3 + 100, 412)
    );

    let entry = encode_compressed_descriptor(4096 * 3 + 100, 500, 12);
    assert_eq!(
        decode_compressed_descriptor(entry, 12),
        (4096 * 3 + 100, 924)
    );
}

#[test]
fn the_offset_field_width_tracks_the_cluster_size() {
    for cluster_bits in [9u32, 12, 16, 21] {
        let host = 1u64 << 20;
        let entry = encode_compressed_descriptor(host, 1000, cluster_bits);
        let (decoded_host, span) = decode_compressed_descriptor(entry, cluster_bits);
        assert_eq!(decoded_host, host, "host at cluster_bits {cluster_bits}");
        assert_eq!(span, 1024, "span at cluster_bits {cluster_bits}");
    }
}

#[test]
fn an_unaligned_host_offset_cannot_bleed_into_the_flag_bits() {
    let aligned = 4096u64 * 7;
    assert_eq!(l2_entry_for(aligned), aligned | L2_FLAG_COPIED);

    let entry = l2_entry_for(aligned | 0x1FF);
    assert_eq!(entry & OFFSET_MASK, aligned, "offset is unchanged");
    assert_eq!(
        entry & L2_FLAG_ZERO,
        0,
        "bit 0 did not become the zero flag"
    );
    assert_eq!(entry & L2_FLAG_COMPRESSED, 0, "bit 62 is clear");
    assert_ne!(entry & L2_FLAG_COPIED, 0, "COPIED is set");
}

#[test]
fn the_offset_mask_is_exactly_bits_9_through_55() {
    let all_bits_below_56 = (1u64 << 56) - 1;
    let bits_below_9 = (1u64 << 9) - 1;
    assert_eq!(OFFSET_MASK, all_bits_below_56 & !bits_below_9);

    assert_ne!(OFFSET_MASK & (1 << 9), 0, "bit 9 is part of the offset");
    assert_ne!(OFFSET_MASK & (1 << 55), 0, "bit 55 is part of the offset");
    assert_eq!(OFFSET_MASK & (1 << 8), 0, "bit 8 is not");
    assert_eq!(OFFSET_MASK & (1 << 56), 0, "bit 56 is not");
}

/// A header with clusters of 4096 bytes and a disk of 8 MiB.
fn header(version: u32) -> Header {
    let mut b = vec![0u8; 112];
    b[0..4].copy_from_slice(b"QFI\xfb");
    b[4..8].copy_from_slice(&version.to_be_bytes());
    b[20..24].copy_from_slice(&12u32.to_be_bytes());
    b[24..32].copy_from_slice(&(8u64 << 20).to_be_bytes());
    b[36..40].copy_from_slice(&4u32.to_be_bytes());
    b[96..100].copy_from_slice(&4u32.to_be_bytes());
    b[100..104].copy_from_slice(&104u32.to_be_bytes());
    Header::parse(&b).unwrap()
}

#[test]
fn an_l2_entry_says_one_of_four_things() {
    let h = header(3);
    assert_eq!(decode_l2_entry(&h, 0).unwrap(), ClusterMap::Unallocated);
    assert_eq!(
        decode_l2_entry(&h, L2_FLAG_COPIED).unwrap(),
        ClusterMap::Unallocated
    );
    assert_eq!(decode_l2_entry(&h, L2_FLAG_ZERO).unwrap(), ClusterMap::Zero);
    assert_eq!(
        decode_l2_entry(&h, 0x7000 | L2_FLAG_ZERO).unwrap(),
        ClusterMap::Zero
    );
    assert_eq!(
        decode_l2_entry(&h, 0x7000).unwrap(),
        ClusterMap::Plain {
            host_off: 0x7000,
            copied: false
        }
    );
    assert_eq!(
        decode_l2_entry(&h, l2_entry_for(0x7000)).unwrap(),
        ClusterMap::Plain {
            host_off: 0x7000,
            copied: true
        }
    );
    assert_eq!(
        decode_l2_entry(&h, encode_compressed_descriptor(0x3064, 500, 12)).unwrap(),
        ClusterMap::Compressed {
            host_off: 0x3064,
            byte_len: 924
        }
    );
}

#[test]
fn version_2_knows_no_zero_flag() {
    let h = header(2);
    assert_eq!(
        decode_l2_entry(&h, L2_FLAG_ZERO).unwrap(),
        ClusterMap::Unallocated
    );
    assert_eq!(
        decode_l2_entry(&h, 0x7000 | L2_FLAG_ZERO).unwrap(),
        ClusterMap::Plain {
            host_off: 0x7000,
            copied: false
        }
    );
}

#[test]
fn an_entry_that_points_into_a_cluster_is_refused() {
    let h = header(3);
    for off in [0x200u64, 0x7200, 0x7e00] {
        match decode_l2_entry(&h, off | L2_FLAG_COPIED) {
            Err(Error::Corrupt(m)) => {
                assert_eq!(m, "l2 entry points into the middle of a cluster")
            }
            other => panic!("{off:#x}: expected Corrupt, got {other:?}"),
        }
    }
}

#[test]
fn the_parts_of_an_address_put_together_give_the_byte() {
    let h = header(3);
    for v in [0u64, 1, 4095, 4096, (2 << 20) - 1, 2 << 20, (8 << 20) - 1] {
        let a = split_virtual(&h, v);
        assert_eq!(a.virt_cluster, a.l1_index as u64 * 512 + a.l2_index as u64);
        assert_eq!(v, a.virt_cluster * 4096 + a.offset_in_cluster);
        assert!(a.l1_index < 4 && a.l2_index < 512 && a.offset_in_cluster < 4096);
    }
    let a = split_virtual(&h, (2 << 20) + 3 * 4096 + 5);
    assert_eq!(
        (a.virt_cluster, a.l1_index, a.l2_index, a.offset_in_cluster),
        (515, 1, 3, 5)
    );
}
