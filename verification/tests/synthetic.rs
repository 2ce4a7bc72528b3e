//! Whole images, built byte by byte, read and written through the library.
//!
//! The standard layout, with clusters of 4096 bytes:
//!
//!   cluster 0   header
//!   cluster 1   L1 table (1 entry)
//!   cluster 2   L2 table
//!   cluster 3   data of virtual cluster 0   (0xAA)
//!   cluster 4   data of virtual cluster 2   (0xBB)
//!   cluster 5   refcount table
//!   cluster 6   refcount block
//!
//!   virt 0  -> data at cluster 3
//!   virt 1  -> unallocated
//!   virt 2  -> data at cluster 4
//!   virt 3  -> zero flag

use flate2::write::DeflateEncoder;
use flate2::Compression;
use qcow2::{ChainBuilder, ClusterStatus, Error, Extent, MemDevice, Qcow2Reader};
use std::io::Write;

const QCOW2_MAGIC: u32 = 0x5146_49fb;
const CLUSTER_SIZE: u64 = 4096;
const VIRT_SIZE: u64 = CLUSTER_SIZE * 4;

const L1_OFFSET: u64 = CLUSTER_SIZE;
const L2_OFFSET: u64 = CLUSTER_SIZE * 2;
const DATA0_OFFSET: u64 = CLUSTER_SIZE * 3;
const DATA2_OFFSET: u64 = CLUSTER_SIZE * 4;
const REFCOUNT_TABLE_OFFSET: u64 = CLUSTER_SIZE * 5;
const REFCOUNT_BLOCK_OFFSET: u64 = CLUSTER_SIZE * 6;

const TOTAL_CLUSTERS: u64 = 16;

const COPIED: u64 = 1u64 << 63;
const L2_FLAG_ZERO: u64 = 1;
const L2_FLAG_COMPRESSED: u64 = 1u64 << 62;
const HOST_OFFSET_MASK: u64 = 0x00ff_ffff_ffff_fe00;

type Reader = Qcow2Reader<MemDevice>;

fn put(b: &mut [u8], off: u64, bytes: &[u8]) {
    b[off as usize..off as usize + bytes.len()].copy_from_slice(bytes);
}

fn put16(b: &mut [u8], off: u64, v: u16) {
    put(b, off, &v.to_be_bytes());
}

fn put32(b: &mut [u8], off: u64, v: u32) {
    put(b, off, &v.to_be_bytes());
}

fn put64(b: &mut [u8], off: u64, v: u64) {
    put(b, off, &v.to_be_bytes());
}

fn get16(b: &[u8], off: u64) -> u16 {
    u16::from_be_bytes([b[off as usize], b[off as usize + 1]])
}

fn get64(b: &[u8], off: u64) -> u64 {
    let mut x = [0u8; 8];
    x.copy_from_slice(&b[off as usize..off as usize + 8]);
    u64::from_be_bytes(x)
}

/// A version 3 header with 4096-byte clusters and 16-bit counts.
fn put_header(b: &mut [u8], virt_size: u64, l1_size: u32, rt_off: u64) {
    put32(b, 0, QCOW2_MAGIC);
    put32(b, 4, 3);
    put32(b, 20, 12);
    put64(b, 24, virt_size);
    put32(b, 36, l1_size);
    put64(b, 40, L1_OFFSET);
    put64(b, 48, rt_off);
    put32(b, 56, 1);
    put32(b, 96, 4);
    put32(b, 100, 104);
}

/// The standard image.
fn build_image() -> Vec<u8> {
    let mut b = vec![0u8; (CLUSTER_SIZE * TOTAL_CLUSTERS) as usize];
    put_header(&mut b, VIRT_SIZE, 1, REFCOUNT_TABLE_OFFSET);
    put64(&mut b, L1_OFFSET, L2_OFFSET | COPIED);
    put64(&mut b, L2_OFFSET, DATA0_OFFSET | COPIED);
    put64(&mut b, L2_OFFSET + 16, DATA2_OFFSET | COPIED);
    put64(&mut b, L2_OFFSET + 24, COPIED | L2_FLAG_ZERO);
    put(&mut b, DATA0_OFFSET, &[0xAA; 4096]);
    put(&mut b, DATA2_OFFSET, &[0xBB; 4096]);
    put64(&mut b, REFCOUNT_TABLE_OFFSET, REFCOUNT_BLOCK_OFFSET);
    for k in 0..7 {
        put16(&mut b, REFCOUNT_BLOCK_OFFSET + k * 2, 1);
    }
    b
}

/// An image whose virtual cluster 0 is stored as `compressed`.
fn build_stored(compressed: &[u8]) -> Vec<u8> {
    let comp_host_off: u64 = CLUSTER_SIZE * 3;
    let span_bytes = compressed.len().div_ceil(512) * 512;
    let n_sectors_minus1 = ((span_bytes / 512) - 1) as u64;
    let x: u64 = 62 - (12 - 8);
    let entry = COPIED | L2_FLAG_COMPRESSED | comp_host_off | (n_sectors_minus1 << x);

    let span_clusters = (span_bytes.div_ceil(CLUSTER_SIZE as usize) as u64).max(1);
    let rt_cluster = 3 + span_clusters;
    let rb_cluster = rt_cluster + 1;
    let total_clusters = (rb_cluster + 8).max(16);
    let mut b = vec![0u8; (CLUSTER_SIZE * total_clusters) as usize];
    put_header(&mut b, VIRT_SIZE, 1, rt_cluster * CLUSTER_SIZE);
    put64(&mut b, L1_OFFSET, L2_OFFSET | COPIED);
    put64(&mut b, L2_OFFSET, entry);
    put(&mut b, comp_host_off, compressed);
    put64(&mut b, rt_cluster * CLUSTER_SIZE, rb_cluster * CLUSTER_SIZE);
    for k in 0..=rb_cluster {
        put16(&mut b, rb_cluster * CLUSTER_SIZE + k * 2, 1);
    }
    b
}

/// An image whose virtual cluster 0 is deflated, and all `pattern`.
fn build_compressed_image(pattern: u8) -> Vec<u8> {
    let plain = vec![pattern; CLUSTER_SIZE as usize];
    let mut enc = DeflateEncoder::new(Vec::new(), Compression::default());
    enc.write_all(&plain).unwrap();
    build_stored(&enc.finish().unwrap())
}

/// An image whose virtual cluster 0 is `plain` in a zstd frame.
fn build_zstd_image(plain: &[u8]) -> Vec<u8> {
    let compressed = zstd::stream::encode_all(plain, 0).unwrap();
    let mut b = build_stored(&compressed);
    put64(&mut b, 72, 1 << 3);
    put32(&mut b, 100, 112);
    b[104] = 1;
    b
}

/// An image with a backing file and the L2 entries given.
fn build_child_with_backing(backing: &str, l2_entries: &[(u64, u64)]) -> Vec<u8> {
    let mut b = vec![0u8; (CLUSTER_SIZE * 5) as usize];
    put_header(&mut b, VIRT_SIZE, 1, CLUSTER_SIZE * 3);
    put64(&mut b, 8, 0x200);
    put32(&mut b, 16, backing.len() as u32);
    put(&mut b, 0x200, backing.as_bytes());
    put64(&mut b, L1_OFFSET, L2_OFFSET | COPIED);
    for (idx, val) in l2_entries {
        put64(&mut b, L2_OFFSET + idx * 8, *val);
    }
    put64(&mut b, CLUSTER_SIZE * 3, CLUSTER_SIZE * 4);
    for k in 0..5 {
        put16(&mut b, CLUSTER_SIZE * 4 + k * 2, 1);
    }
    b
}

fn open(b: &[u8]) -> Reader {
    Qcow2Reader::open_on_device(MemDevice::read_only(b.to_vec())).unwrap()
}

fn open_rw(b: &[u8]) -> Reader {
    Qcow2Reader::open_rw_on_device(MemDevice::new(b.to_vec())).unwrap()
}

/// Opens `child`, which names `name` as its backing file, on `parent`.
fn open_pair(child: &[u8], name: &str, parent: &[u8], writable: bool) -> Reader {
    let mut chain = ChainBuilder::new(writable);
    let named = chain.add_layer(MemDevice::new(child.to_vec())).unwrap();
    assert_eq!(named.as_deref(), Some(name));
    assert_eq!(
        chain.add_layer(MemDevice::new(parent.to_vec())).unwrap(),
        None
    );
    chain.finish().unwrap()
}

/// Writes to an image, and returns what its device then holds.
fn after_write(b: &[u8], off: u64, data: &[u8]) -> Vec<u8> {
    let mut r = open_rw(b);
    r.write_at(off, data).unwrap();
    r.flush().unwrap();
    r.into_device().into_bytes()
}

fn read(r: &mut Reader, off: u64, len: usize) -> Vec<u8> {
    let mut buf = vec![0xFFu8; len];
    r.read_at(off, &mut buf).unwrap();
    buf
}

fn text(e: &Error) -> String {
    e.message()
}

#[test]
fn header_round_trip() {
    let r = open(&build_image());
    assert_eq!(r.version(), 3);
    assert_eq!(r.cluster_size(), 4096);
    assert_eq!(r.virtual_size(), VIRT_SIZE);
}

#[test]
fn allocated_cluster_reads_back_data() {
    let mut r = open(&build_image());
    let mut buf = vec![0u8; 4096];
    r.read_at(0, &mut buf).unwrap();
    assert!(
        buf.iter().all(|&b| b == 0xAA),
        "virt cluster 0 should be all 0xAA"
    );
    let mut buf = vec![0u8; 4096];
    r.read_at(8192, &mut buf).unwrap();
    assert!(
        buf.iter().all(|&b| b == 0xBB),
        "virt cluster 2 should be all 0xBB"
    );
}

#[test]
fn unallocated_cluster_reads_zeros() {
    let mut r = open(&build_image());
    let mut buf = vec![0xFFu8; 4096];
    r.read_at(4096, &mut buf).unwrap();
    assert!(
        buf.iter().all(|&b| b == 0),
        "unallocated cluster must read as zeros"
    );
}

#[test]
fn v3_zero_flag_reads_zeros() {
    let mut r = open(&build_image());
    let mut buf = vec![0xFFu8; 4096];
    r.read_at(12288, &mut buf).unwrap();
    assert!(
        buf.iter().all(|&b| b == 0),
        "v3 zero-flagged cluster must read as zeros"
    );
}

#[test]
fn cross_cluster_read() {
    let mut r = open(&build_image());
    let mut buf = vec![0u8; 8];
    r.read_at(4092, &mut buf).unwrap();
    assert_eq!(&buf[0..4], &[0xAA; 4]);
    assert_eq!(&buf[4..8], &[0x00; 4]);
}

#[test]
fn read_past_end_errors() {
    let mut r = open(&build_image());
    let mut buf = vec![0u8; 16];
    let err = r.read_at(VIRT_SIZE - 8, &mut buf).unwrap_err();
    assert!(matches!(
        err,
        Error::OutOfBounds {
            offset: 16376,
            len: 16,
            size: VIRT_SIZE
        }
    ));
}

#[test]
fn compressed_cluster_round_trip() {
    let mut r = open(&build_compressed_image(0xCC));
    let mut buf = vec![0u8; 4096];
    r.read_at(0, &mut buf).unwrap();
    assert!(
        buf.iter().all(|&b| b == 0xCC),
        "decompressed cluster must match input pattern"
    );
    // Again, out of the cache.
    let mut buf2 = vec![0u8; 16];
    r.read_at(2048, &mut buf2).unwrap();
    assert!(buf2.iter().all(|&b| b == 0xCC));
}

#[test]
fn backing_fallthrough_returns_parent_data() {
    let child = build_child_with_backing("parent.qcow2", &[]);
    let mut r = open_pair(&child, "parent.qcow2", &build_image(), false);
    assert!(r.has_backing());
    let mut buf = vec![0u8; 4096];
    r.read_at(0, &mut buf).unwrap();
    assert!(
        buf.iter().all(|&b| b == 0xAA),
        "unallocated child cluster should fall through to parent's 0xAA"
    );
}

#[test]
fn child_zero_flag_suppresses_backing() {
    let child = build_child_with_backing("parent.qcow2", &[(0, COPIED | L2_FLAG_ZERO)]);
    let mut r = open_pair(&child, "parent.qcow2", &build_image(), false);
    let mut buf = vec![0xFFu8; 4096];
    r.read_at(0, &mut buf).unwrap();
    assert!(
        buf.iter().all(|&b| b == 0),
        "v3 zero flag must override the backing chain"
    );
}

#[test]
fn backing_too_deep_for_self_reference() {
    let cycle = build_child_with_backing("cycle.qcow2", &[]);
    let mut chain = ChainBuilder::new(false);
    let mut layers = 0;
    let err = loop {
        match chain.add_layer(MemDevice::new(cycle.clone())) {
            Ok(name) => {
                assert_eq!(name.as_deref(), Some("cycle.qcow2"));
                layers += 1;
            }
            Err(e) => break e,
        }
    };
    assert!(matches!(err, Error::BackingTooDeep));
    assert_eq!(layers, 16);
}

#[test]
fn write_to_allocated_cluster_round_trip() {
    let b = build_image();
    let mut r = open_rw(&b);
    assert!(r.is_writable());
    r.write_at(64, &[0x11, 0x22, 0x33, 0x44]).unwrap();
    r.flush().unwrap();
    let after = r.into_device().into_bytes();

    let mut r = open(&after);
    let mut buf = [0u8; 8];
    r.read_at(60, &mut buf).unwrap();
    assert_eq!(buf, [0xAA, 0xAA, 0xAA, 0xAA, 0x11, 0x22, 0x33, 0x44]);
    let mut tail = [0u8; 4];
    r.read_at(72, &mut tail).unwrap();
    assert_eq!(tail, [0xAA; 4]);
}

#[test]
fn write_to_unallocated_cluster_allocates_phase_b() {
    let after = after_write(&build_image(), 4096 + 200, &[0xDE, 0xAD, 0xBE, 0xEF]);
    let mut r = open(&after);
    let mut buf = [0u8; 4];
    r.read_at(4096 + 200, &mut buf).unwrap();
    assert_eq!(buf, [0xDE, 0xAD, 0xBE, 0xEF]);
    let mut head = [0xFFu8; 8];
    r.read_at(4096, &mut head).unwrap();
    assert!(head.iter().all(|&b| b == 0));
    let mut tail = [0xFFu8; 8];
    r.read_at(4096 + 204, &mut tail).unwrap();
    assert!(tail.iter().all(|&b| b == 0));
}

#[test]
fn write_to_unallocated_cluster_of_backed_image_copies_up_from_parent() {
    let parent = build_image();
    let child = build_child_with_backing("parent.qcow2", &[]);
    let mut r = open_pair(&child, "parent.qcow2", &parent, true);
    assert!(r.has_backing());
    r.write_at(200, &[0xDE, 0xAD, 0xBE, 0xEF]).unwrap();
    r.flush().unwrap();
    let after = r.into_device().into_bytes();

    let mut r = open_pair(&after, "parent.qcow2", &parent, false);
    assert_eq!(
        r.cluster_status_at(0).unwrap(),
        ClusterStatus::Allocated,
        "the write must have allocated the cluster in the child"
    );
    let mut cluster = vec![0u8; CLUSTER_SIZE as usize];
    r.read_at(0, &mut cluster).unwrap();
    assert_eq!(
        &cluster[200..204],
        &[0xDE, 0xAD, 0xBE, 0xEF],
        "the caller's payload"
    );
    assert!(
        cluster[..200].iter().all(|&b| b == 0xAA),
        "head of the cluster must still hold the parent's 0xAA, got {:02x?}",
        &cluster[..8]
    );
    assert!(
        cluster[204..].iter().all(|&b| b == 0xAA),
        "tail of the cluster must still hold the parent's 0xAA, got {:02x?}",
        &cluster[204..212]
    );
}

#[test]
fn write_to_zero_flagged_cluster_of_backed_image_does_not_copy_up() {
    let parent = build_image();
    let child = build_child_with_backing("parent.qcow2", &[(0, COPIED | L2_FLAG_ZERO)]);
    let mut r = open_pair(&child, "parent.qcow2", &parent, true);
    r.write_at(200, &[0xDE, 0xAD, 0xBE, 0xEF]).unwrap();
    r.flush().unwrap();
    let after = r.into_device().into_bytes();

    let mut r = open_pair(&after, "parent.qcow2", &parent, false);
    let mut cluster = vec![0xFFu8; CLUSTER_SIZE as usize];
    r.read_at(0, &mut cluster).unwrap();
    assert_eq!(&cluster[200..204], &[0xDE, 0xAD, 0xBE, 0xEF]);
    assert!(
        cluster[..200].iter().all(|&b| b == 0) && cluster[204..].iter().all(|&b| b == 0),
        "a zero-flagged cluster must stay zeros around the payload, not adopt the parent's 0xAA"
    );
}

#[test]
fn write_to_zero_flagged_cluster_allocates_phase_b() {
    let after = after_write(&build_image(), 12288, &[0x55; 32]);
    let mut r = open(&after);
    let mut buf = [0u8; 32];
    r.read_at(12288, &mut buf).unwrap();
    assert!(buf.iter().all(|&b| b == 0x55));
    let mut tail = [0xFFu8; 16];
    r.read_at(12288 + 32, &mut tail).unwrap();
    assert!(tail.iter().all(|&b| b == 0));
}

#[test]
fn cross_cluster_write_spanning_alloc_and_unalloc() {
    let after = after_write(&build_image(), 4090, &[0x77u8; 12]);
    let mut r = open(&after);
    let mut buf = [0u8; 16];
    r.read_at(4088, &mut buf).unwrap();
    assert_eq!(&buf[0..2], &[0xAA, 0xAA]);
    assert_eq!(&buf[2..14], &[0x77; 12]);
    assert_eq!(&buf[14..16], &[0x00, 0x00]);
}

#[test]
fn write_into_unallocated_l1_entry_allocates_l2_table() {
    // Two L1 entries, of 2 MiB each; the second one is empty.
    let virt_size = 4u64 * 1024 * 1024;
    let mut b = vec![0u8; (CLUSTER_SIZE * 32) as usize];
    put_header(&mut b, virt_size, 2, REFCOUNT_TABLE_OFFSET);
    put64(&mut b, L1_OFFSET, L2_OFFSET | COPIED);
    put64(&mut b, L2_OFFSET, DATA0_OFFSET | COPIED);
    put(&mut b, DATA0_OFFSET, &[0xAA; 4096]);
    put64(&mut b, REFCOUNT_TABLE_OFFSET, REFCOUNT_BLOCK_OFFSET);
    for k in 0..7 {
        put16(&mut b, REFCOUNT_BLOCK_OFFSET + k * 2, 1);
    }

    let virt_target = 2u64 * 1024 * 1024;
    let after = after_write(&b, virt_target, &[0xCDu8; 32]);
    let mut r = open(&after);
    let mut buf = [0u8; 32];
    r.read_at(virt_target, &mut buf).unwrap();
    assert_eq!(buf, [0xCD; 32]);
    let mut head = [0xFFu8; 8];
    r.read_at(virt_target - 8, &mut head).unwrap();
    assert!(head.iter().all(|&b| b == 0));
}

#[test]
fn write_grows_refcount_block() {
    let mut b = build_image();
    b.resize((CLUSTER_SIZE * 2100) as usize, 0);
    for k in 0..CLUSTER_SIZE / 2 {
        put16(&mut b, REFCOUNT_BLOCK_OFFSET + k * 2, 1);
    }
    let after = after_write(&b, 4096 + 100, &[0xAB, 0xCD, 0xEF]);
    let mut r = open(&after);
    let mut buf = [0u8; 3];
    r.read_at(4096 + 100, &mut buf).unwrap();
    assert_eq!(buf, [0xAB, 0xCD, 0xEF]);

    // The new block counts itself, and the cluster after it.
    let block_off = get64(&after, REFCOUNT_TABLE_OFFSET + 8);
    assert_eq!(block_off, CLUSTER_SIZE * 2048);
    assert_eq!(get16(&after, block_off), 1);
    assert_eq!(get16(&after, block_off + 2), 1);
}

#[test]
fn write_to_compressed_cluster_decompresses_and_replaces() {
    let after = after_write(&build_compressed_image(0xCC), 100, &[0x11u8; 16]);
    let mut r = open(&after);
    let mut window = [0u8; 32];
    r.read_at(90, &mut window).unwrap();
    assert_eq!(&window[0..10], &[0xCC; 10]);
    assert_eq!(&window[10..26], &[0x11; 16]);
    assert_eq!(&window[26..32], &[0xCC; 6]);
}

#[test]
fn write_to_ro_image_errors_with_read_only() {
    let mut r = open(&build_image());
    assert!(!r.is_writable());
    match r.write_at(64, &[0x11; 4]) {
        Err(Error::ReadOnly) => {}
        other => panic!("expected ReadOnly, got {other:?}"),
    }
}

#[test]
fn write_past_end_errors_with_out_of_bounds() {
    let mut r = open_rw(&build_image());
    match r.write_at(VIRT_SIZE - 8, &[0x11u8; 16]) {
        Err(Error::OutOfBounds { .. }) => {}
        other => panic!("expected OutOfBounds, got {other:?}"),
    }
}

/// The image as it is when virtual cluster 0 is shared with a snapshot: its host
/// cluster is counted twice, and its entry is not marked `COPIED`.
fn build_shared_image() -> Vec<u8> {
    let mut b = build_image();
    put16(&mut b, REFCOUNT_BLOCK_OFFSET + 3 * 2, 2);
    put64(&mut b, L2_OFFSET, DATA0_OFFSET);
    b
}

#[test]
fn write_to_shared_cluster_clones_via_cow() {
    let b = build_shared_image();
    assert_eq!(get16(&b, REFCOUNT_BLOCK_OFFSET + 3 * 2), 2);
    let original_l2 = get64(&b, L2_OFFSET);
    let after = after_write(&b, 64, &[0x11, 0x22, 0x33, 0x44]);

    let new_l2 = get64(&after, L2_OFFSET);
    assert_ne!(
        new_l2 & HOST_OFFSET_MASK,
        original_l2 & HOST_OFFSET_MASK,
        "L2 entry must be repointed at a fresh cluster after CoW"
    );
    assert_eq!(
        get16(&after, REFCOUNT_BLOCK_OFFSET + 3 * 2),
        1,
        "old cluster's refcount must drop by 1 after CoW"
    );
    let new_host_cluster_idx = (new_l2 & HOST_OFFSET_MASK) / CLUSTER_SIZE;
    assert_eq!(
        get16(&after, REFCOUNT_BLOCK_OFFSET + new_host_cluster_idx * 2),
        1,
        "freshly-allocated CoW cluster must have refcount=1"
    );
}

#[test]
fn snapshot_view_unchanged_after_cow_write() {
    let after = after_write(&build_shared_image(), 64, &[0x11, 0x22, 0x33, 0x44]);
    assert!(
        after[DATA0_OFFSET as usize..(DATA0_OFFSET + CLUSTER_SIZE) as usize]
            .iter()
            .all(|&b| b == 0xAA),
        "snapshot's host cluster must remain untouched after CoW write"
    );
}

#[test]
fn live_view_sees_cow_write() {
    let after = after_write(&build_shared_image(), 64, &[0x11, 0x22, 0x33, 0x44]);
    let mut r = open(&after);
    let mut buf = [0u8; 8];
    r.read_at(60, &mut buf).unwrap();
    assert_eq!(buf, [0xAA, 0xAA, 0xAA, 0xAA, 0x11, 0x22, 0x33, 0x44]);
    let mut tail = [0u8; 4];
    r.read_at(72, &mut tail).unwrap();
    assert_eq!(tail, [0xAA; 4]);
}

#[test]
fn zstd_compressed_cluster_round_trip() {
    let mut r = open(&build_zstd_image(&[0xCC; 4096]));
    assert_eq!(r.header().compression_type, 1);
    let mut buf = vec![0u8; 4096];
    r.read_at(0, &mut buf).unwrap();
    assert!(
        buf.iter().all(|&b| b == 0xCC),
        "zstd-decompressed cluster must match input pattern"
    );
    let mut buf2 = vec![0u8; 16];
    r.read_at(2048, &mut buf2).unwrap();
    assert!(buf2.iter().all(|&b| b == 0xCC));
}

#[test]
fn cluster_status_classifies_each_virtual_cluster() {
    let mut r = open(&build_image());
    assert_eq!(r.cluster_status_at(0).unwrap(), ClusterStatus::Allocated);
    assert_eq!(
        r.cluster_status_at(CLUSTER_SIZE).unwrap(),
        ClusterStatus::Unallocated
    );
    assert_eq!(
        r.cluster_status_at(CLUSTER_SIZE * 2).unwrap(),
        ClusterStatus::Allocated
    );
    assert_eq!(
        r.cluster_status_at(CLUSTER_SIZE * 3).unwrap(),
        ClusterStatus::Zero
    );
}

#[test]
fn cluster_status_rejects_out_of_bounds_offset() {
    let mut r = open(&build_image());
    assert!(r.cluster_status_at(VIRT_SIZE).is_err());
    assert!(r.cluster_status_at(VIRT_SIZE * 2).is_err());
}

#[test]
fn extents_iter_yields_run_length_encoded_status_runs() {
    let mut r = open(&build_image());
    let extents: Vec<Extent> = r.extents().collect(&mut r).unwrap();
    assert_eq!(extents.len(), 4);

    assert_eq!(extents[0].virt_offset, 0);
    assert_eq!(extents[0].length, CLUSTER_SIZE);
    assert_eq!(extents[0].status, ClusterStatus::Allocated);

    assert_eq!(extents[1].virt_offset, CLUSTER_SIZE);
    assert_eq!(extents[1].length, CLUSTER_SIZE);
    assert_eq!(extents[1].status, ClusterStatus::Unallocated);

    assert_eq!(extents[2].virt_offset, CLUSTER_SIZE * 2);
    assert_eq!(extents[2].length, CLUSTER_SIZE);
    assert_eq!(extents[2].status, ClusterStatus::Allocated);

    assert_eq!(extents[3].virt_offset, CLUSTER_SIZE * 3);
    assert_eq!(extents[3].length, CLUSTER_SIZE);
    assert_eq!(extents[3].status, ClusterStatus::Zero);

    let total: u64 = extents.iter().map(|e| e.length).sum();
    assert_eq!(total, VIRT_SIZE);
}

/// A disk of 1 MiB in clusters of 64 KiB, with nothing in it.
fn build_empty_image() -> Vec<u8> {
    let cs: u64 = 65536;
    let mut b = vec![0u8; (cs * 4) as usize];
    put32(&mut b, 0, QCOW2_MAGIC);
    put32(&mut b, 4, 3);
    put32(&mut b, 20, 16);
    put64(&mut b, 24, 1 << 20);
    put32(&mut b, 36, 1);
    put64(&mut b, 40, cs * 3);
    put64(&mut b, 48, cs);
    put32(&mut b, 56, 1);
    put32(&mut b, 96, 4);
    put32(&mut b, 100, 112);
    put64(&mut b, cs, cs * 2);
    for k in 0..4 {
        put16(&mut b, cs * 2 + k * 2, 1);
    }
    b
}

#[test]
fn extents_iter_handles_freshly_created_all_unallocated_image() {
    let mut r = open(&build_empty_image());
    let extents: Vec<Extent> = r.extents().collect(&mut r).unwrap();
    assert_eq!(extents.len(), 1);
    assert_eq!(extents[0].virt_offset, 0);
    assert_eq!(extents[0].length, r.virtual_size());
    assert_eq!(extents[0].status, ClusterStatus::Unallocated);
}

#[test]
fn open_rejects_encrypted_image() {
    let mut b = build_image();
    put32(&mut b, 32, 1);
    match Qcow2Reader::open_on_device(MemDevice::new(b)).err() {
        Some(Error::Unsupported(m)) => assert!(m.contains("encryption")),
        other => panic!("expected Unsupported(encryption), got {other:?}"),
    }
}

#[test]
fn open_rejects_external_data_file_image() {
    let mut b = build_image();
    put64(&mut b, 72, 1 << 2);
    match Qcow2Reader::open_on_device(MemDevice::new(b)).err() {
        Some(Error::Unsupported(m)) => assert_eq!(m, "external data file"),
        other => panic!("expected Unsupported(external data file), got {other:?}"),
    }
}

#[test]
fn allocator_refuses_the_header_cluster() {
    let mut b = build_image();
    put16(&mut b, REFCOUNT_BLOCK_OFFSET, 0);
    let mut r = open_rw(&b);
    let err = r
        .write_at(CLUSTER_SIZE * 3, &[0xEEu8; 512])
        .expect_err("the allocator must not hand out the header cluster");
    let msg = text(&err);
    assert!(
        msg.contains("cluster 0"),
        "the refusal should name the cluster, got: {msg}"
    );
    let after = r.into_device().into_bytes();
    assert_eq!(&after[0..4], b"QFI\xfb", "the header was overwritten");
}

#[test]
fn an_unaligned_l2_entry_is_refused_by_the_validator_and_by_us() {
    let mut b = build_image();
    put64(&mut b, L2_OFFSET, 0x200 | COPIED);
    let mut r = open(&b);
    let mut buf = vec![0u8; 512];
    let err = r.read_at(0, &mut buf).unwrap_err();
    assert!(
        matches!(err, Error::Corrupt(_)),
        "expected a refusal, got {err:?} with buf starting {:02x?}",
        &buf[..8]
    );
}

/// The standard image with an internal snapshot: a second L1 table, at cluster 7,
/// that points at the same L2 table. The table, and the data that it points at, are
/// counted twice, and nothing is marked `COPIED`.
fn build_snapshotted_image() -> Vec<u8> {
    let mut b = build_image();
    put64(&mut b, L1_OFFSET, L2_OFFSET);
    put64(&mut b, L2_OFFSET, DATA0_OFFSET);
    put64(&mut b, L2_OFFSET + 16, DATA2_OFFSET);
    put64(&mut b, L2_OFFSET + 24, L2_FLAG_ZERO);
    put64(&mut b, CLUSTER_SIZE * 7, L2_OFFSET);
    for k in [2u64, 3, 4] {
        put16(&mut b, REFCOUNT_BLOCK_OFFSET + k * 2, 2);
    }
    put16(&mut b, REFCOUNT_BLOCK_OFFSET + 7 * 2, 1);
    put32(&mut b, 60, 1);
    b
}

/// The snapshot of such an image, read as an image of its own.
fn snapshot_of(b: &[u8]) -> Vec<u8> {
    let mut s = b.to_vec();
    put64(&mut s, 40, CLUSTER_SIZE * 7);
    s
}

/// How often the tables at `l1_offsets` refer to each host cluster, and the clusters
/// that hold the structures themselves.
fn references(b: &[u8], l1_offsets: &[u64]) -> Vec<u16> {
    let mut refs = vec![0u16; b.len() / CLUSTER_SIZE as usize];
    let mut add = |off: u64| refs[(off / CLUSTER_SIZE) as usize] += 1;
    add(0);
    add(REFCOUNT_TABLE_OFFSET);
    add(REFCOUNT_BLOCK_OFFSET);
    for l1 in l1_offsets {
        add(*l1);
        let table = get64(b, *l1) & HOST_OFFSET_MASK;
        if table != 0 {
            add(table);
            for j in 0..CLUSTER_SIZE / 8 {
                let e = get64(b, table + 8 * j);
                if e & L2_FLAG_ZERO == 0 && e & HOST_OFFSET_MASK != 0 {
                    add(e & HOST_OFFSET_MASK);
                }
            }
        }
    }
    refs
}

#[test]
fn a_write_leaves_an_internal_snapshot_holding_what_it_held() {
    let b = build_snapshotted_image();
    let held = read(&mut open(&snapshot_of(&b)), 0, VIRT_SIZE as usize);
    let after = after_write(&b, 0, &[0xEEu8; 4096]);

    // Sound: every count is the number of references.
    let refs = references(&after, &[L1_OFFSET, CLUSTER_SIZE * 7]);
    for (k, n) in refs.iter().enumerate() {
        assert_eq!(
            get16(&after, REFCOUNT_BLOCK_OFFSET + 2 * k as u64),
            *n,
            "count of host cluster {k}"
        );
    }
    // The snapshot holds what it held.
    let seen = read(&mut open(&snapshot_of(&after)), 0, VIRT_SIZE as usize);
    assert_eq!(seen, held);
    // The live view is the one that changed.
    let live = read(&mut open(&after), 0, 4096);
    assert!(live.iter().all(|&b| b == 0xEE), "the write did not land");
    assert_eq!(
        read(&mut open(&after), 4096, 3 * 4096),
        held[4096..].to_vec()
    );
}

#[test]
fn an_unaligned_table_offset_is_refused_by_the_validator_and_by_us() {
    for (field, header_offset) in [
        ("l1_table_offset", 40u64),
        ("refcount_table_offset", 48u64),
    ] {
        let mut b = build_image();
        assert_eq!(
            read(&mut open(&b), 0, 4096),
            vec![0xAA; 4096],
            "{field}: the untouched image must read"
        );
        let real = get64(&b, header_offset);
        put64(&mut b, header_offset, real + 0x200);
        match Qcow2Reader::open_on_device(MemDevice::new(b.clone())).err() {
            Some(Error::Corrupt(msg)) => assert!(
                msg.contains("cluster-aligned"),
                "{field}: the refusal must name the alignment, got {msg:?}"
            ),
            other => panic!("{field}: expected Corrupt, got {other:?}"),
        }
        assert!(
            Qcow2Reader::open_rw_on_device(MemDevice::new(b)).is_err(),
            "{field}: must not open read-write either"
        );
    }
}

#[test]
fn a_flagged_image_still_reads_and_no_longer_takes_writes() {
    for (label, bit) in [("corrupt", 1u64 << 1), ("dirty", 1u64 << 0)] {
        let mut b = after_write(&build_image(), 0, &[0xABu8; 512]);
        put64(&mut b, 72, bit);
        assert_eq!(
            read(&mut open(&b), 8192, 4096),
            vec![0xBB; 4096],
            "{label}: the read must be right"
        );
        match Qcow2Reader::open_rw_on_device(MemDevice::new(b)).err() {
            Some(Error::Unsupported(m)) => assert!(
                m.contains(label),
                "{label}: the refusal must name the flag, got {m:?}"
            ),
            other => panic!("{label}: expected Unsupported, got {other:?}"),
        }
    }
}

#[test]
fn the_backing_chain_is_keyed_and_bounded_like_the_validator_does_it() {
    // A size with no offset is not a backing file.
    let mut b = build_empty_image();
    put32(&mut b, 16, 12);
    open(&b);
    assert_eq!(
        ChainBuilder::new(false)
            .add_layer(MemDevice::new(b))
            .unwrap(),
        None
    );

    // Nor is an offset with no size.
    let mut b = build_empty_image();
    put64(&mut b, 8, 0x50);
    open(&b);
    assert_eq!(
        ChainBuilder::new(false)
            .add_layer(MemDevice::new(b))
            .unwrap(),
        None
    );

    // A name past the first cluster is refused.
    let mut b = build_empty_image();
    put64(&mut b, 8, 0x50000);
    put32(&mut b, 16, 8);
    match ChainBuilder::new(false).add_layer(MemDevice::new(b)).err() {
        Some(Error::Corrupt(m)) => {
            assert!(m.contains("first cluster"), "got {m:?}")
        }
        other => panic!("expected Corrupt, got {other:?}"),
    }

    // So is one that is there, among the data of the guest.
    let name = "parent.qcow2";
    let mut b = build_empty_image();
    b.resize(0x60000, 0);
    put(&mut b, 0x50000, name.as_bytes());
    put64(&mut b, 8, 0x50000);
    put32(&mut b, 16, name.len() as u32);
    assert!(
        ChainBuilder::new(false).add_layer(MemDevice::new(b)).is_err(),
        "we must not open a parent the guest chose"
    );
}

#[test]
fn a_real_backing_chain_still_opens_and_reads_through() {
    let mut parent = build_image();
    let data: Vec<u8> = (0..4096u32).map(|i| (i % 251) as u8).collect();
    put(&mut parent, DATA0_OFFSET, &data);
    let child = build_child_with_backing("parent.qcow2", &[]);
    let mut r = open_pair(&child, "parent.qcow2", &parent, false);
    let mut want = data.clone();
    want.extend_from_slice(&[0; 4096]);
    want.extend_from_slice(&[0xBB; 4096]);
    want.extend_from_slice(&[0; 4096]);
    assert_eq!(
        read(&mut r, 0, 4 * 4096),
        want,
        "the child must read through to its parent"
    );
}
