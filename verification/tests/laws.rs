//! What holds of the library as a whole, on concrete images: writes that are cut off
//! at any point, writes over writes, images that are opened again.

use qcow2::{BlockDevice, ChainBuilder, ClusterStatus, DeviceError, Error, MemDevice, Qcow2Reader};
use std::cell::Cell;
use std::rc::Rc;

const CS: u64 = 4096;
const COPIED: u64 = 1 << 63;
const MASK: u64 = 0x00ff_ffff_ffff_fe00;
const L1: u64 = CS;
const L2: u64 = CS * 2;
const RT: u64 = CS * 5;
const RB: u64 = CS * 6;
const SIZE: u64 = CS * 6;

fn put(b: &mut [u8], off: u64, bytes: &[u8]) {
    b[off as usize..off as usize + bytes.len()].copy_from_slice(bytes);
}

fn get16(b: &[u8], off: u64) -> u16 {
    u16::from_be_bytes([b[off as usize], b[off as usize + 1]])
}

fn get64(b: &[u8], off: u64) -> u64 {
    let mut x = [0u8; 8];
    x.copy_from_slice(&b[off as usize..off as usize + 8]);
    u64::from_be_bytes(x)
}

/// Six virtual clusters: data, none, data that is shared, zero, none, none. The L2
/// table is shared too. A second L1 table, at cluster 7, holds it and the data.
fn image() -> Vec<u8> {
    let mut b = vec![0u8; (CS * 10) as usize];
    put(&mut b, 0, b"QFI\xfb");
    put(&mut b, 4, &3u32.to_be_bytes());
    put(&mut b, 20, &12u32.to_be_bytes());
    put(&mut b, 24, &SIZE.to_be_bytes());
    put(&mut b, 36, &1u32.to_be_bytes());
    put(&mut b, 40, &L1.to_be_bytes());
    put(&mut b, 48, &RT.to_be_bytes());
    put(&mut b, 56, &1u32.to_be_bytes());
    put(&mut b, 60, &1u32.to_be_bytes());
    put(&mut b, 96, &4u32.to_be_bytes());
    put(&mut b, 100, &104u32.to_be_bytes());
    put(&mut b, L1, &L2.to_be_bytes());
    put(&mut b, CS * 7, &L2.to_be_bytes());
    put(&mut b, L2, &(CS * 3).to_be_bytes());
    put(&mut b, L2 + 16, &(CS * 4).to_be_bytes());
    put(&mut b, L2 + 24, &1u64.to_be_bytes());
    put(&mut b, CS * 3, &[0xA3; 4096]);
    put(&mut b, CS * 4, &[0xA4; 4096]);
    put(&mut b, RT, &RB.to_be_bytes());
    for (k, n) in [1u16, 1, 2, 2, 2, 1, 1, 1].iter().enumerate() {
        put(&mut b, RB + 2 * k as u64, &n.to_be_bytes());
    }
    b
}

/// The second L1 table, as an image of its own.
fn snapshot(b: &[u8]) -> Vec<u8> {
    let mut s = b.to_vec();
    put(&mut s, 40, &(CS * 7).to_be_bytes());
    s
}

fn all(b: &[u8]) -> Vec<u8> {
    let mut r = Qcow2Reader::open_on_device(MemDevice::new(b.to_vec())).unwrap();
    let mut v = vec![0u8; SIZE as usize];
    r.read_at(0, &mut v).unwrap();
    v
}

/// How often the two L1 tables refer to each cluster is no more than its count.
fn sound(b: &[u8]) {
    let mut refs = vec![0u16; 4096];
    for l1 in [L1, CS * 7] {
        let t = get64(b, l1) & MASK;
        if t != 0 {
            refs[(t / CS) as usize] += 1;
            for j in 0..512 {
                let e = get64(b, t + 8 * j);
                if e & 1 == 0 && e & MASK != 0 {
                    refs[((e & MASK) / CS) as usize] += 1;
                }
            }
        }
    }
    for (k, n) in refs.iter().enumerate() {
        let block = get64(b, RT + 8 * (k as u64 / 2048));
        let count = if block == 0 {
            0
        } else {
            get16(b, block + 2 * (k as u64 % 2048))
        };
        assert!(*n <= count, "cluster {k}: {n} references, counted {count}");
    }
}

/// A device that serves `left` more writes, and then no more.
struct Failing {
    inner: MemDevice,
    left: usize,
}

impl BlockDevice for Failing {
    fn read_at(&self, offset: u64, buf: &mut [u8]) -> Result<(), DeviceError> {
        self.inner.read_at(offset, buf)
    }

    fn write_at(&mut self, offset: u64, buf: &[u8]) -> Result<(), DeviceError> {
        if self.left == 0 {
            return Err(DeviceError::Custom("no more".to_string()));
        }
        self.left -= 1;
        self.inner.write_at(offset, buf)
    }

    fn flush(&mut self) -> Result<(), DeviceError> {
        self.inner.flush()
    }

    fn is_writable(&self) -> bool {
        true
    }

    fn size_bytes(&self) -> u64 {
        self.inner.size_bytes()
    }
}

#[test]
fn a_write_that_is_cut_off_anywhere_corrupts_nothing() {
    let b = image();
    let before = all(&b);
    let kept = all(&snapshot(&b));
    let data = vec![0x77u8; 3 * CS as usize];
    let mut finished = false;
    let mut failures = 0;
    for left in 0..100 {
        let dev = Failing {
            inner: MemDevice::new(b.clone()),
            left,
        };
        let mut r = Qcow2Reader::open_rw_on_device(dev).unwrap();
        let done = r.write_at(100, &data);
        // What the reader itself sees outside the range is what it was.
        let mut seen = vec![0u8; SIZE as usize];
        r.read_at(0, &mut seen).unwrap();
        assert_eq!(seen[..100], before[..100]);
        assert_eq!(seen[100 + data.len()..], before[100 + data.len()..]);
        let after = r.into_device().inner.into_bytes();
        // So is what is found when the image is opened again.
        let found = all(&after);
        assert_eq!(found[..100], before[..100]);
        assert_eq!(found[100 + data.len()..], before[100 + data.len()..]);
        assert_eq!(after[..112], b[..112]);
        sound(&after);
        assert_eq!(all(&snapshot(&after)), kept);
        match done {
            Ok(()) => {
                assert_eq!(found[100..100 + data.len()], data[..]);
                finished = true;
            }
            Err(e) => {
                assert!(matches!(e, Error::Decompress(s) if s == "no more"));
                failures += 1;
            }
        }
    }
    assert!(finished);
    assert!(failures > 10);
}

#[test]
fn the_last_write_wins() {
    let mut want = all(&image());
    let mut r = Qcow2Reader::open_rw_on_device(MemDevice::new(image())).unwrap();
    let writes: [(u64, usize, u8); 6] = [
        (0, 10, 1),
        (4000, 5000, 2),
        (4090, 12, 3),
        (12288, 4096, 4),
        (3 * CS - 1, 2, 5),
        (SIZE - 1, 1, 6),
    ];
    for (off, n, x) in writes {
        r.write_at(off, &vec![x; n]).unwrap();
        want[off as usize..off as usize + n].fill(x);
        let mut seen = vec![0u8; SIZE as usize];
        r.read_at(0, &mut seen).unwrap();
        assert_eq!(seen, want);
    }
    r.flush().unwrap();
    let after = r.into_device().into_bytes();
    assert_eq!(all(&after), want);
    assert_eq!(all(&snapshot(&after)), all(&snapshot(&image())));
    sound(&after);
}

#[test]
fn the_runs_tile_the_disk() {
    let mut r = Qcow2Reader::open_on_device(MemDevice::new(image())).unwrap();
    let xs = r.extents().collect(&mut r).unwrap();
    let mut at = 0;
    for (i, x) in xs.iter().enumerate() {
        assert_eq!(x.virt_offset, at);
        assert!(x.length > 0);
        if i > 0 {
            assert_ne!(x.status, xs[i - 1].status);
        }
        at += x.length;
        for v in (x.virt_offset..at).step_by(1000) {
            assert_eq!(r.cluster_status_at(v).unwrap(), x.status);
        }
    }
    assert_eq!(at, SIZE);
    let last = xs.last().unwrap();
    assert_eq!(
        (last.virt_offset, last.length, last.status),
        (4 * CS, 2 * CS, ClusterStatus::Unallocated)
    );
    let mut walk = r.extents();
    assert_eq!(walk.next(&mut r).unwrap().unwrap(), xs[0]);
    assert_eq!(walk.next(&mut r).unwrap().unwrap(), xs[1]);
}

#[test]
fn a_walk_ends_at_an_error() {
    let mut b = image();
    put(&mut b, L2 + 8, &0x200u64.to_be_bytes());
    let mut r = Qcow2Reader::open_on_device(MemDevice::new(b)).unwrap();
    let mut walk = r.extents();
    assert!(matches!(
        walk.next(&mut r),
        Some(Err(Error::Corrupt(
            "l2 entry points into the middle of a cluster"
        )))
    ));
    assert!(walk.next(&mut r).is_none());
    assert!(r.extents().collect(&mut r).is_err());
}

#[test]
fn an_allocation_takes_the_first_cluster_that_is_free() {
    let b = image();
    let mut r = Qcow2Reader::open_rw_on_device(MemDevice::new(b)).unwrap();
    r.write_at(CS, &[9]).unwrap();
    let after = r.into_device().into_bytes();
    // Cluster 8 for the data, then cluster 9 for the copy of the L2 table.
    assert_eq!(get16(&after, RB + 16), 1);
    assert_eq!(get16(&after, RB + 18), 1);
    assert_eq!(get16(&after, RB + 20), 0);
    assert_eq!(get64(&after, L1), CS * 9 | COPIED);
    assert_eq!(get64(&after, CS * 9 + 8), CS * 8 | COPIED);
    // The shared table has lost a count, and holds what it held.
    assert_eq!(get16(&after, RB + 4), 1);
    assert_eq!(get64(&after, L2 + 8), 0);
    assert_eq!(after[(CS * 8) as usize], 9);
}

#[test]
fn a_write_of_nothing_changes_nothing() {
    let b = image();
    let mut r = Qcow2Reader::open_rw_on_device(MemDevice::new(b.clone())).unwrap();
    r.write_at(5, &[]).unwrap();
    r.write_at(u64::MAX, &[]).unwrap();
    r.read_at(u64::MAX, &mut []).unwrap();
    assert_eq!(r.into_device().into_bytes(), b);
}

#[test]
fn ranges_that_overflow_are_refused() {
    let mut r = Qcow2Reader::open_rw_on_device(MemDevice::new(image())).unwrap();
    assert!(matches!(
        r.read_at(u64::MAX, &mut [0, 0]),
        Err(Error::Corrupt("offset+len overflow"))
    ));
    assert!(matches!(
        r.write_at(u64::MAX, &[0, 0]),
        Err(Error::OutOfBounds {
            offset: u64::MAX,
            len: 2,
            size: SIZE
        })
    ));
    assert!(matches!(
        r.write_at(SIZE - 1, &[0, 0]),
        Err(Error::OutOfBounds {
            offset: 24575,
            len: 2,
            size: SIZE
        })
    ));
}

#[test]
fn what_cannot_be_allocated_is_refused() {
    // Counts of another width.
    let mut b = image();
    put(&mut b, 96, &5u32.to_be_bytes());
    let mut r = Qcow2Reader::open_rw_on_device(MemDevice::new(b)).unwrap();
    assert!(matches!(
        r.write_at(CS, &[1]),
        Err(Error::Unsupported(
            "non-16-bit refcount entries (refcount_order != 4)"
        ))
    ));
    // No refcount table.
    let mut b = image();
    put(&mut b, 48, &[0; 12]);
    let mut r = Qcow2Reader::open_rw_on_device(MemDevice::new(b)).unwrap();
    assert!(matches!(
        r.write_at(CS, &[1]),
        Err(Error::Unsupported(
            "no refcount table (cannot allocate clusters)"
        ))
    ));
    // A table and blocks that are full.
    let mut b = image();
    for j in 0..512 {
        put(&mut b, RT + 8 * j, &RB.to_be_bytes());
    }
    for k in 0..2048 {
        put(&mut b, RB + 2 * k, &1u16.to_be_bytes());
    }
    let mut r = Qcow2Reader::open_rw_on_device(MemDevice::new(b)).unwrap();
    match r.write_at(CS, &[1]) {
        Err(Error::Unsupported(m)) => assert!(m.contains("full")),
        other => panic!("expected Unsupported, got {other:?}"),
    }
}

#[test]
fn a_device_that_takes_no_writes_is_not_opened_for_writing() {
    assert!(matches!(
        Qcow2Reader::open_rw_on_device(MemDevice::read_only(image())).err(),
        Some(Error::ReadOnly)
    ));
}

#[test]
fn what_is_no_image_is_not_opened() {
    let err = |b: Vec<u8>| Qcow2Reader::open_on_device(MemDevice::new(b)).err().unwrap();
    assert!(matches!(err(vec![0; 71]), Error::Io(_)));
    assert!(matches!(err(vec![0; 72]), Error::NotQcow2));
    assert!(matches!(err(vec![]), Error::Io(_)));
    let mut b = image();
    b[7] = 4;
    assert!(matches!(err(b), Error::UnsupportedVersion(4)));
    let mut b = image();
    b[23] = 8;
    assert!(matches!(err(b), Error::InvalidClusterBits(8)));
    let mut b = image();
    b.truncate(CS as usize + 7);
    assert!(matches!(
        err(b),
        Error::Corrupt("l1 table runs past the end of the image")
    ));
}

#[test]
fn tables_and_data_past_the_end_are_reported_when_they_are_read() {
    let mut b = image();
    put(&mut b, L1, &(CS * 50).to_be_bytes());
    let mut r = Qcow2Reader::open_on_device(MemDevice::new(b)).unwrap();
    assert!(matches!(r.read_at(0, &mut [0]), Err(Error::Io(_))));
    let mut b = image();
    put(&mut b, L2, &(CS * 50).to_be_bytes());
    let mut r = Qcow2Reader::open_on_device(MemDevice::new(b)).unwrap();
    assert!(matches!(r.read_at(0, &mut [0]), Err(Error::Io(_))));
    r.read_at(CS * 2, &mut [0]).unwrap();
}

/// An image of `clusters` virtual clusters with nothing in it, and `name` behind it.
fn child(name: &[u8], clusters: u64) -> Vec<u8> {
    let mut b = image();
    put(&mut b, 24, &(clusters * CS).to_be_bytes());
    put(&mut b, L1, &[0; 8]);
    put(&mut b, 8, &0x200u64.to_be_bytes());
    put(&mut b, 16, &(name.len() as u32).to_be_bytes());
    put(&mut b, 0x200, name);
    b
}

#[test]
fn the_disk_behind_may_be_shorter() {
    let mut chain = ChainBuilder::new(true);
    let name = chain.add_layer(MemDevice::new(child(b"a", 9))).unwrap();
    assert_eq!(name.as_deref(), Some("a"));
    chain.add_layer(MemDevice::new(image())).unwrap();
    let mut r = chain.finish().unwrap();
    assert!(r.has_backing() && r.is_writable());
    let mut want = all(&image());
    want.resize(9 * CS as usize, 0);
    let mut seen = vec![0xFFu8; 9 * CS as usize];
    r.read_at(0, &mut seen).unwrap();
    assert_eq!(seen, want);
    // A write where the disk behind has ended, and one where it has not.
    r.write_at(7 * CS + 1, &[1]).unwrap();
    r.write_at(2 * CS + 1, &[2]).unwrap();
    want[7 * CS as usize + 1] = 1;
    want[2 * CS as usize + 1] = 2;
    r.read_at(0, &mut seen).unwrap();
    assert_eq!(seen, want);
}

#[test]
fn three_layers_read_through() {
    let mut chain = ChainBuilder::new(false);
    chain.add_layer(MemDevice::new(child(b"b", 6))).unwrap();
    chain.add_layer(MemDevice::new(child(b"c", 6))).unwrap();
    chain.add_layer(MemDevice::new(image())).unwrap();
    let mut r = chain.finish().unwrap();
    let mut seen = vec![0u8; SIZE as usize];
    r.read_at(0, &mut seen).unwrap();
    assert_eq!(seen, all(&image()));
    assert!(ChainBuilder::<MemDevice>::new(false).finish().is_none());
}

#[test]
fn the_name_behind_has_to_be_text() {
    let mut chain = ChainBuilder::new(false);
    assert!(matches!(
        chain.add_layer(MemDevice::new(child(&[0xff, 0xfe], 6))),
        Err(Error::BadBackingPath)
    ));
    let name = chain
        .add_layer(MemDevice::new(child("Grüße".as_bytes(), 6)))
        .unwrap();
    assert_eq!(name.as_deref(), Some("Grüße"));
}

#[test]
fn an_image_with_a_file_behind_it_is_not_opened_alone() {
    match Qcow2Reader::open_on_device(MemDevice::new(child(b"a", 6))).err() {
        Some(Error::Unsupported(m)) => assert!(m.contains("backing file")),
        other => panic!("expected Unsupported, got {other:?}"),
    }
}

#[test]
fn the_first_fault_is_the_one_that_is_reported() {
    let mut b = image();
    put(&mut b, L2 + 8, &0x200u64.to_be_bytes());
    put(&mut b, L2 + 16, &(CS * 50).to_be_bytes());
    let mut r = Qcow2Reader::open_on_device(MemDevice::new(b)).unwrap();
    let mut buf = vec![0u8; 3 * CS as usize];
    assert!(matches!(
        r.read_at(0, &mut buf),
        Err(Error::Corrupt(
            "l2 entry points into the middle of a cluster"
        ))
    ));
    assert!(matches!(
        r.read_at(2 * CS, &mut buf[..10]),
        Err(Error::Io(_))
    ));
}

#[test]
fn what_cannot_be_read_cannot_be_copied() {
    // A shared cluster that lies past the end of the device.
    let mut b = image();
    put(&mut b, L2, &(CS * 50).to_be_bytes());
    put(&mut b, RB + 100, &2u16.to_be_bytes());
    let mut r = Qcow2Reader::open_rw_on_device(MemDevice::new(b.clone())).unwrap();
    assert!(matches!(r.write_at(7, &[1]), Err(Error::Io(_))));
    assert_eq!(r.into_device().into_bytes(), b);
}

/// A device that counts how often it is flushed.
struct Counting {
    inner: MemDevice,
    flushes: usize,
}

impl BlockDevice for Counting {
    fn read_at(&self, offset: u64, buf: &mut [u8]) -> Result<(), DeviceError> {
        self.inner.read_at(offset, buf)
    }

    fn write_at(&mut self, offset: u64, buf: &[u8]) -> Result<(), DeviceError> {
        self.inner.write_at(offset, buf)
    }

    fn flush(&mut self) -> Result<(), DeviceError> {
        self.flushes += 1;
        self.inner.flush()
    }

    fn is_writable(&self) -> bool {
        true
    }

    fn size_bytes(&self) -> u64 {
        self.inner.size_bytes()
    }
}

#[test]
fn a_flush_reaches_the_device_of_an_image_that_is_written() {
    let dev = || Counting {
        inner: MemDevice::new(image()),
        flushes: 0,
    };
    let mut r = Qcow2Reader::open_rw_on_device(dev()).unwrap();
    r.flush().unwrap();
    assert_eq!(r.into_device().flushes, 1);
    let mut r = Qcow2Reader::open_on_device(dev()).unwrap();
    r.flush().unwrap();
    assert_eq!(r.into_device().flushes, 0);
}

/// A device that writes down what it is asked: where each write goes, and `None` for a
/// flush.
struct Recording<D> {
    inner: D,
    calls: Vec<Option<(u64, usize)>>,
}

impl<D: BlockDevice> BlockDevice for Recording<D> {
    fn read_at(&self, offset: u64, buf: &mut [u8]) -> Result<(), DeviceError> {
        self.inner.read_at(offset, buf)
    }

    fn write_at(&mut self, offset: u64, buf: &[u8]) -> Result<(), DeviceError> {
        self.calls.push(Some((offset, buf.len())));
        self.inner.write_at(offset, buf)
    }

    fn flush(&mut self) -> Result<(), DeviceError> {
        self.calls.push(None);
        self.inner.flush()
    }

    fn is_writable(&self) -> bool {
        true
    }

    fn size_bytes(&self) -> u64 {
        self.inner.size_bytes()
    }
}

fn recorded(b: &[u8], off: u64, data: &[u8]) -> (Vec<Option<(u64, usize)>>, Vec<u8>) {
    let dev = Recording {
        inner: MemDevice::new(b.to_vec()),
        calls: Vec::new(),
    };
    let mut r = Qcow2Reader::open_rw_on_device(dev).unwrap();
    r.write_at(off, data).unwrap();
    let dev = r.into_device();
    (dev.calls, dev.inner.into_bytes())
}

/// The image without its second L1 table, so that the L2 table is its own; the data of
/// virtual cluster 2 is still counted twice.
fn image_with_own_table() -> Vec<u8> {
    let mut b = image();
    put(&mut b, L1, &(L2 | COPIED).to_be_bytes());
    put(&mut b, CS * 7, &[0; 8]);
    put(&mut b, L2, &(CS * 3 | COPIED).to_be_bytes());
    for (k, n) in [1u16, 1, 1, 1, 2, 1, 1, 1].iter().enumerate() {
        put(&mut b, RB + 2 * k as u64, &n.to_be_bytes());
    }
    b
}

#[test]
fn the_calls_come_in_order_with_a_flush_after_each_write() {
    let n = CS as usize;
    let (calls, after) = recorded(&image_with_own_table(), 2 * CS + 5, &[7; 10]);
    assert_eq!(
        calls,
        [
            Some((RB, n)),
            None,
            Some((CS * 8, n)),
            None,
            Some((L2, n)),
            None,
            Some((RB, n)),
            None
        ]
    );
    // The shared cluster has lost a count, the new one has one, and no other count has
    // changed.
    let counts: Vec<u16> = (0..10).map(|k| get16(&after, RB + 2 * k)).collect();
    assert_eq!(counts, [1, 1, 1, 1, 1, 1, 1, 1, 1, 0]);
    assert_eq!(get64(&after, L2 + 16), CS * 8 | COPIED);
    // With a table that is shared, its copy goes before the entry, and its count after
    // the copy.
    let (calls, _) = recorded(&image(), 2 * CS + 5, &[7; 10]);
    let writes: Vec<u64> = calls.iter().flatten().map(|c| c.0).collect();
    assert_eq!(writes, [RB, CS * 8, RB, CS * 9, L1, RB, CS * 9, RB]);
    assert!(calls.iter().step_by(2).all(|c| c.is_some()));
    assert!(calls.iter().skip(1).step_by(2).all(|c| c.is_none()));
}

#[test]
fn a_write_in_place_is_the_only_call() {
    let b = image_with_own_table();
    let (calls, after) = recorded(&b, 3, &[7; 10]);
    assert_eq!(calls, [Some((CS * 3 + 3, 10))]);
    let mut want = b.clone();
    put(&mut want, CS * 3 + 3, &[7; 10]);
    assert_eq!(after, want);
}

#[test]
fn a_refused_write_asks_nothing_of_the_device() {
    let dev = Recording {
        inner: MemDevice::new(image()),
        calls: Vec::new(),
    };
    let mut r = Qcow2Reader::open_rw_on_device(dev).unwrap();
    assert!(r.write_at(SIZE, &[1]).is_err());
    assert!(r.write_at(u64::MAX, &[1]).is_err());
    r.write_at(SIZE, &[]).unwrap();
    assert!(r.into_device().calls.is_empty());
    let dev = Recording {
        inner: MemDevice::new(image()),
        calls: Vec::new(),
    };
    let mut r = Qcow2Reader::open_on_device(dev).unwrap();
    assert!(matches!(r.write_at(0, &[1]), Err(Error::ReadOnly)));
    assert!(r.into_device().calls.is_empty());
}

/// Every cluster is counted as often as the two L1 tables refer to it, and once if it
/// holds the header, an L1 table, or counts.
fn exact(b: &[u8]) {
    let mut refs = vec![0u16; 4096];
    for k in [0, 1, 5, 7] {
        refs[k] += 1;
    }
    for s in 0..2 {
        let block = get64(b, RT + 8 * s);
        if block != 0 {
            refs[(block / CS) as usize] += 1;
        }
    }
    for l1 in [L1, CS * 7] {
        let t = get64(b, l1) & MASK;
        if t != 0 {
            refs[(t / CS) as usize] += 1;
            for j in 0..512 {
                let e = get64(b, t + 8 * j);
                if e & 1 == 0 && e & MASK != 0 {
                    refs[((e & MASK) / CS) as usize] += 1;
                }
            }
        }
    }
    for (k, n) in refs.iter().enumerate() {
        let block = get64(b, RT + 8 * (k as u64 / 2048));
        let count = if block == 0 {
            0
        } else {
            get16(b, block + 2 * (k as u64 % 2048))
        };
        assert_eq!(*n, count, "cluster {k}");
    }
}

#[test]
fn no_write_leaks_a_cluster() {
    exact(&image());
    let mut r = Qcow2Reader::open_rw_on_device(MemDevice::new(image())).unwrap();
    for (off, n, x) in [(100u64, 3 * CS as usize, 1u8), (2 * CS, 10, 2), (0, SIZE as usize, 3)] {
        r.write_at(off, &vec![x; n]).unwrap();
    }
    exact(&r.into_device().into_bytes());
    // One that has to make a refcount block does not either.
    let mut b = image();
    for k in 8..2048 {
        put(&mut b, RB + 2 * k, &1u16.to_be_bytes());
    }
    let counted = b.clone();
    let mut r = Qcow2Reader::open_rw_on_device(MemDevice::new(b)).unwrap();
    r.write_at(CS, &[9]).unwrap();
    let after = r.into_device().into_bytes();
    assert_eq!(get64(&after, RT + 8), 2048 * CS);
    for k in 8..2048 {
        assert_eq!(get16(&after, RB + 2 * k), get16(&counted, RB + 2 * k));
    }
    // The block, the data and the copy of the L2 table.
    let counts: Vec<u16> = (0..4).map(|k| get16(&after, 2048 * CS + 2 * k)).collect();
    assert_eq!(counts, [1, 1, 1, 0]);
}

/// A device that serves every write but one, of which it writes a part.
struct Tearing {
    inner: MemDevice,
    left: usize,
}

impl BlockDevice for Tearing {
    fn read_at(&self, offset: u64, buf: &mut [u8]) -> Result<(), DeviceError> {
        self.inner.read_at(offset, buf)
    }

    fn write_at(&mut self, offset: u64, buf: &[u8]) -> Result<(), DeviceError> {
        if self.left == 0 {
            self.left = usize::MAX;
            let part = vec![0u8; buf.len() / 2];
            self.inner.write_at(offset, &part)?;
            return Err(DeviceError::Custom("torn".to_string()));
        }
        self.left -= 1;
        self.inner.write_at(offset, buf)
    }

    fn flush(&mut self) -> Result<(), DeviceError> {
        self.inner.flush()
    }

    fn is_writable(&self) -> bool {
        true
    }

    fn size_bytes(&self) -> u64 {
        self.inner.size_bytes()
    }
}

#[test]
fn a_write_inside_one_cluster_is_read_back_on_a_device_that_tears() {
    let b = image();
    let before = all(&b);
    let mut served = 0;
    for left in 0..20 {
        let dev = Tearing {
            inner: MemDevice::new(b.clone()),
            left,
        };
        let mut r = Qcow2Reader::open_rw_on_device(dev).unwrap();
        if r.write_at(2 * CS + 7, &[0x5a; 100]).is_ok() {
            let mut want = before.clone();
            put(&mut want, 2 * CS + 7, &[0x5a; 100]);
            let mut seen = vec![0u8; SIZE as usize];
            r.read_at(0, &mut seen).unwrap();
            assert_eq!(seen, want);
            assert_eq!(all(&r.into_device().inner.into_bytes()), want);
            served += 1;
        }
    }
    // Two of the torn writes are counts that are given up.
    assert_eq!(served, 20 - 8 + 2);
}

#[test]
fn the_header_is_never_handed_out() {
    // There is no block that counts it.
    let mut b = image();
    put(&mut b, RT, &[0; 8]);
    let dev = Recording {
        inner: MemDevice::new(b.clone()),
        calls: Vec::new(),
    };
    let mut r = Qcow2Reader::open_rw_on_device(dev).unwrap();
    match r.write_at(CS, &[1]) {
        Err(Error::Corrupt(m)) => assert!(m.contains("cluster 0")),
        other => panic!("expected Corrupt, got {other:?}"),
    }
    let dev = r.into_device();
    assert!(dev.calls.is_empty());
    assert_eq!(dev.inner.into_bytes(), b);
    // Its count is zero.
    let mut b = image();
    put(&mut b, RB, &[0; 2]);
    let mut r = Qcow2Reader::open_rw_on_device(MemDevice::new(b.clone())).unwrap();
    match r.write_at(CS, &[1]) {
        Err(Error::Corrupt(m)) => assert!(m.contains("cluster 0")),
        other => panic!("expected Corrupt, got {other:?}"),
    }
    assert_eq!(r.into_device().into_bytes(), b);
    // It is found before any later block is looked at, be it on the device or not.
    put(&mut b, RT + 8, &(CS * 1000).to_be_bytes());
    let mut r = Qcow2Reader::open_rw_on_device(MemDevice::new(b.clone())).unwrap();
    assert!(matches!(
        r.write_at(CS, &[1]),
        Err(Error::Corrupt(
            "refcount table marks host cluster 0 (the header) as free"
        ))
    ));
    assert_eq!(r.into_device().into_bytes(), b);
}

/// A device that counts what it is asked to write or flush, where others can see it.
struct Watched {
    inner: MemDevice,
    asked: Rc<Cell<usize>>,
}

impl BlockDevice for Watched {
    fn read_at(&self, offset: u64, buf: &mut [u8]) -> Result<(), DeviceError> {
        self.inner.read_at(offset, buf)
    }

    fn write_at(&mut self, offset: u64, buf: &[u8]) -> Result<(), DeviceError> {
        self.asked.set(self.asked.get() + 1);
        self.inner.write_at(offset, buf)
    }

    fn flush(&mut self) -> Result<(), DeviceError> {
        self.asked.set(self.asked.get() + 1);
        self.inner.flush()
    }

    fn is_writable(&self) -> bool {
        true
    }

    fn size_bytes(&self) -> u64 {
        self.inner.size_bytes()
    }
}

#[test]
fn only_the_front_of_a_chain_is_written_or_flushed() {
    let asked: Vec<Rc<Cell<usize>>> = (0..3).map(|_| Rc::new(Cell::new(0))).collect();
    let dev = |i: usize, b: Vec<u8>| Watched {
        inner: MemDevice::new(b),
        asked: asked[i].clone(),
    };
    let counts = || asked.iter().map(|c| c.get()).collect::<Vec<usize>>();
    let mut chain = ChainBuilder::new(true);
    chain.add_layer(dev(0, child(b"b", 6))).unwrap();
    chain.add_layer(dev(1, child(b"c", 6))).unwrap();
    chain.add_layer(dev(2, image())).unwrap();
    let mut r = chain.finish().unwrap();
    let mut seen = vec![0u8; SIZE as usize];
    r.read_at(0, &mut seen).unwrap();
    assert!(r.read_at(SIZE, &mut [0]).is_err());
    r.cluster_status_at(5).unwrap();
    r.extents().collect(&mut r).unwrap();
    assert_eq!(counts(), [0, 0, 0]);
    r.write_at(2 * CS + 1, &[2]).unwrap();
    assert!(asked[0].get() > 0);
    assert_eq!(counts()[1..], [0, 0]);
    let before = asked[0].get();
    r.flush().unwrap();
    assert_eq!(counts(), [before + 1, 0, 0]);
    r.read_at(0, &mut seen).unwrap();
    assert_eq!(counts(), [before + 1, 0, 0]);
}

/// A device that cannot be written past its first `limit` bytes.
struct Limited {
    inner: MemDevice,
    limit: u64,
}

impl BlockDevice for Limited {
    fn read_at(&self, offset: u64, buf: &mut [u8]) -> Result<(), DeviceError> {
        self.inner.read_at(offset, buf)
    }

    fn write_at(&mut self, offset: u64, buf: &[u8]) -> Result<(), DeviceError> {
        if offset + buf.len() as u64 > self.limit {
            return Err(DeviceError::Custom("no room".to_string()));
        }
        self.inner.write_at(offset, buf)
    }

    fn flush(&mut self) -> Result<(), DeviceError> {
        self.inner.flush()
    }

    fn is_writable(&self) -> bool {
        true
    }

    fn size_bytes(&self) -> u64 {
        self.inner.size_bytes()
    }
}

#[test]
fn a_write_takes_one_cluster_for_each_that_it_replaces_and_each_new_table() {
    // Eight clusters are in use. What is written, and how many more it takes.
    let own = image_with_own_table();
    let shared = image();
    let cases: [(&[u8], u64, usize, u64); 7] = [
        (&own, 5, 10, 0),
        (&own, CS + 1, 1, 1),
        (&own, CS - 1, 2, 1),
        (&own, 0, SIZE as usize, 5),
        (&shared, CS + 1, 1, 2),
        (&shared, 4 * CS, 2 * CS as usize, 3),
        (&shared, 0, SIZE as usize, 7),
    ];
    for (b, off, n, needed) in cases {
        let data = vec![0x5cu8; n];
        let mut want = all(b);
        put(&mut want, off, &data);
        let limited = |k: u64| Limited {
            inner: MemDevice::new(b[..8 * CS as usize].to_vec()),
            limit: k * CS,
        };
        let mut r = Qcow2Reader::open_rw_on_device(limited(8 + needed)).unwrap();
        r.write_at(off, &data).unwrap();
        assert_eq!(all(&r.into_device().inner.into_bytes()), want);
        if needed > 0 {
            let mut r = Qcow2Reader::open_rw_on_device(limited(7 + needed)).unwrap();
            assert!(r.write_at(off, &data).is_err());
        }
    }
}

#[test]
fn a_cluster_past_the_end_is_written_in_its_place() {
    let mut b = image_with_own_table();
    put(&mut b, L2, &(CS * 12 | COPIED).to_be_bytes());
    put(&mut b, RB + 24, &1u16.to_be_bytes());
    let mut r = Qcow2Reader::open_rw_on_device(MemDevice::new(b)).unwrap();
    assert!(r.read_at(0, &mut [0]).is_err());
    r.write_at(3, &[5, 6]).unwrap();
    let mut seen = [9u8; 2];
    r.read_at(3, &mut seen).unwrap();
    assert_eq!(seen, [5, 6]);
    let after = r.into_device().into_bytes();
    assert_eq!(after.len() as u64, CS * 12 + 5);
}

#[test]
fn a_failed_write_changes_nothing_outside_its_calls() {
    let b = image();
    let mut failures = 0;
    for left in 0..20 {
        let dev = Recording {
            inner: Tearing {
                inner: MemDevice::new(b.clone()),
                left,
            },
            calls: Vec::new(),
        };
        let mut r = Qcow2Reader::open_rw_on_device(dev).unwrap();
        if r.write_at(CS - 10, &[0x5a; 20]).is_err() {
            failures += 1;
        }
        let dev = r.into_device();
        let after = dev.inner.inner.into_bytes();
        for (i, x) in b.iter().enumerate() {
            let i = i as u64;
            let named = dev
                .calls
                .iter()
                .flatten()
                .any(|(at, n)| *at <= i && i < *at + *n as u64);
            assert!(*x == after[i as usize] || named, "byte {i} after {left} writes");
        }
    }
    assert!(failures > 5);
}
