//! Opening and reading an image.

use crate::bytes::{be64, copy_into, found_at, overwrite, read_u64, zero_vec};
use crate::codec::{decode_cluster, decoded, Decoded};
use crate::device::{
    changed_by, differs_only_within, extends, lemma_changed_by_flush, lemma_changed_by_write,
    with_flush, with_write, BlockDevice,
};
use crate::entry::{
    decode_l2_entry, l2_len, lemma_l1_reaches, lemma_map_bounded, lemma_same_cluster, map_bounded,
    split_virtual, ClusterMap, OFFSET_MASK,
};
use crate::error::{from_device, Error};
use crate::header::{lemma_cluster_size, Header};
use crate::image::{Fault, Image};
use vstd::prelude::*;

verus! {

/// A decoded cluster, kept for the next read of it.
pub(crate) struct DecodedCluster {
    pub(crate) host_off: u64,
    pub(crate) byte_len: usize,
    pub(crate) bytes: Vec<u8>,
}

/// An open image on a device, with the image behind it if there is one.
pub struct Qcow2Reader<D> {
    pub(crate) dev: D,
    pub(crate) header: Header,
    /// The L1 table, in memory.
    pub(crate) l1: Vec<u64>,
    /// The L2 table that was read last, with its offset on the device.
    pub(crate) l2_cache: Option<(u64, Vec<u8>)>,
    /// The compressed cluster that was decoded last.
    pub(crate) decompress_cache: Option<DecodedCluster>,
    /// The image behind this one. It is never written.
    pub(crate) backing: Option<Box<Qcow2Reader<D>>>,
    pub(crate) writable: bool,
}

/// Why `len` bytes at `offset` are not looked for at all, if they are not.
pub open spec fn read_refusal(h: Header, offset: int, len: int) -> Option<Error> {
    if len == 0 {
        None
    } else if offset + len > u64::MAX {
        Some(Error::Corrupt("offset+len overflow"))
    } else if offset + len > h.virtual_size {
        Some(
            Error::OutOfBounds { offset: offset as u64, len: len as u64, size: h.virtual_size },
        )
    } else {
        None
    }
}

impl<D: BlockDevice> Qcow2Reader<D> {
    /// The model of the image.
    pub open(crate) spec fn view(&self) -> Image
        decreases self,
    {
        Image {
            header: self.header,
            l1: self.l1@,
            bytes: self.dev.contents(),
            backing: match self.backing {
                Some(b) => Some(Box::new(b.view())),
                None => None,
            },
        }
    }

    /// The device under the image.
    pub open(crate) spec fn device(&self) -> D {
        self.dev
    }

    /// Whether the image was opened to be written.
    pub open(crate) spec fn opened_writable(&self) -> bool {
        self.writable
    }

    /// Whether every device in the chain serves each request that it can.
    pub open(crate) spec fn dependable(&self) -> bool
        decreases self,
    {
        self.dev.dependable() && match self.backing {
            Some(b) => b.dependable(),
            None => true,
        }
    }

    /// The devices of the images behind this one, the nearest first.
    pub open(crate) spec fn devices_behind(&self) -> Seq<D>
        decreases self,
    {
        match self.backing {
            Some(b) => seq![b.dev] + b.devices_behind(),
            None => Seq::empty(),
        }
    }

    /// What is kept in memory of the device agrees with it.
    pub open(crate) spec fn caches_agree(&self) -> bool {
        &&& self.l2_cache matches Some(c) ==> c.1@.len() == self.header.cluster_size && found_at(
            self.dev.contents(),
            c.0 as int,
            c.1@,
        )
        &&& self.decompress_cache matches Some(c) ==> c.bytes@.len() == self.header.cluster_size
            && c.host_off + c.byte_len <= self.dev.contents().len() && decoded(
            self.dev.contents().subrange(c.host_off as int, c.host_off + c.byte_len),
            self.header.compression_type,
            self.header.cluster_size as nat,
        ) == Decoded::Cluster(c.bytes@)
    }

    /// What holds of every open image.
    pub open(crate) spec fn inv(&self) -> bool
        decreases self,
    {
        &&& self.header.geometry_ok()
        &&& self.header.support_refusal() is None
        &&& self.header.tables_addressable()
        &&& self.header.layout_refusal(self.dev.contents().len() as int) is None
        &&& self.writable ==> self.header.write_refusal() is None
        &&& self.l1@.len() == self.header.l1_size
        &&& self.caches_agree()
        &&& match self.backing {
            Some(b) => b.inv(),
            None => true,
        }
    }

    /// `self` is the same image as `other`, on the same devices: none of them was asked
    /// to write or to flush. Only what is kept in memory of them may differ.
    pub open spec fn same_image(&self, other: &Self) -> bool {
        &&& self@ == other@
        &&& self.device() == other.device()
        &&& self.devices_behind() == other.devices_behind()
        &&& self.opened_writable() == other.opened_writable()
        &&& self.dependable() == other.dependable()
    }

    /// Reads `len` bytes of the device.
    pub(crate) fn dev_read(&self, off: u64, len: usize) -> (r: Result<Vec<u8>, Error>)
        ensures
            r matches Ok(v) ==> v@.len() == len && found_at(self.dev.contents(), off as int, v@),
            r matches Err(e) ==> self.dev.dependable() ==> e is Io && len > 0 && off + len
                > self.dev.contents().len(),
    {
        let mut buf: Vec<u8> = zero_vec(len);
        let answer = self.dev.read_at(off, buf.as_mut_slice());
        match answer {
            Ok(()) => Ok(buf),
            Err(e) => Err(from_device(e)),
        }
    }

    /// `self` is the image `other` on the same device, but for the bytes on it; of these
    /// only those differ that a call since then writes over.
    pub open spec fn same_but_bytes(&self, other: &Self) -> bool {
        &&& self@ == (Image { bytes: self@.bytes, ..other@ })
        &&& other@.bytes.len() <= self@.bytes.len()
        &&& self.devices_behind() == other.devices_behind()
        &&& self.opened_writable() == other.opened_writable()
        &&& self.dependable() == other.dependable()
        &&& self.device().dependable() == other.device().dependable()
        &&& self.device().write_limit() == other.device().write_limit()
        &&& self.device().atomic() == other.device().atomic()
        &&& self.device().accepts_writes() == other.device().accepts_writes()
        &&& extends(other.device().calls(), self.device().calls())
        &&& changed_by(
            other@.bytes,
            other.device().calls(),
            self@.bytes,
            self.device().calls(),
        )
    }

    /// `self` is the image `other` on the same device, but for the bytes on it and
    /// the entries of the L1 table.
    pub open spec fn same_but_tables(&self, other: &Self) -> bool {
        &&& self@ == (Image { bytes: self@.bytes, l1: self@.l1, ..other@ })
        &&& other@.l1.len() == self@.l1.len()
        &&& other@.bytes.len() <= self@.bytes.len()
        &&& self.devices_behind() == other.devices_behind()
        &&& self.opened_writable() == other.opened_writable()
        &&& self.dependable() == other.dependable()
        &&& self.device().dependable() == other.device().dependable()
        &&& self.device().write_limit() == other.device().write_limit()
        &&& self.device().atomic() == other.device().atomic()
        &&& self.device().accepts_writes() == other.device().accepts_writes()
        &&& extends(other.device().calls(), self.device().calls())
        &&& changed_by(
            other@.bytes,
            other.device().calls(),
            self@.bytes,
            self.device().calls(),
        )
    }

    /// Drops what is kept in memory of `len` bytes of the device from `off` on.
    fn forget_range(&mut self, off: u64, len: usize)
        ensures
            final(self).dev == old(self).dev,
            final(self).header == old(self).header,
            final(self).l1 == old(self).l1,
            final(self).backing == old(self).backing,
            final(self).writable == old(self).writable,
            final(self).l2_cache matches Some(c) ==> old(self).l2_cache == Some(c) && (c.0
                + old(self).header.cluster_size <= off || off + len <= c.0),
            final(self).decompress_cache matches Some(c) ==> old(self).decompress_cache == Some(c)
                && (c.host_off + c.byte_len <= off || off + len <= c.host_off),
    {
        let end: u128 = off as u128 + len as u128;
        let drop_l2: bool = match &self.l2_cache {
            Some(c) => (c.0 as u128) < end && (off as u128) < c.0 as u128
                + self.header.cluster_size as u128,
            None => false,
        };
        if drop_l2 {
            self.l2_cache = None;
        }
        let drop_decoded: bool = match &self.decompress_cache {
            Some(c) => (c.host_off as u128) < end && (off as u128) < c.host_off as u128
                + c.byte_len as u128,
            None => false,
        };
        if drop_decoded {
            self.decompress_cache = None;
        }
    }

    /// Lays `data` over the bytes of the device from `off` on.
    pub(crate) fn dev_write(&mut self, off: u64, data: &[u8]) -> (r: Result<(), Error>)
        requires
            old(self).inv(),
        ensures
            final(self).inv(),
            final(self).same_but_bytes(&*old(self)),
            r is Ok ==> final(self)@.bytes == overwrite(old(self)@.bytes, off as int, data@),
            r is Err ==> differs_only_within(
                old(self)@.bytes,
                final(self)@.bytes,
                off as int,
                off + data@.len(),
            ),
            r is Err && old(self).dev.atomic() ==> final(self)@.bytes == old(self)@.bytes
                || final(self)@.bytes == overwrite(old(self)@.bytes, off as int, data@),
            old(self).dev.dependable() && off + data@.len() <= old(self).dev.write_limit()
                ==> r is Ok,
            final(self).dev.calls() == with_write(old(self).dev.calls(), off as int, data@, r is Ok),
    {
        let ghost before = self.dev.contents();
        let answer = self.dev.write_at(off, data);
        let ghost after = self.dev.contents();
        let ghost l2 = self.l2_cache;
        let ghost dc = self.decompress_cache;
        self.forget_range(off, data.len());
        proof {
            assert(differs_only_within(before, after, off as int, off + data@.len()));
            lemma_changed_by_write(
                before,
                old(self).dev.calls(),
                after,
                off as int,
                data@,
                answer is Ok,
            );
            assert(self.caches_agree()) by {
                if let Some(c) = self.l2_cache {
                    assert forall|i: int| 0 <= i < c.1@.len() implies #[trigger] c.1@[i]
                        == after[c.0 + i] by {
                        assert(c.1@[i] == before[c.0 + i]);
                    }
                }
                if let Some(c) = self.decompress_cache {
                    assert(after.subrange(c.host_off as int, c.host_off + c.byte_len)
                        =~= before.subrange(c.host_off as int, c.host_off + c.byte_len));
                }
            }
        }
        match answer {
            Ok(()) => Ok(()),
            Err(e) => Err(from_device(e)),
        }
    }

    /// Brings what was written to stable storage.
    pub(crate) fn dev_flush(&mut self) -> (r: Result<(), Error>)
        requires
            old(self).inv(),
        ensures
            final(self).inv(),
            final(self).same_but_bytes(&*old(self)),
            final(self)@ == old(self)@,
            r is Ok ==> final(self).dev.stored() == final(self)@.bytes,
            old(self).dev.dependable() ==> r is Ok,
            final(self).dev.calls() == with_flush(old(self).dev.calls(), r is Ok),
    {
        let answer = self.dev.flush();
        proof {
            lemma_changed_by_flush(self@.bytes, old(self).dev.calls(), answer is Ok);
        }
        match answer {
            Ok(()) => Ok(()),
            Err(e) => Err(from_device(e)),
        }
    }

    /// Entry `l2_index` of the L2 table at `table_off`.
    pub(crate) fn read_l2_entry(&mut self, table_off: u64, l2_index: u32) -> (r: Result<u64, Error>)
        requires
            old(self).inv(),
            l2_index < l2_len(old(self)@.header),
        ensures
            final(self).inv(),
            final(self).same_image(&*old(self)),
            r matches Ok(e) ==> table_off + old(self)@.cs() <= old(self)@.bytes.len() && e == be64(
                old(self)@.bytes,
                table_off + 8 * l2_index,
            ),
            r matches Err(e) ==> old(self).dependable() ==> e is Io && table_off + old(self)@.cs()
                > old(self)@.bytes.len(),
    {
        proof {
            lemma_cluster_size(self.header.cluster_bits);
        }
        let cluster_size: usize = self.header.cluster_size as usize;
        let cached: bool = match &self.l2_cache {
            Some(c) => c.0 == table_off,
            None => false,
        };
        if !cached {
            match self.dev_read(table_off, cluster_size) {
                Ok(buf) => {
                    self.l2_cache = Some((table_off, buf));
                },
                Err(e) => {
                    return Err(e);
                },
            }
        }
        match &self.l2_cache {
            Some(c) => {
                let off: usize = l2_index as usize * 8;
                let entry: u64 = read_u64(c.1.as_slice(), off);
                proof {
                    assert(forall|k: int|
                        0 <= k < 8 ==> #[trigger] c.1@[off + k] == self.dev.contents()[table_off
                            + off + k]);
                }
                Ok(entry)
            },
            None => Ok(0),
        }
    }

    /// What the tables say of the cluster that holds byte `virt`.
    pub(crate) fn lookup_cluster(&mut self, virt: u64) -> (r: Result<ClusterMap, Error>)
        requires
            old(self).inv(),
            virt < old(self)@.header.virtual_size,
        ensures
            final(self).inv(),
            final(self).same_image(&*old(self)),
            r matches Ok(m) ==> old(self)@.cluster_map(virt as int) == Ok::<ClusterMap, Fault>(m)
                && map_bounded(m),
            r matches Err(e) ==> old(self).dependable() ==> (old(self)@.cluster_map(virt as int)
                matches Err(f) && f.reported_by(e)),
    {
        proof {
            lemma_cluster_size(self.header.cluster_bits);
            lemma_l1_reaches(self.header, virt as int);
        }
        let addr = split_virtual(&self.header, virt);
        if addr.l1_index as usize >= self.l1.len() {
            return Err(Error::Corrupt("l1_index past l1 table"));
        }
        let table_off: u64 = self.l1[addr.l1_index as usize] & OFFSET_MASK;
        if table_off == 0 {
            return Ok(ClusterMap::Unallocated);
        }
        match self.read_l2_entry(table_off, addr.l2_index) {
            Ok(entry) => {
                proof {
                    lemma_map_bounded(self.header, entry);
                }
                decode_l2_entry(&self.header, entry)
            },
            Err(e) => Err(e),
        }
    }

    /// The compressed cluster that the `byte_len` bytes at `host_off` hold:
    /// `len` bytes of it, after the first `skip`.
    pub(crate) fn read_decompressed_slice(
        &mut self,
        host_off: u64,
        byte_len: usize,
        skip: usize,
        len: usize,
    ) -> (r: Result<Vec<u8>, Error>)
        requires
            old(self).inv(),
            byte_len > 0,
            skip + len <= old(self)@.cs(),
        ensures
            final(self).inv(),
            final(self).same_image(&*old(self)),
            r matches Ok(v) ==> (old(self)@.stored_cluster(host_off as int, byte_len as int)
                matches Ok(s) && s.len() == old(self)@.cs() && v@ == s.subrange(
                skip as int,
                skip + len,
            )),
            r matches Err(e) ==> old(self).dependable() ==> (old(self)@.stored_cluster(
                host_off as int,
                byte_len as int,
            ) matches Err(f) && f.reported_by(e)),
    {
        proof {
            lemma_cluster_size(self.header.cluster_bits);
        }
        let cluster_size: usize = self.header.cluster_size as usize;
        let cached: bool = match &self.decompress_cache {
            Some(c) => c.host_off == host_off && c.byte_len == byte_len,
            None => false,
        };
        if !cached {
            let compressed: Vec<u8> = match self.dev_read(host_off, byte_len) {
                Ok(v) => v,
                Err(e) => {
                    return Err(e);
                },
            };
            assert(host_off + byte_len <= self.dev.contents().len() ==> compressed@
                =~= self.dev.contents().subrange(host_off as int, host_off + byte_len));
            match decode_cluster(
                compressed.as_slice(),
                self.header.compression_type,
                cluster_size,
            ) {
                Ok(bytes) => {
                    self.decompress_cache = Some(DecodedCluster { host_off, byte_len, bytes });
                },
                Err(e) => {
                    return Err(e);
                },
            }
        }
        match &self.decompress_cache {
            Some(c) => Ok(vstd::slice::slice_to_vec(
                vstd::slice::slice_subrange(c.bytes.as_slice(), skip, skip + len),
            )),
            None => Ok(zero_vec(len)),
        }
    }

    /// `len` bytes of what lies behind the image: of the backing image, and zeros
    /// where there is none or it has ended.
    pub(crate) fn read_unallocated(&mut self, virt: u64, len: usize) -> (r: Result<Vec<u8>, Error>)
        requires
            old(self).inv(),
        ensures
            final(self).inv(),
            final(self).same_image(&*old(self)),
            r matches Ok(v) ==> v@.len() == len && (forall|i: int|
                0 <= i < len ==> old(self)@.backing_byte(virt + i) == Ok::<u8, Fault>(
                    #[trigger] v@[i],
                )),
            r matches Err(e) ==> old(self).dependable() ==> old(self)@.faulty_behind(
                virt as int,
                len as int,
                e,
            ),
        decreases old(self)@.depth(), 0int,
    {
        let ghost img = self@;
        match &mut self.backing {
            None => {
                let v: Vec<u8> = zero_vec(len);
                assert(forall|i: int|
                    0 <= i < len ==> img.backing_byte(virt + i) == Ok::<u8, Fault>(
                        #[trigger] v@[i],
                    ));
                Ok(v)
            },
            Some(b) => {
                let ghost behind = b@;
                assert(img.backing == Some(Box::new(behind)));
                let bsz: u64 = b.header.virtual_size;
                if virt >= bsz {
                    let v: Vec<u8> = zero_vec(len);
                    assert(forall|i: int|
                        0 <= i < len ==> img.backing_byte(virt + i) == Ok::<u8, Fault>(
                            #[trigger] v@[i],
                        ));
                    Ok(v)
                } else {
                    // Past its end, the backing image reads as zeros.
                    let n: usize = if len as u64 > bsz - virt {
                        (bsz - virt) as usize
                    } else {
                        len
                    };
                    let mut part: Vec<u8> = zero_vec(n);
                    let answer = b.read_at(virt, part.as_mut_slice());
                    match answer {
                        Ok(()) => {
                            let ghost read = part@;
                            part.resize(len, 0u8);
                            assert forall|i: int| 0 <= i < len implies img.backing_byte(virt + i)
                                == Ok::<u8, Fault>(#[trigger] part@[i]) by {
                                if i < n {
                                    assert(part@[i] == read[i]);
                                }
                            }
                            Ok(part)
                        },
                        Err(e) => {
                            proof {
                                if old(self).dependable() {
                                    let i = choose|i: int|
                                        0 <= i < n && behind.readable(virt as int, virt + i) && (
                                        #[trigger] behind.guest_byte(virt + i) matches Err(f)
                                            && f.reported_by(e));
                                    assert forall|j: int| 0 <= j < i implies #[trigger] img.backing_byte(
                                        virt + j,
                                    ) is Ok by {
                                        assert(behind.guest_byte(virt + j) is Ok);
                                    }
                                    assert(img.backing_byte(virt + i) is Err);
                                }
                            }
                            Err(e)
                        },
                    }
                }
            },
        }
    }

    /// `len` bytes of the virtual disk from `virt` on, all in one cluster.
    pub(crate) fn read_chunk(&mut self, virt: u64, len: usize) -> (r: Result<Vec<u8>, Error>)
        requires
            old(self).inv(),
            virt < old(self)@.header.virtual_size,
            0 < len,
            virt as int % old(self)@.cs() + len <= old(self)@.cs(),
        ensures
            final(self).inv(),
            final(self).same_image(&*old(self)),
            r matches Ok(v) ==> v@.len() == len && old(self)@.holds(virt as int, v@),
            r matches Err(e) ==> old(self).dependable() ==> old(self)@.faulty(
                virt as int,
                len as int,
                e,
            ),
        decreases old(self)@.depth(), 1int,
    {
        let ghost img = self@;
        let ghost cs = img.cs();
        proof {
            lemma_cluster_size(self.header.cluster_bits);
            assert forall|i: int| 0 <= i < len implies #[trigger] img.cluster_map(virt + i)
                == img.cluster_map(virt as int) && (virt + i) % cs == virt as int % cs + i by {
                lemma_same_cluster(cs, virt as int, i);
            }
            assert(img.guest_byte(virt + 0) == img.guest_byte(virt as int));
        }
        let in_cluster: u64 = virt % self.header.cluster_size;
        let map = match self.lookup_cluster(virt) {
            Ok(m) => m,
            Err(e) => {
                return Err(e);
            },
        };
        match map {
            ClusterMap::Plain { host_off, .. } => {
                let r = self.dev_read(host_off + in_cluster, len);
                proof {
                    if r is Ok {
                        let v = r->Ok_0;
                        assert forall|i: int| 0 <= i < len implies img.guest_byte(virt + i)
                            == Ok::<u8, Fault>(#[trigger] v@[i]) by {
                            assert(img.cluster_map(virt + i) == img.cluster_map(virt as int));
                        }
                    } else {
                        // The first byte that lies past the end of the device.
                        let past = img.bytes.len() - (host_off + in_cluster);
                        let i = if past > 0 {
                            past
                        } else {
                            0
                        };
                        if old(self).dependable() {
                            assert(img.cluster_map(virt + i) == img.cluster_map(virt as int));
                            assert forall|v: int| virt <= v < virt + i implies #[trigger] img.guest_byte(
                                v,
                            ) is Ok by {
                                assert(img.cluster_map(virt + (v - virt)) == img.cluster_map(
                                    virt as int,
                                ));
                            }
                            assert(img.guest_byte(virt + i) == Err::<u8, Fault>(
                                Fault::OutsideDevice,
                            ));
                        }
                    }
                }
                r
            },
            ClusterMap::Compressed { host_off, byte_len } => {
                let r = self.read_decompressed_slice(host_off, byte_len, in_cluster as usize, len);
                proof {
                    if r is Ok {
                        let v = r->Ok_0;
                        assert forall|i: int| 0 <= i < len implies img.guest_byte(virt + i)
                            == Ok::<u8, Fault>(#[trigger] v@[i]) by {
                            assert(img.cluster_map(virt + i) == img.cluster_map(virt as int));
                        }
                    }
                }
                r
            },
            ClusterMap::Zero => {
                let v: Vec<u8> = zero_vec(len);
                assert forall|i: int| 0 <= i < len implies img.guest_byte(virt + i) == Ok::<
                    u8,
                    Fault,
                >(#[trigger] v@[i]) by {
                    assert(img.cluster_map(virt + i) == img.cluster_map(virt as int));
                }
                Ok(v)
            },
            ClusterMap::Unallocated => {
                let r = self.read_unallocated(virt, len);
                proof {
                    assert forall|i: int| 0 <= i < len implies #[trigger] img.guest_byte(virt + i)
                        == img.backing_byte(virt + i) by {
                        assert(img.cluster_map(virt + i) == img.cluster_map(virt as int));
                    }
                    if r is Ok {
                        let v = r->Ok_0;
                        assert forall|i: int| 0 <= i < len implies img.guest_byte(virt + i)
                            == Ok::<u8, Fault>(#[trigger] v@[i]) by {
                            assert(img.backing_byte(virt + i) == Ok::<u8, Fault>(v@[i]));
                        }
                    } else if old(self).dependable() {
                        let e = r->Err_0;
                        let i = choose|i: int|
                            0 <= i < len && (forall|j: int|
                                0 <= j < i ==> #[trigger] img.backing_byte(virt + j) is Ok) && (
                            #[trigger] img.backing_byte(virt + i) matches Err(f) && f.reported_by(
                                e,
                            ));
                        assert forall|v: int| virt <= v < virt + i implies #[trigger] img.guest_byte(
                            v,
                        ) is Ok by {
                            assert(img.backing_byte(virt + (v - virt)) is Ok);
                            assert(img.guest_byte(virt + (v - virt)) == img.backing_byte(
                                virt + (v - virt),
                            ));
                        }
                        assert(img.guest_byte(virt + i) is Err);
                    }
                }
                r
            },
        }
    }

    /// Fills `buf` from the virtual disk, starting at `offset`.
    pub fn read_at(&mut self, offset: u64, buf: &mut [u8]) -> (r: Result<(), Error>)
        requires
            old(self).inv(),
        ensures
            final(self).inv(),
            final(self).same_image(&*old(self)),
            final(buf)@.len() == old(buf)@.len(),
            old(buf)@.len() == 0 ==> r is Ok,
            match read_refusal(old(self)@.header, offset as int, old(buf)@.len() as int) {
                Some(e) => r == Err::<(), Error>(e) && final(buf)@ == old(buf)@,
                None => match r {
                    Ok(()) => old(self)@.holds(offset as int, final(buf)@),
                    Err(e) => old(self).dependable() ==> old(self)@.faulty(
                        offset as int,
                        old(buf)@.len() as int,
                        e,
                    ),
                },
            },
        decreases old(self)@.depth(), 2int,
    {
        let len: u64 = buf.len() as u64;
        if len == 0 {
            return Ok(());
        }
        if len > u64::MAX - offset {
            return Err(Error::Corrupt("offset+len overflow"));
        }
        let end: u64 = offset + len;
        if end > self.header.virtual_size {
            return Err(Error::OutOfBounds { offset, len, size: self.header.virtual_size });
        }
        let cluster_size: u64 = self.header.cluster_size;
        let ghost img = self@;
        let mut cursor: u64 = offset;
        let mut written: usize = 0;
        while cursor < end
            invariant
                self.inv(),
                self.same_image(&*old(self)),
                img == old(self)@,
                cluster_size == img.cs(),
                buf@.len() == len,
                old(buf)@.len() == len,
                end == offset + len,
                end <= img.header.virtual_size,
                len <= usize::MAX,
                cursor == offset + written,
                written <= len,
                img.holds(offset as int, buf@.subrange(0, written as int)),
            decreases end - cursor,
        {
            proof {
                lemma_cluster_size(self.header.cluster_bits);
            }
            let room: u64 = cluster_size - cursor % cluster_size;
            let chunk: u64 = if room < end - cursor {
                room
            } else {
                end - cursor
            };
            match self.read_chunk(cursor, chunk as usize) {
                Ok(part) => {
                    let ghost before = buf@;
                    copy_into(buf, written, part.as_slice());
                    proof {
                        let after = buf@.subrange(0, written + chunk);
                        assert forall|i: int| 0 <= i < after.len() implies img.guest_byte(
                            offset + i,
                        ) == Ok::<u8, Fault>(#[trigger] after[i]) by {
                            if i < written {
                                assert(after[i] == before.subrange(0, written as int)[i]);
                            } else {
                                assert(after[i] == part@[i - written]);
                                assert(img.guest_byte(cursor + (i - written)) == Ok::<u8, Fault>(
                                    part@[i - written],
                                ));
                            }
                        }
                    }
                },
                Err(e) => {
                    proof {
                        if old(self).dependable() {
                            let i = choose|i: int|
                                0 <= i < chunk && img.readable(cursor as int, cursor + i) && (
                                #[trigger] img.guest_byte(cursor + i) matches Err(f)
                                    && f.reported_by(e));
                            assert forall|v: int| offset <= v < cursor + i implies #[trigger] img.guest_byte(
                                v,
                            ) is Ok by {
                                if v < cursor {
                                    let read = buf@.subrange(0, written as int);
                                    assert(img.guest_byte(offset + (v - offset)) == Ok::<u8, Fault>(
                                        read[v - offset],
                                    ));
                                }
                            }
                            assert(img.guest_byte(offset + (written + i)) is Err);
                        }
                    }
                    return Err(e);
                },
            }
            cursor = cursor + chunk;
            written = written + chunk as usize;
        }
        assert(buf@.subrange(0, len as int) =~= buf@);
        Ok(())
    }

    /// The size of the virtual disk in bytes.
    pub fn virtual_size(&self) -> (n: u64)
        ensures
            n == self@.header.virtual_size,
    {
        self.header.virtual_size
    }

    /// The size of a cluster in bytes.
    pub fn cluster_size(&self) -> (n: u64)
        ensures
            n == self@.header.cluster_size,
    {
        self.header.cluster_size
    }

    /// The version of the format, 2 or 3.
    pub fn version(&self) -> (n: u32)
        ensures
            n == self@.header.version,
    {
        self.header.version
    }

    /// The header of the image.
    pub fn header(&self) -> (h: &Header)
        ensures
            *h == self@.header,
    {
        &self.header
    }

    /// Whether there is an image behind this one.
    pub fn has_backing(&self) -> (b: bool)
        ensures
            b == self@.backing is Some,
    {
        self.backing.is_some()
    }

    /// Whether the image was opened to be written.
    pub fn is_writable(&self) -> (b: bool)
        ensures
            b == self.opened_writable(),
    {
        self.writable
    }

    /// Gives the device up.
    pub fn into_device(self) -> (d: D)
        ensures
            d == self.device(),
    {
        self.dev
    }
}

} // verus!
